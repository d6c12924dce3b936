//! The bowling game state machine: each recorded roll is grouped into frames
//! as it arrives, and the score is computed on demand from the recorded
//! frames.

use vstd::prelude::*;

use crate::scoring::first_two_sum;
use crate::scoring::flatten_from;
use crate::scoring::frame_sum;
use crate::scoring::frames_after_roll;
use crate::scoring::frames_bounded;
use crate::scoring::game_score;
use crate::scoring::is_spare;
use crate::scoring::lemma_frame_contrib_bounds;
use crate::scoring::lemma_frame_sum_take_step;
use crate::scoring::lemma_score_monotonic;
use crate::scoring::rolls_in_range;
use crate::scoring::score_defined;
use crate::scoring::score_upto;
use crate::scoring::spare_bonus;

verus! {

/// One frame of a bowling game: the pin counts of its rolls, in play order.
#[derive(Debug, PartialEq)]
pub struct Frame {
    pub rolls: Vec<i32>,
}

impl View for Frame {
    type V = Seq<int>;

    open spec fn view(&self) -> Seq<int> {
        self.rolls@.map(|_j: int, r: i32| r as int)
    }
}

/// A closed non-final frame: one roll for a strike, two rolls otherwise.
pub open spec fn closed_frame(f: Seq<int>) -> bool {
    &&& f.len() >= 1
    &&& (f[0] == 10 ==> f.len() == 1)
    &&& (f[0] != 10 ==> f.len() == 2)
}

/// The abstract accumulator state: what the frame list and cursor of a game
/// hold at some point of play.
pub struct GameState {
    pub frames: Seq<Seq<int>>,
    pub current_frame: int,
    pub roll_in_frame: int,
}

/// One step of the frame accumulator: how recording one roll moves the
/// abstract state, exactly as `roll` moves a game.
pub open spec fn step(s: GameState, pins: int) -> GameState {
    let frames = frames_after_roll(s.frames, s.roll_in_frame, pins);
    if (s.roll_in_frame == 1 || pins == 10) && s.current_frame < 9 {
        GameState { frames, current_frame: s.current_frame + 1, roll_in_frame: 0 }
    } else {
        GameState { frames, current_frame: s.current_frame, roll_in_frame: s.roll_in_frame + 1 }
    }
}

/// The abstract state reached by playing `rolls` from an empty game.
pub open spec fn play(rolls: Seq<int>) -> GameState
    decreases rolls.len(),
{
    if rolls.len() == 0 {
        GameState { frames: Seq::empty(), current_frame: 0, roll_in_frame: 0 }
    } else {
        step(play(rolls.drop_last()), rolls.last())
    }
}

/// A play in progress keeps its counter pointing at the last frame.
proof fn lemma_play_counter(rolls: Seq<int>)
    ensures
        play(rolls).roll_in_frame != 0 ==> play(rolls).frames.len() >= 1,
    decreases rolls.len(),
{
    if rolls.len() > 0 {
        lemma_play_counter(rolls.drop_last());
    }
}

/// The score never goes down as a game is played out: after any further
/// rolls on top of the same earlier ones, the score is at least what it was.
pub proof fn lemma_play_score_monotonic(rolls: Seq<int>, more: Seq<int>)
    requires
        forall|i: int| 0 <= i < more.len() ==> 0 <= #[trigger] more[i],
    ensures
        game_score(play(rolls + more).frames) >= game_score(play(rolls).frames),
    decreases more.len(),
{
    if more.len() == 0 {
        assert(rolls + more =~= rolls);
    } else {
        let shorter = rolls + more.drop_last();
        lemma_play_score_monotonic(rolls, more.drop_last());
        lemma_play_counter(shorter);
        assert((rolls + more).drop_last() =~= shorter);
        assert((rolls + more).last() == more[more.len() - 1]);
        lemma_score_monotonic(play(shorter).frames, play(shorter).roll_in_frame, more.last());
    }
}

/// A bowling game: the frames recorded so far, the index of the frame being
/// filled, and how many rolls that frame holds so far (the roll-within-frame
/// counter, reset each time a new frame opens).
pub struct BowlingGame {
    pub frames: Vec<Frame>,
    pub current_frame: usize,
    pub roll: usize,
}

impl View for BowlingGame {
    type V = Seq<Seq<int>>;

    open spec fn view(&self) -> Seq<Seq<int>> {
        self.frames@.map(|_i: int, f: Frame| f@)
    }
}

impl BowlingGame {
    /// The abstract state that this game holds.
    pub open spec fn abs(&self) -> GameState {
        GameState {
            frames: self@,
            current_frame: self.current_frame as int,
            roll_in_frame: self.roll as int,
        }
    }

    /// The internal invariant of a game built by recording rolls in order.
    ///
    /// Frames before the cursor are closed; the cursor frame, when open, is
    /// the last of the list and holds as many rolls as the counter says. The
    /// tenth frame never closes, so the cursor stops at index nine and the
    /// counter climbs to at most the three rolls that frame may hold.
    pub open spec fn wf(&self) -> bool {
        &&& self.current_frame <= 9
        &&& self.roll <= 3
        &&& (self.roll == 0 ==> self@.len() == self.current_frame)
        &&& (self.roll >= 1 ==> self@.len() == self.current_frame + 1 && self@[
            self.current_frame as int].len() == self.roll)
        &&& (self.current_frame < 9 ==> self.roll <= 1)
        &&& (self.current_frame < 9 && self.roll == 1 ==> self@[self.current_frame as int][0]
            != 10)
        &&& (forall|i: int| 0 <= i < self.current_frame ==> closed_frame(#[trigger] self@[i]))
        &&& rolls_in_range(self@)
    }

    /// A well-formed game has at most ten frames of at most three rolls, and
    /// none of them is empty.
    pub proof fn lemma_wf_facts(&self)
        requires
            self.wf(),
        ensures
            frames_bounded(self@),
            forall|i: int| 0 <= i < self@.len() ==> (#[trigger] self@[i]).len() >= 1,
    {
    }

    /// Starts a game with no rolls recorded.
    pub fn new() -> (g: BowlingGame)
        ensures
            g.wf(),
            g@ == Seq::<Seq<int>>::empty(),
            g.current_frame == 0,
            g.roll == 0,
    {
        let g = BowlingGame { frames: Vec::new(), current_frame: 0, roll: 0 };
        proof {
            assert(g@ =~= Seq::<Seq<int>>::empty());
        }
        g
    }

    /// Records one roll that felled `pins` pins.
    ///
    /// A new frame opens when the previous one has closed; the frame closes
    /// after a strike or a second roll, except the tenth frame, which stays
    /// open and accumulates up to its three rolls. Rolls beyond the third of
    /// the tenth frame are the caller's responsibility to withhold.
    pub fn roll(&mut self, pins: i32)
        requires
            old(self).wf(),
            0 <= pins <= 10,
            !(old(self).current_frame == 9 && old(self).roll == 3),
        ensures
            final(self).wf(),
            final(self).abs() == step(old(self).abs(), pins as int),
            final(self)@ == frames_after_roll(old(self)@, old(self).roll as int, pins as int),
            final(self).current_frame == (if (old(self).roll == 1 || pins == 10) && old(
                self,
            ).current_frame < 9 {
                old(self).current_frame + 1
            } else {
                old(self).current_frame as int
            }),
            final(self).roll == (if (old(self).roll == 1 || pins == 10) && old(
                self,
            ).current_frame < 9 {
                0int
            } else {
                old(self).roll + 1
            }),
    {
        if self.roll == 0 {
            let frame = Frame { rolls: Vec::new() };
            self.frames.push(frame);
        }
        let idx = self.current_frame;
        self.frames[idx].rolls.push(pins);
        proof {
            if old(self).roll == 0 {
                assert(self@[idx as int] =~= seq![pins as int]);
                assert(self@ =~~= old(self)@.push(seq![pins as int]));
            } else {
                assert(self@[idx as int] =~= old(self)@[idx as int].push(pins as int));
                assert(self@ =~~= old(self)@.update(
                    old(self)@.len() - 1,
                    old(self)@.last().push(pins as int),
                ));
            }
        }
        if (self.roll == 1 || pins == 10) && self.current_frame < 9 {
            self.current_frame = self.current_frame + 1;
            self.roll = 0;
        } else {
            self.roll = self.roll + 1;
        }
        proof {
            assert forall|i: int| 0 <= i < self.current_frame implies closed_frame(
                #[trigger] self@[i],
            ) by {
                if i < old(self).current_frame {
                    assert(self@[i] == old(self)@[i]);
                }
            }
            assert forall|i: int, j: int|
                0 <= i < self@.len() && 0 <= j < self@[i].len() implies 0 <= #[trigger] self@[i][j]
                <= 10 by {
                if i < old(self)@.len() && j < old(self)@[i].len() {
                    assert(old(self)@[i][j] == self@[i][j]);
                }
            }
        }
    }

    /// Sum of the pin counts recorded in `frame`.
    fn sum_frame(&self, frame: &Frame) -> (r: i32)
        requires
            forall|j: int| 0 <= j < frame@.len() ==> 0 <= #[trigger] frame@[j] <= 10,
            frame@.len() <= 3,
        ensures
            r == frame_sum(frame@),
            0 <= r <= 30,
    {
        let mut s: i32 = 0;
        let mut j: usize = 0;
        while j < frame.rolls.len()
            invariant
                0 <= j <= frame@.len(),
                frame@.len() <= 3,
                forall|k: int| 0 <= k < frame@.len() ==> 0 <= #[trigger] frame@[k] <= 10,
                s == frame_sum(frame@.take(j as int)),
                0 <= s <= 10 * j,
            decreases frame@.len() - j,
        {
            proof {
                lemma_frame_sum_take_step(frame@, j as int);
            }
            s = s + frame.rolls[j];
            j = j + 1;
        }
        proof {
            assert(frame@.take(frame@.len() as int) =~= frame@);
        }
        s
    }

    /// Sum of the next two rolls after frame `frame_index`, scanning forward
    /// through the following frames in play order; rolls not yet recorded
    /// contribute nothing.
    fn sum_next_two_rolls(&self, frame_index: usize) -> (r: i32)
        requires
            self.wf(),
            frame_index < self.frames@.len(),
        ensures
            r == first_two_sum(flatten_from(self@, frame_index + 1)),
            0 <= r <= 20,
    {
        proof {
            self.lemma_wf_facts();
        }
        let next = frame_index + 1;
        let ghost tail = flatten_from(self@, next as int);
        if next >= self.frames.len() {
            proof {
                assert(tail =~= Seq::<int>::empty());
            }
            return 0;
        }
        let f1 = &self.frames[next];
        proof {
            assert(f1@ == self@[next as int]);
            assert(tail == self@[next as int] + flatten_from(self@, next + 1));
        }
        if f1.rolls.len() >= 2 {
            proof {
                assert(tail[0] == f1@[0] && tail[1] == f1@[1]);
            }
            f1.rolls[0] + f1.rolls[1]
        } else if next + 1 < self.frames.len() {
            let f2 = &self.frames[next + 1];
            proof {
                assert(f2@ == self@[next + 1]);
                let tail2 = flatten_from(self@, next + 1);
                assert(tail2 == self@[next + 1] + flatten_from(self@, next + 2));
                assert(tail[0] == f1@[0] && tail[1] == tail2[0] && tail2[0] == f2@[0]);
            }
            f1.rolls[0] + f2.rolls[0]
        } else {
            proof {
                assert(flatten_from(self@, next + 1) =~= Seq::<int>::empty());
                assert(tail.len() == f1@.len() && tail[0] == f1@[0]);
            }
            f1.rolls[0]
        }
    }

    /// The cumulative score of the rolls recorded so far: each frame counts
    /// its own pins, a strike adds the next two rolls and a spare the next
    /// one roll. Bonus rolls not yet recorded contribute nothing, but every
    /// spare must already have the roll after it on record.
    pub fn score(&self) -> (r: i32)
        requires
            self.wf(),
            score_defined(self@),
        ensures
            r == game_score(self@),
    {
        proof {
            self.lemma_wf_facts();
        }
        let mut total: i32 = 0;
        let mut i: usize = 0;
        while i < self.frames.len()
            invariant
                self.wf(),
                score_defined(self@),
                0 <= i <= self.frames@.len(),
                total == score_upto(self@, i as int),
                0 <= total <= 50 * i,
            decreases self.frames@.len() - i,
        {
            proof {
                self.lemma_wf_facts();
                lemma_frame_contrib_bounds(self@, i as int);
            }
            let frame = &self.frames[i];
            proof {
                assert(frame@ == self@[i as int]);
            }
            let fs = self.sum_frame(frame);
            if frame.rolls[0] == 10 {
                let bonus = self.sum_next_two_rolls(i);
                total = total + fs + bonus;
            } else if fs == 10 {
                proof {
                    assert(is_spare(self@[i as int]));
                }
                let bonus = self.frames[i + 1].rolls[0];
                proof {
                    assert(bonus == spare_bonus(self@, i as int));
                }
                total = total + fs + bonus;
            } else {
                total = total + fs;
            }
            i = i + 1;
        }
        total
    }

    /// Computes the score when every spare already has its bonus roll on
    /// record, and reports `None` while the last recorded frame is a spare
    /// still waiting for the roll that will settle its bonus.
    pub fn try_score(&self) -> (r: Option<i32>)
        requires
            self.wf(),
        ensures
            match r {
                Some(s) => score_defined(self@) && s == game_score(self@),
                None => !score_defined(self@),
            },
    {
        proof {
            self.lemma_wf_facts();
        }
        let n = self.frames.len();
        if n > 0 {
            let last = &self.frames[n - 1];
            proof {
                assert(last@ == self@[n - 1]);
            }
            let ls = self.sum_frame(last);
            if last.rolls[0] != 10 && ls == 10 {
                proof {
                    assert(is_spare(self@[n - 1]));
                }
                return None;
            }
            proof {
                assert(!is_spare(self@[n - 1]));
            }
        }
        proof {
            assert forall|i: int|
                0 <= i < self@.len() && is_spare(#[trigger] self@[i]) implies i + 1 < self@.len()
                && self@[i + 1].len() > 0 by {
                assert(i != self@.len() - 1);
            }
        }
        Some(self.score())
    }
}

} // verus!
