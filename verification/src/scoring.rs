//! Score arithmetic over the mathematical model of a bowling game: a game is
//! a sequence of frames, each frame a sequence of pin counts.

use vstd::prelude::*;

verus! {

/// Sum of the pin counts of one frame.
pub open spec fn frame_sum(f: Seq<int>) -> int
    decreases f.len(),
{
    if f.len() == 0 {
        0
    } else {
        frame_sum(f.drop_last()) + f.last()
    }
}

/// Sum of the first two entries of a roll sequence; entries past the end of
/// a short sequence contribute nothing.
pub open spec fn first_two_sum(s: Seq<int>) -> int {
    if s.len() >= 2 {
        s[0] + s[1]
    } else if s.len() == 1 {
        s[0]
    } else {
        0
    }
}

/// All rolls of the frames `k` onwards, flattened into one sequence in play
/// order.
pub open spec fn flatten_from(frames: Seq<Seq<int>>, k: int) -> Seq<int>
    decreases frames.len() - k,
{
    if k < 0 || k >= frames.len() {
        Seq::empty()
    } else {
        frames[k] + flatten_from(frames, k + 1)
    }
}

/// The spare bonus of frame `i`: the first roll of the following frame, or
/// nothing while that roll has not been recorded yet.
pub open spec fn spare_bonus(frames: Seq<Seq<int>>, i: int) -> int {
    if i + 1 < frames.len() && frames[i + 1].len() > 0 {
        frames[i + 1][0]
    } else {
        0
    }
}

/// Whether frame `f` is a strike: its first roll fells all ten pins.
pub open spec fn is_strike(f: Seq<int>) -> bool {
    f.len() > 0 && f[0] == 10
}

/// Whether frame `f` is a spare: not a strike, but its rolls fell all ten
/// pins together.
pub open spec fn is_spare(f: Seq<int>) -> bool {
    f.len() > 0 && f[0] != 10 && frame_sum(f) == 10
}

/// What frame `i` contributes to the game score: its own pin count, plus the
/// next two rolls after it for a strike, or the next one roll for a spare.
/// A bonus roll that has not been recorded yet contributes nothing.
pub open spec fn frame_contrib(frames: Seq<Seq<int>>, i: int) -> int {
    let f = frames[i];
    if is_strike(f) {
        frame_sum(f) + first_two_sum(flatten_from(frames, i + 1))
    } else if is_spare(f) {
        frame_sum(f) + spare_bonus(frames, i)
    } else {
        frame_sum(f)
    }
}

/// The score of the first `n` frames.
pub open spec fn score_upto(frames: Seq<Seq<int>>, n: int) -> int
    decreases n,
{
    if n <= 0 {
        0
    } else {
        score_upto(frames, n - 1) + frame_contrib(frames, n - 1)
    }
}

/// The score of the whole recorded game.
pub open spec fn game_score(frames: Seq<Seq<int>>) -> int {
    score_upto(frames, frames.len() as int)
}

/// Whether every spare frame already has its bonus roll on record. While a
/// spare is the last recorded frame its bonus is still missing and the score
/// is only a lower bound on what the game will be worth.
pub open spec fn score_defined(frames: Seq<Seq<int>>) -> bool {
    forall|i: int|
        0 <= i < frames.len() && is_spare(#[trigger] frames[i]) ==> i + 1 < frames.len()
            && frames[i + 1].len() > 0
}

/// Every recorded roll fells between zero and ten pins.
pub open spec fn rolls_in_range(frames: Seq<Seq<int>>) -> bool {
    forall|i: int, j: int|
        0 <= i < frames.len() && 0 <= j < frames[i].len() ==> 0 <= #[trigger] frames[i][j] <= 10
}

/// How one recorded roll changes the frame list: a fresh frame holding the
/// roll is appended when the previous frame has just closed, otherwise the
/// roll joins the frame still being filled, which is the last one.
pub open spec fn frames_after_roll(frames: Seq<Seq<int>>, roll_in_frame: int, pins: int) -> Seq<
    Seq<int>,
> {
    if roll_in_frame == 0 {
        frames.push(seq![pins])
    } else {
        frames.update(frames.len() - 1, frames.last().push(pins))
    }
}

/// At most ten frames are recorded, none holding more than three rolls.
pub open spec fn frames_bounded(frames: Seq<Seq<int>>) -> bool {
    frames.len() <= 10 && forall|i: int| 0 <= i < frames.len() ==> (#[trigger] frames[i]).len() <= 3
}

/// Appending a roll to a frame adds its pin count to the frame sum.
pub proof fn lemma_frame_sum_push(f: Seq<int>, p: int)
    ensures
        frame_sum(f.push(p)) == frame_sum(f) + p,
{
    assert(f.push(p).drop_last() =~= f);
}

/// Summing one more roll of a frame extends the sum of its prefix.
pub proof fn lemma_frame_sum_take_step(f: Seq<int>, j: int)
    requires
        0 <= j < f.len(),
    ensures
        frame_sum(f.take(j + 1)) == frame_sum(f.take(j)) + f[j],
{
    assert(f.take(j + 1).drop_last() =~= f.take(j));
    assert(f.take(j + 1).last() == f[j]);
}

/// A frame whose rolls each fell between zero and ten pins sums to between
/// zero and ten pins per roll.
pub proof fn lemma_frame_sum_bounds(f: Seq<int>)
    requires
        forall|j: int| 0 <= j < f.len() ==> 0 <= #[trigger] f[j] <= 10,
    ensures
        0 <= frame_sum(f) <= 10 * f.len(),
    decreases f.len(),
{
    if f.len() > 0 {
        assert forall|j: int| 0 <= j < f.drop_last().len() implies 0 <= #[trigger] f.drop_last()[j]
            <= 10 by {
            assert(f.drop_last()[j] == f[j]);
        }
        lemma_frame_sum_bounds(f.drop_last());
    }
}

/// Flattening frames whose rolls are in range gives a roll sequence in range.
pub proof fn lemma_flatten_from_in_range(frames: Seq<Seq<int>>, k: int)
    requires
        rolls_in_range(frames),
    ensures
        forall|i: int|
            0 <= i < flatten_from(frames, k).len() ==> 0 <= #[trigger] flatten_from(frames, k)[i]
                <= 10,
    decreases frames.len() - k,
{
    if 0 <= k && k < frames.len() {
        lemma_flatten_from_in_range(frames, k + 1);
        let s = flatten_from(frames, k);
        assert forall|i: int| 0 <= i < s.len() implies 0 <= #[trigger] s[i] <= 10 by {
            if i < frames[k].len() {
                assert(s[i] == frames[k][i]);
            } else {
                assert(s[i] == flatten_from(frames, k + 1)[i - frames[k].len()]);
            }
        }
    }
}

/// What one frame contributes lies between zero and fifty pins: at most
/// three rolls of its own and a bonus of at most two more.
pub proof fn lemma_frame_contrib_bounds(frames: Seq<Seq<int>>, i: int)
    requires
        rolls_in_range(frames),
        0 <= i < frames.len(),
        frames[i].len() <= 3,
    ensures
        0 <= frame_contrib(frames, i) <= 50,
{
    lemma_frame_sum_bounds(frames[i]);
    lemma_flatten_from_in_range(frames, i + 1);
}

/// Appending a roll to a roll sequence never lowers the sum of its first two
/// entries.
pub proof fn lemma_first_two_sum_push(s: Seq<int>, p: int)
    requires
        p >= 0,
    ensures
        first_two_sum(s.push(p)) >= first_two_sum(s),
{
}

/// Appending a frame extends the flattened tail at its end.
pub proof fn lemma_flatten_from_push(frames: Seq<Seq<int>>, g: Seq<int>, k: int)
    requires
        0 <= k <= frames.len(),
    ensures
        flatten_from(frames.push(g), k) == flatten_from(frames, k) + g,
    decreases frames.len() - k,
{
    let frames2 = frames.push(g);
    if k == frames.len() {
        assert(flatten_from(frames2, k + 1) =~= Seq::<int>::empty());
        assert(flatten_from(frames2, k) =~= flatten_from(frames, k) + g);
    } else {
        lemma_flatten_from_push(frames, g, k + 1);
        assert(frames2[k] == frames[k]);
        assert((frames[k] + (flatten_from(frames, k + 1) + g)) =~= ((frames[k] + flatten_from(
            frames,
            k + 1,
        )) + g));
    }
}

/// Appending a roll to the last frame appends it to every flattened tail.
pub proof fn lemma_flatten_from_extend_last(frames: Seq<Seq<int>>, p: int, k: int)
    requires
        frames.len() >= 1,
        0 <= k < frames.len(),
    ensures
        flatten_from(frames.update(frames.len() - 1, frames.last().push(p)), k) == flatten_from(
            frames,
            k,
        ).push(p),
    decreases frames.len() - k,
{
    let last = frames.len() - 1;
    let frames2 = frames.update(last, frames.last().push(p));
    if k == last {
        assert(flatten_from(frames2, k + 1) =~= Seq::<int>::empty());
        assert(flatten_from(frames, k + 1) =~= Seq::<int>::empty());
        assert(frames2[k] == frames.last().push(p));
        assert((frames.last().push(p) + Seq::<int>::empty()) =~= (frames.last()
            + Seq::<int>::empty()).push(p));
    } else {
        lemma_flatten_from_extend_last(frames, p, k + 1);
        assert(frames2[k] == frames[k]);
        assert((frames[k] + flatten_from(frames, k + 1).push(p)) =~= (frames[k] + flatten_from(
            frames,
            k + 1,
        )).push(p));
    }
}

/// Recording one more roll never lowers what any already recorded frame
/// contributes: the frame's own pins are untouched and its bonus can only
/// gain a roll it was still missing.
proof fn lemma_frame_contrib_after_roll(
    frames: Seq<Seq<int>>,
    roll_in_frame: int,
    pins: int,
    i: int,
)
    requires
        0 <= pins,
        0 <= i < frames.len(),
    ensures
        frame_contrib(frames_after_roll(frames, roll_in_frame, pins), i) >= frame_contrib(
            frames,
            i,
        ),
{
    let frames2 = frames_after_roll(frames, roll_in_frame, pins);
    let f = frames[i];
    if roll_in_frame == 0 {
        assert(frames2[i] == f);
        if f.len() == 0 {
        } else if f[0] == 10 {
            lemma_flatten_from_push(frames, seq![pins], i + 1);
            assert(flatten_from(frames2, i + 1) =~= flatten_from(frames, i + 1).push(pins));
            lemma_first_two_sum_push(flatten_from(frames, i + 1), pins);
        } else if frame_sum(f) == 10 {
            if i + 1 < frames.len() {
                assert(frames2[i + 1] == frames[i + 1]);
            } else {
                assert(frames2[i + 1] == seq![pins]);
                assert(spare_bonus(frames, i) == 0);
                assert(spare_bonus(frames2, i) == pins);
            }
        }
    } else {
        let last = frames.len() - 1;
        if i < last {
            assert(frames2[i] == f);
            if f.len() == 0 {
            } else if f[0] == 10 {
                lemma_flatten_from_extend_last(frames, pins, i + 1);
                lemma_first_two_sum_push(flatten_from(frames, i + 1), pins);
            } else if frame_sum(f) == 10 {
                if i + 1 < last {
                    assert(frames2[i + 1] == frames[i + 1]);
                } else {
                    assert(frames2[i + 1] == frames[i + 1].push(pins));
                    if frames[i + 1].len() > 0 {
                        assert(frames2[i + 1][0] == frames[i + 1][0]);
                    } else {
                        assert(spare_bonus(frames, i) == 0);
                        assert(frames2[i + 1][0] == pins);
                    }
                }
            }
        } else {
            let f2 = frames2[i];
            assert(f2 == f.push(pins));
            lemma_frame_sum_push(f, pins);
            assert(flatten_from(frames2, i + 1) =~= Seq::<int>::empty());
            assert(flatten_from(frames, i + 1) =~= Seq::<int>::empty());
            assert(spare_bonus(frames, i) == 0);
            assert(spare_bonus(frames2, i) == 0);
            if f.len() == 0 {
                assert(frame_sum(f) == 0);
                assert(f2[0] == pins);
            } else {
                assert(f2[0] == f[0]);
            }
        }
    }
}

/// Recording one more roll never lowers the score of the first `n` already
/// recorded frames.
proof fn lemma_score_upto_after_roll(frames: Seq<Seq<int>>, roll_in_frame: int, pins: int, n: int)
    requires
        0 <= pins,
        0 <= n <= frames.len(),
    ensures
        score_upto(frames_after_roll(frames, roll_in_frame, pins), n) >= score_upto(frames, n),
    decreases n,
{
    if n > 0 {
        lemma_score_upto_after_roll(frames, roll_in_frame, pins, n - 1);
        lemma_frame_contrib_after_roll(frames, roll_in_frame, pins, n - 1);
    }
}

/// Recording one more roll never lowers the game score: the roll adds its
/// own pins to some frame and can only supply bonuses that earlier strike
/// and spare frames were still missing.
pub proof fn lemma_score_monotonic(frames: Seq<Seq<int>>, roll_in_frame: int, pins: int)
    requires
        0 <= pins,
        roll_in_frame != 0 ==> frames.len() >= 1,
    ensures
        game_score(frames_after_roll(frames, roll_in_frame, pins)) >= game_score(frames),
{
    let frames2 = frames_after_roll(frames, roll_in_frame, pins);
    let n = frames.len() as int;
    lemma_score_upto_after_roll(frames, roll_in_frame, pins, n);
    if roll_in_frame == 0 {
        assert(game_score(frames2) == score_upto(frames2, n) + frame_contrib(frames2, n));
        let g = frames2[n];
        assert(g == seq![pins]);
        assert(g.drop_last() =~= Seq::<int>::empty());
        assert(frame_sum(Seq::<int>::empty()) == 0);
        assert(frame_sum(g) == pins);
        assert(flatten_from(frames2, n + 1) =~= Seq::<int>::empty());
        assert(frame_contrib(frames2, n) >= 0);
    }
}

/// The score depends on the recorded frames alone: two score computations
/// with no roll recorded in between give the same value.
pub proof fn lemma_score_idempotent(frames: Seq<Seq<int>>, first: int, second: int)
    requires
        first == game_score(frames),
        second == game_score(frames),
    ensures
        first == second,
{
}

} // verus!
