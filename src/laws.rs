use vstd::prelude::*;
use crate::cards::{hand_rank, HOLE_CARDS, BOARD_CARDS};
use crate::engine::{
    count_outcome, drawn_ok, full_board, opponent_full, player_full, showdown_of, table_ok, tallies,
    tally_of, trial_outcome, Showdown, Showdowns,
};

verus! {

proof fn lemma_concat_to_set(a: Seq<u8>, c: Seq<u8>)
    ensures
        (a + c).to_set() == a.to_set().union(c.to_set()),
{
    let j = a + c;
    assert forall|x: u8| j.contains(x) <==> (a.contains(x) || c.contains(x)) by {
        if j.contains(x) {
            let k = choose|k: int| 0 <= k < j.len() && j[k] == x;
            if k < a.len() {
                assert(a[k] == x);
            } else {
                assert(c[k - a.len()] == x);
            }
        }
        if a.contains(x) {
            let k = choose|k: int| 0 <= k < a.len() && a[k] == x;
            assert(j[k] == x);
        }
        if c.contains(x) {
            let k = choose|k: int| 0 <= k < c.len() && c[k] == x;
            assert(j[k + a.len()] == x);
        }
    }
    assert((a + c).to_set() =~= a.to_set().union(c.to_set()));
}

/// When every one of the first `k` trials ended in `w`, the count of `w`
/// is `k` and every other count is zero.
proof fn lemma_uniform_counts(
    p: Seq<u8>,
    os: Seq<Seq<u8>>,
    b: Seq<u8>,
    draws: Seq<Seq<u8>>,
    k: int,
    w: Showdown,
)
    requires
        0 <= k <= draws.len(),
        forall|t: int| 0 <= t < k ==> trial_outcome(p, os, b, #[trigger] draws[t]) == w,
    ensures
        forall|v: Showdown| #[trigger] count_outcome(p, os, b, draws, k, v) == if v == w { k } else { 0 },
    decreases k,
{
    if k > 0 {
        lemma_uniform_counts(p, os, b, draws, k - 1, w);
        assert(trial_outcome(p, os, b, draws[k - 1]) == w);
        assert forall|v: Showdown| #[trigger] count_outcome(p, os, b, draws, k, v) == if v == w { k } else { 0 } by {
            assert(count_outcome(p, os, b, draws, k - 1, v) == if v == w { k - 1 } else { 0 });
        }
    } else {
        assert forall|v: Showdown| #[trigger] count_outcome(p, os, b, draws, k, v) == if v == w { k } else { 0 } by {}
    }
}

/// A player matched against a single opponent who holds the very same two
/// cards splits every pot: every trial is a tie, so the equity is exactly
/// one half, whatever the board, the seed or the number of samples.
pub proof fn identical_hands_split(p: Seq<u8>, o: Seq<u8>, b: Seq<u8>, samples: int, s: Showdowns)
    requires
        table_ok(p, seq![o], b),
        p.len() == HOLE_CARDS,
        o.len() == HOLE_CARDS,
        o.to_set() == p.to_set(),
        tallies(p, seq![o], b, samples, s),
    ensures
        s.ties == samples,
        s.wins == 0,
        s.losses == 0,
{
    let os = seq![o];
    let draws = choose|draws: Seq<Seq<u8>>| draws.len() == samples && #[trigger] tally_of(p, os, b, draws, s);
    assert forall|t: int| 0 <= t < draws.len() implies trial_outcome(p, os, b, #[trigger] draws[t]) == Showdown::Tie by {
        let d = draws[t];
        assert(drawn_ok(p, os, b, d));
        let m = BOARD_CARDS - b.len();
        let e = d.subrange(m, m);
        let fb = full_board(b, d);
        assert(player_full(p, b, d) == p + e + fb);
        assert(opponent_full(p, os, b, d, 0) =~= o + e + fb);
        lemma_concat_to_set(p, e);
        lemma_concat_to_set(o, e);
        lemma_concat_to_set(p + e, fb);
        lemma_concat_to_set(o + e, fb);
        assert(player_full(p, b, d).to_set() == opponent_full(p, os, b, d, 0).to_set());
    }
    lemma_uniform_counts(p, os, b, draws, samples, Showdown::Tie);
    assert(count_outcome(p, os, b, draws, samples, Showdown::Win) == 0);
    assert(count_outcome(p, os, b, draws, samples, Showdown::Loss) == 0);
}

/// With the whole board known and both the player and a single opponent
/// holding two known cards, nothing is dealt, so every trial ends alike:
/// the player wins all, splits all or loses all of the pots, as the two
/// hands' ranks on that board decide.
pub proof fn complete_board_is_settled(p: Seq<u8>, o: Seq<u8>, b: Seq<u8>, samples: int, s: Showdowns)
    requires
        table_ok(p, seq![o], b),
        p.len() == HOLE_CARDS,
        o.len() == HOLE_CARDS,
        b.len() == BOARD_CARDS,
        tallies(p, seq![o], b, samples, s),
    ensures
        ({
            let w = showdown_of(hand_rank((p + b).to_set()), hand_rank((o + b).to_set()));
            &&& s.wins == if w == Showdown::Win { samples } else { 0 }
            &&& s.ties == if w == Showdown::Tie { samples } else { 0 }
            &&& s.losses == if w == Showdown::Loss { samples } else { 0 }
        }),
{
    let os = seq![o];
    let w = showdown_of(hand_rank((p + b).to_set()), hand_rank((o + b).to_set()));
    let draws = choose|draws: Seq<Seq<u8>>| draws.len() == samples && #[trigger] tally_of(p, os, b, draws, s);
    assert forall|t: int| 0 <= t < draws.len() implies trial_outcome(p, os, b, #[trigger] draws[t]) == w by {
        let d = draws[t];
        assert(drawn_ok(p, os, b, d));
        assert(player_full(p, b, d) =~= p + b);
        assert(opponent_full(p, os, b, d, 0) =~= o + b);
    }
    lemma_uniform_counts(p, os, b, draws, samples, w);
    assert(count_outcome(p, os, b, draws, samples, Showdown::Win) == if w == Showdown::Win { samples } else { 0 });
    assert(count_outcome(p, os, b, draws, samples, Showdown::Tie) == if w == Showdown::Tie { samples } else { 0 });
    assert(count_outcome(p, os, b, draws, samples, Showdown::Loss) == if w == Showdown::Loss { samples } else { 0 });
}

} // verus!
