use vstd::prelude::*;
use crate::cards::{Hand, all_cards, disjoint, valid_cards, hand_rank, rank_cards, BOARD_CARDS, CARD_COUNT, HOLE_CARDS};
use crate::deck::{deck_deal, deck_pool, deck_reset, deck_with_seed};

verus! {

/// The player's result in one trial.
#[derive(Clone, Copy, Debug, PartialEq, Eq, Structural)]
pub enum Showdown {
    /// The player beats the strongest opponent and takes the pot.
    Win,
    /// The player ties the strongest opponent and splits the pot.
    Tie,
    /// The strongest opponent beats the player.
    Loss,
}

/// The card sequences held by a list of hands.
pub open spec fn views(hs: Seq<Hand>) -> Seq<Seq<u8>> {
    hs.map_values(|h: Hand| h@)
}

/// Unknown cards of the first `k` opponents.
pub open spec fn opponents_missing(os: Seq<Seq<u8>>, k: int) -> int
    decreases k,
{
    if k <= 0 {
        0
    } else {
        opponents_missing(os, k - 1) + (HOLE_CARDS - os[k - 1].len())
    }
}

/// Cards a trial deals: the rest of the board, then the player's unknown
/// hole cards, then each opponent's in turn.
pub open spec fn cards_needed(p: Seq<u8>, os: Seq<Seq<u8>>, b: Seq<u8>) -> int {
    (BOARD_CARDS - b.len()) + (HOLE_CARDS - p.len()) + opponents_missing(os, os.len() as int)
}

/// Where opponent `i`'s cards start among the cards dealt in a trial.
pub open spec fn opponent_start(p: Seq<u8>, os: Seq<Seq<u8>>, b: Seq<u8>, i: int) -> int {
    (BOARD_CARDS - b.len()) + (HOLE_CARDS - p.len()) + opponents_missing(os, i)
}

/// The board completed with the first cards dealt.
pub open spec fn full_board(b: Seq<u8>, d: Seq<u8>) -> Seq<u8> {
    b + d.take(BOARD_CARDS - b.len())
}

/// The player's seven cards in a trial that dealt `d`.
pub open spec fn player_full(p: Seq<u8>, b: Seq<u8>, d: Seq<u8>) -> Seq<u8> {
    let s = BOARD_CARDS - b.len();
    p + d.subrange(s, s + (HOLE_CARDS - p.len())) + full_board(b, d)
}

/// Opponent `i`'s seven cards in a trial that dealt `d`.
pub open spec fn opponent_full(p: Seq<u8>, os: Seq<Seq<u8>>, b: Seq<u8>, d: Seq<u8>, i: int) -> Seq<u8> {
    let s = opponent_start(p, os, b, i);
    os[i] + d.subrange(s, s + (HOLE_CARDS - os[i].len())) + full_board(b, d)
}

/// The strongest rank among the first `k` opponents (`k` at least one).
pub open spec fn best_opponent_rank(p: Seq<u8>, os: Seq<Seq<u8>>, b: Seq<u8>, d: Seq<u8>, k: int) -> u16
    decreases k,
{
    let r = hand_rank(opponent_full(p, os, b, d, k - 1).to_set());
    if k <= 1 {
        r
    } else {
        let prev = best_opponent_rank(p, os, b, d, k - 1);
        if r > prev {
            r
        } else {
            prev
        }
    }
}

/// The player's result against the strongest opponent.
pub open spec fn showdown_of(mine: u16, theirs: u16) -> Showdown {
    if mine > theirs {
        Showdown::Win
    } else if mine < theirs {
        Showdown::Loss
    } else {
        Showdown::Tie
    }
}

/// The result of a trial that dealt the cards `d`.
pub open spec fn trial_outcome(p: Seq<u8>, os: Seq<Seq<u8>>, b: Seq<u8>, d: Seq<u8>) -> Showdown {
    showdown_of(
        hand_rank(player_full(p, b, d).to_set()),
        best_opponent_rank(p, os, b, d, os.len() as int),
    )
}

/// Every hand holds distinct cards, at most seven.
pub open spec fn hands_valid(p: Seq<u8>, os: Seq<Seq<u8>>, b: Seq<u8>) -> bool {
    &&& valid_cards(p)
    &&& valid_cards(b)
    &&& forall|i: int| 0 <= i < os.len() ==> valid_cards(#[trigger] os[i])
}

/// No hand holds more cards than its role allows: two hole cards, five on
/// the board.
pub open spec fn within_ceilings(p: Seq<u8>, os: Seq<Seq<u8>>, b: Seq<u8>) -> bool {
    &&& p.len() <= HOLE_CARDS
    &&& b.len() <= BOARD_CARDS
    &&& forall|i: int| 0 <= i < os.len() ==> (#[trigger] os[i]).len() <= HOLE_CARDS
}

/// Every hand holds valid cards and no more than its role allows.
pub open spec fn hands_fit(p: Seq<u8>, os: Seq<Seq<u8>>, b: Seq<u8>) -> bool {
    hands_valid(p, os, b) && within_ceilings(p, os, b)
}

/// `a` and `b` hold the same cards: as many, and each of `a` in `b`.
pub open spec fn same_cards(a: Seq<u8>, b: Seq<u8>) -> bool {
    a.len() == b.len() && forall|i: int| 0 <= i < a.len() ==> b.contains(#[trigger] a[i])
}

/// No card is placed twice: not on the board and in a hand, not in two
/// opponents' hands, and not in the player's and an opponent's, unless
/// that opponent holds exactly the player's cards (a hand matched against
/// itself).
pub open spec fn no_conflict(p: Seq<u8>, os: Seq<Seq<u8>>, b: Seq<u8>) -> bool {
    &&& disjoint(p, b)
    &&& forall|i: int| 0 <= i < os.len() ==> disjoint(p, #[trigger] os[i]) || same_cards(os[i], p)
    &&& forall|i: int| 0 <= i < os.len() ==> disjoint(#[trigger] os[i], b)
    &&& forall|i: int, j: int| 0 <= i < j < os.len() ==> disjoint(#[trigger] os[i], #[trigger] os[j])
}

/// The card is already placed in some hand or on the board.
pub open spec fn is_fixed(p: Seq<u8>, os: Seq<Seq<u8>>, b: Seq<u8>, c: u8) -> bool {
    p.contains(c) || b.contains(c) || exists|i: int| 0 <= i < os.len() && #[trigger] os[i].contains(c)
}

/// How many of the cards `0..n` are not placed in any hand or on the board.
pub open spec fn free_count(p: Seq<u8>, os: Seq<Seq<u8>>, b: Seq<u8>, n: int) -> int
    decreases n,
{
    if n <= 0 {
        0
    } else {
        free_count(p, os, b, n - 1) + if is_fixed(p, os, b, (n - 1) as u8) {
            0int
        } else {
            1int
        }
    }
}

/// A legal deal for one trial: exactly the cards needed, distinct, none
/// of them already placed.
pub open spec fn drawn_ok(p: Seq<u8>, os: Seq<Seq<u8>>, b: Seq<u8>, d: Seq<u8>) -> bool {
    &&& d.len() == cards_needed(p, os, b)
    &&& d.no_duplicates()
    &&& all_cards(d)
    &&& forall|j: int| 0 <= j < d.len() ==> !is_fixed(p, os, b, #[trigger] d[j])
}

/// A well-formed table: valid hands within their ceilings, no conflicting
/// card, and at least one opponent.
pub open spec fn table_ok(p: Seq<u8>, os: Seq<Seq<u8>>, b: Seq<u8>) -> bool {
    hands_fit(p, os, b) && no_conflict(p, os, b) && os.len() >= 1
}

/// How many of the first `k` trials, dealt `draws`, ended in `w`.
pub open spec fn count_outcome(
    p: Seq<u8>,
    os: Seq<Seq<u8>>,
    b: Seq<u8>,
    draws: Seq<Seq<u8>>,
    k: int,
    w: Showdown,
) -> int
    decreases k,
{
    if k <= 0 {
        0
    } else {
        count_outcome(p, os, b, draws, k - 1, w) + if trial_outcome(p, os, b, draws[k - 1]) == w {
            1int
        } else {
            0int
        }
    }
}

/// Counts of a computation's trials by the player's result.
#[derive(Clone, Copy, Debug, PartialEq, Eq, Structural)]
pub struct Showdowns {
    pub wins: usize,
    pub ties: usize,
    pub losses: usize,
}

/// `s` counts the results of trials that dealt `draws`, each deal legal.
pub open spec fn tally_of(p: Seq<u8>, os: Seq<Seq<u8>>, b: Seq<u8>, draws: Seq<Seq<u8>>, s: Showdowns) -> bool {
    &&& forall|t: int| 0 <= t < draws.len() ==> drawn_ok(p, os, b, #[trigger] draws[t])
    &&& s.wins == count_outcome(p, os, b, draws, draws.len() as int, Showdown::Win)
    &&& s.ties == count_outcome(p, os, b, draws, draws.len() as int, Showdown::Tie)
    &&& s.losses == count_outcome(p, os, b, draws, draws.len() as int, Showdown::Loss)
}

/// `s` counts the results of `samples` trials, each dealt legally from the
/// cards not placed in any hand or on the board.
pub open spec fn tallies(p: Seq<u8>, os: Seq<Seq<u8>>, b: Seq<u8>, samples: int, s: Showdowns) -> bool {
    exists|draws: Seq<Seq<u8>>| draws.len() == samples && #[trigger] tally_of(p, os, b, draws, s)
}

/// Why an equity computation was refused.
#[derive(Clone, Copy, Debug, PartialEq, Eq, Structural)]
pub enum EquityError {
    /// A hand holds more cards than its role allows.
    TooManyCards,
    /// A card is placed twice (on the board and in a hand, or in two
    /// opponents' hands).
    DuplicateCard,
    /// Fewer cards are left than a trial must deal.
    InsufficientCards,
}

proof fn lemma_count_push(
    p: Seq<u8>,
    os: Seq<Seq<u8>>,
    b: Seq<u8>,
    draws: Seq<Seq<u8>>,
    x: Seq<u8>,
    k: int,
    w: Showdown,
)
    requires
        0 <= k <= draws.len(),
    ensures
        count_outcome(p, os, b, draws.push(x), k, w) == count_outcome(p, os, b, draws, k, w),
    decreases k,
{
    if k > 0 {
        lemma_count_push(p, os, b, draws, x, k - 1, w);
        assert(draws.push(x)[k - 1] == draws[k - 1]);
    }
}

proof fn lemma_free_bound(p: Seq<u8>, os: Seq<Seq<u8>>, b: Seq<u8>, n: int)
    requires
        0 <= n,
    ensures
        0 <= free_count(p, os, b, n) <= n,
    decreases n,
{
    if n > 0 {
        lemma_free_bound(p, os, b, n - 1);
    }
}

proof fn lemma_missing_bounds(os: Seq<Seq<u8>>, k: int)
    requires
        0 <= k <= os.len(),
        forall|i: int| 0 <= i < os.len() ==> (#[trigger] os[i]).len() <= HOLE_CARDS,
    ensures
        0 <= opponents_missing(os, k) <= 2 * k,
        forall|m: int| 0 <= m <= k ==> #[trigger] opponents_missing(os, m) <= opponents_missing(os, k),
    decreases k,
{
    if k > 0 {
        lemma_missing_bounds(os, k - 1);
    }
}

/// A hole hand completed from the deal, joined with the full board, holds
/// no card twice.
proof fn lemma_seven_distinct(h: Seq<u8>, b: Seq<u8>, d: Seq<u8>, s: int, e: int, fixed: spec_fn(u8) -> bool)
    requires
        h.no_duplicates(),
        b.no_duplicates(),
        d.no_duplicates(),
        disjoint(h, b),
        b.len() <= BOARD_CARDS,
        BOARD_CARDS - b.len() <= s <= e <= d.len(),
        forall|k: int| 0 <= k < h.len() ==> fixed(#[trigger] h[k]),
        forall|k: int| 0 <= k < b.len() ==> fixed(#[trigger] b[k]),
        forall|k: int| 0 <= k < d.len() ==> !fixed(#[trigger] d[k]),
    ensures
        (h + d.subrange(s, e) + full_board(b, d)).no_duplicates(),
{
    let x = h + d.subrange(s, e);
    let y = full_board(b, d);
    let m = BOARD_CARDS - b.len();
    assert forall|i: int, j: int| 0 <= i < x.len() && 0 <= j < x.len() && i != j implies x[i] != x[j] by {
        if i >= h.len() && j >= h.len() {
            assert(d[s + i - h.len()] != d[s + j - h.len()]);
        }
        if i < h.len() && j >= h.len() {
            assert(!fixed(d[s + j - h.len()]));
        }
        if j < h.len() && i >= h.len() {
            assert(!fixed(d[s + i - h.len()]));
        }
    }
    assert forall|i: int, j: int| 0 <= i < y.len() && 0 <= j < y.len() && i != j implies y[i] != y[j] by {
        if i >= b.len() && j >= b.len() {
            assert(d[i - b.len()] != d[j - b.len()]);
        }
        if i < b.len() && j >= b.len() {
            assert(!fixed(d[j - b.len()]));
        }
        if j < b.len() && i >= b.len() {
            assert(!fixed(d[i - b.len()]));
        }
    }
    let z = x + y;
    assert forall|i: int, j: int| 0 <= i < z.len() && 0 <= j < z.len() && i != j implies z[i] != z[j] by {
        if i < x.len() && j >= x.len() {
            let jj = j - x.len();
            if i < h.len() && jj < b.len() {
                assert(h[i] != b[jj]);
            } else if i < h.len() {
                assert(!fixed(d[jj - b.len()]));
            } else if jj < b.len() {
                assert(!fixed(d[s + i - h.len()]));
            } else {
                assert(d[s + i - h.len()] != d[jj - b.len()]);
            }
        }
        if j < x.len() && i >= x.len() {
            let ii = i - x.len();
            if j < h.len() && ii < b.len() {
                assert(h[j] != b[ii]);
            } else if j < h.len() {
                assert(!fixed(d[ii - b.len()]));
            } else if ii < b.len() {
                assert(!fixed(d[s + j - h.len()]));
            } else {
                assert(d[s + j - h.len()] != d[ii - b.len()]);
            }
        }
    }
}

/// Appends `src[from..to]` to `out`.
fn append_cards(out: &mut Vec<u8>, src: &Vec<u8>, from: usize, to: usize)
    requires
        from <= to <= src@.len(),
    ensures
        final(out)@ == old(out)@ + src@.subrange(from as int, to as int),
{
    let mut i: usize = from;
    while i < to
        invariant
            from <= i <= to <= src@.len(),
            out@ == old(out)@ + src@.subrange(from as int, i as int),
        decreases to - i,
    {
        out.push(src[i]);
        i += 1;
        assert(out@ =~= old(out)@ + src@.subrange(from as int, i as int));
    }
}

/// Plays one trial on the cards `drawn` dealt for it: completes the board,
/// the player's hole cards and each opponent's, in that order, ranks every
/// hand with the board and compares the player with the strongest opponent.
pub fn play_trial(player: &Hand, opponents: &Vec<Hand>, board: &Hand, drawn: &Vec<u8>) -> (r: Showdown)
    requires
        table_ok(player@, views(opponents@), board@),
        drawn_ok(player@, views(opponents@), board@, drawn@),
    ensures
        r == trial_outcome(player@, views(opponents@), board@, drawn@),
{
    let ghost p = player@;
    let ghost os = views(opponents@);
    let ghost b = board@;
    let ghost d = drawn@;
    let ghost fixed = |c: u8| is_fixed(p, os, b, c);
    proof {
        lemma_missing_bounds(os, os.len() as int);
        assert forall|k: int| 0 <= k < p.len() implies fixed(#[trigger] p[k]) by {
            assert(p.contains(p[k]));
        }
        assert forall|k: int| 0 <= k < b.len() implies fixed(#[trigger] b[k]) by {
            assert(b.contains(b[k]));
        }
    }
    let bm = BOARD_CARDS - board.len();
    let mut full: Vec<u8> = Vec::new();
    append_cards(&mut full, board.cards(), 0, board.len());
    append_cards(&mut full, drawn, 0, bm);
    assert(full@ =~= full_board(b, d));
    let pm = HOLE_CARDS - player.len();
    let mut mine: Vec<u8> = Vec::new();
    append_cards(&mut mine, player.cards(), 0, player.len());
    append_cards(&mut mine, drawn, bm, bm + pm);
    append_cards(&mut mine, &full, 0, full.len());
    proof {
        lemma_seven_distinct(p, b, d, bm as int, (bm + pm) as int, fixed);
        assert(full@.subrange(0, full@.len() as int) =~= full@);
        assert(mine@ =~= player_full(p, b, d));
    }
    let my_rank = rank_cards(&mine);
    let mut start: usize = bm + pm;
    let mut best: u16 = 0;
    let mut i: usize = 0;
    while i < opponents.len()
        invariant
            table_ok(p, os, b),
            drawn_ok(p, os, b, d),
            p == player@,
            b == board@,
            d == drawn@,
            os == views(opponents@),
            forall|c: u8| #[trigger] fixed(c) == is_fixed(p, os, b, c),
            forall|k: int| 0 <= k < b.len() ==> fixed(#[trigger] b[k]),
            0 <= i <= opponents@.len(),
            start == opponent_start(p, os, b, i as int),
            i >= 1 ==> best == best_opponent_rank(p, os, b, d, i as int),
            full@ == full_board(b, d),
        decreases opponents@.len() - i,
    {
        let o = &opponents[i];
        let ghost oi = os[i as int];
        assert(oi == o@);
        let om = HOLE_CARDS - o.len();
        proof {
            lemma_missing_bounds(os, os.len() as int);
            lemma_missing_bounds(os, i as int);
            assert(opponents_missing(os, i + 1) == opponents_missing(os, i as int) + (HOLE_CARDS - oi.len()));
            assert(opponents_missing(os, i + 1) <= opponents_missing(os, os.len() as int));
            assert(start + om <= d.len());
            assert forall|k: int| 0 <= k < oi.len() implies fixed(#[trigger] oi[k]) by {
                assert(os[i as int].contains(oi[k]));
            }
        }
        let mut theirs: Vec<u8> = Vec::new();
        append_cards(&mut theirs, o.cards(), 0, o.len());
        let dl = drawn.len();
        assert(start + om <= dl);
        append_cards(&mut theirs, drawn, start, start + om);
        append_cards(&mut theirs, &full, 0, full.len());
        proof {
            lemma_seven_distinct(oi, b, d, start as int, (start + om) as int, fixed);
            assert(full@.subrange(0, full@.len() as int) =~= full@);
            assert(theirs@ =~= opponent_full(p, os, b, d, i as int));
        }
        let r = rank_cards(&theirs);
        if i == 0 || r > best {
            best = r;
        }
        start = start + om;
        i += 1;
    }
    if my_rank > best {
        Showdown::Win
    } else if my_rank < best {
        Showdown::Loss
    } else {
        Showdown::Tie
    }
}

/// Whether two hands share no card.
fn hands_disjoint(a: &Hand, b: &Hand) -> (r: bool)
    ensures
        r == disjoint(a@, b@),
{
    let cards = a.cards();
    let mut i: usize = 0;
    while i < cards.len()
        invariant
            cards@ == a@,
            0 <= i <= cards@.len(),
            forall|x: int, j: int| 0 <= x < i && 0 <= j < b@.len() ==> #[trigger] a@[x] != #[trigger] b@[j],
        decreases cards@.len() - i,
    {
        let c = cards[i];
        if b.contains(c) {
            let ghost j = choose|j: int| 0 <= j < b@.len() && b@[j] == c;
            assert(a@[i as int] == b@[j]);
            return false;
        }
        i += 1;
    }
    true
}

/// Whether `a` holds exactly the cards of `b`.
fn hands_same(a: &Hand, b: &Hand) -> (r: bool)
    ensures
        r == same_cards(a@, b@),
{
    if a.len() != b.len() {
        return false;
    }
    let cards = a.cards();
    let mut i: usize = 0;
    while i < cards.len()
        invariant
            cards@ == a@,
            a@.len() == b@.len(),
            0 <= i <= cards@.len(),
            forall|k: int| 0 <= k < i ==> b@.contains(#[trigger] a@[k]),
        decreases cards@.len() - i,
    {
        if !b.contains(cards[i]) {
            return false;
        }
        i += 1;
    }
    true
}

/// Checks that every hand fits its role and that no card is placed twice.
fn check_table(player: &Hand, opponents: &Vec<Hand>, board: &Hand) -> (r: Result<(), EquityError>)
    ensures
        !within_ceilings(player@, views(opponents@), board@) ==> r == Err::<(), EquityError>(EquityError::TooManyCards),
        within_ceilings(player@, views(opponents@), board@) && !no_conflict(player@, views(opponents@), board@)
            ==> r == Err::<(), EquityError>(EquityError::DuplicateCard),
        within_ceilings(player@, views(opponents@), board@) && no_conflict(player@, views(opponents@), board@)
            ==> r is Ok,
{
    let ghost os = views(opponents@);
    if player.len() > HOLE_CARDS || board.len() > BOARD_CARDS {
        return Err(EquityError::TooManyCards);
    }
    let mut i: usize = 0;
    while i < opponents.len()
        invariant
            os == views(opponents@),
            0 <= i <= opponents@.len(),
            forall|k: int| 0 <= k < i ==> (#[trigger] os[k]).len() <= HOLE_CARDS,
        decreases opponents@.len() - i,
    {
        if opponents[i].len() > HOLE_CARDS {
            assert(os[i as int].len() > HOLE_CARDS);
            return Err(EquityError::TooManyCards);
        }
        i += 1;
    }
    if !hands_disjoint(player, board) {
        return Err(EquityError::DuplicateCard);
    }
    let mut i: usize = 0;
    while i < opponents.len()
        invariant
            os == views(opponents@),
            within_ceilings(player@, os, board@),
            disjoint(player@, board@),
            0 <= i <= opponents@.len(),
            forall|k: int| 0 <= k < i ==> disjoint(#[trigger] os[k], board@),
            forall|k: int| 0 <= k < i ==> disjoint(player@, #[trigger] os[k]) || same_cards(os[k], player@),
            forall|k: int, m: int| 0 <= k < m < os.len() && k < i ==> disjoint(#[trigger] os[k], #[trigger] os[m]),
        decreases opponents@.len() - i,
    {
        if !hands_disjoint(&opponents[i], board) {
            assert(!disjoint(os[i as int], board@));
            return Err(EquityError::DuplicateCard);
        }
        if !hands_disjoint(player, &opponents[i]) && !hands_same(&opponents[i], player) {
            assert(!(disjoint(player@, os[i as int]) || same_cards(os[i as int], player@)));
            return Err(EquityError::DuplicateCard);
        }
        let mut j: usize = i + 1;
        while j < opponents.len()
            invariant
                os == views(opponents@),
                within_ceilings(player@, os, board@),
                disjoint(player@, board@),
                forall|k: int| 0 <= k <= i ==> disjoint(#[trigger] os[k], board@),
                forall|k: int| 0 <= k <= i ==> disjoint(player@, #[trigger] os[k]) || same_cards(os[k], player@),
                forall|k: int, m: int| 0 <= k < m < os.len() && k < i ==> disjoint(#[trigger] os[k], #[trigger] os[m]),
                0 <= i < j <= opponents@.len(),
                forall|m: int| i < m < j ==> disjoint(os[i as int], #[trigger] os[m]),
            decreases opponents@.len() - j,
        {
            if !hands_disjoint(&opponents[i], &opponents[j]) {
                assert(!disjoint(os[i as int], os[j as int]));
                return Err(EquityError::DuplicateCard);
            }
            j += 1;
        }
        i += 1;
    }
    Ok(())
}

/// Whether the card is already placed in a hand or on the board.
fn is_fixed_card(player: &Hand, opponents: &Vec<Hand>, board: &Hand, c: u8) -> (r: bool)
    ensures
        r == is_fixed(player@, views(opponents@), board@, c),
{
    let ghost os = views(opponents@);
    if player.contains(c) || board.contains(c) {
        return true;
    }
    let mut i: usize = 0;
    while i < opponents.len()
        invariant
            os == views(opponents@),
            0 <= i <= opponents@.len(),
            forall|k: int| 0 <= k < i ==> !(#[trigger] os[k]).contains(c),
        decreases opponents@.len() - i,
    {
        if opponents[i].contains(c) {
            assert(os[i as int].contains(c));
            return true;
        }
        i += 1;
    }
    false
}

/// The cards placed in no hand and not on the board, in index order.
fn unseen_cards(player: &Hand, opponents: &Vec<Hand>, board: &Hand) -> (v: Vec<u8>)
    ensures
        v@.len() == free_count(player@, views(opponents@), board@, 52),
        v@.no_duplicates(),
        all_cards(v@),
        forall|k: int| 0 <= k < v@.len() ==> !is_fixed(player@, views(opponents@), board@, #[trigger] v@[k]),
        forall|c: u8| c < 52 && !is_fixed(player@, views(opponents@), board@, c) ==> v@.contains(c),
{
    let ghost p = player@;
    let ghost os = views(opponents@);
    let ghost b = board@;
    let mut v: Vec<u8> = Vec::new();
    let mut c: u8 = 0;
    while c < CARD_COUNT
        invariant
            p == player@,
            os == views(opponents@),
            b == board@,
            0 <= c <= 52,
            v@.len() == free_count(p, os, b, c as int),
            v@.no_duplicates(),
            forall|k: int| 0 <= k < v@.len() ==> #[trigger] v@[k] < c,
            forall|k: int| 0 <= k < v@.len() ==> !is_fixed(p, os, b, #[trigger] v@[k]),
            forall|x: u8| x < c && !is_fixed(p, os, b, x) ==> v@.contains(x),
        decreases 52 - c,
    {
        if !is_fixed_card(player, opponents, board, c) {
            let ghost old_v = v@;
            v.push(c);
            proof {
                assert forall|x: u8| x < c + 1 && !is_fixed(p, os, b, x) implies v@.contains(x) by {
                    if x < c {
                        assert(!is_fixed(p, os, b, x));
                        assert(old_v.contains(x));
                        let k = choose|k: int| 0 <= k < old_v.len() && old_v[k] == x;
                        assert(v@[k] == x);
                    } else {
                        assert(v@[old_v.len() as int] == x);
                    }
                }
            }
        }
        c += 1;
    }
    v
}

/// Estimates the player's equity by `samples` trials dealt from a deck of
/// the unseen cards shuffled from `seed`. Each trial deals the rest of the
/// board, then the player's unknown hole cards, then each opponent's, and
/// compares the player with the strongest opponent. The equity is
/// `(wins + ties / 2) / samples`.
///
/// The table is checked first: a hand over its ceiling, then a card placed
/// twice, then too few unseen cards for one trial; in each case nothing is
/// dealt.
pub fn compute_equity(
    player: &Hand,
    opponents: &Vec<Hand>,
    board: &Hand,
    samples: &usize,
    seed: &u64,
) -> (r: Result<Showdowns, EquityError>)
    requires
        hands_valid(player@, views(opponents@), board@),
        opponents@.len() >= 1,
    ensures
        !within_ceilings(player@, views(opponents@), board@) ==> r == Err::<Showdowns, EquityError>(EquityError::TooManyCards),
        within_ceilings(player@, views(opponents@), board@) && !no_conflict(player@, views(opponents@), board@)
            ==> r == Err::<Showdowns, EquityError>(EquityError::DuplicateCard),
        table_ok(player@, views(opponents@), board@)
            && cards_needed(player@, views(opponents@), board@) > free_count(player@, views(opponents@), board@, 52)
            ==> r == Err::<Showdowns, EquityError>(EquityError::InsufficientCards),
        table_ok(player@, views(opponents@), board@)
            && cards_needed(player@, views(opponents@), board@) <= free_count(player@, views(opponents@), board@, 52)
            ==> (r matches Ok(s) && s.wins + s.ties + s.losses == *samples
                && tallies(player@, views(opponents@), board@, *samples as int, s)),
        r matches Ok(s) ==> s.wins + s.ties + s.losses == *samples,
        cards_needed(player@, views(opponents@), board@) > free_count(player@, views(opponents@), board@, 52)
            ==> r is Err,
{
    let ghost p = player@;
    let ghost os = views(opponents@);
    let ghost b = board@;
    match check_table(player, opponents, board) {
        Ok(()) => {},
        Err(e) => {
            return Err(e);
        },
    }
    let available = unseen_cards(player, opponents, board);
    let avail = available.len();
    proof {
        lemma_free_bound(p, os, b, 52);
        lemma_missing_bounds(os, os.len() as int);
    }
    let mut needed: usize = (BOARD_CARDS - board.len()) + (HOLE_CARDS - player.len());
    if needed > avail {
        assert(opponents_missing(os, 0) <= opponents_missing(os, os.len() as int));
        return Err(EquityError::InsufficientCards);
    }
    let mut i: usize = 0;
    while i < opponents.len()
        invariant
            p == player@,
            b == board@,
            os == views(opponents@),
            table_ok(p, os, b),
            avail == free_count(p, os, b, 52),
            avail <= 52,
            0 <= i <= opponents@.len(),
            needed == opponent_start(p, os, b, i as int),
            needed <= avail,
            forall|m: int| 0 <= m <= os.len() ==> #[trigger] opponents_missing(os, m) <= opponents_missing(os, os.len() as int),
        decreases opponents@.len() - i,
    {
        assert(opponents_missing(os, i + 1) == opponents_missing(os, i as int) + (HOLE_CARDS - os[i as int].len()));
        needed = needed + (HOLE_CARDS - opponents[i].len());
        if needed > avail {
            assert(opponents_missing(os, i + 1) <= opponents_missing(os, os.len() as int));
            return Err(EquityError::InsufficientCards);
        }
        i += 1;
    }
    assert(needed == cards_needed(p, os, b));
    let mut deck = deck_with_seed(&available, *seed);
    let mut wins: usize = 0;
    let mut ties: usize = 0;
    let mut losses: usize = 0;
    let mut t: usize = 0;
    let ghost mut draws: Seq<Seq<u8>> = Seq::empty();
    while t < *samples
        invariant
            p == player@,
            os == views(opponents@),
            b == board@,
            table_ok(p, os, b),
            needed == cards_needed(p, os, b),
            needed <= available@.len(),
            available@.no_duplicates(),
            all_cards(available@),
            forall|k: int| 0 <= k < available@.len() ==> !is_fixed(p, os, b, #[trigger] available@[k]),
            deck_pool(deck) == available@.to_set(),
            0 <= t <= *samples,
            draws.len() == t,
            wins + ties + losses == t,
            tally_of(p, os, b, draws, Showdowns { wins, ties, losses }),
        decreases *samples - t,
    {
        deck_reset(&mut deck);
        proof {
            available@.unique_seq_to_set();
        }
        let drawn = match deck_deal(&mut deck, needed) {
            Some(cards) => cards,
            None => {
                // The deck holds every unseen card again after the reset,
                // and a trial needs no more than that.
                assert(false);
                return Err(EquityError::InsufficientCards);
            },
        };
        proof {
            assert forall|j: int| 0 <= j < drawn@.len() implies available@.contains(#[trigger] drawn@[j]) by {
                assert(available@.to_set().contains(drawn@[j]));
            }
            assert forall|j: int| 0 <= j < drawn@.len() implies !is_fixed(p, os, b, #[trigger] drawn@[j]) && drawn@[j] < CARD_COUNT by {
                assert(available@.contains(drawn@[j]));
                let k = choose|k: int| 0 <= k < available@.len() && available@[k] == drawn@[j];
                assert(!is_fixed(p, os, b, available@[k]));
            }
        }
        let outcome = play_trial(player, opponents, board, &drawn);
        let ghost old_draws = draws;
        proof {
            draws = draws.push(drawn@);
            lemma_count_push(p, os, b, old_draws, drawn@, t as int, Showdown::Win);
            lemma_count_push(p, os, b, old_draws, drawn@, t as int, Showdown::Tie);
            lemma_count_push(p, os, b, old_draws, drawn@, t as int, Showdown::Loss);
            assert(draws[t as int] == drawn@);
        }
        match outcome {
            Showdown::Win => {
                wins = wins + 1;
            },
            Showdown::Tie => {
                ties = ties + 1;
            },
            Showdown::Loss => {
                losses = losses + 1;
            },
        }
        t = t + 1;
        assert(forall|k: int| 0 <= k < draws.len() ==> #[trigger] draws[k] == if k < old_draws.len() { old_draws[k] } else { drawn@ });
    }
    let s = Showdowns { wins, ties, losses };
    assert(tally_of(p, os, b, draws, s));
    Ok(s)
}

} // verus!
