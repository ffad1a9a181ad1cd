//! Hand evaluation: the best 5-card hand out of up to 7 cards, as a rank
//! triple `(category, primary_key, secondary_key)` where a smaller triple is a
//! stronger hand.
//!
//! Categories run from 1 (royal flush) to 10 (high card).  The keys encode the
//! relevant ranks with a positional base-13 weighting over the ranks sorted
//! ascending, so that holding higher ranks yields a smaller key.

use vstd::prelude::*;
use crate::card::{Card, CardRank};

verus! {

/// 13 to the power `e`.
pub open spec fn pow13(e: int) -> int
    decreases e,
{
    if e <= 0 {
        1
    } else {
        13 * pow13(e - 1)
    }
}

/// How many of the ranks in `rs` lie at position `r` of declaration order.
pub open spec fn rank_count(rs: Seq<CardRank>, r: int) -> int
    decreases rs.len(),
{
    if rs.len() == 0 {
        0
    } else {
        rank_count(rs.drop_last(), r) + if rs.last().index_spec() == r {
            1int
        } else {
            0int
        }
    }
}

/// How many of the ranks in `rs` lie strictly below position `r`.
pub open spec fn count_below(rs: Seq<CardRank>, r: int) -> int
    decreases rs.len(),
{
    if rs.len() == 0 {
        0
    } else {
        count_below(rs.drop_last(), r) + if rs.last().index_spec() < r {
            1int
        } else {
            0int
        }
    }
}

/// The rank positions of `rs` sorted ascending, restricted to positions below
/// `r`: position 0 repeated `rank_count(rs, 0)` times, then position 1, and so
/// on.
pub open spec fn sorted_below(rs: Seq<CardRank>, r: int) -> Seq<int>
    decreases r,
{
    if r <= 0 {
        Seq::empty()
    } else {
        sorted_below(rs, r - 1) + Seq::new(rank_count(rs, r - 1) as nat, |i: int| r - 1)
    }
}

/// All rank positions of `rs`, sorted ascending.
pub open spec fn sorted_positions(rs: Seq<CardRank>) -> Seq<int> {
    sorted_below(rs, 13)
}

/// The base-13 positional encoding of a sorted sequence of rank positions:
/// `sum of pow13(i) * (12 - posns[i])`.
pub open spec fn encode_positions(posns: Seq<int>) -> int
    decreases posns.len(),
{
    if posns.len() == 0 {
        0
    } else {
        encode_positions(posns.drop_last()) + pow13(posns.len() - 1) * (12 - posns.last())
    }
}

/// The encoded value of a collection of ranks: its sorted positions, encoded.
pub open spec fn hcv_ranks(rs: Seq<CardRank>) -> int {
    encode_positions(sorted_positions(rs))
}

proof fn lemma_rank_count_le_len(rs: Seq<CardRank>, r: int)
    ensures
        0 <= rank_count(rs, r) <= rs.len(),
    decreases rs.len(),
{
    if rs.len() > 0 {
        lemma_rank_count_le_len(rs.drop_last(), r);
    }
}

/// Counting below `r` splits into counting below `r - 1` plus the count at `r - 1`.
proof fn lemma_count_below_split(rs: Seq<CardRank>, r: int)
    ensures
        count_below(rs, r) == count_below(rs, r - 1) + rank_count(rs, r - 1),
    decreases rs.len(),
{
    if rs.len() > 0 {
        lemma_count_below_split(rs.drop_last(), r);
    }
}

/// Powers of 13 are positive.
proof fn lemma_pow13_pos(e: int)
    ensures
        pow13(e) >= 1,
    decreases e,
{
    if e > 0 {
        lemma_pow13_pos(e - 1);
    }
}

/// Monotonicity of powers of 13.
proof fn lemma_pow13_le(a: int, b: int)
    requires
        a <= b,
    ensures
        pow13(a) <= pow13(b),
    decreases b,
{
    if a < b && b > 0 {
        lemma_pow13_le(a, b - 1);
        lemma_pow13_pos(b - 1);
    }
}

/// An encoded sequence of in-range positions lies below `pow13` of its length.
proof fn lemma_encode_positions_bound(posns: Seq<int>)
    requires
        forall|i: int| 0 <= i < posns.len() ==> 0 <= #[trigger] posns[i] <= 12,
    ensures
        0 <= encode_positions(posns) < pow13(posns.len() as int),
    decreases posns.len(),
{
    if posns.len() > 0 {
        assert(posns.last() == posns[posns.len() - 1]);
        assert(forall|i: int|
            0 <= i < posns.drop_last().len() ==> 0 <= #[trigger] posns.drop_last()[i] <= 12);
        lemma_encode_positions_bound(posns.drop_last());
        let l = posns.len() - 1;
        lemma_pow13_pos(l);
        assert(pow13(l) * (12 - posns.last()) <= 12 * pow13(l) && pow13(l) * (12 - posns.last())
            >= 0) by (nonlinear_arith)
            requires
                pow13(l) >= 1,
                0 <= posns.last() <= 12,
        ;
        assert(pow13(l + 1) == 13 * pow13(l));
    }
}

/// Tabulates, for each rank position, how many of the given ranks lie there.
fn rank_counts(ranks: &Vec<CardRank>) -> (counts: Vec<u64>)
    requires
        ranks@.len() <= 17,
    ensures
        counts@.len() == 13,
        forall|r: int| 0 <= r < 13 ==> counts@[r] == rank_count(ranks@, r),
{
    let mut counts: Vec<u64> = vec![0, 0, 0, 0, 0, 0, 0, 0, 0, 0, 0, 0, 0];
    let n = ranks.len();
    for i in 0..n
        invariant
            counts@.len() == 13,
            n == ranks@.len() <= 17,
            forall|r: int| 0 <= r < 13 ==> counts@[r] == rank_count(ranks@.subrange(0, i as int), r),
    {
        let r = ranks[i].index() as usize;
        proof {
            assert(ranks@.subrange(0, i + 1).drop_last() =~= ranks@.subrange(0, i as int));
            assert(ranks@.subrange(0, i + 1).last() == ranks@[i as int]);
            lemma_rank_count_le_len(ranks@.subrange(0, i as int), r as int);
        }
        let c = counts[r];
        counts[r] = c + 1;
        proof {
            assert forall|rr: int| 0 <= rr < 13 implies counts@[rr] == rank_count(
                ranks@.subrange(0, i + 1),
                rr,
            ) by {}
        }
    }
    proof {
        assert(ranks@.subrange(0, n as int) =~= ranks@);
    }
    counts
}

/// Encodes a collection of ranks: each rank, taken in ascending sorted order,
/// contributes `pow13(position) * (12 - rank)`, so higher ranks give smaller
/// values.
pub fn high_card_value(ranks: &Vec<CardRank>) -> (value: u64)
    requires
        ranks@.len() <= 17,
    ensures
        value == hcv_ranks(ranks@),
{
    let counts = rank_counts(ranks);
    let mut value: u64 = 0;
    let mut pow: u64 = 1;
    let ghost mut built: Seq<int> = Seq::empty();
    proof {
        lemma_count_below_zero(ranks@);
        lemma_pow13_le(0, ranks@.len() as int);
    }
    for r in 0..13usize
        invariant
            counts@.len() == 13,
            ranks@.len() <= 17,
            forall|rr: int| 0 <= rr < 13 ==> counts@[rr] == rank_count(ranks@, rr),
            built == sorted_below(ranks@, r as int),
            built.len() == count_below(ranks@, r as int),
            built.len() <= ranks@.len(),
            forall|i: int| 0 <= i < built.len() ==> 0 <= #[trigger] built[i] <= 12,
            value == encode_positions(built),
            pow == pow13(built.len() as int),
            pow <= pow13(ranks@.len() as int),
    {
        let cr = counts[r];
        proof {
            lemma_rank_count_le_len(ranks@, r as int);
            lemma_count_below_split(ranks@, r + 1);
            lemma_count_below_le_len(ranks@, r + 1);
            assert(built =~= built + Seq::new(0, |i: int| r as int));
        }
        for k in 0..cr
            invariant
                0 <= r < 13,
                ranks@.len() <= 17,
                cr == rank_count(ranks@, r as int),
                built == sorted_below(ranks@, r as int) + Seq::new(k as nat, |i: int| r as int),
                built.len() == count_below(ranks@, r as int) + k,
                built.len() <= count_below(ranks@, r + 1) <= ranks@.len(),
                forall|i: int| 0 <= i < built.len() ==> 0 <= #[trigger] built[i] <= 12,
                value == encode_positions(built),
                pow == pow13(built.len() as int),
                pow <= pow13(ranks@.len() as int),
        {
            proof {
                lemma_count_below_split(ranks@, r + 1);
                lemma_count_below_le_len(ranks@, r + 1);
                lemma_pow13_pos(built.len() as int);
                lemma_pow13_le(built.len() as int, 16);
                lemma_pow13_16();
                lemma_pow13_le(built.len() as int + 1, 17);
                lemma_pow13_17();
                lemma_encode_positions_bound(built);
                assert(pow13(built.len() as int + 1) == 13 * pow13(built.len() as int));
                assert((pow as int) * (12 - r as int) <= 12 * (pow as int) && (pow as int) * (12
                    - r as int) >= 0) by (nonlinear_arith)
                    requires
                        0 <= r < 13,
                        0 <= pow as int,
                ;
                assert((built + Seq::new(1, |i: int| r as int)).drop_last() =~= built);
            }
            let contribution = pow * (12 - r as u64);
            value = value + contribution;
            pow = pow * 13;
            proof {
                built = built + Seq::new(1, |i: int| r as int);
                assert(built =~= sorted_below(ranks@, r as int) + Seq::new(
                    (k + 1) as nat,
                    |i: int| r as int,
                ));
                lemma_pow13_le(built.len() as int, ranks@.len() as int);
            }
        }
        proof {
            lemma_count_below_split(ranks@, r + 1);
            lemma_count_below_le_len(ranks@, r + 1);
            assert(built =~= sorted_below(ranks@, r + 1));
        }
    }
    proof {
        assert(built == sorted_positions(ranks@));
    }
    value
}

/// No rank position lies below zero.
proof fn lemma_count_below_zero(rs: Seq<CardRank>)
    ensures
        count_below(rs, 0) == 0,
    decreases rs.len(),
{
    if rs.len() > 0 {
        lemma_count_below_zero(rs.drop_last());
    }
}

/// Counting below any bound never exceeds the number of ranks.
proof fn lemma_count_below_le_len(rs: Seq<CardRank>, r: int)
    ensures
        0 <= count_below(rs, r) <= rs.len(),
    decreases rs.len(),
{
    if rs.len() > 0 {
        lemma_count_below_le_len(rs.drop_last(), r);
    }
}

proof fn lemma_pow13_16()
    ensures
        pow13(16) == 665416609183179841,
{
    reveal_with_fuel(pow13, 17);
}

proof fn lemma_pow13_17()
    ensures
        pow13(17) == 8650415919381337933,
{
    reveal_with_fuel(pow13, 18);
}

/// The ranks of a sequence of cards, in the same order.
pub open spec fn ranks_of(s: Seq<Card>) -> Seq<CardRank> {
    s.map_values(|c: Card| c.rank)
}

/// Whether all cards share one suit.
pub open spec fn all_same_suit(s: Seq<Card>) -> bool {
    forall|i: int| 0 <= i < s.len() ==> (#[trigger] s[i]).suit == s[0].suit
}

/// The largest rank-count among positions below `r`.
pub open spec fn max_count_below(rs: Seq<CardRank>, r: int) -> int
    decreases r,
{
    if r <= 0 {
        0
    } else if rank_count(rs, r - 1) > max_count_below(rs, r - 1) {
        rank_count(rs, r - 1)
    } else {
        max_count_below(rs, r - 1)
    }
}

/// The largest rank-count: 4 for quads, 3 for trips, and so on.
pub open spec fn max_rank_count(rs: Seq<CardRank>) -> int {
    max_count_below(rs, 13)
}

/// The highest position below `below` whose rank-count is exactly `c`, or -1.
pub open spec fn top_with_below(rs: Seq<CardRank>, c: int, below: int) -> int
    decreases below,
{
    if below <= 0 {
        -1
    } else if rank_count(rs, below - 1) == c {
        below - 1
    } else {
        top_with_below(rs, c, below - 1)
    }
}

/// The highest position whose rank-count is exactly `c`, or -1.
pub open spec fn top_with(rs: Seq<CardRank>, c: int) -> int {
    top_with_below(rs, c, 13)
}

/// How many positions below `r` have rank-count exactly `c`.
pub open spec fn num_with_below(rs: Seq<CardRank>, c: int, r: int) -> int
    decreases r,
{
    if r <= 0 {
        0
    } else {
        num_with_below(rs, c, r - 1) + if rank_count(rs, r - 1) == c {
            1int
        } else {
            0int
        }
    }
}

/// How many positions have rank-count exactly `c`: 2 two-pair hands have two
/// positions of count 2, one-pair hands one.
pub open spec fn num_with(rs: Seq<CardRank>, c: int) -> int {
    num_with_below(rs, c, 13)
}

/// Five runs of one card each starting at position `lo`.
pub open spec fn run_at(rs: Seq<CardRank>, lo: int) -> bool {
    forall|d: int| 0 <= d < 5 ==> #[trigger] rank_count(rs, lo + d) == 1
}

/// The wheel: ace playing low below 2, 3, 4, 5.
pub open spec fn is_wheel(rs: Seq<CardRank>) -> bool {
    &&& rank_count(rs, 0) == 1
    &&& rank_count(rs, 1) == 1
    &&& rank_count(rs, 2) == 1
    &&& rank_count(rs, 3) == 1
    &&& rank_count(rs, 12) == 1
}

/// Five cards in sequence, the wheel included.
pub open spec fn in_sequence(rs: Seq<CardRank>) -> bool {
    is_wheel(rs) || exists|lo: int| 0 <= lo <= 8 && #[trigger] run_at(rs, lo)
}

/// Exactly ten, jack, queen, king, ace.
pub open spec fn is_royal(rs: Seq<CardRank>) -> bool {
    run_at(rs, 8)
}

/// The rank triple of five cards: the category (1 royal flush down to 10 high
/// card, first matching category wins), the key of the hand-defining ranks,
/// and the key of the full five-card kicker ordering.  Smaller means stronger
/// throughout.
pub open spec fn rank5_spec(s: Seq<Card>) -> (int, int, int) {
    let rs = ranks_of(s);
    let flush = all_same_suit(s);
    if is_royal(rs) && flush {
        (1int, 0int, 0int)
    } else if in_sequence(rs) && flush {
        (2int, hcv_ranks(rs), 0int)
    } else if max_rank_count(rs) == 4 {
        (3int, hcv_ranks(seq![CardRank::from_index_spec(top_with(rs, 4))]), hcv_ranks(rs))
    } else if max_rank_count(rs) == 3 && num_with(rs, 2) >= 1 {
        (4int, hcv_ranks(seq![CardRank::from_index_spec(top_with(rs, 3))]), hcv_ranks(rs))
    } else if flush {
        (5int, hcv_ranks(rs), 0int)
    } else if in_sequence(rs) {
        (6int, hcv_ranks(rs), 0int)
    } else if max_rank_count(rs) == 3 {
        (7int, hcv_ranks(seq![CardRank::from_index_spec(top_with(rs, 3))]), hcv_ranks(rs))
    } else if max_rank_count(rs) == 2 && num_with(rs, 2) >= 2 {
        (
            8int,
            hcv_ranks(
                seq![
                    CardRank::from_index_spec(top_with(rs, 2)),
                    CardRank::from_index_spec(top_with_below(rs, 2, top_with(rs, 2))),
                ],
            ),
            hcv_ranks(rs),
        )
    } else if max_rank_count(rs) == 2 {
        (9int, hcv_ranks(seq![CardRank::from_index_spec(top_with(rs, 2))]), hcv_ranks(rs))
    } else {
        (10int, hcv_ranks(rs), 0int)
    }
}

/// Strict lexicographic order on rank triples: the smaller triple is the
/// stronger hand.
pub open spec fn rank_lt_spec(a: (int, int, int), b: (int, int, int)) -> bool {
    a.0 < b.0 || (a.0 == b.0 && (a.1 < b.1 || (a.1 == b.1 && a.2 < b.2)))
}

/// Lexicographic order on rank triples, equality allowed.
pub open spec fn rank_le_spec(a: (int, int, int), b: (int, int, int)) -> bool {
    rank_lt_spec(a, b) || a == b
}

/// The mathematical value of a machine rank triple.
pub open spec fn rank_view(t: (u64, u64, u64)) -> (int, int, int) {
    (t.0 as int, t.1 as int, t.2 as int)
}

/// Compares two rank triples lexicographically.
pub fn rank_le(a: (u64, u64, u64), b: (u64, u64, u64)) -> (r: bool)
    ensures
        r == rank_le_spec(rank_view(a), rank_view(b)),
{
    if a.0 != b.0 {
        a.0 < b.0
    } else if a.1 != b.1 {
        a.1 < b.1
    } else {
        a.2 <= b.2
    }
}

/// Every rank triple of five cards carries a category between 1 (royal flush)
/// and 10 (high card).
pub proof fn lemma_category_range(s: Seq<Card>)
    ensures
        1 <= rank5_spec(s).0 <= 10,
{
}

/// A hand of a stronger category always ranks strictly stronger (smaller)
/// than any hand of a weaker category, whatever the keys: a royal flush beats
/// every straight flush, which beats every four of a kind, and so on down the
/// category ordering.
pub proof fn lemma_category_orders_ranks(c1: Seq<Card>, c2: Seq<Card>)
    ensures
        rank5_spec(c1).0 < rank5_spec(c2).0 ==> rank_lt_spec(rank5_spec(c1), rank5_spec(c2)),
{
}

/// A found position really carries count `c`, nothing above it does, and one
/// exists exactly when the count occurs at all.
proof fn lemma_top_with_below_spec(rs: Seq<CardRank>, c: int, below: int)
    requires
        0 <= below <= 13,
    ensures
        -1 <= top_with_below(rs, c, below) < below,
        top_with_below(rs, c, below) >= 0 ==> rank_count(rs, top_with_below(rs, c, below)) == c,
        (top_with_below(rs, c, below) >= 0) <==> (num_with_below(rs, c, below) >= 1),
    decreases below,
{
    if below > 0 {
        lemma_top_with_below_spec(rs, c, below - 1);
        lemma_num_with_below_nonneg(rs, c, below - 1);
    }
}

proof fn lemma_num_with_below_nonneg(rs: Seq<CardRank>, c: int, r: int)
    ensures
        num_with_below(rs, c, r) >= 0,
    decreases r,
{
    if r > 0 {
        lemma_num_with_below_nonneg(rs, c, r - 1);
    }
}

/// With at least two positions of count `c`, a second one stands below the top.
proof fn lemma_second_with(rs: Seq<CardRank>, c: int, below: int)
    requires
        0 <= below <= 13,
        num_with_below(rs, c, below) >= 2,
    ensures
        top_with_below(rs, c, below) >= 1,
        num_with_below(rs, c, top_with_below(rs, c, below)) >= 1,
        top_with_below(rs, c, top_with_below(rs, c, below)) >= 0,
        rank_count(rs, top_with_below(rs, c, top_with_below(rs, c, below))) == c,
    decreases below,
{
    lemma_top_with_below_spec(rs, c, below);
    if below > 0 {
        if rank_count(rs, below - 1) == c {
            lemma_num_with_below_nonneg(rs, c, below - 1);
            lemma_top_with_below_spec(rs, c, below - 1);
        } else {
            lemma_second_with(rs, c, below - 1);
        }
    }
}

/// The maximum rank-count is attained at some position whenever it is positive.
proof fn lemma_max_count_attained(rs: Seq<CardRank>, r: int)
    requires
        0 <= r <= 13,
    ensures
        max_count_below(rs, r) >= 0,
        max_count_below(rs, r) > 0 ==> exists|p: int|
            0 <= p < r && #[trigger] rank_count(rs, p) == max_count_below(rs, r),
        forall|p: int| 0 <= p < r ==> #[trigger] rank_count(rs, p) <= max_count_below(rs, r),
    decreases r,
{
    if r > 0 {
        lemma_max_count_attained(rs, r - 1);
    }
}

/// If some position attains count `c`, then there is a top position with it.
proof fn lemma_count_implies_top(rs: Seq<CardRank>, c: int, p: int)
    requires
        0 <= p < 13,
        rank_count(rs, p) == c,
    ensures
        num_with_below(rs, c, 13) >= 1,
{
    lemma_num_with_monotone(rs, c, p + 1, 13);
    lemma_num_with_below_nonneg(rs, c, p);
}

proof fn lemma_num_with_monotone(rs: Seq<CardRank>, c: int, a: int, b: int)
    requires
        a <= b,
    ensures
        num_with_below(rs, c, a) <= num_with_below(rs, c, b),
    decreases b - a,
{
    if a < b {
        lemma_num_with_monotone(rs, c, a, b - 1);
    }
}

/// Finds the highest rank position below `below` whose tabulated count is
/// exactly `wanted`, if any; -1 otherwise.
fn top_rank_with(
    counts: &Vec<u64>,
    wanted: u64,
    below: usize,
    Ghost(rs): Ghost<Seq<CardRank>>,
) -> (res: i64)
    requires
        counts@.len() == 13,
        below <= 13,
        forall|r: int| 0 <= r < 13 ==> counts@[r] == rank_count(rs, r),
    ensures
        res == top_with_below(rs, wanted as int, below as int),
{
    let mut r: usize = below;
    while r > 0
        invariant
            r <= below <= 13,
            counts@.len() == 13,
            forall|rr: int| 0 <= rr < 13 ==> counts@[rr] == rank_count(rs, rr),
            top_with_below(rs, wanted as int, below as int) == top_with_below(
                rs,
                wanted as int,
                r as int,
            ),
        decreases r,
    {
        if counts[r - 1] == wanted {
            return (r - 1) as i64;
        }
        r = r - 1;
    }
    -1
}

/// Counts the rank positions whose tabulated count is exactly `wanted`.
fn num_ranks_with(counts: &Vec<u64>, wanted: u64, Ghost(rs): Ghost<Seq<CardRank>>) -> (res: u64)
    requires
        counts@.len() == 13,
        forall|r: int| 0 <= r < 13 ==> counts@[r] == rank_count(rs, r),
    ensures
        res == num_with(rs, wanted as int),
{
    let mut res: u64 = 0;
    for r in 0..13usize
        invariant
            counts@.len() == 13,
            forall|rr: int| 0 <= rr < 13 ==> counts@[rr] == rank_count(rs, rr),
            res == num_with_below(rs, wanted as int, r as int),
            res <= r,
    {
        if counts[r] == wanted {
            res = res + 1;
        }
    }
    res
}

/// The largest tabulated count.
fn max_rank_count_exec(counts: &Vec<u64>, Ghost(rs): Ghost<Seq<CardRank>>) -> (res: u64)
    requires
        counts@.len() == 13,
        forall|r: int| 0 <= r < 13 ==> counts@[r] == rank_count(rs, r),
        forall|r: int| 0 <= r < 13 ==> rank_count(rs, r) <= 1000,
    ensures
        res == max_rank_count(rs),
{
    let mut res: u64 = 0;
    for r in 0..13usize
        invariant
            counts@.len() == 13,
            forall|rr: int| 0 <= rr < 13 ==> counts@[rr] == rank_count(rs, rr),
            forall|rr: int| 0 <= rr < 13 ==> rank_count(rs, rr) <= 1000,
            res == max_count_below(rs, r as int),
            res <= 1000,
    {
        if counts[r] > res {
            res = counts[r];
        }
        proof {
            assert(counts@[r as int] == rank_count(rs, r as int));
            assert(max_count_below(rs, r as int + 1) == if rank_count(rs, r as int)
                > max_count_below(rs, r as int) {
                rank_count(rs, r as int)
            } else {
                max_count_below(rs, r as int)
            });
        }
    }
    res
}

/// Whether the tabulated counts show five cards in sequence, wheel included.
fn detect_sequence(counts: &Vec<u64>, Ghost(rs): Ghost<Seq<CardRank>>) -> (res: bool)
    requires
        counts@.len() == 13,
        forall|r: int| 0 <= r < 13 ==> counts@[r] == rank_count(rs, r),
    ensures
        res == in_sequence(rs),
{
    let mut found: bool = counts[0] == 1 && counts[1] == 1 && counts[2] == 1 && counts[3] == 1
        && counts[12] == 1;
    assert(found == is_wheel(rs));
    for lo in 0..9usize
        invariant
            counts@.len() == 13,
            forall|rr: int| 0 <= rr < 13 ==> counts@[rr] == rank_count(rs, rr),
            found == (is_wheel(rs) || exists|l: int| 0 <= l < lo && #[trigger] run_at(rs, l)),
    {
        let all = counts[lo] == 1 && counts[lo + 1] == 1 && counts[lo + 2] == 1 && counts[lo + 3]
            == 1 && counts[lo + 4] == 1;
        proof {
            if all {
                assert forall|d: int| 0 <= d < 5 implies #[trigger] rank_count(rs, lo + d)
                    == 1 by {
                    assert(counts@[lo + d] == rank_count(rs, lo + d));
                }
                assert(run_at(rs, lo as int));
            } else {
                assert(!run_at(rs, lo as int)) by {
                    if run_at(rs, lo as int) {
                        assert(rank_count(rs, lo + 0) == 1);
                        assert(rank_count(rs, lo + 1) == 1);
                        assert(rank_count(rs, lo + 2) == 1);
                        assert(rank_count(rs, lo + 3) == 1);
                        assert(rank_count(rs, lo + 4) == 1);
                    }
                }
            }
        }
        found = found || all;
    }
    proof {
        if !found {
            assert forall|l: int| 0 <= l <= 8 implies !run_at(rs, l) by {}
        }
    }
    found
}

/// Ranks a 5-card combination: the category in strength order (first match
/// wins), a primary key over the hand-defining ranks, and a secondary key over
/// all five ranks, each encoded so that a smaller triple is a stronger hand.
pub fn rank_card_combination(cards: &Vec<Card>) -> (rank: (u64, u64, u64))
    requires
        cards@.len() == 5,
    ensures
        rank_view(rank) == rank5_spec(cards@),
{
    let ghost grs: Seq<CardRank> = ranks_of(cards@);
    let mut ranks: Vec<CardRank> = Vec::new();
    for i in 0..5usize
        invariant
            cards@.len() == 5,
            ranks@.len() == i,
            forall|j: int| 0 <= j < i ==> ranks@[j] == cards@[j].rank,
    {
        ranks.push(cards[i].rank);
    }
    proof {
        assert(ranks@ =~= grs);
    }
    let counts = rank_counts(&ranks);

    let mut flush = true;
    let first = cards[0];
    for i in 0..5usize
        invariant
            cards@.len() == 5,
            first == cards@[0],
            flush == (forall|j: int| 0 <= j < i ==> (#[trigger] cards@[j]).suit == cards@[0].suit),
    {
        if !(cards[i].suit == first.suit) {
            flush = false;
        }
    }
    proof {
        assert(flush == all_same_suit(cards@));
        assert forall|r: int| 0 <= r < 13 implies rank_count(grs, r) <= 1000 by {
            lemma_rank_count_le_len(grs, r);
        }
    }

    let is_seq = detect_sequence(&counts, Ghost(grs));
    let royal = counts[8] == 1 && counts[9] == 1 && counts[10] == 1 && counts[11] == 1 && counts[12]
        == 1;
    proof {
        if royal {
            assert forall|d: int| 0 <= d < 5 implies #[trigger] rank_count(grs, 8 + d) == 1 by {
                assert(counts@[8 + d] == rank_count(grs, 8 + d));
            }
            assert(is_royal(grs));
        } else {
            assert(!is_royal(grs)) by {
                if run_at(grs, 8) {
                    assert(rank_count(grs, 8int + 0) == 1);
                    assert(rank_count(grs, 8int + 1) == 1);
                    assert(rank_count(grs, 8int + 2) == 1);
                    assert(rank_count(grs, 8int + 3) == 1);
                    assert(rank_count(grs, 8int + 4) == 1);
                }
            }
        }
    }
    let maxc = max_rank_count_exec(&counts, Ghost(grs));
    let num2 = num_ranks_with(&counts, 2, Ghost(grs));
    let secondary = high_card_value(&ranks);

    if royal && flush {
        return (1, 0, 0);
    }
    if is_seq && flush {
        return (2, secondary, 0);
    }
    if maxc == 4 {
        let t = top_rank_with(&counts, 4, 13, Ghost(grs));
        proof {
            lemma_top_with_below_spec(grs, 4, 13);
            lemma_max_count_attained(grs, 13);
            let p = choose|p: int| 0 <= p < 13 && #[trigger] rank_count(grs, p) == 4;
            lemma_count_implies_top(grs, 4, p);
        }
        let relevant = vec![CardRank::from_index(t as u64)];
        let primary = high_card_value(&relevant);
        proof {
            assert(relevant@ =~= seq![CardRank::from_index_spec(top_with(grs, 4))]);
        }
        return (3, primary, secondary);
    }
    if maxc == 3 && num2 >= 1 {
        let t = top_rank_with(&counts, 3, 13, Ghost(grs));
        proof {
            lemma_top_with_below_spec(grs, 3, 13);
            lemma_max_count_attained(grs, 13);
            let p = choose|p: int| 0 <= p < 13 && #[trigger] rank_count(grs, p) == 3;
            lemma_count_implies_top(grs, 3, p);
        }
        let relevant = vec![CardRank::from_index(t as u64)];
        let primary = high_card_value(&relevant);
        proof {
            assert(relevant@ =~= seq![CardRank::from_index_spec(top_with(grs, 3))]);
        }
        return (4, primary, secondary);
    }
    if flush {
        return (5, secondary, 0);
    }
    if is_seq {
        return (6, secondary, 0);
    }
    if maxc == 3 {
        let t = top_rank_with(&counts, 3, 13, Ghost(grs));
        proof {
            lemma_top_with_below_spec(grs, 3, 13);
            lemma_max_count_attained(grs, 13);
            let p = choose|p: int| 0 <= p < 13 && #[trigger] rank_count(grs, p) == 3;
            lemma_count_implies_top(grs, 3, p);
        }
        let relevant = vec![CardRank::from_index(t as u64)];
        let primary = high_card_value(&relevant);
        proof {
            assert(relevant@ =~= seq![CardRank::from_index_spec(top_with(grs, 3))]);
        }
        return (7, primary, secondary);
    }
    if maxc == 2 && num2 >= 2 {
        let t = top_rank_with(&counts, 2, 13, Ghost(grs));
        proof {
            lemma_second_with(grs, 2, 13);
            lemma_top_with_below_spec(grs, 2, 13);
            lemma_top_with_below_spec(grs, 2, top_with(grs, 2));
        }
        let t2 = top_rank_with(&counts, 2, t as usize, Ghost(grs));
        let relevant = vec![CardRank::from_index(t as u64), CardRank::from_index(t2 as u64)];
        let primary = high_card_value(&relevant);
        proof {
            assert(relevant@ =~= seq![
                CardRank::from_index_spec(top_with(grs, 2)),
                CardRank::from_index_spec(top_with_below(grs, 2, top_with(grs, 2))),
            ]);
        }
        return (8, primary, secondary);
    }
    if maxc == 2 {
        let t = top_rank_with(&counts, 2, 13, Ghost(grs));
        proof {
            lemma_top_with_below_spec(grs, 2, 13);
            lemma_max_count_attained(grs, 13);
            let p = choose|p: int| 0 <= p < 13 && #[trigger] rank_count(grs, p) == 2;
            lemma_count_implies_top(grs, 2, p);
        }
        let relevant = vec![CardRank::from_index(t as u64)];
        let primary = high_card_value(&relevant);
        proof {
            assert(relevant@ =~= seq![CardRank::from_index_spec(top_with(grs, 2))]);
        }
        return (9, primary, secondary);
    }
    (10, secondary, 0)
}


/// The card pool a hand is evaluated from: the public cards followed by the
/// player's two hole cards.
pub open spec fn pool_of(hand: (Card, Card), public: Seq<Card>) -> Seq<Card> {
    public + seq![hand.0, hand.1]
}

/// The pool with the card at index `a` left out.
pub open spec fn drop1(s: Seq<Card>, a: int) -> Seq<Card> {
    s.subrange(0, a) + s.subrange(a + 1, s.len() as int)
}

/// The pool with the cards at indices `a < b` left out.
pub open spec fn drop2(s: Seq<Card>, a: int, b: int) -> Seq<Card> {
    s.subrange(0, a) + s.subrange(a + 1, b) + s.subrange(b + 1, s.len() as int)
}

/// Whether `r` is the rank of the best 5-card subset of `pool`: some subset
/// attains it, and no subset ranks smaller.  Leaving out `pool.len() - 5`
/// indices enumerates exactly the 5-card subsets.
pub open spec fn is_best_rank(r: (int, int, int), pool: Seq<Card>) -> bool {
    if pool.len() == 5 {
        r == rank5_spec(pool)
    } else if pool.len() == 6 {
        &&& exists|a: int| 0 <= a < 6 && r == rank5_spec(#[trigger] drop1(pool, a))
        &&& forall|a: int| 0 <= a < 6 ==> rank_le_spec(r, rank5_spec(#[trigger] drop1(pool, a)))
    } else {
        &&& exists|a: int, b: int|
            0 <= a < b < pool.len() && r == rank5_spec(#[trigger] drop2(pool, a, b))
        &&& forall|a: int, b: int|
            0 <= a < b < pool.len() ==> rank_le_spec(r, rank5_spec(#[trigger] drop2(pool, a, b)))
    }
}

/// Copies the pool, leaving out the card at index `a`.
fn without_one(pool: &Vec<Card>, a: usize) -> (sub: Vec<Card>)
    requires
        a < pool@.len(),
    ensures
        sub@ == drop1(pool@, a as int),
{
    let mut sub: Vec<Card> = Vec::new();
    for j in 0..a
        invariant
            a < pool@.len(),
            sub@ == pool@.subrange(0, j as int),
    {
        sub.push(pool[j]);
        proof {
            assert(sub@ =~= pool@.subrange(0, j + 1));
        }
    }
    let n = pool.len();
    proof {
        assert(sub@ + pool@.subrange(a + 1, a + 1) =~= sub@);
    }
    for j in (a + 1)..n
        invariant
            a < n == pool@.len(),
            a + 1 <= j,
            sub@ == pool@.subrange(0, a as int) + pool@.subrange(a + 1, j as int),
    {
        sub.push(pool[j]);
        proof {
            assert(sub@ =~= pool@.subrange(0, a as int) + pool@.subrange(a + 1, j + 1));
        }
    }
    proof {
        assert(sub@ =~= drop1(pool@, a as int));
    }
    sub
}

/// Copies the pool, leaving out the cards at indices `a < b`.
fn without_two(pool: &Vec<Card>, a: usize, b: usize) -> (sub: Vec<Card>)
    requires
        a < b < pool@.len(),
    ensures
        sub@ == drop2(pool@, a as int, b as int),
{
    let mut sub: Vec<Card> = Vec::new();
    for j in 0..a
        invariant
            a < b < pool@.len(),
            sub@ == pool@.subrange(0, j as int),
    {
        sub.push(pool[j]);
        proof {
            assert(sub@ =~= pool@.subrange(0, j + 1));
        }
    }
    proof {
        assert(sub@ + pool@.subrange(a + 1, a + 1) =~= sub@);
    }
    for j in (a + 1)..b
        invariant
            a < b < pool@.len(),
            a + 1 <= j <= b,
            sub@ == pool@.subrange(0, a as int) + pool@.subrange(a + 1, j as int),
    {
        sub.push(pool[j]);
        proof {
            assert(sub@ =~= pool@.subrange(0, a as int) + pool@.subrange(a + 1, j + 1));
        }
    }
    let n = pool.len();
    proof {
        assert(sub@ + pool@.subrange(b + 1, b + 1) =~= sub@);
    }
    for j in (b + 1)..n
        invariant
            a < b < n == pool@.len(),
            b + 1 <= j,
            sub@ == pool@.subrange(0, a as int) + pool@.subrange(a + 1, b as int) + pool@.subrange(
                b + 1,
                j as int,
            ),
    {
        sub.push(pool[j]);
        proof {
            assert(sub@ =~= pool@.subrange(0, a as int) + pool@.subrange(a + 1, b as int)
                + pool@.subrange(b + 1, j + 1));
        }
    }
    proof {
        assert(sub@ =~= drop2(pool@, a as int, b as int));
    }
    sub
}

/// Ranks the best 5-card hand from two hole cards and three to five public
/// cards: every 5-card subset of the pool is ranked and the smallest (that
/// is, strongest) triple is returned.
pub fn rank_hand(private_cards: (Card, Card), public_cards: &Vec<Card>) -> (best: (u64, u64, u64))
    requires
        3 <= public_cards@.len() <= 5,
    ensures
        is_best_rank(rank_view(best), pool_of(private_cards, public_cards@)),
{
    let mut pool: Vec<Card> = Vec::new();
    let m = public_cards.len();
    for j in 0..m
        invariant
            m == public_cards@.len(),
            pool@ == public_cards@.subrange(0, j as int),
    {
        pool.push(public_cards[j]);
        proof {
            assert(pool@ =~= public_cards@.subrange(0, j + 1));
        }
    }
    pool.push(private_cards.0);
    pool.push(private_cards.1);
    proof {
        assert(pool@ =~= pool_of(private_cards, public_cards@));
    }
    let ghost gpool: Seq<Card> = pool@;
    let n = pool.len();

    if n == 5 {
        return rank_card_combination(&pool);
    }

    if n == 6 {
        let mut best: (u64, u64, u64) = (0, 0, 0);
        let mut have = false;
        for a in 0..6usize
            invariant
                pool@ == gpool,
                gpool.len() == 6,
                have == (a > 0),
                have ==> exists|x: int|
                    0 <= x < a && rank_view(best) == rank5_spec(#[trigger] drop1(gpool, x)),
                forall|x: int|
                    0 <= x < a ==> rank_le_spec(rank_view(best), rank5_spec(
                        #[trigger] drop1(gpool, x),
                    )),
        {
            let sub = without_one(&pool, a);
            let cand = rank_card_combination(&sub);
            if !have {
                best = cand;
                have = true;
            } else if rank_le(cand, best) {
                best = cand;
            }
        }
        return best;
    }

    let mut best: (u64, u64, u64) = (0, 0, 0);
    let mut have = false;
    for a in 0..7usize
        invariant
            pool@ == gpool,
            gpool.len() == 7,
            have == (a > 0),
            have ==> exists|x: int, y: int|
                0 <= x < y < 7 && x < a && rank_view(best) == rank5_spec(
                    #[trigger] drop2(gpool, x, y),
                ),
            forall|x: int, y: int|
                0 <= x < y < 7 && x < a ==> rank_le_spec(rank_view(best), rank5_spec(
                    #[trigger] drop2(gpool, x, y),
                )),
    {
        for b in (a + 1)..7usize
            invariant
                pool@ == gpool,
                gpool.len() == 7,
                a < 7,
                a + 1 <= b <= 7,
                have == (a > 0 || b > a + 1),
                have ==> exists|x: int, y: int|
                    0 <= x < y < 7 && (x < a || (x == a && y < b)) && rank_view(best)
                        == rank5_spec(#[trigger] drop2(gpool, x, y)),
                forall|x: int, y: int|
                    0 <= x < y < 7 && (x < a || (x == a && y < b)) ==> rank_le_spec(
                        rank_view(best),
                        rank5_spec(#[trigger] drop2(gpool, x, y)),
                    ),
        {
            let sub = without_two(&pool, a, b);
            let cand = rank_card_combination(&sub);
            if !have {
                best = cand;
                have = true;
            } else if rank_le(cand, best) {
                best = cand;
            }
        }
    }
    best
}

/// Best-rank consistency: the best rank of a pool is unique, so evaluating
/// the same cards always returns the same rank triple.
pub proof fn lemma_best_rank_unique(r1: (int, int, int), r2: (int, int, int), pool: Seq<Card>)
    requires
        5 <= pool.len() <= 7,
        is_best_rank(r1, pool),
        is_best_rank(r2, pool),
    ensures
        r1 == r2,
{
    if pool.len() == 6 {
        let a1 = choose|a: int| 0 <= a < 6 && r1 == rank5_spec(#[trigger] drop1(pool, a));
        let a2 = choose|a: int| 0 <= a < 6 && r2 == rank5_spec(#[trigger] drop1(pool, a));
        assert(rank_le_spec(r1, rank5_spec(drop1(pool, a2))));
        assert(rank_le_spec(r2, rank5_spec(drop1(pool, a1))));
    } else if pool.len() == 7 {
        let (a1, b1) = choose|a: int, b: int|
            0 <= a < b < pool.len() && r1 == rank5_spec(#[trigger] drop2(pool, a, b));
        let (a2, b2) = choose|a: int, b: int|
            0 <= a < b < pool.len() && r2 == rank5_spec(#[trigger] drop2(pool, a, b));
        assert(rank_le_spec(r1, rank5_spec(drop2(pool, a2, b2))));
        assert(rank_le_spec(r2, rank5_spec(drop2(pool, a1, b1))));
    }
}


/// The rank of the best 5-card subset of a pool: the unique triple that
/// `is_best_rank` admits.
pub open spec fn best_rank_of(pool: Seq<Card>) -> (int, int, int) {
    choose|r: (int, int, int)| is_best_rank(r, pool)
}

/// A triple that `is_best_rank` admits is the value of `best_rank_of`.
pub proof fn lemma_best_rank_fn(r: (int, int, int), pool: Seq<Card>)
    requires
        5 <= pool.len() <= 7,
        is_best_rank(r, pool),
    ensures
        r == best_rank_of(pool),
{
    assert(is_best_rank(best_rank_of(pool), pool)) by {
        assert(exists|x: (int, int, int)| is_best_rank(x, pool));
    }
    lemma_best_rank_unique(r, best_rank_of(pool), pool);
}

} // verus!
