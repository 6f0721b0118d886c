//! The ordered multi-version index: a skip list over an arena of nodes.
//!
//! Nodes live in a vector and link to each other by position. Position 0 is
//! the head, which holds no record and takes part in every level.

use crate::entry::{
    accepts, distinct_versions, has_version, inserted, is_newest_visible, is_version, lemma_newest_visible_is,
    lemma_newest_visible_none, newest_visible, LogEntry, LogEntryView,
};
use crate::keys::{
    key_order, lemma_key_lt_asymmetric, lemma_precedes_asymmetric, lemma_precedes_total,
    lemma_precedes_transitive, precedes, key_lt, KeyOrder,
};
use vstd::prelude::*;

verus! {

/// Why an operation on a buffer or its index failed.
#[derive(Debug, PartialEq, Eq)]
pub enum SkipListError {
    /// The lock around the index was poisoned by a writer that panicked.
    MutexLockFailed(String),
    /// The record's key already has a version with its sequence number.
    DuplicateVersion,
}

struct Node {
    log_entry: LogEntry,
    levels: Vec<Option<usize>>,
}

/// An index of versioned records, sorted by key and, within a key, from the
/// newest version to the oldest.
pub struct SkipList {
    nodes: Vec<Node>,
    probability: u32,
    num_levels: usize,
    rng_state: u64,
}

spec fn key_at(nodes: Seq<Node>, i: int) -> Seq<u8> {
    nodes[i].log_entry@.entry.key().unwrap()
}

spec fn seq_at(nodes: Seq<Node>, i: int) -> u64 {
    nodes[i].log_entry.log_seq_num
}

spec fn height(nodes: Seq<Node>, i: int) -> int {
    nodes[i].levels@.len() as int
}

spec fn link(nodes: Seq<Node>, i: int, l: int) -> Option<usize> {
    nodes[i].levels@[l]
}

/// Node `i` comes strictly before the version `(k, s)`; the head comes
/// before every version.
spec fn before_pos(nodes: Seq<Node>, i: int, k: Seq<u8>, s: u64) -> bool {
    i == 0 || precedes(key_at(nodes, i), seq_at(nodes, i), k, s)
}

spec fn before(nodes: Seq<Node>, i: int, x: int) -> bool {
    before_pos(nodes, i, key_at(nodes, x), seq_at(nodes, x))
}

/// The link of node `i` at level `l` leads forward, to a node of the first
/// `count` that takes part in level `l`.
spec fn link_ok(nodes: Seq<Node>, count: int, l: int, i: int) -> bool {
    l < height(nodes, i) ==> match link(nodes, i, l) {
        Some(m) => 1 <= m < count && l < height(nodes, m as int) && before(nodes, i, m as int),
        None => true,
    }
}

/// The link of node `i` at level `l` does not jump over node `x`.
spec fn no_skip(nodes: Seq<Node>, l: int, i: int, x: int) -> bool {
    (l < height(nodes, i) && l < height(nodes, x) && before(nodes, i, x)) ==> match link(
        nodes,
        i,
        l,
    ) {
        Some(m) => m == x || before(nodes, m as int, x),
        None => false,
    }
}

/// Level `l` is a sorted chain through exactly those of the first `count`
/// nodes that take part in it.
spec fn level_ok(nodes: Seq<Node>, count: int, l: int) -> bool {
    &&& forall|i: int| 0 <= i < count ==> #[trigger] link_ok(nodes, count, l, i)
    &&& forall|i: int, x: int| 0 <= i < count && 1 <= x < count ==> #[trigger] no_skip(nodes, l, i, x)
}

spec fn record_ok(nodes: Seq<Node>, i: int, num_levels: int) -> bool {
    nodes[i].log_entry@.entry.key().is_some() && 1 <= height(nodes, i) <= num_levels
}

spec fn same_version(nodes: Seq<Node>, i: int, j: int) -> bool {
    key_at(nodes, i) == key_at(nodes, j) && seq_at(nodes, i) == seq_at(nodes, j)
}

spec fn base_ok(nodes: Seq<Node>, count: int, num_levels: int) -> bool {
    &&& 1 <= count <= nodes.len()
    &&& 1 <= num_levels
    &&& nodes[0].log_entry@.entry.key().is_none()
    &&& height(nodes, 0) == num_levels
    &&& forall|i: int| 1 <= i < count ==> #[trigger] record_ok(nodes, i, num_levels)
    &&& forall|i: int, j: int|
        1 <= i < count && 1 <= j < count && i != j ==> !#[trigger] same_version(nodes, i, j)
}

/// How many of the nodes `1..n` come after node `i`.
spec fn after_count(nodes: Seq<Node>, n: int, i: int) -> nat
    decreases n,
{
    if n <= 1 {
        0
    } else {
        after_count(nodes, n - 1, i) + if before(nodes, i, n - 1) {
            1nat
        } else {
            0nat
        }
    }
}

proof fn lemma_before_transitive(nodes: Seq<Node>, i: int, m: int, x: int)
    requires
        before(nodes, i, m),
        m != 0,
        before(nodes, m, x),
    ensures
        before(nodes, i, x),
{
    if i != 0 {
        lemma_precedes_transitive(
            key_at(nodes, i),
            seq_at(nodes, i),
            key_at(nodes, m),
            seq_at(nodes, m),
            key_at(nodes, x),
            seq_at(nodes, x),
        );
    }
}

proof fn lemma_before_asymmetric(nodes: Seq<Node>, i: int, x: int)
    requires
        i != 0,
        x != 0,
        before(nodes, i, x),
    ensures
        !before(nodes, x, i),
        !same_version(nodes, i, x),
        !same_version(nodes, x, i),
{
    lemma_precedes_asymmetric(
        key_at(nodes, i),
        seq_at(nodes, i),
        key_at(nodes, x),
        seq_at(nodes, x),
    );
}

/// A step forward leaves fewer nodes ahead.
proof fn lemma_after_count_decreases(nodes: Seq<Node>, n: int, i: int, m: int)
    requires
        m >= 1,
        before(nodes, i, m),
    ensures
        after_count(nodes, n, m) <= after_count(nodes, n, i),
        m < n ==> after_count(nodes, n, m) < after_count(nodes, n, i),
    decreases n,
{
    if n > 1 {
        lemma_after_count_decreases(nodes, n - 1, i, m);
        if before(nodes, m, n - 1) {
            lemma_before_transitive(nodes, i, m, n - 1);
        }
        if m == n - 1 {
            if before(nodes, m, m) {
                lemma_before_asymmetric(nodes, m, m);
            }
        }
    }
}


/// Node `u` is where a record at `(k, s)` is to be linked in at level `l`:
/// it comes before `(k, s)`, and what follows it at that level comes after.
spec fn pred_ok(nodes: Seq<Node>, count: int, u: int, l: int, k: Seq<u8>, s: u64) -> bool {
    &&& 0 <= u < count
    &&& 0 <= l < height(nodes, u)
    &&& before_pos(nodes, u, k, s)
    &&& match link(nodes, u, l) {
        Some(m) => 1 <= m < count && precedes(k, s, key_at(nodes, m as int), seq_at(nodes, m as int)),
        None => true,
    }
}

/// `b` is `a` with at most the link of node `u` at level `l` changed.
spec fn same_except(a: Seq<Node>, b: Seq<Node>, u: int, l: int) -> bool {
    &&& a.len() == b.len()
    &&& forall|j: int|
        0 <= j < a.len() ==> (#[trigger] b[j]).log_entry == a[j].log_entry && b[j].levels@.len()
            == a[j].levels@.len()
    &&& forall|j: int, l2: int|
        0 <= j < a.len() && 0 <= l2 < height(a, j) && !(j == u && l2 == l) ==> #[trigger] link(
            b,
            j,
            l2,
        ) == link(a, j, l2)
}

/// A level's chain does not depend on the links of other levels.
proof fn lemma_level_frame(a: Seq<Node>, b: Seq<Node>, u: int, l: int, count: int, l2: int)
    requires
        same_except(a, b, u, l),
        l2 != l,
        0 <= l2,
        0 <= count <= a.len(),
        level_ok(a, count, l2),
    ensures
        level_ok(b, count, l2),
{
    assert forall|i: int| 0 <= i < count implies #[trigger] link_ok(b, count, l2, i) by {
        assert(link_ok(a, count, l2, i));
        if l2 < height(a, i) {
            assert(link(b, i, l2) == link(a, i, l2));
        }
    }
    assert forall|i: int, x: int| 0 <= i < count && 1 <= x < count implies #[trigger] no_skip(
        b,
        l2,
        i,
        x,
    ) by {
        assert(no_skip(a, l2, i, x));
        assert(link_ok(a, count, l2, i));
        if l2 < height(a, i) {
            assert(link(b, i, l2) == link(a, i, l2));
        }
    }
}

/// A node that does not reach level `l` leaves that level's chain as it was.
proof fn lemma_level_extend(a: Seq<Node>, b: Seq<Node>, n: int, l: int)
    requires
        0 <= l,
        1 <= n == a.len(),
        b.len() == n + 1,
        forall|j: int| 0 <= j < n ==> #[trigger] b[j] == a[j],
        level_ok(a, n, l),
        height(b, n) <= l,
    ensures
        level_ok(b, n + 1, l),
{
    assert forall|i: int| 0 <= i < n + 1 implies #[trigger] link_ok(b, n + 1, l, i) by {
        if i < n {
            assert(link_ok(a, n, l, i));
        }
    }
    assert forall|i: int, x: int| 0 <= i < n + 1 && 1 <= x < n + 1 implies #[trigger] no_skip(
        b,
        l,
        i,
        x,
    ) by {
        if i < n && x < n {
            assert(no_skip(a, l, i, x));
            assert(link_ok(a, n, l, i));
        }
    }
}

/// Among the nodes that were there, a new node at the end changes nothing.
proof fn lemma_level_keep(a: Seq<Node>, b: Seq<Node>, n: int, l: int)
    requires
        0 <= l,
        1 <= n == a.len(),
        b.len() == n + 1,
        forall|j: int| 0 <= j < n ==> #[trigger] b[j] == a[j],
        level_ok(a, n, l),
    ensures
        level_ok(b, n, l),
{
    assert forall|i: int| 0 <= i < n implies #[trigger] link_ok(b, n, l, i) by {
        assert(link_ok(a, n, l, i));
    }
    assert forall|i: int, x: int| 0 <= i < n && 1 <= x < n implies #[trigger] no_skip(
        b,
        l,
        i,
        x,
    ) by {
        assert(no_skip(a, l, i, x));
        assert(link_ok(a, n, l, i));
    }
}

/// Every node before the new one, other than its predecessor `u`, links at
/// level `l` to a node that is also before the new one.
proof fn lemma_link_stays_before(a: Seq<Node>, n: int, l: int, u: int, i: int, num_levels: int)
    requires
        a.len() == n + 1,
        base_ok(a, n + 1, num_levels),
        level_ok(a, n, l),
        pred_ok(a, n, u, l, key_at(a, n), seq_at(a, n)),
        0 <= i < n,
        i != u,
        0 <= l < height(a, i),
        before(a, i, n),
    ensures
        match link(a, i, l) {
            Some(m) => m != n && before(a, m as int, n),
            None => false,
        },
{
    let i_first = if i == 0 {
        true
    } else if u == 0 {
        false
    } else {
        lemma_precedes_total(key_at(a, i), seq_at(a, i), key_at(a, u), seq_at(a, u));
        assert(!same_version(a, i, u));
        before(a, i, u)
    };
    if i_first {
        assert(no_skip(a, l, i, u));
        assert(link_ok(a, n, l, i));
        let m = link(a, i, l).unwrap() as int;
        if m != u {
            lemma_before_transitive(a, m, u, n);
        }
    } else {
        assert(before(a, u, i));
        assert(no_skip(a, l, u, i));
        let m = link(a, u, l).unwrap() as int;
        assert(before(a, n, m));
        if m == i {
            lemma_before_asymmetric(a, n, i);
        } else {
            lemma_before_transitive(a, m, i, n);
            lemma_before_asymmetric(a, n, m);
        }
    }
}

/// Linking the new node `n` in behind its predecessor `u` at level `l`
/// makes that level a sorted chain through the new node too.
proof fn lemma_splice(a: Seq<Node>, b: Seq<Node>, n: int, l: int, u: int, num_levels: int)
    requires
        a.len() == n + 1,
        same_except(a, b, u, l),
        base_ok(a, n + 1, num_levels),
        level_ok(a, n, l),
        0 <= l < height(a, n),
        pred_ok(a, n, u, l, key_at(a, n), seq_at(a, n)),
        link(a, n, l) == link(a, u, l),
        link(b, u, l).is_some(),
        link(b, u, l).unwrap() as int == n,
    ensures
        level_ok(b, n + 1, l),
{
    assert forall|i: int| 0 <= i < n + 1 implies #[trigger] link_ok(b, n + 1, l, i) by {
        if l < height(b, i) {
            if i == u {
            } else if i == n {
                assert(link(b, n, l) == link(a, n, l));
                assert(link_ok(a, n, l, u));
            } else {
                assert(link(b, i, l) == link(a, i, l));
                assert(link_ok(a, n, l, i));
            }
        }
    }
    assert forall|i: int, x: int| 0 <= i < n + 1 && 1 <= x < n + 1 implies #[trigger] no_skip(
        b,
        l,
        i,
        x,
    ) by {
        if l < height(b, i) && l < height(b, x) && before(b, i, x) {
            assert(before(a, i, x));
            if i == n {
                assert(link(b, n, l) == link(a, n, l));
                if x == n {
                    lemma_before_asymmetric(a, n, n);
                } else {
                    lemma_before_transitive(a, u, n, x);
                    assert(no_skip(a, l, u, x));
                    assert(link_ok(a, n, l, u));
                }
            } else if i == u {
                if x != n {
                    lemma_precedes_total(key_at(a, n), seq_at(a, n), key_at(a, x), seq_at(a, x));
                    assert(!same_version(a, n, x));
                    if !before(a, n, x) {
                        assert(before(a, x, n));
                        assert(no_skip(a, l, u, x));
                        let m = link(a, u, l).unwrap() as int;
                        if m == x {
                            lemma_before_asymmetric(a, x, n);
                        } else {
                            lemma_before_transitive(a, m, x, n);
                            lemma_before_asymmetric(a, m, n);
                        }
                    }
                }
            } else {
                assert(link(b, i, l) == link(a, i, l));
                if x == n {
                    lemma_link_stays_before(a, n, l, u, i, num_levels);
                } else {
                    assert(no_skip(a, l, i, x));
                    assert(link_ok(a, n, l, i));
                }
            }
        }
    }
}

/// The state of level `l` while a new node `n` of height `level` is linked
/// in from the bottom: the levels below `done`, and those that the node does
/// not reach, are chains through all nodes; the others are chains through
/// the nodes that were there, with the node's link and its predecessor set.
spec fn splicing(nodes: Seq<Node>, n: int, l: int, done: int, level: int, update: Seq<usize>) -> bool {
    if l < done || l >= level {
        level_ok(nodes, n + 1, l)
    } else {
        &&& level_ok(nodes, n, l)
        &&& l < height(nodes, n)
        &&& pred_ok(nodes, n, update[l] as int, l, key_at(nodes, n), seq_at(nodes, n))
        &&& link(nodes, n, l) == link(nodes, update[l] as int, l)
    }
}


/// One step of the generator that decides the height of new nodes.
pub open spec fn rng_next(s: u64) -> u64 {
    let a = s ^ (s << 13);
    let b = a ^ (a >> 7);
    b ^ (b << 17)
}

/// The coin that the generator's state `s` shows: heads with probability
/// `p / 2^32`.
pub open spec fn coin(s: u64, p: u32) -> bool {
    (s >> 32) < p
}

/// The height that is drawn for a node, and the generator's state after it:
/// one more than the number of heads before the first tails, but `levels`
/// at most. `lvl` is the height reached so far.
pub open spec fn drawn_level(s: u64, p: u32, levels: int, lvl: int) -> (int, u64)
    decreases levels - lvl,
{
    if lvl < levels {
        if coin(rng_next(s), p) {
            drawn_level(rng_next(s), p, levels, lvl + 1)
        } else {
            (lvl, rng_next(s))
        }
    } else {
        (lvl, s)
    }
}

/// `x` scaled by the probability `p / 2^32`, rounded up.
pub open spec fn scaled(x: int, p: u32) -> int {
    (x * p + 0xFFFF_FFFF) / 0x1_0000_0000
}

/// How often the fixed-point number `x / 2^32` must be scaled by the
/// probability `p / 2^32` until it is 1 or less, but `cap` at most.
pub open spec fn scalings(x: int, p: u32, cap: int) -> int
    decreases cap,
{
    if cap <= 0 || x <= 0x1_0000_0000 {
        0
    } else {
        1 + scalings(scaled(x, p), p, cap - 1)
    }
}

/// The number of levels of an index for `expected_num_keys` keys, whose
/// nodes rise one level with probability `p / 2^32`: the logarithm of the
/// number of keys to the base `2^32 / p`, rounded up, but `allowed_max_level`
/// at most and 1 at least.
pub open spec fn level_count(p: u32, expected_num_keys: u32, allowed_max_level: usize) -> int {
    let n = scalings(expected_num_keys * 0x1_0000_0000, p, allowed_max_level as int);
    if n < 1 {
        1
    } else {
        n
    }
}

/// `b` to the power `k`.
pub open spec fn power(b: int, k: nat) -> int
    decreases k,
{
    if k == 0 {
        1
    } else {
        b * power(b, (k - 1) as nat)
    }
}

proof fn lemma_power_not_negative(b: int, k: nat)
    requires
        b >= 0,
    ensures
        power(b, k) >= 0,
    decreases k,
{
    if k > 0 {
        lemma_power_not_negative(b, (k - 1) as nat);
        assert(b * power(b, (k - 1) as nat) >= 0) by (nonlinear_arith)
            requires
                b >= 0,
                power(b, (k - 1) as nat) >= 0,
        ;
    }
}

/// Where the scalings stop before the cap, that many scalings by the exact
/// probability bring `x / 2^32` down to 1 or less.
proof fn lemma_scalings_suffice(x: int, p: u32, cap: int)
    requires
        x >= 0,
        scalings(x, p, cap) < cap,
    ensures
        scalings(x, p, cap) >= 0,
        x * power(p as int, scalings(x, p, cap) as nat) <= 0x1_0000_0000 * power(
            0x1_0000_0000,
            scalings(x, p, cap) as nat,
        ),
    decreases cap,
{
    if cap <= 0 || x <= 0x1_0000_0000 {
        assert(x * 1 <= 0x1_0000_0000 * 1);
    } else {
        let y = scaled(x, p);
        let z = x * p;
        assert(z >= 0) by (nonlinear_arith)
            requires
                z == x * p,
                x >= 0,
                p >= 0,
        ;
        assert(z <= y * 0x1_0000_0000);
        lemma_scalings_suffice(y, p, cap - 1);
        let k = scalings(y, p, cap - 1) as nat;
        let q = power(p as int, k);
        let r = 0x1_0000_0000 * power(0x1_0000_0000, k);
        lemma_power_not_negative(p as int, k);
        assert(x * (p * q) <= 0x1_0000_0000 * r) by (nonlinear_arith)
            requires
                z == x * p,
                z <= y * 0x1_0000_0000,
                q >= 0,
                y * q <= r,
        ;
    }
}

/// The level count is never below what the expected number of keys asks
/// for: unless the cap cut it short, `expected_num_keys` is at most
/// `(2^32 / p)` to the power of the level count.
pub proof fn lemma_level_count_suffices(p: u32, expected_num_keys: u32, allowed_max_level: usize)
    requires
        level_count(p, expected_num_keys, allowed_max_level) < allowed_max_level,
    ensures
        level_count(p, expected_num_keys, allowed_max_level) >= 1,
        expected_num_keys * power(
            p as int,
            level_count(p, expected_num_keys, allowed_max_level) as nat,
        ) <= power(
            0x1_0000_0000,
            level_count(p, expected_num_keys, allowed_max_level) as nat,
        ),
{
    let x = expected_num_keys * 0x1_0000_0000;
    let cap = allowed_max_level as int;
    let k = scalings(x, p, cap);
    if cap > 0 && x > 0x1_0000_0000 {
        lemma_scalings_suffice(x, p, cap);
        let q = power(p as int, k as nat);
        let r = power(0x1_0000_0000, k as nat);
        assert(expected_num_keys * q <= r) by (nonlinear_arith)
            requires
                x == expected_num_keys * 0x1_0000_0000,
                x * q <= 0x1_0000_0000 * r,
        ;
    } else {
        assert(k == 0);
        assert(expected_num_keys <= 1);
        assert(power(p as int, 1) == p * power(p as int, 0));
        assert(power(0x1_0000_0000, 1) == 0x1_0000_0000 * power(0x1_0000_0000, 0));
        assert(expected_num_keys * p <= 0x1_0000_0000) by (nonlinear_arith)
            requires
                0 <= expected_num_keys <= 1,
                0 <= p <= 0xFFFF_FFFF,
        ;
    }
}

proof fn lemma_halvings(x: int, cap: int)
    requires
        x >= 0,
    ensures
        scalings(x, 0x8000_0000, cap) >= 0,
        scalings(x, 0x8000_0000, cap) < cap ==> x <= 0x1_0000_0000 * power(
            2,
            scalings(x, 0x8000_0000, cap) as nat,
        ),
        scalings(x, 0x8000_0000, cap) >= 1 ==> x > 0x1_0000_0000 * power(
            2,
            (scalings(x, 0x8000_0000, cap) - 1) as nat,
        ),
    decreases cap,
{
    if !(cap <= 0 || x <= 0x1_0000_0000) {
        let y = scaled(x, 0x8000_0000);
        lemma_halvings(y, cap - 1);
        let k = scalings(y, 0x8000_0000, cap - 1);
        assert(power(2, (k + 1) as nat) == 2 * power(2, k as nat));
        if k >= 1 {
            assert(power(2, k as nat) == 2 * power(2, (k - 1) as nat));
        }
    }
}

/// With probability one half the level count is the logarithm to the base 2
/// of the expected number of keys, rounded up: unless the cap cut it short,
/// it is the least number of levels, 1 or more, whose power of 2 reaches
/// `expected_num_keys`.
pub proof fn lemma_level_count_half(expected_num_keys: u32, allowed_max_level: usize)
    ensures
        level_count(0x8000_0000, expected_num_keys, allowed_max_level) < allowed_max_level
            ==> expected_num_keys <= power(
            2,
            level_count(0x8000_0000, expected_num_keys, allowed_max_level) as nat,
        ),
        level_count(0x8000_0000, expected_num_keys, allowed_max_level) >= 2 ==> expected_num_keys
            > power(2, (level_count(0x8000_0000, expected_num_keys, allowed_max_level) - 1) as nat),
{
    lemma_halvings(expected_num_keys * 0x1_0000_0000, allowed_max_level as int);
    assert(power(2, 1) == 2 * power(2, 0));
}

/// The seed of an index that is built without one.
pub const DEFAULT_SEED: u64 = 0x9E37_79B9_7F4A_7C15;

/// Computes [`level_count`].
pub fn count_levels(
    probability: u32,
    expected_num_keys: u32,
    allowed_max_level: usize,
) -> (out: usize)
    ensures
        out == level_count(probability, expected_num_keys, allowed_max_level),
        1 <= out,
        out <= allowed_max_level || out == 1,
{
    let one: u128 = 0x1_0000_0000;
    let mut x: u128 = (expected_num_keys as u128) * one;
    let mut n: usize = 0;
    while n < allowed_max_level && x > one
        invariant
            one == 0x1_0000_0000,
            n <= allowed_max_level,
            x <= 0x1_0000_0000_0000_0000,
            scalings(expected_num_keys * 0x1_0000_0000, probability, allowed_max_level as int)
                == n + scalings(x as int, probability, allowed_max_level - n),
        decreases allowed_max_level - n,
    {
        assert(x * probability <= x * 0xFFFF_FFFF) by (nonlinear_arith)
            requires
                0 <= x,
                probability <= 0xFFFF_FFFF,
        ;
        x = (x * (probability as u128) + 0xFFFF_FFFF) / one;
        n += 1;
    }
    if n < 1 {
        1
    } else {
        n
    }
}

/// Flips the coin: moves the generator one step on and says whether its
/// new state shows heads, which it does with probability `prob / 2^32`.
fn rand_bool(state: &mut u64, prob: u32) -> (heads: bool)
    ensures
        *final(state) == rng_next(*old(state)),
        heads == coin(*final(state), prob),
{
    let s: u64 = *state;
    let a: u64 = s ^ (s << 13);
    let b: u64 = a ^ (a >> 7);
    let next: u64 = b ^ (b << 17);
    *state = next;
    (next >> 32) < prob as u64
}

impl View for SkipList {
    type V = Seq<LogEntryView>;

    /// The records that the index holds, in the order of their insertion.
    closed spec fn view(&self) -> Seq<LogEntryView> {
        Seq::new((self.nodes@.len() - 1) as nat, |j: int| self.nodes@[j + 1].log_entry@)
    }
}

impl SkipList {
    /// The index's invariant: every level is a sorted chain from the head,
    /// and no two records are versions of one key at one sequence number.
    pub closed spec fn wf(&self) -> bool {
        &&& base_ok(self.nodes@, self.nodes@.len() as int, self.num_levels as int)
        &&& forall|l: int|
            0 <= l < self.num_levels ==> #[trigger] level_ok(
                self.nodes@,
                self.nodes@.len() as int,
                l,
            )
    }

    /// The number of levels that the index was built with.
    pub closed spec fn levels(&self) -> int {
        self.num_levels as int
    }

    /// The records of a well-formed index are distinct versions.
    pub proof fn lemma_distinct(&self)
        requires
            self.wf(),
        ensures
            distinct_versions(self@),
    {
        let nodes = self.nodes@;
        assert forall|i: int, j: int|
            0 <= i < self@.len() && 0 <= j < self@.len() && i != j implies !is_version(
            #[trigger] self@[i],
            (#[trigger] self@[j]).entry.key().unwrap(),
            self@[j].log_seq_num,
        ) by {
            assert(record_ok(nodes, i + 1, self.num_levels as int));
            assert(record_ok(nodes, j + 1, self.num_levels as int));
            assert(!same_version(nodes, i + 1, j + 1));
        }
    }

    /// Walks level `l` forward from `start` to the last node that comes
    /// before the version `(key, seq)`, and says whether the node after it
    /// is that very version.
    fn walk(&self, start: usize, l: usize, key: &Vec<u8>, seq: u64) -> (out: (usize, bool))
        requires
            self.wf(),
            start < self.nodes@.len(),
            l < height(self.nodes@, start as int),
            before_pos(self.nodes@, start as int, key@, seq),
        ensures
            out.0 < self.nodes@.len(),
            l < height(self.nodes@, out.0 as int),
            before_pos(self.nodes@, out.0 as int, key@, seq),
            match link(self.nodes@, out.0 as int, l as int) {
                Some(m) => {
                    &&& 1 <= m < self.nodes@.len()
                    &&& out.1 == (key_at(self.nodes@, m as int) == key@ && seq_at(
                        self.nodes@,
                        m as int,
                    ) == seq)
                    &&& !out.1 ==> precedes(
                        key@,
                        seq,
                        key_at(self.nodes@, m as int),
                        seq_at(self.nodes@, m as int),
                    )
                },
                None => !out.1,
            },
    {
        let mut cur: usize = start;
        loop
            invariant
                self.wf(),
                cur < self.nodes@.len(),
                l < height(self.nodes@, cur as int),
                before_pos(self.nodes@, cur as int, key@, seq),
            decreases after_count(self.nodes@, self.nodes@.len() as int, cur as int),
        {
            let ghost nodes = self.nodes@;
            let ghost count = nodes.len() as int;
            match self.nodes[cur].levels[l] {
                None => {
                    return (cur, false);
                },
                Some(next) => {
                    proof {
                        assert(l < self.num_levels) by {
                            if cur != 0 {
                                assert(record_ok(nodes, cur as int, self.num_levels as int));
                            }
                        }
                        assert(level_ok(nodes, count, l as int));
                        assert(link_ok(nodes, count, l as int, cur as int));
                        assert(record_ok(nodes, next as int, self.num_levels as int));
                        lemma_after_count_decreases(nodes, count, cur as int, next as int);
                        lemma_precedes_total(
                            key_at(nodes, next as int),
                            seq_at(nodes, next as int),
                            key@,
                            seq,
                        );
                    }
                    let node = &self.nodes[next];
                    let next_seq: u64 = node.log_entry.log_seq_num;
                    match node.log_entry.entry.key() {
                        None => {
                            return (cur, false);
                        },
                        Some(next_key) => {
                            match key_order(next_key, key) {
                                KeyOrder::Less => {
                                    cur = next;
                                },
                                KeyOrder::Equal => {
                                    if next_seq > seq {
                                        cur = next;
                                    } else {
                                        return (cur, next_seq == seq);
                                    }
                                },
                                KeyOrder::Greater => {
                                    proof {
                                        lemma_key_lt_asymmetric(key@, next_key@);
                                    }
                                    return (cur, false);
                                },
                            }
                        },
                    }
                },
            }
        }
    }

    /// The version of `key` that a reader at snapshot `log_seq_num` sees:
    /// the record of `key` with the largest sequence number not above
    /// `log_seq_num`, or `None` if the index holds no such record.
    pub fn get(&self, key: &Vec<u8>, log_seq_num: u64) -> (out: Option<LogEntry>)
        requires
            self.wf(),
        ensures
            match out {
                Some(e) => {
                    &&& newest_visible(self@, key@, log_seq_num) == Some(e@)
                    &&& exists|j: int| is_newest_visible(self@, j, key@, log_seq_num) && self@[j] == e@
                },
                None => {
                    &&& newest_visible(self@, key@, log_seq_num).is_none()
                    &&& forall|j: int|
                        0 <= j < self@.len() ==> !(#[trigger] self@[j]).visible(key@, log_seq_num)
                },
            },
    {
        let ghost nodes = self.nodes@;
        let ghost count = nodes.len() as int;
        let mut cur: usize = 0;
        let mut l: usize = self.num_levels - 1;
        loop
            invariant
                self.wf(),
                nodes == self.nodes@,
                count == nodes.len(),
                cur < self.nodes@.len(),
                l < height(self.nodes@, cur as int),
                l < self.num_levels,
                before_pos(self.nodes@, cur as int, key@, log_seq_num),
            decreases l,
        {
            let (stop, exact) = self.walk(cur, l, key, log_seq_num);
            cur = stop;
            if exact || l == 0 {
                match self.nodes[cur].levels[l] {
                    None => {
                        proof {
                            self.lemma_nothing_visible(cur as int, key@, log_seq_num);
                        }
                        return None;
                    },
                    Some(next) => {
                        assert(record_ok(nodes, next as int, self.num_levels as int));
                        let found = &self.nodes[next].log_entry;
                        let hit = exact || match found.entry.key() {
                            Some(next_key) => key_order(next_key, key) == KeyOrder::Equal,
                            None => false,
                        };
                        if hit {
                            proof {
                                self.lemma_found(cur as int, l as int, key@, log_seq_num);
                            }
                            return Some(found.clone());
                        }
                        proof {
                            self.lemma_nothing_visible(cur as int, key@, log_seq_num);
                        }
                        return None;
                    },
                }
            }
            l -= 1;
        }
    }

    /// An empty index. A node rises one level with probability
    /// `probability / 2^32`; the number of levels is
    /// [`level_count`]`(probability, expected_num_keys, allowed_max_level)`.
    /// Node heights are drawn from a generator seeded with [`DEFAULT_SEED`].
    pub fn new(
        probability: u32,
        expected_num_keys: u32,
        allowed_max_level: usize,
    ) -> (out: SkipList)
        ensures
            out.wf(),
            out@ == Seq::<LogEntryView>::empty(),
            out.levels() == level_count(probability, expected_num_keys, allowed_max_level),
            out.seed() == DEFAULT_SEED,
            out.probability() == probability,
    {
        SkipList::with_seed(probability, expected_num_keys, allowed_max_level, DEFAULT_SEED)
    }

    /// An empty index as [`SkipList::new`] builds it, whose node heights are
    /// drawn from a generator seeded with `seed`. The same seed and the same
    /// inserts give the same heights. The generator never leaves the state
    /// 0, so a seed of 0 gives every node the same height.
    pub fn with_seed(
        probability: u32,
        expected_num_keys: u32,
        allowed_max_level: usize,
        seed: u64,
    ) -> (out: SkipList)
        ensures
            out.wf(),
            out@ == Seq::<LogEntryView>::empty(),
            out.levels() == level_count(probability, expected_num_keys, allowed_max_level),
            out.seed() == seed,
            out.probability() == probability,
    {
        let num_levels = count_levels(probability, expected_num_keys, allowed_max_level);
        let mut levels: Vec<Option<usize>> = Vec::new();
        let mut i: usize = 0;
        while i < num_levels
            invariant
                i <= num_levels,
                levels@.len() == i,
                forall|l: int| 0 <= l < i ==> levels@[l].is_none(),
            decreases num_levels - i,
        {
            levels.push(None);
            i += 1;
        }
        let mut nodes: Vec<Node> = Vec::new();
        nodes.push(Node { log_entry: LogEntry::default(), levels });
        let out = SkipList { nodes, probability, num_levels, rng_state: seed };
        proof {
            assert forall|l: int| 0 <= l < num_levels implies #[trigger] level_ok(
                out.nodes@,
                1,
                l,
            ) by {
                assert forall|i: int| 0 <= i < 1 implies #[trigger] link_ok(out.nodes@, 1, l, i) by {
                    assert(link(out.nodes@, 0, l).is_none());
                }
            }
            assert(out@ =~= Seq::<LogEntryView>::empty());
        }
        out
    }

    /// The number of levels that the index was built with.
    pub fn num_levels(&self) -> (out: usize)
        ensures
            out == self.levels(),
    {
        self.num_levels
    }

    /// The number of records that the index holds.
    pub fn len(&self) -> (out: usize)
        requires
            self.wf(),
        ensures
            out == self@.len(),
    {
        self.nodes.len() - 1
    }

    /// The state of the generator from which the next node's height is
    /// drawn; in an index without records, the seed.
    pub closed spec fn seed(&self) -> u64 {
        self.rng_state
    }

    /// The probability with which a node rises one level, in units of
    /// `2^-32`.
    pub closed spec fn probability(&self) -> u32 {
        self.probability
    }

    /// Draws the height of a new node: 1, and one more for every heads of
    /// the coin, until the first tails or until the index's level count.
    fn random_level(&mut self) -> (lvl: usize)
        requires
            old(self).wf(),
        ensures
            final(self).nodes == old(self).nodes,
            final(self).num_levels == old(self).num_levels,
            final(self).probability == old(self).probability,
            1 <= lvl <= old(self).num_levels,
            (lvl as int, final(self).rng_state) == drawn_level(
                old(self).rng_state,
                old(self).probability,
                old(self).num_levels as int,
                1,
            ),
    {
        let mut lvl: usize = 1;
        while lvl < self.num_levels
            invariant
                self.nodes == old(self).nodes,
                self.num_levels == old(self).num_levels,
                self.probability == old(self).probability,
                1 <= lvl <= self.num_levels,
                drawn_level(
                    old(self).rng_state,
                    old(self).probability,
                    old(self).num_levels as int,
                    1,
                ) == drawn_level(self.rng_state, self.probability, self.num_levels as int, lvl as int),
            decreases self.num_levels - lvl,
        {
            let probability: u32 = self.probability;
            if rand_bool(&mut self.rng_state, probability) {
                lvl += 1;
            } else {
                return lvl;
            }
        }
        lvl
    }

    /// Adds `log_entry` to the index. The sentinel `Empty` is ignored. A
    /// record whose key already has a version with the same sequence number
    /// is refused, and the index stays as it was.
    pub fn insert(&mut self, log_entry: LogEntry) -> (out: Result<(), SkipListError>)
        requires
            old(self).wf(),
        ensures
            final(self).wf(),
            final(self).levels() == old(self).levels(),
            final(self).probability() == old(self).probability(),
            out.is_ok() == accepts(old(self)@, log_entry@),
            final(self)@ == inserted(old(self)@, log_entry@),
            match out {
                Ok(_) => match log_entry@.entry.key() {
                    Some(k) => {
                        &&& !has_version(old(self)@, k, log_entry.log_seq_num)
                        &&& final(self)@ == old(self)@.push(log_entry@)
                        &&& final(self).seed() == drawn_level(
                            old(self).seed(),
                            old(self).probability(),
                            old(self).levels(),
                            1,
                        ).1
                    },
                    None => *final(self) == *old(self),
                },
                Err(e) => {
                    &&& e == SkipListError::DuplicateVersion
                    &&& log_entry@.entry.key().is_some()
                    &&& has_version(
                        old(self)@,
                        log_entry@.entry.key().unwrap(),
                        log_entry.log_seq_num,
                    )
                    &&& *final(self) == *old(self)
                },
            },
    {
        let seq: u64 = log_entry.log_seq_num;
        let ghost nodes0 = self.nodes@;
        let ghost levels = self.num_levels as int;
        let n: usize = self.nodes.len();
        let key = match log_entry.entry.key() {
            Some(key) => key,
            None => {
                return Ok(());
            },
        };
        let ghost k = key@;
        // The node after which the record belongs, for every level.
        let mut update: Vec<usize> = Vec::new();
        let mut i: usize = 0;
        while i < self.num_levels
            invariant
                i <= self.num_levels,
                update@.len() == i,
            decreases self.num_levels - i,
        {
            update.push(0);
            i += 1;
        }
        let mut cur: usize = 0;
        let mut l: usize = self.num_levels;
        while l > 0
            invariant
                self.wf(),
                levels == self.num_levels,
                log_entry@.entry.key() == Some(k),
                log_entry.log_seq_num == seq,
                *self == *old(self),
                nodes0 == self.nodes@,
                n == nodes0.len(),
                key@ == k,
                update@.len() == self.num_levels,
                l <= self.num_levels,
                cur < n,
                l <= height(nodes0, cur as int),
                before_pos(nodes0, cur as int, k, seq),
                forall|l2: int|
                    l <= l2 < self.num_levels ==> #[trigger] pred_ok(
                        nodes0,
                        n as int,
                        update@[l2] as int,
                        l2,
                        k,
                        seq,
                    ),
            decreases l,
        {
            l -= 1;
            let (stop, exact) = self.walk(cur, l, key, seq);
            if exact {
                proof {
                    let m = link(nodes0, stop as int, l as int).unwrap() as int;
                    assert(record_ok(nodes0, m, levels));
                    assert(is_version(self@[m - 1], k, seq));
                    assert(has_version(self@, k, seq));
                }
                return Err(SkipListError::DuplicateVersion);
            }
            cur = stop;
            update.set(l, cur);
        }
        proof {
            self.lemma_no_duplicate(update@[0] as int, k, seq);
        }
        let level = self.random_level();
        // The new node takes over its predecessors' links, then the
        // predecessors are pointed at it, level by level.
        let mut links: Vec<Option<usize>> = Vec::new();
        let mut i: usize = 0;
        while i < level
            invariant
                i <= level <= self.num_levels,
                self.nodes@ == nodes0,
                self.rng_state == drawn_level(
                    old(self).rng_state,
                    old(self).probability,
                    old(self).num_levels as int,
                    1,
                ).1,
                n == nodes0.len(),
                update@.len() == self.num_levels,
                links@.len() == i,
                forall|l2: int|
                    0 <= l2 < self.num_levels ==> #[trigger] pred_ok(
                        nodes0,
                        n as int,
                        update@[l2] as int,
                        l2,
                        k,
                        seq,
                    ),
                forall|l2: int|
                    0 <= l2 < i ==> #[trigger] links@[l2] == link(nodes0, update@[l2] as int, l2),
            decreases level - i,
        {
            proof {
                assert(pred_ok(nodes0, n as int, update@[i as int] as int, i as int, k, seq));
            }
            links.push(self.nodes[update[i]].levels[i]);
            i += 1;
        }
        self.nodes.push(Node { log_entry, levels: links });
        let ghost pushed = self.nodes@;
        proof {
            assert(record_ok(pushed, n as int, levels));
            assert forall|i: int| 1 <= i < n + 1 implies #[trigger] record_ok(
                pushed,
                i,
                levels,
            ) by {
                if i < n {
                    assert(record_ok(nodes0, i, levels));
                }
            }
            assert forall|i: int, j: int|
                1 <= i < n + 1 && 1 <= j < n + 1 && i != j implies !#[trigger] same_version(
                pushed,
                i,
                j,
            ) by {
                if i < n && j < n {
                    assert(!same_version(nodes0, i, j));
                } else if i < n {
                    assert(record_ok(nodes0, i, levels));
                    assert(old(self)@[i - 1] == nodes0[i].log_entry@);
                    assert(!is_version(old(self)@[i - 1], k, seq));
                } else {
                    assert(record_ok(nodes0, j, levels));
                    assert(old(self)@[j - 1] == nodes0[j].log_entry@);
                    assert(!is_version(old(self)@[j - 1], k, seq));
                }
            }
            assert(base_ok(pushed, n + 1, levels));
            assert forall|l2: int| 0 <= l2 < levels implies #[trigger] splicing(
                pushed,
                n as int,
                l2,
                0,
                level as int,
                update@,
            ) by {
                assert(level_ok(nodes0, n as int, l2));
                assert(pred_ok(nodes0, n as int, update@[l2] as int, l2, k, seq));
                if l2 < level {
                    lemma_level_keep(nodes0, pushed, n as int, l2);
                    assert(links@[l2] == link(nodes0, update@[l2] as int, l2));
                } else {
                    lemma_level_extend(nodes0, pushed, n as int, l2);
                }
            }
            assert(self@ =~= old(self)@.push(log_entry@));
        }
        let mut i: usize = 0;
        while i < level
            invariant
                i <= level <= self.num_levels,
                levels == self.num_levels,
                self.rng_state == drawn_level(
                    old(self).rng_state,
                    old(self).probability,
                    old(self).num_levels as int,
                    1,
                ).1,
                self.num_levels == old(self).num_levels,
                self.probability == old(self).probability,
                update@.len() == self.num_levels,
                self.nodes@.len() == n + 1,
                pushed.len() == n + 1,
                n >= 1,
                base_ok(self.nodes@, n + 1, levels),
                forall|j: int|
                    0 <= j < n + 1 ==> (#[trigger] self.nodes@[j]).log_entry == pushed[j].log_entry,
                forall|l2: int|
                    0 <= l2 < levels ==> #[trigger] splicing(
                        self.nodes@,
                        n as int,
                        l2,
                        i as int,
                        level as int,
                        update@,
                    ),
            decreases level - i,
        {
            let ghost a = self.nodes@;
            proof {
                assert(splicing(a, n as int, i as int, i as int, level as int, update@));
            }
            let u: usize = update[i];
            self.nodes[u].levels[i] = Some(n);
            proof {
                let b = self.nodes@;
                assert(same_except(a, b, u as int, i as int));
                assert forall|l2: int| 0 <= l2 < levels implies #[trigger] splicing(
                    b,
                    n as int,
                    l2,
                    i + 1,
                    level as int,
                    update@,
                ) by {
                    assert(splicing(a, n as int, l2, i as int, level as int, update@));
                    if l2 == i {
                        lemma_splice(a, b, n as int, l2, u as int, levels);
                    } else if l2 < i || l2 >= level {
                        lemma_level_frame(a, b, u as int, i as int, n + 1, l2);
                    } else {
                        lemma_level_frame(a, b, u as int, i as int, n as int, l2);
                    }
                }
                assert forall|j: int| 1 <= j < n + 1 implies #[trigger] record_ok(b, j, levels) by {
                    assert(record_ok(a, j, levels));
                }
                assert forall|j1: int, j2: int|
                    1 <= j1 < n + 1 && 1 <= j2 < n + 1 && j1 != j2 implies !#[trigger] same_version(
                    b,
                    j1,
                    j2,
                ) by {
                    assert(!same_version(a, j1, j2));
                }
            }
            i += 1;
        }
        proof {
            assert forall|l2: int| 0 <= l2 < levels implies #[trigger] level_ok(
                self.nodes@,
                n + 1,
                l2,
            ) by {
                assert(splicing(self.nodes@, n as int, l2, level as int, level as int, update@));
            }
            assert(self@ =~= old(self)@.push(log_entry@));
        }
        Ok(())
    }

    /// Where the walk at the bottom level stopped without meeting the
    /// version `(k, s)`, the index does not hold it.
    proof fn lemma_no_duplicate(&self, u: int, k: Seq<u8>, s: u64)
        requires
            self.wf(),
            pred_ok(self.nodes@, self.nodes@.len() as int, u, 0, k, s),
        ensures
            !has_version(self@, k, s),
            forall|j: int| 0 <= j < self@.len() ==> !is_version(#[trigger] self@[j], k, s),
    {
        let nodes = self.nodes@;
        let count = nodes.len() as int;
        assert(level_ok(nodes, count, 0));
        assert forall|j: int| 0 <= j < self@.len() implies !is_version(
            #[trigger] self@[j],
            k,
            s,
        ) by {
            let x = j + 1;
            if is_version(self@[j], k, s) {
                assert(record_ok(nodes, x, self.num_levels as int));
                assert(before(nodes, u, x));
                assert(no_skip(nodes, 0, u, x));
                let m = link(nodes, u, 0).unwrap() as int;
                lemma_precedes_asymmetric(k, s, key_at(nodes, m), seq_at(nodes, m));
            }
        }
    }

    /// At the bottom level, where the walk stopped before a node of another
    /// key or at the end, no version of `key` is visible.
    proof fn lemma_nothing_visible(&self, cur: int, key: Seq<u8>, s: u64)
        requires
            self.wf(),
            0 <= cur < self.nodes@.len(),
            before_pos(self.nodes@, cur, key, s),
            match link(self.nodes@, cur, 0) {
                Some(m) => 1 <= m < self.nodes@.len() && precedes(
                    key,
                    s,
                    key_at(self.nodes@, m as int),
                    seq_at(self.nodes@, m as int),
                ) && key_at(self.nodes@, m as int) != key,
                None => true,
            },
        ensures
            forall|j: int| 0 <= j < self@.len() ==> !(#[trigger] self@[j]).visible(key, s),
            newest_visible(self@, key, s).is_none(),
    {
        let nodes = self.nodes@;
        let count = nodes.len() as int;
        assert(level_ok(nodes, count, 0));
        assert forall|j: int| 0 <= j < self@.len() implies !(#[trigger] self@[j]).visible(
            key,
            s,
        ) by {
            let x = j + 1;
            if self@[j].visible(key, s) {
                assert(record_ok(nodes, x, self.num_levels as int));
                if cur != 0 {
                    assert(record_ok(nodes, cur, self.num_levels as int));
                }
                assert(before(nodes, cur, x));
                assert(no_skip(nodes, 0, cur, x));
                let m = link(nodes, cur, 0).unwrap() as int;
                assert(key_lt(key, key_at(nodes, m)));
                lemma_key_lt_asymmetric(key, key_at(nodes, m));
            }
        }
        lemma_newest_visible_none(self@, key, s);
    }

    /// The node after the place where the walk stopped is the newest visible
    /// version of `key`, if it is a version of `key` at all and the walk was
    /// at the bottom level or met the snapshot's own sequence number.
    proof fn lemma_found(&self, cur: int, l: int, key: Seq<u8>, s: u64)
        requires
            self.wf(),
            0 <= cur < self.nodes@.len(),
            0 <= l < height(self.nodes@, cur),
            before_pos(self.nodes@, cur, key, s),
            link(self.nodes@, cur, l).is_some(),
            ({
                let m = link(self.nodes@, cur, l).unwrap() as int;
                &&& 1 <= m < self.nodes@.len()
                &&& key_at(self.nodes@, m) == key
                &&& seq_at(self.nodes@, m) == s || (l == 0 && precedes(
                    key,
                    s,
                    key_at(self.nodes@, m),
                    seq_at(self.nodes@, m),
                ))
            }),
        ensures
            ({
                let m = link(self.nodes@, cur, l).unwrap() as int;
                &&& is_newest_visible(self@, m - 1, key, s)
                &&& self@[m - 1] == self.nodes@[m].log_entry@
                &&& newest_visible(self@, key, s) == Some(self.nodes@[m].log_entry@)
            }),
    {
        let nodes = self.nodes@;
        let count = nodes.len() as int;
        let m = link(nodes, cur, l).unwrap() as int;
        assert(record_ok(nodes, m, self.num_levels as int));
        if seq_at(nodes, m) != s {
            lemma_key_lt_asymmetric_self(key);
        }
        assert(level_ok(nodes, count, 0));
        assert forall|j: int| 0 <= j < self@.len() && (#[trigger] self@[j]).visible(
            key,
            s,
        ) implies self@[j].log_seq_num <= self@[m - 1].log_seq_num by {
            let x = j + 1;
            if seq_at(nodes, m) != s {
                assert(record_ok(nodes, x, self.num_levels as int));
                assert(before(nodes, cur, x));
                assert(no_skip(nodes, 0, cur, x));
            }
        }
        self.lemma_distinct();
        lemma_newest_visible_is(self@, m - 1, key, s);
    }
}

/// No key sorts before itself.
proof fn lemma_key_lt_asymmetric_self(k: Seq<u8>)
    ensures
        !key_lt(k, k),
{
    if key_lt(k, k) {
        lemma_key_lt_asymmetric(k, k);
    }
}

} // verus!
