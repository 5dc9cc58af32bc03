//! Luby Transform fountain code: neighbour selection, the encoder, and the
//! peeling decoder.
//!
//! Each encoded symbol `esi` is the XOR of a pseudo-random set of source
//! symbols. The set is drawn from a xorshift64* stream seeded by
//! `(file_id, esi)`: when `k > 1` the first output of that stream picks the
//! symbol's degree from the robust soliton distribution (see
//! [`neighbor_rng`]); the following outputs pick distinct source indices
//! until `degree` of them are chosen.

use vstd::prelude::*;
use crate::rng::{XorShift64, initial_state, xorshift_step, high_half, output_at, state_after};
use crate::xor::{combine, names_symbols, xor_into, zeros, lemma_combine_len};
use crate::peeling::{
    eqs_listed, lemma_closure_reached, lemma_closure_step, lemma_empty_list_set, lemma_known_in_closure,
    lemma_lists_initial, lemma_not_single, lemma_remove_to_set, lemma_rework_step, lemma_round_end,
    lemma_round_start, lists_from, peel_closed, peeling_closure, round_listed,
};


verus! {

broadcast use vstd::std_specs::hash::group_hash_axioms;

/// Multiplier applied to the file id when seeding a symbol's stream.
pub const SEED_FILE_MULTIPLIER: u64 = 0x9E3779B97F4A7C15;

/// Multiplier that mixes the symbol id into the seed.
pub const SEED_MIX_MULTIPLIER: u64 = 0xBF58476D1CE4E5B9;

/// Upper bound on the number of index draws made for one symbol.
pub const MAX_DRAWS: u64 = 0xFFFF_FFFF_FFFF_FFFF;

/// The seed of the stream that chooses the neighbours of symbol `esi`.
pub open spec fn neighbor_seed(file_id: u64, esi: u32) -> u64 {
    vstd::wrapping::u64_specs::wrapping_mul(
        vstd::wrapping::u64_specs::wrapping_add(
            vstd::wrapping::u64_specs::wrapping_mul(file_id, SEED_FILE_MULTIPLIER),
            esi as u64,
        ),
        SEED_MIX_MULTIPLIER,
    )
}

/// The generator state from which the source indices are drawn: past the
/// one output that the degree was drawn from, when `k > 1`.
pub open spec fn sampling_start(file_id: u64, esi: u32, k: u32) -> u64 {
    let s0 = initial_state(neighbor_seed(file_id, esi));
    if k > 1 {
        xorshift_step(s0)
    } else {
        s0
    }
}

/// The degree clamped into `1..=max(k, 1)`.
pub open spec fn effective_degree(degree: u32, k: u32) -> u32 {
    let m = if degree < k { degree } else { k };
    if m < 1 { 1 } else { m }
}

/// The `i`-th source index drawn from state `s` (a zero range draws nothing and yields 0).
pub open spec fn draw(s: u64, k: u32, i: nat) -> u32 {
    if k == 0 {
        0
    } else {
        (high_half(output_at(s, i)) % k) as u32
    }
}

/// The distinct indices among the first `n` draws.
pub open spec fn drawn(s: u64, k: u32, n: nat) -> Set<u32>
    decreases n,
{
    if n == 0 {
        Set::empty()
    } else {
        drawn(s, k, (n - 1) as nat).insert(draw(s, k, (n - 1) as nat))
    }
}

/// Each element of `v` is smaller than the next.
pub open spec fn strictly_increasing(v: Seq<u32>) -> bool {
    forall|i: int, j: int| 0 <= i < j < v.len() ==> v[i] < v[j]
}

/// `v` lists, in increasing order, the indices drawn from `s` until `d` distinct
/// ones were seen (or, should that never happen, all those of `MAX_DRAWS` draws).
pub open spec fn is_neighbor_list(v: Seq<u32>, s: u64, k: u32, d: u32) -> bool {
    &&& strictly_increasing(v)
    &&& {
        ||| (v.len() == d && exists|n: nat| n <= MAX_DRAWS && v.to_set() == #[trigger] drawn(s, k, n))
        ||| (v.len() < d && v.to_set() == drawn(s, k, MAX_DRAWS as nat))
    }
}

/// The neighbour list of symbol `esi` of a `k`-symbol file, given its drawn degree.
pub open spec fn neighbor_list(file_id: u64, esi: u32, k: u32, degree: u32) -> Seq<u32> {
    choose|v: Seq<u32>|
        is_neighbor_list(v, sampling_start(file_id, esi, k), k, effective_degree(degree, k))
}

/// The set of drawn indices is finite.
pub proof fn lemma_drawn_finite(s: u64, k: u32, n: nat)
    ensures
        drawn(s, k, n).finite(),
    decreases n,
{
    if n > 0 {
        lemma_drawn_finite(s, k, (n - 1) as nat);
    }
}

/// More draws never lose an index.
pub proof fn lemma_drawn_monotone(s: u64, k: u32, m: nat, n: nat)
    requires
        m <= n,
    ensures
        drawn(s, k, m).subset_of(drawn(s, k, n)),
    decreases n,
{
    if m < n {
        lemma_drawn_monotone(s, k, m, (n - 1) as nat);
    }
}

/// An increasing list has as many distinct elements as entries.
pub proof fn lemma_increasing_set_len(v: Seq<u32>)
    requires
        strictly_increasing(v),
    ensures
        v.to_set().len() == v.len(),
        v.to_set().finite(),
{
    assert(v.no_duplicates());
    v.unique_seq_to_set();
}

/// Two increasing sequences with the same elements are equal.
pub proof fn lemma_increasing_unique(a: Seq<u32>, b: Seq<u32>)
    requires
        strictly_increasing(a),
        strictly_increasing(b),
        a.to_set() == b.to_set(),
    ensures
        a == b,
    decreases a.len(),
{
    if a.len() == 0 {
        if b.len() > 0 {
            assert(b.to_set().contains(b[0]));
        }
        assert(a =~= b);
    } else {
        assert(a.to_set().contains(a[0]));
        assert(b.to_set().contains(a[0]));
        let j = choose|j: int| 0 <= j < b.len() && b[j] == a[0];
        assert(b.to_set().contains(b[0]));
        let i = choose|i: int| 0 <= i < a.len() && a[i] == b[0];
        assert(a[0] == b[0]);
        let ta = a.drop_first();
        let tb = b.drop_first();
        assert forall|x: u32| ta.to_set().contains(x) <==> tb.to_set().contains(x) by {
            if ta.to_set().contains(x) {
                let p = choose|p: int| 0 <= p < ta.len() && ta[p] == x;
                assert(a[p + 1] == x);
                assert(b.to_set().contains(x));
                let q = choose|q: int| 0 <= q < b.len() && b[q] == x;
                assert(q != 0);
                assert(tb[q - 1] == x);
            }
            if tb.to_set().contains(x) {
                let p = choose|p: int| 0 <= p < tb.len() && tb[p] == x;
                assert(b[p + 1] == x);
                assert(a.to_set().contains(x));
                let q = choose|q: int| 0 <= q < a.len() && a[q] == x;
                assert(q != 0);
                assert(ta[q - 1] == x);
            }
        }
        assert(ta.to_set() =~= tb.to_set());
        lemma_increasing_unique(ta, tb);
        assert(a.len() == ta.len() + 1);
        assert(b.len() == tb.len() + 1);
        assert forall|i: int| 0 <= i < a.len() implies a[i] == b[i] by {
            if i > 0 {
                assert(a[i] == ta[i - 1]);
                assert(b[i] == tb[i - 1]);
            }
        }
        assert(a =~= b);
    }
}

/// At most one list meets the description of a neighbour list.
pub proof fn lemma_neighbor_list_unique(v1: Seq<u32>, v2: Seq<u32>, s: u64, k: u32, d: u32)
    requires
        is_neighbor_list(v1, s, k, d),
        is_neighbor_list(v2, s, k, d),
    ensures
        v1 == v2,
{
    lemma_increasing_set_len(v1);
    lemma_increasing_set_len(v2);
    lemma_drawn_finite(s, k, MAX_DRAWS as nat);
    if v1.len() == d && v2.len() == d {
        let n1 = choose|n: nat| n <= MAX_DRAWS && v1.to_set() == #[trigger] drawn(s, k, n);
        let n2 = choose|n: nat| n <= MAX_DRAWS && v2.to_set() == #[trigger] drawn(s, k, n);
        lemma_drawn_finite(s, k, n1);
        lemma_drawn_finite(s, k, n2);
        if n1 <= n2 {
            lemma_drawn_monotone(s, k, n1, n2);
            vstd::set_lib::lemma_subset_equality(drawn(s, k, n1), drawn(s, k, n2));
        } else {
            lemma_drawn_monotone(s, k, n2, n1);
            vstd::set_lib::lemma_subset_equality(drawn(s, k, n2), drawn(s, k, n1));
        }
        lemma_increasing_unique(v1, v2);
    } else if v1.len() == d {
        let n1 = choose|n: nat| n <= MAX_DRAWS && v1.to_set() == #[trigger] drawn(s, k, n);
        lemma_drawn_monotone(s, k, n1, MAX_DRAWS as nat);
        vstd::set_lib::lemma_len_subset(drawn(s, k, n1), drawn(s, k, MAX_DRAWS as nat));
    } else if v2.len() == d {
        let n2 = choose|n: nat| n <= MAX_DRAWS && v2.to_set() == #[trigger] drawn(s, k, n);
        lemma_drawn_monotone(s, k, n2, MAX_DRAWS as nat);
        vstd::set_lib::lemma_len_subset(drawn(s, k, n2), drawn(s, k, MAX_DRAWS as nat));
    } else {
        lemma_increasing_unique(v1, v2);
    }
}

/// `x` inserted into the increasing list `v` at its place (nothing changes when it is there).
pub open spec fn sorted_insert(v: Seq<u32>, x: u32) -> Seq<u32>
    decreases v.len(),
{
    if v.len() == 0 {
        seq![x]
    } else if x < v[0] {
        seq![x] + v
    } else if x == v[0] {
        v
    } else {
        seq![v[0]] + sorted_insert(v.drop_first(), x)
    }
}

/// Sorted insertion keeps a list increasing, adds `x` to its elements and at most one entry.
pub proof fn lemma_sorted_insert(v: Seq<u32>, x: u32)
    requires
        strictly_increasing(v),
    ensures
        strictly_increasing(sorted_insert(v, x)),
        sorted_insert(v, x).to_set() == v.to_set().insert(x),
        sorted_insert(v, x).len() <= v.len() + 1,
    decreases v.len(),
{
    let r = sorted_insert(v, x);
    if v.len() == 0 {
        assert(r.to_set() =~= v.to_set().insert(x)) by {
            assert(r[0] == x);
        }
    } else if x < v[0] {
        assert forall|a: int, b: int| 0 <= a < b < r.len() implies r[a] < r[b] by {
            if a == 0 {
                assert(r[b] == v[b - 1]);
                assert(v[0] <= v[b - 1]) by {
                    if b - 1 > 0 {
                        assert(v[0] < v[b - 1]);
                    }
                }
            } else {
                assert(r[a] == v[a - 1] && r[b] == v[b - 1]);
            }
        }
        assert forall|y: u32| r.to_set().contains(y) <==> v.to_set().insert(x).contains(y) by {
            if r.to_set().contains(y) {
                let q = choose|q: int| 0 <= q < r.len() && r[q] == y;
                if q > 0 {
                    assert(v[q - 1] == y);
                }
            }
            if v.to_set().contains(y) {
                let q = choose|q: int| 0 <= q < v.len() && v[q] == y;
                assert(r[q + 1] == y);
            }
            if y == x {
                assert(r[0] == x);
            }
        }
        assert(r.to_set() =~= v.to_set().insert(x));
    } else if x == v[0] {
        assert(v.to_set().contains(x));
        assert(r.to_set() =~= v.to_set().insert(x));
    } else {
        let t = v.drop_first();
        assert forall|a: int, b: int| 0 <= a < b < t.len() implies t[a] < t[b] by {
            assert(t[a] == v[a + 1] && t[b] == v[b + 1]);
        }
        lemma_sorted_insert(t, x);
        let rt = sorted_insert(t, x);
        assert(r == seq![v[0]] + rt);
        assert forall|q: int| 0 <= q < rt.len() implies rt[q] > v[0] by {
            assert(rt.to_set().contains(rt[q]));
            assert(t.to_set().insert(x).contains(rt[q]));
            if rt[q] != x {
                let w = choose|w: int| 0 <= w < t.len() && t[w] == rt[q];
                assert(v[w + 1] == rt[q]);
            }
        }
        assert forall|a: int, b: int| 0 <= a < b < r.len() implies r[a] < r[b] by {
            if a == 0 {
                assert(r[b] == rt[b - 1]);
            } else {
                assert(r[a] == rt[a - 1] && r[b] == rt[b - 1]);
            }
        }
        assert forall|y: u32| r.to_set().contains(y) <==> v.to_set().insert(x).contains(y) by {
            if r.to_set().contains(y) {
                let q = choose|q: int| 0 <= q < r.len() && r[q] == y;
                if q == 0 {
                    assert(v[0] == y);
                    assert(v.to_set().contains(y));
                } else {
                    assert(rt[q - 1] == y);
                    assert(rt.to_set().contains(y));
                    if y != x {
                        let w = choose|w: int| 0 <= w < t.len() && t[w] == y;
                        assert(v[w + 1] == y);
                    }
                }
            }
            if v.to_set().contains(y) {
                let q = choose|q: int| 0 <= q < v.len() && v[q] == y;
                if q > 0 {
                    assert(t[q - 1] == y);
                    assert(t.to_set().contains(y));
                    assert(t.to_set().insert(x).contains(y));
                    assert(rt.to_set().contains(y));
                    let w = choose|w: int| 0 <= w < rt.len() && rt[w] == y;
                    assert(r[w + 1] == y);
                } else {
                    assert(r[0] == y);
                }
            }
            if y == x {
                assert(t.to_set().insert(x).contains(x));
                assert(rt.to_set().contains(x));
                let w = choose|w: int| 0 <= w < rt.len() && rt[w] == x;
                assert(r[w + 1] == x);
            }
        }
        assert(r.to_set() =~= v.to_set().insert(x));
    }
}

/// The list built by drawing from `s` and inserting each new index, `n` draws in,
/// stopping once it holds `d` indices.
pub open spec fn draw_list(s: u64, k: u32, d: u32, n: nat) -> Seq<u32>
    decreases n,
{
    if n == 0 {
        Seq::empty()
    } else {
        let p = draw_list(s, k, d, (n - 1) as nat);
        if p.len() >= d {
            p
        } else {
            sorted_insert(p, draw(s, k, (n - 1) as nat))
        }
    }
}

/// The list drawn after `n` draws is increasing, holds at most `d` indices, and holds
/// the distinct indices of the first `m` draws, where `m` is `n` unless it filled up.
pub proof fn lemma_draw_list(s: u64, k: u32, d: u32, n: nat) -> (m: nat)
    ensures
        m <= n,
        strictly_increasing(draw_list(s, k, d, n)),
        draw_list(s, k, d, n).len() <= d,
        draw_list(s, k, d, n).to_set() == drawn(s, k, m),
        draw_list(s, k, d, n).len() < d ==> m == n,
    decreases n,
{
    if n == 0 {
        assert(draw_list(s, k, d, 0).to_set() =~= drawn(s, k, 0));
        0
    } else {
        let m0 = lemma_draw_list(s, k, d, (n - 1) as nat);
        let p = draw_list(s, k, d, (n - 1) as nat);
        if p.len() >= d {
            m0
        } else {
            lemma_sorted_insert(p, draw(s, k, (n - 1) as nat));
            n
        }
    }
}

/// Every drawn index is below `k` (when `k > 0`).
pub proof fn lemma_drawn_below(s: u64, k: u32, n: nat)
    ensures
        forall|y: u32| #[trigger] drawn(s, k, n).contains(y) ==> k > 0 ==> y < k,
    decreases n,
{
    if n > 0 {
        lemma_drawn_below(s, k, (n - 1) as nat);
        if k > 0 {
            let h = high_half(output_at(s, (n - 1) as nat));
            vstd::arithmetic::div_mod::lemma_mod_pos_bound(h as int, k as int);
            assert(draw(s, k, (n - 1) as nat) < k);
        }
        assert forall|y: u32| #[trigger] drawn(s, k, n).contains(y) implies k > 0 ==> y < k by {
            if y != draw(s, k, (n - 1) as nat) {
                assert(drawn(s, k, (n - 1) as nat).contains(y));
            }
        }
    }
}

/// A neighbour list exists for every symbol, and it is an increasing, non-empty list of
/// at most the clamped degree many indices below `k`.
pub proof fn lemma_neighbor_list_shape(file_id: u64, esi: u32, k: u32, degree: u32)
    ensures
        ({
            let v = neighbor_list(file_id, esi, k, degree);
            &&& is_neighbor_list(v, sampling_start(file_id, esi, k), k, effective_degree(degree, k))
            &&& strictly_increasing(v)
            &&& 1 <= v.len() <= effective_degree(degree, k)
            &&& k > 0 ==> forall|j: int| 0 <= j < v.len() ==> v[j] < k
        }),
{
    let s = sampling_start(file_id, esi, k);
    let d = effective_degree(degree, k);
    let w = draw_list(s, k, d, MAX_DRAWS as nat);
    let m = lemma_draw_list(s, k, d, MAX_DRAWS as nat);
    assert(w.to_set() == drawn(s, k, m));
    assert(is_neighbor_list(w, s, k, d));
    let v = neighbor_list(file_id, esi, k, degree);
    assert(is_neighbor_list(v, s, k, d));
    lemma_increasing_set_len(v);
    if v.len() < d {
        assert(drawn(s, k, MAX_DRAWS as nat).contains(draw(s, k, (MAX_DRAWS - 1) as nat)));
        assert(v.len() >= 1) by {
            if v.len() == 0 {
                assert(v.to_set() =~= Set::<u32>::empty());
            }
        }
    }
    let n = if v.len() == d { choose|n: nat| n <= MAX_DRAWS && v.to_set() == #[trigger] drawn(s, k, n) } else { MAX_DRAWS as nat };
    assert(v.to_set() == drawn(s, k, n));
    lemma_drawn_below(s, k, n);
    assert forall|j: int| 0 <= j < v.len() implies k > 0 ==> v[j] < k by {
        assert(v.to_set().contains(v[j]));
    }
}

/// Inserts `x` into the increasing list `v` unless it is there already.
fn insert_sorted(v: &mut Vec<u32>, x: u32)
    requires
        strictly_increasing(old(v)@),
    ensures
        strictly_increasing(final(v)@),
        final(v)@.to_set() == old(v)@.to_set().insert(x),
        old(v)@.contains(x) ==> final(v)@ == old(v)@,
        !old(v)@.contains(x) ==> final(v)@.len() == old(v)@.len() + 1,
{
    let mut p: usize = 0;
    while p < v.len() && v[p] < x
        invariant
            p <= v@.len(),
            forall|j: int| 0 <= j < p ==> v@[j] < x,
        decreases v@.len() - p,
    {
        p = p + 1;
    }
    if p < v.len() && v[p] == x {
        assert(old(v)@.to_set() =~= old(v)@.to_set().insert(x));
        return;
    }
    proof {
        assert forall|j: int| p <= j < v@.len() implies v@[j] > x by {
            assert(v@[p as int] >= x);
        }
        assert(!v@.contains(x));
    }
    v.insert(p, x);
    proof {
        let o = old(v)@;
        let n = v@;
        assert(n =~= o.insert(p as int, x));
        assert forall|a: int, b: int| 0 <= a < b < n.len() implies n[a] < n[b] by {
            if a < p && b > p {
                assert(n[b] == o[b - 1]);
            } else if a == p as int {
                assert(n[b] == o[b - 1]);
            } else if b == p as int {
            } else if a > p {
                assert(n[a] == o[a - 1] && n[b] == o[b - 1]);
            }
        }
        assert forall|y: u32| n.to_set().contains(y) <==> o.to_set().insert(x).contains(y) by {
            if n.to_set().contains(y) {
                let q = choose|q: int| 0 <= q < n.len() && n[q] == y;
                if q < p {
                    assert(o[q] == y);
                } else if q > p {
                    assert(o[q - 1] == y);
                }
            }
            if o.to_set().contains(y) {
                let q = choose|q: int| 0 <= q < o.len() && o[q] == y;
                if q < p {
                    assert(n[q] == y);
                } else {
                    assert(n[q + 1] == y);
                }
            }
            if y == x {
                assert(n[p as int] == x);
            }
        }
        assert(n.to_set() =~= o.to_set().insert(x));
    }
}

/// The generator of symbol `esi`'s neighbour stream, before any draw.
///
/// The robust soliton degree of the symbol is drawn from this generator's
/// first output (no output is drawn when `k <= 1`).
pub fn neighbor_rng(file_id: u64, esi: u32) -> (r: XorShift64)
    ensures
        r@ == initial_state(neighbor_seed(file_id, esi)),
{
    let seed = file_id.wrapping_mul(SEED_FILE_MULTIPLIER).wrapping_add(esi as u64).wrapping_mul(
        SEED_MIX_MULTIPLIER,
    );
    XorShift64::new(seed)
}

/// Sorted distinct source indices that symbol `esi` combines, for a file of
/// `k` source symbols; `degree` is the robust soliton degree drawn for the
/// symbol (clamped into `1..=k`).
pub fn neighbors(file_id: u64, esi: u32, k: u32, degree: u32) -> (v: Vec<u32>)
    ensures
        v@ == neighbor_list(file_id, esi, k, degree),
        strictly_increasing(v@),
        1 <= v@.len() <= effective_degree(degree, k),
        k > 0 ==> forall|j: int| 0 <= j < v@.len() ==> v@[j] < k,
{
    proof {
        lemma_neighbor_list_shape(file_id, esi, k, degree);
    }
    let mut rng = neighbor_rng(file_id, esi);
    if k > 1 {
        let _ = rng.next_u64();
    }
    let ghost s = sampling_start(file_id, esi, k);
    let m = if degree < k { degree } else { k };
    let d = if m < 1 { 1 } else { m };
    let mut chosen: Vec<u32> = Vec::new();
    let mut draws: u64 = 0;
    assert(chosen@.to_set() =~= drawn(s, k, 0));
    while (chosen.len() as u64) < (d as u64) && draws < MAX_DRAWS
        invariant
            d == effective_degree(degree, k),
            strictly_increasing(chosen@),
            chosen@.to_set() == drawn(s, k, draws as nat),
            chosen@.len() <= d,
            k > 0 ==> rng@ == state_after(s, draws as nat),
            k > 0 ==> forall|j: int| 0 <= j < chosen@.len() ==> chosen@[j] < k,
        decreases MAX_DRAWS - draws,
    {
        let x = rng.gen_range(k);
        proof {
            lemma_increasing_set_len(chosen@);
        }
        let ghost before = chosen@;
        insert_sorted(&mut chosen, x);
        proof {
            assert(x == draw(s, k, draws as nat));
            assert(drawn(s, k, (draws + 1) as nat) == drawn(s, k, draws as nat).insert(x));
            if k > 0 {
                assert forall|j: int| 0 <= j < chosen@.len() implies chosen@[j] < k by {
                    assert(chosen@.to_set().contains(chosen@[j]));
                    if chosen@[j] != x {
                        assert(before.to_set().contains(chosen@[j]));
                    }
                }
            }
        }
        draws = draws + 1;
    }
    proof {
        let v = chosen@;
        if v.len() == d {
            assert(v.to_set() == drawn(s, k, draws as nat));
        } else {
            assert(draws == MAX_DRAWS);
        }
        assert(is_neighbor_list(v, s, k, d));
        let c = neighbor_list(file_id, esi, k, degree);
        assert(is_neighbor_list(c, s, k, d));
        lemma_neighbor_list_unique(v, c, s, k, d);
    }
    chosen
}


/// Number of source symbols a file of `len` bytes is cut into (at least one).
pub open spec fn symbol_count(len: nat, sym: nat) -> nat {
    if len == 0 {
        1
    } else {
        ((len - 1) as nat / sym + 1) as nat
    }
}

/// Source symbol `i`: bytes `i*sym ..` of `data`, zero-padded to `sym` bytes.
pub open spec fn chunk(data: Seq<u8>, sym: nat, i: nat) -> Seq<u8> {
    Seq::new(sym, |j: int| if i * sym + j < data.len() { data[i * sym + j] } else { 0u8 })
}

/// The source symbols of `data` for symbol size `sym`.
pub open spec fn source_symbols(data: Seq<u8>, sym: nat) -> Seq<Seq<u8>> {
    Seq::new(symbol_count(data.len(), sym), |i: int| chunk(data, sym, i as nat))
}

/// The first `len` bytes of the symbols laid end to end.
pub open spec fn layout(syms: Seq<Seq<u8>>, sym: nat, len: nat) -> Seq<u8> {
    Seq::new(len, |p: int| syms[p / sym as int][p % sym as int])
}

/// The symbol size actually used for a requested one (at least 1).
pub open spec fn effective_symbol_size(symbol_size: usize) -> nat {
    if symbol_size < 1 { 1 } else { symbol_size as nat }
}

/// Every one of `k >= 1` symbols is `sym >= 1` bytes long.
pub open spec fn uniform_symbols(syms: Seq<Seq<u8>>, k: nat, sym: nat) -> bool {
    &&& syms.len() == k
    &&& k >= 1
    &&& sym >= 1
    &&& forall|i: int| 0 <= i < k ==> (#[trigger] syms[i]).len() == sym
}

/// Abstract state of an [`Encoder`].
pub ghost struct EncoderState {
    pub file_id: u64,
    pub k: u32,
    pub symbol_size: nat,
    pub symbols: Seq<Seq<u8>>,
    pub next_esi: u32,
}

/// Fountain encoder: splits a file into `k` source symbols and produces an
/// endless stream of XOR combinations of them.
pub struct Encoder {
    file_id: u64,
    k: u32,
    symbol_size: usize,
    symbols: Vec<Vec<u8>>,
    next_esi: u32,
}

impl View for Encoder {
    type V = EncoderState;

    closed spec fn view(&self) -> EncoderState {
        EncoderState {
            file_id: self.file_id,
            k: self.k,
            symbol_size: self.symbol_size as nat,
            symbols: self.symbols@.map_values(|s: Vec<u8>| s@),
            next_esi: self.next_esi,
        }
    }
}

/// `n` symbols are needed exactly when `n - 1` of them fall short of `len` bytes and `n` do not.
pub proof fn lemma_symbol_count(len: nat, sym: nat, n: nat)
    requires
        sym >= 1,
        n >= 1,
        len == 0 ==> n == 1,
        len > 0 ==> (n - 1) * sym < len <= n * sym,
    ensures
        symbol_count(len, sym) == n,
{
    if len > 0 {
        let q = (n - 1) as nat;
        let x = (len - 1) as int;
        let r = x - q * sym;
        assert(q * sym <= x);
        assert(x < (q + 1) * sym) by (nonlinear_arith)
            requires len <= n * sym, q == n - 1, n >= 1, x == len - 1;
        assert((q + 1) * sym == q * sym + sym) by (nonlinear_arith);
        vstd::arithmetic::div_mod::lemma_fundamental_div_mod_converse(x, sym as int, q as int, r);
    }
}

impl Encoder {
    /// Every one of the `k` source symbols is `symbol_size` bytes long.
    pub open spec fn wf(&self) -> bool {
        uniform_symbols(self@.symbols, self@.k as nat, self@.symbol_size)
    }

    /// Splits `data` into zero-padded source symbols of `max(symbol_size, 1)` bytes
    /// (one zero symbol for empty data).
    pub fn new(file_id: u64, data: &[u8], symbol_size: usize) -> (r: Self)
        requires
            symbol_count(data@.len(), effective_symbol_size(symbol_size)) <= u32::MAX,
        ensures
            r.wf(),
            r@.file_id == file_id,
            r@.symbol_size == effective_symbol_size(symbol_size),
            r@.symbols == source_symbols(data@, effective_symbol_size(symbol_size)),
            r@.k == symbol_count(data@.len(), effective_symbol_size(symbol_size)),
            r@.next_esi == 0,
    {
        let sym = if symbol_size < 1 { 1 } else { symbol_size };
        let ghost symn = sym as nat;
        let len = data.len();
        let mut symbols: Vec<Vec<u8>> = Vec::new();
        let mut offset: usize = 0;
        loop
            invariant_except_break
                offset == symbols@.len() * symn,
                len == 0 ==> symbols@.len() == 0,
                len > 0 ==> offset < len,
                forall|i: int| 0 <= i < symbols@.len() ==> (#[trigger] symbols@[i])@ == chunk(data@, symn, i as nat),
            invariant
                sym >= 1,
                symn == sym,
                len == data@.len(),
                offset <= len,
                symbols@.len() == 0 ==> offset == 0,
            ensures
                symbols@.len() >= 1,
                len == 0 ==> symbols@.len() == 1,
                len > 0 ==> (symbols@.len() - 1) * symn < len <= symbols@.len() * symn,
                forall|i: int| 0 <= i < symbols@.len() ==> (#[trigger] symbols@[i])@ == chunk(data@, symn, i as nat),
            decreases len - offset,
        {
            let end = if sym <= len - offset { offset + sym } else { len };
            let mut s: Vec<u8> = vec![0u8; sym];
            let mut j: usize = 0;
            while offset + j < end
                invariant
                    offset <= end,
                    j <= end - offset,
                    end <= len,
                    end - offset <= sym,
                    len == data@.len(),
                    s@.len() == sym,
                    forall|t: int| 0 <= t < j ==> s@[t] == data@[offset + t],
                    forall|t: int| j <= t < sym ==> s@[t] == 0u8,
                decreases end - offset - j,
            {
                s[j] = data[offset + j];
                j = j + 1;
            }
            proof {
                let i = symbols@.len();
                assert(s@ =~= chunk(data@, symn, i as nat)) by {
                    assert forall|t: int| 0 <= t < symn implies s@[t] == chunk(data@, symn, i as nat)[t] by {
                        assert(i * symn + t == offset + t);
                        if offset + t < end {
                            assert(t < j);
                        } else {
                            assert(t >= j);
                            if end < len {
                                assert(end == offset + sym);
                            }
                        }
                    }
                }
            }
            symbols.push(s);
            proof {
                assert((symbols@.len() as nat) * symn == (symbols@.len() - 1) as nat * symn + symn) by (nonlinear_arith)
                    requires symbols@.len() >= 1;
            }
            offset = end;
            if offset >= len {
                break;
            }
        }
        proof {
            lemma_symbol_count(len as nat, symn, symbols@.len() as nat);
        }
        let k = symbols.len() as u32;
        let r = Encoder { file_id, k, symbol_size: sym, symbols, next_esi: 0 };
        proof {
            assert(r@.symbols =~= source_symbols(data@, symn));
        }
        r
    }

    /// The id of the file being encoded or decoded.
    pub fn file_id(&self) -> (r: u64)
        ensures
            r == self@.file_id,
    {
        self.file_id
    }

    /// Number of source symbols.
    pub fn k(&self) -> (r: u32)
        ensures
            r == self@.k,
    {
        self.k
    }

    /// Bytes per source symbol.
    pub fn symbol_size(&self) -> (r: usize)
        ensures
            r == self@.symbol_size,
    {
        self.symbol_size
    }

    /// The id of the symbol the next call of [`Encoder::encode_next`] produces.
    pub fn next_esi(&self) -> (r: u32)
        ensures
            r == self@.next_esi,
    {
        self.next_esi
    }

    /// Produces encoded symbol `next_esi` (the XOR of its neighbours) and advances
    /// the counter; `degree` is the degree drawn for that symbol.
    pub fn encode_next(&mut self, degree: u32) -> (r: (u32, Vec<u8>))
        requires
            old(self).wf(),
        ensures
            final(self).wf(),
            r.0 == old(self)@.next_esi,
            r.1@ == combine(
                old(self)@.symbols,
                neighbor_list(old(self)@.file_id, r.0, old(self)@.k, degree),
                old(self)@.symbol_size,
            ),
            final(self)@ == (EncoderState {
                next_esi: vstd::wrapping::u32_specs::wrapping_add(old(self)@.next_esi, 1),
                ..old(self)@
            }),
    {
        let esi = self.next_esi;
        self.next_esi = self.next_esi.wrapping_add(1);
        let ns = neighbors(self.file_id, esi, self.k, degree);
        let ghost syms = self@.symbols;
        let ghost len = self.symbol_size as nat;
        let mut out: Vec<u8> = vec![0u8; self.symbol_size];
        assert(out@ =~= combine(syms, ns@.take(0), len));
        let mut t: usize = 0;
        while t < ns.len()
            invariant
                uniform_symbols(syms, self.k as nat, len),
                syms == self@.symbols,
                len == self.symbol_size,
                t <= ns@.len(),
                forall|j: int| 0 <= j < ns@.len() ==> ns@[j] < self.k,
                out@ == combine(syms, ns@.take(t as int), len),
            decreases ns@.len() - t,
        {
            let i = ns[t] as usize;
            proof {
                assert(ns@.take(t + 1).drop_last() =~= ns@.take(t as int));
                assert(ns@.take(t + 1).last() == ns@[t as int]);
                assert(self.symbols@[i as int]@ == syms[i as int]);
            }
            xor_into(&mut out, &self.symbols[i]);
            t = t + 1;
        }
        proof {
            assert(ns@.take(ns@.len() as int) =~= ns@);
        }
        (esi, out)
    }
}


/// Number of recovered slots.
pub open spec fn count_recovered(r: Seq<Option<Seq<u8>>>) -> nat
    decreases r.len(),
{
    if r.len() == 0 {
        0
    } else {
        count_recovered(r.drop_last()) + if r.last() is Some { 1nat } else { 0nat }
    }
}

/// Every slot holds a recovered symbol.
pub open spec fn all_recovered(r: Seq<Option<Seq<u8>>>) -> bool {
    forall|i: int| 0 <= i < r.len() ==> (#[trigger] r[i]) is Some
}

/// The recovered symbols, an empty one standing in for a missing slot.
pub open spec fn recovered_symbols(r: Seq<Option<Seq<u8>>>) -> Seq<Seq<u8>> {
    r.map_values(|o: Option<Seq<u8>>| match o {
        Some(v) => v,
        None => Seq::empty(),
    })
}

/// The recovered count is at most the slot count, and equal to it exactly when every slot is filled.
pub proof fn lemma_count_recovered(r: Seq<Option<Seq<u8>>>)
    ensures
        count_recovered(r) <= r.len(),
        count_recovered(r) == r.len() <==> all_recovered(r),
    decreases r.len(),
{
    if r.len() > 0 {
        lemma_count_recovered(r.drop_last());
        if all_recovered(r) {
            assert(all_recovered(r.drop_last())) by {
                assert forall|i: int| 0 <= i < r.drop_last().len() implies (#[trigger] r.drop_last()[i]) is Some by {
                    assert(r[i] is Some);
                }
            }
            assert(r[r.len() - 1] is Some);
        }
        if count_recovered(r) == r.len() {
            assert forall|i: int| 0 <= i < r.len() implies (#[trigger] r[i]) is Some by {
                if i < r.len() - 1 {
                    assert(r.drop_last()[i] is Some);
                }
            }
        }
    }
}

/// Dropping an element from an increasing list keeps it increasing.
pub proof fn lemma_increasing_drop_at(before: Seq<u32>, rest: Seq<u32>)
    requires
        strictly_increasing(before + rest),
        rest.len() >= 1,
    ensures
        strictly_increasing(before + rest.drop_first()),
{
    let w = before + rest;
    let w2 = before + rest.drop_first();
    assert forall|a: int, b: int| 0 <= a < b < w2.len() implies w2[a] < w2[b] by {
        if a >= before.len() {
            assert(w2[a] == w[a + 1] && w2[b] == w[b + 1]);
        } else if b >= before.len() {
            assert(w2[a] == w[a] && w2[b] == w[b + 1]);
        } else {
            assert(w2[a] == w[a] && w2[b] == w[b]);
        }
    }
}

/// XOR-ing a known symbol out of a combination drops it from the names.
pub proof fn lemma_drop_known(
    src: Seq<Seq<u8>>,
    before: Seq<u32>,
    rest: Seq<u32>,
    data: Seq<u8>,
    known: Seq<u8>,
    k: nat,
    sym: nat,
)
    requires
        uniform_symbols(src, k, sym),
        forall|a: int| 0 <= a < (before + rest).len() ==> (#[trigger] (before + rest)[a]) < k,
        rest.len() >= 1,
        data == combine(src, before + rest, sym),
        known == src[rest[0] as int],
    ensures
        crate::xor::xor_bytes(data, known) == combine(src, before + rest.drop_first(), sym),
{
    let whole = before + rest;
    assert(names_symbols(src, whole, sym)) by {
        assert forall|a: int| 0 <= a < whole.len() implies {
            &&& (#[trigger] whole[a]) < src.len()
            &&& src[whole[a] as int].len() == sym
        } by {
            assert(whole[a] < k);
        }
    }
    assert(whole[before.len() as int] == rest[0]);
    crate::xor::lemma_combine_remove(src, whole, before.len() as int, sym);
    assert(whole.remove(before.len() as int) =~= before + rest.drop_first());
}

/// `payload` cut or zero-padded to `len` bytes.
fn fit_payload(payload: &[u8], len: usize) -> (data: Vec<u8>)
    ensures
        data@ == fit(payload@, len as nat),
{
    let mut data: Vec<u8> = vec![0u8; len];
    let n = if len < payload.len() { len } else { payload.len() };
    let mut j: usize = 0;
    while j < n
        invariant
            n <= len,
            n <= payload@.len(),
            data@.len() == len,
            n == if len < payload@.len() { len as nat } else { payload@.len() as nat },
            j <= n,
            forall|t: int| 0 <= t < j ==> data@[t] == payload@[t],
            forall|t: int| j <= t < len ==> data@[t] == 0u8,
        decreases n - j,
    {
        data[j] = payload[j];
        j = j + 1;
    }
    assert(data@ =~= fit(payload@, len as nat));
    data
}

/// Indices whose slot in `rec` holds a symbol.
pub open spec fn known_set(rec: Seq<Option<Seq<u8>>>) -> Set<u32> {
    Set::new(|x: u32| (x as int) < rec.len() && rec[x as int] is Some)
}

/// The index sets that the pending entries still name.
pub open spec fn equations(pending: Seq<(Seq<u32>, Seq<u8>)>) -> Seq<Set<u32>> {
    pending.map_values(|e: (Seq<u32>, Seq<u8>)| e.0.to_set())
}

/// Abstract state of a [`Decoder`]: each pending entry is (unresolved neighbours, data).
pub ghost struct DecoderState {
    pub file_id: u64,
    pub k: u32,
    pub symbol_size: nat,
    pub total_len: u64,
    pub recovered: Seq<Option<Seq<u8>>>,
    pub pending: Seq<(Seq<u32>, Seq<u8>)>,
    pub seen: Set<u32>,
    pub new_count: u64,
    pub dup_count: u64,
    pub red_count: u64,
}

impl DecoderState {
    /// All `k` source symbols are recovered.
    pub open spec fn complete(self) -> bool {
        count_recovered(self.recovered) == self.k
    }

    /// A pending entry's shape: non-empty increasing list of unrecovered in-range
    /// indices, and `symbol_size` bytes of data.
    pub open spec fn entry_wf(self, e: (Seq<u32>, Seq<u8>)) -> bool {
        &&& e.0.len() >= 1
        &&& strictly_increasing(e.0)
        &&& forall|t: int| 0 <= t < e.0.len() ==> (#[trigger] e.0[t]) < self.k && self.recovered[e.0[t] as int] is None
        &&& e.1.len() == self.symbol_size
    }

    /// One slot per source symbol, recovered symbols and pending entries of the right shape.
    pub open spec fn wf(self) -> bool {
        &&& self.recovered.len() == self.k
        &&& forall|i: int| 0 <= i < self.k && (#[trigger] self.recovered[i]) is Some ==> self.recovered[i]->0.len() == self.symbol_size
        &&& forall|j: int| 0 <= j < self.pending.len() ==> self.entry_wf(#[trigger] self.pending[j])
        &&& self.seen.finite()
    }

    /// No pending entry is down to a single unknown: peeling has reached its fixpoint.
    pub open spec fn fully_peeled(self) -> bool {
        forall|j: int| 0 <= j < self.pending.len() ==> (#[trigger] self.pending[j]).0.len() >= 2
    }

    /// What peeling the equations `eqs` leaves, starting from the known indices `known`:
    /// exactly their peeling closure is recovered, no equation is left with a single
    /// unknown, and the pending entries are the equations that still have unknowns, each
    /// without its recovered indices.
    pub open spec fn peeled_from(self, eqs: Seq<Set<u32>>, known: Set<u32>) -> bool {
        &&& known_set(self.recovered) == peeling_closure(eqs, known)
        &&& peel_closed(eqs, known_set(self.recovered))
        &&& lists_from(equations(self.pending), eqs, known_set(self.recovered))
        &&& eqs_listed(equations(self.pending), eqs, known_set(self.recovered))
    }

    /// Under the hypothesis that the file's source symbols are `src`, every recovered
    /// symbol is the source symbol, and every pending entry's data is the XOR of the
    /// source symbols it still names.
    pub open spec fn sound_for(self, src: Seq<Seq<u8>>) -> bool {
        uniform_symbols(src, self.k as nat, self.symbol_size) ==> {
            &&& forall|i: int| 0 <= i < self.k && (#[trigger] self.recovered[i]) is Some ==> self.recovered[i]->0 == src[i]
            &&& forall|j: int| 0 <= j < self.pending.len() ==> (#[trigger] self.pending[j]).1 == combine(src, self.pending[j].0, self.symbol_size)
        }
    }

    /// Every recovered symbol is the corresponding symbol of `src`.
    pub open spec fn recovered_agree(self, src: Seq<Seq<u8>>) -> bool {
        forall|i: int| 0 <= i < self.k && (#[trigger] self.recovered[i]) is Some ==> self.recovered[i]->0 == src[i]
    }

    /// How [`Decoder::ingest`] of symbol `esi` with bytes `payload` and drawn degree
    /// `degree`, answering `kind`, takes this state to `new`.
    #[verifier::opaque]
    pub open spec fn ingested(self, new: DecoderState, esi: u32, payload: Seq<u8>, degree: u32, kind: u8) -> bool {
        let fresh = unresolved(neighbor_list(self.file_id, esi, self.k, degree), self.recovered);
        &&& (kind == 0 <==> self.seen.contains(esi))
        &&& (kind == 1 <==> !self.seen.contains(esi) && (self.complete() || fresh.len() == 0))
        &&& (kind == 2 <==> !self.seen.contains(esi) && !self.complete() && fresh.len() > 0)
        &&& (kind == 0 ==> new == (DecoderState {
            dup_count: vstd::wrapping::u64_specs::wrapping_add(self.dup_count, 1),
            ..self
        }))
        &&& (kind == 1 ==> new == (DecoderState {
            seen: self.seen.insert(esi),
            red_count: vstd::wrapping::u64_specs::wrapping_add(self.red_count, 1),
            ..self
        }))
        &&& (kind == 2 ==> {
            &&& new.file_id == self.file_id
            &&& new.k == self.k
            &&& new.symbol_size == self.symbol_size
            &&& new.total_len == self.total_len
            &&& new.seen == self.seen.insert(esi)
            &&& new.new_count == vstd::wrapping::u64_specs::wrapping_add(self.new_count, 1)
            &&& new.dup_count == self.dup_count
            &&& new.red_count == self.red_count
            &&& new.fully_peeled()
            &&& forall|i: int| 0 <= i < self.k && (#[trigger] self.recovered[i]) is Some
                ==> new.recovered[i] == self.recovered[i]
            &&& new.peeled_from(equations(self.pending).push(fresh.to_set()), known_set(self.recovered))
        })
        &&& (forall|src: Seq<Seq<u8>>|
            #[trigger] self.sound_for(src) && fit(payload, self.symbol_size) == combine(
                src,
                neighbor_list(self.file_id, esi, self.k, degree),
                self.symbol_size,
            ) ==> new.sound_for(src))
    }

    /// The assembled file: the recovered symbols laid end to end, cut to `total_len` bytes
    /// (or to all of them, when they are shorter).
    pub open spec fn assembled(self) -> Seq<u8> {
        let full = self.k as nat * self.symbol_size;
        let len = if (self.total_len as nat) < full { self.total_len as nat } else { full };
        layout(recovered_symbols(self.recovered), self.symbol_size, len)
    }
}

/// `payload` cut or zero-padded to `len` bytes.
pub open spec fn fit(payload: Seq<u8>, len: nat) -> Seq<u8> {
    Seq::new(len, |i: int| if i < payload.len() { payload[i] } else { 0u8 })
}

/// The indices of `ns` whose slot in `rec` is still empty, in order.
pub open spec fn unresolved(ns: Seq<u32>, rec: Seq<Option<Seq<u8>>>) -> Seq<u32>
    decreases ns.len(),
{
    if ns.len() == 0 {
        ns
    } else {
        let r = unresolved(ns.drop_last(), rec);
        if rec[ns.last() as int] is None {
            r.push(ns.last())
        } else {
            r
        }
    }
}

/// Every index that `unresolved` keeps has an empty slot.
pub proof fn lemma_unresolved_unknown(ns: Seq<u32>, rec: Seq<Option<Seq<u8>>>)
    ensures
        forall|t: int| 0 <= t < unresolved(ns, rec).len() ==> rec[#[trigger] unresolved(ns, rec)[t] as int] is None,
    decreases ns.len(),
{
    if ns.len() > 0 {
        lemma_unresolved_unknown(ns.drop_last(), rec);
        let r = unresolved(ns.drop_last(), rec);
        if rec[ns.last() as int] is None {
            assert forall|t: int| 0 <= t < r.push(ns.last()).len() implies rec[#[trigger] r.push(ns.last())[t] as int] is None by {
                if t < r.len() {
                    assert(r.push(ns.last())[t] == r[t]);
                }
            }
        }
    }
}

/// An encoded symbol still waiting for enough of its neighbours.
struct Coded {
    esi: u32,
    neighbors: Vec<u32>,
    data: Vec<u8>,
}

impl View for Coded {
    type V = (Seq<u32>, Seq<u8>);

    closed spec fn view(&self) -> (Seq<u32>, Seq<u8>) {
        (self.neighbors@, self.data@)
    }
}

/// The bytes held by an optional buffer.
pub open spec fn option_view(o: Option<Vec<u8>>) -> Option<Seq<u8>> {
    match o {
        Some(v) => Some(v@),
        None => None,
    }
}

/// The index sets that the entries of `v` name.
spec fn coded_sets(v: Seq<Coded>) -> Seq<Set<u32>> {
    v.map_values(|c: Coded| c.neighbors@.to_set())
}

/// Peeling decoder: collects encoded symbols and recovers source symbols.
pub struct Decoder {
    file_id: u64,
    k: u32,
    symbol_size: usize,
    total_len: u64,
    recovered: Vec<Option<Vec<u8>>>,
    pending: Vec<Coded>,
    seen_esi: std::collections::HashSet<u32>,
    new_count: u64,
    dup_count: u64,
    red_count: u64,
}

impl View for Decoder {
    type V = DecoderState;

    closed spec fn view(&self) -> DecoderState {
        DecoderState {
            file_id: self.file_id,
            k: self.k,
            symbol_size: self.symbol_size as nat,
            total_len: self.total_len,
            recovered: self.recovered@.map_values(|o: Option<Vec<u8>>| option_view(o)),
            pending: self.pending@.map_values(|c: Coded| c@),
            seen: self.seen_esi@,
            new_count: self.new_count,
            dup_count: self.dup_count,
            red_count: self.red_count,
        }
    }
}

impl Decoder {
    /// The abstract state is well formed.
    pub open spec fn wf(&self) -> bool {
        self@.wf()
    }

    /// An empty decoder for a file of `k` symbols of `symbol_size` bytes, `total_len` bytes long.
    pub fn new(file_id: u64, k: u32, symbol_size: usize, total_len: u64) -> (r: Self)
        ensures
            r.wf(),
            r@.file_id == file_id,
            r@.k == k,
            r@.symbol_size == symbol_size,
            r@.total_len == total_len,
            r@.recovered == Seq::new(k as nat, |i: int| None::<Seq<u8>>),
            r@.pending == Seq::<(Seq<u32>, Seq<u8>)>::empty(),
            r@.seen == Set::<u32>::empty(),
            r@.new_count == 0,
            r@.dup_count == 0,
            r@.red_count == 0,
            forall|src: Seq<Seq<u8>>| #[trigger] r@.sound_for(src),
    {
        let mut recovered: Vec<Option<Vec<u8>>> = Vec::new();
        let mut i: u32 = 0;
        while i < k
            invariant
                i <= k,
                recovered@.len() == i,
                forall|j: int| 0 <= j < i ==> (#[trigger] recovered@[j]) is None,
            decreases k - i,
        {
            recovered.push(None);
            i = i + 1;
        }
        let r = Decoder {
            file_id,
            k,
            symbol_size,
            total_len,
            recovered,
            pending: Vec::new(),
            seen_esi: std::collections::HashSet::new(),
            new_count: 0,
            dup_count: 0,
            red_count: 0,
        };
        proof {
            assert(r@.recovered =~= Seq::new(k as nat, |i: int| None::<Seq<u8>>));
            assert(r@.pending =~= Seq::<(Seq<u32>, Seq<u8>)>::empty());
        }
        r
    }

    /// The id of the file being encoded or decoded.
    pub fn file_id(&self) -> (r: u64)
        ensures
            r == self@.file_id,
    {
        self.file_id
    }

    /// Number of source symbols.
    pub fn k(&self) -> (r: u32)
        ensures
            r == self@.k,
    {
        self.k
    }

    /// Bytes per source symbol.
    pub fn symbol_size(&self) -> (r: usize)
        ensures
            r == self@.symbol_size,
    {
        self.symbol_size
    }

    /// Length of the file in bytes.
    pub fn total_len(&self) -> (r: u64)
        ensures
            r == self@.total_len,
    {
        self.total_len
    }

    /// Frames that brought new information.
    pub fn new_count(&self) -> (r: u64)
        ensures
            r == self@.new_count,
    {
        self.new_count
    }

    /// Frames whose symbol id had been seen before.
    pub fn dup_count(&self) -> (r: u64)
        ensures
            r == self@.dup_count,
    {
        self.dup_count
    }

    /// Frames that brought nothing new.
    pub fn red_count(&self) -> (r: u64)
        ensures
            r == self@.red_count,
    {
        self.red_count
    }

    /// Number of source symbols recovered so far.
    pub fn recovered_count(&self) -> (r: u32)
        requires
            self.wf(),
        ensures
            r == count_recovered(self@.recovered),
            r <= self@.k,
    {
        proof {
            lemma_count_recovered(self@.recovered);
        }
        let ghost rv = self@.recovered;
        let mut n: u32 = 0;
        let mut i: usize = 0;
        while i < self.recovered.len()
            invariant
                rv == self@.recovered,
                rv.len() == self.recovered@.len(),
                rv.len() == self.k,
                i <= rv.len(),
                n == count_recovered(rv.take(i as int)),
                n <= i,
            decreases rv.len() - i,
        {
            proof {
                assert(rv.take(i + 1).drop_last() =~= rv.take(i as int));
                assert(rv[i as int] == option_view(self.recovered@[i as int]));
            }
            if self.recovered[i].is_some() {
                n = n + 1;
            }
            i = i + 1;
        }
        proof {
            assert(rv.take(rv.len() as int) =~= rv);
        }
        n
    }

    /// All source symbols are recovered.
    pub fn is_complete(&self) -> (r: bool)
        requires
            self.wf(),
        ensures
            r == self@.complete(),
            r <==> all_recovered(self@.recovered),
    {
        proof {
            lemma_count_recovered(self@.recovered);
        }
        self.recovered_count() == self.k
    }

    /// The reassembled file once every source symbol is recovered.
    pub fn assemble(&self) -> (r: Option<Vec<u8>>)
        requires
            self.wf(),
        ensures
            r is Some <==> self@.complete(),
            r matches Some(v) ==> v@ == self@.assembled(),
    {
        if !self.is_complete() {
            return None;
        }
        let ghost st = self@;
        let ghost syms = recovered_symbols(st.recovered);
        let ghost sym = st.symbol_size;
        let mut out: Vec<u8> = Vec::new();
        let mut i: usize = 0;
        while i < self.recovered.len()
            invariant
                st == self@,
                st.wf(),
                all_recovered(st.recovered),
                syms == recovered_symbols(st.recovered),
                sym == st.symbol_size,
                i <= st.k,
                self.recovered@.len() == st.k,
                out@.len() == i * sym,
                forall|p: int| 0 <= p < out@.len() ==> (#[trigger] out@[p]) == syms[p / sym as int][p % sym as int],
            decreases st.k - i,
        {
            let ghost before = out@;
            match &self.recovered[i] {
                Some(v) => {
                    proof {
                        assert(st.recovered[i as int] == option_view(self.recovered@[i as int]));
                        assert(syms[i as int] == v@);
                        assert(v@.len() == sym);
                    }
                    out.extend_from_slice(v.as_slice());
                    proof {
                        assert((i + 1) * sym == i * sym + sym) by (nonlinear_arith);
                        assert forall|p: int| 0 <= p < out@.len() implies (#[trigger] out@[p]) == syms[p / sym as int][p % sym as int] by {
                            if p >= before.len() {
                                let j = p - before.len();
                                assert(0 <= j < sym);
                                vstd::arithmetic::div_mod::lemma_fundamental_div_mod_converse(p, sym as int, i as int, j);
                                assert(out@[p] == v@[j]);
                            } else {
                                assert(out@[p] == before[p]);
                            }
                        }
                    }
                }
                None => {
                    proof {
                        assert(st.recovered[i as int] is Some);
                        assert(st.recovered[i as int] == option_view(self.recovered@[i as int]));
                    }
                }
            }
            i = i + 1;
        }
        if (out.len() as u64) > self.total_len {
            out.truncate(self.total_len as usize);
        }
        proof {
            assert(out@ =~= st.assembled());
        }
        Some(out)
    }

    /// Takes in encoded symbol `esi` with the bytes `payload`; `degree` is the degree
    /// drawn for that symbol. Returns 0 when the symbol id was seen before (a
    /// duplicate), 1 when the symbol brings nothing new (the file is already complete
    /// or all its neighbours are known), 2 when it was stored and peeled.
    pub fn ingest(&mut self, esi: u32, payload: &[u8], degree: u32) -> (kind: u8)
        requires
            old(self).wf(),
        ensures
            final(self).wf(),
            final(self)@.file_id == old(self)@.file_id,
            final(self)@.k == old(self)@.k,
            final(self)@.symbol_size == old(self)@.symbol_size,
            final(self)@.total_len == old(self)@.total_len,
            old(self)@.ingested(final(self)@, esi, payload@, degree, kind),
            count_recovered(old(self)@.recovered) <= count_recovered(final(self)@.recovered),
            forall|i: int| 0 <= i < old(self)@.k && (#[trigger] old(self)@.recovered[i]) is Some
                ==> final(self)@.recovered[i] == old(self)@.recovered[i],
    {
        proof {
            reveal(DecoderState::ingested);
        }
        let ghost st0 = self@;
        if self.seen_esi.contains(&esi) {
            self.dup_count = self.dup_count.wrapping_add(1);
            proof {
                assert(self@ =~= (DecoderState { dup_count: vstd::wrapping::u64_specs::wrapping_add(st0.dup_count, 1), ..st0 }));
            }
            return 0;
        }
        self.seen_esi.insert(esi);
        let ghost st1 = self@;
        proof {
            assert(st1 == (DecoderState { seen: st0.seen.insert(esi), ..st0 }));
        }
        if self.is_complete() {
            self.red_count = self.red_count.wrapping_add(1);
            proof {
                let fin = self@;
                assert(fin == (DecoderState {
                    seen: st0.seen.insert(esi),
                    red_count: vstd::wrapping::u64_specs::wrapping_add(st0.red_count, 1),
                    ..st0
                }));
                assert forall|src: Seq<Seq<u8>>| #[trigger] st0.sound_for(src) implies fin.sound_for(src) by {}
            }
            return 1;
        }
        proof {
            assert forall|src: Seq<Seq<u8>>| #[trigger] st0.sound_for(src) implies st1.sound_for(src) by {}
        }
        let added = self.add_frame(esi, payload, degree);
        proof {
            let fin = self@;
            assert forall|src: Seq<Seq<u8>>|
                #[trigger] st0.sound_for(src) && fit(payload@, st0.symbol_size) == combine(
                    src,
                    neighbor_list(st0.file_id, esi, st0.k, degree),
                    st0.symbol_size,
                ) implies fin.sound_for(src) by {
                assert(st1.sound_for(src));
            }
        }
        proof {
            lemma_count_monotone(st0.recovered, self@.recovered);
        }
        if added {
            2
        } else {
            1
        }
    }

    /// Stores a frame of a file that is not yet complete and peels; `false` when all
    /// of the frame's neighbours were already recovered.
    #[verifier::rlimit(40)]
    fn add_frame(&mut self, esi: u32, payload: &[u8], degree: u32) -> (added: bool)
        requires
            old(self).wf(),
            !old(self)@.complete(),
        ensures
            final(self).wf(),
            final(self)@.file_id == old(self)@.file_id,
            final(self)@.k == old(self)@.k,
            final(self)@.symbol_size == old(self)@.symbol_size,
            final(self)@.total_len == old(self)@.total_len,
            final(self)@.seen == old(self)@.seen,
            final(self)@.dup_count == old(self)@.dup_count,
            added <==> unresolved(neighbor_list(old(self)@.file_id, esi, old(self)@.k, degree), old(self)@.recovered).len() > 0,
            !added ==> final(self)@ == (DecoderState {
                red_count: vstd::wrapping::u64_specs::wrapping_add(old(self)@.red_count, 1),
                ..old(self)@
            }),
            added ==> {
                &&& final(self)@.new_count == vstd::wrapping::u64_specs::wrapping_add(old(self)@.new_count, 1)
                &&& final(self)@.red_count == old(self)@.red_count
                &&& final(self)@.fully_peeled()
                &&& forall|i: int| 0 <= i < old(self)@.k && (#[trigger] old(self)@.recovered[i]) is Some
                    ==> final(self)@.recovered[i] == old(self)@.recovered[i]
                &&& final(self)@.peeled_from(
                    equations(old(self)@.pending).push(
                        unresolved(neighbor_list(old(self)@.file_id, esi, old(self)@.k, degree), old(self)@.recovered).to_set(),
                    ),
                    known_set(old(self)@.recovered),
                )
            },
            forall|src: Seq<Seq<u8>>|
                #[trigger] old(self)@.sound_for(src) && fit(payload@, old(self)@.symbol_size) == combine(
                    src,
                    neighbor_list(old(self)@.file_id, esi, old(self)@.k, degree),
                    old(self)@.symbol_size,
                ) ==> final(self)@.sound_for(src),
    {
        let ghost st1 = self@;
        let ghost st0 = self@;
        proof {
            lemma_count_recovered(st0.recovered);
            assert(st0.k >= 1);
        }
        let ns = neighbors(self.file_id, esi, self.k, degree);
        let ghost nsv = ns@;
        let ghost sym = st0.symbol_size;
        let ghost rec = st0.recovered;
        let mut data = fit_payload(payload, self.symbol_size);
        let ghost d_fit = data@;
        let still = self.strip_known(&ns, &mut data);
        proof {
            assert forall|src: Seq<Seq<u8>>|
                #[trigger] st0.sound_for(src) && fit(payload@, sym) == combine(src, nsv, sym) && uniform_symbols(src, st0.k as nat, sym)
                implies data@ == combine(src, still@, sym) by {
                assert(st0.recovered_agree(src));
            }
        }
        if still.len() == 0 {
            self.red_count = self.red_count.wrapping_add(1);
            return false;
        }
        self.new_count = self.new_count.wrapping_add(1);
        let ghost entry = (still@, data@);
        self.pending.push(Coded { esi, neighbors: still, data });
        let ghost st2 = self@;
        proof {
            assert(st2.pending =~= st1.pending.push(entry));
            assert(equations(st2.pending) =~= equations(st1.pending).push(entry.0.to_set()));
            assert(st2.entry_wf(entry));
            assert forall|jj: int| 0 <= jj < st2.pending.len() implies st2.entry_wf(#[trigger] st2.pending[jj]) by {
                if jj < st1.pending.len() {
                    assert(st2.pending[jj] == st1.pending[jj]);
                }
            }
            assert(st2.wf());
            assert forall|src: Seq<Seq<u8>>|
                #[trigger] st0.sound_for(src) && fit(payload@, sym) == combine(src, nsv, sym) implies st2.sound_for(src) by {
                if uniform_symbols(src, st0.k as nat, sym) {
                    assert forall|jj: int| 0 <= jj < st2.pending.len() implies (#[trigger] st2.pending[jj]).1 == combine(src, st2.pending[jj].0, sym) by {
                        if jj < st1.pending.len() {
                            assert(st2.pending[jj] == st1.pending[jj]);
                        }
                    }
                }
            }
        }
        self.peel();
        proof {
            assert forall|src: Seq<Seq<u8>>|
                #[trigger] st0.sound_for(src) && fit(payload@, sym) == combine(src, nsv, sym) implies self@.sound_for(src) by {
                assert(st2.sound_for(src));
            }
        }
        true
    }

    /// Drops the already recovered indices from `ns`, XOR-ing their symbols out of `data`.
    fn strip_known(&self, ns: &Vec<u32>, data: &mut Vec<u8>) -> (still: Vec<u32>)
        requires
            self.wf(),
            strictly_increasing(ns@),
            forall|a: int| 0 <= a < ns@.len() ==> ns@[a] < self@.k,
            old(data)@.len() == self@.symbol_size,
        ensures
            final(data)@.len() == self@.symbol_size,
            still@ == unresolved(ns@, self@.recovered),
            strictly_increasing(still@),
            forall|a: int| 0 <= a < still@.len() ==> (#[trigger] still@[a]) < self@.k && self@.recovered[still@[a] as int] is None,
            forall|src: Seq<Seq<u8>>|
                #[trigger] self@.recovered_agree(src) && uniform_symbols(src, self@.k as nat, self@.symbol_size)
                    && old(data)@ == combine(src, ns@, self@.symbol_size)
                ==> final(data)@ == combine(src, still@, self@.symbol_size),
    {
        let ghost st = self@;
        let ghost nsv = ns@;
        let ghost sym = st.symbol_size;
        let ghost rec = st.recovered;
        let ghost d0 = data@;
        let mut still: Vec<u32> = Vec::new();
        let mut t: usize = 0;
        proof {
            assert(still@ + nsv.subrange(0, nsv.len() as int) =~= nsv);
            assert(unresolved(nsv.take(0), rec) =~= still@);
        }
        while t < ns.len()
            invariant
                st == self@,
                st.wf(),
                rec == st.recovered,
                sym == st.symbol_size,
                nsv == ns@,
                forall|a: int| 0 <= a < nsv.len() ==> nsv[a] < st.k,
                t <= nsv.len(),
                data@.len() == sym,
                still@ == unresolved(nsv.take(t as int), rec),
                strictly_increasing(still@ + nsv.subrange(t as int, nsv.len() as int)),
                forall|a: int| 0 <= a < still@.len() ==> (#[trigger] still@[a]) < st.k && rec[still@[a] as int] is None,
                forall|src: Seq<Seq<u8>>|
                    #[trigger] st.recovered_agree(src) && uniform_symbols(src, st.k as nat, sym) && d0 == combine(src, nsv, sym)
                    ==> data@ == combine(src, still@ + nsv.subrange(t as int, nsv.len() as int), sym),
            decreases nsv.len() - t,
        {
            let i = ns[t];
            let ghost before = still@;
            let ghost rest = nsv.subrange(t as int, nsv.len() as int);
            proof {
                assert(nsv.take(t + 1).drop_last() =~= nsv.take(t as int));
                assert(nsv.take(t + 1).last() == i);
                assert(rec[i as int] == option_view(self.recovered@[i as int]));
                assert(rest[0] == i);
                assert(rest.drop_first() =~= nsv.subrange(t + 1, nsv.len() as int));
                assert forall|a: int| 0 <= a < (before + rest).len() implies (#[trigger] (before + rest)[a]) < st.k by {
                    if a < before.len() {
                        assert((before + rest)[a] == before[a]);
                    } else {
                        assert((before + rest)[a] == nsv[t + a - before.len()]);
                    }
                }
            }
            match &self.recovered[i as usize] {
                Some(known) => {
                    let ghost dd = data@;
                    xor_into(data, known.as_slice());
                    proof {
                        lemma_increasing_drop_at(before, rest);
                        assert forall|src: Seq<Seq<u8>>|
                            #[trigger] st.recovered_agree(src) && uniform_symbols(src, st.k as nat, sym) && d0 == combine(src, nsv, sym)
                            implies data@ == combine(src, still@ + nsv.subrange(t + 1, nsv.len() as int), sym) by {
                            assert(known@ == src[i as int]);
                            lemma_drop_known(src, before, rest, dd, known@, st.k as nat, sym);
                        }
                    }
                }
                None => {
                    still.push(i);
                    proof {
                        assert(still@ + nsv.subrange(t + 1, nsv.len() as int) =~= before + rest);
                    }
                }
            }
            t = t + 1;
        }
        proof {
            assert(nsv.take(nsv.len() as int) =~= nsv);
            assert(still@ + nsv.subrange(nsv.len() as int, nsv.len() as int) =~= still@);
        }
        still
    }

    /// Resolves every pending entry that is down to one unknown neighbour, repeatedly,
    /// until none is left.
    fn peel(&mut self)
        requires
            old(self).wf(),
        ensures
            final(self).wf(),
            final(self)@.fully_peeled(),
            final(self)@.file_id == old(self)@.file_id,
            final(self)@.k == old(self)@.k,
            final(self)@.symbol_size == old(self)@.symbol_size,
            final(self)@.total_len == old(self)@.total_len,
            final(self)@.seen == old(self)@.seen,
            final(self)@.new_count == old(self)@.new_count,
            final(self)@.dup_count == old(self)@.dup_count,
            final(self)@.red_count == old(self)@.red_count,
            forall|i: int| 0 <= i < old(self)@.k && (#[trigger] old(self)@.recovered[i]) is Some
                ==> final(self)@.recovered[i] == old(self)@.recovered[i],
            forall|src: Seq<Seq<u8>>| #[trigger] old(self)@.sound_for(src) ==> final(self)@.sound_for(src),
            final(self)@.peeled_from(equations(old(self)@.pending), known_set(old(self)@.recovered)),
    {
        let ghost st_in = self@;
        let ghost eqs = equations(st_in.pending);
        let ghost known0 = known_set(st_in.recovered);
        proof {
            assert forall|j: int, y: u32| 0 <= j < eqs.len() && #[trigger] eqs[j].contains(y) implies !known0.contains(y) by {
                assert(eqs[j] == st_in.pending[j].0.to_set());
                assert(st_in.entry_wf(st_in.pending[j]));
                let t = choose|t: int| 0 <= t < st_in.pending[j].0.len() && st_in.pending[j].0[t] == y;
            }
            lemma_lists_initial(eqs, known0);
            lemma_known_in_closure(eqs, known0);
        }
        loop
            invariant
                self@.wf(),
                self@.file_id == st_in.file_id,
                self@.k == st_in.k,
                self@.symbol_size == st_in.symbol_size,
                self@.total_len == st_in.total_len,
                self@.seen == st_in.seen,
                self@.new_count == st_in.new_count,
                self@.dup_count == st_in.dup_count,
                self@.red_count == st_in.red_count,
                st_in == old(self)@,
                forall|i: int| 0 <= i < st_in.k && (#[trigger] st_in.recovered[i]) is Some
                    ==> self@.recovered[i] == st_in.recovered[i],
                forall|src: Seq<Seq<u8>>| #[trigger] st_in.sound_for(src) ==> self@.sound_for(src),
                eqs == equations(st_in.pending),
                known0 == known_set(st_in.recovered),
                known0.subset_of(known_set(self@.recovered)),
                known_set(self@.recovered).subset_of(peeling_closure(eqs, known0)),
                lists_from(equations(self@.pending), eqs, known_set(self@.recovered)),
                eqs_listed(equations(self@.pending), eqs, known_set(self@.recovered)),
            ensures
                self@.wf(),
                self@.fully_peeled(),
                self@.peeled_from(eqs, known0),
                self@.file_id == st_in.file_id,
                self@.k == st_in.k,
                self@.symbol_size == st_in.symbol_size,
                self@.total_len == st_in.total_len,
                self@.seen == st_in.seen,
                self@.new_count == st_in.new_count,
                self@.dup_count == st_in.dup_count,
                self@.red_count == st_in.red_count,
                forall|i: int| 0 <= i < st_in.k && (#[trigger] st_in.recovered[i]) is Some
                    ==> self@.recovered[i] == st_in.recovered[i],
                forall|src: Seq<Seq<u8>>| #[trigger] st_in.sound_for(src) ==> self@.sound_for(src),
            decreases self.pending@.len(),
        {
            let ghost st0 = self@;
            let mut p: usize = 0;
            while p < self.pending.len() && self.pending[p].neighbors.len() != 1
                invariant
                    st0 == self@,
                    p <= self.pending@.len(),
                    forall|j: int| 0 <= j < p ==> (#[trigger] st0.pending[j]).0.len() != 1,
                decreases self.pending@.len() - p,
            {
                proof {
                    assert(st0.pending[p as int] == self.pending@[p as int]@);
                }
                p = p + 1;
            }
            if p >= self.pending.len() {
                proof {
                    assert forall|j: int| 0 <= j < st0.pending.len() implies (#[trigger] st0.pending[j]).0.len() >= 2 by {
                        assert(st0.entry_wf(st0.pending[j]));
                    }
                    let sets = equations(st0.pending);
                    assert forall|j: int, x: u32| 0 <= j < sets.len() && #[trigger] sets[j].contains(x) implies sets[j] != set![x] by {
                        assert(st0.entry_wf(st0.pending[j]));
                        assert(st0.pending[j].0.len() >= 2);
                        lemma_not_single(st0.pending[j].0, x);
                    }
                    lemma_closure_reached(eqs, known0, known_set(st0.recovered), sets);
                }
                break;
            }
            proof {
                assert(st0.pending[p as int] == self.pending@[p as int]@);
            }
            let coded = self.pending.remove(p);
            let ghost e0 = coded@;
            let ghost rest = st0.pending.remove(p as int);
            proof {
                assert(e0 == st0.pending[p as int]);
                assert(st0.entry_wf(e0));
                assert(self@.pending =~= rest);
            }
            let Coded { esi: _, neighbors: ns0, data: symbol } = coded;
            let idx = ns0[0];
            let copy = symbol.clone();
            proof {
                assert(copy@ =~= symbol@);
                assert(idx < st0.k);
                assert(st0.recovered[idx as int] is None);
            }
            let ghost rec1 = st0.recovered.update(idx as int, Some(e0.1));
            self.recovered.set(idx as usize, Some(symbol));
            proof {
                assert(self@.recovered =~= rec1);
            }
            let mut old_p: Vec<Coded> = Vec::new();
            std::mem::swap(&mut old_p, &mut self.pending);
            proof {
                assert(old_p@.map_values(|c: Coded| c@) =~= rest);
                assert(self@.pending =~= Seq::<(Seq<u32>, Seq<u8>)>::empty());
                assert forall|j: int| 0 <= j < old_p@.len() implies #[trigger] old_p@[j]@ == st0.pending[if j < p { j } else { j + 1 }] by {
                    assert(old_p@.map_values(|c: Coded| c@)[j] == old_p@[j]@);
                    assert(rest[j] == st0.pending[if j < p { j } else { j + 1 }]);
                }
                assert forall|j: int| 0 <= j < old_p@.len() implies st0.entry_wf(#[trigger] old_p@[j]@) by {
                    assert(old_p@[j]@ == st0.pending[if j < p { j } else { j + 1 }]);
                }
                assert forall|src: Seq<Seq<u8>>| #[trigger] st0.sound_for(src) && uniform_symbols(src, st0.k as nat, st0.symbol_size) implies {
                    &&& e0.1 == combine(src, e0.0, st0.symbol_size)
                    &&& forall|j: int| 0 <= j < old_p@.len() ==> (#[trigger] old_p@[j]@).1 == combine(src, old_p@[j]@.0, st0.symbol_size)
                } by {
                    assert forall|j: int| 0 <= j < old_p@.len() implies (#[trigger] old_p@[j]@).1 == combine(src, old_p@[j]@.0, st0.symbol_size) by {
                        assert(old_p@[j]@ == st0.pending[if j < p { j } else { j + 1 }]);
                    }
                }
            }
            let ghost k_old = known_set(st0.recovered);
            proof {
                let sets0 = equations(st0.pending);
                assert(e0.0 == seq![idx]);
                assert(sets0[p as int] == e0.0.to_set());
                assert(sets0[p as int] =~= set![idx]);
                lemma_round_start(eqs, k_old, idx, sets0, p as int);
                assert(crate::peeling::from_some_eq(sets0[p as int], eqs, k_old));
                let i = choose|i: int| #![trigger eqs[i]] 0 <= i < eqs.len() && sets0[p as int] == eqs[i].difference(k_old);
                lemma_closure_step(eqs, known0, k_old, i, idx);
                assert(coded_sets(old_p@) =~= sets0.remove(p as int)) by {
                    assert forall|j: int| 0 <= j < old_p@.len() implies #[trigger] coded_sets(old_p@)[j] == sets0.remove(p as int)[j] by {
                        assert(old_p@[j]@ == st0.pending[if j < p { j } else { j + 1 }]);
                    }
                }
                assert(equations(self@.pending) =~= Seq::<Set<u32>>::empty());
            }
            while old_p.len() > 0
                invariant
                    lists_from(coded_sets(old_p@), eqs, k_old),
                    lists_from(equations(self@.pending), eqs, k_old.insert(idx)),
                    round_listed(equations(self@.pending), coded_sets(old_p@), eqs, k_old, idx),
                    self@.file_id == st0.file_id,
                    self@.k == st0.k,
                    self@.symbol_size == st0.symbol_size,
                    self@.total_len == st0.total_len,
                    self@.seen == st0.seen,
                    self@.new_count == st0.new_count,
                    self@.dup_count == st0.dup_count,
                    self@.red_count == st0.red_count,
                    self@.recovered == rec1,
                    st0.wf(),
                    copy@ == e0.1,
                    e0.0 == seq![idx],
                    e0.1.len() == st0.symbol_size,
                    idx < st0.k,
                    st0.recovered[idx as int] is None,
                    rec1 == st0.recovered.update(idx as int, Some(e0.1)),
                    self@.pending.len() + old_p@.len() <= rest.len(),
                    rest.len() + 1 == st0.pending.len(),
                    forall|j: int| 0 <= j < old_p@.len() ==> st0.entry_wf(#[trigger] old_p@[j]@),
                    forall|j: int| 0 <= j < self@.pending.len() ==> self@.entry_wf(#[trigger] self@.pending[j]),
                    forall|src: Seq<Seq<u8>>| #[trigger] st0.sound_for(src) && uniform_symbols(src, st0.k as nat, st0.symbol_size) ==> {
                        &&& e0.1 == combine(src, e0.0, st0.symbol_size)
                        &&& forall|j: int| 0 <= j < old_p@.len() ==> (#[trigger] old_p@[j]@).1 == combine(src, old_p@[j]@.0, st0.symbol_size)
                        &&& forall|j: int| 0 <= j < self@.pending.len() ==> (#[trigger] self@.pending[j]).1 == combine(src, self@.pending[j].0, st0.symbol_size)
                    },
                decreases old_p@.len(),
            {
                let ghost before_new = self@.pending;
                let ghost before_old = old_p@;
                let e = old_p.pop().unwrap();
                let ghost ev = e@;
                proof {
                    assert(ev == before_old[before_old.len() - 1]@);
                    assert(old_p@ =~= before_old.drop_last());
                    assert(st0.entry_wf(ev));
                }
                let Coded { esi, neighbors: mut ns, data: mut data } = e;
                let mut q: usize = 0;
                while q < ns.len() && ns[q] != idx
                    invariant
                        q <= ns@.len(),
                        forall|t: int| 0 <= t < q ==> ns@[t] != idx,
                    decreases ns@.len() - q,
                {
                    q = q + 1;
                }
                let found = q < ns.len();
                if found {
                    ns.remove(q);
                    xor_into(&mut data, &copy);
                }
                let ghost nv = (ns@, data@);
                proof {
                    let len = st0.symbol_size;
                    if found {
                        assert(ns@ == ev.0.remove(q as int));
                        assert forall|a: int, b: int| 0 <= a < b < ns@.len() implies ns@[a] < ns@[b] by {
                            if a >= q {
                                assert(ns@[a] == ev.0[a + 1]);
                                assert(ns@[b] == ev.0[b + 1]);
                            } else if b >= q {
                                assert(ns@[b] == ev.0[b + 1]);
                            }
                        }
                        assert forall|t: int| 0 <= t < ns@.len() implies (#[trigger] ns@[t]) < st0.k && rec1[ns@[t] as int] is None by {
                            if t >= q {
                                assert(ns@[t] == ev.0[t + 1]);
                                assert(ev.0[t + 1] > ev.0[q as int]);
                            } else {
                                assert(ns@[t] == ev.0[t]);
                                assert(ev.0[t] < ev.0[q as int]);
                            }
                        }
                    } else {
                        assert forall|t: int| 0 <= t < ns@.len() implies (#[trigger] ns@[t]) < st0.k && rec1[ns@[t] as int] is None by {
                            assert(ns@[t] != idx);
                        }
                    }
                    assert forall|src: Seq<Seq<u8>>| #[trigger] st0.sound_for(src) && uniform_symbols(src, st0.k as nat, len) implies
                        nv.1 == combine(src, nv.0, len) by {
                        assert(ev.1 == combine(src, ev.0, len)) by {
                            assert(before_old[before_old.len() - 1]@ == ev);
                        }
                        if found {
                            assert(names_symbols(src, e0.0, len)) by {
                                assert(e0.0[0] == idx);
                            }
                            crate::xor::lemma_combine_single(src, e0.0, len);
                            assert(names_symbols(src, ev.0, len)) by {
                                assert forall|j: int| 0 <= j < ev.0.len() implies {
                                    &&& (#[trigger] ev.0[j]) < src.len()
                                    &&& src[ev.0[j] as int].len() == len
                                } by {
                                    assert(ev.0[j] < st0.k);
                                }
                            }
                            crate::xor::lemma_combine_remove(src, ev.0, q as int, len);
                        }
                    }
                }
                proof {
                    let olds = coded_sets(before_old);
                    let n2 = ns@.to_set();
                    assert(olds.last() == ev.0.to_set());
                    if found {
                        assert(ev.0[q as int] == idx);
                        lemma_remove_to_set(ev.0, q as int);
                    } else {
                        assert(ns@ == ev.0);
                        assert(ev.0.to_set().remove(idx) =~= ev.0.to_set());
                    }
                    lemma_rework_step(eqs, k_old, idx, olds, equations(before_new), n2);
                    lemma_empty_list_set(ns@);
                    assert(coded_sets(old_p@) =~= olds.drop_last());
                }
                if ns.len() > 0 {
                    self.pending.push(Coded { esi, neighbors: ns, data });
                    proof {
                        assert(self@.pending =~= before_new.push(nv));
                        assert(equations(self@.pending) =~= equations(before_new).push(nv.0.to_set()));
                    }
                }
                proof {
                    assert forall|j: int| 0 <= j < old_p@.len() implies st0.entry_wf(#[trigger] old_p@[j]@) by {
                        assert(old_p@[j] == before_old[j]);
                    }
                    assert forall|j: int| 0 <= j < self@.pending.len() implies self@.entry_wf(#[trigger] self@.pending[j]) by {
                        if j < before_new.len() {
                            assert(self@.pending[j] == before_new[j]);
                        }
                    }
                    assert forall|src: Seq<Seq<u8>>| #[trigger] st0.sound_for(src) && uniform_symbols(src, st0.k as nat, st0.symbol_size) implies {
                        &&& e0.1 == combine(src, e0.0, st0.symbol_size)
                        &&& forall|j: int| 0 <= j < old_p@.len() ==> (#[trigger] old_p@[j]@).1 == combine(src, old_p@[j]@.0, st0.symbol_size)
                        &&& forall|j: int| 0 <= j < self@.pending.len() ==> (#[trigger] self@.pending[j]).1 == combine(src, self@.pending[j].0, st0.symbol_size)
                    } by {
                        assert forall|j: int| 0 <= j < old_p@.len() implies (#[trigger] old_p@[j]@).1 == combine(src, old_p@[j]@.0, st0.symbol_size) by {
                            assert(old_p@[j] == before_old[j]);
                        }
                        assert forall|j: int| 0 <= j < self@.pending.len() implies (#[trigger] self@.pending[j]).1 == combine(src, self@.pending[j].0, st0.symbol_size) by {
                            if j < before_new.len() {
                                assert(self@.pending[j] == before_new[j]);
                            }
                        }
                    }
                }
            }
            proof {
                let st = self@;
                lemma_round_end(eqs, k_old, idx, equations(st.pending));
                assert(known_set(st.recovered) =~= k_old.insert(idx));
                assert forall|i: int| 0 <= i < st.k && (#[trigger] st.recovered[i]) is Some implies st.recovered[i]->0.len() == st.symbol_size by {
                    if i != idx {
                        assert(st.recovered[i] == st0.recovered[i]);
                    }
                }
                assert(st.wf());
                assert forall|i: int| 0 <= i < st_in.k && (#[trigger] st_in.recovered[i]) is Some implies st.recovered[i] == st_in.recovered[i] by {
                    assert(st0.recovered[i] == st_in.recovered[i]);
                }
                assert forall|src: Seq<Seq<u8>>| #[trigger] st_in.sound_for(src) implies st.sound_for(src) by {
                    assert(st0.sound_for(src));
                    if uniform_symbols(src, st.k as nat, st.symbol_size) {
                        assert(e0.0[0] == idx);
                        assert(names_symbols(src, e0.0, st.symbol_size));
                        crate::xor::lemma_combine_single(src, e0.0, st.symbol_size);
                        assert forall|i: int| 0 <= i < st.k && (#[trigger] st.recovered[i]) is Some implies st.recovered[i]->0 == src[i] by {
                            if i != idx {
                                assert(st.recovered[i] == st0.recovered[i]);
                            }
                        }
                    }
                }
            }
        }
    }
}

} // verus!

verus! {

/// Every source symbol of `data` is `sym` bytes long, and there are `symbol_count` of them.
pub proof fn lemma_source_symbols_uniform(data: Seq<u8>, sym: nat)
    requires
        sym >= 1,
    ensures
        uniform_symbols(source_symbols(data, sym), symbol_count(data.len(), sym), sym),
        symbol_count(data.len(), sym) * sym >= data.len(),
{
    let n = symbol_count(data.len(), sym);
    if data.len() > 0 {
        let x = (data.len() - 1) as int;
        vstd::arithmetic::div_mod::lemma_fundamental_div_mod(x, sym as int);
        assert((x / sym as int) * sym + x % sym as int == x);
        assert(n * sym == (x / sym as int) * sym + sym) by (nonlinear_arith)
            requires n == x / sym as int + 1;
    }
}

/// An encoded frame is exactly `sym` bytes long, so fitting it to the symbol size keeps it whole.
pub proof fn law_encoded_frame_fits(src: Seq<Seq<u8>>, ns: Seq<u32>, sym: nat)
    ensures
        fit(combine(src, ns, sym), sym) == combine(src, ns, sym),
{
    crate::xor::lemma_combine_len(src, ns, sym);
    assert(fit(combine(src, ns, sym), sym) =~= combine(src, ns, sym));
}

/// Round trip: a complete decoder whose state is sound for the source symbols of
/// `data` (as it is when every frame it took in came from an encoder of `data`,
/// with the degree that encoder drew) assembles exactly `data`.
pub proof fn law_roundtrip(data: Seq<u8>, sym: nat, dec: DecoderState)
    requires
        sym >= 1,
        dec.wf(),
        dec.k == symbol_count(data.len(), sym),
        dec.symbol_size == sym,
        dec.total_len == data.len(),
        dec.sound_for(source_symbols(data, sym)),
        dec.complete(),
    ensures
        dec.assembled() == data,
{
    let src = source_symbols(data, sym);
    let k = dec.k as nat;
    lemma_source_symbols_uniform(data, sym);
    lemma_count_recovered(dec.recovered);
    let syms = recovered_symbols(dec.recovered);
    assert forall|i: int| 0 <= i < k implies #[trigger] syms[i] == src[i] by {
        assert(dec.recovered[i] is Some);
    }
    let full = k * sym;
    assert((dec.total_len as nat) <= full);
    assert forall|p: int| 0 <= p < data.len() implies #[trigger] dec.assembled()[p] == data[p] by {
        let q = p / sym as int;
        let r = p % sym as int;
        vstd::arithmetic::div_mod::lemma_fundamental_div_mod(p, sym as int);
        vstd::arithmetic::div_mod::lemma_mod_pos_bound(p, sym as int);
        vstd::arithmetic::div_mod::lemma_div_pos_is_pos(p, sym as int);
        assert(p == sym * q + r);
        assert(q * sym == sym * q) by (nonlinear_arith);
        assert(q < k) by {
            if q >= k {
                assert(q * sym >= k * sym) by (nonlinear_arith)
                    requires q >= k, sym >= 1;
            }
        }
        assert(syms[q] == src[q]);
        assert(src[q] == chunk(data, sym, q as nat));
        assert(q * sym + r == p);
    }
    assert(dec.assembled() =~= data);
}

} // verus!

verus! {

/// A frame built by an encoder from the source symbols `src` keeps a decoder that is
/// sound for `src` sound, whatever the decoder answers.
pub proof fn law_encoder_frame_keeps_sound(
    d0: DecoderState,
    d1: DecoderState,
    src: Seq<Seq<u8>>,
    esi: u32,
    degree: u32,
    kind: u8,
)
    requires
        d0.sound_for(src),
        d0.ingested(d1, esi, combine(src, neighbor_list(d0.file_id, esi, d0.k, degree), d0.symbol_size), degree, kind),
    ensures
        d1.sound_for(src),
{
    reveal(DecoderState::ingested);
    law_encoded_frame_fits(src, neighbor_list(d0.file_id, esi, d0.k, degree), d0.symbol_size);
}

/// Filling more slots never lowers the recovered count.
proof fn lemma_count_monotone(a: Seq<Option<Seq<u8>>>, b: Seq<Option<Seq<u8>>>)
    requires
        a.len() == b.len(),
        forall|i: int| 0 <= i < a.len() && (#[trigger] a[i]) is Some ==> b[i] is Some,
    ensures
        count_recovered(a) <= count_recovered(b),
    decreases a.len(),
{
    if a.len() > 0 {
        assert forall|i: int| 0 <= i < a.drop_last().len() && (#[trigger] a.drop_last()[i]) is Some implies b.drop_last()[i] is Some by {
            assert(a[i] is Some);
        }
        lemma_count_monotone(a.drop_last(), b.drop_last());
        assert(a.last() is Some ==> b.last() is Some) by {
            if a.last() is Some {
                assert(a[a.len() - 1] is Some);
            }
        }
    }
}

/// Progress never goes back: taking in a frame never loses a recovered symbol, and the
/// recovered count never decreases.
pub proof fn law_progress_monotone(d0: DecoderState, d1: DecoderState, esi: u32, payload: Seq<u8>, degree: u32, kind: u8)
    requires
        d0.wf(),
        d1.wf(),
        d1.k == d0.k,
        d0.ingested(d1, esi, payload, degree, kind),
    ensures
        forall|i: int| 0 <= i < d0.k && (#[trigger] d0.recovered[i]) is Some ==> d1.recovered[i] == d0.recovered[i],
        count_recovered(d0.recovered) <= count_recovered(d1.recovered),
{
    reveal(DecoderState::ingested);
    lemma_count_monotone(d0.recovered, d1.recovered);
}

} // verus!

verus! {

/// A frame whose neighbours are all recovered but one recovers that one: when
/// [`Decoder::ingest`] stores a frame with a single unknown neighbour `x`, the symbol
/// `x` is recovered afterwards.
pub proof fn law_single_unknown_recovered(
    d0: DecoderState,
    d1: DecoderState,
    esi: u32,
    payload: Seq<u8>,
    degree: u32,
    kind: u8,
    x: u32,
)
    requires
        d0.wf(),
        d0.ingested(d1, esi, payload, degree, kind),
        unresolved(neighbor_list(d0.file_id, esi, d0.k, degree), d0.recovered) == seq![x],
        !d0.seen.contains(esi),
        !d0.complete(),
    ensures
        kind == 2,
        d1.recovered[x as int] is Some,
{
    reveal(DecoderState::ingested);
    let fresh = seq![x];
    let eqs = equations(d0.pending).push(fresh.to_set());
    let k0 = known_set(d0.recovered);
    assert(fresh.len() > 0);
    lemma_unresolved_unknown(neighbor_list(d0.file_id, esi, d0.k, degree), d0.recovered);
    assert(fresh[0] == x);
    assert(d0.recovered[x as int] is None);
    assert(eqs[eqs.len() - 1] == fresh.to_set());
    assert(eqs[eqs.len() - 1].difference(k0) =~= set![x]) by {
        assert(fresh.to_set().contains(x));
    }
    lemma_known_in_closure(eqs, k0);
    lemma_closure_step(eqs, k0, k0, eqs.len() - 1, x);
    assert(known_set(d1.recovered).contains(x));
}

} // verus!

verus! {

/// A file of one source symbol is complete after its first new frame: whatever the
/// frame's degree, its only neighbour is symbol 0, which peeling recovers.
pub proof fn law_one_symbol_file_completes(
    d0: DecoderState,
    d1: DecoderState,
    esi: u32,
    payload: Seq<u8>,
    degree: u32,
    kind: u8,
)
    requires
        d0.wf(),
        d1.wf(),
        d1.k == d0.k,
        d0.k == 1,
        d0.recovered[0] is None,
        !d0.seen.contains(esi),
        d0.ingested(d1, esi, payload, degree, kind),
    ensures
        kind == 2,
        d1.complete(),
{
    let ns = neighbor_list(d0.file_id, esi, d0.k, degree);
    assert(ns =~= seq![0u32]) by {
        lemma_neighbor_list_shape(d0.file_id, esi, d0.k, degree);
        assert(ns[0] == 0);
        if ns.len() > 1 {
            assert(ns[0] < ns[1]);
        }
    }
    assert(unresolved(ns, d0.recovered) == seq![0u32]) by {
        assert(ns.drop_last() =~= Seq::<u32>::empty());
        assert(ns.last() == 0);
        assert(unresolved(ns.drop_last(), d0.recovered) =~= Seq::<u32>::empty());
        assert(unresolved(ns, d0.recovered) =~= seq![0u32]);
    }
    assert(!d0.complete()) by {
        lemma_count_recovered(d0.recovered);
    }
    law_single_unknown_recovered(d0, d1, esi, payload, degree, kind, 0);
    assert(d1.complete()) by {
        lemma_count_recovered(d1.recovered);
        assert(all_recovered(d1.recovered));
    }
}

} // verus!
