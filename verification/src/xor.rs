//! Byte-wise XOR of symbols and the algebra the decoder's proofs rest on.

use vstd::prelude::*;

verus! {

/// `a` with the first `min(a.len(), b.len())` bytes XOR-ed with `b`.
pub open spec fn xor_bytes(a: Seq<u8>, b: Seq<u8>) -> Seq<u8> {
    Seq::new(a.len(), |i: int| if i < b.len() { a[i] ^ b[i] } else { a[i] })
}

/// `n` zero bytes.
pub open spec fn zeros(n: nat) -> Seq<u8> {
    Seq::new(n, |i: int| 0u8)
}

/// XOR of the source symbols named by `ns` (in that order) onto `len` zero bytes.
pub open spec fn combine(syms: Seq<Seq<u8>>, ns: Seq<u32>, len: nat) -> Seq<u8>
    decreases ns.len(),
{
    if ns.len() == 0 {
        zeros(len)
    } else {
        xor_bytes(combine(syms, ns.drop_last(), len), syms[ns.last() as int])
    }
}

/// Every symbol that `ns` names exists in `syms` and is `len` bytes long.
pub open spec fn names_symbols(syms: Seq<Seq<u8>>, ns: Seq<u32>, len: nat) -> bool {
    forall|j: int| 0 <= j < ns.len() ==> {
        &&& (#[trigger] ns[j]) < syms.len()
        &&& syms[ns[j] as int].len() == len
    }
}

/// XOR `src` into `dst`, byte by byte, over their common length.
pub fn xor_into(dst: &mut [u8], src: &[u8])
    ensures
        final(dst)@ == xor_bytes(old(dst)@, src@),
{
    let n = if dst.len() < src.len() { dst.len() } else { src.len() };
    let mut i: usize = 0;
    while i < n
        invariant
            n <= dst@.len(),
            n <= src@.len(),
            n == if old(dst)@.len() < src@.len() { old(dst)@.len() } else { src@.len() },
            i <= n,
            dst@.len() == old(dst)@.len(),
            forall|j: int| 0 <= j < i ==> dst@[j] == old(dst)@[j] ^ src@[j],
            forall|j: int| i <= j < dst@.len() ==> dst@[j] == old(dst)@[j],
        decreases n - i,
    {
        let v = dst[i] ^ src[i];
        dst[i] = v;
        i = i + 1;
    }
    assert(dst@ =~= xor_bytes(old(dst)@, src@));
}

/// XOR on bytes is commutative and associative, has zero as unit and cancels.
pub proof fn lemma_u8_xor_facts(a: u8, b: u8, c: u8)
    ensures
        a ^ b == b ^ a,
        (a ^ b) ^ c == a ^ (b ^ c),
        a ^ 0u8 == a,
        0u8 ^ a == a,
        (a ^ b) ^ b == a,
{
    assert(a ^ b == b ^ a) by (bit_vector);
    assert((a ^ b) ^ c == a ^ (b ^ c)) by (bit_vector);
    assert(a ^ 0u8 == a) by (bit_vector);
    assert(0u8 ^ a == a) by (bit_vector);
    assert((a ^ b) ^ b == a) by (bit_vector);
}

/// XOR of equal-length symbols is associative and commutative, cancels, and has zero as unit.
pub proof fn lemma_xor_algebra(a: Seq<u8>, b: Seq<u8>, c: Seq<u8>)
    requires
        a.len() == b.len(),
        b.len() == c.len(),
    ensures
        xor_bytes(a, b) == xor_bytes(b, a),
        xor_bytes(xor_bytes(a, b), c) == xor_bytes(a, xor_bytes(b, c)),
        xor_bytes(xor_bytes(a, b), b) == a,
        xor_bytes(zeros(a.len()), a) == a,
        xor_bytes(a, zeros(a.len())) == a,
{
    assert forall|i: int| 0 <= i < a.len() implies {
        &&& a[i] ^ b[i] == b[i] ^ a[i]
        &&& (a[i] ^ b[i]) ^ c[i] == a[i] ^ (b[i] ^ c[i])
        &&& (a[i] ^ b[i]) ^ b[i] == a[i]
        &&& 0u8 ^ a[i] == a[i]
        &&& a[i] ^ 0u8 == a[i]
    } by {
        lemma_u8_xor_facts(a[i], b[i], c[i]);
    }
    assert(xor_bytes(a, b) =~= xor_bytes(b, a));
    assert(xor_bytes(xor_bytes(a, b), c) =~= xor_bytes(a, xor_bytes(b, c)));
    assert(xor_bytes(xor_bytes(a, b), b) =~= a);
    assert(xor_bytes(zeros(a.len()), a) =~= a);
    assert(xor_bytes(a, zeros(a.len())) =~= a);
}

/// A combination is as long as the zero bytes it starts from.
pub proof fn lemma_combine_len(syms: Seq<Seq<u8>>, ns: Seq<u32>, len: nat)
    ensures
        combine(syms, ns, len).len() == len,
    decreases ns.len(),
{
    if ns.len() > 0 {
        lemma_combine_len(syms, ns.drop_last(), len);
    }
}

/// The combination of a single symbol is that symbol.
pub proof fn lemma_combine_single(syms: Seq<Seq<u8>>, ns: Seq<u32>, len: nat)
    requires
        ns.len() == 1,
        names_symbols(syms, ns, len),
    ensures
        combine(syms, ns, len) == syms[ns[0] as int],
{
    assert(ns.drop_last() =~= Seq::<u32>::empty());
    assert(ns[0] < syms.len());
    assert(combine(syms, ns.drop_last(), len) == zeros(len));
    assert(ns.last() == ns[0]);
    lemma_xor_algebra(syms[ns[0] as int], syms[ns[0] as int], syms[ns[0] as int]);
}

/// Taking one name out of a combination is the same as XOR-ing its symbol back out.
pub proof fn lemma_combine_remove(syms: Seq<Seq<u8>>, ns: Seq<u32>, p: int, len: nat)
    requires
        0 <= p < ns.len(),
        names_symbols(syms, ns, len),
    ensures
        xor_bytes(combine(syms, ns, len), syms[ns[p] as int]) == combine(syms, ns.remove(p), len),
    decreases ns.len(),
{
    assert(ns[p] < syms.len());
    assert(ns[ns.len() - 1] < syms.len());
    let last = syms[ns.last() as int];
    let target = syms[ns[p] as int];
    lemma_combine_len(syms, ns.drop_last(), len);
    if p == ns.len() - 1 {
        assert(ns.remove(p) =~= ns.drop_last());
        lemma_xor_algebra(combine(syms, ns.drop_last(), len), last, last);
    } else {
        let rest = ns.drop_last();
        assert forall|j: int| 0 <= j < rest.len() implies {
            &&& (#[trigger] rest[j]) < syms.len()
            &&& syms[rest[j] as int].len() == len
        } by {
            assert(rest[j] == ns[j]);
        }
        lemma_combine_remove(syms, rest, p, len);
        assert(ns.remove(p).drop_last() =~= rest.remove(p));
        assert(ns.remove(p).last() == ns.last());
        lemma_combine_len(syms, rest.remove(p), len);
        let base = combine(syms, rest, len);
        let base_removed = combine(syms, rest.remove(p), len);
        // combine(ns) ^ t = (base ^ last) ^ t = (base ^ t) ^ last = base_removed ^ last
        lemma_xor_algebra(base, last, target);
        lemma_xor_algebra(base, target, last);
        lemma_xor_algebra(last, target, target);
    }
}

} // verus!
