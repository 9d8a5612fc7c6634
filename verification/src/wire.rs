//! Big-endian integer encodings used on the peer wire.

use vstd::prelude::*;

verus! {

/// The four big-endian bytes of `n`.
pub open spec fn be_bytes(n: u32) -> Seq<u8> {
    seq![
        (n / 0x100_0000) as u8,
        ((n / 0x1_0000) % 0x100) as u8,
        ((n / 0x100) % 0x100) as u8,
        (n % 0x100) as u8,
    ]
}

/// The number that four big-endian bytes stand for.
pub open spec fn be_value(b: Seq<u8>) -> int
    recommends
        b.len() >= 4,
{
    b[0] * 0x100_0000 + b[1] * 0x1_0000 + b[2] * 0x100 + b[3]
}

/// Reading back the bytes of a number gives the number.
pub proof fn lemma_be_roundtrip(n: u32)
    ensures
        be_value(be_bytes(n)) == n,
        be_bytes(n).len() == 4,
{
    let b = be_bytes(n);
    assert(b[0] == n / 0x100_0000);
    assert(b[1] == (n / 0x1_0000) % 0x100);
    assert(b[2] == (n / 0x100) % 0x100);
    assert(b[3] == n % 0x100);
    assert(be_value(b) == n) by (nonlinear_arith)
        requires
            b[0] == n / 0x100_0000,
            b[1] == (n / 0x1_0000) % 0x100,
            b[2] == (n / 0x100) % 0x100,
            b[3] == n % 0x100,
            be_value(b) == b[0] * 0x100_0000 + b[1] * 0x1_0000 + b[2] * 0x100 + b[3],
            0 <= n < 0x1_0000_0000,
    ;
}

/// Writing the number that four bytes stand for gives back the bytes.
pub proof fn lemma_be_value_bytes(b: Seq<u8>)
    requires
        b.len() == 4,
    ensures
        0 <= be_value(b) <= u32::MAX,
        be_bytes(be_value(b) as u32) =~= b,
{
    let v = be_value(b);
    let b0 = b[0] as int;
    let b1 = b[1] as int;
    let b2 = b[2] as int;
    let b3 = b[3] as int;
    assert(0 <= v <= u32::MAX) by (nonlinear_arith)
        requires
            v == b0 * 0x100_0000 + b1 * 0x1_0000 + b2 * 0x100 + b3,
            0 <= b0 < 256, 0 <= b1 < 256, 0 <= b2 < 256, 0 <= b3 < 256,
    ;
    assert(v / 0x100_0000 == b0 && (v / 0x1_0000) % 0x100 == b1 && (v / 0x100) % 0x100 == b2
        && v % 0x100 == b3) by (nonlinear_arith)
        requires
            v == b0 * 0x100_0000 + b1 * 0x1_0000 + b2 * 0x100 + b3,
            0 <= b0 < 256, 0 <= b1 < 256, 0 <= b2 < 256, 0 <= b3 < 256,
    ;
}

/// The big-endian bytes of `n`.
pub fn u32_to_be(n: u32) -> (res: [u8; 4])
    ensures
        res@ == be_bytes(n),
{
    let res = [
        (n / 0x100_0000) as u8,
        ((n / 0x1_0000) % 0x100) as u8,
        ((n / 0x100) % 0x100) as u8,
        (n % 0x100) as u8,
    ];
    assert(res@ =~= be_bytes(n));
    res
}

/// The number that the first four bytes of `b` stand for, read big-endian.
pub fn u32_from_be(b: &[u8]) -> (res: u32)
    requires
        b@.len() >= 4,
    ensures
        res == be_value(b@),
{
    proof {
        lemma_be_value_bytes(b@.subrange(0, 4));
    }
    let v: u64 = (b[0] as u64) * 0x100_0000 + (b[1] as u64) * 0x1_0000 + (b[2] as u64) * 0x100
        + (b[3] as u64);
    v as u32
}


/// The array whose elements are `s`.
pub open spec fn array_of<const N: usize>(s: Seq<u8>) -> [u8; N] {
    choose|a: [u8; N]| a@ == s
}

/// An array is the array of its own elements.
pub proof fn lemma_array_of<const N: usize>(a: [u8; N])
    ensures
        array_of::<N>(a@) == a,
{
    broadcast use vstd::array::group_array_axioms;
    let b = array_of::<N>(a@);
    assert(b@ == a@);
    assert(b =~= a);
}

/// An array holding `s[0..k]` in its first `k` places (zeros after).
spec fn array_prefix<const N: usize>(s: Seq<u8>, k: nat) -> [u8; N]
    decreases k,
{
    if k == 0 {
        vstd::array::spec_array_fill_for_copy_type::<u8, N>(0u8)
    } else {
        vstd::array::spec_array_update(array_prefix::<N>(s, (k - 1) as nat), k - 1, s[k - 1])
    }
}

/// `array_prefix` holds the first `k` elements of `s`.
proof fn lemma_array_prefix<const N: usize>(s: Seq<u8>, k: nat)
    requires
        k <= N,
        s.len() == N,
    ensures
        array_prefix::<N>(s, k)@.len() == N,
        forall|i: int| 0 <= i < k ==> #[trigger] array_prefix::<N>(s, k)@[i] == s[i],
    decreases k,
{
    broadcast use vstd::array::group_array_axioms;
    if k > 0 {
        lemma_array_prefix::<N>(s, (k - 1) as nat);
    }
}

/// The array of `N` elements is an array with exactly those elements.
pub proof fn lemma_array_of_seq<const N: usize>(s: Seq<u8>)
    requires
        s.len() == N,
    ensures
        array_of::<N>(s)@ == s,
{
    lemma_array_prefix::<N>(s, N as nat);
    let a = array_prefix::<N>(s, N as nat);
    assert(a@ =~= s);
}

/// Appends the bytes of `s` to `v`.
pub fn append_bytes(v: &mut Vec<u8>, s: &[u8])
    ensures
        final(v)@ == old(v)@ + s@,
{
    let ghost start = v@;
    let mut i: usize = 0;
    while i < s.len()
        invariant
            i <= s@.len(),
            v@ == start + s@.subrange(0, i as int),
        decreases s@.len() - i,
    {
        v.push(s[i]);
        i = i + 1;
        assert(s@.subrange(0, i as int) =~= s@.subrange(0, i - 1) + seq![s@[i - 1]]);
    }
    assert(s@.subrange(0, s@.len() as int) =~= s@);
}

/// The `N` bytes of `data` that start at `start`, as an array.
pub fn take_array<const N: usize>(data: &[u8], start: usize) -> (res: [u8; N])
    requires
        start + N <= data@.len(),
    ensures
        res@ == data@.subrange(start as int, start + N),
{
    let mut res: [u8; N] = vstd::array::array_fill_for_copy_types(0u8);
    let mut i: usize = 0;
    assert(data@.len() == data.len());
    while i < N
        invariant
            i <= N,
            start + N <= data@.len(),
            data@.len() == data.len(),
            res@.len() == N,
            forall|j: int| 0 <= j < i ==> res@[j] == data@[start + j],
        decreases N - i,
    {
        assert(start + i < data@.len());
        res[i] = data[start + i];
        i = i + 1;
    }
    assert(res@ =~= data@.subrange(start as int, start + N));
    res
}

} // verus!
