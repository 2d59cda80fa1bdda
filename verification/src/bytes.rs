//! Small verified helpers on byte vectors: equality, big-endian integers.

use vstd::arithmetic::div_mod::lemma_fundamental_div_mod;
use vstd::prelude::*;

verus! {

/// The view of an optional byte vector as an optional byte sequence.
pub open spec fn opt_view(o: Option<Vec<u8>>) -> Option<Seq<u8>> {
    match o {
        Some(v) => Some(v@),
        None => None,
    }
}

/// Byte-wise equality of two byte vectors.
pub fn bytes_eq(a: &Vec<u8>, b: &Vec<u8>) -> (r: bool)
    ensures
        r == (a@ == b@),
{
    if a.len() != b.len() {
        return false;
    }
    let n = a.len();
    let mut i: usize = 0;
    while i < n
        invariant
            i <= n,
            n == a@.len(),
            a@.len() == b@.len(),
            forall|j: int| 0 <= j < i ==> a@[j] == b@[j],
        decreases n - i,
    {
        if a[i] != b[i] {
            return false;
        }
        i = i + 1;
    }
    proof {
        assert(a@ =~= b@);
    }
    true
}

/// Equality of two optional byte vectors, as their views.
pub fn opt_bytes_eq(a: &Option<Vec<u8>>, b: &Option<Vec<u8>>) -> (r: bool)
    ensures
        r == (opt_view(*a) == opt_view(*b)),
{
    match (a, b) {
        (Some(x), Some(y)) => bytes_eq(x, y),
        (None, None) => true,
        _ => false,
    }
}

/// Appends the bytes of `b` to `out`.
pub fn push_bytes(out: &mut Vec<u8>, b: &Vec<u8>)
    ensures
        final(out)@ == old(out)@ + b@,
{
    let n = b.len();
    let mut i: usize = 0;
    while i < n
        invariant
            i <= n,
            n == b@.len(),
            out@ == old(out)@ + b@.subrange(0, i as int),
        decreases n - i,
    {
        out.push(b[i]);
        proof {
            assert(out@ =~= old(out)@ + b@.subrange(0, i + 1));
        }
        i = i + 1;
    }
    proof {
        assert(b@.subrange(0, n as int) =~= b@);
    }
}

/// 256 to the power `w`: the number of values a `w`-byte big-endian
/// encoding can carry.
pub open spec fn pow256(w: nat) -> int
    decreases w,
{
    if w == 0 {
        1
    } else {
        256 * pow256((w - 1) as nat)
    }
}

/// The `w`-byte big-endian encoding of `n`, most significant byte first.
pub open spec fn be_bytes(n: int, w: nat) -> Seq<u8>
    decreases w,
{
    if w == 0 {
        Seq::empty()
    } else {
        be_bytes(n / 256, (w - 1) as nat) + seq![(n % 256) as u8]
    }
}

/// The value read from a big-endian byte sequence.
pub open spec fn be_int(s: Seq<u8>) -> int
    decreases s.len(),
{
    if s.len() == 0 {
        0
    } else {
        be_int(s.drop_last()) * 256 + s.last()
    }
}

pub proof fn lemma_be_bytes_len(n: int, w: nat)
    ensures
        be_bytes(n, w).len() == w,
    decreases w,
{
    if w > 0 {
        lemma_be_bytes_len(n / 256, (w - 1) as nat);
    }
}

/// Reading back a `w`-byte encoding yields the encoded value.
pub proof fn lemma_be_round_trip(n: int, w: nat)
    requires
        0 <= n < pow256(w),
    ensures
        be_int(be_bytes(n, w)) == n,
    decreases w,
{
    if w > 0 {
        assert(0 <= n / 256 < pow256((w - 1) as nat)) by {
            lemma_fundamental_div_mod(n, 256);
        }
        lemma_be_round_trip(n / 256, (w - 1) as nat);
        lemma_be_bytes_len(n / 256, (w - 1) as nat);
        let tail = seq![(n % 256) as u8];
        assert((be_bytes(n / 256, (w - 1) as nat) + tail).drop_last() =~= be_bytes(
            n / 256,
            (w - 1) as nat,
        ));
        assert(be_int(be_bytes(n, w)) == (n / 256) * 256 + n % 256);
        lemma_fundamental_div_mod(n, 256);
    }
}

/// A byte sequence is the encoding of the value read from it, and that
/// value is in range.
pub proof fn lemma_be_sound(s: Seq<u8>)
    ensures
        0 <= be_int(s) < pow256(s.len()),
        be_bytes(be_int(s), s.len()) == s,
    decreases s.len(),
{
    if s.len() == 0 {
        assert(be_bytes(0, 0) =~= s);
    } else {
        let front = s.drop_last();
        let v = be_int(front);
        let last = s.last() as int;
        lemma_be_sound(front);
        let n = v * 256 + last;
        let p = pow256((s.len() - 1) as nat);
        assert(0 <= n < 256 * p) by (nonlinear_arith)
            requires
                0 <= v < p,
                0 <= last < 256,
                n == v * 256 + last,
        ;
        assert(pow256(s.len()) == 256 * p);
        assert(n / 256 == v && n % 256 == last) by (nonlinear_arith)
            requires
                n == v * 256 + last,
                0 <= last < 256,
                0 <= v,
        ;
        assert(be_bytes(n, s.len()) == be_bytes(v, (s.len() - 1) as nat) + seq![last as u8]);
        assert(be_bytes(v, (s.len() - 1) as nat) + seq![last as u8] =~= s);
    }
}

/// Appends the `w`-byte big-endian encoding of `n` to `out`.
pub fn push_be(out: &mut Vec<u8>, n: u64, w: usize)
    requires
        w <= 8,
    ensures
        final(out)@ == old(out)@ + be_bytes(n as int, w as nat),
    decreases w,
{
    if w > 0 {
        push_be(out, n / 256, w - 1);
        out.push((n % 256) as u8);
        proof {
            assert(final(out)@ =~= old(out)@ + be_bytes(n as int, w as nat));
        }
    } else {
        proof {
            assert(final(out)@ =~= old(out)@ + be_bytes(n as int, 0));
        }
    }
}

/// Reads the `w` bytes at `i` as a big-endian integer.
pub fn read_be(b: &Vec<u8>, i: usize, w: usize) -> (r: u64)
    requires
        i + w <= b@.len(),
        w <= 8,
    ensures
        r == be_int(b@.subrange(i as int, i + w)),
{
    let blen = b.len();
    let mut acc: u64 = 0;
    let mut k: usize = 0;
    proof {
        assert(b@.subrange(i as int, i as int) =~= Seq::<u8>::empty());
    }
    while k < w
        invariant
            k <= w,
            w <= 8,
            i + w <= blen,
            blen == b@.len(),
            acc == be_int(b@.subrange(i as int, i + k)),
            acc < pow256(k as nat),
        decreases w - k,
    {
        proof {
            lemma_pow256_bound((k + 1) as nat);
            assert(256 * pow256(k as nat) == pow256((k + 1) as nat));
            assert(b@.subrange(i as int, i + k + 1).drop_last() =~= b@.subrange(
                i as int,
                i + k,
            ));
        }
        acc = acc * 256 + (b[i + k] as u64);
        k = k + 1;
    }
    acc
}

/// Copies the `n` bytes at `j` out of `b`.
pub fn copy_range(b: &Vec<u8>, j: usize, n: usize) -> (r: Vec<u8>)
    requires
        j + n <= b@.len(),
    ensures
        r@ == b@.subrange(j as int, j + n),
{
    let blen = b.len();
    let mut out: Vec<u8> = Vec::new();
    let mut k: usize = 0;
    while k < n
        invariant
            k <= n,
            j + n <= blen,
            blen == b@.len(),
            out@ == b@.subrange(j as int, j + k),
        decreases n - k,
    {
        out.push(b[j + k]);
        proof {
            assert(out@ =~= b@.subrange(j as int, j + k + 1));
        }
        k = k + 1;
    }
    out
}

/// `pow256` grows monotonically in the width.
pub proof fn lemma_pow256_mono(a: nat, b: nat)
    requires
        a <= b,
    ensures
        1 <= pow256(a) <= pow256(b),
    decreases b,
{
    if b == 0 {
    } else if a < b {
        lemma_pow256_mono(a, (b - 1) as nat);
    } else {
        lemma_pow256_mono((a - 1) as nat, (b - 1) as nat);
    }
}

/// `pow256` stays within 64 bits for widths up to eight bytes.
pub proof fn lemma_pow256_bound(w: nat)
    requires
        w <= 8,
    ensures
        pow256(w) <= 0x1_0000_0000_0000_0000,
{
    lemma_pow256_mono(w, 8);
    assert(pow256(1) == 256 * pow256(0));
    assert(pow256(2) == 256 * pow256(1));
    assert(pow256(3) == 256 * pow256(2));
    assert(pow256(4) == 256 * pow256(3));
    assert(pow256(5) == 256 * pow256(4));
    assert(pow256(6) == 256 * pow256(5));
    assert(pow256(7) == 256 * pow256(6));
    assert(pow256(8) == 256 * pow256(7));
    assert(pow256(0) == 1);
}

} // verus!
