//! The wire envelope carried in each gossip or sync message: a two-field
//! binary structure of raw header bytes and an optional raw body, in a
//! compact self-describing encoding (an array-of-two marker, length-prefixed
//! byte strings in minimal form, and a null marker for a missing body).
//!
//! Decoding only checks that the envelope parses; semantic validation of
//! the header inside is the ingestion pipeline's job.

use crate::bytes::{
    be_bytes, be_int, lemma_be_bytes_len, lemma_be_round_trip, lemma_be_sound, lemma_pow256_bound,
    opt_view, pow256, push_be, push_bytes,
};
use vstd::prelude::*;

verus! {

/// The envelope failed to parse.
#[derive(Debug, Clone, Copy, PartialEq, Eq, Structural)]
pub struct DecodeError;

/// Minimal-form length prefix of a byte string of `n` bytes.
pub open spec fn bstr_prefix(n: int) -> Seq<u8> {
    if n < 24 {
        seq![(0x40 + n) as u8]
    } else if n < 256 {
        seq![0x58u8] + be_bytes(n, 1)
    } else if n < 65536 {
        seq![0x59u8] + be_bytes(n, 2)
    } else if n < 0x1_0000_0000 {
        seq![0x5au8] + be_bytes(n, 4)
    } else {
        seq![0x5bu8] + be_bytes(n, 8)
    }
}

/// A length-prefixed byte string.
pub open spec fn bstr(b: Seq<u8>) -> Seq<u8> {
    bstr_prefix(b.len() as int) + b
}

/// The bytes of the wire envelope: array-of-two marker, header bytes as a
/// byte string, body bytes as a byte string or the null marker.
pub open spec fn envelope_bytes(h: Seq<u8>, body: Option<Seq<u8>>) -> Seq<u8> {
    seq![0x82u8] + bstr(h) + (match body {
        Some(b) => bstr(b),
        None => seq![0xf6u8],
    })
}

/// Takes `n` bytes at offset `j`, yielding them and the next offset.
pub open spec fn p_take(s: Seq<u8>, j: int, n: int) -> Option<(Seq<u8>, int)> {
    if n >= 0 && j + n <= s.len() {
        Some((s.subrange(j, j + n), j + n))
    } else {
        None
    }
}

/// Parses a minimal-form byte string at offset `i`.
pub open spec fn p_bstr(s: Seq<u8>, i: int) -> Option<(Seq<u8>, int)> {
    if !(0 <= i < s.len()) {
        None
    } else {
        let t = s[i];
        if 0x40 <= t && t < 0x58 {
            p_take(s, i + 1, t - 0x40)
        } else if t == 0x58 && i + 2 <= s.len() {
            let n = be_int(s.subrange(i + 1, i + 2));
            if n >= 24 {
                p_take(s, i + 2, n)
            } else {
                None
            }
        } else if t == 0x59 && i + 3 <= s.len() {
            let n = be_int(s.subrange(i + 1, i + 3));
            if n >= 256 {
                p_take(s, i + 3, n)
            } else {
                None
            }
        } else if t == 0x5a && i + 5 <= s.len() {
            let n = be_int(s.subrange(i + 1, i + 5));
            if n >= 65536 {
                p_take(s, i + 5, n)
            } else {
                None
            }
        } else if t == 0x5b && i + 9 <= s.len() {
            let n = be_int(s.subrange(i + 1, i + 9));
            if n >= 0x1_0000_0000 {
                p_take(s, i + 9, n)
            } else {
                None
            }
        } else {
            None
        }
    }
}

/// Parses a whole envelope; every byte must be consumed.
pub open spec fn parse_envelope(s: Seq<u8>) -> Option<(Seq<u8>, Option<Seq<u8>>)> {
    if s.len() < 1 || s[0] != 0x82 {
        None
    } else {
        match p_bstr(s, 1) {
            None => None,
            Some((h, i)) => {
                if i < s.len() && s[i] == 0xf6 {
                    if i + 1 == s.len() {
                        Some((h, None))
                    } else {
                        None
                    }
                } else {
                    match p_bstr(s, i) {
                        None => None,
                        Some((b, j)) => {
                            if j == s.len() {
                                Some((h, Some(b)))
                            } else {
                                None
                            }
                        },
                    }
                }
            },
        }
    }
}

/// Appends the length-prefixed byte string for `b` to `out`.
pub fn push_bstr(out: &mut Vec<u8>, b: &Vec<u8>)
    ensures
        final(out)@ == old(out)@ + bstr(b@),
{
    let n = b.len();
    let n64 = n as u64;
    if n < 24 {
        out.push(0x40 + n as u8);
    } else if n64 < 256 {
        out.push(0x58);
        push_be(out, n64, 1);
    } else if n64 < 65536 {
        out.push(0x59);
        push_be(out, n64, 2);
    } else if n64 < 0x1_0000_0000 {
        out.push(0x5a);
        push_be(out, n64, 4);
    } else {
        out.push(0x5b);
        push_be(out, n64, 8);
    }
    push_bytes(out, b);
    proof {
        assert(final(out)@ =~= old(out)@ + bstr(b@));
    }
}

/// Encodes an envelope from raw header bytes and optional raw body bytes.
pub fn encode_envelope(header_bytes: &Vec<u8>, body: Option<&Vec<u8>>) -> (r: Vec<u8>)
    ensures
        r@ == envelope_bytes(
            header_bytes@,
            match body {
                Some(b) => Some(b@),
                None => None,
            },
        ),
{
    let mut out: Vec<u8> = Vec::new();
    out.push(0x82);
    push_bstr(&mut out, header_bytes);
    match body {
        Some(b) => push_bstr(&mut out, b),
        None => out.push(0xf6),
    }
    proof {
        assert(out@ =~= envelope_bytes(
            header_bytes@,
            match body {
                Some(b) => Some(b@),
                None => None,
            },
        ));
    }
    out
}

/// Reads a minimal-form byte string at offset `i`, following `p_bstr`.
fn read_bstr(b: &Vec<u8>, i: usize) -> (r: Option<(Vec<u8>, usize)>)
    ensures
        match r {
            Some(p) => p_bstr(b@, i as int) == Some((p.0@, p.1 as int)),
            None => p_bstr(b@, i as int) is None,
        },
{
    let blen = b.len();
    if i >= blen {
        return None;
    }
    let t = b[i];
    let (n64, j): (u64, usize) = if 0x40 <= t && t < 0x58 {
        ((t - 0x40) as u64, i + 1)
    } else if t == 0x58 && blen - i >= 2 {
        let n = crate::bytes::read_be(b, i + 1, 1);
        if n >= 24 {
            (n, i + 2)
        } else {
            return None;
        }
    } else if t == 0x59 && blen - i >= 3 {
        let n = crate::bytes::read_be(b, i + 1, 2);
        if n >= 256 {
            (n, i + 3)
        } else {
            return None;
        }
    } else if t == 0x5a && blen - i >= 5 {
        let n = crate::bytes::read_be(b, i + 1, 4);
        if n >= 65536 {
            (n, i + 5)
        } else {
            return None;
        }
    } else if t == 0x5b && blen - i >= 9 {
        let n = crate::bytes::read_be(b, i + 1, 8);
        if n >= 0x1_0000_0000 {
            (n, i + 9)
        } else {
            return None;
        }
    } else {
        return None;
    };
    if n64 > (blen - j) as u64 {
        return None;
    }
    let n = n64 as usize;
    let contents = crate::bytes::copy_range(b, j, n);
    Some((contents, j + n))
}

/// Decodes an envelope into raw header bytes and optional raw body bytes.
pub fn decode_envelope(bytes: &Vec<u8>) -> (r: Result<(Vec<u8>, Option<Vec<u8>>), DecodeError>)
    ensures
        match r {
            Ok(p) => parse_envelope(bytes@) == Some((p.0@, opt_view(p.1))),
            Err(_) => parse_envelope(bytes@) is None,
        },
{
    let blen = bytes.len();
    if blen == 0 {
        return Err(DecodeError);
    }
    if bytes[0] != 0x82 {
        return Err(DecodeError);
    }
    let (h, i) = match read_bstr(bytes, 1) {
        Some(p) => p,
        None => {
            return Err(DecodeError);
        },
    };
    if i < blen && bytes[i] == 0xf6 {
        if i + 1 == blen {
            Ok((h, None))
        } else {
            Err(DecodeError)
        }
    } else {
        let (bd, j) = match read_bstr(bytes, i) {
            Some(p) => p,
            None => {
                return Err(DecodeError);
            },
        };
        if j == blen {
            Ok((h, Some(bd)))
        } else {
            Err(DecodeError)
        }
    }
}

/// Parsing a byte string laid down at offset `i` recovers its contents.
pub proof fn lemma_p_bstr_at(s: Seq<u8>, i: int, b: Seq<u8>)
    requires
        0 <= i,
        b.len() < pow256(8),
        i + bstr(b).len() <= s.len(),
        s.subrange(i, i + bstr(b).len()) == bstr(b),
    ensures
        p_bstr(s, i) == Some((b, i + bstr(b).len())),
{
    lemma_pow256_value();
    let n = b.len() as int;
    let pre = bstr_prefix(n);
    let w: nat = if n < 24 {
        0
    } else if n < 256 {
        1
    } else if n < 65536 {
        2
    } else if n < 0x1_0000_0000 {
        4
    } else {
        8
    };
    lemma_be_bytes_len(n, w);
    assert(pre.len() == 1 + w);
    let seg = s.subrange(i, i + bstr(b).len());
    assert(s[i] == seg[0]);
    assert(seg[0] == pre[0]);
    if n < 24 {
        assert(s[i] == 0x40 + n);
        assert(p_take(s, i + 1, n) == Some((s.subrange(i + 1, i + 1 + n), i + 1 + n)));
        assert(s.subrange(i + 1, i + 1 + n) =~= b) by {
            assert(forall|k: int|
                0 <= k < n ==> s.subrange(i + 1, i + 1 + n)[k] == seg[1 + k] && seg[1 + k]
                    == b[k]);
        }
    } else {
        if n < 256 {
            assert(s[i] == 0x58);
        } else if n < 65536 {
            assert(s[i] == 0x59);
        } else if n < 0x1_0000_0000 {
            assert(s[i] == 0x5a);
        } else {
            assert(s[i] == 0x5b);
        }
        assert(s.subrange(i + 1, i + 1 + w) =~= be_bytes(n, w)) by {
            assert(forall|k: int|
                0 <= k < w ==> s.subrange(i + 1, i + 1 + w)[k] == seg[1 + k] && seg[1 + k]
                    == pre[1 + k] && pre[1 + k] == be_bytes(n, w)[k]);
        }
        lemma_be_round_trip(n, w);
        assert(be_int(s.subrange(i + 1, i + 1 + w)) == n);
        assert(p_take(s, i + 1 + w, n) == Some((s.subrange(i + 1 + w, i + 1 + w + n), i + 1 + w
            + n)));
        assert(s.subrange(i + 1 + w, i + 1 + w + n) =~= b) by {
            assert(forall|k: int|
                0 <= k < n ==> s.subrange(i + 1 + w, i + 1 + w + n)[k] == seg[1 + w + k] && seg[
                    1 + w + k
                ] == b[k]);
        }
    }
}

/// A parsed byte string is the canonical encoding of its contents.
pub proof fn lemma_p_bstr_sound(s: Seq<u8>, i: int)
    requires
        p_bstr(s, i) is Some,
    ensures
        ({
            let (b, j) = p_bstr(s, i)->Some_0;
            &&& 0 <= i < j <= s.len()
            &&& j - i == bstr(b).len()
            &&& s.subrange(i, j) == bstr(b)
        }),
{
    lemma_pow256_value();
    let (b, j) = p_bstr(s, i)->Some_0;
    let t = s[i];
    if 0x40 <= t && t < 0x58 {
        let n = t - 0x40;
        assert(b =~= s.subrange(i + 1, i + 1 + n));
        assert(bstr_prefix(n) == seq![(0x40 + n) as u8]);
        assert(s.subrange(i, j) =~= bstr(b));
    } else {
        let w: nat = if t == 0x58 {
            1
        } else if t == 0x59 {
            2
        } else if t == 0x5a {
            4
        } else {
            8
        };
        let lenbytes = s.subrange(i + 1, i + 1 + w);
        let n = be_int(lenbytes);
        lemma_be_sound(lenbytes);
        assert(be_bytes(n, w) == lenbytes);
        if t == 0x58 {
            assert(24 <= n < pow256(1));
            assert(bstr_prefix(n) == seq![0x58u8] + be_bytes(n, 1));
        } else if t == 0x59 {
            assert(256 <= n < pow256(2));
            assert(bstr_prefix(n) == seq![0x59u8] + be_bytes(n, 2));
        } else if t == 0x5a {
            assert(65536 <= n < pow256(4));
            assert(bstr_prefix(n) == seq![0x5au8] + be_bytes(n, 4));
        } else {
            assert(0x1_0000_0000 <= n);
            assert(bstr_prefix(n) == seq![0x5bu8] + be_bytes(n, 8));
        }
        assert(b == s.subrange(i + 1 + w, i + 1 + w + n));
        lemma_be_bytes_len(n, w);
        assert(s.subrange(i, j) =~= bstr(b));
    }
}

/// The small powers of 256 used by the length prefixes.
pub proof fn lemma_pow256_value()
    ensures
        pow256(1) == 256,
        pow256(2) == 65536,
        pow256(4) == 0x1_0000_0000,
        pow256(8) == 0x1_0000_0000_0000_0000,
{
    assert(pow256(1) == 256 * pow256(0));
    assert(pow256(2) == 256 * pow256(1));
    assert(pow256(3) == 256 * pow256(2));
    assert(pow256(4) == 256 * pow256(3));
    assert(pow256(5) == 256 * pow256(4));
    assert(pow256(6) == 256 * pow256(5));
    assert(pow256(7) == 256 * pow256(6));
    assert(pow256(8) == 256 * pow256(7));
    assert(pow256(0) == 1);
}

/// Decoding an encoded envelope gives back the header and body bytes.
#[verifier::rlimit(50)]
pub proof fn lemma_envelope_round_trip(h: Seq<u8>, body: Option<Seq<u8>>)
    requires
        h.len() < pow256(8),
        match body {
            Some(b) => b.len() < pow256(8),
            None => true,
        },
    ensures
        parse_envelope(envelope_bytes(h, body)) == Some((h, body)),
{
    let s = envelope_bytes(h, body);
    assert(s[0] == 0x82);
    let i = 1 + bstr(h).len() as int;
    assert(s.subrange(1, i) =~= bstr(h));
    lemma_p_bstr_at(s, 1, h);
    match body {
        None => {
            assert(s[i] == 0xf6);
            assert(i + 1 == s.len());
        },
        Some(b) => {
            assert(s.subrange(i, i + bstr(b).len()) =~= bstr(b));
            lemma_p_bstr_at(s, i, b);
            assert(s[i] == bstr(b)[0]);
            assert(s[i] != 0xf6) by {
                let n = b.len() as int;
                assert(bstr(b)[0] == bstr_prefix(n)[0]);
            }
            assert(i + bstr(b).len() == s.len());
        },
    }
}

/// A parsed envelope is the canonical encoding of its parts.
pub proof fn lemma_envelope_sound(s: Seq<u8>)
    requires
        parse_envelope(s) is Some,
    ensures
        ({
            let (h, body) = parse_envelope(s)->Some_0;
            s == envelope_bytes(h, body)
        }),
{
    let (h, body) = parse_envelope(s)->Some_0;
    lemma_p_bstr_sound(s, 1);
    let (h0, i) = p_bstr(s, 1)->Some_0;
    match body {
        None => {
            assert(s =~= envelope_bytes(h, None));
        },
        Some(b) => {
            lemma_p_bstr_sound(s, i);
            assert(s =~= envelope_bytes(h, Some(b)));
        },
    }
}

} // verus!
