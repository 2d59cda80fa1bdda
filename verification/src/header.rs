//! Operation headers: the signed, hash-chained metadata of every log
//! entry, with their deterministic byte encoding.
//!
//! A header is signed over its encoding with the signature field empty,
//! and an operation's identity is the hash of the signed encoding.

use crate::bytes::{
    be_bytes, be_int, lemma_be_bytes_len, lemma_be_round_trip, lemma_be_sound, lemma_pow256_bound,
    opt_view, pow256, push_be, push_bytes, read_be,
};
use crate::codec::p_take;
use crate::crypto::{hash_of, sig_check};
use vstd::prelude::*;

verus! {

/// Per-log header extensions: the log identifier and the prune flag.
#[derive(Debug)]
pub struct Extensions {
    pub log_id: Vec<u8>,
    pub prune_flag: bool,
}

/// A copy of a byte vector, equal as a sequence.
pub fn clone_bytes(b: &Vec<u8>) -> (r: Vec<u8>)
    ensures
        r@ == b@,
{
    let n = b.len();
    let r = crate::bytes::copy_range(b, 0, n);
    proof {
        assert(b@.subrange(0, n as int) =~= b@);
    }
    r
}

/// A copy of an optional byte vector, equal as an optional sequence.
pub fn clone_opt_bytes(o: &Option<Vec<u8>>) -> (r: Option<Vec<u8>>)
    ensures
        opt_view(r) == opt_view(*o),
{
    match o {
        None => None,
        Some(b) => Some(clone_bytes(b)),
    }
}

impl Clone for Extensions {
    fn clone(&self) -> (r: Self)
        ensures
            r@ == self@,
    {
        Extensions { log_id: clone_bytes(&self.log_id), prune_flag: self.prune_flag }
    }
}

/// The ghost image of `Extensions`.
#[verifier::ext_equal]
pub ghost struct ExtensionsView {
    pub log_id: Seq<u8>,
    pub prune_flag: bool,
}

impl View for Extensions {
    type V = ExtensionsView;

    open spec fn view(&self) -> ExtensionsView {
        ExtensionsView { log_id: self.log_id@, prune_flag: self.prune_flag }
    }
}

/// A log entry's header. `signature` is over the header's encoding with
/// the signature field left empty; `backlink` is the hash of the previous
/// header in the same author's log; `previous` holds concatenated 32-byte
/// cross-log dependency hashes (empty in this crate's own use).
#[derive(Debug)]
pub struct Header {
    pub version: u64,
    pub public_key: Vec<u8>,
    pub signature: Option<Vec<u8>>,
    pub payload_hash: Option<Vec<u8>>,
    pub payload_size: u64,
    pub timestamp: u64,
    pub seq_num: u64,
    pub backlink: Option<Vec<u8>>,
    pub previous: Vec<u8>,
    pub extensions: Extensions,
}

/// The ghost image of a `Header`.
#[verifier::ext_equal]
pub ghost struct HeaderView {
    pub version: u64,
    pub public_key: Seq<u8>,
    pub signature: Option<Seq<u8>>,
    pub payload_hash: Option<Seq<u8>>,
    pub payload_size: u64,
    pub timestamp: u64,
    pub seq_num: u64,
    pub backlink: Option<Seq<u8>>,
    pub previous: Seq<u8>,
    pub extensions: ExtensionsView,
}

impl Clone for Header {
    fn clone(&self) -> (r: Self)
        ensures
            r@ == self@,
    {
        Header {
            version: self.version,
            public_key: clone_bytes(&self.public_key),
            signature: clone_opt_bytes(&self.signature),
            payload_hash: clone_opt_bytes(&self.payload_hash),
            payload_size: self.payload_size,
            timestamp: self.timestamp,
            seq_num: self.seq_num,
            backlink: clone_opt_bytes(&self.backlink),
            previous: clone_bytes(&self.previous),
            extensions: self.extensions.clone(),
        }
    }
}

impl View for Header {
    type V = HeaderView;

    open spec fn view(&self) -> HeaderView {
        HeaderView {
            version: self.version,
            public_key: self.public_key@,
            signature: opt_view(self.signature),
            payload_hash: opt_view(self.payload_hash),
            payload_size: self.payload_size,
            timestamp: self.timestamp,
            seq_num: self.seq_num,
            backlink: opt_view(self.backlink),
            previous: self.previous@,
            extensions: self.extensions@,
        }
    }
}

/// Well-formedness of a header: field widths, the pairing of sequence
/// number and backlink, and bounds that keep the encoding's length
/// prefixes exact.
pub open spec fn wf_header(h: HeaderView) -> bool {
    &&& h.public_key.len() == 32
    &&& match h.signature {
        Some(s) => s.len() == 64,
        None => true,
    }
    &&& match h.payload_hash {
        Some(p) => p.len() == 32,
        None => true,
    }
    &&& match h.backlink {
        Some(b) => b.len() == 32,
        None => true,
    }
    &&& (h.seq_num == 0 <==> h.backlink is None)
    &&& h.previous.len() % 32 == 0
    &&& h.previous.len() < pow256(8)
    &&& h.extensions.log_id.len() < pow256(8)
}

/// A tagged optional byte field: a zero byte, or a one byte and the bytes.
pub open spec fn opt_bytes(o: Option<Seq<u8>>) -> Seq<u8> {
    match o {
        None => seq![0u8],
        Some(b) => seq![1u8] + b,
    }
}

/// The deterministic encoding of a header.
pub open spec fn header_bytes(h: HeaderView) -> Seq<u8> {
    be_bytes(h.version as int, 8) + h.public_key + opt_bytes(h.signature) + opt_bytes(
        h.payload_hash,
    ) + be_bytes(h.payload_size as int, 8) + be_bytes(h.timestamp as int, 8) + be_bytes(
        h.seq_num as int,
        8,
    ) + opt_bytes(h.backlink) + be_bytes(h.previous.len() as int, 8) + h.previous + be_bytes(
        h.extensions.log_id.len() as int,
        8,
    ) + h.extensions.log_id + seq![if h.prune() {
        1u8
    } else {
        0u8
    }]
}

impl HeaderView {
    /// The prune flag carried in the extensions.
    pub open spec fn prune(self) -> bool {
        self.extensions.prune_flag
    }

    /// The log identifier carried in the extensions.
    pub open spec fn log_id(self) -> Seq<u8> {
        self.extensions.log_id
    }

    /// This header with its signature field left empty: what is signed.
    pub open spec fn unsigned(self) -> HeaderView {
        HeaderView { signature: None, ..self }
    }

    /// The operation hash: the hash of the signed header's encoding.
    pub open spec fn op_hash(self) -> Seq<u8> {
        hash_of(header_bytes(self))
    }

    /// Whether the signature field verifies under the header's own key
    /// over the unsigned encoding.
    pub open spec fn sig_ok(self) -> bool {
        match self.signature {
            Some(sig) => sig_check(self.public_key, header_bytes(self.unsigned()), sig),
            None => false,
        }
    }
}

/// Parses a `w`-byte big-endian integer at `i`.
pub open spec fn p_be(s: Seq<u8>, i: int, w: int) -> Option<(u64, int)> {
    if 0 <= i && i + w <= s.len() {
        Some((be_int(s.subrange(i, i + w)) as u64, i + w))
    } else {
        None
    }
}

/// Parses a tagged optional field of `n` bytes at `i`.
pub open spec fn p_opt(s: Seq<u8>, i: int, n: int) -> Option<(Option<Seq<u8>>, int)> {
    if 0 <= i < s.len() {
        if s[i] == 0 {
            Some((None, i + 1))
        } else if s[i] == 1 {
            match p_take(s, i + 1, n) {
                Some((b, j)) => Some((Some(b), j)),
                None => None,
            }
        } else {
            None
        }
    } else {
        None
    }
}

/// Parses a length-prefixed byte field at `i`.
pub open spec fn p_var(s: Seq<u8>, i: int) -> Option<(Seq<u8>, int)> {
    match p_be(s, i, 8) {
        Some((n, j)) => p_take(s, j, n as int),
        None => None,
    }
}

/// Parses a header from its deterministic encoding; every byte must be
/// consumed and the result must be well formed.
pub open spec fn parse_header(s: Seq<u8>) -> Option<HeaderView> {
    match p_be(s, 0, 8) {
        None => None,
        Some((version, i1)) => match p_take(s, i1, 32) {
            None => None,
            Some((public_key, i2)) => match p_opt(s, i2, 64) {
                None => None,
                Some((signature, i3)) => match p_opt(s, i3, 32) {
                    None => None,
                    Some((payload_hash, i4)) => match p_be(s, i4, 8) {
                        None => None,
                        Some((payload_size, i5)) => match p_be(s, i5, 8) {
                            None => None,
                            Some((timestamp, i6)) => match p_be(s, i6, 8) {
                                None => None,
                                Some((seq_num, i7)) => match p_opt(s, i7, 32) {
                                    None => None,
                                    Some((backlink, i8r)) => match p_var(s, i8r) {
                                        None => None,
                                        Some((previous, i9)) => match p_var(s, i9) {
                                            None => None,
                                            Some((log_id, i10)) => {
                                                if i10 + 1 == s.len() && (s[i10] == 0 || s[i10]
                                                    == 1) {
                                                    let h = HeaderView {
                                                        version,
                                                        public_key,
                                                        signature,
                                                        payload_hash,
                                                        payload_size,
                                                        timestamp,
                                                        seq_num,
                                                        backlink,
                                                        previous,
                                                        extensions: ExtensionsView {
                                                            log_id,
                                                            prune_flag: s[i10] == 1,
                                                        },
                                                    };
                                                    if wf_header(h) {
                                                        Some(h)
                                                    } else {
                                                        None
                                                    }
                                                } else {
                                                    None
                                                }
                                            },
                                        },
                                    },
                                },
                            },
                        },
                    },
                },
            },
        },
    }
}

/// Appends a tagged optional byte field to `out`.
fn push_opt(out: &mut Vec<u8>, o: &Option<Vec<u8>>)
    ensures
        final(out)@ == old(out)@ + opt_bytes(opt_view(*o)),
{
    match o {
        None => {
            out.push(0);
            proof {
                assert(final(out)@ =~= old(out)@ + opt_bytes(None));
            }
        },
        Some(b) => {
            out.push(1);
            push_bytes(out, b);
            proof {
                assert(final(out)@ =~= old(out)@ + opt_bytes(Some(b@)));
            }
        },
    }
}

/// Encodes a header deterministically.
pub fn encode_header(h: &Header) -> (r: Vec<u8>)
    requires
        wf_header(h@),
    ensures
        r@ == header_bytes(h@),
{
    let mut out: Vec<u8> = Vec::new();
    push_be(&mut out, h.version, 8);
    push_bytes(&mut out, &h.public_key);
    push_opt(&mut out, &h.signature);
    push_opt(&mut out, &h.payload_hash);
    push_be(&mut out, h.payload_size, 8);
    push_be(&mut out, h.timestamp, 8);
    push_be(&mut out, h.seq_num, 8);
    push_opt(&mut out, &h.backlink);
    let plen = h.previous.len();
    push_be(&mut out, plen as u64, 8);
    push_bytes(&mut out, &h.previous);
    let llen = h.extensions.log_id.len();
    push_be(&mut out, llen as u64, 8);
    push_bytes(&mut out, &h.extensions.log_id);
    if h.extensions.prune_flag {
        out.push(1);
    } else {
        out.push(0);
    }
    proof {
        assert(out@ =~= header_bytes(h@));
    }
    out
}

/// Reads a `w`-byte big-endian integer at `i`, following `p_be`.
fn read_u64_at(b: &Vec<u8>, i: usize) -> (r: Option<(u64, usize)>)
    ensures
        match r {
            Some(p) => p_be(b@, i as int, 8) == Some((p.0, p.1 as int)) && p.1 == i + 8 && p.1
                <= b@.len(),
            None => p_be(b@, i as int, 8) is None,
        },
{
    let blen = b.len();
    if blen < 8 || i > blen - 8 {
        return None;
    }
    let v = read_be(b, i, 8);
    proof {
        lemma_be_sound(b@.subrange(i as int, i + 8));
    }
    Some((v, i + 8))
}

/// Reads `n` fixed bytes at `i`, following `p_take`.
fn read_fixed(b: &Vec<u8>, i: usize, n: usize) -> (r: Option<(Vec<u8>, usize)>)
    ensures
        match r {
            Some(p) => p_take(b@, i as int, n as int) == Some((p.0@, p.1 as int)) && p.1 == i + n
                && p.1 <= b@.len(),
            None => p_take(b@, i as int, n as int) is None,
        },
{
    let blen = b.len();
    if i > blen || n > blen - i {
        return None;
    }
    let v = crate::bytes::copy_range(b, i, n);
    Some((v, i + n))
}

/// Reads a tagged optional field of `n` bytes at `i`, following `p_opt`.
fn read_opt(b: &Vec<u8>, i: usize, n: usize) -> (r: Option<(Option<Vec<u8>>, usize)>)
    ensures
        match r {
            Some(p) => p_opt(b@, i as int, n as int) == Some((opt_view(p.0), p.1 as int)) && i
                < p.1 <= b@.len(),
            None => p_opt(b@, i as int, n as int) is None,
        },
{
    let blen = b.len();
    if i >= blen {
        return None;
    }
    let tag = b[i];
    if tag == 0 {
        Some((None, i + 1))
    } else if tag == 1 {
        match read_fixed(b, i + 1, n) {
            Some((v, j)) => Some((Some(v), j)),
            None => None,
        }
    } else {
        None
    }
}

/// Reads a length-prefixed byte field at `i`, following `p_var`.
fn read_var(b: &Vec<u8>, i: usize) -> (r: Option<(Vec<u8>, usize)>)
    ensures
        match r {
            Some(p) => p_var(b@, i as int) == Some((p.0@, p.1 as int)) && i < p.1 <= b@.len(),
            None => p_var(b@, i as int) is None,
        },
{
    let blen = b.len();
    let (n, j) = match read_u64_at(b, i) {
        Some(p) => p,
        None => {
            return None;
        },
    };
    if n > (blen - j) as u64 {
        return None;
    }
    let v = crate::bytes::copy_range(b, j, n as usize);
    Some((v, j + n as usize))
}

/// Checks well-formedness of a header.
pub fn check_wf(h: &Header) -> (r: bool)
    ensures
        r == wf_header(h@),
{
    proof {
        crate::codec::lemma_pow256_value();
    }
    let key_ok = h.public_key.len() == 32;
    let sig_ok = match &h.signature {
        Some(s) => s.len() == 64,
        None => true,
    };
    let hash_ok = match &h.payload_hash {
        Some(p) => p.len() == 32,
        None => true,
    };
    let backlink_ok = match &h.backlink {
        Some(b) => b.len() == 32,
        None => true,
    };
    let chain_ok = (h.seq_num == 0) == h.backlink.is_none();
    let plen = h.previous.len();
    let llen = h.extensions.log_id.len();
    let prev_ok = plen % 32 == 0;
    proof {
        assert(h@.previous.len() < pow256(8));
        assert(h@.extensions.log_id.len() < pow256(8));
    }
    key_ok && sig_ok && hash_ok && backlink_ok && chain_ok && prev_ok
}

/// Decodes a header from its deterministic encoding.
pub fn decode_header(b: &Vec<u8>) -> (r: Option<Header>)
    ensures
        match r {
            Some(h) => parse_header(b@) == Some(h@),
            None => parse_header(b@) is None,
        },
{
    let blen = b.len();
    let (version, i1) = match read_u64_at(b, 0) {
        Some(p) => p,
        None => {
            return None;
        },
    };
    let (public_key, i2) = match read_fixed(b, i1, 32) {
        Some(p) => p,
        None => {
            return None;
        },
    };
    let (signature, i3) = match read_opt(b, i2, 64) {
        Some(p) => p,
        None => {
            return None;
        },
    };
    let (payload_hash, i4) = match read_opt(b, i3, 32) {
        Some(p) => p,
        None => {
            return None;
        },
    };
    let (payload_size, i5) = match read_u64_at(b, i4) {
        Some(p) => p,
        None => {
            return None;
        },
    };
    let (timestamp, i6) = match read_u64_at(b, i5) {
        Some(p) => p,
        None => {
            return None;
        },
    };
    let (seq_num, i7) = match read_u64_at(b, i6) {
        Some(p) => p,
        None => {
            return None;
        },
    };
    let (backlink, i8r) = match read_opt(b, i7, 32) {
        Some(p) => p,
        None => {
            return None;
        },
    };
    let (previous, i9) = match read_var(b, i8r) {
        Some(p) => p,
        None => {
            return None;
        },
    };
    let (log_id, i10) = match read_var(b, i9) {
        Some(p) => p,
        None => {
            return None;
        },
    };
    if !(i10 < blen && i10 + 1 == blen) {
        return None;
    }
    let tag = b[i10];
    if !(tag == 0 || tag == 1) {
        return None;
    }
    let h = Header {
        version,
        public_key,
        signature,
        payload_hash,
        payload_size,
        timestamp,
        seq_num,
        backlink,
        previous,
        extensions: Extensions { log_id, prune_flag: tag == 1 },
    };
    if check_wf(&h) {
        Some(h)
    } else {
        None
    }
}

/// A big-endian field laid down at `i` parses back to its value.
proof fn lemma_p_be_at(s: Seq<u8>, i: int, v: u64)
    requires
        0 <= i,
        i + 8 <= s.len(),
        s.subrange(i, i + 8) == be_bytes(v as int, 8),
    ensures
        p_be(s, i, 8) == Some((v, i + 8)),
{
    crate::codec::lemma_pow256_value();
    lemma_be_round_trip(v as int, 8);
}

/// An optional field laid down at `i` parses back to its value.
proof fn lemma_p_opt_at(s: Seq<u8>, i: int, o: Option<Seq<u8>>, n: int)
    requires
        0 <= i,
        n >= 0,
        match o {
            Some(b) => b.len() == n,
            None => true,
        },
        i + opt_bytes(o).len() <= s.len(),
        s.subrange(i, i + opt_bytes(o).len()) == opt_bytes(o),
    ensures
        p_opt(s, i, n) == Some((o, i + opt_bytes(o).len())),
{
    let seg = s.subrange(i, i + opt_bytes(o).len());
    assert(s[i] == seg[0]);
    match o {
        None => {},
        Some(b) => {
            assert(s[i] == 1);
            assert(s.subrange(i + 1, i + 1 + n) =~= b) by {
                assert(forall|k: int|
                    0 <= k < n ==> s.subrange(i + 1, i + 1 + n)[k] == seg[1 + k] && seg[1 + k]
                        == b[k]);
            }
        },
    }
}

/// A length-prefixed field laid down at `i` parses back to its value.
proof fn lemma_p_var_at(s: Seq<u8>, i: int, b: Seq<u8>)
    requires
        0 <= i,
        b.len() < pow256(8),
        i + 8 + b.len() <= s.len(),
        s.subrange(i, i + 8 + b.len()) == be_bytes(b.len() as int, 8) + b,
    ensures
        p_var(s, i) == Some((b, i + 8 + b.len())),
{
    let seg = s.subrange(i, i + 8 + b.len());
    lemma_be_bytes_len(b.len() as int, 8);
    assert(s.subrange(i, i + 8) =~= be_bytes(b.len() as int, 8)) by {
        assert(forall|k: int|
            0 <= k < 8 ==> s.subrange(i, i + 8)[k] == seg[k] && seg[k] == be_bytes(
                b.len() as int,
                8,
            )[k]);
    }
    crate::codec::lemma_pow256_value();
    lemma_be_round_trip(b.len() as int, 8);
    assert(s.subrange(i + 8, i + 8 + b.len()) =~= b) by {
        assert(forall|k: int|
            0 <= k < b.len() ==> s.subrange(i + 8, i + 8 + b.len())[k] == seg[8 + k] && seg[8 + k]
                == b[k]);
    }
}

/// Splits a known prefix of `e` into its two parts.
proof fn lemma_peel(e: Seq<u8>, pre: Seq<u8>, seg: Seq<u8>, l: int)
    requires
        0 <= l <= e.len(),
        l == pre.len() + seg.len(),
        e.subrange(0, l) == pre + seg,
    ensures
        e.subrange(0, pre.len() as int) == pre,
        e.subrange(pre.len() as int, l) == seg,
{
    assert(e.subrange(0, pre.len() as int) =~= pre) by {
        assert(forall|j: int|
            0 <= j < pre.len() ==> e.subrange(0, pre.len() as int)[j] == (pre + seg)[j]);
    }
    assert(e.subrange(pre.len() as int, l) =~= seg) by {
        assert(forall|j: int|
            0 <= j < seg.len() ==> e.subrange(pre.len() as int, l)[j] == (pre + seg)[pre.len()
                + j]);
    }
}

/// Joins two adjacent known subranges of `e` into one.
proof fn lemma_join(e: Seq<u8>, x: Seq<u8>, y: Seq<u8>, i: int, m: int, j: int)
    requires
        0 <= i <= m <= j <= e.len(),
        e.subrange(i, m) == x,
        e.subrange(m, j) == y,
    ensures
        e.subrange(i, j) == x + y,
{
    assert(e.subrange(i, j) =~= x + y) by {
        assert(forall|k: int| 0 <= k < m - i ==> e.subrange(i, j)[k] == x[k]);
        assert(forall|k: int| m - i <= k < j - i ==> e.subrange(i, j)[k] == y[k - (m - i)]);
    }
}

/// Decoding an encoded header gives back the header.
#[verifier::rlimit(100)]
pub proof fn lemma_header_round_trip(h: HeaderView)
    requires
        wf_header(h),
    ensures
        parse_header(header_bytes(h)) == Some(h),
{
    crate::codec::lemma_pow256_value();
    let e = header_bytes(h);
    let s1 = be_bytes(h.version as int, 8);
    let s2 = h.public_key;
    let s3 = opt_bytes(h.signature);
    let s4 = opt_bytes(h.payload_hash);
    let s5 = be_bytes(h.payload_size as int, 8);
    let s6 = be_bytes(h.timestamp as int, 8);
    let s7 = be_bytes(h.seq_num as int, 8);
    let s8 = opt_bytes(h.backlink);
    let s9 = be_bytes(h.previous.len() as int, 8);
    let s10 = h.previous;
    let s11 = be_bytes(h.extensions.log_id.len() as int, 8);
    let s12 = h.extensions.log_id;
    let s13 = seq![if h.prune() {
        1u8
    } else {
        0u8
    }];
    lemma_be_bytes_len(h.version as int, 8);
    lemma_be_bytes_len(h.payload_size as int, 8);
    lemma_be_bytes_len(h.timestamp as int, 8);
    lemma_be_bytes_len(h.seq_num as int, 8);
    lemma_be_bytes_len(h.previous.len() as int, 8);
    lemma_be_bytes_len(h.extensions.log_id.len() as int, 8);
    let a1 = s1;
    let a2 = a1 + s2;
    let a3 = a2 + s3;
    let a4 = a3 + s4;
    let a5 = a4 + s5;
    let a6 = a5 + s6;
    let a7 = a6 + s7;
    let a8 = a7 + s8;
    let a9 = a8 + s9;
    let a10 = a9 + s10;
    let a11 = a10 + s11;
    let a12 = a11 + s12;
    assert(e == a12 + s13);
    let o1 = a1.len() as int;
    let o2 = a2.len() as int;
    let o3 = a3.len() as int;
    let o4 = a4.len() as int;
    let o5 = a5.len() as int;
    let o6 = a6.len() as int;
    let o7 = a7.len() as int;
    let o8 = a8.len() as int;
    let o9 = a9.len() as int;
    let o10 = a10.len() as int;
    let o11 = a11.len() as int;
    let o12 = a12.len() as int;
    assert(e.subrange(0, e.len() as int) =~= e);
    lemma_peel(e, a12, s13, e.len() as int);
    lemma_peel(e, a11, s12, o12);
    lemma_peel(e, a10, s11, o11);
    lemma_peel(e, a9, s10, o10);
    lemma_peel(e, a8, s9, o9);
    lemma_peel(e, a7, s8, o8);
    lemma_peel(e, a6, s7, o7);
    lemma_peel(e, a5, s6, o6);
    lemma_peel(e, a4, s5, o5);
    lemma_peel(e, a3, s4, o4);
    lemma_peel(e, a2, s3, o3);
    lemma_peel(e, a1, s2, o2);
    lemma_join(e, s9, s10, o8, o9, o10);
    lemma_join(e, s11, s12, o10, o11, o12);
    lemma_p_be_at(e, 0, h.version);
    assert(p_take(e, o1, 32) == Some((h.public_key, o2)));
    lemma_p_opt_at(e, o2, h.signature, 64);
    lemma_p_opt_at(e, o3, h.payload_hash, 32);
    lemma_p_be_at(e, o4, h.payload_size);
    lemma_p_be_at(e, o5, h.timestamp);
    lemma_p_be_at(e, o6, h.seq_num);
    lemma_p_opt_at(e, o7, h.backlink, 32);
    lemma_p_var_at(e, o8, h.previous);
    lemma_p_var_at(e, o10, h.extensions.log_id);
    assert(e[o12] == s13[0]);
    assert(o12 + 1 == e.len());
    let hp = HeaderView {
        version: h.version,
        public_key: e.subrange(o1, o2),
        signature: h.signature,
        payload_hash: h.payload_hash,
        payload_size: h.payload_size,
        timestamp: h.timestamp,
        seq_num: h.seq_num,
        backlink: h.backlink,
        previous: h.previous,
        extensions: ExtensionsView {
            log_id: h.extensions.log_id,
            prune_flag: e[o12] == 1,
        },
    };
    assert(hp =~= h);
    assert(parse_header(e) == Some(hp));
}

/// A parsed header is well formed, and the bytes are its encoding.
#[verifier::rlimit(100)]
pub proof fn lemma_header_sound(s: Seq<u8>)
    requires
        parse_header(s) is Some,
    ensures
        ({
            let h = parse_header(s)->Some_0;
            wf_header(h) && s == header_bytes(h)
        }),
{
    crate::codec::lemma_pow256_value();
    let h = parse_header(s)->Some_0;
    let (version, o1) = p_be(s, 0, 8)->Some_0;
    let (public_key, o2) = p_take(s, o1, 32)->Some_0;
    let (signature, o3) = p_opt(s, o2, 64)->Some_0;
    let (payload_hash, o4) = p_opt(s, o3, 32)->Some_0;
    let (payload_size, o5) = p_be(s, o4, 8)->Some_0;
    let (timestamp, o6) = p_be(s, o5, 8)->Some_0;
    let (seq_num, o7) = p_be(s, o6, 8)->Some_0;
    let (backlink, o8) = p_opt(s, o7, 32)->Some_0;
    let (previous, o9) = p_var(s, o8)->Some_0;
    let (log_id, o10) = p_var(s, o9)->Some_0;
    lemma_p_be_sound(s, 0);
    lemma_p_opt_sound(s, o2, 64);
    lemma_p_opt_sound(s, o3, 32);
    lemma_p_be_sound(s, o4);
    lemma_p_be_sound(s, o5);
    lemma_p_be_sound(s, o6);
    lemma_p_opt_sound(s, o7, 32);
    lemma_p_var_sound(s, o8);
    lemma_p_var_sound(s, o9);
    let s1 = be_bytes(h.version as int, 8);
    let s2 = h.public_key;
    let s3 = opt_bytes(h.signature);
    let s4 = opt_bytes(h.payload_hash);
    let s5 = be_bytes(h.payload_size as int, 8);
    let s6 = be_bytes(h.timestamp as int, 8);
    let s7 = be_bytes(h.seq_num as int, 8);
    let s8 = opt_bytes(h.backlink);
    let s9 = be_bytes(h.previous.len() as int, 8);
    let s10 = h.previous;
    let s11 = be_bytes(h.extensions.log_id.len() as int, 8);
    let s12 = h.extensions.log_id;
    let s13 = seq![if h.prune() {
        1u8
    } else {
        0u8
    }];
    assert(s.subrange(0, o1) == s1);
    assert(s.subrange(o1, o2) =~= s2);
    lemma_join(s, s1, s2, 0, o1, o2);
    lemma_join(s, s1 + s2, s3, 0, o2, o3);
    lemma_join(s, s1 + s2 + s3, s4, 0, o3, o4);
    lemma_join(s, s1 + s2 + s3 + s4, s5, 0, o4, o5);
    lemma_join(s, s1 + s2 + s3 + s4 + s5, s6, 0, o5, o6);
    lemma_join(s, s1 + s2 + s3 + s4 + s5 + s6, s7, 0, o6, o7);
    lemma_join(s, s1 + s2 + s3 + s4 + s5 + s6 + s7, s8, 0, o7, o8);
    lemma_join(s, s1 + s2 + s3 + s4 + s5 + s6 + s7 + s8, s9 + s10, 0, o8, o9);
    assert(s.subrange(0, o9) =~= s1 + s2 + s3 + s4 + s5 + s6 + s7 + s8 + s9 + s10);
    lemma_join(s, s1 + s2 + s3 + s4 + s5 + s6 + s7 + s8 + s9 + s10, s11 + s12, 0, o9, o10);
    assert(s.subrange(0, o10) =~= s1 + s2 + s3 + s4 + s5 + s6 + s7 + s8 + s9 + s10 + s11 + s12);
    assert(s.subrange(o10, o10 + 1) =~= s13) by {
        assert(s[o10] == if h.prune() {
            1u8
        } else {
            0u8
        });
    }
    lemma_join(
        s,
        s1 + s2 + s3 + s4 + s5 + s6 + s7 + s8 + s9 + s10 + s11 + s12,
        s13,
        0,
        o10,
        o10 + 1,
    );
    assert(s.subrange(0, o10 + 1) =~= s);
    assert(s == header_bytes(h));
}


/// What a successful `p_be` step says of the bytes it consumed.
proof fn lemma_p_be_sound(s: Seq<u8>, i: int)
    requires
        p_be(s, i, 8) is Some,
    ensures
        ({
            let (v, j) = p_be(s, i, 8)->Some_0;
            &&& j == i + 8
            &&& s.subrange(i, j) == be_bytes(v as int, 8)
        }),
{
    let (v, j) = p_be(s, i, 8)->Some_0;
    lemma_be_sound(s.subrange(i, i + 8));
    crate::codec::lemma_pow256_value();
}

/// What a successful `p_opt` step says of the bytes it consumed.
proof fn lemma_p_opt_sound(s: Seq<u8>, i: int, n: int)
    requires
        n >= 0,
        p_opt(s, i, n) is Some,
    ensures
        ({
            let (o, j) = p_opt(s, i, n)->Some_0;
            &&& j == i + opt_bytes(o).len()
            &&& s.subrange(i, j) == opt_bytes(o)
            &&& match o {
                Some(b) => b.len() == n,
                None => true,
            }
        }),
{
    let (o, j) = p_opt(s, i, n)->Some_0;
    match o {
        None => {
            assert(s.subrange(i, i + 1) =~= opt_bytes(o));
        },
        Some(b) => {
            assert(s.subrange(i, j) =~= opt_bytes(o));
        },
    }
}

/// What a successful `p_var` step says of the bytes it consumed.
proof fn lemma_p_var_sound(s: Seq<u8>, i: int)
    requires
        p_var(s, i) is Some,
    ensures
        ({
            let (b, j) = p_var(s, i)->Some_0;
            &&& j == i + 8 + b.len()
            &&& b.len() < pow256(8)
            &&& s.subrange(i, j) == be_bytes(b.len() as int, 8) + b
        }),
{
    let (b, j) = p_var(s, i)->Some_0;
    lemma_p_be_sound(s, i);
    let (n, m) = p_be(s, i, 8)->Some_0;
    lemma_be_sound(s.subrange(i, i + 8));
    crate::codec::lemma_pow256_value();
    lemma_be_bytes_len(b.len() as int, 8);
    assert(b.len() == n);
    assert(s.subrange(i, j) =~= be_bytes(b.len() as int, 8) + b);
}

} // verus!
