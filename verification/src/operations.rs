//! Operations: a signed header, its content hash, and an optional body;
//! and the construction of the next header of an author's log.

use crate::bytes::{bytes_eq, opt_view, pow256};
use crate::codec::{decode_envelope, encode_envelope, envelope_bytes, parse_envelope, DecodeError};
use crate::crypto::{
    derive_public_key, hash_bytes, hash_of, hex_encode, hex_of, pk_of, sig_check, sign_bytes,
    sign_of, verify_bytes,
};
use crate::header::{
    clone_bytes, clone_opt_bytes, encode_header, header_bytes, wf_header, Extensions, Header,
    HeaderView,
};
use vstd::prelude::*;

verus! {

/// A validated log entry: the hash of the signed header, the header, and
/// the body when the payload travels with it. Identity is `hash`.
#[derive(Debug)]
pub struct Operation {
    pub hash: Vec<u8>,
    pub header: Header,
    pub body: Option<Vec<u8>>,
}

/// The ghost image of an `Operation`.
#[verifier::ext_equal]
pub ghost struct OperationView {
    pub hash: Seq<u8>,
    pub header: HeaderView,
    pub body: Option<Seq<u8>>,
}

impl View for Operation {
    type V = OperationView;

    open spec fn view(&self) -> OperationView {
        OperationView { hash: self.hash@, header: self.header@, body: opt_view(self.body) }
    }
}

impl Clone for Operation {
    fn clone(&self) -> (r: Self)
        ensures
            r@ == self@,
    {
        let r = Operation {
            hash: clone_bytes(&self.hash),
            header: self.header.clone(),
            body: clone_opt_bytes(&self.body),
        };
        proof {
            assert(r@ =~= self@);
        }
        r
    }
}

/// Whether the header's payload fields match the body: hash and size of
/// the body when one is present, no hash and size zero when none is.
pub open spec fn payload_matches(h: HeaderView, body: Option<Seq<u8>>) -> bool {
    match body {
        Some(b) => h.payload_hash == Some(hash_of(b)) && h.payload_size == b.len(),
        None => h.payload_hash is None && h.payload_size == 0,
    }
}

/// A fully valid operation: well-formed header, correct content hash,
/// verifying signature, and payload fields matching the body.
pub open spec fn wf_operation(op: OperationView) -> bool {
    &&& wf_header(op.header)
    &&& op.hash == op.header.op_hash()
    &&& op.header.sig_ok()
    &&& payload_matches(op.header, op.body)
}

/// The operation hash of a header: the hash of its signed encoding.
pub fn op_hash(header: &Header) -> (r: Vec<u8>)
    requires
        wf_header(header@),
    ensures
        r@ == header@.op_hash(),
        r@.len() == 32,
{
    let e = encode_header(header);
    hash_bytes(&e)
}

/// Checks the header's signature over its unsigned encoding, under the
/// public key the header itself carries.
pub fn verify_header_signature(header: &Header) -> (r: bool)
    requires
        wf_header(header@),
    ensures
        r == header@.sig_ok(),
{
    match &header.signature {
        None => false,
        Some(sig) => {
            let mut unsigned = header.clone();
            unsigned.signature = None;
            proof {
                assert(unsigned@ =~= header@.unsigned());
            }
            let msg = encode_header(&unsigned);
            verify_bytes(&header.public_key, &msg, sig)
        },
    }
}

/// Checks that the header's payload fields match the body.
pub fn check_payload(header: &Header, body: &Option<Vec<u8>>) -> (r: bool)
    ensures
        r == payload_matches(header@, opt_view(*body)),
{
    match body {
        Some(b) => {
            match &header.payload_hash {
                Some(ph) => {
                    let hb = hash_bytes(b);
                    let len_ok = header.payload_size == b.len() as u64;
                    bytes_eq(&hb, ph) && len_ok
                },
                None => false,
            }
        },
        None => header.payload_hash.is_none() && header.payload_size == 0,
    }
}

/// Builds an operation from a header and body, computing its hash.
pub fn make_operation(header: Header, body: Option<Vec<u8>>) -> (r: Operation)
    requires
        wf_header(header@),
    ensures
        r.header == header,
        r.body == body,
        r@.hash == header@.op_hash(),
{
    let hash = op_hash(&header);
    Operation { hash, header, body }
}

/// Constructs the next signed header of the author's log: sequence number
/// zero and no backlink on an empty log, otherwise one past the latest
/// header, backlinked to its hash. Payload fields are computed from the
/// body; the header is signed over its unsigned encoding.
pub fn create_header(
    latest: Option<&Header>,
    log_id: &Vec<u8>,
    signing_key: &Vec<u8>,
    body: &Option<Vec<u8>>,
    prune_flag: bool,
    timestamp: u64,
) -> (r: Header)
    requires
        signing_key@.len() == 32,
        match latest {
            Some(p) => wf_header(p@) && p@.seq_num < u64::MAX,
            None => true,
        },
    ensures
        wf_header(r@),
        r@.sig_ok(),
        r@.version == 1,
        r@.public_key == pk_of(signing_key@),
        r@.timestamp == timestamp,
        r@.previous.len() == 0,
        r@.extensions.log_id == log_id@,
        r@.extensions.prune_flag == prune_flag,
        payload_matches(r@, opt_view(*body)),
        match latest {
            Some(p) => r@.seq_num == p@.seq_num + 1 && r@.backlink == Some(p@.op_hash()),
            None => r@.seq_num == 0 && r@.backlink is None,
        },
        r@.signature == Some(sign_of(signing_key@, header_bytes(r@.unsigned()))),
{
    proof {
        crate::codec::lemma_pow256_value();
    }
    let public_key = derive_public_key(signing_key);
    let (seq_num, backlink): (u64, Option<Vec<u8>>) = match latest {
        Some(prev) => (prev.seq_num + 1, Some(op_hash(prev))),
        None => (0u64, None),
    };
    let (payload_hash, payload_size): (Option<Vec<u8>>, u64) = match body {
        Some(b) => (Some(hash_bytes(b)), b.len() as u64),
        None => (None, 0u64),
    };
    let log_id_len = log_id.len();
    let mut header = Header {
        version: 1,
        public_key,
        signature: None,
        payload_hash,
        payload_size,
        timestamp,
        seq_num,
        backlink,
        previous: Vec::new(),
        extensions: Extensions { log_id: clone_bytes(log_id), prune_flag },
    };
    let msg = encode_header(&header);
    let sig = sign_bytes(signing_key, &msg);
    let ghost before = header@;
    header.signature = Some(sig);
    proof {
        assert(header@.unsigned() =~= before);
    }
    header
}

/// Details of an operation prepared for a human-readable log line.
#[derive(Debug)]
pub struct OperationDetails {
    pub hash: String,
    pub public_key: String,
    pub timestamp: u64,
    pub seq_num: u64,
}

/// Renders an operation's identifying fields as hex strings and numbers.
pub fn prepare_for_logging(operation: Operation) -> (r: OperationDetails)
    ensures
        r.hash@ == hex_of(operation.hash@),
        r.public_key@ == hex_of(operation.header.public_key@),
        r.timestamp == operation.header.timestamp,
        r.seq_num == operation.header.seq_num,
{
    OperationDetails {
        hash: hex_encode(&operation.hash),
        public_key: hex_encode(&operation.header.public_key),
        timestamp: operation.header.timestamp,
        seq_num: operation.header.seq_num,
    }
}

/// Encodes a header and optional body into the wire envelope.
pub fn encode_gossip_message(header: &Header, body: Option<&Vec<u8>>) -> (r: Vec<u8>)
    requires
        wf_header(header@),
    ensures
        r@ == envelope_bytes(
            header_bytes(header@),
            match body {
                Some(b) => Some(b@),
                None => None,
            },
        ),
{
    let hb = encode_header(header);
    encode_envelope(&hb, body)
}

/// Decodes the wire envelope into raw header bytes and optional raw body
/// bytes, without semantic validation.
pub fn decode_gossip_message(bytes: &Vec<u8>) -> (r: Result<
    (Vec<u8>, Option<Vec<u8>>),
    DecodeError,
>)
    ensures
        match r {
            Ok(p) => parse_envelope(bytes@) == Some((p.0@, opt_view(p.1))),
            Err(_) => parse_envelope(bytes@) is None,
        },
{
    decode_envelope(bytes)
}

} // verus!
