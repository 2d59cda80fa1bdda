use log_replication::crypto::{
    derive_public_key, generate_signing_key, hash_bytes, hex_decode, hex_encode, sign_bytes,
    verify_bytes,
};
use log_replication::header::{decode_header, encode_header};
use log_replication::ingest::{IngestOutcome, IngestionPipeline, RejectReason};
use log_replication::operations::{encode_gossip_message, prepare_for_logging};
use log_replication::router::{EventRouter, RouterEvent};
use log_replication::store::{InsertOutcome, LogStore, StoreError};
use log_replication::topic::{AuthorLogMap, SiteManagerTopic};

fn new_author() -> (Vec<u8>, Vec<u8>) {
    let sk = generate_signing_key();
    let pk = derive_public_key(&sk);
    (sk, pk)
}

fn log_id() -> Vec<u8> {
    b"site_management".to_vec()
}

/// Publishes `payloads` in order and returns the encoded envelopes plus
/// the bodies.
fn published_envelopes(
    store: &mut LogStore,
    sk: &Vec<u8>,
    payloads: &[&[u8]],
) -> Vec<(Vec<u8>, Vec<u8>)> {
    let pk = derive_public_key(sk);
    let lid = log_id();
    let mut out = Vec::new();
    for (i, p) in payloads.iter().enumerate() {
        let body = p.to_vec();
        store
            .publish(&lid, sk, Some(body.clone()), false, 1000 + i as u64)
            .unwrap();
        let n = store.log_len(&pk, &lid);
        let op = store.op_at(&pk, &lid, n - 1);
        let bytes = encode_gossip_message(&op.header, Some(&body));
        out.push((bytes, body));
    }
    out
}

#[test]
fn publish_chain_shape() {
    // After N publishes the stored headers carry sequence numbers
    // 0..N-1, the first has no backlink, and each later one backlinks to
    // the stored hash of its predecessor.
    let (sk, pk) = new_author();
    let lid = log_id();
    let mut store = LogStore::new();
    for i in 0..3u64 {
        let h = store
            .publish(&lid, &sk, Some(vec![i as u8]), false, 100 + i)
            .unwrap();
        assert_eq!(h.len(), 32);
    }
    let ops = store.get_range(&pk, &lid, 0, 3);
    assert_eq!(ops.len(), 3);
    for (i, op) in ops.iter().enumerate() {
        assert_eq!(op.header.seq_num, i as u64);
        if i == 0 {
            assert!(op.header.backlink.is_none());
        } else {
            assert_eq!(op.header.backlink.as_ref().unwrap(), &ops[i - 1].hash);
        }
    }
    let latest = store.latest_operation(&pk, &lid).unwrap();
    assert_eq!(latest.header.seq_num, 2);
}

#[test]
fn envelope_round_trip_with_body() {
    let header_bytes = vec![9u8; 40];
    let body = vec![7u8; 3];
    let bytes = log_replication::codec::encode_envelope(&header_bytes, Some(&body));
    let (h, b) = log_replication::codec::decode_envelope(&bytes).unwrap();
    assert_eq!(h, header_bytes);
    assert_eq!(b.unwrap(), body);
}

#[test]
fn envelope_round_trip_without_body() {
    let header_bytes = vec![1u8, 2, 3];
    let bytes = log_replication::codec::encode_envelope(&header_bytes, None);
    let (h, b) = log_replication::codec::decode_envelope(&bytes).unwrap();
    assert_eq!(h, header_bytes);
    assert!(b.is_none());
}

#[test]
fn envelope_exact_bytes() {
    // Array-of-two marker, short byte strings with one-byte prefixes,
    // null marker for a missing body.
    let bytes = log_replication::codec::encode_envelope(&vec![1, 2, 3], Some(&vec![4, 5]));
    assert_eq!(bytes, vec![0x82, 0x43, 1, 2, 3, 0x42, 4, 5]);
    let bytes = log_replication::codec::encode_envelope(&vec![1], None);
    assert_eq!(bytes, vec![0x82, 0x41, 1, 0xf6]);
    // A 300-byte field takes the two-byte length form.
    let big = vec![0u8; 300];
    let bytes = log_replication::codec::encode_envelope(&big, None);
    assert_eq!(&bytes[0..4], &[0x82, 0x59, 0x01, 0x2c]);
}

#[test]
fn envelope_decode_rejects_garbage() {
    assert!(log_replication::codec::decode_envelope(&vec![]).is_err());
    assert!(log_replication::codec::decode_envelope(&vec![0x82]).is_err());
    assert!(log_replication::codec::decode_envelope(&vec![0x81, 0x41, 1, 0xf6]).is_err());
    // trailing bytes are refused
    assert!(log_replication::codec::decode_envelope(&vec![0x82, 0x41, 1, 0xf6, 0]).is_err());
    // non-minimal length form is refused
    assert!(log_replication::codec::decode_envelope(&vec![0x82, 0x58, 1, 1, 0xf6]).is_err());
}

#[test]
fn header_codec_round_trip() {
    let (sk, _pk) = new_author();
    let body = Some(b"hello".to_vec());
    let header = log_replication::operations::create_header(
        None,
        &log_id(),
        &sk,
        &body,
        true,
        12345,
    );
    let bytes = encode_header(&header);
    let back = decode_header(&bytes).unwrap();
    assert_eq!(back.version, header.version);
    assert_eq!(back.public_key, header.public_key);
    assert_eq!(back.signature, header.signature);
    assert_eq!(back.payload_hash, header.payload_hash);
    assert_eq!(back.payload_size, 5);
    assert_eq!(back.timestamp, 12345);
    assert_eq!(back.seq_num, 0);
    assert_eq!(back.extensions.log_id, log_id());
    assert!(back.extensions.prune_flag);
    assert!(decode_header(&vec![1, 2, 3]).is_none());
}

#[test]
fn insert_is_idempotent() {
    // Inserting the same operation twice leaves the store as one insert
    // left it, and reports the duplicate without error.
    let (sk, pk) = new_author();
    let lid = log_id();
    let mut store = LogStore::new();
    let body = Some(b"x".to_vec());
    let header = log_replication::operations::create_header(None, &lid, &sk, &body, false, 7);
    let r = store.insert(header.clone(), body.clone());
    assert_eq!(r.unwrap(), InsertOutcome::Inserted);
    let r = store.insert(header, body);
    assert_eq!(r.unwrap(), InsertOutcome::Duplicate);
    assert_eq!(store.log_len(&pk, &lid), 1);
}

#[test]
fn insert_rejects_out_of_order_and_fork() {
    let (sk, pk) = new_author();
    let lid = log_id();
    let mut store = LogStore::new();
    let b0 = Some(b"a0".to_vec());
    let h0 = log_replication::operations::create_header(None, &lid, &sk, &b0, false, 1);
    store.insert(h0.clone(), b0.clone()).unwrap();

    // a successor built on a different history: same author, same log,
    // same sequence number, other backlink
    let mut other = LogStore::new();
    let ob = Some(b"other".to_vec());
    let oh = log_replication::operations::create_header(None, &lid, &sk, &ob, false, 1);
    other.insert(oh.clone(), ob.clone()).unwrap();
    let fork_body = Some(b"a1".to_vec());
    let fork = log_replication::operations::create_header(
        Some(&oh),
        &lid,
        &sk,
        &fork_body,
        false,
        2,
    );
    let r = store.insert(fork, fork_body);
    assert_eq!(r.unwrap_err(), StoreError::BacklinkMismatch);
    assert_eq!(store.log_len(&pk, &lid), 1);

    // a validly signed successor arriving before its predecessor is out
    // of order
    let mut empty = LogStore::new();
    let late_body = Some(b"late".to_vec());
    let late = log_replication::operations::create_header(
        Some(&h0),
        &lid,
        &sk,
        &late_body,
        false,
        3,
    );
    let r = empty.insert(late, late_body);
    assert_eq!(r.unwrap_err(), StoreError::OutOfOrder);
}

#[test]
fn pipeline_reversed_delivery_completes() {
    // Author A publishes "a0" and "a1"; peer B receives them reversed.
    // The successor waits in the retry buffer and both complete once the
    // predecessor arrives; B's log then matches A's.
    let (sk, pk) = new_author();
    let lid = log_id();
    let mut a_store = LogStore::new();
    let envs = published_envelopes(&mut a_store, &sk, &[b"a0", b"a1"]);

    let topic = SiteManagerTopic::new("site_management");
    let mut b_store = LogStore::new();
    let mut topics = AuthorLogMap::new();
    let mut router: EventRouter<RouterEvent> = EventRouter::new();
    router.subscribe();
    let mut pipeline = IngestionPipeline::new(128);

    let r = pipeline.ingest(&mut b_store, &mut topics, &mut router, &topic, &envs[1].0);
    assert_eq!(r, IngestOutcome::Retry);
    assert_eq!(b_store.log_len(&pk, &lid), 0);

    let r = pipeline.ingest(&mut b_store, &mut topics, &mut router, &topic, &envs[0].0);
    assert_eq!(r, IngestOutcome::Complete);
    assert_eq!(b_store.log_len(&pk, &lid), 2);

    let a_latest = a_store.latest_operation(&pk, &lid).unwrap();
    let b_latest = b_store.latest_operation(&pk, &lid).unwrap();
    assert_eq!(a_latest.hash, b_latest.hash);
    assert_eq!(b_latest.header.seq_num, 1);

    // both operations were fanned out, in log order
    let events = router.take_events();
    let hashes: Vec<Vec<u8>> = events
        .iter()
        .filter_map(|e| match e {
            RouterEvent::Operation(op) => Some(op.hash.clone()),
            _ => None,
        })
        .collect();
    assert_eq!(hashes.len(), 2);
    assert_eq!(hashes[1], b_latest.hash);
}

#[test]
fn pipeline_duplicate_delivery() {
    let (sk, pk) = new_author();
    let lid = log_id();
    let mut a_store = LogStore::new();
    let envs = published_envelopes(&mut a_store, &sk, &[b"a0"]);

    let topic = SiteManagerTopic::new("site_management");
    let mut b_store = LogStore::new();
    let mut topics = AuthorLogMap::new();
    let mut router: EventRouter<RouterEvent> = EventRouter::new();
    let mut pipeline = IngestionPipeline::new(8);

    let r = pipeline.ingest(&mut b_store, &mut topics, &mut router, &topic, &envs[0].0);
    assert_eq!(r, IngestOutcome::Complete);
    let r = pipeline.ingest(&mut b_store, &mut topics, &mut router, &topic, &envs[0].0);
    assert_eq!(r, IngestOutcome::Duplicate);
    assert_eq!(b_store.log_len(&pk, &lid), 1);
}

#[test]
fn pipeline_fork_is_rejected_and_log_untouched() {
    // An inbound operation whose backlink does not match the stored
    // predecessor is reported as a fork and the log is not mutated.
    let (sk, pk) = new_author();
    let lid = log_id();
    let mut a_store = LogStore::new();
    let envs = published_envelopes(&mut a_store, &sk, &[b"a0"]);

    // the same author's alternative history
    let mut c_store = LogStore::new();
    let alt = published_envelopes(&mut c_store, &sk, &[b"other", b"a1"]);

    let topic = SiteManagerTopic::new("site_management");
    let mut b_store = LogStore::new();
    let mut topics = AuthorLogMap::new();
    let mut router: EventRouter<RouterEvent> = EventRouter::new();
    router.subscribe();
    let mut pipeline = IngestionPipeline::new(8);

    let r = pipeline.ingest(&mut b_store, &mut topics, &mut router, &topic, &envs[0].0);
    assert_eq!(r, IngestOutcome::Complete);
    let r = pipeline.ingest(&mut b_store, &mut topics, &mut router, &topic, &alt[1].0);
    assert_eq!(r, IngestOutcome::Rejected(RejectReason::ForkDetected));
    assert_eq!(b_store.log_len(&pk, &lid), 1);
    let events = router.take_events();
    assert!(events.iter().any(|e| matches!(
        e,
        RouterEvent::ForkDetected { seq_num: 1, .. }
    )));
}

#[test]
fn pipeline_rejects_garbage_and_bad_signature() {
    let (sk, _pk) = new_author();
    let mut a_store = LogStore::new();
    let envs = published_envelopes(&mut a_store, &sk, &[b"a0"]);

    let topic = SiteManagerTopic::new("site_management");
    let mut b_store = LogStore::new();
    let mut topics = AuthorLogMap::new();
    let mut router: EventRouter<RouterEvent> = EventRouter::new();
    let mut pipeline = IngestionPipeline::new(8);

    let r = pipeline.ingest(&mut b_store, &mut topics, &mut router, &topic, &vec![1, 2, 3]);
    assert_eq!(r, IngestOutcome::Rejected(RejectReason::DecodeError));

    // flip one signature byte inside the envelope
    let mut tampered = envs[0].0.clone();
    let k = 50;
    tampered[k] ^= 0xff;
    let r = pipeline.ingest(&mut b_store, &mut topics, &mut router, &topic, &tampered);
    assert_eq!(r, IngestOutcome::Rejected(RejectReason::BadSignature));
}

#[test]
fn pipeline_orphan_when_buffer_full() {
    let (sk, _pk) = new_author();
    let mut a_store = LogStore::new();
    let envs = published_envelopes(&mut a_store, &sk, &[b"a0", b"a1", b"a2"]);

    let topic = SiteManagerTopic::new("site_management");
    let mut b_store = LogStore::new();
    let mut topics = AuthorLogMap::new();
    let mut router: EventRouter<RouterEvent> = EventRouter::new();
    let mut pipeline = IngestionPipeline::new(1);

    let r = pipeline.ingest(&mut b_store, &mut topics, &mut router, &topic, &envs[2].0);
    assert_eq!(r, IngestOutcome::Retry);
    let r = pipeline.ingest(&mut b_store, &mut topics, &mut router, &topic, &envs[1].0);
    assert_eq!(r, IngestOutcome::Rejected(RejectReason::Orphan));
}

#[test]
fn topic_map_lists_author_after_publish() {
    // After author A publishes once under a topic, the lookup the sync
    // layer consults maps A to A's log.
    let (sk, pk) = new_author();
    let lid = log_id();
    let mut a_store = LogStore::new();
    let envs = published_envelopes(&mut a_store, &sk, &[b"a0"]);

    let topic = SiteManagerTopic::new("site_management");
    let mut b_store = LogStore::new();
    let mut topics = AuthorLogMap::new();
    let mut router: EventRouter<RouterEvent> = EventRouter::new();
    let mut pipeline = IngestionPipeline::new(8);
    let r = pipeline.ingest(&mut b_store, &mut topics, &mut router, &topic, &envs[0].0);
    assert_eq!(r, IngestOutcome::Complete);

    let mapping = topics.get(&topic);
    assert_eq!(mapping.len(), 1);
    assert_eq!(mapping[0].0, pk);
    assert_eq!(mapping[0].1, vec![lid.clone()]);
    let authors = topics.authors(&topic).unwrap();
    assert_eq!(authors, vec![pk.clone()]);

    let other = SiteManagerTopic::new("elsewhere");
    assert!(topics.authors(&other).is_none());
    assert!(topics.get(&other).is_empty());
}

#[test]
fn topic_map_add_author_is_idempotent() {
    let topic = SiteManagerTopic::new("site_management");
    let pk = vec![5u8; 32];
    let lid = log_id();
    let mut topics = AuthorLogMap::new();
    topics.add_author(&topic, &pk, &lid);
    topics.add_author(&topic, &pk, &lid);
    let mapping = topics.get(&topic);
    assert_eq!(mapping.len(), 1);
    assert_eq!(mapping[0].1.len(), 1);
}

#[test]
fn router_drops_without_subscriber_and_swaps_atomically() {
    let mut router: EventRouter<u64> = EventRouter::new();
    assert!(!router.publish(1));
    router.subscribe();
    assert!(router.publish(2));
    assert!(router.publish(3));
    let pending = router.replace_subscriber();
    assert_eq!(pending, vec![2, 3]);
    assert!(router.publish(4));
    assert_eq!(router.take_events(), vec![4]);
    assert_eq!(router.take_events(), Vec::<u64>::new());
}

#[test]
fn known_digest() {
    let bytes = b"A very important message.".to_vec();
    let digest = hash_bytes(&bytes);
    assert_eq!(
        hex_encode(&digest),
        "8d3ca6d66651182cd6a9c1fc5dad0260a0ee29fe9ed494734e60d259430ae8a4"
    );
}

#[test]
fn signatures_verify() {
    let (sk, pk) = new_author();
    let msg = b"A very important message.".to_vec();
    let sig = sign_bytes(&sk, &msg);
    assert_eq!(sig.len(), 64);
    assert!(verify_bytes(&pk, &msg, &sig));
    let other = b"another message".to_vec();
    assert!(!verify_bytes(&pk, &other, &sig));
}

#[test]
fn hex_round_trip() {
    assert_eq!(hex_encode(&vec![0xbe, 0xef]), "beef");
    assert_eq!(hex_decode("beef").unwrap(), vec![0xbe, 0xef]);
    assert_eq!(hex_decode("BEef").unwrap(), vec![0xbe, 0xef]);
    assert!(hex_decode("bee").is_none());
    assert!(hex_decode("zz").is_none());
}

#[test]
fn operation_details_for_logging() {
    let (sk, pk) = new_author();
    let lid = log_id();
    let body = Some(b"x".to_vec());
    let header = log_replication::operations::create_header(None, &lid, &sk, &body, false, 42);
    let op = log_replication::operations::make_operation(header, body);
    let hash = op.hash.clone();
    let details = prepare_for_logging(op);
    assert_eq!(details.hash, hex_encode(&hash));
    assert_eq!(details.public_key, hex_encode(&pk));
    assert_eq!(details.timestamp, 42);
    assert_eq!(details.seq_num, 0);
}

#[test]
fn get_range_clamps() {
    let (sk, pk) = new_author();
    let lid = log_id();
    let mut store = LogStore::new();
    published_envelopes(&mut store, &sk, &[b"a", b"b"]);
    assert_eq!(store.get_range(&pk, &lid, 0, 10).len(), 2);
    assert_eq!(store.get_range(&pk, &lid, 1, 2).len(), 1);
    assert_eq!(store.get_range(&pk, &lid, 5, 2).len(), 0);
    let stranger = vec![1u8; 32];
    assert_eq!(store.get_range(&stranger, &lid, 0, 10).len(), 0);
}
