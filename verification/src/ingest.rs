//! The ingestion pipeline: raw bytes from gossip or sync are decoded,
//! verified, deduplicated against the log store, and fanned out to the
//! event router. Out-of-order arrivals wait in a bounded retry buffer
//! until their predecessor arrives.

use crate::bytes::{bytes_eq, opt_view};
use crate::codec::parse_envelope;
use crate::header::{
    clone_bytes, clone_opt_bytes, decode_header, parse_header, wf_header, Header, HeaderView,
};
use crate::operations::{
    check_payload, decode_gossip_message, op_hash, payload_matches, verify_header_signature,
    wf_operation, Operation, OperationView,
};
use crate::router::{EventRouter, RouterEvent};
use crate::store::{chain_ok, ops_view, LogStore};
use crate::topic::SiteManagerTopic;
use vstd::prelude::*;

verus! {

/// Why an inbound item was dropped.
#[derive(Debug, Clone, Copy, PartialEq, Eq, Structural)]
pub enum RejectReason {
    /// The envelope or the header inside it did not parse.
    DecodeError,
    /// The signature does not verify, or the payload does not match the
    /// header's payload fields.
    BadSignature,
    /// The item waits on a predecessor and the retry buffer is full.
    Orphan,
    /// The item conflicts with stored history; the log is left untouched.
    ForkDetected,
}

/// Where an inbound item ended up.
#[derive(Debug, Clone, Copy, PartialEq, Eq, Structural)]
pub enum IngestOutcome {
    /// Validated and stored; waiting successors were re-evaluated.
    Complete,
    /// Already stored; nothing changed.
    Duplicate,
    /// Buffered until its predecessor arrives.
    Retry,
    /// Dropped, with the reason.
    Rejected(RejectReason),
}

/// What the envelope and header decode to, when they parse.
pub open spec fn decoded_op(bytes: Seq<u8>) -> Option<(HeaderView, Option<Seq<u8>>)> {
    match parse_envelope(bytes) {
        None => None,
        Some((hb, body)) => match parse_header(hb) {
            None => None,
            Some(h) => Some((h, body)),
        },
    }
}

/// Whether a decoded operation passes verification: the signature checks
/// out and the payload matches the header's payload fields.
pub open spec fn op_checks(h: HeaderView, body: Option<Seq<u8>>) -> bool {
    h.sig_ok() && payload_matches(h, body)
}

/// Whether `op` stands somewhere in `buf`.
pub open spec fn in_buffer(buf: Seq<OperationView>, op: OperationView) -> bool {
    exists|j: int| 0 <= j < buf.len() && op == #[trigger] buf[j]
}

/// Whether `op` stands in the log at its own sequence number.
pub open spec fn stored_in_log(log: Seq<OperationView>, op: OperationView) -> bool {
    op.header.seq_num < log.len() && log[op.header.seq_num as int] == op
}

/// Whether `op` conflicts with the log: the entry before its slot does
/// not carry the hash its backlink names.
pub open spec fn conflicts_with_log(log: Seq<OperationView>, op: OperationView) -> bool {
    &&& 0 < op.header.seq_num <= log.len()
    &&& op.header.backlink != Some(log[op.header.seq_num - 1].header.op_hash())
}

/// The operations carried by the operation events of an event sequence,
/// in order.
pub open spec fn op_events(s: Seq<RouterEvent>) -> Seq<OperationView>
    decreases s.len(),
{
    if s.len() == 0 {
        Seq::empty()
    } else {
        op_events(s.drop_last()) + (match s.last() {
            RouterEvent::Operation(op) => seq![op@],
            _ => Seq::empty(),
        })
    }
}

/// The ingestion pipeline: a bounded buffer of operations waiting for
/// their predecessors.
pub struct IngestionPipeline {
    retry: Vec<Operation>,
    capacity: usize,
}

impl IngestionPipeline {
    /// The buffered operations, in arrival order.
    pub closed spec fn retry_view(self) -> Seq<OperationView> {
        ops_view(self.retry@)
    }

    /// The buffer's fixed capacity.
    pub closed spec fn spec_capacity(self) -> nat {
        self.capacity as nat
    }

    /// Every buffered operation is valid, and the buffer is within its
    /// capacity.
    pub closed spec fn wf(self) -> bool {
        &&& self.retry@.len() <= self.capacity
        &&& forall|j: int|
            0 <= j < self.retry@.len() ==> wf_operation((#[trigger] self.retry@[j])@)
                && (self.retry@[j])@.header.public_key.len() == 32
    }

    /// A pipeline with an empty retry buffer of the given capacity.
    pub fn new(capacity: usize) -> (r: Self)
        ensures
            r.wf(),
            r.retry_view() == Seq::<OperationView>::empty(),
            r.spec_capacity() == capacity,
    {
        let r = IngestionPipeline { retry: Vec::new(), capacity };
        proof {
            assert(r.retry_view() =~= Seq::<OperationView>::empty());
        }
        r
    }

    /// Consumes one inbound byte item: decode, verify, hand off to the
    /// store, and fan out. Never fails the task; every malformed or
    /// conflicting item is classified and dropped or buffered.
    pub fn ingest(
        &mut self,
        store: &mut LogStore,
        topics: &mut crate::topic::AuthorLogMap,
        router: &mut EventRouter<RouterEvent>,
        topic: &SiteManagerTopic,
        bytes: &Vec<u8>,
    ) -> (r: IngestOutcome)
        requires
            old(self).wf(),
            old(store).wf(),
            old(topics).wf(),
        ensures
            final(self).wf(),
            final(store).wf(),
            final(topics).wf(),
            final(router).attached() == old(router).attached(),
            r == IngestOutcome::Rejected(RejectReason::DecodeError) <==> decoded_op(bytes@)
                is None,
            match decoded_op(bytes@) {
                None => {
                    &&& *final(self) == *old(self)
                    &&& *final(store) == *old(store)
                    &&& *final(topics) == *old(topics)
                    &&& *final(router) == *old(router)
                },
                Some(d) => {
                    if !op_checks(d.0, d.1) {
                        &&& r == IngestOutcome::Rejected(RejectReason::BadSignature)
                        &&& *final(self) == *old(self)
                        &&& *final(store) == *old(store)
                        &&& *final(topics) == *old(topics)
                        &&& *final(router) == *old(router)
                    } else {
                        ingest_op_post(
                            *old(self),
                            *final(self),
                            *old(store),
                            *final(store),
                            *old(topics),
                            *final(topics),
                            *old(router),
                            *final(router),
                            topic@.id,
                            d.0,
                            d.1,
                            r,
                        )
                    }
                },
            },
    {
        let (hb, body) = match decode_gossip_message(bytes) {
            Ok(p) => p,
            Err(_) => {
                return IngestOutcome::Rejected(RejectReason::DecodeError);
            },
        };
        let header = match decode_header(&hb) {
            Some(h) => h,
            None => {
                return IngestOutcome::Rejected(RejectReason::DecodeError);
            },
        };
        if !verify_header_signature(&header) {
            return IngestOutcome::Rejected(RejectReason::BadSignature);
        }
        if !check_payload(&header, &body) {
            return IngestOutcome::Rejected(RejectReason::BadSignature);
        }
        self.process_operation(store, topics, router, topic, header, body)
    }

    /// Hands a verified operation to the store and routes the outcome:
    /// appended operations are fanned out, a missing predecessor sends
    /// the item to the retry buffer, conflicting history is surfaced as a
    /// fork event.
    #[verifier::rlimit(100)]
    pub fn process_operation(
        &mut self,
        store: &mut LogStore,
        topics: &mut crate::topic::AuthorLogMap,
        router: &mut EventRouter<RouterEvent>,
        topic: &SiteManagerTopic,
        header: Header,
        body: Option<Vec<u8>>,
    ) -> (r: IngestOutcome)
        requires
            old(self).wf(),
            old(store).wf(),
            old(topics).wf(),
            wf_header(header@),
            header@.sig_ok(),
            payload_matches(header@, opt_view(body)),
        ensures
            final(self).wf(),
            final(store).wf(),
            final(topics).wf(),
            final(router).attached() == old(router).attached(),
            ingest_op_post(
                *old(self),
                *final(self),
                *old(store),
                *final(store),
                *old(topics),
                *final(topics),
                *old(router),
                *final(router),
                topic@.id,
                header@,
                opt_view(body),
                r,
            ),
    {
        let ghost h = header@;
        let ghost log = store.log_of(h.public_key, h.log_id());
        let n = store.log_len(&header.public_key, &header.extensions.log_id);
        let sn = header.seq_num;
        if sn == n as u64 {
            self.handle_next(store, topics, router, topic, header, body)
        } else {
            let is_dup: bool = if sn < n as u64 {
                let stored = store.op_at(&header.public_key, &header.extensions.log_id, sn as usize);
                let oh = op_hash(&header);
                bytes_eq(&stored.hash, &oh)
            } else {
                false
            };
            if is_dup {
                IngestOutcome::Duplicate
            } else if self.retry.len() < self.capacity {
                let oh = op_hash(&header);
                let ghost retry0 = self.retry@;
                self.retry.push(Operation { hash: oh, header, body });
                proof {
                    assert(self.retry_view() =~= ops_view(retry0).push(
                        OperationView { hash: h.op_hash(), header: h, body: opt_view(body) },
                    ));
                }
                IngestOutcome::Retry
            } else {
                IngestOutcome::Rejected(RejectReason::Orphan)
            }
        }
    }
}

impl IngestionPipeline {
    /// Appends an operation that carries the log's next sequence number:
    /// a matching backlink stores and fans it out and re-evaluates waiting
    /// successors; a conflicting backlink is surfaced as a fork.
    #[verifier::rlimit(100)]
    fn handle_next(
        &mut self,
        store: &mut LogStore,
        topics: &mut crate::topic::AuthorLogMap,
        router: &mut EventRouter<RouterEvent>,
        topic: &SiteManagerTopic,
        header: Header,
        body: Option<Vec<u8>>,
    ) -> (r: IngestOutcome)
        requires
            old(self).wf(),
            old(store).wf(),
            old(topics).wf(),
            wf_header(header@),
            header@.sig_ok(),
            payload_matches(header@, opt_view(body)),
            header@.seq_num == old(store).log_of(header@.public_key, header@.log_id()).len(),
        ensures
            final(self).wf(),
            final(store).wf(),
            final(topics).wf(),
            final(router).attached() == old(router).attached(),
            ingest_op_post(
                *old(self),
                *final(self),
                *old(store),
                *final(store),
                *old(topics),
                *final(topics),
                *old(router),
                *final(router),
                topic@.id,
                header@,
                opt_view(body),
                r,
            ),
    {
        let ghost h = header@;
        let ghost log = store.log_of(h.public_key, h.log_id());
        let n = store.log_len(&header.public_key, &header.extensions.log_id);
        let sn = header.seq_num;
            let chain_fine: bool = if n == 0 {
                true
            } else {
                let last = store.op_at(&header.public_key, &header.extensions.log_id, n - 1);
                match &header.backlink {
                    Some(bl) => bytes_eq(bl, &last.hash),
                    None => {
                        proof {
                            assert(false);
                        }
                        false
                    },
                }
            };
            proof {
                store.lemma_log_chain(h.public_key, h.log_id());
            }
            if chain_fine {
                self.complete_op(store, topics, router, topic, header, body)
            } else {
                let ev = RouterEvent::ForkDetected {
                    author: clone_bytes(&header.public_key),
                    log_id: clone_bytes(&header.extensions.log_id),
                    seq_num: sn,
                };
                let ghost mid_router = *router;
                router.publish(ev);
                proof {
                    if mid_router.attached() {
                        assert(router.delivered().drop_last() =~= mid_router.delivered());
                        assert(op_events(router.delivered()) =~= op_events(
                            mid_router.delivered(),
                        ));
                        assert(mid_router.delivered().is_prefix_of(router.delivered())) by {
                            assert(router.delivered().subrange(
                                0,
                                mid_router.delivered().len() as int,
                            ) =~= mid_router.delivered());
                        }
                    }
                }
                IngestOutcome::Rejected(RejectReason::ForkDetected)
            }
    }

    /// Stores an operation whose sequence number and backlink both fit
    /// the log's tip, fans it out, and re-evaluates waiting successors.
    #[verifier::rlimit(100)]
    fn complete_op(
        &mut self,
        store: &mut LogStore,
        topics: &mut crate::topic::AuthorLogMap,
        router: &mut EventRouter<RouterEvent>,
        topic: &SiteManagerTopic,
        header: Header,
        body: Option<Vec<u8>>,
    ) -> (r: IngestOutcome)
        requires
            old(self).wf(),
            old(store).wf(),
            old(topics).wf(),
            wf_header(header@),
            header@.sig_ok(),
            payload_matches(header@, opt_view(body)),
            header@.seq_num == old(store).log_of(header@.public_key, header@.log_id()).len(),
            chain_ok(old(store).log_of(header@.public_key, header@.log_id()), header@),
        ensures
            final(self).wf(),
            final(store).wf(),
            final(topics).wf(),
            final(router).attached() == old(router).attached(),
            r == IngestOutcome::Complete,
            ingest_op_post(
                *old(self),
                *final(self),
                *old(store),
                *final(store),
                *old(topics),
                *final(topics),
                *old(router),
                *final(router),
                topic@.id,
                header@,
                opt_view(body),
                r,
            ),
    {
        let ghost h = header@;
        let ghost log = store.log_of(h.public_key, h.log_id());
                let pk = clone_bytes(&header.public_key);
                let lid = clone_bytes(&header.extensions.log_id);
                let oh = op_hash(&header);
                let op_for_router = Operation {
                    hash: clone_bytes(&oh),
                    header: header.clone(),
                    body: clone_opt_bytes(&body),
                };
                let ghost oprv = op_for_router@;
                let res = store.insert(header, body);
                match res {
                    Ok(_) => {},
                    Err(_) => {
                        proof {
                            assert(false);
                        }
                    },
                }
                topics.add_author(topic, &pk, &lid);
                let ghost mid_router = *router;
                router.publish(RouterEvent::Operation(op_for_router));
                proof {
                    if mid_router.attached() {
                        assert(router.delivered().drop_last() =~= mid_router.delivered());
                        assert(op_events(router.delivered()) =~= op_events(
                            mid_router.delivered(),
                        ) + seq![OperationView { hash: h.op_hash(), header: h, body: opt_view(body) }]);
                    }
                    assert(store.log_of(h.public_key, h.log_id()) =~= log.push(
                        OperationView { hash: h.op_hash(), header: h, body: opt_view(body) },
                    ));
                }
                let ghost mid_store = *store;
                let ghost mid_router2 = *router;
                self.drain(store, router, &pk, &lid);
                proof {
                    let op = OperationView { hash: h.op_hash(), header: h, body: opt_view(body) };
                    let midlog = mid_store.log_of(h.public_key, h.log_id());
                    let newlog = store.log_of(h.public_key, h.log_id());
                    assert(midlog == log.push(op));
                    assert(chain_ok(log, h));
                    assert(newlog.subrange(0, log.len() as int + 1) == midlog) by {
                        assert(newlog.subrange(0, midlog.len() as int) == midlog);
                    }
                    assert forall|idx: int| log.len() < idx < newlog.len() implies in_buffer(
                        old(self).retry_view(),
                        #[trigger] newlog[idx],
                    ) by {
                        assert(midlog.len() <= idx < newlog.len());
                    }
                    if mid_router2.attached() {
                        let old_len = mid_router.delivered().len() as int;
                        let mid_len = mid_router2.delivered().len() as int;
                        let ev = mid_router2.delivered().last();
                        assert(mid_len == old_len + 1);
                        assert(router.delivered().subrange(0, mid_len)
                            == mid_router2.delivered());
                        assert(mid_router.delivered().is_prefix_of(router.delivered())) by {
                            assert(router.delivered().subrange(0, old_len)
                                =~= mid_router.delivered());
                        }
                        let emitted = router.delivered().skip(old_len);
                        let demitted = router.delivered().skip(mid_len);
                        assert(emitted =~= seq![ev] + demitted);
                        lemma_op_events_concat(seq![ev], demitted);
                        assert(ev matches RouterEvent::Operation(o) && o@ == oprv);
                        assert(oprv =~= op);
                        lemma_op_events_singleton(ev);
                        assert(op_events(seq![ev]) =~= seq![op]);
                        assert(op_events(demitted) == newlog.skip(midlog.len() as int));
                        assert(op_events(emitted) =~= newlog.skip(log.len() as int)) by {
                            assert(newlog[log.len() as int] == op) by {
                                assert(newlog.subrange(0, log.len() as int + 1)[log.len() as int]
                                    == op);
                            }
                            assert(forall|k: int|
                                0 <= k < newlog.len() - midlog.len()
                                    ==> newlog.skip(midlog.len() as int)[k] == newlog[
                                    midlog.len() + k
                                ]);
                        }
                    }
                }
                IngestOutcome::Complete
    }

    /// Acts on one buffered item removed from the retry buffer: appends
    /// it when its backlink fits the log's tip, or drops it with a fork
    /// event.
    #[verifier::rlimit(100)]
    fn apply_item(
        &mut self,
        store: &mut LogStore,
        router: &mut EventRouter<RouterEvent>,
        pk: &Vec<u8>,
        lid: &Vec<u8>,
        item: Operation,
        Ghost(log0): Ghost<Seq<OperationView>>,
        Ghost(retry0): Ghost<Seq<OperationView>>,
        Ghost(router0): Ghost<EventRouter<RouterEvent>>,
    )
        requires
            old(self).wf(),
            old(store).wf(),
            old(router).attached() == router0.attached(),
            old(store).log_of(pk@, lid@).len() >= log0.len(),
            old(store).log_of(pk@, lid@).subrange(0, log0.len() as int) == log0,
            forall|idx: int|
                log0.len() <= idx < old(store).log_of(pk@, lid@).len() ==> in_buffer(
                    retry0,
                    #[trigger] old(store).log_of(pk@, lid@)[idx],
                ),
            forall|j: int|
                0 <= j < old(self).retry_view().len() ==> in_buffer(
                    retry0,
                    #[trigger] old(self).retry_view()[j],
                ),
            router0.attached() ==> router0.delivered().is_prefix_of(old(router).delivered())
                && op_events(
                old(router).delivered().skip(router0.delivered().len() as int),
            ) == old(store).log_of(pk@, lid@).skip(log0.len() as int),
            !router0.attached() ==> old(router).delivered() == router0.delivered(),
            wf_operation(item@),
            item@.header.public_key == pk@,
            item@.header.log_id() == lid@,
            item@.header.public_key.len() == 32,
            item@.header.seq_num == old(store).log_of(pk@, lid@).len(),
            in_buffer(retry0, item@),
            forall|q: int|
                0 <= q < retry0.len() ==> in_buffer(
                    old(self).retry_view(),
                    #[trigger] retry0[q],
                ) || retry0[q] == item@ || stored_in_log(
                    old(store).log_of(pk@, lid@),
                    retry0[q],
                ) || conflicts_with_log(old(store).log_of(pk@, lid@), retry0[q]),
        ensures
            final(self).wf(),
            final(store).wf(),
            final(self).spec_capacity() == old(self).spec_capacity(),
            final(self).retry@ == old(self).retry@,
            final(router).attached() == router0.attached(),
            final(store).log_of(pk@, lid@).len() >= log0.len(),
            final(store).log_of(pk@, lid@).subrange(0, log0.len() as int) == log0,
            forall|idx: int|
                log0.len() <= idx < final(store).log_of(pk@, lid@).len() ==> in_buffer(
                    retry0,
                    #[trigger] final(store).log_of(pk@, lid@)[idx],
                ),
            forall|j: int|
                0 <= j < final(self).retry_view().len() ==> in_buffer(
                    retry0,
                    #[trigger] final(self).retry_view()[j],
                ),
            forall|j: int|
                0 <= j < retry0.len() ==> in_buffer(
                    final(self).retry_view(),
                    #[trigger] retry0[j],
                ) || stored_in_log(final(store).log_of(pk@, lid@), retry0[j])
                    || conflicts_with_log(final(store).log_of(pk@, lid@), retry0[j]),
            forall|a: Seq<u8>, l: Seq<u8>|
                !(a == pk@ && l == lid@) ==> final(store).log_of(a, l) == old(store).log_of(a, l),
            router0.attached() ==> router0.delivered().is_prefix_of(final(router).delivered())
                && op_events(
                final(router).delivered().skip(router0.delivered().len() as int),
            ) == final(store).log_of(pk@, lid@).skip(log0.len() as int),
            !router0.attached() ==> final(router).delivered() == router0.delivered(),
    {
        let ghost itemv = item@;
        let n = store.log_len(pk, lid);
        let ghost cur_log = store.log_of(pk@, lid@);
        let chain_fine: bool = if n == 0 {
            true
        } else {
            let last = store.op_at(pk, lid, n - 1);
            match &item.header.backlink {
                Some(bl) => bytes_eq(bl, &last.hash),
                None => {
                    proof {
                        assert(false);
                    }
                    false
                },
            }
        };
        proof {
            store.lemma_log_chain(pk@, lid@);
            assert(chain_fine == chain_ok(cur_log, itemv.header)) by {
                if n > 0 {
                    assert(cur_log[n - 1].hash == cur_log[n - 1].header.op_hash());
                }
            }
        }
        if chain_fine {
            self.apply_insert(store, router, pk, lid, item, Ghost(log0), Ghost(retry0), Ghost(router0));
        } else {
            self.apply_fork(store, router, pk, lid, item, Ghost(log0), Ghost(retry0), Ghost(router0));
        }
    }

    /// Appends a buffered item whose backlink fits the log's tip and
    /// fans it out.
    #[verifier::rlimit(100)]
    fn apply_insert(
        &mut self,
        store: &mut LogStore,
        router: &mut EventRouter<RouterEvent>,
        pk: &Vec<u8>,
        lid: &Vec<u8>,
        item: Operation,
        Ghost(log0): Ghost<Seq<OperationView>>,
        Ghost(retry0): Ghost<Seq<OperationView>>,
        Ghost(router0): Ghost<EventRouter<RouterEvent>>,
    )
        requires
            old(self).wf(),
            old(store).wf(),
            old(router).attached() == router0.attached(),
            old(store).log_of(pk@, lid@).len() >= log0.len(),
            old(store).log_of(pk@, lid@).subrange(0, log0.len() as int) == log0,
            forall|idx: int|
                log0.len() <= idx < old(store).log_of(pk@, lid@).len() ==> in_buffer(
                    retry0,
                    #[trigger] old(store).log_of(pk@, lid@)[idx],
                ),
            forall|j: int|
                0 <= j < old(self).retry_view().len() ==> in_buffer(
                    retry0,
                    #[trigger] old(self).retry_view()[j],
                ),
            router0.attached() ==> router0.delivered().is_prefix_of(old(router).delivered())
                && op_events(
                old(router).delivered().skip(router0.delivered().len() as int),
            ) == old(store).log_of(pk@, lid@).skip(log0.len() as int),
            !router0.attached() ==> old(router).delivered() == router0.delivered(),
            wf_operation(item@),
            item@.header.public_key == pk@,
            item@.header.log_id() == lid@,
            item@.header.public_key.len() == 32,
            item@.header.seq_num == old(store).log_of(pk@, lid@).len(),
            in_buffer(retry0, item@),
            forall|q: int|
                0 <= q < retry0.len() ==> in_buffer(
                    old(self).retry_view(),
                    #[trigger] retry0[q],
                ) || retry0[q] == item@ || stored_in_log(
                    old(store).log_of(pk@, lid@),
                    retry0[q],
                ) || conflicts_with_log(old(store).log_of(pk@, lid@), retry0[q]),
            chain_ok(old(store).log_of(pk@, lid@), item@.header),
        ensures
            final(self).wf(),
            final(store).wf(),
            final(self).spec_capacity() == old(self).spec_capacity(),
            final(self).retry@ == old(self).retry@,
            final(router).attached() == router0.attached(),
            final(store).log_of(pk@, lid@).len() >= log0.len(),
            final(store).log_of(pk@, lid@).subrange(0, log0.len() as int) == log0,
            forall|idx: int|
                log0.len() <= idx < final(store).log_of(pk@, lid@).len() ==> in_buffer(
                    retry0,
                    #[trigger] final(store).log_of(pk@, lid@)[idx],
                ),
            forall|j: int|
                0 <= j < final(self).retry_view().len() ==> in_buffer(
                    retry0,
                    #[trigger] final(self).retry_view()[j],
                ),
            forall|j: int|
                0 <= j < retry0.len() ==> in_buffer(
                    final(self).retry_view(),
                    #[trigger] retry0[j],
                ) || stored_in_log(final(store).log_of(pk@, lid@), retry0[j])
                    || conflicts_with_log(final(store).log_of(pk@, lid@), retry0[j]),
            forall|a: Seq<u8>, l: Seq<u8>|
                !(a == pk@ && l == lid@) ==> final(store).log_of(a, l) == old(store).log_of(a, l),
            router0.attached() ==> router0.delivered().is_prefix_of(final(router).delivered())
                && op_events(
                final(router).delivered().skip(router0.delivered().len() as int),
            ) == final(store).log_of(pk@, lid@).skip(log0.len() as int),
            !router0.attached() ==> final(router).delivered() == router0.delivered(),
    {
        let ghost itemv = item@;
        let n = store.log_len(pk, lid);
        let ghost cur_log = store.log_of(pk@, lid@);
        proof {
            store.lemma_log_chain(pk@, lid@);
        }
                let op_for_router = Operation {
                    hash: clone_bytes(&item.hash),
                    header: item.header.clone(),
                    body: clone_opt_bytes(&item.body),
                };
                let res = store.insert(item.header, item.body);
                match res {
                    Ok(_) => {},
                    Err(_) => {
                        proof {
                            assert(false);
                        }
                    },
                }
                let ghost router_pre = *router;
                router.publish(RouterEvent::Operation(op_for_router));
                proof {
                    assert(store.log_of(pk@, lid@) =~= cur_log.push(itemv));
                    if router0.attached() {
                        let base = router0.delivered().len() as int;
                        assert(router.delivered().drop_last() =~= router_pre.delivered());
                        assert(router.delivered().skip(base).drop_last()
                            =~= router_pre.delivered().skip(base));
                        assert(router.delivered().skip(base).last() == router.delivered().last());
                        lemma_op_events_push_op(
                            router_pre.delivered().skip(base),
                            router.delivered().skip(base),
                            itemv,
                        );
                        assert(router0.delivered().is_prefix_of(router.delivered())) by {
                            assert(router.delivered().subrange(0, base)
                                =~= router0.delivered());
                        }
                        assert(op_events(router.delivered().skip(base)) =~= store.log_of(
                            pk@,
                            lid@,
                        ).skip(log0.len() as int)) by {
                            assert(store.log_of(pk@, lid@).skip(log0.len() as int)
                                =~= cur_log.skip(log0.len() as int).push(itemv));
                        }
                    }
                    let newcur = store.log_of(pk@, lid@);
                    assert(newcur == cur_log.push(itemv));
                    assert(forall|i: int| 0 <= i < cur_log.len() ==> newcur[i] == cur_log[i]);
                    assert(newcur[cur_log.len() as int] == itemv);
                    assert(itemv.header.seq_num == cur_log.len());
                    assert forall|q: int| 0 <= q < retry0.len() implies in_buffer(
                        self.retry_view(),
                        #[trigger] retry0[q],
                    ) || stored_in_log(newcur, retry0[q]) || conflicts_with_log(
                        newcur,
                        retry0[q],
                    ) by {
                        if stored_in_log(cur_log, retry0[q]) {
                            assert(stored_in_log(newcur, retry0[q]));
                        } else if conflicts_with_log(cur_log, retry0[q]) {
                            assert(conflicts_with_log(newcur, retry0[q]));
                        } else if retry0[q] == itemv {
                            assert(stored_in_log(newcur, itemv));
                        } else {
                            assert(in_buffer(self.retry_view(), retry0[q]));
                        }
                    }
                    assert forall|idx: int|
                        log0.len() <= idx < newcur.len() implies in_buffer(
                        retry0,
                        #[trigger] newcur[idx],
                    ) by {
                        if idx < cur_log.len() {
                            assert(newcur[idx] == cur_log[idx]);
                        } else {
                            assert(newcur[idx] == itemv);
                        }
                    }
                }
    }

    /// Drops a buffered item whose backlink conflicts with the log's
    /// tip, surfacing a fork event.
    #[verifier::rlimit(100)]
    fn apply_fork(
        &mut self,
        store: &mut LogStore,
        router: &mut EventRouter<RouterEvent>,
        pk: &Vec<u8>,
        lid: &Vec<u8>,
        item: Operation,
        Ghost(log0): Ghost<Seq<OperationView>>,
        Ghost(retry0): Ghost<Seq<OperationView>>,
        Ghost(router0): Ghost<EventRouter<RouterEvent>>,
    )
        requires
            old(self).wf(),
            old(store).wf(),
            old(router).attached() == router0.attached(),
            old(store).log_of(pk@, lid@).len() >= log0.len(),
            old(store).log_of(pk@, lid@).subrange(0, log0.len() as int) == log0,
            forall|idx: int|
                log0.len() <= idx < old(store).log_of(pk@, lid@).len() ==> in_buffer(
                    retry0,
                    #[trigger] old(store).log_of(pk@, lid@)[idx],
                ),
            forall|j: int|
                0 <= j < old(self).retry_view().len() ==> in_buffer(
                    retry0,
                    #[trigger] old(self).retry_view()[j],
                ),
            router0.attached() ==> router0.delivered().is_prefix_of(old(router).delivered())
                && op_events(
                old(router).delivered().skip(router0.delivered().len() as int),
            ) == old(store).log_of(pk@, lid@).skip(log0.len() as int),
            !router0.attached() ==> old(router).delivered() == router0.delivered(),
            wf_operation(item@),
            item@.header.public_key == pk@,
            item@.header.log_id() == lid@,
            item@.header.public_key.len() == 32,
            item@.header.seq_num == old(store).log_of(pk@, lid@).len(),
            in_buffer(retry0, item@),
            forall|q: int|
                0 <= q < retry0.len() ==> in_buffer(
                    old(self).retry_view(),
                    #[trigger] retry0[q],
                ) || retry0[q] == item@ || stored_in_log(
                    old(store).log_of(pk@, lid@),
                    retry0[q],
                ) || conflicts_with_log(old(store).log_of(pk@, lid@), retry0[q]),
            old(store).log_of(pk@, lid@).len() > 0,
            !chain_ok(old(store).log_of(pk@, lid@), item@.header),
        ensures
            final(self).wf(),
            final(store).wf(),
            final(self).spec_capacity() == old(self).spec_capacity(),
            final(self).retry@ == old(self).retry@,
            final(router).attached() == router0.attached(),
            final(store).log_of(pk@, lid@).len() >= log0.len(),
            final(store).log_of(pk@, lid@).subrange(0, log0.len() as int) == log0,
            forall|idx: int|
                log0.len() <= idx < final(store).log_of(pk@, lid@).len() ==> in_buffer(
                    retry0,
                    #[trigger] final(store).log_of(pk@, lid@)[idx],
                ),
            forall|j: int|
                0 <= j < final(self).retry_view().len() ==> in_buffer(
                    retry0,
                    #[trigger] final(self).retry_view()[j],
                ),
            forall|j: int|
                0 <= j < retry0.len() ==> in_buffer(
                    final(self).retry_view(),
                    #[trigger] retry0[j],
                ) || stored_in_log(final(store).log_of(pk@, lid@), retry0[j])
                    || conflicts_with_log(final(store).log_of(pk@, lid@), retry0[j]),
            forall|a: Seq<u8>, l: Seq<u8>|
                !(a == pk@ && l == lid@) ==> final(store).log_of(a, l) == old(store).log_of(a, l),
            router0.attached() ==> router0.delivered().is_prefix_of(final(router).delivered())
                && op_events(
                final(router).delivered().skip(router0.delivered().len() as int),
            ) == final(store).log_of(pk@, lid@).skip(log0.len() as int),
            !router0.attached() ==> final(router).delivered() == router0.delivered(),
    {
        let ghost itemv = item@;
        let n = store.log_len(pk, lid);
        let ghost cur_log = store.log_of(pk@, lid@);
        proof {
            store.lemma_log_chain(pk@, lid@);
        }
                let ev = RouterEvent::ForkDetected {
                    author: clone_bytes(&item.header.public_key),
                    log_id: clone_bytes(&item.header.extensions.log_id),
                    seq_num: item.header.seq_num,
                };
                let ghost router_pre = *router;
                router.publish(ev);
                proof {
                    if router0.attached() {
                        let base = router0.delivered().len() as int;
                        assert(router.delivered().drop_last() =~= router_pre.delivered());
                        assert(router.delivered().skip(base).drop_last()
                            =~= router_pre.delivered().skip(base));
                        assert(router.delivered().skip(base).last() == router.delivered().last());
                        lemma_op_events_push_other(
                            router_pre.delivered().skip(base),
                            router.delivered().skip(base),
                        );
                        assert(router0.delivered().is_prefix_of(router.delivered())) by {
                            assert(router.delivered().subrange(0, base)
                                =~= router0.delivered());
                        }
                    }
                    let newcur = store.log_of(pk@, lid@);
                    assert(newcur == cur_log);
                    assert(conflicts_with_log(newcur, itemv)) by {
                        assert(itemv.header.seq_num == cur_log.len());
                        assert(cur_log.len() > 0);
                        assert(cur_log[cur_log.len() - 1].hash == cur_log[cur_log.len()
                            - 1].header.op_hash());
                    }
                    assert forall|q: int| 0 <= q < retry0.len() implies in_buffer(
                        self.retry_view(),
                        #[trigger] retry0[q],
                    ) || stored_in_log(newcur, retry0[q]) || conflicts_with_log(
                        newcur,
                        retry0[q],
                    ) by {
                        if !stored_in_log(cur_log, retry0[q]) && !conflicts_with_log(
                            cur_log,
                            retry0[q],
                        ) {
                            if retry0[q] == itemv {
                                assert(conflicts_with_log(newcur, itemv));
                            } else {
                                assert(in_buffer(self.retry_view(), retry0[q]));
                            }
                        }
                    }
                }
    }


    /// Finds a buffered item of the author's log whose sequence number is
    /// exactly `n`: the next one the log needs.
    fn find_actionable(&self, pk: &Vec<u8>, lid: &Vec<u8>, n: u64) -> (r: Option<usize>)
        ensures
            match r {
                Some(j) => j < self.retry_view().len() && self.retry_view()[j as int].header.public_key
                    == pk@ && self.retry_view()[j as int].header.log_id() == lid@
                    && self.retry_view()[j as int].header.seq_num == n,
                None => forall|j: int|
                    0 <= j < self.retry_view().len() && (#[trigger] self.retry_view()[j]).header.public_key
                        == pk@ && self.retry_view()[j].header.log_id() == lid@
                        ==> self.retry_view()[j].header.seq_num != n,
            },
    {
        let rl = self.retry.len();
        let mut j: usize = 0;
        while j < rl
            invariant
                j <= rl,
                rl == self.retry@.len(),
                forall|q: int|
                    0 <= q < j && (#[trigger] self.retry_view()[q]).header.public_key == pk@
                        && self.retry_view()[q].header.log_id() == lid@
                        ==> self.retry_view()[q].header.seq_num != n,
            decreases rl - j,
        {
            let item = &self.retry[j];
            proof {
                assert(item@ == self.retry_view()[j as int]);
            }
            if item.header.seq_num == n && bytes_eq(&item.header.public_key, pk) && bytes_eq(
                &item.header.extensions.log_id,
                lid,
            ) {
                return Some(j);
            }
            j = j + 1;
        }
        None
    }

    /// Re-evaluates buffered successors of the author's log: as long as a
    /// buffered item carries the log's next sequence number, it is
    /// appended and fanned out, or dropped with a fork event when its
    /// backlink conflicts.
    #[verifier::rlimit(100)]
    fn drain(
        &mut self,
        store: &mut LogStore,
        router: &mut EventRouter<RouterEvent>,
        pk: &Vec<u8>,
        lid: &Vec<u8>,
    )
        requires
            old(self).wf(),
            old(store).wf(),
        ensures
            final(self).wf(),
            final(store).wf(),
            final(self).spec_capacity() == old(self).spec_capacity(),
            final(router).attached() == old(router).attached(),
            final(store).log_of(pk@, lid@).len() >= old(store).log_of(pk@, lid@).len(),
            final(store).log_of(pk@, lid@).subrange(
                0,
                old(store).log_of(pk@, lid@).len() as int,
            ) == old(store).log_of(pk@, lid@),
            forall|idx: int|
                old(store).log_of(pk@, lid@).len() <= idx < final(store).log_of(
                    pk@,
                    lid@,
                ).len() ==> in_buffer(
                    old(self).retry_view(),
                    #[trigger] final(store).log_of(pk@, lid@)[idx],
                ),
            forall|j: int|
                0 <= j < final(self).retry_view().len() ==> in_buffer(
                    old(self).retry_view(),
                    #[trigger] final(self).retry_view()[j],
                ),
            forall|j: int|
                0 <= j < old(self).retry_view().len() ==> in_buffer(
                    final(self).retry_view(),
                    #[trigger] old(self).retry_view()[j],
                ) || stored_in_log(final(store).log_of(pk@, lid@), old(self).retry_view()[j])
                    || conflicts_with_log(
                    final(store).log_of(pk@, lid@),
                    old(self).retry_view()[j],
                ),
            forall|j: int|
                0 <= j < final(self).retry_view().len() && (#[trigger] final(self).retry_view()[j]).header.public_key == pk@ && final(self).retry_view()[j].header.log_id()
                    == lid@ ==> final(self).retry_view()[j].header.seq_num != final(store).log_of(pk@, lid@).len(),
            forall|a: Seq<u8>, l: Seq<u8>|
                !(a == pk@ && l == lid@) ==> final(store).log_of(a, l) == old(store).log_of(a, l),
            old(router).attached() ==> old(router).delivered().is_prefix_of(
                final(router).delivered(),
            ) && op_events(
                final(router).delivered().skip(old(router).delivered().len() as int),
            ) == final(store).log_of(pk@, lid@).skip(old(store).log_of(pk@, lid@).len() as int),
            !old(router).attached() ==> final(router).delivered() == old(router).delivered(),
    {
        let ghost log0 = old(store).log_of(pk@, lid@);
        let ghost retry0 = old(self).retry_view();
        let ghost router0 = *old(router);
        proof {
            assert(store.log_of(pk@, lid@).subrange(0, log0.len() as int) =~= log0);
            assert forall|j: int| 0 <= j < self.retry_view().len() implies in_buffer(
                retry0,
                #[trigger] self.retry_view()[j],
            ) by {
                assert(self.retry_view()[j] == retry0[j]);
            }
            assert forall|j: int| 0 <= j < retry0.len() implies in_buffer(
                self.retry_view(),
                #[trigger] retry0[j],
            ) by {
                assert(self.retry_view()[j] == retry0[j]);
            }
            if router0.attached() {
                assert(op_events(router.delivered().skip(router0.delivered().len() as int))
                    =~= store.log_of(pk@, lid@).skip(log0.len() as int));
            }
        }
        loop
            invariant_except_break
                self.wf(),
                store.wf(),
                self.spec_capacity() == old(self).spec_capacity(),
                router.attached() == router0.attached(),
                store.log_of(pk@, lid@).len() >= log0.len(),
                store.log_of(pk@, lid@).subrange(0, log0.len() as int) == log0,
                forall|idx: int|
                    log0.len() <= idx < store.log_of(pk@, lid@).len() ==> in_buffer(
                        retry0,
                        #[trigger] store.log_of(pk@, lid@)[idx],
                    ),
                forall|j: int|
                    0 <= j < self.retry_view().len() ==> in_buffer(
                        retry0,
                        #[trigger] self.retry_view()[j],
                    ),
                forall|j: int|
                    0 <= j < retry0.len() ==> in_buffer(
                        self.retry_view(),
                        #[trigger] retry0[j],
                    ) || stored_in_log(store.log_of(pk@, lid@), retry0[j])
                        || conflicts_with_log(store.log_of(pk@, lid@), retry0[j]),
                forall|a: Seq<u8>, l: Seq<u8>|
                    !(a == pk@ && l == lid@) ==> store.log_of(a, l) == old(store).log_of(a, l),
                router0.attached() ==> router0.delivered().is_prefix_of(router.delivered())
                    && op_events(
                    router.delivered().skip(router0.delivered().len() as int),
                ) == store.log_of(pk@, lid@).skip(log0.len() as int),
                !router0.attached() ==> router.delivered() == router0.delivered(),
            ensures
                self.wf(),
                store.wf(),
                self.spec_capacity() == old(self).spec_capacity(),
                router.attached() == router0.attached(),
                store.log_of(pk@, lid@).len() >= log0.len(),
                store.log_of(pk@, lid@).subrange(0, log0.len() as int) == log0,
                forall|idx: int|
                    log0.len() <= idx < store.log_of(pk@, lid@).len() ==> in_buffer(
                        retry0,
                        #[trigger] store.log_of(pk@, lid@)[idx],
                    ),
                forall|j: int|
                    0 <= j < self.retry_view().len() ==> in_buffer(
                        retry0,
                        #[trigger] self.retry_view()[j],
                    ),
                forall|j: int|
                    0 <= j < retry0.len() ==> in_buffer(
                        self.retry_view(),
                        #[trigger] retry0[j],
                    ) || stored_in_log(store.log_of(pk@, lid@), retry0[j])
                        || conflicts_with_log(store.log_of(pk@, lid@), retry0[j]),
                forall|j: int|
                    0 <= j < self.retry_view().len() && (#[trigger] self.retry_view()[j]).header.public_key
                        == pk@ && self.retry_view()[j].header.log_id() == lid@
                        ==> self.retry_view()[j].header.seq_num != store.log_of(
                        pk@,
                        lid@,
                    ).len(),
                forall|a: Seq<u8>, l: Seq<u8>|
                    !(a == pk@ && l == lid@) ==> store.log_of(a, l) == old(store).log_of(a, l),
                router0.attached() ==> router0.delivered().is_prefix_of(router.delivered())
                    && op_events(
                    router.delivered().skip(router0.delivered().len() as int),
                ) == store.log_of(pk@, lid@).skip(log0.len() as int),
                !router0.attached() ==> router.delivered() == router0.delivered(),
            decreases self.retry@.len(),
        {
            let progress = self.drain_step(
                store,
                router,
                pk,
                lid,
                Ghost(log0),
                Ghost(retry0),
                Ghost(router0),
            );
            if !progress {
                break ;
            }
        }
    }

    /// One pass of the drain: acts on one buffered successor of the
    /// author's log, or reports that none is actionable.
    #[verifier::rlimit(100)]
    fn drain_step(
        &mut self,
        store: &mut LogStore,
        router: &mut EventRouter<RouterEvent>,
        pk: &Vec<u8>,
        lid: &Vec<u8>,
        Ghost(log0): Ghost<Seq<OperationView>>,
        Ghost(retry0): Ghost<Seq<OperationView>>,
        Ghost(router0): Ghost<EventRouter<RouterEvent>>,
    ) -> (progress: bool)
        requires
            old(self).wf(),
            old(store).wf(),
            old(router).attached() == router0.attached(),
            old(store).log_of(pk@, lid@).len() >= log0.len(),
            old(store).log_of(pk@, lid@).subrange(0, log0.len() as int) == log0,
            forall|idx: int|
                log0.len() <= idx < old(store).log_of(pk@, lid@).len() ==> in_buffer(
                    retry0,
                    #[trigger] old(store).log_of(pk@, lid@)[idx],
                ),
            forall|j: int|
                0 <= j < old(self).retry_view().len() ==> in_buffer(
                    retry0,
                    #[trigger] old(self).retry_view()[j],
                ),
            forall|j: int|
                0 <= j < retry0.len() ==> in_buffer(
                    old(self).retry_view(),
                    #[trigger] retry0[j],
                ) || stored_in_log(old(store).log_of(pk@, lid@), retry0[j])
                    || conflicts_with_log(old(store).log_of(pk@, lid@), retry0[j]),
            router0.attached() ==> router0.delivered().is_prefix_of(old(router).delivered())
                && op_events(
                old(router).delivered().skip(router0.delivered().len() as int),
            ) == old(store).log_of(pk@, lid@).skip(log0.len() as int),
            !router0.attached() ==> old(router).delivered() == router0.delivered(),
        ensures
            final(self).wf(),
            final(store).wf(),
            final(self).spec_capacity() == old(self).spec_capacity(),
            final(router).attached() == router0.attached(),
            final(store).log_of(pk@, lid@).len() >= log0.len(),
            final(store).log_of(pk@, lid@).subrange(0, log0.len() as int) == log0,
            forall|idx: int|
                log0.len() <= idx < final(store).log_of(pk@, lid@).len() ==> in_buffer(
                    retry0,
                    #[trigger] final(store).log_of(pk@, lid@)[idx],
                ),
            forall|j: int|
                0 <= j < final(self).retry_view().len() ==> in_buffer(
                    retry0,
                    #[trigger] final(self).retry_view()[j],
                ),
            forall|j: int|
                0 <= j < retry0.len() ==> in_buffer(
                    final(self).retry_view(),
                    #[trigger] retry0[j],
                ) || stored_in_log(final(store).log_of(pk@, lid@), retry0[j])
                    || conflicts_with_log(final(store).log_of(pk@, lid@), retry0[j]),
            forall|a: Seq<u8>, l: Seq<u8>|
                !(a == pk@ && l == lid@) ==> final(store).log_of(a, l) == old(store).log_of(a, l),
            router0.attached() ==> router0.delivered().is_prefix_of(final(router).delivered())
                && op_events(
                final(router).delivered().skip(router0.delivered().len() as int),
            ) == final(store).log_of(pk@, lid@).skip(log0.len() as int),
            !router0.attached() ==> final(router).delivered() == router0.delivered(),
            progress ==> final(self).retry@.len() < old(self).retry@.len(),
            !progress ==> forall|j: int|
                0 <= j < final(self).retry_view().len() && (#[trigger] final(self).retry_view()[j]).header.public_key
                    == pk@ && final(self).retry_view()[j].header.log_id() == lid@
                    ==> final(self).retry_view()[j].header.seq_num != final(store).log_of(
                    pk@,
                    lid@,
                ).len(),
    {
        let n = store.log_len(pk, lid);
        let j = match self.find_actionable(pk, lid, n as u64) {
            Some(j) => j,
            None => {
                return false;
            },
        };
            let ghost retry_pre = self.retry_view();
            let ghost retry_vec_pre = self.retry@;
            let item = self.retry.remove(j);
            let ghost itemv = item@;
            proof {
                assert(itemv == retry_pre[j as int]);
                assert(wf_operation(itemv));
                assert(self.retry@ == retry_vec_pre.remove(j as int));
                assert(forall|q: int|
                    0 <= q < self.retry@.len() ==> (#[trigger] self.retry@[q]) == (if q < j {
                        retry_vec_pre[q]
                    } else {
                        retry_vec_pre[q + 1]
                    }));
                assert forall|q: int| 0 <= q < self.retry_view().len() implies in_buffer(
                    retry0,
                    #[trigger] self.retry_view()[q],
                ) by {
                    if q < j {
                        assert(self.retry_view()[q] == retry_pre[q]);
                    } else {
                        assert(self.retry_view()[q] == retry_pre[q + 1]);
                    }
                    assert(in_buffer(retry0, retry_pre[if q < j { q } else { q + 1 }]));
                }
                assert(self.wf()) by {
                    assert(forall|q: int|
                        0 <= q < self.retry@.len() ==> wf_operation(
                            (#[trigger] self.retry@[q])@,
                        ) && (self.retry@[q])@.header.public_key.len() == 32);
                }
                assert forall|q: int| 0 <= q < retry0.len() implies in_buffer(
                    self.retry_view(),
                    #[trigger] retry0[q],
                ) || retry0[q] == itemv || stored_in_log(store.log_of(pk@, lid@), retry0[q])
                    || conflicts_with_log(store.log_of(pk@, lid@), retry0[q]) by {
                    if in_buffer(retry_pre, retry0[q]) {
                        let w = choose|w: int|
                            0 <= w < retry_pre.len() && retry0[q] == #[trigger] retry_pre[w];
                        if w == j {
                            assert(retry0[q] == itemv);
                        } else {
                            let w2 = if w < j {
                                w
                            } else {
                                w - 1
                            };
                            assert(self.retry_view()[w2] == retry_pre[w]);
                            assert(in_buffer(self.retry_view(), retry0[q]));
                        }
                    }
                }
            }
            proof {
                assert(in_buffer(retry0, itemv)) by {
                    assert(in_buffer(retry0, retry_pre[j as int]));
                }
            }
            self.apply_item(
                store,
                router,
                pk,
                lid,
                item,
                Ghost(log0),
                Ghost(retry0),
                Ghost(router0),
            );
                true
    }
}

/// The operations carried by a concatenation are the concatenations of
/// the operations carried by the parts.
proof fn lemma_op_events_concat(a: Seq<RouterEvent>, b: Seq<RouterEvent>)
    ensures
        op_events(a + b) == op_events(a) + op_events(b),
    decreases b.len(),
{
    if b.len() == 0 {
        assert(a + b =~= a);
        assert(op_events(a) + op_events(b) =~= op_events(a));
    } else {
        lemma_op_events_concat(a, b.drop_last());
        assert((a + b).drop_last() =~= a + b.drop_last());
        assert((a + b).last() == b.last());
        assert(op_events(a + b) =~= op_events(a) + op_events(b));
    }
}

/// The operations carried by a one-event sequence.
proof fn lemma_op_events_singleton(ev: RouterEvent)
    ensures
        op_events(seq![ev]) == (match ev {
            RouterEvent::Operation(op) => seq![op@],
            _ => Seq::<OperationView>::empty(),
        }),
{
    let s = seq![ev];
    assert(s.drop_last() =~= Seq::<RouterEvent>::empty());
    assert(op_events(Seq::<RouterEvent>::empty()) == Seq::<OperationView>::empty());
    assert(s.last() == ev);
    assert(op_events(s) == op_events(s.drop_last()) + (match s.last() {
        RouterEvent::Operation(op) => seq![op@],
        _ => Seq::<OperationView>::empty(),
    }));
    match ev {
        RouterEvent::Operation(op) => {
            assert(op_events(s) =~= seq![op@]);
        },
        _ => {
            assert(op_events(s) =~= Seq::<OperationView>::empty());
        },
    }
}

/// Appending an operation event extends the carried operations by one.
proof fn lemma_op_events_push_op(pre: Seq<RouterEvent>, post: Seq<RouterEvent>, op: OperationView)
    requires
        post.len() == pre.len() + 1,
        post.drop_last() == pre,
        post.last() matches RouterEvent::Operation(o) && o@ == op,
    ensures
        op_events(post) == op_events(pre).push(op),
{
    assert(op_events(post) =~= op_events(pre).push(op));
}

/// Appending a non-operation event leaves the carried operations as they
/// were.
proof fn lemma_op_events_push_other(pre: Seq<RouterEvent>, post: Seq<RouterEvent>)
    requires
        post.len() == pre.len() + 1,
        post.drop_last() == pre,
        !(post.last() matches RouterEvent::Operation(o)),
    ensures
        op_events(post) == op_events(pre),
{
    assert(op_events(post) =~= op_events(pre));
}

/// What processing one verified operation does to the pipeline's state:
/// the relation between the states before and after, the operation, and
/// the outcome.
pub open spec fn ingest_op_post(
    self0: IngestionPipeline,
    self1: IngestionPipeline,
    store0: LogStore,
    store1: LogStore,
    topics0: crate::topic::AuthorLogMap,
    topics1: crate::topic::AuthorLogMap,
    router0: EventRouter<RouterEvent>,
    router1: EventRouter<RouterEvent>,
    topic_id: Seq<u8>,
    h: HeaderView,
    body: Option<Seq<u8>>,
    r: IngestOutcome,
) -> bool {
    let pk = h.public_key;
    let lid = h.log_id();
    let log = store0.log_of(pk, lid);
    let newlog = store1.log_of(pk, lid);
    let op = OperationView { hash: h.op_hash(), header: h, body };
    match r {
        IngestOutcome::Complete => {
            &&& h.seq_num == log.len()
            &&& chain_ok(log, h)
            &&& newlog.len() > log.len()
            &&& newlog.subrange(0, log.len() as int + 1) == log.push(op)
            &&& forall|idx: int|
                log.len() < idx < newlog.len() ==> in_buffer(
                    self0.retry_view(),
                    #[trigger] newlog[idx],
                )
            &&& forall|j: int|
                0 <= j < self1.retry_view().len() ==> in_buffer(
                    self0.retry_view(),
                    #[trigger] self1.retry_view()[j],
                )
            &&& forall|j: int|
                0 <= j < self0.retry_view().len() ==> in_buffer(
                    self1.retry_view(),
                    #[trigger] self0.retry_view()[j],
                ) || stored_in_log(newlog, self0.retry_view()[j]) || conflicts_with_log(
                    newlog,
                    self0.retry_view()[j],
                )
            &&& forall|j: int|
                0 <= j < self1.retry_view().len() && (#[trigger] self1.retry_view()[j]).header.public_key
                    == pk && self1.retry_view()[j].header.log_id() == lid
                    ==> self1.retry_view()[j].header.seq_num != newlog.len()
            &&& forall|a: Seq<u8>, l: Seq<u8>|
                !(a == pk && l == lid) ==> store1.log_of(a, l) == store0.log_of(a, l)
            &&& forall|t: Seq<u8>, a: Seq<u8>, l: Seq<u8>|
                topics1.contains(t, a, l) <==> (topics0.contains(t, a, l) || (t == topic_id && a
                    == pk && l == lid))
            &&& router1.attached() ==> router0.delivered().is_prefix_of(router1.delivered())
                && op_events(router1.delivered().skip(router0.delivered().len() as int))
                == newlog.skip(log.len() as int)
            &&& (!router1.attached() ==> router1.delivered() == router0.delivered())
        },
        IngestOutcome::Duplicate => {
            &&& h.seq_num < log.len()
            &&& log[h.seq_num as int].hash == h.op_hash()
            &&& store1 == store0
            &&& self1 == self0
            &&& topics1 == topics0
            &&& router1 == router0
        },
        IngestOutcome::Retry => {
            &&& h.seq_num != log.len()
            &&& !(h.seq_num < log.len() && log[h.seq_num as int].hash == h.op_hash())
            &&& self0.retry_view().len() < self0.spec_capacity()
            &&& self1.retry_view() == self0.retry_view().push(op)
            &&& store1 == store0
            &&& topics1 == topics0
            &&& router1 == router0
        },
        IngestOutcome::Rejected(RejectReason::ForkDetected) => {
            &&& h.seq_num == log.len()
            &&& log.len() > 0
            &&& !chain_ok(log, h)
            &&& store1 == store0
            &&& self1 == self0
            &&& topics1 == topics0
            &&& router1.attached() ==> router1.delivered().len() == router0.delivered().len() + 1
                && router0.delivered().is_prefix_of(router1.delivered()) && op_events(
                router1.delivered(),
            ) == op_events(router0.delivered()) && (router1.delivered().last() matches RouterEvent::ForkDetected {
                author,
                log_id,
                seq_num,
            } && author@ == pk && log_id@ == lid && seq_num == h.seq_num)
            &&& (!router1.attached() ==> router1 == router0)
        },
        IngestOutcome::Rejected(RejectReason::Orphan) => {
            &&& h.seq_num != log.len()
            &&& !(h.seq_num < log.len() && log[h.seq_num as int].hash == h.op_hash())
            &&& self0.retry_view().len() >= self0.spec_capacity()
            &&& store1 == store0
            &&& self1 == self0
            &&& topics1 == topics0
            &&& router1 == router0
        },
        _ => false,
    }
}

/// A buffered successor completes once its missing predecessor arrives:
/// when the retry buffer holds the operation carrying the next sequence
/// number of the same author's log, correctly backlinked to the
/// predecessor, and ingesting the predecessor completes, the successor
/// stands in the log afterwards.
pub proof fn lemma_retry_completes(
    self0: IngestionPipeline,
    self1: IngestionPipeline,
    store0: LogStore,
    store1: LogStore,
    topics0: crate::topic::AuthorLogMap,
    topics1: crate::topic::AuthorLogMap,
    router0: EventRouter<RouterEvent>,
    router1: EventRouter<RouterEvent>,
    topic_id: Seq<u8>,
    h: HeaderView,
    body: Option<Seq<u8>>,
    succ: OperationView,
)
    requires
        store1.wf(),
        ingest_op_post(
            self0,
            self1,
            store0,
            store1,
            topics0,
            topics1,
            router0,
            router1,
            topic_id,
            h,
            body,
            IngestOutcome::Complete,
        ),
        in_buffer(self0.retry_view(), succ),
        succ.header.public_key == h.public_key,
        succ.header.log_id() == h.log_id(),
        succ.header.seq_num == h.seq_num + 1,
        succ.header.backlink == Some(h.op_hash()),
        forall|j: int|
            0 <= j < self0.retry_view().len() && (#[trigger] self0.retry_view()[j]).header.public_key
                == h.public_key && self0.retry_view()[j].header.log_id() == h.log_id()
                ==> self0.retry_view()[j] == succ,
    ensures
        stored_in_log(store1.log_of(h.public_key, h.log_id()), succ),
{
    let pk = h.public_key;
    let lid = h.log_id();
    let log = store0.log_of(pk, lid);
    let newlog = store1.log_of(pk, lid);
    let op = OperationView { hash: h.op_hash(), header: h, body };
    assert(h.seq_num == log.len());
    assert(newlog.subrange(0, log.len() as int + 1) == log.push(op));
    assert(newlog[log.len() as int] == op) by {
        assert(newlog.subrange(0, log.len() as int + 1)[log.len() as int] == op);
    }
    let j = choose|j: int|
        0 <= j < self0.retry_view().len() && succ == #[trigger] self0.retry_view()[j];
    assert(in_buffer(self1.retry_view(), succ) || stored_in_log(newlog, succ)
        || conflicts_with_log(newlog, succ)) by {
        assert(self0.retry_view()[j] == succ);
    }
    if conflicts_with_log(newlog, succ) {
        assert(newlog[succ.header.seq_num - 1] == op);
        assert(false);
    } else if in_buffer(self1.retry_view(), succ) {
        let k = choose|k: int|
            0 <= k < self1.retry_view().len() && succ == #[trigger] self1.retry_view()[k];
        assert((self1.retry_view()[k]).header.public_key == pk);
        assert(succ.header.seq_num != newlog.len());
        assert(newlog.len() >= log.len() + 2);
        store1.lemma_log_chain(pk, lid);
        let e = newlog[log.len() as int + 1];
        assert(e.header.seq_num == log.len() + 1);
        assert(e.header.public_key == pk && e.header.log_id() == lid);
        assert(in_buffer(self0.retry_view(), e));
        let m = choose|m: int|
            0 <= m < self0.retry_view().len() && e == #[trigger] self0.retry_view()[m];
        assert((self0.retry_view()[m]).header.public_key == pk);
        assert(e == succ);
        assert(stored_in_log(newlog, succ));
    } else {
        assert(stored_in_log(newlog, succ));
    }
}

} // verus!
