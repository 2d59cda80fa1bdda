//! The append-only log store: per (author, log id) sequences of validated
//! operations, with chain validation on insert and idempotent duplicate
//! handling.

use crate::bytes::{bytes_eq, opt_view};
use crate::crypto::{derive_public_key, pk_of};
use crate::header::{clone_bytes, wf_header, Header, HeaderView};
use crate::operations::{
    create_header, make_operation, op_hash, payload_matches, wf_operation, Operation,
    OperationView,
};
use vstd::prelude::*;

verus! {

/// Why an insert was refused.
#[derive(Debug, Clone, Copy, PartialEq, Eq, Structural)]
pub enum StoreError {
    /// The sequence number is not the next one for the log.
    OutOfOrder,
    /// The backlink does not match the hash of the log's latest header.
    BacklinkMismatch,
}

/// What a successful insert did.
#[derive(Debug, Clone, Copy, PartialEq, Eq, Structural)]
pub enum InsertOutcome {
    /// The operation was appended to its log.
    Inserted,
    /// The operation was already stored; nothing changed.
    Duplicate,
}

/// One author's log under one log identifier.
struct StoredLog {
    author: Vec<u8>,
    log_id: Vec<u8>,
    entries: Vec<Operation>,
}

/// The views of a sequence of operations.
pub open spec fn ops_view(v: Seq<Operation>) -> Seq<OperationView> {
    Seq::new(v.len(), |i: int| v[i]@)
}

/// A well-formed log: every entry is a valid operation, the entry at
/// position `i` carries sequence number `i`, and each entry after the
/// first backlinks to the hash of the one before it.
pub open spec fn wf_log_seq(entries: Seq<OperationView>) -> bool {
    forall|i: int|
        0 <= i < entries.len() ==> {
            &&& wf_operation(#[trigger] entries[i])
            &&& entries[i].header.seq_num == i
            &&& (i == 0 ==> entries[i].header.backlink is None)
            &&& (i > 0 ==> entries[i].header.backlink == Some(entries[i - 1].header.op_hash()))
        }
}

/// Whether a header chains onto the end of a log: no backlink on an empty
/// log, the hash of the latest header otherwise.
pub open spec fn chain_ok(log: Seq<OperationView>, h: HeaderView) -> bool {
    if log.len() == 0 {
        h.backlink is None
    } else {
        h.backlink == Some(log.last().header.op_hash())
    }
}

/// The in-memory log store.
pub struct LogStore {
    logs: Vec<StoredLog>,
}

impl LogStore {
    /// Whether slot `i` holds the log of `(a, l)`.
    spec fn matches(self, i: int, a: Seq<u8>, l: Seq<u8>) -> bool {
        0 <= i < self.logs@.len() && self.logs@[i].author@ == a && self.logs@[i].log_id@ == l
    }

    /// Whether the store holds a log for `(a, l)`.
    pub closed spec fn has_log(self, a: Seq<u8>, l: Seq<u8>) -> bool {
        exists|i: int| self.matches(i, a, l)
    }

    /// The log of `(a, l)`: its operations in order, empty when the store
    /// holds none.
    pub closed spec fn log_of(self, a: Seq<u8>, l: Seq<u8>) -> Seq<OperationView> {
        if self.has_log(a, l) {
            ops_view(self.logs@[choose|i: int| self.matches(i, a, l)].entries@)
        } else {
            Seq::empty()
        }
    }

    /// The store's invariant: one slot per (author, log id) pair, authors
    /// are 32-byte keys, every log is well formed, and every entry names
    /// the author and log id of its slot.
    pub closed spec fn wf(self) -> bool {
        &&& forall|i: int, j: int|
            0 <= i < self.logs@.len() && 0 <= j < self.logs@.len() && i != j ==> !((
            #[trigger] self.logs@[i]).author@ == (#[trigger] self.logs@[j]).author@
                && self.logs@[i].log_id@ == self.logs@[j].log_id@)
        &&& forall|i: int|
            0 <= i < self.logs@.len() ==> {
                &&& (#[trigger] self.logs@[i]).author@.len() == 32
                &&& wf_log_seq(ops_view(self.logs@[i].entries@))
                &&& forall|k: int|
                    0 <= k < self.logs@[i].entries@.len() ==> (#[trigger] self.logs@[i].entries@[k])@.header.public_key
                        == self.logs@[i].author@ && self.logs@[i].entries@[k]@.header.log_id()
                        == self.logs@[i].log_id@
            }
    }

    /// With the invariant, a matching slot holds exactly `log_of`.
    proof fn lemma_slot_is_log(self, i: int, a: Seq<u8>, l: Seq<u8>)
        requires
            self.wf(),
            self.matches(i, a, l),
        ensures
            self.has_log(a, l),
            self.log_of(a, l) == ops_view(self.logs@[i].entries@),
    {
        let j = choose|j: int| self.matches(j, a, l);
        assert(i == j);
    }

    /// An empty store.
    pub fn new() -> (r: Self)
        ensures
            r.wf(),
            forall|a: Seq<u8>, l: Seq<u8>| r.log_of(a, l) == Seq::<OperationView>::empty(),
    {
        let r = LogStore { logs: Vec::new() };
        proof {
            assert(forall|a: Seq<u8>, l: Seq<u8>| !r.has_log(a, l));
        }
        r
    }

    /// Finds the slot of `(author, log_id)`.
    fn find_slot(&self, author: &Vec<u8>, log_id: &Vec<u8>) -> (r: Option<usize>)
        ensures
            match r {
                Some(i) => self.matches(i as int, author@, log_id@),
                None => !self.has_log(author@, log_id@),
            },
    {
        let n = self.logs.len();
        let mut i: usize = 0;
        while i < n
            invariant
                i <= n,
                n == self.logs@.len(),
                forall|j: int| 0 <= j < i ==> !self.matches(j, author@, log_id@),
            decreases n - i,
        {
            let slot = &self.logs[i];
            if bytes_eq(&slot.author, author) && bytes_eq(&slot.log_id, log_id) {
                return Some(i);
            }
            i = i + 1;
        }
        proof {
            assert(forall|j: int| !self.matches(j, author@, log_id@));
        }
        None
    }

    /// The latest operation of the author's log, or nothing when the log
    /// is empty or absent.
    pub fn latest_operation(&self, author: &Vec<u8>, log_id: &Vec<u8>) -> (r: Option<&Operation>)
        requires
            self.wf(),
        ensures
            match r {
                Some(op) => self.log_of(author@, log_id@).len() > 0 && op@ == self.log_of(
                    author@,
                    log_id@,
                ).last(),
                None => self.log_of(author@, log_id@).len() == 0,
            },
    {
        match self.find_slot(author, log_id) {
            None => None,
            Some(i) => {
                proof {
                    self.lemma_slot_is_log(i as int, author@, log_id@);
                }
                let entries = &self.logs[i].entries;
                let n = entries.len();
                if n == 0 {
                    None
                } else {
                    Some(&entries[n - 1])
                }
            },
        }
    }

    /// The length of the author's log: the next sequence number.
    pub fn log_len(&self, author: &Vec<u8>, log_id: &Vec<u8>) -> (r: usize)
        requires
            self.wf(),
        ensures
            r == self.log_of(author@, log_id@).len(),
    {
        match self.find_slot(author, log_id) {
            None => 0,
            Some(i) => {
                proof {
                    self.lemma_slot_is_log(i as int, author@, log_id@);
                }
                self.logs[i].entries.len()
            },
        }
    }

    /// The stored operation at position `i` of the author's log.
    pub fn op_at(&self, author: &Vec<u8>, log_id: &Vec<u8>, i: usize) -> (r: &Operation)
        requires
            self.wf(),
            i < self.log_of(author@, log_id@).len(),
        ensures
            r@ == self.log_of(author@, log_id@)[i as int],
    {
        let slot = match self.find_slot(author, log_id) {
            Some(s) => s,
            None => {
                proof {
                    assert(false);
                }
                0
            },
        };
        proof {
            self.lemma_slot_is_log(slot as int, author@, log_id@);
        }
        &self.logs[slot].entries[i]
    }

    /// The operations of the author's log with sequence numbers in
    /// `from_seq .. to_seq`, clamped to the log's length.
    pub fn get_range(&self, author: &Vec<u8>, log_id: &Vec<u8>, from_seq: usize, to_seq: usize) -> (r:
        Vec<Operation>)
        requires
            self.wf(),
        ensures
            ({
                let log = self.log_of(author@, log_id@);
                let hi = if to_seq <= log.len() {
                    to_seq as int
                } else {
                    log.len() as int
                };
                let lo = if from_seq as int <= hi {
                    from_seq as int
                } else {
                    hi
                };
                ops_view(r@) == log.subrange(lo, hi)
            }),
    {
        let ghost log = self.log_of(author@, log_id@);
        let mut out: Vec<Operation> = Vec::new();
        match self.find_slot(author, log_id) {
            None => {
                proof {
                    assert(ops_view(out@) =~= log.subrange(0, 0));
                }
                out
            },
            Some(slot) => {
                proof {
                    self.lemma_slot_is_log(slot as int, author@, log_id@);
                }
                let entries = &self.logs[slot].entries;
                let n = entries.len();
                let hi = if to_seq <= n {
                    to_seq
                } else {
                    n
                };
                let lo = if from_seq <= hi {
                    from_seq
                } else {
                    hi
                };
                let mut k = lo;
                proof {
                    assert(ops_view(out@) =~= log.subrange(lo as int, lo as int));
                }
                while k < hi
                    invariant
                        lo <= k <= hi,
                        hi <= n,
                        n == entries@.len(),
                        ops_view(entries@) == log,
                        ops_view(out@) == log.subrange(lo as int, k as int),
                    decreases hi - k,
                {
                    let op = entries[k].clone();
                    proof {
                        assert(op@ == ops_view(entries@)[k as int]);
                    }
                    let ghost out0 = out@;
                    out.push(op);
                    proof {
                        assert(out@ == out0.push(op));
                        assert(out@.len() == out0.len() + 1);
                        assert(ops_view(out0).len() == out0.len());
                        let g = log.subrange(lo as int, k as int + 1);
                        assert forall|j: int| 0 <= j < g.len() implies ops_view(out@)[j] == g[j] by {
                            assert(ops_view(out@)[j] == out@[j]@);
                            if j < g.len() - 1 {
                                assert(out@[j] == out0[j]);
                                assert(out0[j]@ == ops_view(out0)[j]);
                                assert(ops_view(out0)[j] == log.subrange(lo as int, k as int)[j]);
                            } else {
                                assert(out@[j] == op);
                            }
                        }
                        assert(ops_view(out@) =~= g);
                    }
                    k = k + 1;
                }
                out
            },
        }
    }
    /// Inserts a validated operation into its author's log. Appends when
    /// the sequence number is the next one and the backlink matches;
    /// succeeds without change on an operation already stored; refuses
    /// anything else.
    pub fn insert(&mut self, header: Header, body: Option<Vec<u8>>) -> (r: Result<
        InsertOutcome,
        StoreError,
    >)
        requires
            old(self).wf(),
            wf_header(header@),
            header@.public_key.len() == 32,
            header@.sig_ok(),
            payload_matches(header@, opt_view(body)),
        ensures
            final(self).wf(),
            forall|a: Seq<u8>, l: Seq<u8>|
                !(a == header@.public_key && l == header@.log_id()) ==> final(self).log_of(a, l)
                    == old(self).log_of(a, l),
            ({
                let log = old(self).log_of(header@.public_key, header@.log_id());
                let newlog = final(self).log_of(header@.public_key, header@.log_id());
                let op = OperationView {
                    hash: header@.op_hash(),
                    header: header@,
                    body: opt_view(body),
                };
                match r {
                    Ok(InsertOutcome::Inserted) => header@.seq_num == log.len() && chain_ok(
                        log,
                        header@,
                    ) && newlog == log.push(op),
                    Ok(InsertOutcome::Duplicate) => header@.seq_num < log.len() && log[
                        header@.seq_num as int
                    ].hash == header@.op_hash() && newlog == log,
                    Err(StoreError::OutOfOrder) => header@.seq_num != log.len() && !(
                    header@.seq_num < log.len() && log[header@.seq_num as int].hash
                        == header@.op_hash()) && newlog == log,
                    Err(StoreError::BacklinkMismatch) => header@.seq_num == log.len() && log.len()
                        > 0 && !chain_ok(log, header@) && newlog == log,
                }
            }),
    {
        let op_h = op_hash(&header);
        match self.find_slot(&header.public_key, &header.extensions.log_id) {
            None => {
                proof {
                    assert(self.log_of(header@.public_key, header@.log_id())
                        =~= Seq::<OperationView>::empty());
                }
                if header.seq_num == 0 {
                    let ghost old_s = *self;
                    let lg = StoredLog {
                        author: clone_bytes(&header.public_key),
                        log_id: clone_bytes(&header.extensions.log_id),
                        entries: Vec::new(),
                    };
                    let mut lg = lg;
                    let op = Operation { hash: op_h, header, body };
                    lg.entries.push(op);
                    proof {
                        assert(wf_log_seq(ops_view(lg.entries@))) by {
                            assert(ops_view(lg.entries@).len() == 1);
                            assert(ops_view(lg.entries@)[0] == lg.entries@[0]@);
                        }
                    }
                    self.logs.push(lg);
                    proof {
                        Self::lemma_append(old_s, *self, self.logs@.last());
                        assert(final(self).log_of(header@.public_key, header@.log_id())
                            =~= old_s.log_of(header@.public_key, header@.log_id()).push(
                            OperationView {
                                hash: header@.op_hash(),
                                header: header@,
                                body: opt_view(body),
                            },
                        ));
                    }
                    Ok(InsertOutcome::Inserted)
                } else {
                    Err(StoreError::OutOfOrder)
                }
            },
            Some(i) => {
                proof {
                    self.lemma_slot_is_log(i as int, header@.public_key, header@.log_id());
                }
                let n = self.logs[i].entries.len();
                let sn = header.seq_num;
                if sn < n as u64 {
                    let k = sn as usize;
                    let dup = bytes_eq(&self.logs[i].entries[k].hash, &op_h);
                    proof {
                        assert(self.logs@[i as int].entries@[k as int]@ == ops_view(
                            self.logs@[i as int].entries@,
                        )[k as int]);
                    }
                    if dup {
                        Ok(InsertOutcome::Duplicate)
                    } else {
                        Err(StoreError::OutOfOrder)
                    }
                } else if sn == n as u64 {
                    let chain_fine: bool = if n == 0 {
                        true
                    } else {
                        match &header.backlink {
                            Some(bl) => {
                                proof {
                                    assert(self.logs@[i as int].entries@[n - 1]@ == ops_view(
                                        self.logs@[i as int].entries@,
                                    )[n - 1]);
                                }
                                bytes_eq(bl, &self.logs[i].entries[n - 1].hash)
                            },
                            None => {
                                proof {
                                    assert(false);
                                }
                                false
                            },
                        }
                    };
                    if chain_fine {
                        let ghost old_s = *self;
                        let mut lg = self.logs.remove(i);
                        let op = Operation { hash: op_h, header, body };
                        let ghost log0 = ops_view(lg.entries@);
                        lg.entries.push(op);
                        proof {
                            assert(ops_view(lg.entries@) =~= log0.push(op@));
                            lemma_log_push(log0, op@);
                        }
                        self.logs.push(lg);
                        proof {
                            Self::lemma_update(old_s, *self, i as int, self.logs@.last());
                        }
                        Ok(InsertOutcome::Inserted)
                    } else {
                        Err(StoreError::BacklinkMismatch)
                    }
                } else {
                    Err(StoreError::OutOfOrder)
                }
            },
        }
    }

    /// Appending a slot with a fresh key keeps every other log unchanged.
    proof fn lemma_append(old_s: Self, new_s: Self, lg: StoredLog)
        requires
            old_s.wf(),
            !old_s.has_log(lg.author@, lg.log_id@),
            new_s.logs@ == old_s.logs@.push(lg),
            lg.author@.len() == 32,
            wf_log_seq(ops_view(lg.entries@)),
            forall|k: int|
                0 <= k < lg.entries@.len() ==> (#[trigger] lg.entries@[k])@.header.public_key
                    == lg.author@ && lg.entries@[k]@.header.log_id() == lg.log_id@,
        ensures
            new_s.wf(),
            new_s.log_of(lg.author@, lg.log_id@) == ops_view(lg.entries@),
            forall|a: Seq<u8>, l: Seq<u8>|
                !(a == lg.author@ && l == lg.log_id@) ==> new_s.log_of(a, l) == old_s.log_of(
                    a,
                    l,
                ),
    {
        let m = old_s.logs@.len() as int;
        assert(forall|j: int| 0 <= j < m ==> new_s.logs@[j] == old_s.logs@[j]);
        assert(new_s.logs@[m] == lg);
        assert(new_s.wf()) by {
            assert(forall|j: int|
                0 <= j < m ==> !(old_s.logs@[j].author@ == lg.author@ && (
                #[trigger] old_s.logs@[j]).log_id@ == lg.log_id@)) by {
                assert(forall|j: int|
                    0 <= j < m && (#[trigger] old_s.logs@[j]).author@ == lg.author@
                        && old_s.logs@[j].log_id@ == lg.log_id@ ==> old_s.matches(
                        j,
                        lg.author@,
                        lg.log_id@,
                    ));
            }
        }
        assert(new_s.matches(m, lg.author@, lg.log_id@));
        new_s.lemma_slot_is_log(m, lg.author@, lg.log_id@);
        assert forall|a: Seq<u8>, l: Seq<u8>| !(a == lg.author@ && l == lg.log_id@) implies
            new_s.log_of(a, l) == old_s.log_of(a, l) by {
            if old_s.has_log(a, l) {
                let j = choose|j: int| old_s.matches(j, a, l);
                assert(new_s.matches(j, a, l));
                old_s.lemma_slot_is_log(j, a, l);
                new_s.lemma_slot_is_log(j, a, l);
            } else {
                if new_s.has_log(a, l) {
                    let j = choose|j: int| new_s.matches(j, a, l);
                    assert(j != m);
                    assert(old_s.matches(j, a, l));
                }
            }
        }
    }

    /// Replacing a slot, moving it to the end, keeps every other log
    /// unchanged.
    proof fn lemma_update(old_s: Self, new_s: Self, i: int, lg: StoredLog)
        requires
            old_s.wf(),
            0 <= i < old_s.logs@.len(),
            lg.author@ == old_s.logs@[i].author@,
            lg.log_id@ == old_s.logs@[i].log_id@,
            new_s.logs@ == old_s.logs@.remove(i).push(lg),
            lg.author@.len() == 32,
            wf_log_seq(ops_view(lg.entries@)),
            forall|k: int|
                0 <= k < lg.entries@.len() ==> (#[trigger] lg.entries@[k])@.header.public_key
                    == lg.author@ && lg.entries@[k]@.header.log_id() == lg.log_id@,
        ensures
            new_s.wf(),
            new_s.log_of(lg.author@, lg.log_id@) == ops_view(lg.entries@),
            forall|a: Seq<u8>, l: Seq<u8>|
                !(a == lg.author@ && l == lg.log_id@) ==> new_s.log_of(a, l) == old_s.log_of(
                    a,
                    l,
                ),
    {
        let m = old_s.logs@.len() as int;
        assert(new_s.logs@.len() == m);
        assert(forall|j: int| 0 <= j < i ==> new_s.logs@[j] == old_s.logs@[j]);
        assert(forall|j: int| i <= j < m - 1 ==> new_s.logs@[j] == old_s.logs@[j + 1]);
        assert(new_s.logs@[m - 1] == lg);
        let omap = |j: int|
            if j < i {
                j
            } else if j < m - 1 {
                j + 1
            } else {
                i
            };
        assert(new_s.wf()) by {
            assert(forall|j1: int, j2: int|
                0 <= j1 < m && 0 <= j2 < m && j1 != j2 ==> !((#[trigger] new_s.logs@[j1]).author@
                    == (#[trigger] new_s.logs@[j2]).author@ && new_s.logs@[j1].log_id@
                    == new_s.logs@[j2].log_id@)) by {
                assert forall|j1: int, j2: int|
                    0 <= j1 < m && 0 <= j2 < m && j1 != j2 && (#[trigger] new_s.logs@[j1]).author@
                        == (#[trigger] new_s.logs@[j2]).author@ && new_s.logs@[j1].log_id@
                        == new_s.logs@[j2].log_id@ implies false by {
                    let o1 = omap(j1);
                    let o2 = omap(j2);
                    assert(new_s.logs@[j1].author@ == old_s.logs@[o1].author@
                        && new_s.logs@[j1].log_id@ == old_s.logs@[o1].log_id@);
                    assert(new_s.logs@[j2].author@ == old_s.logs@[o2].author@
                        && new_s.logs@[j2].log_id@ == old_s.logs@[o2].log_id@);
                    assert(o1 != o2);
                }
            }
        }
        assert(new_s.matches(m - 1, lg.author@, lg.log_id@));
        new_s.lemma_slot_is_log(m - 1, lg.author@, lg.log_id@);
        assert forall|a: Seq<u8>, l: Seq<u8>| !(a == lg.author@ && l == lg.log_id@) implies
            new_s.log_of(a, l) == old_s.log_of(a, l) by {
            if old_s.has_log(a, l) {
                let j = choose|j: int| old_s.matches(j, a, l);
                assert(j != i);
                let jn = if j < i {
                    j
                } else {
                    j - 1
                };
                assert(new_s.logs@[jn] == old_s.logs@[j]);
                assert(new_s.matches(jn, a, l));
                old_s.lemma_slot_is_log(j, a, l);
                new_s.lemma_slot_is_log(jn, a, l);
            } else {
                if new_s.has_log(a, l) {
                    let j = choose|j: int| new_s.matches(j, a, l);
                    assert(j != m - 1);
                    let jo = omap(j);
                    assert(old_s.logs@[jo] == new_s.logs@[j]);
                    assert(old_s.matches(jo, a, l));
                }
            }
        }
    }
}

impl LogStore {
    /// Publishes a payload to the author's own log: builds the next
    /// signed header, stores it, and returns the operation hash. Refused
    /// only when the log's sequence counter is exhausted.
    pub fn publish(
        &mut self,
        log_id: &Vec<u8>,
        signing_key: &Vec<u8>,
        body: Option<Vec<u8>>,
        prune_flag: bool,
        timestamp: u64,
    ) -> (r: Result<Vec<u8>, StoreError>)
        requires
            old(self).wf(),
            signing_key@.len() == 32,
        ensures
            final(self).wf(),
            forall|a: Seq<u8>, l: Seq<u8>|
                !(a == pk_of(signing_key@) && l == log_id@) ==> final(self).log_of(a, l) == old(
                    self,
                ).log_of(a, l),
            ({
                let pk = pk_of(signing_key@);
                let log = old(self).log_of(pk, log_id@);
                let newlog = final(self).log_of(pk, log_id@);
                match r {
                    Ok(h) => {
                        &&& log.len() <= u64::MAX
                        &&& newlog.len() == log.len() + 1
                        &&& newlog.subrange(0, log.len() as int) == log
                        &&& ({
                            let op = newlog.last();
                            &&& op.hash == h@
                            &&& op.hash == op.header.op_hash()
                            &&& op.header.public_key == pk
                            &&& op.header.seq_num == log.len()
                            &&& op.header.timestamp == timestamp
                            &&& op.header.extensions.log_id == log_id@
                            &&& op.header.extensions.prune_flag == prune_flag
                            &&& payload_matches(op.header, opt_view(body))
                            &&& op.body == opt_view(body)
                            &&& chain_ok(log, op.header)
                        })
                    },
                    Err(e) => e == StoreError::OutOfOrder && log.len() > u64::MAX && newlog
                        == log,
                }
            }),
    {
        let public_key = derive_public_key(signing_key);
        proof {
            self.lemma_log_chain(public_key@, log_id@);
        }
        let prev: Option<Header> = match self.latest_operation(&public_key, log_id) {
            Some(op) => Some(op.header.clone()),
            None => None,
        };
        if let Some(p) = &prev {
            if p.seq_num == u64::MAX {
                return Err(StoreError::OutOfOrder);
            }
        }
        let header = create_header(prev.as_ref(), log_id, signing_key, &body, prune_flag, timestamp);
        let h = op_hash(&header);
        let ghost log = self.log_of(public_key@, log_id@);
        proof {
            assert(header@.seq_num == log.len());
            assert(chain_ok(log, header@));
        }
        let res = self.insert(header, body);
        match res {
            Ok(_) => Ok(h),
            Err(e) => {
                proof {
                    assert(false);
                }
                Err(e)
            },
        }
    }

    /// Every stored log is a well-formed chain: entry `i` carries
    /// sequence number `i`, the first entry has no backlink, and every
    /// later entry backlinks to the hash of the one before it.
    pub proof fn lemma_log_chain(&self, a: Seq<u8>, l: Seq<u8>)
        requires
            self.wf(),
        ensures
            wf_log_seq(self.log_of(a, l)),
            forall|i: int|
                0 <= i < self.log_of(a, l).len() ==> (#[trigger] self.log_of(
                    a,
                    l,
                )[i]).header.public_key == a && self.log_of(a, l)[i].header.log_id() == l,
    {
        if self.has_log(a, l) {
            let i = choose|i: int| self.matches(i, a, l);
            self.lemma_slot_is_log(i, a, l);
        }
    }
}

/// Once an operation stands in its log, the store's insert contract
/// admits only the unchanged `Duplicate` outcome for it: its hash is
/// found at its own sequence number.
pub proof fn lemma_stored_op_is_duplicate(log: Seq<OperationView>, i: int)
    requires
        wf_log_seq(log),
        0 <= i < log.len(),
    ensures
        log[i].header.seq_num < log.len(),
        log[log[i].header.seq_num as int].hash == log[i].header.op_hash(),
{
    assert(log[i].header.seq_num == i);
    assert(log[i].hash == log[i].header.op_hash());
}

/// Appending an operation that continues the chain keeps a log well
/// formed.
pub proof fn lemma_log_push(log: Seq<OperationView>, op: OperationView)
    requires
        wf_log_seq(log),
        wf_operation(op),
        op.header.seq_num == log.len(),
        chain_ok(log, op.header),
    ensures
        wf_log_seq(log.push(op)),
{
    let log2 = log.push(op);
    assert forall|i: int| 0 <= i < log2.len() implies {
        &&& wf_operation(#[trigger] log2[i])
        &&& log2[i].header.seq_num == i
        &&& (i == 0 ==> log2[i].header.backlink is None)
        &&& (i > 0 ==> log2[i].header.backlink == Some(log2[i - 1].header.op_hash()))
    } by {
        if i < log.len() {
            assert(log2[i] == log[i]);
            if i > 0 {
                assert(log2[i - 1] == log[i - 1]);
            }
        } else {
            assert(log2[i] == op);
            if i > 0 {
                assert(log2[i - 1] == log[i - 1]);
                assert(log.last() == log[i - 1]);
            }
        }
    }
}

} // verus!
