//! Topics and the topic-to-author-to-log lookup that the sync layer
//! consults to learn which logs exist and who writes them.

use crate::bytes::bytes_eq;
use crate::crypto::{hash_bytes, hash_of};
use crate::header::clone_bytes;
use vstd::prelude::*;
use vstd::string::{StrSliceExecFns, StringSliceAdditionalSpecFns};

verus! {

/// A topic: a human-readable name and its canonical 32-byte identifier,
/// the hash of the name's bytes.
#[derive(Debug)]
pub struct SiteManagerTopic {
    name: String,
    id: Vec<u8>,
}

/// The ghost image of a topic.
#[verifier::ext_equal]
pub ghost struct TopicView {
    pub name: Seq<char>,
    pub id: Seq<u8>,
}

impl View for SiteManagerTopic {
    type V = TopicView;

    closed spec fn view(&self) -> TopicView {
        TopicView { name: self.name@, id: self.id@ }
    }
}

impl Clone for SiteManagerTopic {
    fn clone(&self) -> (r: Self)
        ensures
            r@ == self@,
    {
        let r = SiteManagerTopic { name: self.name.clone(), id: clone_bytes(&self.id) };
        proof {
            assert(r@ =~= self@);
        }
        r
    }
}

impl SiteManagerTopic {
    /// Derives a topic from its name: the identifier is the hash of the
    /// name's bytes, so every peer derives the same topic.
    pub fn new(name: &str) -> (r: Self)
        ensures
            r@.name == name@,
            r@.id == hash_of(name.spec_bytes()),
            r@.id.len() == 32,
    {
        let bytes = name.as_bytes_vec();
        let id = hash_bytes(&bytes);
        SiteManagerTopic { name: name.to_owned(), id }
    }

    /// The canonical 32-byte identifier.
    pub fn id(&self) -> (r: &Vec<u8>)
        ensures
            r@ == self@.id,
    {
        &self.id
    }

    /// The human-readable name.
    pub fn name(&self) -> (r: &String)
        ensures
            r@ == self@.name,
    {
        &self.name
    }
}

/// The log identifiers one author uses under one topic.
struct AuthorEntry {
    author: Vec<u8>,
    logs: Vec<Vec<u8>>,
}

/// The authors known to publish under one topic.
struct TopicEntry {
    topic_id: Vec<u8>,
    authors: Vec<AuthorEntry>,
}

/// Whether `a` with log `l` stands in a sequence of author entries.
spec fn authors_contain(authors: Seq<AuthorEntry>, a: Seq<u8>, l: Seq<u8>) -> bool {
    exists|j: int, k: int|
        0 <= j < authors.len() && 0 <= k < authors[j].logs@.len() && authors[j].author@ == a && (
        #[trigger] authors[j].logs@[k])@ == l
}

/// Whether author `a` is known under topic `t` with some log.
pub open spec fn author_known(m: AuthorLogMap, t: Seq<u8>, a: Seq<u8>) -> bool {
    exists|l: Seq<u8>| m.contains(t, a, l)
}

/// Whether a list of author keys lists `a`.
pub open spec fn lists_author(v: Seq<Vec<u8>>, a: Seq<u8>) -> bool {
    exists|k: int| 0 <= k < v.len() && (#[trigger] v[k])@ == a
}

/// Whether a list of author-to-logs pairs maps `a` to `l`.
pub open spec fn maps_pair(v: Seq<(Vec<u8>, Vec<Vec<u8>>)>, a: Seq<u8>, l: Seq<u8>) -> bool {
    exists|k: int, m: int|
        0 <= k < v.len() && 0 <= m < v[k].1@.len() && v[k].0@ == a && (#[trigger] v[k].1@[m])@
            == l
}

/// The topic-to-author-to-log lookup. Entries are only ever added, never
/// removed; adding an already-present triple changes nothing.
pub struct AuthorLogMap {
    topics: Vec<TopicEntry>,
}

impl AuthorLogMap {
    /// Whether slot `i` holds topic `t`.
    spec fn t_matches(self, i: int, t: Seq<u8>) -> bool {
        0 <= i < self.topics@.len() && self.topics@[i].topic_id@ == t
    }

    /// Whether author `a` is known to use log `l` under topic `t`.
    pub closed spec fn contains(self, t: Seq<u8>, a: Seq<u8>, l: Seq<u8>) -> bool {
        exists|i: int| self.t_matches(i, t) && authors_contain(self.topics@[i].authors@, a, l)
    }

    /// Uniqueness of topic slots and of authors within a slot.
    pub closed spec fn wf(self) -> bool {
        &&& forall|i: int, j: int|
            0 <= i < self.topics@.len() && 0 <= j < self.topics@.len() && i != j ==> (
            #[trigger] self.topics@[i]).topic_id@ != (#[trigger] self.topics@[j]).topic_id@
        &&& forall|i: int|
            0 <= i < self.topics@.len() ==> wf_authors((#[trigger] self.topics@[i]).authors@)
    }

    /// An empty map.
    pub fn new() -> (r: Self)
        ensures
            r.wf(),
            forall|t: Seq<u8>, a: Seq<u8>, l: Seq<u8>| !r.contains(t, a, l),
    {
        let r = AuthorLogMap { topics: Vec::new() };
        proof {
            assert(forall|t: Seq<u8>, a: Seq<u8>, l: Seq<u8>| !r.contains(t, a, l));
        }
        r
    }

    /// Finds the slot of topic `t`.
    fn find_topic(&self, t: &Vec<u8>) -> (r: Option<usize>)
        ensures
            match r {
                Some(i) => self.t_matches(i as int, t@),
                None => forall|i: int| !self.t_matches(i, t@),
            },
    {
        let n = self.topics.len();
        let mut i: usize = 0;
        while i < n
            invariant
                i <= n,
                n == self.topics@.len(),
                forall|j: int| 0 <= j < i ==> !self.t_matches(j, t@),
            decreases n - i,
        {
            if bytes_eq(&self.topics[i].topic_id, t) {
                return Some(i);
            }
            i = i + 1;
        }
        None
    }

    /// Records that `public_key` uses `log_id` under `topic`. Idempotent:
    /// an already-present triple changes nothing; nothing else changes
    /// either way.
    pub fn add_author(&mut self, topic: &SiteManagerTopic, public_key: &Vec<u8>, log_id: &Vec<u8>)
        requires
            old(self).wf(),
        ensures
            final(self).wf(),
            forall|t: Seq<u8>, a: Seq<u8>, l: Seq<u8>|
                final(self).contains(t, a, l) <==> (old(self).contains(t, a, l) || (t == topic@.id
                    && a == public_key@ && l == log_id@)),
    {
        let tid = topic.id();
        match self.find_topic(tid) {
            None => {
                let ghost old_m = *self;
                let mut logs: Vec<Vec<u8>> = Vec::new();
                logs.push(clone_bytes(log_id));
                let mut authors: Vec<AuthorEntry> = Vec::new();
                authors.push(AuthorEntry { author: clone_bytes(public_key), logs });
                let entry = TopicEntry { topic_id: clone_bytes(tid), authors };
                proof {
                    assert(wf_authors(entry.authors@)) by {
                        assert(entry.authors@.len() == 1);
                    }
                    assert(authors_contain(entry.authors@, public_key@, log_id@)) by {
                        assert(entry.authors@[0].author@ == public_key@);
                        assert(entry.authors@[0].logs@[0]@ == log_id@);
                    }
                    assert(forall|a: Seq<u8>, l: Seq<u8>|
                        authors_contain(entry.authors@, a, l) ==> a == public_key@ && l
                            == log_id@);
                }
                self.topics.push(entry);
                proof {
                    let m = old_m.topics@.len() as int;
                    assert(forall|j: int| 0 <= j < m ==> self.topics@[j] == old_m.topics@[j]);
                    assert(final(self).wf()) by {
                        assert(forall|j: int|
                            0 <= j < m ==> !old_m.t_matches(j, tid@) && (
                            #[trigger] self.topics@[j]).topic_id@ == old_m.topics@[j].topic_id@);
                        assert(self.topics@[m].topic_id@ == tid@);
                    }
                    assert forall|t: Seq<u8>, a: Seq<u8>, l: Seq<u8>|
                        final(self).contains(t, a, l) <==> (old_m.contains(t, a, l) || (t
                            == topic@.id && a == public_key@ && l == log_id@)) by {
                        if old_m.contains(t, a, l) {
                            let i = choose|i: int|
                                old_m.t_matches(i, t) && authors_contain(
                                    old_m.topics@[i].authors@,
                                    a,
                                    l,
                                );
                            assert(self.t_matches(i, t) && authors_contain(
                                self.topics@[i].authors@,
                                a,
                                l,
                            ));
                        }
                        if t == topic@.id && a == public_key@ && l == log_id@ {
                            assert(self.t_matches(m, t) && authors_contain(
                                self.topics@[m].authors@,
                                a,
                                l,
                            ));
                        }
                        if self.contains(t, a, l) {
                            let i = choose|i: int|
                                self.t_matches(i, t) && authors_contain(
                                    self.topics@[i].authors@,
                                    a,
                                    l,
                                );
                            if i < m {
                                assert(old_m.t_matches(i, t) && authors_contain(
                                    old_m.topics@[i].authors@,
                                    a,
                                    l,
                                ));
                            } else {
                                assert(t == topic@.id && a == public_key@ && l == log_id@);
                            }
                        }
                    }
                }
            },
            Some(i) => {
                let ghost old_m = *self;
                let mut entry = self.topics.remove(i);
                let ghost authors0 = entry.authors@;
                add_to_entry(&mut entry, public_key, log_id);
                self.topics.push(entry);
                proof {
                    Self::lemma_topic_replace(old_m, *self, i as int, self.topics@.last());
                    assert(forall|a: Seq<u8>, l: Seq<u8>|
                        old_m.contains(topic@.id, a, l) == authors_contain(authors0, a, l)) by {
                        assert forall|a: Seq<u8>, l: Seq<u8>|
                            old_m.contains(topic@.id, a, l) == authors_contain(
                                authors0,
                                a,
                                l,
                            ) by {
                            if old_m.contains(topic@.id, a, l) {
                                let j = choose|j: int|
                                    old_m.t_matches(j, topic@.id) && authors_contain(
                                        old_m.topics@[j].authors@,
                                        a,
                                        l,
                                    );
                                assert(j == i);
                            }
                            if authors_contain(authors0, a, l) {
                                assert(old_m.t_matches(i as int, topic@.id) && authors_contain(
                                    old_m.topics@[i as int].authors@,
                                    a,
                                    l,
                                ));
                            }
                        }
                    }
                }
            },
        }
    }

    /// The authors publishing under `topic`, or nothing when the topic
    /// is unknown.
    #[verifier::rlimit(100)]
    pub fn authors(&self, topic: &SiteManagerTopic) -> (r: Option<Vec<Vec<u8>>>)
        requires
            self.wf(),
        ensures
            r is Some ==> forall|k: int|
                0 <= k < r->Some_0@.len() ==> #[trigger] author_known(
                    *self,
                    topic@.id,
                    r->Some_0@[k]@,
                ),
            r is Some ==> forall|a: Seq<u8>, l: Seq<u8>|
                #[trigger] self.contains(topic@.id, a, l) ==> lists_author(r->Some_0@, a),
            r is None ==> forall|a: Seq<u8>, l: Seq<u8>| !self.contains(topic@.id, a, l),
    {
        let ghost t = topic@.id;
        match self.find_topic(topic.id()) {
            None => {
                proof {
                    assert forall|a: Seq<u8>, l: Seq<u8>| !self.contains(t, a, l) by {
                        if self.contains(t, a, l) {
                            let i = choose|i: int|
                                self.t_matches(i, t) && authors_contain(
                                    self.topics@[i].authors@,
                                    a,
                                    l,
                                );
                            assert(false);
                        }
                    }
                }
                None
            },
            Some(i) => {
                let authors = &self.topics[i].authors;
                let n = authors.len();
                let mut v: Vec<Vec<u8>> = Vec::new();
                let mut k: usize = 0;
                while k < n
                    invariant
                        k <= n,
                        n == authors@.len(),
                        v@.len() == k,
                        forall|q: int| 0 <= q < k ==> (#[trigger] v@[q])@ == authors@[q].author@,
                    decreases n - k,
                {
                    v.push(clone_bytes(&authors[k].author));
                    k = k + 1;
                }
                proof {
                    assert(wf_authors(self.topics@[i as int].authors@));
                    assert forall|q: int| 0 <= q < v@.len() implies #[trigger] author_known(
                        *self,
                        t,
                        v@[q]@,
                    ) by {
                        let l0 = self.topics@[i as int].authors@[q].logs@[0]@;
                        assert(authors_contain(self.topics@[i as int].authors@, v@[q]@, l0)) by {
                            assert(0 <= q < self.topics@[i as int].authors@.len() && 0 <= 0 < (
                            self.topics@[i as int].authors@[q]).logs@.len()
                                && self.topics@[i as int].authors@[q].author@ == v@[q]@ && (
                            self.topics@[i as int].authors@[q].logs@[0])@ == l0);
                        }
                        assert(self.t_matches(i as int, t) && authors_contain(
                            self.topics@[i as int].authors@,
                            v@[q]@,
                            l0,
                        ));
                        assert(self.contains(t, v@[q]@, l0));
                        assert(author_known(*self, t, v@[q]@));
                    }
                    assert forall|a: Seq<u8>, l: Seq<u8>|
                        #[trigger] self.contains(t, a, l) implies lists_author(v@, a) by {
                        let i2 = choose|i2: int|
                            self.t_matches(i2, t) && authors_contain(
                                self.topics@[i2].authors@,
                                a,
                                l,
                            );
                        assert((self.topics@[i2]).topic_id@ == (
                        self.topics@[i as int]).topic_id@);
                        assert(i2 == i);
                        let (q, m) = choose|q: int, m: int|
                            0 <= q < self.topics@[i as int].authors@.len() && 0 <= m
                                < self.topics@[i as int].authors@[q].logs@.len()
                                && self.topics@[i as int].authors@[q].author@ == a && (
                            #[trigger] self.topics@[i as int].authors@[q].logs@[m])@ == l;
                        assert(0 <= q < v@.len() && (v@[q])@ == a);
                        assert(lists_author(v@, a));
                    }
                }
                Some(v)
            },
        }
    }

    /// The mapping the sync layer consults: for each author publishing
    /// under `topic`, the log identifiers they use. Empty when the topic
    /// is unknown.
    pub fn get(&self, topic: &SiteManagerTopic) -> (r: Vec<(Vec<u8>, Vec<Vec<u8>>)>)
        requires
            self.wf(),
        ensures
            forall|k: int, m: int|
                0 <= k < r@.len() && 0 <= m < r@[k].1@.len() ==> self.contains(
                    topic@.id,
                    r@[k].0@,
                    (#[trigger] r@[k].1@[m])@,
                ),
            forall|a: Seq<u8>, l: Seq<u8>|
                #[trigger] self.contains(topic@.id, a, l) ==> maps_pair(r@, a, l),
    {
        let ghost t = topic@.id;
        let mut out: Vec<(Vec<u8>, Vec<Vec<u8>>)> = Vec::new();
        match self.find_topic(topic.id()) {
            None => {
                proof {
                    assert forall|a: Seq<u8>, l: Seq<u8>| !self.contains(t, a, l) by {
                        if self.contains(t, a, l) {
                            let i = choose|i: int|
                                self.t_matches(i, t) && authors_contain(
                                    self.topics@[i].authors@,
                                    a,
                                    l,
                                );
                            assert(false);
                        }
                    }
                }
                out
            },
            Some(i) => {
                let authors = &self.topics[i].authors;
                let n = authors.len();
                let mut k: usize = 0;
                while k < n
                    invariant
                        k <= n,
                        n == authors@.len(),
                        out@.len() == k,
                        forall|q: int|
                            0 <= q < k ==> (#[trigger] out@[q]).0@ == authors@[q].author@
                                && out@[q].1@.len() == authors@[q].logs@.len(),
                        forall|q: int, m: int|
                            0 <= q < k && 0 <= m < out@[q].1@.len() ==> (
                            #[trigger] out@[q].1@[m])@ == authors@[q].logs@[m]@,
                    decreases n - k,
                {
                    let ae = &authors[k];
                    let nl = ae.logs.len();
                    let mut logs: Vec<Vec<u8>> = Vec::new();
                    let mut m: usize = 0;
                    while m < nl
                        invariant
                            m <= nl,
                            nl == ae.logs@.len(),
                            logs@.len() == m,
                            forall|q: int|
                                0 <= q < m ==> (#[trigger] logs@[q])@ == ae.logs@[q]@,
                        decreases nl - m,
                    {
                        logs.push(clone_bytes(&ae.logs[m]));
                        m = m + 1;
                    }
                    out.push((clone_bytes(&ae.author), logs));
                    k = k + 1;
                }
                proof {
                    assert forall|k2: int, m: int|
                        0 <= k2 < out@.len() && 0 <= m < out@[k2].1@.len() implies self.contains(
                        t,
                        out@[k2].0@,
                        (#[trigger] out@[k2].1@[m])@,
                    ) by {
                        let l = out@[k2].1@[m]@;
                        assert(authors_contain(self.topics@[i as int].authors@, out@[k2].0@, l))
                            by {
                            assert(0 <= k2 < self.topics@[i as int].authors@.len() && 0 <= m
                                < self.topics@[i as int].authors@[k2].logs@.len()
                                && self.topics@[i as int].authors@[k2].author@ == out@[k2].0@ && (
                            self.topics@[i as int].authors@[k2].logs@[m])@ == l);
                        }
                        assert(self.t_matches(i as int, t) && authors_contain(
                            self.topics@[i as int].authors@,
                            out@[k2].0@,
                            l,
                        ));
                        assert(self.contains(t, out@[k2].0@, l));
                    }
                    assert forall|a: Seq<u8>, l: Seq<u8>|
                        #[trigger] self.contains(t, a, l) implies maps_pair(out@, a, l) by {
                        let i2 = choose|i2: int|
                            self.t_matches(i2, t) && authors_contain(
                                self.topics@[i2].authors@,
                                a,
                                l,
                            );
                        assert((self.topics@[i2]).topic_id@ == (
                        self.topics@[i as int]).topic_id@);
                        assert(i2 == i);
                        let (q, m) = choose|q: int, m: int|
                            0 <= q < self.topics@[i as int].authors@.len() && 0 <= m
                                < self.topics@[i as int].authors@[q].logs@.len()
                                && self.topics@[i as int].authors@[q].author@ == a && (
                            #[trigger] self.topics@[i as int].authors@[q].logs@[m])@ == l;
                        assert(0 <= q < out@.len() && 0 <= m < out@[q].1@.len() && out@[q].0@ == a
                            && (out@[q].1@[m])@ == l);
                        assert(maps_pair(out@, a, l));
                    }
                }
                out
            },
        }
    }

    /// Replacing one topic slot, moving it to the end, keeps every other
    /// topic's contents unchanged.
    proof fn lemma_topic_replace(old_m: Self, new_m: Self, i: int, e: TopicEntry)
        requires
            old_m.wf(),
            0 <= i < old_m.topics@.len(),
            e.topic_id@ == old_m.topics@[i].topic_id@,
            new_m.topics@ == old_m.topics@.remove(i).push(e),
            wf_authors(e.authors@),
        ensures
            new_m.wf(),
            forall|t: Seq<u8>, a: Seq<u8>, l: Seq<u8>|
                new_m.contains(t, a, l) <==> (if t == e.topic_id@ {
                    authors_contain(e.authors@, a, l)
                } else {
                    old_m.contains(t, a, l)
                }),
    {
        let m = old_m.topics@.len() as int;
        assert(new_m.topics@.len() == m);
        assert(forall|j: int| 0 <= j < i ==> new_m.topics@[j] == old_m.topics@[j]);
        assert(forall|j: int| i <= j < m - 1 ==> new_m.topics@[j] == old_m.topics@[j + 1]);
        assert(new_m.topics@[m - 1] == e);
        let omap = |j: int|
            if j < i {
                j
            } else if j < m - 1 {
                j + 1
            } else {
                i
            };
        assert(new_m.wf()) by {
            assert forall|j1: int, j2: int|
                0 <= j1 < m && 0 <= j2 < m && j1 != j2 implies (#[trigger] new_m.topics@[j1]).topic_id@
                != (#[trigger] new_m.topics@[j2]).topic_id@ by {
                let o1 = omap(j1);
                let o2 = omap(j2);
                assert(new_m.topics@[j1].topic_id@ == old_m.topics@[o1].topic_id@);
                assert(new_m.topics@[j2].topic_id@ == old_m.topics@[o2].topic_id@);
                assert(o1 != o2);
            }
            assert(forall|j: int|
                0 <= j < m ==> wf_authors((#[trigger] new_m.topics@[j]).authors@));
        }
        assert forall|t: Seq<u8>, a: Seq<u8>, l: Seq<u8>|
            new_m.contains(t, a, l) <==> (if t == e.topic_id@ {
                authors_contain(e.authors@, a, l)
            } else {
                old_m.contains(t, a, l)
            }) by {
            if new_m.contains(t, a, l) {
                let j = choose|j: int|
                    new_m.t_matches(j, t) && authors_contain(new_m.topics@[j].authors@, a, l);
                if j == m - 1 {
                    assert(t == e.topic_id@);
                } else {
                    let jo = omap(j);
                    assert(old_m.t_matches(jo, t) && authors_contain(
                        old_m.topics@[jo].authors@,
                        a,
                        l,
                    ));
                    assert(t != e.topic_id@) by {
                        assert(jo != i);
                        assert(old_m.topics@[jo].topic_id@ != old_m.topics@[i].topic_id@);
                    }
                }
            }
            if t == e.topic_id@ && authors_contain(e.authors@, a, l) {
                assert(new_m.t_matches(m - 1, t) && authors_contain(
                    new_m.topics@[m - 1].authors@,
                    a,
                    l,
                ));
            }
            if t != e.topic_id@ && old_m.contains(t, a, l) {
                let j = choose|j: int|
                    old_m.t_matches(j, t) && authors_contain(old_m.topics@[j].authors@, a, l);
                assert(j != i);
                let jn = if j < i {
                    j
                } else {
                    j - 1
                };
                assert(new_m.topics@[jn] == old_m.topics@[j]);
                assert(new_m.t_matches(jn, t) && authors_contain(
                    new_m.topics@[jn].authors@,
                    a,
                    l,
                ));
            }
        }
    }
}

/// Uniqueness of authors within one topic's entries, each with at least
/// one log.
spec fn wf_authors(authors: Seq<AuthorEntry>) -> bool {
    &&& forall|j1: int, j2: int|
        0 <= j1 < authors.len() && 0 <= j2 < authors.len() && j1 != j2 ==> (
        #[trigger] authors[j1]).author@ != (#[trigger] authors[j2]).author@
    &&& forall|j: int| 0 <= j < authors.len() ==> (#[trigger] authors[j]).logs@.len() > 0
}

/// Adds `(public_key, log_id)` to a topic entry, idempotently.
fn add_to_entry(entry: &mut TopicEntry, public_key: &Vec<u8>, log_id: &Vec<u8>)
    requires
        wf_authors(old(entry).authors@),
    ensures
        final(entry).topic_id@ == old(entry).topic_id@,
        wf_authors(final(entry).authors@),
        forall|a: Seq<u8>, l: Seq<u8>|
            authors_contain(final(entry).authors@, a, l) <==> (authors_contain(
                old(entry).authors@,
                a,
                l,
            ) || (a == public_key@ && l == log_id@)),
{
    let n = entry.authors.len();
    let mut j: usize = 0;
    while j < n
        invariant
            j <= n,
            n == entry.authors@.len(),
            *entry == *old(entry),
            wf_authors(entry.authors@),
            forall|q: int| 0 <= q < j ==> (#[trigger] entry.authors@[q]).author@ != public_key@,
        decreases n - j,
    {
        if bytes_eq(&entry.authors[j].author, public_key) {
            let ghost e0 = *entry;
            let mut ae = entry.authors.remove(j);
            let ghost logs0 = ae.logs@;
            let present = log_present(&ae.logs, log_id);
            if !present {
                ae.logs.push(clone_bytes(log_id));
            }
            proof {
                assert(forall|l: Seq<u8>|
                    log_in(ae.logs@, l) <==> (log_in(logs0, l) || l == log_id@)) by {
                    if !present {
                        assert(forall|k: int|
                            0 <= k < logs0.len() ==> ae.logs@[k] == logs0[k]);
                        assert(ae.logs@[logs0.len() as int]@ == log_id@);
                        assert forall|l: Seq<u8>| log_in(ae.logs@, l) implies (log_in(logs0, l)
                            || l == log_id@) by {
                            let k = choose|k: int| 0 <= k < ae.logs@.len() && (#[trigger] ae.logs@[k])@ == l;
                            if k < logs0.len() {
                                assert(log_in(logs0, l));
                            }
                        }
                    }
                }
            }
            entry.authors.push(ae);
            proof {
                assert(entry.authors@.last().logs@.len() > 0) by {
                    assert(logs0.len() > 0);
                }
                lemma_authors_replace(e0.authors@, entry.authors@, j as int, entry.authors@.last());
                assert forall|a: Seq<u8>, l: Seq<u8>|
                    authors_contain(entry.authors@, a, l) <==> (authors_contain(
                        e0.authors@,
                        a,
                        l,
                    ) || (a == public_key@ && l == log_id@)) by {
                    assert(forall|l: Seq<u8>|
                        authors_contain_one(entry.authors@.last(), l) <==> (log_in(logs0, l) || l
                            == log_id@));
                    assert(forall|l: Seq<u8>|
                        authors_contain_one(e0.authors@[j as int], l) <==> log_in(logs0, l));
                    if a == public_key@ && authors_contain(e0.authors@, a, l) {
                        let (q, k) = choose|q: int, k: int|
                            0 <= q < e0.authors@.len() && 0 <= k < e0.authors@[q].logs@.len()
                                && e0.authors@[q].author@ == a && (
                            #[trigger] e0.authors@[q].logs@[k])@ == l;
                        assert((#[trigger] e0.authors@[q]).author@ == (
                        #[trigger] e0.authors@[j as int]).author@);
                        assert(q == j);
                        assert(log_in(logs0, l));
                    }
                }
            }
            return ;
        }
        j = j + 1;
    }
    let ghost e0 = *entry;
    let mut logs: Vec<Vec<u8>> = Vec::new();
    logs.push(clone_bytes(log_id));
    entry.authors.push(AuthorEntry { author: clone_bytes(public_key), logs });
    proof {
        let m = e0.authors@.len() as int;
        assert(forall|q: int| 0 <= q < m ==> entry.authors@[q] == e0.authors@[q]);
        assert(entry.authors@[m].author@ == public_key@);
        assert(entry.authors@[m].logs@[0]@ == log_id@);
        assert(wf_authors(entry.authors@)) by {
            assert(forall|q: int|
                0 <= q < m ==> (#[trigger] entry.authors@[q]).author@ != public_key@);
        }
        assert forall|a: Seq<u8>, l: Seq<u8>|
            authors_contain(entry.authors@, a, l) <==> (authors_contain(e0.authors@, a, l) || (a
                == public_key@ && l == log_id@)) by {
            if authors_contain(entry.authors@, a, l) {
                let (q, k) = choose|q: int, k: int|
                    0 <= q < entry.authors@.len() && 0 <= k < entry.authors@[q].logs@.len()
                        && entry.authors@[q].author@ == a && (
                    #[trigger] entry.authors@[q].logs@[k])@ == l;
                if q < m {
                    assert(authors_contain(e0.authors@, a, l));
                } else {
                    assert(k == 0);
                }
            }
            if authors_contain(e0.authors@, a, l) {
                let (q, k) = choose|q: int, k: int|
                    0 <= q < e0.authors@.len() && 0 <= k < e0.authors@[q].logs@.len()
                        && e0.authors@[q].author@ == a && (
                    #[trigger] e0.authors@[q].logs@[k])@ == l;
                assert(entry.authors@[q] == e0.authors@[q]);
            }
            if a == public_key@ && l == log_id@ {
                assert(0 <= m < entry.authors@.len() && 0 <= 0 < entry.authors@[m].logs@.len()
                    && entry.authors@[m].author@ == a && entry.authors@[m].logs@[0]@ == l);
            }
        }
    }
}

/// Whether a log id stands in a list of log ids.
spec fn log_in(logs: Seq<Vec<u8>>, l: Seq<u8>) -> bool {
    exists|k: int| 0 <= k < logs.len() && (#[trigger] logs[k])@ == l
}

/// Whether one author entry lists log `l`.
spec fn authors_contain_one(ae: AuthorEntry, l: Seq<u8>) -> bool {
    log_in(ae.logs@, l)
}

/// Whether `log_id` is already listed.
fn log_present(logs: &Vec<Vec<u8>>, log_id: &Vec<u8>) -> (r: bool)
    ensures
        r == log_in(logs@, log_id@),
{
    let n = logs.len();
    let mut k: usize = 0;
    while k < n
        invariant
            k <= n,
            n == logs@.len(),
            forall|q: int| 0 <= q < k ==> (#[trigger] logs@[q])@ != log_id@,
        decreases n - k,
    {
        if bytes_eq(&logs[k], log_id) {
            return true;
        }
        k = k + 1;
    }
    false
}

/// Replacing one author entry, moving it to the end, keeps every other
/// author's logs unchanged.
proof fn lemma_authors_replace(olda: Seq<AuthorEntry>, newa: Seq<AuthorEntry>, j: int, ae: AuthorEntry)
    requires
        wf_authors(olda),
        0 <= j < olda.len(),
        ae.author@ == olda[j].author@,
        ae.logs@.len() > 0,
        newa == olda.remove(j).push(ae),
    ensures
        wf_authors(newa),
        forall|a: Seq<u8>, l: Seq<u8>|
            authors_contain(newa, a, l) <==> (if a == ae.author@ {
                authors_contain_one(ae, l)
            } else {
                authors_contain(olda, a, l)
            }),
{
    let m = olda.len() as int;
    assert(newa.len() == m);
    assert(forall|q: int| 0 <= q < j ==> newa[q] == olda[q]);
    assert(forall|q: int| j <= q < m - 1 ==> newa[q] == olda[q + 1]);
    assert(newa[m - 1] == ae);
    let omap = |q: int|
        if q < j {
            q
        } else if q < m - 1 {
            q + 1
        } else {
            j
        };
    assert(wf_authors(newa)) by {
        assert forall|q1: int, q2: int|
            0 <= q1 < m && 0 <= q2 < m && q1 != q2 implies (#[trigger] newa[q1]).author@ != (
        #[trigger] newa[q2]).author@ by {
            let o1 = omap(q1);
            let o2 = omap(q2);
            assert(newa[q1].author@ == olda[o1].author@);
            assert(newa[q2].author@ == olda[o2].author@);
            assert(o1 != o2);
        }
        assert forall|q: int| 0 <= q < m implies (#[trigger] newa[q]).logs@.len() > 0 by {
            if q < m - 1 {
                assert(newa[q] == olda[omap(q)]);
            } else {
                assert(newa[q] == ae);
            }
        }
    }
    assert forall|a: Seq<u8>, l: Seq<u8>|
        authors_contain(newa, a, l) <==> (if a == ae.author@ {
            authors_contain_one(ae, l)
        } else {
            authors_contain(olda, a, l)
        }) by {
        if authors_contain(newa, a, l) {
            let (q, k) = choose|q: int, k: int|
                0 <= q < newa.len() && 0 <= k < newa[q].logs@.len() && newa[q].author@ == a && (
                #[trigger] newa[q].logs@[k])@ == l;
            if q == m - 1 {
                assert(a == ae.author@ && authors_contain_one(ae, l));
            } else {
                let qo = omap(q);
                assert(olda[qo] == newa[q]);
                assert(authors_contain(olda, a, l));
                assert(a != ae.author@) by {
                    assert(qo != j);
                    assert(olda[qo].author@ != olda[j].author@);
                }
            }
        }
        if a == ae.author@ && authors_contain_one(ae, l) {
            let k = choose|k: int| 0 <= k < ae.logs@.len() && (#[trigger] ae.logs@[k])@ == l;
            assert(0 <= m - 1 < newa.len() && 0 <= k < newa[m - 1].logs@.len() && newa[m
                - 1].author@ == a && newa[m - 1].logs@[k]@ == l);
        }
        if a != ae.author@ && authors_contain(olda, a, l) {
            let (q, k) = choose|q: int, k: int|
                0 <= q < olda.len() && 0 <= k < olda[q].logs@.len() && olda[q].author@ == a && (
                #[trigger] olda[q].logs@[k])@ == l;
            assert(q != j);
            let qn = if q < j {
                q
            } else {
                q - 1
            };
            assert(newa[qn] == olda[q]);
            assert(0 <= qn < newa.len() && 0 <= k < newa[qn].logs@.len() && newa[qn].author@ == a
                && newa[qn].logs@[k]@ == l);
        }
    }
}

} // verus!
