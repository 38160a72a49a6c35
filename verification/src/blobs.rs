//! The contents of blobs: a cache of what was fetched, and the reads that wait for a fetch.

use crate::strmap::StrMap;
use crate::text;
use crate::text::{copy_text, decimal_text, same_text};
use crate::writes;
use crate::writes::part_of;
use std::sync::Arc;
use vstd::prelude::*;
use vstd::string::*;

verus! {

/// The least that the cache may hold, in bytes.
pub const MIN_BUDGET: usize = 0x80_0000;

/// A read that waits for a blob.
pub struct PendingRead {
    pub offset: i64,
    pub size: u32,
    /// By what the reader is found again
    pub reply: u64,
}

/// A download.
pub struct FetchJob {
    pub key: String,
    pub workspace_id: String,
    pub doc_id: u64,
}

/// What a read comes to.
pub enum ReadStep {
    /// The bytes are there
    Data(Vec<u8>),
    /// The read waits for a download that is under way
    Wait,
    /// The read waits for a download that has to be started
    Fetch(FetchJob),
}

/// What came of a read that waited.
pub struct Answer {
    pub reply: u64,
    /// The bytes, or nothing where the download failed
    pub data: Option<Vec<u8>>,
}

/// The blobs that were used last.
pub struct Lru {
    /// Those that were not used for the longest time come first
    entries: Vec<(String, Arc<Vec<u8>>)>,
    used: usize,
    budget: usize,
}

/// Blobs in the order in which they were used.
pub type Blobs = Seq<(Seq<char>, Seq<u8>)>;

pub closed spec fn blob_views(s: Seq<(String, Arc<Vec<u8>>)>) -> Blobs {
    Seq::new(s.len(), |i: int| (s[i].0@, s[i].1@))
}

/// The number of bytes of some blobs.
pub open spec fn total(s: Blobs) -> nat
    decreases s.len(),
{
    if s.len() == 0 {
        0
    } else {
        total(s.drop_last()) + s.last().1.len()
    }
}

/// The place of a blob.
pub open spec fn find_blob(s: Blobs, key: Seq<char>) -> Option<int>
    decreases s.len(),
{
    if s.len() == 0 {
        None
    } else if s.last().0 == key {
        Some(s.len() - 1)
    } else {
        find_blob(s.drop_last(), key)
    }
}

/// The blobs after one was used.
pub open spec fn bumped(s: Blobs, key: Seq<char>) -> Blobs {
    match find_blob(s, key) {
        Some(i) => s.remove(i).push(s[i]),
        None => s,
    }
}

/// The blobs that fit: those that were not used for the longest time go, but one always stays.
pub open spec fn trimmed(s: Blobs, budget: nat) -> Blobs
    decreases s.len(),
{
    if s.len() > 1 && total(s) > budget {
        trimmed(s.drop_first(), budget)
    } else {
        s
    }
}

/// The blobs after one came in.
pub open spec fn stored(s: Blobs, key: Seq<char>, blob: Seq<u8>, budget: nat) -> Blobs {
    match find_blob(s, key) {
        Some(_) => s,
        None => trimmed(s.push((key, blob)), budget),
    }
}

/// Whether no two blobs have the same key.
pub open spec fn distinct_keys(s: Blobs) -> bool {
    forall|i: int, j: int| 0 <= i < j < s.len() ==> (#[trigger] s[i]).0 != (#[trigger] s[j]).0
}

proof fn lemma_find(s: Blobs, key: Seq<char>, i: int)
    requires
        distinct_keys(s),
        0 <= i < s.len(),
        s[i].0 == key,
    ensures
        find_blob(s, key) == Some(i),
    decreases s.len(),
{
    if s.last().0 == key {
        if i < s.len() - 1 {
            assert(s[i].0 != s[s.len() - 1].0);
        }
    } else {
        let f = s.drop_last();
        assert(forall|j: int| 0 <= j < f.len() ==> f[j] == s[j]);
        lemma_find(f, key, i);
    }
}

proof fn lemma_find_none(s: Blobs, key: Seq<char>)
    requires
        forall|i: int| 0 <= i < s.len() ==> (#[trigger] s[i]).0 != key,
    ensures
        find_blob(s, key) is None,
    decreases s.len(),
{
    if s.len() > 0 {
        let f = s.drop_last();
        assert(forall|j: int| 0 <= j < f.len() ==> f[j] == s[j]);
        assert(s[s.len() - 1].0 != key);
        lemma_find_none(f, key);
    }
}

proof fn lemma_find_some(s: Blobs, key: Seq<char>)
    ensures
        (match find_blob(s, key) {
            Some(i) => 0 <= i < s.len() && s[i].0 == key,
            None => forall|i: int| 0 <= i < s.len() ==> (#[trigger] s[i]).0 != key,
        }),
    decreases s.len(),
{
    if s.len() > 0 {
        let f = s.drop_last();
        assert(forall|j: int| 0 <= j < f.len() ==> f[j] == s[j]);
        lemma_find_some(f, key);
        if find_blob(s, key) is None {
            assert forall|i: int| 0 <= i < s.len() implies (#[trigger] s[i]).0 != key by {
                if i < f.len() {
                    assert(f[i] == s[i]);
                }
            }
        }
    }
}

proof fn lemma_total_first(s: Blobs)
    requires
        s.len() > 0,
    ensures
        total(s) == s[0].1.len() + total(s.drop_first()),
    decreases s.len(),
{
    if s.len() == 1 {
        assert(s.drop_last() =~= Seq::empty());
        assert(s.drop_first() =~= Seq::empty());
    } else {
        lemma_total_first(s.drop_last());
        assert(s.drop_last().drop_first() =~= s.drop_first().drop_last());
        assert(s.drop_first().last() == s.last());
    }
}

proof fn lemma_total_remove(s: Blobs, i: int)
    requires
        0 <= i < s.len(),
    ensures
        total(s.remove(i)) + s[i].1.len() == total(s),
    decreases s.len(),
{
    if i == s.len() - 1 {
        assert(s.remove(i) =~= s.drop_last());
    } else {
        lemma_total_remove(s.drop_last(), i);
        assert(s.remove(i).drop_last() =~= s.drop_last().remove(i));
        assert(s.remove(i).last() == s.last());
    }
}

impl Lru {
    /// The blobs in the order in which they were used.
    pub closed spec fn blobs(&self) -> Blobs {
        blob_views(self.entries@)
    }

    /// How many bytes may be held.
    pub closed spec fn spec_budget(&self) -> nat {
        self.budget as nat
    }

    #[verifier::type_invariant]
    spec fn inv(&self) -> bool {
        &&& distinct_keys(blob_views(self.entries@))
        &&& self.used == total(blob_views(self.entries@))
        &&& self.budget >= MIN_BUDGET
    }

    /// An empty cache. It may hold at least a minimum.
    pub fn new(budget_bytes: usize) -> (r: Self)
        ensures
            r.blobs() == Seq::<(Seq<char>, Seq<u8>)>::empty(),
            r.spec_budget() == budget_of(budget_bytes as nat),
            r.spec_budget() == (if budget_bytes < MIN_BUDGET {
                MIN_BUDGET as nat
            } else {
                budget_bytes as nat
            }),
    {
        let budget = if budget_bytes < MIN_BUDGET {
            MIN_BUDGET
        } else {
            budget_bytes
        };
        let entries: Vec<(String, Arc<Vec<u8>>)> = Vec::new();
        assert(blob_views(entries@) =~= Seq::empty());
        Lru { entries, used: 0, budget }
    }

    fn position(entries: &Vec<(String, Arc<Vec<u8>>)>, key: &str) -> (r: Option<usize>)
        requires
            distinct_keys(blob_views(entries@)),
        ensures
            (match r {
                Some(i) => i < entries@.len() && find_blob(blob_views(entries@), key@) == Some(
                    i as int,
                ),
                None => find_blob(blob_views(entries@), key@) is None,
            }),
    {
        let ghost s = blob_views(entries@);
        let mut i: usize = 0;
        while i < entries.len()
            invariant
                s == blob_views(entries@),
                distinct_keys(s),
                i <= entries@.len(),
                forall|j: int| 0 <= j < i ==> (#[trigger] s[j]).0 != key@,
            decreases entries@.len() - i,
        {
            if same_text(entries[i].0.as_str(), key) {
                proof {
                    assert(s[i as int].0 == key@);
                    lemma_find(s, key@, i as int);
                }
                return Some(i);
            }
            i = i + 1;
        }
        proof {
            lemma_find_none(s, key@);
        }
        None
    }

    /// The blob of a key, which is thereby used.
    pub fn get(&mut self, key: &str) -> (r: Option<Arc<Vec<u8>>>)
        ensures
            (match r {
                Some(b) => match find_blob(old(self).blobs(), key@) {
                    Some(i) => b@ == old(self).blobs()[i].1,
                    None => false,
                },
                None => find_blob(old(self).blobs(), key@) is None,
            }),
            final(self).blobs() == bumped(old(self).blobs(), key@),
            final(self).spec_budget() == old(self).spec_budget(),
    {
        proof {
            use_type_invariant(&*self);
        }
        let ghost s = self.blobs();
        match Lru::position(&self.entries, key) {
            Some(i) => {
                let mut taken = Lru::new(self.budget);
                std::mem::swap(self, &mut taken);
                let mut entries = taken.entries;
                let used = taken.used;
                let budget = taken.budget;
                let e = entries.remove(i);
                let blob = e.1.clone();
                entries.push(e);
                proof {
                    assert(blob_views(entries@) =~= bumped(s, key@));
                    lemma_total_remove(s, i as int);
                    let m = bumped(s, key@);
                    assert(m.drop_last() =~= s.remove(i as int));
                    assert forall|a: int, b: int| 0 <= a < b < m.len() implies (#[trigger] m[a]).0
                        != (#[trigger] m[b]).0 by {
                        let a0 = if a < i {
                            a
                        } else {
                            a + 1
                        };
                        let b0 = if b == m.len() - 1 {
                            i as int
                        } else if b < i {
                            b
                        } else {
                            b + 1
                        };
                        assert(m[a] == s[a0] && m[b] == s[b0]);
                        if a0 < b0 {
                            assert(s[a0].0 != s[b0].0);
                        } else {
                            assert(s[b0].0 != s[a0].0);
                        }
                    }
                }
                *self = Lru { entries, used, budget };
                Some(blob)
            },
            None => None,
        }
    }

    /// Whether a blob can be counted, where it is not there yet.
    pub fn can_put(&self, key: &str, blob: &Arc<Vec<u8>>) -> (r: bool)
        ensures
            r == (find_blob(self.blobs(), key@) is None ==> total(self.blobs()) + blob@.len()
                <= usize::MAX),
    {
        proof {
            use_type_invariant(self);
        }
        let n = blob.len();
        self.used <= usize::MAX - n || Lru::position(&self.entries, key).is_some()
    }

    /// Takes a blob in, and lets go of what does not fit any more.
    pub fn put(&mut self, key: String, blob: Arc<Vec<u8>>)
        requires
            find_blob(old(self).blobs(), key@) is None ==> total(old(self).blobs()) + blob@.len()
                <= usize::MAX,
        ensures
            final(self).blobs() == stored(
                old(self).blobs(),
                key@,
                blob@,
                old(self).spec_budget(),
            ),
            final(self).spec_budget() == old(self).spec_budget(),
    {
        proof {
            use_type_invariant(&*self);
        }
        let ghost s = self.blobs();
        if Lru::position(&self.entries, key.as_str()).is_some() {
            return;
        }
        let ghost k = key@;
        let ghost b = blob@;
        let mut taken = Lru::new(self.budget);
        std::mem::swap(self, &mut taken);
        let budget = taken.budget;
        let mut used = taken.used + blob.len();
        let mut entries = taken.entries;
        entries.push((key, blob));
        let ghost s1 = s.push((k, b));
        proof {
            lemma_find_some(s, k);
            assert(blob_views(entries@) =~= s1);
            assert(s1.drop_last() =~= s);
            assert forall|i: int, j: int| 0 <= i < j < s1.len() implies (#[trigger] s1[i]).0 != (
            #[trigger] s1[j]).0 by {
                assert(s1[i] == s[i]);
                if j < s.len() {
                    assert(s1[j] == s[j]);
                }
            }
        }
        while used > budget && entries.len() > 1
            invariant
                distinct_keys(blob_views(entries@)),
                used == total(blob_views(entries@)),
                trimmed(blob_views(entries@), budget as nat) == trimmed(s1, budget as nat),
            decreases entries@.len(),
        {
            let ghost e = blob_views(entries@);
            proof {
                lemma_total_first(e);
            }
            let old_entry = entries.remove(0);
            proof {
                assert(blob_views(entries@) =~= e.drop_first());
                assert forall|i: int, j: int|
                    0 <= i < j < e.drop_first().len() implies (#[trigger] e.drop_first()[i]).0 != (
                #[trigger] e.drop_first()[j]).0 by {
                    assert(e[i + 1].0 != e[j + 1].0);
                }
            }
            used = used - old_entry.1.len();
        }
        *self = Lru { entries, used, budget };
    }
}

/// Cuts the bytes that a read asks for out of a blob.
pub fn reply_slice(blob: &Vec<u8>, offset: i64, size: u32) -> (r: Vec<u8>)
    ensures
        r@ == writes::part(blob@, offset, size),
{
    part_of(blob, offset, size)
}

/// The number of bytes that a cache may hold, for one that is asked for.
pub open spec fn budget_of(bytes: nat) -> nat {
    if bytes < MIN_BUDGET {
        MIN_BUDGET as nat
    } else {
        bytes
    }
}

/// By what a blob is cached: its checksum, so that the same content is fetched once for all
/// contexts, or else the document.
pub open spec fn blob_key(
    workspace_id: Seq<char>,
    doc_id: u64,
    checksum: Option<Seq<char>>,
) -> Seq<char> {
    match checksum {
        Some(c) => c,
        None => workspace_id + "/"@ + text::decimal(doc_id as nat),
    }
}

/// Makes the key by which a blob is cached.
pub fn cache_key(workspace_id: &str, doc_id: u64, checksum: &Option<String>) -> (r: String)
    ensures
        r@ == blob_key(workspace_id@, doc_id, crate::api::option_text(*checksum)),
{
    match checksum {
        Some(c) => copy_text(c.as_str()),
        None => {
            let mut out = copy_text(workspace_id);
            out.append("/");
            out.append(decimal_text(doc_id).as_str());
            out
        },
    }
}

/// Blobs, and the reads that wait for them. No read waits for the network: one that finds nothing
/// in the cache is queued on the download of its blob, which is started once.
pub struct BlobStore {
    cache: Lru,
    /// The downloads that are under way, each with the reads that wait for it
    in_flight: StrMap<Vec<PendingRead>>,
}

/// The reads that wait.
pub open spec fn read_views(s: Seq<PendingRead>) -> Seq<(i64, u32, u64)> {
    Seq::new(s.len(), |i: int| (s[i].offset, s[i].size, s[i].reply))
}

/// The reads that wait, with one more for a download: behind those that wait for it, or alone
/// where it has to be started.
pub open spec fn queued(
    waiting: Map<Seq<char>, Seq<(i64, u32, u64)>>,
    key: Seq<char>,
    read: (i64, u32, u64),
) -> Map<Seq<char>, Seq<(i64, u32, u64)>> {
    if waiting.contains_key(key) {
        waiting.insert(key, waiting[key].push(read))
    } else {
        waiting.insert(key, seq![read])
    }
}

/// The answers to the reads that waited.
pub open spec fn answers(waiters: Seq<(i64, u32, u64)>, blob: Option<Seq<u8>>) -> Seq<
    (u64, Option<Seq<u8>>),
> {
    Seq::new(
        waiters.len(),
        |i: int|
            (
                waiters[i].2,
                match blob {
                    Some(b) => Some(writes::part(b, waiters[i].0, waiters[i].1)),
                    None => None,
                },
            ),
    )
}

/// The bytes of a blob that may be absent.
pub open spec fn option_bytes(b: Option<Arc<Vec<u8>>>) -> Option<Seq<u8>> {
    match b {
        Some(b) => Some(b@),
        None => None,
    }
}

/// What some answers say.
pub open spec fn answer_views(s: Seq<Answer>) -> Seq<(u64, Option<Seq<u8>>)> {
    Seq::new(
        s.len(),
        |i: int|
            (
                s[i].reply,
                match s[i].data {
                    Some(d) => Some(d@),
                    None => None,
                },
            ),
    )
}

impl BlobStore {
    /// The blobs in the cache.
    pub closed spec fn blobs(&self) -> Blobs {
        self.cache.blobs()
    }

    /// How many bytes the cache may hold.
    pub closed spec fn spec_budget(&self) -> nat {
        self.cache.spec_budget()
    }

    /// The reads that wait for each download.
    pub closed spec fn waiting(&self) -> Map<Seq<char>, Seq<(i64, u32, u64)>> {
        self.in_flight@.map_values(|v: Vec<PendingRead>| read_views(v@))
    }

    /// Nothing is cached and nothing is under way.
    pub fn new(budget_bytes: usize) -> (r: Self)
        ensures
            r.blobs() == Seq::<(Seq<char>, Seq<u8>)>::empty(),
            r.waiting() == Map::<Seq<char>, Seq<(i64, u32, u64)>>::empty(),
            r.spec_budget() == budget_of(budget_bytes as nat),
            r.spec_budget() == (if budget_bytes < MIN_BUDGET {
                MIN_BUDGET as nat
            } else {
                budget_bytes as nat
            }),
    {
        let r = BlobStore { cache: Lru::new(budget_bytes), in_flight: StrMap::new() };
        assert(r.waiting() =~= Map::<Seq<char>, Seq<(i64, u32, u64)>>::empty());
        r
    }

    /// Serves a read from the cache, or queues it on the download of its blob.
    pub fn read(
        &mut self,
        key: &str,
        workspace_id: &str,
        doc_id: u64,
        pending: PendingRead,
    ) -> (r: ReadStep)
        ensures
            final(self).blobs() == bumped(old(self).blobs(), key@),
            final(self).spec_budget() == old(self).spec_budget(),
            (match r {
                ReadStep::Data(d) => match find_blob(old(self).blobs(), key@) {
                    Some(i) => d@ == writes::part(
                        old(self).blobs()[i].1,
                        pending.offset,
                        pending.size,
                    ) && final(self).waiting() == old(self).waiting(),
                    None => false,
                },
                ReadStep::Wait => find_blob(old(self).blobs(), key@) is None
                    && old(self).waiting().contains_key(key@) && final(self).waiting() == queued(
                    old(self).waiting(),
                    key@,
                    (pending.offset, pending.size, pending.reply),
                ),
                ReadStep::Fetch(job) => find_blob(old(self).blobs(), key@) is None
                    && !old(self).waiting().contains_key(key@) && final(self).waiting() == queued(
                    old(self).waiting(),
                    key@,
                    (pending.offset, pending.size, pending.reply),
                ) && job.key@ == key@ && job.workspace_id@ == workspace_id@ && job.doc_id
                    == doc_id,
            }),
    {
        let ghost w0 = self.waiting();
        let ghost p = (pending.offset, pending.size, pending.reply);
        if let Some(blob) = self.cache.get(key) {
            return ReadStep::Data(reply_slice(&*blob, pending.offset, pending.size));
        }
        match self.in_flight.remove(key) {
            Some(mut waiters) => {
                let ghost v = read_views(waiters@);
                waiters.push(pending);
                proof {
                    assert(read_views(waiters@) =~= v.push(p));
                }
                self.in_flight.insert(copy_text(key), waiters);
                assert(self.waiting() =~= w0.insert(key@, w0[key@].push(p)));
                ReadStep::Wait
            },
            None => {
                let mut waiters: Vec<PendingRead> = Vec::new();
                waiters.push(pending);
                assert(read_views(waiters@) =~= seq![p]);
                self.in_flight.insert(copy_text(key), waiters);
                assert(self.waiting() =~= w0.insert(key@, seq![p]));
                ReadStep::Fetch(
                    FetchJob {
                        key: copy_text(key),
                        workspace_id: copy_text(workspace_id),
                        doc_id,
                    },
                )
            },
        }
    }

    /// Whether a blob can be counted, where it is not there yet.
    pub fn can_take(&self, key: &str, blob: &Arc<Vec<u8>>) -> (r: bool)
        ensures
            r == (find_blob(self.blobs(), key@) is None ==> total(self.blobs()) + blob@.len()
                <= usize::MAX),
    {
        self.cache.can_put(key, blob)
    }

    /// Ends a download: what was fetched goes into the cache, and each read that waited is
    /// answered, by an error where the download failed.
    pub fn fetched(&mut self, key: &str, result: Option<Arc<Vec<u8>>>) -> (r: Vec<Answer>)
        requires
            (match result {
                Some(b) => find_blob(old(self).blobs(), key@) is None ==> total(old(self).blobs())
                    + b@.len() <= usize::MAX,
                None => true,
            }),
        ensures
            answer_views(r@) == answers(
                if old(self).waiting().contains_key(key@) {
                    old(self).waiting()[key@]
                } else {
                    Seq::empty()
                },
                option_bytes(result),
            ),
            final(self).waiting() == old(self).waiting().remove(key@),
            final(self).spec_budget() == old(self).spec_budget(),
            final(self).blobs() == (match result {
                Some(b) => stored(old(self).blobs(), key@, b@, old(self).spec_budget()),
                None => old(self).blobs(),
            }),
    {
        let ghost w0 = self.waiting();
        let waiters: Vec<PendingRead> = match self.in_flight.remove(key) {
            Some(w) => w,
            None => Vec::new(),
        };
        proof {
            assert(self.waiting() =~= w0.remove(key@));
            assert(read_views(waiters@) =~= (if w0.contains_key(key@) {
                w0[key@]
            } else {
                Seq::empty()
            }));
        }
        let ghost fetched = option_bytes(result);
        if let Some(b) = &result {
            self.cache.put(copy_text(key), b.clone());
        }
        let ghost all = answers(read_views(waiters@), fetched);
        let mut out: Vec<Answer> = Vec::new();
        let n = waiters.len();
        let mut i: usize = 0;
        while i < n
            invariant
                n == waiters@.len(),
                i <= n,
                fetched == option_bytes(result),
                all == answers(read_views(waiters@), fetched),
                answer_views(out@) == all.take(i as int),
            decreases n - i,
        {
            let ghost o = answer_views(out@);
            let w = &waiters[i];
            let data = match &result {
                Some(b) => Some(reply_slice(&**b, w.offset, w.size)),
                None => None,
            };
            out.push(Answer { reply: w.reply, data });
            proof {
                assert(answer_views(out@) =~= o.push(all[i as int]));
                assert(all.take(i + 1) =~= all.take(i as int).push(all[i as int]));
            }
            i = i + 1;
        }
        assert(all.take(n as int) =~= all);
        out
    }
}

// ── laws ─────────────────────────────────────────────────────────────────────

/// However many blobs come in, the cache holds no more than it may, or holds a single blob.
pub proof fn law_cache_keeps_its_budget(s: Blobs, budget: nat)
    ensures
        total(trimmed(s, budget)) <= budget || trimmed(s, budget).len() <= 1,
    decreases s.len(),
{
    if s.len() > 1 && total(s) > budget {
        law_cache_keeps_its_budget(s.drop_first(), budget);
    }
}

/// The blob that came in last stays, and what goes are those that were not used for the longest
/// time: what is left is the end of what was there.
pub proof fn law_cache_keeps_the_latest(s: Blobs, budget: nat)
    requires
        s.len() > 0,
    ensures
        trimmed(s, budget).len() > 0,
        trimmed(s, budget).last() == s.last(),
        trimmed(s, budget) == s.skip(s.len() - trimmed(s, budget).len()),
        trimmed(s, budget).len() <= s.len(),
    decreases s.len(),
{
    if s.len() > 1 && total(s) > budget {
        let f = s.drop_first();
        law_cache_keeps_the_latest(f, budget);
        let n = trimmed(s, budget).len();
        assert(f.skip(f.len() - n) =~= s.skip(s.len() - n));
    } else {
        assert(s.skip(0) =~= s);
    }
}

/// A blob that came in is what is then read for its key.
pub proof fn law_read_after_fetch(s: Blobs, key: Seq<char>, blob: Seq<u8>, budget: nat)
    requires
        find_blob(s, key) is None,
    ensures
        ({
            let t = stored(s, key, blob, budget);
            find_blob(t, key) == Some(t.len() - 1) && t.last().1 == blob
        }),
{
    law_cache_keeps_the_latest(s.push((key, blob)), budget);
    let t = stored(s, key, blob, budget);
    assert(t.last() == (key, blob));
}

/// The reads that wait, after some more for one download.
pub open spec fn all_queued(
    waiting: Map<Seq<char>, Seq<(i64, u32, u64)>>,
    key: Seq<char>,
    reads: Seq<(i64, u32, u64)>,
) -> Map<Seq<char>, Seq<(i64, u32, u64)>>
    decreases reads.len(),
{
    if reads.len() == 0 {
        waiting
    } else {
        queued(all_queued(waiting, key, reads.drop_last()), key, reads.last())
    }
}

/// However many reads of a blob come in before it is there, its download is started once, by the
/// first of them, and when it ends each of them is answered, with its own part of the blob.
pub proof fn law_one_download_answers_all(
    waiting: Map<Seq<char>, Seq<(i64, u32, u64)>>,
    key: Seq<char>,
    reads: Seq<(i64, u32, u64)>,
    blob: Option<Seq<u8>>,
)
    requires
        !waiting.contains_key(key),
        reads.len() > 0,
    ensures
        forall|i: int|
            0 <= i <= reads.len() ==> (#[trigger] all_queued(
                waiting,
                key,
                reads.take(i),
            ).contains_key(key) <==> i > 0),
        ({
            let w = all_queued(waiting, key, reads);
            let a = answers(w[key], blob);
            &&& w.remove(key) == waiting
            &&& a.len() == reads.len()
            &&& forall|i: int|
                0 <= i < reads.len() ==> #[trigger] a[i] == (
                    reads[i].2,
                    match blob {
                        Some(b) => Some(writes::part(b, reads[i].0, reads[i].1)),
                        None => None,
                    },
                )
        }),
{
    assert forall|i: int| 0 <= i <= reads.len() implies (#[trigger] all_queued(
        waiting,
        key,
        reads.take(i),
    ).contains_key(key) <==> i > 0) by {
        lemma_all_queued(waiting, key, reads.take(i));
    }
    lemma_all_queued(waiting, key, reads);
    assert(all_queued(waiting, key, reads).remove(key) =~= waiting);
}

proof fn lemma_all_queued(
    waiting: Map<Seq<char>, Seq<(i64, u32, u64)>>,
    key: Seq<char>,
    reads: Seq<(i64, u32, u64)>,
)
    requires
        !waiting.contains_key(key),
    ensures
        all_queued(waiting, key, reads) == (if reads.len() == 0 {
            waiting
        } else {
            waiting.insert(key, reads)
        }),
    decreases reads.len(),
{
    if reads.len() > 0 {
        let before = reads.drop_last();
        lemma_all_queued(waiting, key, before);
        assert(before.push(reads.last()) =~= reads);
        if before.len() == 0 {
            assert(seq![reads.last()] =~= reads);
        }
        assert(all_queued(waiting, key, reads) =~= waiting.insert(key, reads));
    }
}

/// A blob is found under its key and under no other.
pub proof fn law_blobs_are_found_by_key(s: Blobs, key: Seq<char>)
    ensures
        (match find_blob(s, key) {
            Some(i) => 0 <= i < s.len() && s[i].0 == key,
            None => forall|i: int| 0 <= i < s.len() ==> (#[trigger] s[i]).0 != key,
        }),
    decreases s.len(),
{
    if s.len() > 0 && s.last().0 != key {
        law_blobs_are_found_by_key(s.drop_last(), key);
        if find_blob(s, key) is None {
            assert forall|i: int| 0 <= i < s.len() implies (#[trigger] s[i]).0 != key by {
                if i < s.len() - 1 {
                    assert(s.drop_last()[i] == s[i]);
                }
            }
        }
    }
}

/// A blob that is used becomes the one that was used last; the others keep their order, and none
/// comes or goes.
pub proof fn law_use_counts(s: Blobs, key: Seq<char>, i: int)
    requires
        distinct_keys(s),
        0 <= i < s.len(),
        s[i].0 == key,
    ensures
        bumped(s, key).len() == s.len(),
        bumped(s, key).last() == s[i],
        bumped(s, key).drop_last() == s.take(i) + s.skip(i + 1),
{
    law_blobs_are_found_by_key(s, key);
    let j = find_blob(s, key)->0;
    if j < i {
        assert(s[j].0 != s[i].0);
    }
    if i < j {
        assert(s[i].0 != s[j].0);
    }
    assert(bumped(s, key).drop_last() =~= s.take(i) + s.skip(i + 1));
}

/// Looking for a blob that is not there changes nothing.
pub proof fn law_miss_changes_nothing(s: Blobs, key: Seq<char>)
    requires
        forall|i: int| 0 <= i < s.len() ==> (#[trigger] s[i]).0 != key,
    ensures
        bumped(s, key) == s,
{
    law_blobs_are_found_by_key(s, key);
}

/// The size of some blobs is that of each of them, taken together.
pub proof fn law_total(s: Blobs, key: Seq<char>, blob: Seq<u8>)
    ensures
        total(s.push((key, blob))) == total(s) + blob.len(),
        total(Seq::empty()) == 0,
{
    assert(s.push((key, blob)).drop_last() =~= s);
}

/// No more blobs go than have to: with one more than stays, the cache would hold too much.
pub proof fn law_cache_lets_go_of_no_more_than_it_must(s: Blobs, budget: nat)
    requires
        s.len() > 0,
    ensures
        ({
            let n = trimmed(s, budget).len();
            n < s.len() ==> total(s.skip(s.len() - n - 1)) > budget
        }),
        total(s) <= budget ==> trimmed(s, budget) == s,
    decreases s.len(),
{
    if s.len() > 1 && total(s) > budget {
        let f = s.drop_first();
        law_cache_lets_go_of_no_more_than_it_must(f, budget);
        law_cache_keeps_the_latest(f, budget);
        let n = trimmed(s, budget).len();
        if n == f.len() {
            assert(s.skip(0) =~= s);
        } else {
            assert(f.skip(f.len() - n - 1) =~= s.skip(s.len() - n - 1));
        }
    }
}

/// A blob that is there already is not replaced; one that is not comes in behind the others. Where
/// the cache then held too much, those that were used longest ago go: no more than have to, and
/// never the new one.
pub proof fn law_blobs_come_in(s: Blobs, key: Seq<char>, blob: Seq<u8>, budget: nat)
    ensures
        (exists|i: int| 0 <= i < s.len() && (#[trigger] s[i]).0 == key) ==> stored(
            s,
            key,
            blob,
            budget,
        ) == s,
        (forall|i: int| 0 <= i < s.len() ==> (#[trigger] s[i]).0 != key) && total(s) + blob.len()
            <= budget ==> stored(s, key, blob, budget) == s.push((key, blob)),
        (forall|i: int| 0 <= i < s.len() ==> (#[trigger] s[i]).0 != key) ==> {
            let r = stored(s, key, blob, budget);
            let all = s.push((key, blob));
            let n = r.len();
            &&& 0 < n <= all.len() && r == all.skip(all.len() - n)
            &&& total(r) <= budget || r == seq![(key, blob)]
            &&& n < all.len() ==> total(all.skip(all.len() - n - 1)) > budget
        },
{
    law_blobs_are_found_by_key(s, key);
    law_total(s, key, blob);
    let all = s.push((key, blob));
    law_cache_keeps_its_budget(all, budget);
    law_cache_keeps_the_latest(all, budget);
    law_cache_lets_go_of_no_more_than_it_must(all, budget);
    let r = trimmed(all, budget);
    assert(all.last() == (key, blob));
    if r.len() == 1 {
        assert(r =~= seq![(key, blob)]);
    }
}

/// Content with a checksum is cached once for all documents that have it; without one, each
/// document of each workspace has its own place.
pub proof fn law_blob_keys(
    ws: Seq<char>,
    doc: u64,
    ws2: Seq<char>,
    doc2: u64,
    checksum: Seq<char>,
)
    ensures
        blob_key(ws, doc, Some(checksum)) == checksum,
        blob_key(ws, doc, None) == ws + seq!['/'] + text::decimal(doc as nat),
        blob_key(ws, doc, None) == blob_key(ws2, doc2, None) && ws == ws2 ==> doc == doc2,
{
    reveal_strlit("/");
    assert("/"@ =~= seq!['/']);
    if blob_key(ws, doc, None) == blob_key(ws2, doc2, None) && ws == ws2 {
        let n = (ws.len() + 1) as int;
        assert(blob_key(ws, doc, None).skip(n) =~= text::decimal(doc as nat));
        assert(blob_key(ws2, doc2, None).skip(n) =~= text::decimal(doc2 as nat));
        crate::content_laws::law_decimal(doc as nat);
        crate::content_laws::law_decimal(doc2 as nat);
    }
}

/// A cache may hold what it is asked to, and eight mebibytes where that is less.
pub proof fn law_budgets(bytes: nat)
    ensures
        budget_of(bytes) >= bytes,
        budget_of(bytes) >= 8 * 1024 * 1024,
        budget_of(bytes) == bytes || budget_of(bytes) == 8 * 1024 * 1024,
{
}

} // verus!
