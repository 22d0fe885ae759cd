//! The reassembly cache: buffers the fragments of multi-frame messages,
//! keyed by message id and fragment count, until either every fragment
//! has arrived or the bucket outlives its five-second window.

use vstd::prelude::*;
use crate::frame::{UDPFrame, FrameView, views_of};

verus! {

/// How long a partial message may wait for its missing fragments, in
/// milliseconds.
pub const REASSEMBLY_TTL_MILLIS: u64 = 5000;

/// What a bucket of partial fragments is keyed by.
#[derive(Debug)]
pub struct FrameReceiverCacheKey {
    pub id: String,
    pub order_count: u8,
}

/// One bucket of collected fragments.
#[derive(Debug)]
pub struct CacheEntry {
    pub key: FrameReceiverCacheKey,
    pub created_at: u64,
    pub frames: Vec<UDPFrame>,
}

/// The mathematical shape of a bucket.
pub struct CacheEntryView {
    pub id: Seq<char>,
    pub order_count: u8,
    pub created_at: u64,
    pub frames: Seq<FrameView>,
}

impl View for CacheEntry {
    type V = CacheEntryView;

    open spec fn view(&self) -> CacheEntryView {
        CacheEntryView {
            id: self.key.id@,
            order_count: self.key.order_count,
            created_at: self.created_at,
            frames: views_of(self.frames@),
        }
    }
}

/// The reassembly cache itself: a list of buckets with distinct keys.
#[derive(Debug)]
pub struct FrameReceiverCache {
    entries: Vec<CacheEntry>,
}

impl View for FrameReceiverCache {
    type V = Seq<CacheEntryView>;

    closed spec fn view(&self) -> Seq<CacheEntryView> {
        Seq::new(self.entries@.len(), |i: int| self.entries@[i]@)
    }
}

/// The bucket has outlived its window at time `now`.
pub open spec fn entry_expired(e: CacheEntryView, now: u64) -> bool {
    e.created_at + REASSEMBLY_TTL_MILLIS <= now
}

/// A fragment belongs in the bucket: same message, same fragment count,
/// an index below the count.
pub open spec fn frag_fits(f: FrameView, id: Seq<char>, order_count: u8) -> bool {
    &&& f.id == id
    &&& f.order_count == order_count
    &&& f.order < order_count
}

/// A well-formed bucket: partially filled with fragments of its own
/// message, one per fragment index.
pub open spec fn wf_entry(e: CacheEntryView) -> bool {
    &&& e.order_count >= 1
    &&& 1 <= e.frames.len() < e.order_count
    &&& forall|k: int| 0 <= k < e.frames.len() ==> frag_fits(#[trigger] e.frames[k], e.id, e.order_count)
    &&& forall|k: int, l: int|
        0 <= k < l < e.frames.len() ==> e.frames[k].order != e.frames[l].order
}

/// A well-formed cache: well-formed buckets with distinct keys.
pub open spec fn wf_cache(s: Seq<CacheEntryView>) -> bool {
    &&& forall|i: int| 0 <= i < s.len() ==> wf_entry(#[trigger] s[i])
    &&& forall|i: int, j: int|
        0 <= i < j < s.len() ==> !(s[i].id == s[j].id && s[i].order_count == s[j].order_count)
}

/// The cache with every expired bucket dropped.
pub open spec fn spec_evict(s: Seq<CacheEntryView>, now: u64) -> Seq<CacheEntryView>
    decreases s.len(),
{
    if s.len() == 0 {
        Seq::empty()
    } else {
        let pre = spec_evict(s.drop_last(), now);
        if entry_expired(s.last(), now) {
            pre
        } else {
            pre + seq![s.last()]
        }
    }
}

/// The index of the bucket keyed by `(id, order_count)`, or -1.
pub open spec fn spec_find_key(s: Seq<CacheEntryView>, id: Seq<char>, order_count: u8) -> int
    decreases s.len(),
{
    if s.len() == 0 {
        -1
    } else if s[0].id == id && s[0].order_count == order_count {
        0
    } else {
        let r = spec_find_key(s.drop_first(), id, order_count);
        if r == -1 {
            -1
        } else {
            r + 1
        }
    }
}

/// Some collected fragment already carries this index.
pub open spec fn has_order(frames: Seq<FrameView>, o: u8) -> bool {
    exists|k: int| 0 <= k < frames.len() && frames[k].order == o
}

/// What one call of the cache does.
pub struct IngestOutcome {
    pub cache: Seq<CacheEntryView>,
    pub batch: Option<Seq<FrameView>>,
}

/// The cache's transition: a single-frame message passes straight
/// through; otherwise expired buckets are dropped, then the fragment
/// joins its bucket, and a bucket that became complete is removed and
/// returned.  A fragment already seen, or one whose index is out of
/// range, is dropped.
pub open spec fn spec_ingest(cache: Seq<CacheEntryView>, f: FrameView, now: u64) -> IngestOutcome {
    if f.order_count == 0 {
        IngestOutcome { cache, batch: Some(seq![f]) }
    } else {
        let live = spec_evict(cache, now);
        if f.order >= f.order_count {
            IngestOutcome { cache: live, batch: None }
        } else {
            let i = spec_find_key(live, f.id, f.order_count);
            if i == -1 {
                if f.order_count == 1 {
                    IngestOutcome { cache: live, batch: Some(seq![f]) }
                } else {
                    IngestOutcome {
                        cache: live + seq![
                            CacheEntryView {
                                id: f.id,
                                order_count: f.order_count,
                                created_at: now,
                                frames: seq![f],
                            },
                        ],
                        batch: None,
                    }
                }
            } else {
                let e = live[i];
                if has_order(e.frames, f.order) {
                    IngestOutcome { cache: live, batch: None }
                } else if e.frames.len() + 1 == f.order_count {
                    IngestOutcome { cache: live.remove(i), batch: Some(e.frames + seq![f]) }
                } else {
                    IngestOutcome {
                        cache: live.update(
                            i,
                            CacheEntryView { frames: e.frames + seq![f], ..e },
                        ),
                        batch: None,
                    }
                }
            }
        }
    }
}

/// What eviction keeps: exactly the buckets that are still live.
pub proof fn lemma_evict_contains(s: Seq<CacheEntryView>, now: u64)
    ensures
        forall|x: CacheEntryView|
            #[trigger] spec_evict(s, now).contains(x) <==> (s.contains(x) && !entry_expired(
                x,
                now,
            )),
    decreases s.len(),
{
    if s.len() > 0 {
        lemma_evict_contains(s.drop_last(), now);
        let ev = spec_evict(s, now);
        let pre = spec_evict(s.drop_last(), now);
        assert forall|x: CacheEntryView| #[trigger]
            ev.contains(x) implies (s.contains(x) && !entry_expired(x, now)) by {
            if !entry_expired(s.last(), now) && x == s.last() {
                assert(s.contains(x));
            } else {
                assert(pre.contains(x));
                let i = choose|i: int| 0 <= i < s.drop_last().len() && s.drop_last()[i] == x;
                assert(s[i] == x);
            }
        }
        assert forall|x: CacheEntryView| s.contains(x) && !entry_expired(x, now) implies
            #[trigger] ev.contains(x) by {
            let i = choose|i: int| 0 <= i < s.len() && s[i] == x;
            if i < s.len() - 1 {
                assert(s.drop_last()[i] == x);
                assert(pre.contains(x));
                if !entry_expired(s.last(), now) {
                    let j = choose|j: int| 0 <= j < pre.len() && pre[j] == x;
                    assert(ev[j] == x);
                }
            } else {
                assert(x == s.last());
                assert(ev[ev.len() - 1] == x);
            }
        }
    }
}

/// Every kept bucket stood in the cache.
proof fn lemma_evict_from(s: Seq<CacheEntryView>, now: u64)
    ensures
        forall|j: int|
            0 <= j < spec_evict(s, now).len() ==> s.contains(#[trigger] spec_evict(s, now)[j])
                && !entry_expired(spec_evict(s, now)[j], now),
    decreases s.len(),
{
    if s.len() > 0 {
        lemma_evict_from(s.drop_last(), now);
        let ev = spec_evict(s, now);
        let pre = spec_evict(s.drop_last(), now);
        assert forall|j: int| 0 <= j < ev.len() implies s.contains(#[trigger] ev[j])
            && !entry_expired(ev[j], now) by {
            if j < pre.len() {
                assert(ev[j] == pre[j]);
                assert(s.drop_last().contains(pre[j]));
                let i = choose|i: int| 0 <= i < s.drop_last().len() && s.drop_last()[i] == pre[j];
                assert(s[i] == pre[j]);
            } else {
                assert(ev[j] == s.last());
            }
        }
    }
}

/// Eviction keeps the cache well formed.
pub proof fn lemma_evict_wf(s: Seq<CacheEntryView>, now: u64)
    requires
        wf_cache(s),
    ensures
        wf_cache(spec_evict(s, now)),
    decreases s.len(),
{
    if s.len() > 0 {
        assert(wf_cache(s.drop_last()));
        lemma_evict_wf(s.drop_last(), now);
        let ev = spec_evict(s, now);
        let pre = spec_evict(s.drop_last(), now);
        lemma_evict_from(s.drop_last(), now);
        assert forall|i: int| 0 <= i < ev.len() implies wf_entry(#[trigger] ev[i]) by {
            if i < pre.len() {
                assert(ev[i] == pre[i]);
            } else {
                assert(ev[i] == s.last());
            }
        }
        assert forall|i: int, j: int| 0 <= i < j < ev.len() implies !(ev[i].id == ev[j].id
            && ev[i].order_count == ev[j].order_count) by {
            if j < pre.len() {
                assert(ev[i] == pre[i] && ev[j] == pre[j]);
            } else {
                // ev[j] is the last element of s; ev[i] stood earlier in s
                assert(ev[i] == pre[i]);
                let k = choose|k: int|
                    0 <= k < s.drop_last().len() && s.drop_last()[k] == pre[i];
                assert(s[k] == pre[i]);
                assert(ev[j] == s[s.len() - 1]);
            }
        }
    }
}

/// A found index holds the key; an absent key gives -1.
pub proof fn lemma_find_key_found(s: Seq<CacheEntryView>, id: Seq<char>, oc: u8)
    ensures
        spec_find_key(s, id, oc) == -1 ==> forall|i: int|
            0 <= i < s.len() ==> !(#[trigger] s[i].id == id && s[i].order_count == oc),
        spec_find_key(s, id, oc) != -1 ==> ({
            let f = spec_find_key(s, id, oc);
            &&& 0 <= f < s.len()
            &&& s[f].id == id && s[f].order_count == oc
            &&& forall|i: int| 0 <= i < f ==> !(#[trigger] s[i].id == id && s[i].order_count == oc)
        }),
    decreases s.len(),
{
    if s.len() > 0 {
        lemma_find_key_found(s.drop_first(), id, oc);
        if !(s[0].id == id && s[0].order_count == oc) {
            assert forall|i: int| 1 <= i < s.len() implies s.drop_first()[i - 1] == s[i] by {}
        }
    }
}

/// The index where a scan that saw no earlier match stopped is the
/// found index.
proof fn lemma_find_key_at(s: Seq<CacheEntryView>, id: Seq<char>, oc: u8, j: int)
    requires
        0 <= j <= s.len(),
        forall|k: int| 0 <= k < j ==> !(#[trigger] s[k].id == id && s[k].order_count == oc),
        j < s.len() ==> (s[j].id == id && s[j].order_count == oc),
    ensures
        spec_find_key(s, id, oc) == if j == s.len() {
            -1
        } else {
            j
        },
    decreases s.len(),
{
    if s.len() == 0 {
    } else if s[0].id == id && s[0].order_count == oc {
        assert(j == 0);
    } else {
        assert(j >= 1);
        assert forall|k: int| 0 <= k < j - 1 implies !(#[trigger] s.drop_first()[k].id == id
            && s.drop_first()[k].order_count == oc) by {
            assert(s.drop_first()[k] == s[k + 1]);
        }
        lemma_find_key_at(s.drop_first(), id, oc, j - 1);
    }
}

impl FrameReceiverCache {
    /// An empty cache.
    pub fn new() -> (r: Self)
        ensures
            r@ == Seq::<CacheEntryView>::empty(),
    {
        let r = FrameReceiverCache { entries: Vec::new() };
        proof {
            assert(r@ =~= Seq::<CacheEntryView>::empty());
        }
        r
    }

    /// Drops every bucket that has outlived its window.
    fn evict_expired(&mut self, now: u64)
        ensures
            final(self)@ == spec_evict(old(self)@, now),
    {
        let ghost orig = old(self)@;
        let ghost mut c: int = 0;
        let mut i: usize = 0;
        while i < self.entries.len()
            invariant
                0 <= c <= orig.len(),
                i == spec_evict(orig.subrange(0, c), now).len(),
                self@ =~= spec_evict(orig.subrange(0, c), now) + orig.subrange(c, orig.len() as int),
                i <= self.entries@.len(),
            decreases orig.len() - c,
        {
            let ghost pre = orig.subrange(0, c);
            let ghost cur = orig.subrange(0, c + 1);
            proof {
                assert(cur.drop_last() =~= pre);
                assert(cur.last() == orig[c]);
                assert(self@[i as int] == orig[c]);
            }
            let expired = now >= REASSEMBLY_TTL_MILLIS && self.entries[i].created_at <= now
                - REASSEMBLY_TTL_MILLIS;
            if expired {
                let ghost snap = self@;
                let ghost esnap = self.entries@;
                self.entries.remove(i);
                proof {
                    c = c + 1;
                    assert(entry_expired(orig[c - 1], now));
                    assert(spec_evict(cur, now) == spec_evict(pre, now));
                    assert(cur =~= orig.subrange(0, c));
                    assert(self.entries@ == esnap.remove(i as int));
                    esnap.remove_ensures(i as int);
                    assert(snap == spec_evict(pre, now) + orig.subrange(c - 1, orig.len() as int));
                    assert(i == spec_evict(pre, now).len());
                    assert forall|j: int| 0 <= j < self@.len() implies self@[j] == (spec_evict(
                        pre,
                        now,
                    ) + orig.subrange(c, orig.len() as int))[j] by {
                        let tgt = spec_evict(pre, now) + orig.subrange(c, orig.len() as int);
                        if j < i {
                            assert(self.entries@[j] == esnap[j]);
                            assert(self@[j] == snap[j]);
                            assert(snap[j] == spec_evict(pre, now)[j]);
                            assert(tgt[j] == spec_evict(pre, now)[j]);
                        } else {
                            assert(self.entries@[j] == esnap[j + 1]);
                            assert(self@[j] == snap[j + 1]);
                            let a = spec_evict(pre, now);
                            let b2 = orig.subrange(c - 1, orig.len() as int);
                            assert(snap[j + 1] == (a + b2)[j + 1]);
                            assert(a.len() == i);
                            assert(j + 1 >= a.len());
                            assert(j + 1 < (a + b2).len());
                            assert((a + b2)[j + 1] == b2[j + 1 - a.len()]);
                            assert(b2[j + 1 - i] == orig[c + j - i]);
                            assert(tgt[j] == orig.subrange(c, orig.len() as int)[j - i]);
                            assert(orig.subrange(c, orig.len() as int)[j - i] == orig[c + j - i]);
                        }
                    }
                    assert(self@.len() == self.entries@.len());
                    assert(self@.len() == esnap.len() - 1);
                    assert(snap.len() == spec_evict(pre, now).len() + (orig.len() - (c - 1)));
                    assert(self@.len() == spec_evict(pre, now).len() + (orig.len() - c));
                    assert(self@ =~= spec_evict(pre, now) + orig.subrange(c, orig.len() as int));
                    assert(self@ =~= spec_evict(orig.subrange(0, c), now) + orig.subrange(
                        c,
                        orig.len() as int,
                    ));
                }
            } else {
                i = i + 1;
                proof {
                    c = c + 1;
                    assert(!entry_expired(orig[c - 1], now));
                    assert(spec_evict(orig.subrange(0, c), now) =~= spec_evict(
                        orig.subrange(0, c - 1),
                        now,
                    ) + seq![orig[c - 1]]);
                    assert(self@ =~= spec_evict(orig.subrange(0, c), now) + orig.subrange(
                        c,
                        orig.len() as int,
                    ));
                }
            }
        }
        proof {
            assert(c == orig.len());
            assert(orig.subrange(0, orig.len() as int) =~= orig);
            assert(orig.subrange(orig.len() as int, orig.len() as int)
                =~= Seq::<CacheEntryView>::empty());
            assert(self@ =~= spec_evict(orig, now));
        }
    }
}

impl FrameReceiverCache {
    /// The index of the bucket keyed by `(id, oc)`, or the entry count
    /// when there is none.
    fn find_key_idx(&self, id: &String, oc: u8) -> (r: usize)
        ensures
            r <= self@.len(),
            r == self@.len() ==> spec_find_key(self@, id@, oc) == -1,
            r < self@.len() ==> spec_find_key(self@, id@, oc) == r,
    {
        let mut j: usize = 0;
        while j < self.entries.len()
            invariant
                0 <= j <= self.entries@.len(),
                forall|k: int|
                    0 <= k < j ==> !(#[trigger] self@[k].id == id@ && self@[k].order_count == oc),
            decreases self.entries@.len() - j,
        {
            if self.entries[j].key.order_count == oc && self.entries[j].key.id == *id {
                proof {
                    assert(self@[j as int].id == id@ && self@[j as int].order_count == oc);
                    lemma_find_key_at(self@, id@, oc, j as int);
                }
                return j;
            }
            proof {
                assert(!(self@[j as int].id == id@ && self@[j as int].order_count == oc));
            }
            j = j + 1;
        }
        proof {
            lemma_find_key_at(self@, id@, oc, self@.len() as int);
        }
        j
    }
}

/// Whether some collected fragment already carries index `o`.
fn has_order_exec(frames: &Vec<UDPFrame>, o: u8) -> (r: bool)
    ensures
        r == has_order(views_of(frames@), o),
{
    let mut k: usize = 0;
    while k < frames.len()
        invariant
            0 <= k <= frames@.len(),
            forall|l: int| 0 <= l < k ==> views_of(frames@)[l].order != o,
        decreases frames@.len() - k,
    {
        if frames[k].order == o {
            proof {
                assert(views_of(frames@)[k as int].order == o);
            }
            return true;
        }
        k = k + 1;
    }
    false
}

impl FrameReceiverCache {
    /// Feeds one received frame to the cache: a single-frame message
    /// passes straight through; a fragment joins its bucket after the
    /// expired buckets are dropped, and the full fragment list comes
    /// back on the arrival that completes a message.
    pub fn is_complete(&mut self, frame: UDPFrame, now: u64) -> (r: Option<Vec<UDPFrame>>)
        ensures
            final(self)@ == spec_ingest(old(self)@, frame@, now).cache,
            r is Some <==> spec_ingest(old(self)@, frame@, now).batch is Some,
            r is Some ==> views_of(r.unwrap()@) == spec_ingest(old(self)@, frame@, now)
                .batch.unwrap(),
    {
        let ghost orig = self@;
        let ghost fv = frame@;
        if frame.order_count == 0 {
            let mut v: Vec<UDPFrame> = Vec::new();
            v.push(frame);
            proof {
                assert(views_of(v@) =~= seq![fv]);
            }
            return Some(v);
        }
        self.evict_expired(now);
        let ghost live = self@;
        if frame.order >= frame.order_count {
            return None;
        }
        let oc = frame.order_count;
        let j = self.find_key_idx(&frame.id, oc);
        if j == self.entries.len() {
            if oc == 1 {
                let mut v: Vec<UDPFrame> = Vec::new();
                v.push(frame);
                proof {
                    assert(views_of(v@) =~= seq![fv]);
                }
                return Some(v);
            }
            let key_id = frame.id.clone();
            let mut bucket: Vec<UDPFrame> = Vec::new();
            bucket.push(frame);
            let entry = CacheEntry {
                key: FrameReceiverCacheKey { id: key_id, order_count: oc },
                created_at: now,
                frames: bucket,
            };
            let ghost ev = entry@;
            let ghost esnap = self.entries@;
            self.entries.push(entry);
            proof {
                assert(ev.frames =~= seq![fv]);
                assert(ev == CacheEntryView {
                    id: fv.id,
                    order_count: fv.order_count,
                    created_at: now,
                    frames: seq![fv],
                });
                assert forall|k: int| 0 <= k < self@.len() implies self@[k] == (live + seq![ev])[k]
                    by {
                    if k < esnap.len() {
                        assert(self.entries@[k] == esnap[k]);
                    } else {
                        assert(self.entries@[k] == entry);
                    }
                }
                assert(self@ =~= live + seq![ev]);
            }
            return None;
        }
        let ghost fidx = j as int;
        let ghost esnap = self.entries@;
        let mut e = self.entries.remove(j);
        let ghost eview = e@;
        proof {
            esnap.remove_ensures(fidx);
            assert(eview == live[fidx]);
            assert forall|k: int| 0 <= k < self@.len() implies self@[k] == live.remove(fidx)[k] by {
                if k < fidx {
                    assert(self.entries@[k] == esnap[k]);
                } else {
                    assert(self.entries@[k] == esnap[k + 1]);
                }
            }
            assert(self@ =~= live.remove(fidx));
        }
        if has_order_exec(&e.frames, frame.order) {
            let ghost esnap2 = self.entries@;
            self.entries.insert(j, e);
            proof {
                esnap2.insert_ensures(fidx, esnap[fidx]);
                assert forall|k: int| 0 <= k < self@.len() implies self@[k] == live[k] by {
                    if k < fidx {
                        assert(self.entries@[k] == esnap2[k]);
                        assert(esnap2[k] == esnap[k]);
                    } else if k == fidx {
                        assert(self.entries@[k] == esnap[fidx]);
                    } else {
                        assert(self.entries@[k] == esnap2[k - 1]);
                        assert(esnap2[k - 1] == esnap[k]);
                    }
                }
                assert(self@ =~= live);
            }
            return None;
        }
        e.frames.push(frame);
        proof {
            assert(views_of(e.frames@) =~= eview.frames + seq![fv]);
        }
        if e.frames.len() == (oc as usize) {
            return Some(e.frames);
        }
        let ghost esnap3 = self.entries@;
        let ghost enew = e@;
        self.entries.insert(j, e);
        proof {
            esnap3.insert_ensures(fidx, self.entries@[fidx]);
            assert(enew == CacheEntryView { frames: eview.frames + seq![fv], ..eview });
            let tgt = live.update(fidx, enew);
            assert forall|k: int| 0 <= k < self@.len() implies self@[k] == tgt[k] by {
                if k < fidx {
                    assert(self.entries@[k] == esnap3[k]);
                    assert(esnap3[k] == esnap[k]);
                } else if k == fidx {
                    assert(self.entries@[k]@ == enew);
                } else {
                    assert(self.entries@[k] == esnap3[k - 1]);
                    assert(esnap3[k - 1] == esnap[k]);
                }
            }
            assert(self@ =~= tgt);
        }
        None
    }
}

/// An entry that has outlived its window is dropped before a later
/// insert can observe it.
///
/// This is the cache's expiry law: when the only bucket for a key has
/// expired by `now`, feeding a matching fragment never completes from
/// it; the fragment starts a fresh bucket (or, for a single-fragment
/// message, passes through), and the expired bucket is gone.
pub proof fn lemma_reassembly_ttl(cache: Seq<CacheEntryView>, i: int, f: FrameView, now: u64)
    requires
        wf_cache(cache),
        0 <= i < cache.len(),
        cache[i].id == f.id,
        cache[i].order_count == f.order_count,
        entry_expired(cache[i], now),
        1 <= f.order_count,
        f.order < f.order_count,
    ensures
        !spec_ingest(cache, f, now).cache.contains(cache[i]),
        f.order_count == 1 ==> spec_ingest(cache, f, now).batch == Some(seq![f]),
        f.order_count > 1 ==> spec_ingest(cache, f, now).batch is None,
        f.order_count > 1 ==> spec_ingest(cache, f, now).cache.contains(
            CacheEntryView { id: f.id, order_count: f.order_count, created_at: now, frames: seq![f] },
        ),
{
    let live = spec_evict(cache, now);
    lemma_evict_contains(cache, now);
    lemma_evict_from(cache, now);
    lemma_find_key_found(live, f.id, f.order_count);
    // no live bucket holds the key: the only one that did has expired
    if spec_find_key(live, f.id, f.order_count) != -1 {
        let fi = spec_find_key(live, f.id, f.order_count);
        let x = live[fi];
        assert(cache.contains(x));
        let ci = choose|ci: int| 0 <= ci < cache.len() && cache[ci] == x;
        assert(ci == i);
        assert(false);
    }
    assert(!live.contains(cache[i]));
    if f.order_count > 1 {
        let out = spec_ingest(cache, f, now).cache;
        let fresh = CacheEntryView {
            id: f.id,
            order_count: f.order_count,
            created_at: now,
            frames: seq![f],
        };
        assert(out == live + seq![fresh]);
        assert(out[out.len() - 1] == fresh);
        assert(fresh.created_at == now && cache[i].created_at + REASSEMBLY_TTL_MILLIS <= now);
        assert(fresh != cache[i]);
        assert forall|k: int| 0 <= k < out.len() implies out[k] != cache[i] by {
            if k < live.len() {
                assert(out[k] == live[k]);
                assert(live.contains(live[k]) == (exists|m: int|
                    0 <= m < live.len() && live[m] == live[k]));
            }
        }
    }
}

/// The cache state after feeding a sequence of frames at the matching
/// times, one call each.
pub open spec fn spec_ingest_after(
    cache: Seq<CacheEntryView>,
    fs: Seq<FrameView>,
    ts: Seq<u64>,
) -> Seq<CacheEntryView>
    decreases fs.len(),
{
    if fs.len() == 0 {
        cache
    } else {
        spec_ingest(
            spec_ingest_after(cache, fs.drop_last(), ts.drop_last()),
            fs.last(),
            ts.last(),
        ).cache
    }
}

/// The fragments of one message: a common id, a common count, one
/// fragment per index.
pub open spec fn message_fragments(fs: Seq<FrameView>) -> bool {
    &&& 1 <= fs.len() <= 255
    &&& forall|i: int|
        0 <= i < fs.len() ==> (#[trigger] fs[i].id) == fs[0].id && fs[i].order_count == fs.len()
            && fs[i].order < fs.len()
    &&& forall|i: int, j: int| 0 <= i < j < fs.len() ==> fs[i].order != fs[j].order
}

/// The times of the feeds: none earlier than the first, all within the
/// reassembly window of the first.
pub open spec fn times_within_window(ts: Seq<u64>) -> bool {
    forall|i: int|
        0 <= i < ts.len() ==> ts[0] <= (#[trigger] ts[i]) && ts[i] < ts[0]
            + REASSEMBLY_TTL_MILLIS
}

/// The cache holds no bucket for the key of `f`.
pub open spec fn key_absent(cache: Seq<CacheEntryView>, f: FrameView) -> bool {
    forall|i: int|
        0 <= i < cache.len() ==> !((#[trigger] cache[i].id) == f.id && cache[i].order_count
            == f.order_count)
}

/// The bucket the first `k` feeds build up.
pub open spec fn partial_entry(fs: Seq<FrameView>, ts: Seq<u64>, k: int) -> CacheEntryView {
    CacheEntryView {
        id: fs[0].id,
        order_count: fs[0].order_count,
        created_at: ts[0],
        frames: fs.take(k),
    }
}

proof fn lemma_feed_prefix(
    cache: Seq<CacheEntryView>,
    fs: Seq<FrameView>,
    ts: Seq<u64>,
    k: int,
)
    requires
        wf_cache(cache),
        message_fragments(fs),
        fs.len() >= 2,
        ts.len() == fs.len(),
        times_within_window(ts),
        key_absent(cache, fs[0]),
        1 <= k <= fs.len() - 1,
    ensures
        ({
            let c = spec_ingest_after(cache, fs.take(k), ts.take(k));
            &&& wf_cache(c)
            &&& c.contains(partial_entry(fs, ts, k))
            &&& forall|i: int|
                0 <= i < c.len() && (#[trigger] c[i].id) == fs[0].id && c[i].order_count
                    == fs[0].order_count ==> c[i] == partial_entry(fs, ts, k)
        }),
        spec_ingest(
            spec_ingest_after(cache, fs.take(k - 1), ts.take(k - 1)),
            fs[k - 1],
            ts[k - 1],
        ).batch is None,
    decreases k,
{
    let n = fs.len() as int;
    let oc = fs[0].order_count;
    if k == 1 {
        assert(fs.take(0) =~= Seq::<FrameView>::empty());
        assert(ts.take(0) =~= Seq::<u64>::empty());
        let c0 = spec_ingest_after(cache, fs.take(0), ts.take(0));
        assert(c0 == cache);
        assert(fs.take(1).drop_last() =~= Seq::<FrameView>::empty());
        assert(ts.take(1).drop_last() =~= Seq::<u64>::empty());
        assert(fs.take(1).last() == fs[0]);
        assert(ts.take(1).last() == ts[0]);
        let o = spec_ingest(cache, fs[0], ts[0]);
        let live = spec_evict(cache, ts[0]);
        lemma_evict_from(cache, ts[0]);
        lemma_find_key_found(live, fs[0].id, oc);
        if spec_find_key(live, fs[0].id, oc) != -1 {
            let fi = spec_find_key(live, fs[0].id, oc);
            assert(cache.contains(live[fi]));
            let ci = choose|ci: int| 0 <= ci < cache.len() && cache[ci] == live[fi];
            assert(false);
        }
        lemma_evict_wf(cache, ts[0]);
        let fresh = CacheEntryView { id: fs[0].id, order_count: oc, created_at: ts[0], frames: seq![fs[0]] };
        assert(o.cache == live + seq![fresh]);
        assert(o.batch is None);
        let c1 = spec_ingest_after(cache, fs.take(1), ts.take(1));
        assert(spec_ingest_after(cache, Seq::<FrameView>::empty(), Seq::<u64>::empty()) == cache);
        assert(c1 == o.cache);
        assert(fresh.frames =~= fs.take(1));
        assert(fresh == partial_entry(fs, ts, 1));
        assert(c1[c1.len() - 1] == fresh);
        assert(c1.contains(fresh));
        assert(wf_entry(fresh));
        assert forall|i: int| 0 <= i < c1.len() implies wf_entry(#[trigger] c1[i]) by {
            if i < live.len() {
                assert(c1[i] == live[i]);
            }
        }
        assert forall|i: int, j: int| 0 <= i < j < c1.len() implies !(c1[i].id == c1[j].id
            && c1[i].order_count == c1[j].order_count) by {
            if j < live.len() {
                assert(c1[i] == live[i] && c1[j] == live[j]);
            } else {
                assert(c1[i] == live[i] && c1[j] == fresh);
                assert(!(live[i].id == fs[0].id && live[i].order_count == oc));
            }
        }
        assert forall|i: int|
            0 <= i < c1.len() && (#[trigger] c1[i].id) == fs[0].id && c1[i].order_count == oc
            implies c1[i] == partial_entry(fs, ts, 1) by {
            if i < live.len() {
                assert(c1[i] == live[i]);
                assert(false);
            }
        }
    } else {
        lemma_feed_prefix(cache, fs, ts, k - 1);
        let c = spec_ingest_after(cache, fs.take(k - 1), ts.take(k - 1));
        let our = partial_entry(fs, ts, k - 1);
        assert(fs.take(k).drop_last() =~= fs.take(k - 1));
        assert(ts.take(k).drop_last() =~= ts.take(k - 1));
        assert(fs.take(k).last() == fs[k - 1]);
        assert(ts.take(k).last() == ts[k - 1]);
        let f = fs[k - 1];
        let t = ts[k - 1];
        let o = spec_ingest(c, f, t);
        let ck = spec_ingest_after(cache, fs.take(k), ts.take(k));
        assert(ck == o.cache);
        let live = spec_evict(c, t);
        lemma_evict_wf(c, t);
        lemma_evict_contains(c, t);
        lemma_evict_from(c, t);
        // the bucket under construction survives eviction at t
        assert(our.created_at == ts[0]);
        assert(ts[0] + REASSEMBLY_TTL_MILLIS > t);
        assert(!entry_expired(our, t));
        assert(live.contains(our));
        // the fragment heads for that bucket
        assert(f.order_count == oc && f.id == fs[0].id && f.order < oc);
        lemma_find_key_found(live, f.id, f.order_count);
        let fi = spec_find_key(live, f.id, f.order_count);
        if fi == -1 {
            let wi = choose|wi: int| 0 <= wi < live.len() && live[wi] == our;
            assert(live[wi].id == f.id && live[wi].order_count == f.order_count);
            assert(false);
        }
        assert(c.contains(live[fi]));
        assert(live[fi] == our) by {
            assert(live[fi].id == fs[0].id && live[fi].order_count == oc);
        }
        // no fragment repeats an order, so the bucket grows
        assert(our.frames == fs.take(k - 1));
        if has_order(our.frames, f.order) {
            let d = choose|d: int| 0 <= d < our.frames.len() && our.frames[d].order == f.order;
            assert(fs.take(k - 1)[d] == fs[d]);
            assert(fs[d].order == fs[k - 1].order);
            assert(false);
        }
        assert(our.frames.len() == k - 1);
        assert(k - 1 + 1 < n);
        assert(o.batch is None);
        let enew = CacheEntryView { frames: our.frames + seq![f], ..our };
        assert(ck == live.update(fi, enew));
        assert(enew.frames =~= fs.take(k));
        assert(enew == partial_entry(fs, ts, k));
        assert(ck[fi] == enew);
        assert(ck.contains(enew));
        assert(wf_entry(enew)) by {
            assert forall|l: int| 0 <= l < enew.frames.len() implies frag_fits(
                #[trigger] enew.frames[l],
                enew.id,
                enew.order_count,
            ) by {
                assert(enew.frames[l] == fs[l]);
            }
            assert forall|l: int, m: int| 0 <= l < m < enew.frames.len() implies enew.frames[l]
                .order != enew.frames[m].order by {
                assert(enew.frames[l] == fs[l] && enew.frames[m] == fs[m]);
            }
        }
        assert forall|i: int| 0 <= i < ck.len() implies wf_entry(#[trigger] ck[i]) by {
            if i != fi {
                assert(ck[i] == live[i]);
            }
        }
        assert forall|i: int, j: int| 0 <= i < j < ck.len() implies !(ck[i].id == ck[j].id
            && ck[i].order_count == ck[j].order_count) by {
            assert(ck[i] == if i == fi {
                enew
            } else {
                live[i]
            });
            assert(ck[j] == if j == fi {
                enew
            } else {
                live[j]
            });
        }
        assert forall|i: int|
            0 <= i < ck.len() && (#[trigger] ck[i].id) == fs[0].id && ck[i].order_count == oc
            implies ck[i] == partial_entry(fs, ts, k) by {
            if i != fi {
                assert(ck[i] == live[i]);
                assert(live[i].id == f.id && live[i].order_count == f.order_count);
                lemma_find_key_found(live, f.id, f.order_count);
                assert(live[fi] == our);
                if i < fi {
                    assert(false);
                } else {
                    assert(false);
                }
            }
        }
    }
}

/// Feeding the `N` distinct fragments of a message in any order, at
/// times within the reassembly window, returns the complete batch
/// exactly once: every feed but the last returns nothing, and the last
/// returns all `N` fragments in arrival order.
pub proof fn lemma_reassembly_completeness(
    cache: Seq<CacheEntryView>,
    fs: Seq<FrameView>,
    ts: Seq<u64>,
)
    requires
        wf_cache(cache),
        message_fragments(fs),
        ts.len() == fs.len(),
        times_within_window(ts),
        key_absent(cache, fs[0]),
    ensures
        forall|k: int|
            0 <= k < fs.len() - 1 ==> spec_ingest(
                spec_ingest_after(cache, fs.take(k), ts.take(k)),
                fs[k],
                ts[k],
            ).batch is None,
        spec_ingest(
            spec_ingest_after(cache, fs.take(fs.len() - 1), ts.take(ts.len() - 1)),
            fs.last(),
            ts.last(),
        ).batch == Some(fs),
{
    let n = fs.len() as int;
    let oc = fs[0].order_count;
    assert forall|k: int| 0 <= k < n - 1 implies spec_ingest(
        spec_ingest_after(cache, fs.take(k), ts.take(k)),
        fs[k],
        ts[k],
    ).batch is None by {
        lemma_feed_prefix(cache, fs, ts, k + 1);
    }
    if n == 1 {
        assert(fs.take(0) =~= Seq::<FrameView>::empty());
        assert(ts.take(0) =~= Seq::<u64>::empty());
        let live = spec_evict(cache, ts[0]);
        lemma_evict_from(cache, ts[0]);
        lemma_find_key_found(live, fs[0].id, oc);
        if spec_find_key(live, fs[0].id, oc) != -1 {
            let fi = spec_find_key(live, fs[0].id, oc);
            assert(cache.contains(live[fi]));
            let ci = choose|ci: int| 0 <= ci < cache.len() && cache[ci] == live[fi];
            assert(false);
        }
        assert(spec_ingest(cache, fs[0], ts[0]).batch == Some(seq![fs[0]]));
        assert(seq![fs[0]] =~= fs);
    } else {
        lemma_feed_prefix(cache, fs, ts, n - 1);
        let c = spec_ingest_after(cache, fs.take(n - 1), ts.take(n - 1));
        let our = partial_entry(fs, ts, n - 1);
        let f = fs[n - 1];
        let t = ts[n - 1];
        let live = spec_evict(c, t);
        lemma_evict_wf(c, t);
        lemma_evict_contains(c, t);
        lemma_evict_from(c, t);
        assert(!entry_expired(our, t));
        assert(live.contains(our));
        assert(f.order_count == oc && f.id == fs[0].id && f.order < oc);
        lemma_find_key_found(live, f.id, f.order_count);
        let fi = spec_find_key(live, f.id, f.order_count);
        if fi == -1 {
            let wi = choose|wi: int| 0 <= wi < live.len() && live[wi] == our;
            assert(live[wi].id == f.id && live[wi].order_count == f.order_count);
            assert(false);
        }
        assert(c.contains(live[fi]));
        assert(live[fi] == our) by {
            assert(live[fi].id == fs[0].id && live[fi].order_count == oc);
        }
        if has_order(our.frames, f.order) {
            let d = choose|d: int| 0 <= d < our.frames.len() && our.frames[d].order == f.order;
            assert(fs.take(n - 1)[d] == fs[d]);
            assert(false);
        }
        assert(our.frames.len() == n - 1);
        let o = spec_ingest(c, f, t);
        assert(o.batch == Some(our.frames + seq![f]));
        assert(our.frames + seq![f] =~= fs);
    }
}

} // verus!
