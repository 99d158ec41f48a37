//! The response cache: responses by the canonical text of their address, in
//! the order in which they came, bounded by the sum of their payload sizes.
//! When the bound is passed the oldest leave first.

use crate::message::{Response, ResponseView, Uri};
use std::collections::VecDeque;
use vstd::prelude::*;
use vstd::string::*;

verus! {

/// Upper bound on the sum of the payload sizes that the cache holds.
pub const MAX_CACHE_SIZE: usize = 1_000_000;

/// Largest payload that the cache admits.
pub const MAX_CONTENT_SIZE: usize = 200_000;

/// What the cache holds: pairs of key and response, the oldest first.
pub struct CacheState {
    pub slots: Seq<(Seq<char>, ResponseView)>,
}

/// Index of the first slot with `key`, or the number of slots where there is
/// none.
pub open spec fn find(slots: Seq<(Seq<char>, ResponseView)>, key: Seq<char>) -> int
    decreases slots.len(),
{
    if slots.len() == 0 || slots[0].0 == key {
        0
    } else {
        1 + find(slots.drop_first(), key)
    }
}

/// Sum of the payload sizes of `slots`.
pub open spec fn total(slots: Seq<(Seq<char>, ResponseView)>) -> nat
    decreases slots.len(),
{
    if slots.len() == 0 {
        0
    } else {
        total(slots.drop_last()) + slots.last().1.content.len()
    }
}

/// No two of `slots` have the same key.
pub open spec fn distinct_keys(slots: Seq<(Seq<char>, ResponseView)>) -> bool {
    forall|i: int, j: int|
        0 <= i < slots.len() && 0 <= j < slots.len() && i != j ==> (#[trigger] slots[i]).0 != (
        #[trigger] slots[j]).0
}

/// Sum of the payload sizes that `entries` holds for the keys of `order`.
pub open spec fn content_sum(order: Seq<Seq<char>>, entries: Map<Seq<char>, ResponseView>) -> nat
    decreases order.len(),
{
    if order.len() == 0 {
        0
    } else {
        content_sum(order.drop_last(), entries) + entries[order.last()].content.len()
    }
}

impl CacheState {
    /// The cache that holds nothing.
    pub open spec fn empty() -> CacheState {
        CacheState { slots: Seq::empty() }
    }

    /// The keys in the order in which they came.
    pub open spec fn order(self) -> Seq<Seq<char>> {
        Seq::new(self.slots.len(), |i: int| self.slots[i].0)
    }

    /// The response that is held for `key`.
    pub open spec fn lookup(self, key: Seq<char>) -> Option<ResponseView> {
        let i = find(self.slots, key);
        if i < self.slots.len() {
            Some(self.slots[i].1)
        } else {
            None
        }
    }

    /// The responses by key.
    pub open spec fn entries(self) -> Map<Seq<char>, ResponseView> {
        Map::new(
            |k: Seq<char>| find(self.slots, k) < self.slots.len(),
            |k: Seq<char>| self.slots[find(self.slots, k)].1,
        )
    }

    /// The sum of the payload sizes.
    pub open spec fn bytes(self) -> nat {
        total(self.slots)
    }

    /// Each key is held once, each payload is small enough to be admitted.
    pub open spec fn coherent(self) -> bool {
        &&& distinct_keys(self.slots)
        &&& forall|i: int|
            0 <= i < self.slots.len() ==> (#[trigger] self.slots[i]).1.content.len()
                <= MAX_CONTENT_SIZE
    }

    /// What holds of the cache between any two operations.
    pub open spec fn valid(self) -> bool {
        &&& self.coherent()
        &&& (self.bytes() <= MAX_CACHE_SIZE || self.slots.len() == 0)
    }

    /// The cache without what it holds for `key`.
    pub open spec fn without(self, key: Seq<char>) -> CacheState {
        let i = find(self.slots, key);
        if i < self.slots.len() {
            CacheState { slots: self.slots.remove(i) }
        } else {
            self
        }
    }

    /// The cache with `resp` as the newest, in place of what it held for
    /// `key`.
    pub open spec fn put(self, key: Seq<char>, resp: ResponseView) -> CacheState {
        CacheState { slots: self.without(key).slots.push((key, resp)) }
    }

    /// The cache after the oldest have left, one by one, until the bound is
    /// kept or nothing is held.
    pub open spec fn evict(self) -> CacheState
        decreases self.slots.len(),
    {
        if self.bytes() > MAX_CACHE_SIZE && self.slots.len() > 0 {
            CacheState { slots: self.slots.drop_first() }.evict()
        } else {
            self
        }
    }

    /// The cache after `resp` was offered for `key`: unchanged where the
    /// payload is too large, else with `resp` admitted and the bound restored.
    pub open spec fn insert(self, key: Seq<char>, resp: ResponseView) -> CacheState {
        if resp.content.len() > MAX_CONTENT_SIZE {
            self
        } else {
            self.put(key, resp).evict()
        }
    }
}

pub proof fn lemma_find(slots: Seq<(Seq<char>, ResponseView)>, key: Seq<char>)
    ensures
        0 <= find(slots, key) <= slots.len(),
        find(slots, key) < slots.len() ==> slots[find(slots, key)].0 == key,
        forall|j: int| 0 <= j < find(slots, key) ==> (#[trigger] slots[j]).0 != key,
    decreases slots.len(),
{
    if slots.len() > 0 && slots[0].0 != key {
        let r = slots.drop_first();
        lemma_find(r, key);
        assert forall|j: int| 0 <= j < find(slots, key) implies (#[trigger] slots[j]).0 != key by {
            if j > 0 {
                assert(slots[j] == r[j - 1]);
            }
        }
    }
}

pub proof fn lemma_find_is(slots: Seq<(Seq<char>, ResponseView)>, key: Seq<char>, i: int)
    requires
        0 <= i <= slots.len(),
        i < slots.len() ==> slots[i].0 == key,
        forall|j: int| 0 <= j < i ==> (#[trigger] slots[j]).0 != key,
    ensures
        find(slots, key) == i,
{
    lemma_find(slots, key);
    let f = find(slots, key);
    if f < i {
        assert(slots[f].0 != key);
    } else if i < f {
        assert(slots[i].0 != key);
    }
}

pub proof fn lemma_total_remove(slots: Seq<(Seq<char>, ResponseView)>, i: int)
    requires
        0 <= i < slots.len(),
    ensures
        total(slots.remove(i)) + slots[i].1.content.len() == total(slots),
    decreases slots.len(),
{
    if i == slots.len() - 1 {
        assert(slots.remove(i) =~= slots.drop_last());
    } else {
        lemma_total_remove(slots.drop_last(), i);
        assert(slots.remove(i).drop_last() =~= slots.drop_last().remove(i));
        assert(slots.remove(i).last() == slots.last());
    }
}

/// Taking a slot out keeps the rest coherent.
pub proof fn lemma_remove_coherent(s: CacheState, i: int)
    requires
        s.coherent(),
        0 <= i < s.slots.len(),
    ensures
        (CacheState { slots: s.slots.remove(i) }).coherent(),
        forall|k: int| 0 <= k < s.slots.len() - 1 ==> (#[trigger] s.slots.remove(i)[k]).0
            != s.slots[i].0,
{
    let r = s.slots.remove(i);
    assert forall|a: int, b: int| 0 <= a < r.len() && 0 <= b < r.len() && a != b implies (
    #[trigger] r[a]).0 != (#[trigger] r[b]).0 by {
        let a0 = if a < i {
            a
        } else {
            a + 1
        };
        let b0 = if b < i {
            b
        } else {
            b + 1
        };
        assert(r[a] == s.slots[a0]);
        assert(r[b] == s.slots[b0]);
    }
    assert forall|k: int| 0 <= k < r.len() implies (#[trigger] r[k]).1.content.len()
        <= MAX_CONTENT_SIZE && r[k].0 != s.slots[i].0 by {
        let k0 = if k < i {
            k
        } else {
            k + 1
        };
        assert(r[k] == s.slots[k0]);
    }
}

/// Admitting a response that is small enough keeps the cache coherent, and
/// puts it last.
pub proof fn lemma_put_coherent(s: CacheState, key: Seq<char>, resp: ResponseView)
    requires
        s.coherent(),
        resp.content.len() <= MAX_CONTENT_SIZE,
    ensures
        s.put(key, resp).coherent(),
        s.put(key, resp).slots.len() > 0,
        s.put(key, resp).slots.last() == (key, resp),
        s.put(key, resp).bytes() == s.without(key).bytes() + resp.content.len(),
        s.without(key).coherent(),
        s.without(key).bytes() <= s.bytes(),
        find(s.without(key).slots, key) == s.without(key).slots.len(),
{
    lemma_find(s.slots, key);
    let i = find(s.slots, key);
    let w = s.without(key);
    if i < s.slots.len() {
        lemma_remove_coherent(s, i);
        lemma_total_remove(s.slots, i);
    }
    assert forall|k: int| 0 <= k < w.slots.len() implies (#[trigger] w.slots[k]).0 != key by {}
    lemma_find_is(w.slots, key, w.slots.len() as int);
    let a = w.slots.push((key, resp));
    assert(a.drop_last() =~= w.slots);
    assert forall|x: int, y: int| 0 <= x < a.len() && 0 <= y < a.len() && x != y implies (
    #[trigger] a[x]).0 != (#[trigger] a[y]).0 by {
        if x < w.slots.len() {
            assert(a[x] == w.slots[x]);
        }
        if y < w.slots.len() {
            assert(a[y] == w.slots[y]);
        }
    }
    assert forall|k: int| 0 <= k < a.len() implies (#[trigger] a[k]).1.content.len()
        <= MAX_CONTENT_SIZE by {
        if k < w.slots.len() {
            assert(a[k] == w.slots[k]);
        }
    }
}

/// Eviction keeps a coherent cache coherent, restores the bound, and leaves a
/// newest slot that fits the bound in place.
pub proof fn lemma_evict(s: CacheState)
    requires
        s.coherent(),
    ensures
        s.evict().valid(),
        s.evict().slots.len() <= s.slots.len(),
        s.evict().slots == s.slots.skip(s.slots.len() - s.evict().slots.len()),
        s.bytes() <= MAX_CACHE_SIZE ==> s.evict() == s,
        s.slots.len() > 0 ==> s.evict().slots.len() > 0,
    decreases s.slots.len(),
{
    if s.bytes() > MAX_CACHE_SIZE && s.slots.len() > 0 {
        let r = CacheState { slots: s.slots.drop_first() };
        lemma_remove_coherent(s, 0);
        assert(s.slots.remove(0) =~= s.slots.drop_first());
        lemma_evict(r);
        let n = r.evict().slots.len();
        assert(r.slots.skip(r.slots.len() - n) =~= s.slots.skip(s.slots.len() - n));
        if r.slots.len() == 0 {
            assert(s.slots.len() == 1);
            assert(s.slots.drop_last() =~= Seq::<(Seq<char>, ResponseView)>::empty());
            assert(s.slots.last() == s.slots[0]);
            assert(total(s.slots) == s.slots[0].1.content.len());
        }
    } else {
        assert(s.slots.skip(0) =~= s.slots);
    }
}

/// The cache that holds nothing is valid.
pub proof fn lemma_empty_valid()
    ensures
        CacheState::empty().valid(),
        CacheState::empty().bytes() == 0,
{
}

/// Every offer leaves a valid cache valid: each key is held once, no payload
/// above the admission limit is held, and the sum of the payload sizes keeps
/// the bound.
pub proof fn lemma_insert_valid(s: CacheState, key: Seq<char>, resp: ResponseView)
    requires
        s.valid(),
    ensures
        s.insert(key, resp).valid(),
        resp.content.len() > MAX_CONTENT_SIZE ==> s.insert(key, resp) == s,
{
    if resp.content.len() <= MAX_CONTENT_SIZE {
        lemma_put_coherent(s, key, resp);
        lemma_evict(s.put(key, resp));
    }
}

/// In a valid cache the keys of the map are the keys of the order, each once,
/// and the byte count is the sum of the payload sizes that the map holds.
pub proof fn lemma_state_agrees(s: CacheState)
    requires
        s.coherent(),
    ensures
        s.order().no_duplicates(),
        s.entries().dom() =~= s.order().to_set(),
        s.order().len() == s.slots.len(),
        s.bytes() == content_sum(s.order(), s.entries()),
        forall|k: Seq<char>| #[trigger]
            s.entries().dom().contains(k) ==> s.entries()[k].content.len() <= MAX_CONTENT_SIZE,
        forall|k: Seq<char>|
            s.lookup(k) == if s.entries().dom().contains(k) {
                Some(s.entries()[k])
            } else {
                None
            },
{
    let order = s.order();
    let entries = s.entries();
    assert forall|k: Seq<char>| entries.dom().contains(k) <==> order.to_set().contains(k) by {
        lemma_find(s.slots, k);
        if entries.dom().contains(k) {
            let i = find(s.slots, k);
            assert(order[i] == k);
        }
        if order.to_set().contains(k) {
            let j = choose|j: int| 0 <= j < order.len() && order[j] == k;
            assert(s.slots[j].0 == k);
        }
    }
    assert forall|k: Seq<char>| #[trigger] entries.dom().contains(k) implies entries[k].content.len()
        <= MAX_CONTENT_SIZE by {
        lemma_find(s.slots, k);
    }
    lemma_sum_agrees(s, s.slots.len() as int);
    assert(order.take(order.len() as int) =~= order);
    assert(s.slots.take(s.slots.len() as int) =~= s.slots);
}

proof fn lemma_sum_agrees(s: CacheState, n: int)
    requires
        s.coherent(),
        0 <= n <= s.slots.len(),
    ensures
        total(s.slots.take(n)) == content_sum(s.order().take(n), s.entries()),
    decreases n,
{
    if n > 0 {
        lemma_sum_agrees(s, n - 1);
        let key = s.slots[n - 1].0;
        lemma_find(s.slots, key);
        let f = find(s.slots, key);
        if f != n - 1 {
            assert(s.slots[f].0 == s.slots[n - 1].0);
        }
        assert(s.slots.take(n).drop_last() =~= s.slots.take(n - 1));
        assert(s.order().take(n).drop_last() =~= s.order().take(n - 1));
        assert(s.order().take(n).last() == key);
        assert(s.slots.take(n).last() == s.slots[n - 1]);
    }
}

/// What was offered and is small enough is found: the newest slot never
/// leaves, whatever else has to.
pub proof fn lemma_insert_then_lookup(s: CacheState, key: Seq<char>, resp: ResponseView)
    requires
        s.valid(),
        resp.content.len() <= MAX_CONTENT_SIZE,
    ensures
        s.insert(key, resp).lookup(key) == Some(resp),
{
    lemma_put_coherent(s, key, resp);
    let a = s.put(key, resp);
    lemma_evict(a);
    let e = a.evict();
    let n = e.slots.len();
    assert(e.slots[n - 1] == a.slots[a.slots.len() - 1]);
    assert forall|j: int| 0 <= j < n - 1 implies (#[trigger] e.slots[j]).0 != key by {
        assert(e.slots[j] == a.slots[a.slots.len() - n + j]);
    }
    lemma_find_is(e.slots, key, n - 1);
}

/// Offering the same response for the same key twice leaves the cache as
/// offering it once.
pub proof fn lemma_insert_twice(s: CacheState, key: Seq<char>, resp: ResponseView)
    requires
        s.valid(),
    ensures
        s.insert(key, resp).insert(key, resp) == s.insert(key, resp),
{
    if resp.content.len() <= MAX_CONTENT_SIZE {
        lemma_put_coherent(s, key, resp);
        let a = s.put(key, resp);
        lemma_evict(a);
        let e = a.evict();
        let n = e.slots.len();
        assert(e.slots[n - 1] == a.slots[a.slots.len() - 1]);
        assert forall|j: int| 0 <= j < n - 1 implies (#[trigger] e.slots[j]).0 != key by {
            assert(e.slots[j] == a.slots[a.slots.len() - n + j]);
        }
        lemma_find_is(e.slots, key, n - 1);
        assert(e.slots.remove(n - 1).push((key, resp)) =~= e.slots);
        assert(e.put(key, resp).slots == e.slots);
        lemma_evict(e);
    }
}

/// A slot of the cache as it runs.
#[derive(Debug)]
struct CacheEntry {
    key: String,
    response: Response,
}

/// The response cache: a queue of slots, the oldest at the front, and the
/// sum of their payload sizes.
#[derive(Debug)]
pub struct Cache {
    entries: VecDeque<CacheEntry>,
    size: usize,
}

/// The view of a response that may be absent.
pub open spec fn response_option_view(r: Option<Response>) -> Option<ResponseView> {
    match r {
        Some(r) => Some(r@),
        None => None,
    }
}

impl View for Cache {
    type V = CacheState;

    closed spec fn view(&self) -> CacheState {
        CacheState {
            slots: Seq::new(
                self.entries@.len(),
                |i: int| (self.entries@[i].key@, self.entries@[i].response@),
            ),
        }
    }
}

impl Cache {
    /// The running byte count is the sum of the payload sizes, and what is
    /// held is coherent.
    pub closed spec fn coherent(&self) -> bool {
        &&& self@.coherent()
        &&& self.size == self@.bytes()
    }

    /// The cache is as it is between any two operations.
    pub closed spec fn wf(&self) -> bool {
        &&& self.coherent()
        &&& self@.valid()
    }

    /// A cache that is as it should be holds a valid state.
    pub proof fn lemma_wf(&self)
        requires
            self.wf(),
        ensures
            self@.valid(),
            self.coherent(),
    {
    }

    /// What a coherent cache holds is coherent: no address stands twice in
    /// it.
    pub proof fn lemma_coherent(&self)
        requires
            self.coherent(),
        ensures
            self@.coherent(),
    {
    }

    /// A cache is as it should be exactly when it is coherent and what it
    /// holds is valid.
    pub proof fn lemma_wf_is(&self)
        ensures
            self.wf() <==> self.coherent() && self@.valid(),
    {
    }

    /// A cache that holds nothing.
    pub fn new() -> (c: Cache)
        ensures
            c.wf(),
            c@.valid(),
            c@ == CacheState::empty(),
    {
        let c = Cache { entries: VecDeque::new(), size: 0 };
        assert(c@.slots =~= Seq::<(Seq<char>, ResponseView)>::empty());
        c
    }

    /// The sum of the payload sizes that are held.
    pub fn size(&self) -> (n: usize)
        requires
            self.wf(),
        ensures
            n == self@.bytes(),
            n <= MAX_CACHE_SIZE,
    {
        self.size
    }

    /// The number of responses that are held.
    pub fn len(&self) -> (n: usize)
        ensures
            n == self@.slots.len(),
    {
        self.entries.len()
    }

    /// Index of the slot with `key`, or the number of slots.
    fn position(&self, key: &String) -> (i: usize)
        ensures
            i == find(self@.slots, key@),
            i <= self.entries@.len(),
    {
        let mut i: usize = 0;
        while i < self.entries.len()
            invariant
                i <= self.entries@.len(),
                forall|j: int| 0 <= j < i ==> (#[trigger] self@.slots[j]).0 != key@,
            decreases self.entries@.len() - i,
        {
            if self.entries[i].key == *key {
                assert(self@.slots[i as int].0 == key@);
                proof {
                    lemma_find_is(self@.slots, key@, i as int);
                }
                return i;
            }
            assert(self@.slots[i as int].0 != key@);
            i += 1;
        }
        proof {
            lemma_find_is(self@.slots, key@, i as int);
        }
        i
    }

    /// A copy of the response that is held for `uri`. A hit does not change
    /// the order in which responses leave.
    pub fn lookup(&self, uri: &Uri) -> (r: Option<Response>)
        ensures
            response_option_view(r) == self@.lookup(uri@.canonical()),
    {
        let key = uri.to_string();
        let i = self.position(&key);
        if i < self.entries.len() {
            Some(self.entries[i].response.clone())
        } else {
            None
        }
    }

    /// Lets the oldest responses go until the bound is kept or nothing is
    /// held.
    pub fn evict(&mut self)
        requires
            old(self).coherent(),
        ensures
            final(self).wf(),
            final(self)@.valid(),
            final(self)@ == old(self)@.evict(),
    {
        while self.size > MAX_CACHE_SIZE && self.entries.len() > 0
            invariant
                self.coherent(),
                self@.evict() == old(self)@.evict(),
            decreases self.entries@.len(),
        {
            let ghost before = self@;
            if let Some(gone) = self.entries.pop_front() {
                proof {
                    assert(self@.slots =~= before.slots.drop_first());
                    assert(before.slots.remove(0) =~= before.slots.drop_first());
                    lemma_remove_coherent(before, 0);
                    lemma_total_remove(before.slots, 0);
                    assert(gone.response@ == before.slots[0].1);
                }
                self.size = self.size - gone.response.content.len();
            }
        }
        proof {
            lemma_evict(self@);
        }
    }

    /// Offers `resp` for `uri`. A payload above [`MAX_CONTENT_SIZE`] changes
    /// nothing. Else `resp` takes the place of what was held for `uri`,
    /// becomes the newest, and the oldest leave until the bound is kept.
    pub fn insert(&mut self, uri: &Uri, resp: Response)
        requires
            old(self).wf(),
        ensures
            final(self).wf(),
            final(self)@.valid(),
            final(self)@ == old(self)@.insert(uri@.canonical(), resp@),
    {
        if resp.content.len() > MAX_CONTENT_SIZE {
            return ;
        }
        let key = uri.to_string();
        let ghost start = self@;
        let ghost k = key@;
        let ghost v = resp@;
        proof {
            lemma_put_coherent(start, k, v);
        }
        let i = self.position(&key);
        if let Some(gone) = self.entries.remove(i) {
            proof {
                assert(self@.slots =~= start.slots.remove(i as int));
                lemma_total_remove(start.slots, i as int);
                assert(gone.response@ == start.slots[i as int].1);
            }
            self.size = self.size - gone.response.content.len();
        }
        assert(self@ == start.without(k));
        let ghost w = self@;
        self.size = self.size + resp.content.len();
        self.entries.push_back(CacheEntry { key, response: resp });
        proof {
            assert(self@.slots =~= w.slots.push((k, v)));
            assert(self@.slots.drop_last() =~= w.slots);
        }
        self.evict();
    }
}

/// Looks `uri` up in `cache`.
pub fn find_cache_block(cache: &Cache, uri: &Uri) -> (r: Option<Response>)
    ensures
        response_option_view(r) == cache@.lookup(uri@.canonical()),
{
    cache.lookup(uri)
}

/// Offers `resp` for `uri` to `cache`.
pub fn add_cache_block(cache: &mut Cache, uri: Uri, resp: Response)
    requires
        old(cache).wf(),
    ensures
        final(cache).wf(),
        final(cache)@ == old(cache)@.insert(uri@.canonical(), resp@),
{
    cache.insert(&uri, resp);
}

} // verus!
