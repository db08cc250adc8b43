//! The in-memory cache of decoded handles, bounded by an entry count and
//! evicted in least-recently-used order.
//!
//! Its entries are kept in the order of their last access, oldest first,
//! each stamped with the logical time of that access. That order is the
//! eviction index: the oldest entry is always the first.
use vstd::prelude::*;
use crate::locator::file_path_of;
use crate::request::{Need, Pending, Request};
use crate::url_cache::{fetch_step, DownloadState, UrlCacher};

verus! {

/// What the cache holds for a locator.
pub enum Slot<H> {
    /// A load has been requested and has not completed.
    Loading,
    /// The decoded handle.
    Present(H),
}

struct Entry<H> {
    key: String,
    time: u64,
    slot: Slot<H>,
}

/// Decoded handles by locator, at most `max_size` of them after each
/// eviction pass.
pub struct Cacher<H> {
    entries: Vec<Entry<H>>,
    clock: u64,
    max_size: usize,
}

/// An access order: each entry's locator and slot, least recently used first.
pub type Order<H> = Seq<(Seq<char>, Slot<H>)>;

/// `o` holds an entry for `k`.
pub open spec fn holds<H>(o: Order<H>, k: Seq<char>) -> bool {
    exists|i: int| 0 <= i < o.len() && o[i].0 == k
}

/// Where in `o` the entry for `k` stands.
pub open spec fn position<H>(o: Order<H>, k: Seq<char>) -> int {
    choose|i: int| 0 <= i < o.len() && o[i].0 == k
}

/// No locator has two entries in `o`.
pub open spec fn unique_keys<H>(o: Order<H>) -> bool {
    forall|i: int, j: int| 0 <= i < j < o.len() ==> o[i].0 != o[j].0
}

/// The order after an access to `k`: an entry that exists becomes the most
/// recently used; otherwise, where `loadable`, a loading entry for `k` is
/// added as the most recently used.
pub open spec fn after_get<H>(o: Order<H>, k: Seq<char>, loadable: bool) -> Order<H> {
    if holds(o, k) {
        o.remove(position(o, k)).push(o[position(o, k)])
    } else if loadable {
        o.push((k, Slot::Loading))
    } else {
        o
    }
}

/// The handle that an access to `k` finds in `o`, if its load is complete.
pub open spec fn found<H>(o: Order<H>, k: Seq<char>) -> Option<H> {
    if holds(o, k) {
        match o[position(o, k)].1 {
            Slot::Present(h) => Some(h),
            Slot::Loading => None,
        }
    } else {
        None
    }
}

/// The order after the load of `k` has completed with `h`: an entry for `k`
/// that still exists keeps its place and holds `h`; without one nothing
/// changes.
pub open spec fn after_callback<H>(o: Order<H>, k: Seq<char>, h: H) -> Order<H> {
    if holds(o, k) {
        o.update(position(o, k), (k, Slot::Present(h)))
    } else {
        o
    }
}

/// The order after eviction down to `max` entries: the least recently used
/// entries go.
pub open spec fn after_evict<H>(o: Order<H>, max: nat) -> Order<H> {
    if o.len() > max {
        o.subrange(o.len() - max, o.len() as int)
    } else {
        o
    }
}

/// Whether an access to `k` in `o` asks for a load of `k`.
pub open spec fn load_requested<H>(o: Order<H>, k: Seq<char>, loadable: bool) -> bool {
    !holds(o, k) && loadable
}

/// How many loads of `k` a run of accesses asks for, each access given as
/// its locator and whether its content could be loaded at that moment.
pub open spec fn loads_requested<H>(o: Order<H>, reqs: Seq<(Seq<char>, bool)>, k: Seq<char>) -> nat
    decreases reqs.len(),
{
    if reqs.len() == 0 {
        0
    } else {
        (if load_requested(o, reqs[0].0, reqs[0].1) && reqs[0].0 == k {
            1nat
        } else {
            0nat
        }) + loads_requested(after_get(o, reqs[0].0, reqs[0].1), reqs.skip(1), k)
    }
}

proof fn lemma_position<H>(o: Order<H>, i: int)
    requires
        unique_keys(o),
        0 <= i < o.len(),
    ensures
        holds(o, o[i].0),
        position(o, o[i].0) == i,
{
}

/// An access never removes an entry.
proof fn lemma_get_keeps<H>(o: Order<H>, k: Seq<char>, loadable: bool, q: Seq<char>)
    requires
        unique_keys(o),
        holds(o, q),
    ensures
        holds(after_get(o, k, loadable), q),
        unique_keys(after_get(o, k, loadable)),
{
    let j = position(o, q);
    let n = after_get(o, k, loadable);
    if holds(o, k) {
        let i = position(o, k);
        if j == i {
            assert(n[n.len() - 1].0 == q);
        } else if j < i {
            assert(n[j].0 == q);
        } else {
            assert(n[j - 1].0 == q);
        }
        assert forall|a: int, b: int| 0 <= a < b < n.len() implies n[a].0 != n[b].0 by {
            let oa = if a < i { a } else { a + 1 };
            let ob = if b == n.len() - 1 { i } else if b < i { b } else { b + 1 };
            assert(n[a] == o[oa]);
            assert(n[b] == o[ob]);
        }
    } else if loadable {
        assert(n[j].0 == q);
        assert forall|a: int, b: int| 0 <= a < b < n.len() implies n[a].0 != n[b].0 by {
            if b == n.len() - 1 {
                assert(n[a] == o[a]);
            }
        }
    }
}

/// Once `k` has an entry, no further access asks for its load.
proof fn lemma_held_loads_none<H>(o: Order<H>, reqs: Seq<(Seq<char>, bool)>, k: Seq<char>)
    requires
        unique_keys(o),
        holds(o, k),
    ensures
        loads_requested(o, reqs, k) == 0,
    decreases reqs.len(),
{
    if reqs.len() > 0 {
        lemma_get_keeps(o, reqs[0].0, reqs[0].1, k);
        lemma_held_loads_none(after_get(o, reqs[0].0, reqs[0].1), reqs.skip(1), k);
    }
}

/// However often a locator is looked up within one render pass (no
/// completion or eviction in between), at most one load of it is requested;
/// in particular, looking up a loading locator never requests another.
pub proof fn lemma_single_load<H>(o: Order<H>, reqs: Seq<(Seq<char>, bool)>, k: Seq<char>)
    requires
        unique_keys(o),
    ensures
        loads_requested(o, reqs, k) <= 1,
        holds(o, k) ==> loads_requested(o, reqs, k) == 0,
    decreases reqs.len(),
{
    if holds(o, k) {
        lemma_held_loads_none(o, reqs, k);
    } else if reqs.len() > 0 {
        let n = after_get(o, reqs[0].0, reqs[0].1);
        if load_requested(o, reqs[0].0, reqs[0].1) && reqs[0].0 == k {
            assert(n[n.len() - 1].0 == k);
            assert forall|a: int, b: int| 0 <= a < b < n.len() implies n[a].0 != n[b].0 by {
                if b == n.len() - 1 {
                    assert(n[a] == o[a]);
                }
            }
            lemma_held_loads_none(n, reqs.skip(1), k);
        } else {
            if holds(o, reqs[0].0) {
                let i = position(o, reqs[0].0);
                lemma_get_keeps(o, reqs[0].0, reqs[0].1, o[i].0);
            } else if reqs[0].1 {
                assert forall|a: int, b: int| 0 <= a < b < n.len() implies n[a].0 != n[b].0 by {
                    if b == n.len() - 1 {
                        assert(n[a] == o[a]);
                    }
                }
            }
            lemma_single_load(n, reqs.skip(1), k);
        }
    }
}

/// A load that completes after its entry was evicted changes nothing: the
/// result is dropped and no entry appears.
pub proof fn lemma_late_load_is_dropped<H>(o: Order<H>, max: nat, k: Seq<char>, h: H)
    requires
        !holds(after_evict(o, max), k),
    ensures
        after_callback(after_evict(o, max), k, h) == after_evict(o, max),
{
}

/// A locator that was evicted and is looked up again, while its file is
/// present, gets a loading entry as the most recently used, its load is
/// requested again, and once that load completes the next lookup finds the
/// handle.
pub proof fn lemma_reload_after_eviction<H>(o: Order<H>, max: nat, k: Seq<char>, h: H)
    requires
        unique_keys(o),
        !holds(after_evict(o, max), k),
    ensures
        load_requested(after_evict(o, max), k, true),
        after_get(after_evict(o, max), k, true) == after_evict(o, max).push((k, Slot::<H>::Loading)),
        found(after_get(after_evict(o, max), k, true), k) == None::<H>,
        found(after_callback(after_get(after_evict(o, max), k, true), k, h), k) == Some(h),
{
    let e = after_evict(o, max);
    let n = after_get(e, k, true);
    assert(unique_keys(e)) by {
        if o.len() > max {
            assert forall|a: int, b: int| 0 <= a < b < e.len() implies e[a].0 != e[b].0 by {
                assert(e[a] == o[a + (o.len() - max)]);
                assert(e[b] == o[b + (o.len() - max)]);
            }
        }
    }
    assert forall|a: int, b: int| 0 <= a < b < n.len() implies n[a].0 != n[b].0 by {
        if b == n.len() - 1 {
            assert(n[a] == e[a]);
        }
    }
    lemma_position(n, n.len() - 1);
    let c = after_callback(n, k, h);
    assert forall|a: int, b: int| 0 <= a < b < c.len() implies c[a].0 != c[b].0 by {
        assert(c[a].0 == n[a].0);
        assert(c[b].0 == n[b].0);
    }
    lemma_position(c, c.len() - 1);
}

spec fn order_of<H>(s: Seq<Entry<H>>) -> Order<H> {
    s.map_values(|e: Entry<H>| (e.key@, e.slot))
}

impl<H> Cacher<H> {
    /// The entries, least recently used first.
    pub closed spec fn order(&self) -> Order<H> {
        order_of(self.entries@)
    }

    /// The logical time of each entry's last access, in the same order.
    pub closed spec fn times(&self) -> Seq<u64> {
        self.entries@.map_values(|e: Entry<H>| e.time)
    }

    /// The time that the next access will be stamped with.
    pub closed spec fn clock(&self) -> u64 {
        self.clock
    }

    /// The most entries that an eviction pass leaves.
    pub closed spec fn max_size_view(&self) -> nat {
        self.max_size as nat
    }

    /// Locators are unique, and access times strictly increase along the
    /// order and stay below the clock.
    pub open spec fn wf(&self) -> bool {
        &&& unique_keys(self.order())
        &&& self.times().len() == self.order().len()
        &&& forall|i: int, j: int|
            0 <= i < j < self.times().len() ==> self.times()[i] < self.times()[j]
        &&& forall|i: int| 0 <= i < self.times().len() ==> self.times()[i] < self.clock()
    }

    /// Whether there is room to stamp one more entry.
    pub open spec fn has_room(&self) -> bool {
        self.order().len() < u64::MAX
    }

    /// An empty cache that keeps at most `max_size` entries after each
    /// eviction pass.
    pub fn new(max_size: usize) -> (r: Cacher<H>)
        ensures
            r.wf(),
            r.order() == Seq::<(Seq<char>, Slot<H>)>::empty(),
            r.max_size_view() == max_size,
            r.clock() == 0,
    {
        let r = Cacher { entries: Vec::new(), clock: 0, max_size };
        assert(r.order() =~= Seq::<(Seq<char>, Slot<H>)>::empty());
        r
    }

    /// The number of entries.
    pub fn len(&self) -> (r: usize)
        ensures
            r == self.order().len(),
    {
        self.entries.len()
    }

    /// The most entries that an eviction pass leaves.
    pub fn max_size(&self) -> (r: usize)
        ensures
            r == self.max_size_view(),
    {
        self.max_size
    }

    /// The entries' locators, least recently used first.
    pub fn keys(&self) -> (r: Vec<String>)
        ensures
            r@.len() == self.order().len(),
            forall|i: int| 0 <= i < r@.len() ==> r@[i]@ == self.order()[i].0,
    {
        let mut r: Vec<String> = Vec::new();
        let mut i: usize = 0;
        while i < self.entries.len()
            invariant
                i <= self.entries@.len(),
                r@.len() == i,
                forall|j: int| 0 <= j < i ==> r@[j]@ == self.order()[j].0,
            decreases self.entries@.len() - i,
        {
            r.push(self.entries[i].key.clone());
            i += 1;
        }
        r
    }

    /// The logical access time of each entry, least recently used first.
    pub fn access_times(&self) -> (r: Vec<u64>)
        ensures
            r@ == self.times(),
    {
        let mut r: Vec<u64> = Vec::new();
        let mut i: usize = 0;
        while i < self.entries.len()
            invariant
                i <= self.entries@.len(),
                r@ == self.times().take(i as int),
            decreases self.entries@.len() - i,
        {
            r.push(self.entries[i].time);
            i += 1;
            assert(r@ =~= self.times().take(i as int));
        }
        assert(r@ =~= self.times());
        r
    }

    fn find(&self, key: &String) -> (r: Option<usize>)
        requires
            self.wf(),
        ensures
            match r {
                Some(i) => i < self.order().len() && self.order()[i as int].0 == key@ && holds(
                    self.order(),
                    key@,
                ) && position(self.order(), key@) == i,
                None => !holds(self.order(), key@),
            },
    {
        let mut i: usize = 0;
        while i < self.entries.len()
            invariant
                self.wf(),
                i <= self.entries@.len(),
                forall|j: int| 0 <= j < i ==> self.order()[j].0 != key@,
            decreases self.entries@.len() - i,
        {
            if self.entries[i].key == *key {
                proof {
                    lemma_position(self.order(), i as int);
                }
                return Some(i);
            }
            i += 1;
        }
        None
    }

    /// Taking out the entry at `i` leaves a well-formed cache without its
    /// locator.
    proof fn lemma_removed(&self, before: Cacher<H>, i: int)
        requires
            before.wf(),
            0 <= i < before.entries@.len(),
            self.entries@ == before.entries@.remove(i),
            self.clock == before.clock,
        ensures
            self.wf(),
            self.order() == before.order().remove(i),
            self.times() == before.times().remove(i),
            !holds(self.order(), before.order()[i].0),
    {
        let o = before.order();
        assert(self.order() =~= o.remove(i));
        assert(self.times() =~= before.times().remove(i));
        assert forall|a: int, b: int|
            0 <= a < b < self.order().len() implies self.order()[a].0 != self.order()[b].0 by {
            let oa = if a < i { a } else { a + 1 };
            let ob = if b < i { b } else { b + 1 };
            assert(self.order()[a] == o[oa]);
            assert(self.order()[b] == o[ob]);
        }
        assert forall|a: int, b: int|
            0 <= a < b < self.times().len() implies self.times()[a] < self.times()[b] by {
            let oa = if a < i { a } else { a + 1 };
            let ob = if b < i { b } else { b + 1 };
            assert(self.times()[a] == before.times()[oa]);
            assert(self.times()[b] == before.times()[ob]);
        }
        assert forall|a: int| 0 <= a < self.times().len() implies self.times()[a] < self.clock() by {
            let oa = if a < i { a } else { a + 1 };
            assert(self.times()[a] == before.times()[oa]);
        }
        if holds(self.order(), o[i].0) {
            let j = position(self.order(), o[i].0);
            let oj = if j < i { j } else { j + 1 };
            assert(o[oj].0 == o[i].0);
        }
    }

    /// Restamps the entries with the times 0, 1, ... in their order.
    fn renumber(&mut self)
        requires
            old(self).wf(),
            old(self).has_room(),
        ensures
            final(self).wf(),
            final(self).order() == old(self).order(),
            final(self).max_size_view() == old(self).max_size_view(),
            final(self).clock() == old(self).order().len(),
    {
        let mut rest: Vec<Entry<H>> = Vec::new();
        std::mem::swap(&mut rest, &mut self.entries);
        let ghost o = old(self).order();
        let ghost n = rest@.len();
        let mut i: u64 = 0;
        while rest.len() > 0
            invariant
                n == o.len(),
                n < u64::MAX,
                self.max_size == old(self).max_size,
                i as int + rest@.len() == n,
                order_of(rest@) == o.skip(i as int),
                self.order() == o.take(i as int),
                forall|j: int| 0 <= j < i ==> self.times()[j] == j,
                self.times().len() == i,
            decreases rest@.len(),
        {
            let ghost before = rest@;
            let ghost prev_times = self.times();
            let e = rest.remove(0);
            assert(order_of(before)[0] == (e.key@, e.slot));
            self.entries.push(Entry { key: e.key, time: i, slot: e.slot });
            assert(self.times() =~= prev_times.push(i));
            i += 1;
            assert forall|j: int| 0 <= j < rest@.len() implies order_of(rest@)[j] == o.skip(
                i as int,
            )[j] by {
                assert(rest@[j] == before[j + 1]);
                assert(order_of(before)[j + 1] == o.skip(i - 1)[j + 1]);
            }
            assert(order_of(rest@) =~= o.skip(i as int));
            assert(self.order() =~= o.take(i as int));
        }
        self.clock = i;
        assert(self.order() =~= o);
    }

    /// A fresh time stamp, greater than every entry's.
    fn next_time(&mut self) -> (t: u64)
        requires
            old(self).wf(),
            old(self).has_room(),
        ensures
            final(self).order() == old(self).order(),
            final(self).max_size_view() == old(self).max_size_view(),
            final(self).wf(),
            final(self).clock() == t + 1,
            forall|i: int| 0 <= i < final(self).times().len() ==> final(self).times()[i] < t,
            old(self).clock() < u64::MAX ==> t == old(self).clock() && final(self).times()
                == old(self).times(),
    {
        if self.clock == u64::MAX {
            self.renumber();
        }
        let t = self.clock;
        self.clock = t + 1;
        t
    }

    /// Appends an entry for a locator that has none, stamped with a fresh time.
    fn push_entry(&mut self, key: String, slot: Slot<H>)
        requires
            old(self).wf(),
            old(self).has_room(),
            !holds(old(self).order(), key@),
        ensures
            final(self).wf(),
            final(self).order() == old(self).order().push((key@, slot)),
            final(self).max_size_view() == old(self).max_size_view(),
            old(self).clock() < u64::MAX ==> final(self).times() == old(self).times().push(
                old(self).clock(),
            ) && final(self).clock() == old(self).clock() + 1,
    {
        let t = self.next_time();
        let ghost o = self.order();
        let ghost prev_times = self.times();
        let ghost k = key@;
        let ghost s = slot;
        self.entries.push(Entry { key, time: t, slot });
        assert(self.order() =~= o.push((k, s)));
        assert(self.times() =~= prev_times.push(t));
        assert forall|a: int, b: int|
            0 <= a < b < self.order().len() implies self.order()[a].0 != self.order()[b].0 by {
            if b == o.len() {
                assert(self.order()[a] == o[a]);
            }
        }
    }

    /// Looks up `key` in the render path, where `on_disk` tells whether its
    /// file already exists. An entry that exists becomes the most recently
    /// used and gives its handle once loaded (`None` while it is loading, and
    /// no new request). Without an entry, the download cache resolves the
    /// locator (see [`UrlCacher::get_path`]): where its file is present a
    /// loading entry is added and a load requested; otherwise nothing is
    /// added, so the locator is checked again on the next pass.
    pub fn get(&mut self, key: &String, on_disk: bool, urls: &mut UrlCacher, pending: &mut Pending) -> (r:
        Option<H>)
        where
            H: Clone,
        requires
            old(self).wf(),
            old(urls).wf(),
        ensures
            final(self).wf(),
            final(urls).wf(),
            final(urls).dir_view() == old(urls).dir_view(),
            final(self).max_size_view() == old(self).max_size_view(),
            holds(old(self).order(), key@) ==> final(urls)@ == old(urls)@,
            !holds(old(self).order(), key@) ==> final(urls)@ == fetch_step(old(urls)@, key@, on_disk).0,
            final(self).order() == after_get(
                old(self).order(),
                key@,
                final(urls)@.get(key@) == Some(DownloadState::Present) && old(self).has_room(),
            ),
            match found(old(self).order(), key@) {
                Some(h) => r matches Some(x) && cloned(h, x),
                None => r.is_none(),
            },
            holds(old(self).order(), key@) && old(self).clock() < u64::MAX ==> final(self).times()
                == old(self).times().remove(position(old(self).order(), key@)).push(
                old(self).clock(),
            ) && final(self).clock() == old(self).clock() + 1,
            !holds(old(self).order(), key@) && final(urls)@.get(key@) == Some(DownloadState::Present)
                && old(self).has_room() && old(self).clock() < u64::MAX ==> final(self).times()
                == old(self).times().push(old(self).clock()) && final(self).clock() == old(self).clock() + 1,
            !holds(old(self).order(), key@) && !(final(urls)@.get(key@) == Some(DownloadState::Present)
                && old(self).has_room()) ==> final(self).times() == old(self).times() && final(self).clock()
                == old(self).clock(),
            holds(old(self).order(), key@) ==> final(pending)@ == old(pending)@,
            !holds(old(self).order(), key@) ==> final(pending)@ == if fetch_step(old(urls)@, key@, on_disk).1 {
                old(pending)@.push(Need::Fetch(key@))
            } else if final(urls)@.get(key@) == Some(DownloadState::Present) && old(self).has_room() {
                old(pending)@.push(Need::Load(key@))
            } else {
                old(pending)@
            },
    {
        match self.find(key) {
            Some(i) => {
                let ghost before = *self;
                let n = self.entries.len();
                assert(n as int <= u64::MAX);
                let e = self.entries.remove(i);
                proof {
                    self.lemma_removed(before, i as int);
                }
                let r = match &e.slot {
                    Slot::Present(h) => Some(h.clone()),
                    Slot::Loading => None,
                };
                self.push_entry(e.key, e.slot);
                r
            },
            None => {
                let path = urls.get_path(key, on_disk, pending);
                if path.is_some() && (self.entries.len() as u64) < u64::MAX {
                    self.push_entry(key.clone(), Slot::Loading);
                    pending.notify(Request::Load(key.clone()));
                }
                None
            },
        }
    }

    /// Marks `key` as needed soon: an entry that exists becomes the most
    /// recently used (`Ok`); without an entry nothing changes (`Err`).
    pub fn need_soon(&mut self, key: &String) -> (r: Result<(), ()>)
        requires
            old(self).wf(),
        ensures
            final(self).wf(),
            final(self).max_size_view() == old(self).max_size_view(),
            final(self).order() == after_get(old(self).order(), key@, false),
            r is Ok <==> holds(old(self).order(), key@),
            r is Ok && old(self).clock() < u64::MAX ==> final(self).times() == old(self).times().remove(position(old(self).order(), key@)).push(old(self).clock())
                && final(self).clock() == old(self).clock() + 1,
            r is Err ==> final(self).times() == old(self).times() && final(self).clock() == old(self).clock(),
    {
        match self.find(key) {
            Some(i) => {
                let ghost before = *self;
                let n = self.entries.len();
                assert(n as int <= u64::MAX);
                let e = self.entries.remove(i);
                proof {
                    self.lemma_removed(before, i as int);
                }
                self.push_entry(e.key, e.slot);
                Ok(())
            },
            None => Err(()),
        }
    }

    /// The file that the load requested for `key` reads and decodes.
    pub fn fetch(&self, key: &String, urls: &UrlCacher) -> (r: String)
        ensures
            r@ == file_path_of(urls.dir_view(), key@),
    {
        urls.file_path(key)
    }

    /// Stores the handle whose load of `key` has completed. Where the entry
    /// was evicted meanwhile, the handle is dropped and nothing changes.
    pub fn callback(&mut self, key: &String, handle: H)
        requires
            old(self).wf(),
        ensures
            final(self).wf(),
            final(self).max_size_view() == old(self).max_size_view(),
            final(self).order() == after_callback(old(self).order(), key@, handle),
            final(self).times() == old(self).times(),
            final(self).clock() == old(self).clock(),
    {
        match self.find(key) {
            Some(i) => {
                let ghost o = self.order();
                let time = self.entries[i].time;
                self.entries.set(i, Entry { key: key.clone(), time, slot: Slot::Present(handle) });
                assert(self.order() =~= o.update(i as int, (key@, Slot::Present(handle))));
                assert(self.times() =~= old(self).times());
                assert forall|a: int, b: int|
                    0 <= a < b < self.order().len() implies self.order()[a].0 != self.order()[
                    b].0 by {
                    assert(self.order()[a].0 == o[a].0);
                    assert(self.order()[b].0 == o[b].0);
                }
            },
            None => {},
        }
    }

    /// The eviction pass, run once after each render pass: while there are
    /// more than `max_size` entries, the least recently used one goes. The
    /// entries that go are exactly those with the smallest access times.
    pub fn cache_replacement(&mut self)
        requires
            old(self).wf(),
        ensures
            final(self).wf(),
            final(self).max_size_view() == old(self).max_size_view(),
            final(self).order() == after_evict(old(self).order(), old(self).max_size_view()),
            final(self).clock() == old(self).clock(),
            old(self).order().len() <= old(self).max_size_view() ==> final(self).order() == old(self).order() && final(self).times() == old(self).times(),
            final(self).order().len() <= final(self).max_size_view(),
            final(self).times() == old(self).times().skip(
                old(self).order().len() - final(self).order().len(),
            ),
            forall|i: int, j: int|
                0 <= i < old(self).order().len() - final(self).order().len() && 0 <= j
                    < final(self).times().len() ==> old(self).times()[i] < final(self).times()[j],
    {
        let n = self.entries.len();
        if n > self.max_size {
            let cut = n - self.max_size;
            let rest = self.entries.split_off(cut);
            self.entries = rest;
            assert(self.order() =~= old(self).order().subrange(cut as int, n as int));
            assert(self.times() =~= old(self).times().skip(cut as int));
            assert forall|a: int, b: int|
                0 <= a < b < self.order().len() implies self.order()[a].0 != self.order()[b].0 by {
                assert(self.order()[a] == old(self).order()[a + cut]);
                assert(self.order()[b] == old(self).order()[b + cut]);
            }
        } else {
            assert(old(self).times().skip(0) =~= old(self).times());
        }
    }
}

} // verus!
