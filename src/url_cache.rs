//! The persistent download cache: for each locator, whether its content is
//! being downloaded or already sits in a file under the cache directory.
use vstd::prelude::*;
use crate::locator::{file_path_of, url_to_file};
use crate::request::{Need, Pending, Request};

verus! {

/// Where the content of a known locator stands. A locator that the cache
/// does not know is absent.
#[derive(PartialEq, Eq, Structural, Clone, Copy, Debug)]
pub enum DownloadState {
    /// A download has been started and has not succeeded yet.
    Downloading,
    /// The content is in its file.
    Present,
}

struct UrlEntry {
    key: String,
    state: DownloadState,
}

/// Keeps the content of each locator in a file of its own under one
/// directory, and knows which of them are there.
///
/// The states are held as a vector of entries with unique locators rather
/// than a hash map: a map keyed by `String` (or hashed with a custom hasher)
/// comes with no usable specification, so its lookups could not be tied to
/// the map that the contracts speak of.
pub struct UrlCacher {
    dir: String,
    entries: Vec<UrlEntry>,
}

/// The state in which a request for the content of `k` leaves the map `m`,
/// and whether it starts a download. A locator that is already known is left
/// alone; an unknown one whose file is already on disk becomes present at
/// once; any other one starts downloading.
pub open spec fn fetch_step(m: Map<Seq<char>, DownloadState>, k: Seq<char>, on_disk: bool) -> (
    Map<Seq<char>, DownloadState>,
    bool,
) {
    if m.contains_key(k) {
        (m, false)
    } else if on_disk {
        (m.insert(k, DownloadState::Present), false)
    } else {
        (m.insert(k, DownloadState::Downloading), true)
    }
}

/// How many downloads of `k` a run of lookups asks for, each lookup given as
/// its locator and whether that locator's file was found on disk.
pub open spec fn fetches_started(
    m: Map<Seq<char>, DownloadState>,
    reqs: Seq<(Seq<char>, bool)>,
    k: Seq<char>,
) -> nat
    decreases reqs.len(),
{
    if reqs.len() == 0 {
        0
    } else {
        let step = fetch_step(m, reqs[0].0, reqs[0].1);
        (if step.1 && reqs[0].0 == k {
            1nat
        } else {
            0nat
        }) + fetches_started(step.0, reqs.skip(1), k)
    }
}

/// Once the cache knows `k`, no further request starts a download of it.
proof fn lemma_known_starts_none(
    m: Map<Seq<char>, DownloadState>,
    reqs: Seq<(Seq<char>, bool)>,
    k: Seq<char>,
)
    requires
        m.contains_key(k),
    ensures
        fetches_started(m, reqs, k) == 0,
    decreases reqs.len(),
{
    if reqs.len() > 0 {
        let step = fetch_step(m, reqs[0].0, reqs[0].1);
        lemma_known_starts_none(step.0, reqs.skip(1), k);
    }
}

/// However often a locator is looked up before any completion arrives, at
/// most one download of it is asked for; exactly one where it was absent,
/// it was looked up at all, and its file was not on disk at any lookup.
pub proof fn lemma_single_fetch(
    m: Map<Seq<char>, DownloadState>,
    reqs: Seq<(Seq<char>, bool)>,
    k: Seq<char>,
)
    ensures
        fetches_started(m, reqs, k) <= 1,
        !m.contains_key(k) && (exists|i: int| 0 <= i < reqs.len() && reqs[i].0 == k) && (forall|
            i: int,
        | 0 <= i < reqs.len() && reqs[i].0 == k ==> !reqs[i].1) ==> fetches_started(m, reqs, k)
            == 1,
    decreases reqs.len(),
{
    if reqs.len() > 0 {
        let step = fetch_step(m, reqs[0].0, reqs[0].1);
        if m.contains_key(k) {
            lemma_known_starts_none(m, reqs, k);
        } else if reqs[0].0 == k {
            lemma_known_starts_none(step.0, reqs.skip(1), k);
        } else {
            lemma_single_fetch(step.0, reqs.skip(1), k);
            if (exists|i: int| 0 <= i < reqs.len() && reqs[i].0 == k) && (forall|i: int|
                0 <= i < reqs.len() && reqs[i].0 == k ==> !reqs[i].1) {
                let i = choose|i: int| 0 <= i < reqs.len() && reqs[i].0 == k;
                assert(reqs.skip(1)[i - 1].0 == k);
                assert forall|j: int|
                    0 <= j < reqs.skip(1).len() && reqs.skip(1)[j].0 == k implies !reqs.skip(
                    1,
                )[j].1 by {
                    assert(reqs.skip(1)[j] == reqs[j + 1]);
                }
            }
        }
    }
}

/// A locator whose file already exists (left there by an earlier run) is
/// present after its first request, and no download of it starts.
pub proof fn lemma_on_disk_is_present(m: Map<Seq<char>, DownloadState>, k: Seq<char>)
    requires
        !m.contains_key(k),
    ensures
        fetch_step(m, k, true).0.get(k) == Some(DownloadState::Present),
        !fetch_step(m, k, true).1,
        fetch_step(m, k, true).0.remove(k) == m,
{
    assert(fetch_step(m, k, true).0.remove(k) =~= m);
}

impl UrlCacher {
    closed spec fn key_at(&self, i: int) -> Seq<char> {
        self.entries@[i].key@
    }

    closed spec fn index_of(&self, k: Seq<char>) -> int {
        choose|i: int| 0 <= i < self.entries@.len() && self.key_at(i) == k
    }

    /// No locator has two entries.
    pub closed spec fn wf(&self) -> bool {
        forall|i: int, j: int|
            0 <= i < j < self.entries@.len() ==> self.key_at(i) != self.key_at(j)
    }

    /// The directory that holds the files.
    pub closed spec fn dir_view(&self) -> Seq<char> {
        self.dir@
    }

    proof fn lemma_index_of(&self, i: int)
        requires
            self.wf(),
            0 <= i < self.entries@.len(),
        ensures
            self.index_of(self.key_at(i)) == i,
    {
    }

    fn find(&self, key: &String) -> (r: Option<usize>)
        requires
            self.wf(),
        ensures
            match r {
                Some(i) => i < self.entries@.len() && self.key_at(i as int) == key@
                    && self.index_of(key@) == i,
                None => forall|i: int| 0 <= i < self.entries@.len() ==> self.key_at(i) != key@,
            },
    {
        let mut i: usize = 0;
        while i < self.entries.len()
            invariant
                self.wf(),
                i <= self.entries@.len(),
                forall|j: int| 0 <= j < i ==> self.key_at(j) != key@,
            decreases self.entries@.len() - i,
        {
            if self.entries[i].key == *key {
                proof {
                    self.lemma_index_of(i as int);
                }
                return Some(i);
            }
            i += 1;
        }
        None
    }

    /// A cache over the directory `dir` (given without a trailing
    /// separator) that knows no locator yet.
    pub fn new(dir: String) -> (r: UrlCacher)
        ensures
            r.wf(),
            r@ == Map::<Seq<char>, DownloadState>::empty(),
            r.dir_view() == dir@,
    {
        let r = UrlCacher { dir, entries: Vec::new() };
        assert(r@ =~= Map::<Seq<char>, DownloadState>::empty());
        r
    }

    /// The state of `key`, or `None` where it is absent.
    pub fn state(&self, key: &String) -> (r: Option<DownloadState>)
        requires
            self.wf(),
        ensures
            r == self@.get(key@),
    {
        match self.find(key) {
            Some(i) => Some(self.entries[i].state),
            None => None,
        }
    }

    /// The file for `key` under this cache's directory, whether or not it
    /// is there.
    pub fn file_path(&self, key: &String) -> (r: String)
        ensures
            r@ == file_path_of(self.dir_view(), key@),
    {
        url_to_file(self.dir.as_str(), key.as_str())
    }

    /// Resolves `key` in the render path, where `on_disk` tells whether its
    /// file already exists. A locator that the cache does not know yet is
    /// recorded: present at once where its file is on disk (left there by an
    /// earlier run), so that its path comes back from this very call;
    /// otherwise downloading, with one download requested through `pending`.
    /// A downloading locator gives `None` and requests nothing more; a
    /// present one gives its file.
    pub fn get_path(&mut self, key: &String, on_disk: bool, pending: &mut Pending) -> (r:
        Option<String>)
        requires
            old(self).wf(),
        ensures
            final(self).wf(),
            final(self).dir_view() == old(self).dir_view(),
            final(self)@ == fetch_step(old(self)@, key@, on_disk).0,
            final(pending)@ == if fetch_step(old(self)@, key@, on_disk).1 {
                old(pending)@.push(Need::Fetch(key@))
            } else {
                old(pending)@
            },
            match final(self)@.get(key@) {
                Some(DownloadState::Present) => r matches Some(p) && p@ == file_path_of(
                    old(self).dir_view(),
                    key@,
                ),
                _ => r.is_none(),
            },
    {
        match self.state(key) {
            None => {
                if on_disk {
                    self.push_entry(key.clone(), DownloadState::Present);
                    Some(self.file_path(key))
                } else {
                    self.push_entry(key.clone(), DownloadState::Downloading);
                    pending.notify(Request::Fetch(key.clone()));
                    None
                }
            },
            Some(DownloadState::Downloading) => None,
            Some(DownloadState::Present) => Some(self.file_path(key)),
        }
    }

    /// Handles a request to download `key`, where `on_disk` tells whether its
    /// file already exists. Returns the file to download into where a
    /// download is to start: only for a locator that was absent and whose
    /// file is not on disk, which is then downloading. An absent locator
    /// whose file is on disk becomes present at once.
    pub fn fetch_if_needed(&mut self, key: &String, on_disk: bool) -> (r: Option<String>)
        requires
            old(self).wf(),
        ensures
            final(self).wf(),
            final(self).dir_view() == old(self).dir_view(),
            final(self)@ == fetch_step(old(self)@, key@, on_disk).0,
            r.is_some() == fetch_step(old(self)@, key@, on_disk).1,
            r matches Some(p) ==> p@ == file_path_of(old(self).dir_view(), key@),
    {
        match self.find(key) {
            Some(_) => None,
            None => {
                if on_disk {
                    self.push_entry(key.clone(), DownloadState::Present);
                    None
                } else {
                    self.push_entry(key.clone(), DownloadState::Downloading);
                    Some(self.file_path(key))
                }
            },
        }
    }

    fn push_entry(&mut self, key: String, state: DownloadState)
        requires
            old(self).wf(),
            !old(self)@.contains_key(key@),
        ensures
            final(self).wf(),
            final(self).dir_view() == old(self).dir_view(),
            final(self)@ == old(self)@.insert(key@, state),
    {
        let ghost k = key@;
        self.entries.push(UrlEntry { key, state });
        let ghost n = self.entries@.len() - 1;
        assert forall|i: int, j: int| 0 <= i < j < self.entries@.len() implies self.key_at(i)
            != self.key_at(j) by {
            if j == n {
                assert(!old(self)@.contains_key(k));
                assert(old(self).key_at(i) == self.key_at(i));
                if self.key_at(i) == k {
                    assert(old(self)@.contains_key(k));
                }
            } else {
                assert(old(self).key_at(i) == self.key_at(i));
                assert(old(self).key_at(j) == self.key_at(j));
            }
        }
        assert forall|q: Seq<char>| #[trigger]
            self@.contains_key(q) implies old(self)@.insert(k, state).contains_key(q) by {
            let i = self.index_of(q);
            if i < n {
                assert(old(self).key_at(i) == q);
            }
        }
        assert forall|q: Seq<char>| #[trigger]
            old(self)@.insert(k, state).contains_key(q) implies self@.contains_key(q)
            && self@[q] == old(self)@.insert(k, state)[q] by {
            if q == k {
                assert(self.key_at(n) == k);
                self.lemma_index_of(n);
            } else {
                let i = old(self).index_of(q);
                assert(self.key_at(i) == q);
                self.lemma_index_of(i);
            }
        }
        assert(self@ =~= old(self)@.insert(k, state));
    }

    /// Records that the content of `key` has been written to its file.
    pub fn callback(&mut self, key: String)
        requires
            old(self).wf(),
        ensures
            final(self).wf(),
            final(self).dir_view() == old(self).dir_view(),
            final(self)@ == old(self)@.insert(key@, DownloadState::Present),
    {
        match self.find(&key) {
            Some(i) => {
                let ghost k = key@;
                assert(old(self).key_at(i as int) == k);
                assert(old(self)@.contains_key(k));
                self.entries.set(i, UrlEntry { key, state: DownloadState::Present });
                assert forall|a: int, b: int| 0 <= a < b < self.entries@.len() implies self.key_at(
                    a,
                ) != self.key_at(b) by {
                    assert(old(self).key_at(a) == self.key_at(a));
                    assert(old(self).key_at(b) == self.key_at(b));
                }
                assert forall|q: Seq<char>| #[trigger]
                    self@.contains_key(q) implies old(self)@.contains_key(q) by {
                    let j = self.index_of(q);
                    assert(old(self).key_at(j) == q);
                }
                assert forall|q: Seq<char>| #[trigger]
                    old(self)@.contains_key(q) implies self@.contains_key(q) && self@[q] == old(
                    self,
                )@.insert(k, DownloadState::Present)[q] by {
                    let j = old(self).index_of(q);
                    assert(self.key_at(j) == q);
                    self.lemma_index_of(j);
                }
                assert(self@ =~= old(self)@.insert(k, DownloadState::Present));
            },
            None => {
                self.push_entry(key, DownloadState::Present);
            },
        }
    }

    /// Records that the download of `key` failed. A downloading locator
    /// becomes absent again, so that a later request retries it; any other
    /// state is left as it is.
    pub fn fetch_failed(&mut self, key: &String)
        requires
            old(self).wf(),
        ensures
            final(self).wf(),
            final(self).dir_view() == old(self).dir_view(),
            final(self)@ == if old(self)@.get(key@) == Some(DownloadState::Downloading) {
                old(self)@.remove(key@)
            } else {
                old(self)@
            },
    {
        match self.find(key) {
            Some(i) => {
                if self.entries[i].state == DownloadState::Downloading {
                    let ghost k = key@;
                    let ghost ii = i as int;
                    let _ = self.entries.remove(i);
                    assert forall|a: int, b: int|
                        0 <= a < b < self.entries@.len() implies self.key_at(a) != self.key_at(
                        b,
                    ) by {
                        let oa = if a < ii { a } else { a + 1 };
                        let ob = if b < ii { b } else { b + 1 };
                        assert(old(self).key_at(oa) == self.key_at(a));
                        assert(old(self).key_at(ob) == self.key_at(b));
                    }
                    assert forall|q: Seq<char>| #[trigger]
                        self@.contains_key(q) implies old(self)@.remove(k).contains_key(q) by {
                        let j = self.index_of(q);
                        let oj = if j < ii { j } else { j + 1 };
                        assert(old(self).key_at(oj) == q);
                        assert(old(self).key_at(ii) == k);
                    }
                    assert forall|q: Seq<char>| #[trigger]
                        old(self)@.remove(k).contains_key(q) implies self@.contains_key(q)
                        && self@[q] == old(self)@[q] by {
                        let oj = old(self).index_of(q);
                        assert(oj != ii);
                        let j = if oj < ii { oj } else { oj - 1 };
                        assert(self.key_at(j) == q);
                        self.lemma_index_of(j);
                    }
                    assert(self@ =~= old(self)@.remove(k));
                }
            },
            None => {},
        }
    }
}

impl View for UrlCacher {
    type V = Map<Seq<char>, DownloadState>;

    /// Each known locator with its state.
    closed spec fn view(&self) -> Map<Seq<char>, DownloadState> {
        Map::new(
            |k: Seq<char>| exists|i: int| 0 <= i < self.entries@.len() && self.key_at(i) == k,
            |k: Seq<char>| self.entries@[self.index_of(k)].state,
        )
    }
}

} // verus!
