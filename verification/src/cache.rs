//! The metadata of files that were probed, kept as long as the files do not change.
use crate::media_info::{MediaInfo, Metadata};
use crate::paths::{owned_path, path_identity, PathMap};
use crate::validator::failure;
use std::path::{Path, PathBuf};
use vstd::prelude::*;

verus! {

/// What is kept of a probed file: its metadata, and when the file was last modified at that time
/// (in seconds of the Unix epoch), if that could be read.
struct CacheEntry {
    info: MediaInfo,
    mtime: Option<u64>,
}

/// Metadata by the path of the file.
pub struct ProbeCache {
    entries: PathMap<CacheEntry>,
}

/// An entry of the cache: the path as it was first spelled, the metadata, and the modification
/// time that was read with it.
pub struct Cached {
    pub path: PathBuf,
    pub info: Metadata,
    pub mtime: Option<u64>,
}

/// Whether an entry still holds for a file that was modified at `now`. A file whose time can be
/// read has changed unless that time was read before; one whose time cannot be read has not.
pub open spec fn fresh(mtime: Option<u64>, now: Option<u64>) -> bool {
    match (mtime, now) {
        (Some(then), Some(current)) => then == current,
        (None, Some(_)) => false,
        (_, None) => true,
    }
}

/// What a cache with these entries gives for `path`, whose file was modified at `now`.
pub open spec fn lookup(entries: Map<int, Cached>, path: PathBuf, now: Option<u64>) -> Option<
    Metadata,
> {
    let k = path_identity(path);
    if entries.dom().contains(k) && fresh(entries[k].mtime, now) {
        Some(entries[k].info)
    } else {
        None
    }
}

/// The entries after `info` was put under `path`.
pub open spec fn with_entry(
    entries: Map<int, Cached>,
    path: PathBuf,
    info: Metadata,
    mtime: Option<u64>,
) -> Map<int, Cached> {
    let k = path_identity(path);
    let spelling = if entries.dom().contains(k) {
        entries[k].path
    } else {
        path
    };
    entries.insert(k, Cached { path: spelling, info, mtime })
}

/// The entries after what was under `path` was taken out.
pub open spec fn without_entry(entries: Map<int, Cached>, path: PathBuf) -> Map<int, Cached> {
    entries.remove(path_identity(path))
}

impl View for ProbeCache {
    type V = Map<int, Cached>;

    /// From the identity of a path to its entry.
    closed spec fn view(&self) -> Map<int, Cached> {
        self.entries@.map_values(
            |e: (PathBuf, CacheEntry)| Cached { path: e.0, info: e.1.info@, mtime: e.1.mtime },
        )
    }
}

impl ProbeCache {
    /// No two entries have equal paths.
    pub closed spec fn wf(&self) -> bool {
        self.entries.wf()
    }

    /// An empty cache.
    pub fn new() -> (r: ProbeCache)
        ensures
            r.wf(),
            r@ == Map::<int, Cached>::empty(),
    {
        let r: ProbeCache = ProbeCache { entries: PathMap::new() };
        assert(r@ =~= Map::<int, Cached>::empty());
        r
    }

    /// The metadata of `path`, if it is kept and the file, last modified at `now`, did not
    /// change since.
    pub fn get(&self, path: &Path, now: Option<u64>) -> (r: Option<MediaInfo>)
        requires
            self.wf(),
        ensures
            match r {
                Some(info) => lookup(self@, owned_path(path), now) == Some(info@),
                None => lookup(self@, owned_path(path), now) is None,
            },
    {
        match self.entries.get(path) {
            Some(entry) => {
                if let Some(current) = now {
                    match entry.mtime {
                        Some(then) => if current != then {
                            return None;
                        },
                        None => return None,
                    }
                }
                Some(entry.info.clone())
            },
            None => None,
        }
    }

    /// Whether the metadata of `path` is kept and still holds.
    pub fn contains(&self, path: &Path, now: Option<u64>) -> (r: bool)
        requires
            self.wf(),
        ensures
            r == (lookup(self@, owned_path(path), now) is Some),
    {
        self.get(path, now).is_some()
    }

    /// The paths of the entries, each once, as they were first spelled.
    pub fn cached_paths(&self) -> (r: Vec<PathBuf>)
        requires
            self.wf(),
        ensures
            self@.dom().finite(),
            r@.len() == self@.dom().len(),
            forall|i: int|
                #![trigger r@[i]]
                0 <= i < r@.len() ==> self@.dom().contains(path_identity(r@[i]))
                    && self@[path_identity(r@[i])].path == r@[i],
            forall|k: int| #[trigger]
                self@.dom().contains(k) ==> exists|i: int|
                    0 <= i < r@.len() && path_identity(#[trigger] r@[i]) == k,
    {
        assert(self@.dom() =~= self.entries@.dom());
        let r: Vec<PathBuf> = self.entries.paths();
        assert forall|k: int| #[trigger] self@.dom().contains(k) implies exists|i: int|
            0 <= i < r@.len() && path_identity(#[trigger] r@[i]) == k by {
            assert(self.entries@.dom().contains(k));
        }
        r
    }

    /// How many entries there are.
    pub fn len(&self) -> (r: usize)
        requires
            self.wf(),
        ensures
            self@.dom().finite(),
            r == self@.dom().len(),
    {
        assert(self@.dom() =~= self.entries@.dom());
        self.entries.len()
    }

    /// Whether there is no entry.
    pub fn is_empty(&self) -> (r: bool)
        requires
            self.wf(),
        ensures
            r == (self@ == Map::<int, Cached>::empty()),
    {
        proof {
            assert(self@.dom() =~= self.entries@.dom());
            if self.entries@ == Map::<int, (PathBuf, CacheEntry)>::empty() {
                assert(self@ =~= Map::<int, Cached>::empty());
            }
            if self@ == Map::<int, Cached>::empty() {
                assert(self.entries@ =~= Map::<int, (PathBuf, CacheEntry)>::empty());
            }
        }
        self.entries.is_empty()
    }

    /// Keeps `info` for `path`, whose file was modified at `mtime`, in place of what was kept.
    pub fn insert(&mut self, path: &Path, info: MediaInfo, mtime: Option<u64>)
        requires
            old(self).wf(),
        ensures
            final(self).wf(),
            final(self)@ == with_entry(old(self)@, owned_path(path), info@, mtime),
    {
        let ghost before = self@;
        self.entries.insert(path, CacheEntry { info, mtime });
        assert(self@ =~= with_entry(before, owned_path(path), info@, mtime));
    }

    /// Forgets `path`.
    pub fn invalidate(&mut self, path: &Path)
        requires
            old(self).wf(),
        ensures
            final(self).wf(),
            final(self)@ == without_entry(old(self)@, owned_path(path)),
    {
        let ghost before = self@;
        self.entries.remove(path);
        assert(self@ =~= without_entry(before, owned_path(path)));
    }

    /// Forgets everything.
    pub fn clear(&mut self)
        ensures
            final(self).wf(),
            final(self)@ == Map::<int, Cached>::empty(),
    {
        self.entries.clear();
        assert(self@ =~= Map::<int, Cached>::empty());
    }

    /// What a probe of `path` found: its metadata, with the modification time of the file, is
    /// kept, and a failed probe leaves the cache as it is.
    pub fn settle<E>(&mut self, path: &Path, found: Result<(MediaInfo, Option<u64>), E>) -> (r:
        Result<MediaInfo, E>)
        requires
            old(self).wf(),
        ensures
            final(self).wf(),
            match found {
                Ok((info, mtime)) => r is Ok && r->Ok_0@ == info@ && final(self)@ == with_entry(
                    old(self)@,
                    owned_path(path),
                    info@,
                    mtime,
                ),
                Err(e) => r == Err::<MediaInfo, E>(e) && final(self)@ == old(self)@,
            },
    {
        match found {
            Ok((info, mtime)) => {
                self.insert(path, info.clone(), mtime);
                Ok(info)
            },
            Err(e) => Err(e),
        }
    }

    /// The metadata of `path`, as it is kept, or else as `probe_fn` finds it. What it finds is
    /// kept, with the modification time of the file that it reads once it is done. `probe_fn` is
    /// called on a miss alone: it need not be callable where the metadata is kept.
    pub fn get_or_probe<F, E>(&mut self, path: &Path, now: Option<u64>, probe_fn: F) -> (r: Result<
        MediaInfo,
        E,
    >) where F: FnOnce() -> Result<(MediaInfo, Option<u64>), E>
        requires
            old(self).wf(),
            lookup(old(self)@, owned_path(path), now) is None ==> call_requires(probe_fn, ()),
        ensures
            final(self).wf(),
            match lookup(old(self)@, owned_path(path), now) {
                Some(kept) => r is Ok && r->Ok_0@ == kept && final(self)@ == old(self)@,
                None => exists|found: Result<(MediaInfo, Option<u64>), E>| #[trigger]
                    call_ensures(probe_fn, (), found) && match found {
                        Ok((info, mtime)) => r is Ok && r->Ok_0@ == info@ && final(self)@
                            == with_entry(old(self)@, owned_path(path), info@, mtime),
                        Err(e) => r == Err::<MediaInfo, E>(e) && final(self)@ == old(self)@,
                    },
            },
    {
        if let Some(kept) = self.get(path, now) {
            return Ok(kept);
        }
        let found: Result<(MediaInfo, Option<u64>), E> = probe_fn();
        self.settle(path, found)
    }
}

impl Default for ProbeCache {
    /// An empty cache.
    fn default() -> (r: ProbeCache)
        ensures
            r.wf(),
            r@ == Map::<int, Cached>::empty(),
    {
        ProbeCache::new()
    }
}

// ─── Laws ───

/// What was put under a path is what is found there, unless the file changed since.
pub proof fn lemma_get_after_insert(
    entries: Map<int, Cached>,
    path: PathBuf,
    info: Metadata,
    mtime: Option<u64>,
    now: Option<u64>,
)
    ensures
        lookup(with_entry(entries, path, info, mtime), path, now) == if fresh(mtime, now) {
            Some(info)
        } else {
            None
        },
{
}

/// Putting something under a path leaves the other paths as they are.
pub proof fn lemma_insert_keeps_others(
    entries: Map<int, Cached>,
    path: PathBuf,
    info: Metadata,
    mtime: Option<u64>,
    other: PathBuf,
    now: Option<u64>,
)
    requires
        path_identity(other) != path_identity(path),
    ensures
        lookup(with_entry(entries, path, info, mtime), other, now) == lookup(entries, other, now),
{
}

/// Putting something under a path again leaves one entry, the later one.
pub proof fn lemma_insert_replaces(
    entries: Map<int, Cached>,
    path: PathBuf,
    info: Metadata,
    mtime: Option<u64>,
    again: Metadata,
    later: Option<u64>,
)
    ensures
        with_entry(with_entry(entries, path, info, mtime), path, again, later) == with_entry(
            entries,
            path,
            again,
            later,
        ),
{
    assert(with_entry(with_entry(entries, path, info, mtime), path, again, later) =~= with_entry(
        entries,
        path,
        again,
        later,
    ));
}

/// A path that was forgotten is not found, and the others are as they were.
pub proof fn lemma_get_after_invalidate(
    entries: Map<int, Cached>,
    path: PathBuf,
    other: PathBuf,
    now: Option<u64>,
)
    ensures
        lookup(without_entry(entries, path), path, now) is None,
        path_identity(other) != path_identity(path) ==> lookup(
            without_entry(entries, path),
            other,
            now,
        ) == lookup(entries, other, now),
{
}

/// Nothing is found in a cache that was cleared.
pub proof fn lemma_get_after_clear(path: PathBuf, now: Option<u64>)
    ensures
        lookup(Map::<int, Cached>::empty(), path, now) is None,
{
}

/// Equal paths share an entry.
pub proof fn lemma_equal_paths(
    entries: Map<int, Cached>,
    path: PathBuf,
    other: PathBuf,
    now: Option<u64>,
)
    requires
        path_identity(path) == path_identity(other),
    ensures
        lookup(entries, path, now) == lookup(entries, other, now),
{
}

/// A new path adds one to the number of entries, and a path that is there leaves it as it is.
pub proof fn lemma_len_after_insert(
    entries: Map<int, Cached>,
    path: PathBuf,
    info: Metadata,
    mtime: Option<u64>,
)
    requires
        entries.dom().finite(),
    ensures
        with_entry(entries, path, info, mtime).dom().len() == entries.dom().len() + if entries.dom()
            .contains(path_identity(path)) {
            0int
        } else {
            1int
        },
{
    let k = path_identity(path);
    assert(with_entry(entries, path, info, mtime).dom() =~= entries.dom().insert(k));
}

/// Whether all metadata that is kept passed the checks.
pub open spec fn all_checked(entries: Map<int, Cached>) -> bool {
    forall|k: int| #[trigger] entries.dom().contains(k) ==> failure(entries[k].info) is None
}

/// A cache that is given metadata that passed the checks holds such metadata alone, and so gives
/// no other.
pub proof fn lemma_all_checked(
    entries: Map<int, Cached>,
    path: PathBuf,
    info: Metadata,
    mtime: Option<u64>,
    now: Option<u64>,
)
    requires
        all_checked(entries),
        failure(info) is None,
    ensures
        all_checked(Map::<int, Cached>::empty()),
        all_checked(with_entry(entries, path, info, mtime)),
        all_checked(without_entry(entries, path)),
        lookup(entries, path, now) is Some ==> failure(lookup(entries, path, now)->0) is None,
{
    let after = with_entry(entries, path, info, mtime);
    assert forall|k: int| #[trigger] after.dom().contains(k) implies failure(after[k].info)
        is None by {
        if k != path_identity(path) {
            assert(entries.dom().contains(k));
        }
    }
    let less = without_entry(entries, path);
    assert forall|k: int| #[trigger] less.dom().contains(k) implies failure(less[k].info)
        is None by {
        assert(entries.dom().contains(k));
    }
}

/// What is found for a path is the metadata of its entry. It is found where the time of the file
/// cannot be read now, and where it is the very time that was read before. It is not found where
/// the two times differ, and where none could be read before and one can be now.
pub proof fn lemma_lookup(
    entries: Map<int, Cached>,
    path: PathBuf,
    now: Option<u64>,
)
    ensures
        !entries.dom().contains(path_identity(path)) ==> lookup(entries, path, now) is None,
        entries.dom().contains(path_identity(path)) ==> ({
            let entry = entries[path_identity(path)];
            &&& lookup(entries, path, None) == Some(entry.info)
            &&& now is Some && entry.mtime is Some && now->0 == entry.mtime->0 ==> lookup(
                entries,
                path,
                now,
            ) == Some(entry.info)
            &&& now is Some && entry.mtime is Some && now->0 != entry.mtime->0 ==> lookup(
                entries,
                path,
                now,
            ) is None
            &&& now is Some && entry.mtime is None ==> lookup(entries, path, now) is None
        }),
{
}

/// A file that was kept at one time is found again at that time and at no other.
pub proof fn lemma_changed_file(
    entries: Map<int, Cached>,
    path: PathBuf,
    info: Metadata,
    then: u64,
    now: u64,
)
    ensures
        then == now ==> lookup(with_entry(entries, path, info, Some(then)), path, Some(now))
            == Some(info),
        then != now ==> lookup(with_entry(entries, path, info, Some(then)), path, Some(now)) is None,
        lookup(with_entry(entries, path, info, Some(then)), path, None) == Some(info),
        lookup(with_entry(entries, path, info, None), path, Some(now)) is None,
        lookup(with_entry(entries, path, info, None), path, None) == Some(info),
{
}

/// Putting something under a path makes its entry what was put there, under the first spelling of
/// the path, and leaves all other entries as they are.
pub proof fn lemma_entry_after_insert(
    entries: Map<int, Cached>,
    path: PathBuf,
    info: Metadata,
    mtime: Option<u64>,
    k: int,
)
    ensures
        ({
            let after = with_entry(entries, path, info, mtime);
            let own = path_identity(path);
            &&& after.dom().contains(own)
            &&& after[own].info == info
            &&& after[own].mtime == mtime
            &&& entries.dom().contains(own) ==> after[own].path == entries[own].path
            &&& !entries.dom().contains(own) ==> after[own].path == path
            &&& k != own ==> (after.dom().contains(k) <==> entries.dom().contains(k))
            &&& k != own && entries.dom().contains(k) ==> after[k] == entries[k]
        }),
{
}

/// Forgetting a path takes out its entry and leaves all others as they are.
pub proof fn lemma_entry_after_invalidate(entries: Map<int, Cached>, path: PathBuf, k: int)
    ensures
        ({
            let after = without_entry(entries, path);
            let own = path_identity(path);
            &&& !after.dom().contains(own)
            &&& k != own ==> (after.dom().contains(k) <==> entries.dom().contains(k))
            &&& k != own && entries.dom().contains(k) ==> after[k] == entries[k]
        }),
        entries.dom().finite() ==> without_entry(entries, path).dom().len() == entries.dom().len()
            - if entries.dom().contains(path_identity(path)) {
            1int
        } else {
            0int
        },
{
    let own = path_identity(path);
    let after = without_entry(entries, path);
    assert(after.dom() =~= entries.dom().remove(own));
}

} // verus!
