//! File paths, and a map keyed by them.
use std::path::{Path, PathBuf};
use vstd::prelude::*;

verus! {

/// `std::path::PathBuf`, carried through as it is.
#[verifier::external_type_specification]
#[verifier::external_body]
pub struct ExPathBuf(std::path::PathBuf);

/// `std::path::Path`, carried through as it is.
#[verifier::external_type_specification]
#[verifier::external_body]
pub struct ExPath(std::path::Path);

/// The owned path that `Path::to_path_buf` makes of a borrowed one.
pub uninterp spec fn owned_path(path: &Path) -> PathBuf;

/// What `==` on paths goes by: two paths are equal exactly where this is the same of both.
pub uninterp spec fn path_identity(path: PathBuf) -> int;

/// `Path::to_path_buf`: the path, owned.
pub assume_specification[ Path::to_path_buf ](path: &Path) -> (r: PathBuf)
    ensures
        r == owned_path(path),
;

/// `PathBuf::as_path`: the path, borrowed.
pub assume_specification[ PathBuf::as_path ](path: &PathBuf) -> (r: &Path)
    ensures
        owned_path(r) == *path,
;

/// `PathBuf::clone`: the same path again.
pub assume_specification[ <PathBuf as Clone>::clone ](path: &PathBuf) -> (r: PathBuf)
    ensures
        r == *path,
;

/// `==` on paths, which is an equivalence (`Path` is `Eq`), and which does not tell a borrowed
/// path from the owned one made of it.
#[verifier::external_body]
pub(crate) fn same_path(a: &PathBuf, b: &Path) -> (r: bool)
    ensures
        r == (path_identity(*a) == path_identity(owned_path(b))),
{
    a.as_path() == b
}

/// A map from paths to values. Equal paths are one key, and the key is kept as it was first
/// spelled.
pub struct PathMap<V> {
    entries: Vec<(PathBuf, V)>,
}

/// The identities of the keys, in order.
spec fn identities<V>(entries: Seq<(PathBuf, V)>) -> Seq<int> {
    entries.map_values(|e: (PathBuf, V)| path_identity(e.0))
}

/// The map that a list of entries stands for.
spec fn as_map<V>(entries: Seq<(PathBuf, V)>) -> Map<int, (PathBuf, V)> {
    Map::new(
        |k: int| identities(entries).contains(k),
        |k: int| entries[choose|i: int| 0 <= i < entries.len() && identities(entries)[i] == k],
    )
}

impl<V> View for PathMap<V> {
    type V = Map<int, (PathBuf, V)>;

    /// From the identity of a path to its first spelling and its value.
    closed spec fn view(&self) -> Map<int, (PathBuf, V)> {
        as_map(self.entries@)
    }
}

/// Where the identities differ, an entry is found under its own.
proof fn lemma_entry<V>(entries: Seq<(PathBuf, V)>, i: int)
    requires
        identities(entries).no_duplicates(),
        0 <= i < entries.len(),
    ensures
        as_map(entries).dom().contains(path_identity(entries[i].0)),
        as_map(entries)[path_identity(entries[i].0)] == entries[i],
{
    let k = path_identity(entries[i].0);
    assert(identities(entries)[i] == k);
    let j = choose|j: int| 0 <= j < entries.len() && identities(entries)[j] == k;
    assert(i == j);
}

/// There is one key for each entry.
proof fn lemma_size<V>(entries: Seq<(PathBuf, V)>)
    requires
        identities(entries).no_duplicates(),
    ensures
        as_map(entries).dom().finite(),
        as_map(entries).dom().len() == entries.len(),
{
    let ids = identities(entries);
    ids.unique_seq_to_set();
    assert(as_map(entries).dom() =~= ids.to_set());
}

impl<V> PathMap<V> {
    /// No two keys are equal.
    pub closed spec fn wf(&self) -> bool {
        identities(self.entries@).no_duplicates()
    }

    /// An empty map.
    pub fn new() -> (r: PathMap<V>)
        ensures
            r.wf(),
            r@ == Map::<int, (PathBuf, V)>::empty(),
    {
        let r: PathMap<V> = PathMap { entries: Vec::new() };
        assert(r@ =~= Map::<int, (PathBuf, V)>::empty());
        r
    }

    /// Where the entry of `path` stands.
    fn position(&self, path: &Path) -> (r: Option<usize>)
        requires
            self.wf(),
        ensures
            match r {
                Some(i) => i < self.entries@.len() && path_identity(self.entries@[i as int].0)
                    == path_identity(owned_path(path)),
                None => !self@.dom().contains(path_identity(owned_path(path))),
            },
    {
        let ghost k = path_identity(owned_path(path));
        let mut i: usize = 0;
        while i < self.entries.len()
            invariant
                i <= self.entries.len(),
                k == path_identity(owned_path(path)),
                forall|j: int| 0 <= j < i ==> identities(self.entries@)[j] != k,
            decreases self.entries.len() - i,
        {
            if same_path(&self.entries[i].0, path) {
                return Some(i);
            }
            i = i + 1;
        }
        None
    }

    /// The value of `path`.
    pub fn get(&self, path: &Path) -> (r: Option<&V>)
        requires
            self.wf(),
        ensures
            match r {
                Some(v) => self@.dom().contains(path_identity(owned_path(path)))
                    && self@[path_identity(owned_path(path))].1 == *v,
                None => !self@.dom().contains(path_identity(owned_path(path))),
            },
    {
        match self.position(path) {
            Some(i) => {
                proof {
                    lemma_entry(self.entries@, i as int);
                }
                Some(&self.entries[i].1)
            },
            None => None,
        }
    }

    /// Puts `value` under `path`, in place of what was there.
    pub fn insert(&mut self, path: &Path, value: V)
        requires
            old(self).wf(),
        ensures
            final(self).wf(),
            ({
                let k = path_identity(owned_path(path));
                let spelling = if old(self)@.dom().contains(k) {
                    old(self)@[k].0
                } else {
                    owned_path(path)
                };
                final(self)@ == old(self)@.insert(k, (spelling, value))
            }),
    {
        let ghost k = path_identity(owned_path(path));
        let ghost before = self.entries@;
        match self.position(path) {
            Some(i) => {
                let spelling: PathBuf = self.entries[i].0.clone();
                self.entries.set(i, (spelling, value));
                proof {
                    let after = self.entries@;
                    assert(identities(after) =~= identities(before));
                    lemma_entry(before, i as int);
                    assert forall|j: int| identities(before).contains(j) implies #[trigger] as_map(
                        after,
                    )[j] == as_map(before).insert(k, after[i as int])[j] by {
                        let n = choose|n: int| 0 <= n < before.len() && identities(before)[n] == j;
                        lemma_entry(before, n);
                        lemma_entry(after, n);
                        assert(identities(before)[i as int] == k);
                    }
                    assert(as_map(after) =~= as_map(before).insert(k, after[i as int]));
                }
            },
            None => {
                self.entries.push((path.to_path_buf(), value));
                proof {
                    let after = self.entries@;
                    let n = before.len() as int;
                    assert(identities(after) =~= identities(before).push(k));
                    assert forall|j: int| 0 <= j < n implies identities(before)[j] != k by {
                        assert(identities(before).contains(identities(before)[j]));
                    }
                    lemma_entry(after, n);
                    assert forall|j: int| identities(before).contains(j) implies #[trigger] as_map(
                        after,
                    )[j] == as_map(before)[j] by {
                        let m = choose|m: int| 0 <= m < before.len() && identities(before)[m] == j;
                        lemma_entry(before, m);
                        lemma_entry(after, m);
                    }
                    assert forall|j: int| #[trigger]
                        identities(after).contains(j) <==> identities(before).contains(j) || j
                            == k by {
                        if identities(before).contains(j) {
                            let m = choose|m: int|
                                0 <= m < before.len() && identities(before)[m] == j;
                            assert(identities(after)[m] == j);
                        }
                        if j == k {
                            assert(identities(after)[n] == k);
                        }
                    }
                    assert(as_map(after) =~= as_map(before).insert(k, after[n]));
                }
            },
        }
    }

    /// Takes out what is under `path`.
    pub fn remove(&mut self, path: &Path)
        requires
            old(self).wf(),
        ensures
            final(self).wf(),
            final(self)@ == old(self)@.remove(path_identity(owned_path(path))),
    {
        let ghost k = path_identity(owned_path(path));
        let ghost before = self.entries@;
        match self.position(path) {
            Some(i) => {
                let _ = self.entries.remove(i);
                proof {
                    let after = self.entries@;
                    let n = i as int;
                    assert(identities(after) =~= identities(before).remove(n));
                    assert forall|j: int| #[trigger]
                        identities(after).contains(j) <==> identities(before).contains(j) && j
                            != k by {
                        if identities(before).contains(j) && j != k {
                            let m = choose|m: int|
                                0 <= m < before.len() && identities(before)[m] == j;
                            assert(identities(after)[if m < n { m } else { m - 1 }] == j);
                        }
                        if identities(after).contains(j) {
                            let m = choose|m: int| 0 <= m < after.len() && identities(after)[m] == j;
                            assert(identities(before)[if m < n { m } else { m + 1 }] == j);
                            assert(identities(before)[n] == k);
                        }
                    }
                    assert forall|j: int| identities(after).contains(j) implies #[trigger] as_map(
                        after,
                    )[j] == as_map(before)[j] by {
                        let m = choose|m: int| 0 <= m < after.len() && identities(after)[m] == j;
                        lemma_entry(after, m);
                        lemma_entry(before, if m < n { m } else { m + 1 });
                    }
                    assert(as_map(after) =~= as_map(before).remove(k));
                }
            },
            None => {
                assert(self@.remove(k) =~= self@);
            },
        }
    }

    /// Takes out everything.
    pub fn clear(&mut self)
        ensures
            final(self).wf(),
            final(self)@ == Map::<int, (PathBuf, V)>::empty(),
    {
        self.entries.clear();
        assert(self@ =~= Map::<int, (PathBuf, V)>::empty());
    }

    /// How many keys there are.
    pub fn len(&self) -> (r: usize)
        requires
            self.wf(),
        ensures
            self@.dom().finite(),
            r == self@.dom().len(),
    {
        proof {
            lemma_size(self.entries@);
        }
        self.entries.len()
    }

    /// Whether there is no key.
    pub fn is_empty(&self) -> (r: bool)
        requires
            self.wf(),
        ensures
            r == (self@ == Map::<int, (PathBuf, V)>::empty()),
    {
        proof {
            lemma_size(self.entries@);
            if self.entries@.len() == 0 {
                assert(self@ =~= Map::<int, (PathBuf, V)>::empty());
            }
        }
        self.entries.len() == 0
    }

    /// The keys, each once, as they were first spelled.
    pub fn paths(&self) -> (r: Vec<PathBuf>)
        requires
            self.wf(),
        ensures
            self@.dom().finite(),
            r@.len() == self@.dom().len(),
            forall|i: int|
                #![trigger r@[i]]
                0 <= i < r@.len() ==> self@.dom().contains(path_identity(r@[i]))
                    && self@[path_identity(r@[i])].0 == r@[i],
            forall|k: int| #[trigger]
                self@.dom().contains(k) ==> exists|i: int|
                    0 <= i < r@.len() && path_identity(#[trigger] r@[i]) == k,
    {
        let mut r: Vec<PathBuf> = Vec::new();
        let mut i: usize = 0;
        while i < self.entries.len()
            invariant
                i <= self.entries.len(),
                r@.len() == i,
                forall|j: int| 0 <= j < i ==> #[trigger] r@[j] == self.entries@[j].0,
            decreases self.entries.len() - i,
        {
            r.push(self.entries[i].0.clone());
            i = i + 1;
        }
        proof {
            lemma_size(self.entries@);
            assert forall|j: int| 0 <= j < r@.len() implies self@.dom().contains(
                path_identity(#[trigger] r@[j]),
            ) && self@[path_identity(r@[j])].0 == r@[j] by {
                lemma_entry(self.entries@, j);
            }
            assert forall|k: int| #[trigger] self@.dom().contains(k) implies exists|i: int|
                0 <= i < r@.len() && path_identity(#[trigger] r@[i]) == k by {
                let j = choose|j: int|
                    0 <= j < self.entries@.len() && identities(self.entries@)[j] == k;
                assert(path_identity(r@[j]) == k);
            }
        }
        r
    }
}

} // verus!
