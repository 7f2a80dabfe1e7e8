//! A model of the directory trees the build driver owns.
//!
//! The model maps each well-formed path to the kind of entry sitting there.
//! Its view is a `Map<Seq<u8>, EntryKind>`; well-formedness says every entry
//! lies inside directories that the map also holds.
use vstd::prelude::*;

use crate::paths::bytes_eq;
use crate::paths::has_marker_suffix;
use crate::paths::is_strictly_under;
use crate::paths::ends_with_marker;
use crate::paths::push_range;
use crate::paths::strictly_under;
use crate::paths::valid_path;
use crate::paths::is_valid_path;
use crate::paths::SLASH;

verus! {

/// What sits at a path: a regular file, a symbolic link, or a directory.
#[derive(Clone, Copy, PartialEq, Eq, Structural, Debug)]
pub enum EntryKind {
    File,
    Symlink,
    Dir,
}

/// One tracked entry.
pub struct FsEntry {
    pub path: Vec<u8>,
    pub kind: EntryKind,
}

/// A directory tree as a finite set of path-to-kind bindings.
pub struct FsModel {
    entries: Vec<FsEntry>,
}

/// The map a sequence of entries denotes; later entries win.
pub open spec fn entries_map(s: Seq<FsEntry>) -> Map<Seq<u8>, EntryKind>
    decreases s.len(),
{
    if s.len() == 0 {
        Map::empty()
    } else {
        entries_map(s.drop_last()).insert(s.last().path@, s.last().kind)
    }
}

/// No two entries bind the same path.
pub open spec fn distinct_paths(s: Seq<FsEntry>) -> bool {
    forall|i: int, j: int| 0 <= i < j < s.len() ==> s[i].path@ != s[j].path@
}

/// Well-formedness of a tree map: every bound path is well formed, and every
/// directory on the way down to a bound path is itself bound as a directory.
pub open spec fn map_wf(m: Map<Seq<u8>, EntryKind>) -> bool {
    &&& forall|p: Seq<u8>| #[trigger] m.contains_key(p) ==> valid_path(p)
    &&& forall|p: Seq<u8>, q: Seq<u8>|
        #[trigger] m.contains_key(p) && #[trigger] strictly_under(p, q) ==> m.contains_key(q)
            && m[q] == EntryKind::Dir
}

impl View for FsModel {
    type V = Map<Seq<u8>, EntryKind>;

    closed spec fn view(&self) -> Map<Seq<u8>, EntryKind> {
        entries_map(self.entries@)
    }
}

/// A path bound to `EntryKind::File` whose name carries the marker suffix,
/// strictly inside the marker directory `md`.
pub open spec fn is_marker_entry(m: Map<Seq<u8>, EntryKind>, md: Seq<u8>, p: Seq<u8>) -> bool {
    m.contains_key(p) && m[p] == EntryKind::File && strictly_under(p, md) && has_marker_suffix(p)
}

/// A promotable entry strictly inside the build directory `bd`: a symlink, or
/// a regular file whose name does not carry the marker suffix.
pub open spec fn is_artifact_entry(m: Map<Seq<u8>, EntryKind>, bd: Seq<u8>, p: Seq<u8>) -> bool {
    m.contains_key(p) && strictly_under(p, bd) && (m[p] == EntryKind::Symlink || (m[p]
        == EntryKind::File && !has_marker_suffix(p)))
}

/// Which entries a tree walk yields.
#[derive(Clone, Copy, PartialEq, Eq, Structural, Debug)]
pub enum FileFilter {
    /// Symlinks and regular files without the marker suffix: what promotion moves.
    Artifacts,
    /// Regular files with the marker suffix: what cleanup consumes.
    Markers,
}

/// Copy of a byte vector.
pub fn clone_bytes(p: &Vec<u8>) -> (r: Vec<u8>)
    ensures
        r@ == p@,
{
    let mut r: Vec<u8> = Vec::new();
    push_range(&mut r, p, 0, p.len());
    proof {
        assert(r@ =~= p@);
    }
    r
}

proof fn lemma_map_contains(s: Seq<FsEntry>, p: Seq<u8>)
    ensures
        entries_map(s).contains_key(p) <==> exists|i: int| 0 <= i < s.len() && s[i].path@ == p,
    decreases s.len(),
{
    if s.len() > 0 {
        lemma_map_contains(s.drop_last(), p);
        if entries_map(s).contains_key(p) {
            if s.last().path@ == p {
                assert(s[s.len() - 1].path@ == p);
            } else {
                let i = choose|i: int| 0 <= i < s.drop_last().len() && s.drop_last()[i].path@ == p;
                assert(s[i].path@ == p);
            }
        }
        if exists|i: int| 0 <= i < s.len() && s[i].path@ == p {
            let i = choose|i: int| 0 <= i < s.len() && s[i].path@ == p;
            if i < s.len() - 1 {
                assert(s.drop_last()[i].path@ == p);
            }
        }
    }
}

proof fn lemma_map_value(s: Seq<FsEntry>, i: int)
    requires
        distinct_paths(s),
        0 <= i < s.len(),
    ensures
        entries_map(s).contains_key(s[i].path@),
        entries_map(s)[s[i].path@] == s[i].kind,
    decreases s.len(),
{
    lemma_map_contains(s, s[i].path@);
    if i == s.len() - 1 {
    } else {
        assert(distinct_paths(s.drop_last()));
        lemma_map_value(s.drop_last(), i);
        assert(s.drop_last()[i] == s[i]);
        assert(s.last().path@ != s[i].path@);
    }
}

proof fn lemma_map_push(s: Seq<FsEntry>, e: FsEntry)
    ensures
        entries_map(s.push(e)) == entries_map(s).insert(e.path@, e.kind),
{
    assert(s.push(e).drop_last() =~= s);
    assert(s.push(e).last() == e);
}

proof fn lemma_map_update(s: Seq<FsEntry>, i: int, e: FsEntry)
    requires
        distinct_paths(s),
        0 <= i < s.len(),
        s[i].path@ == e.path@,
    ensures
        entries_map(s.update(i, e)) == entries_map(s).insert(e.path@, e.kind),
    decreases s.len(),
{
    let t = s.update(i, e);
    if i == s.len() - 1 {
        assert(t.drop_last() =~= s.drop_last());
        assert(t.last() == e);
        assert(entries_map(s).insert(e.path@, e.kind) =~= entries_map(s.drop_last()).insert(
            e.path@,
            e.kind,
        ));
    } else {
        assert(distinct_paths(s.drop_last()));
        lemma_map_update(s.drop_last(), i, e);
        assert(t.drop_last() =~= s.drop_last().update(i, e));
        assert(t.last() == s.last());
        assert(s.last().path@ != e.path@);
        assert(entries_map(s.drop_last()).insert(e.path@, e.kind).insert(
            s.last().path@,
            s.last().kind,
        ) =~= entries_map(s.drop_last()).insert(s.last().path@, s.last().kind).insert(
            e.path@,
            e.kind,
        ));
    }
}

proof fn lemma_map_remove(s: Seq<FsEntry>, i: int)
    requires
        distinct_paths(s),
        0 <= i < s.len(),
    ensures
        entries_map(s.remove(i)) == entries_map(s).remove(s[i].path@),
    decreases s.len(),
{
    let p = s[i].path@;
    if i == s.len() - 1 {
        assert(s.remove(i) =~= s.drop_last());
        lemma_map_contains(s.drop_last(), p);
        assert(forall|j: int|
            0 <= j < s.drop_last().len() ==> #[trigger] s.drop_last()[j].path@ != p);
        assert(!entries_map(s.drop_last()).contains_key(p));
        assert(entries_map(s.drop_last()).insert(p, s.last().kind).remove(p) =~= entries_map(
            s.drop_last(),
        ));
    } else {
        assert(distinct_paths(s.drop_last()));
        lemma_map_remove(s.drop_last(), i);
        assert(s.remove(i).drop_last() =~= s.drop_last().remove(i));
        assert(s.remove(i).last() == s.last());
        assert(s.last().path@ != p);
        assert(entries_map(s.drop_last()).remove(p).insert(s.last().path@, s.last().kind)
            =~= entries_map(s.drop_last()).insert(s.last().path@, s.last().kind).remove(p));
    }
}


proof fn lemma_entries_map_finite(s: Seq<FsEntry>)
    ensures
        entries_map(s).dom().finite(),
    decreases s.len(),
{
    if s.len() == 0 {
        assert(entries_map(s).dom() =~= Set::<Seq<u8>>::empty());
    } else {
        lemma_entries_map_finite(s.drop_last());
        assert(entries_map(s).dom() =~= entries_map(s.drop_last()).dom().insert(s.last().path@));
    }
}

impl FsModel {
    /// The tree binds finitely many paths.
    pub proof fn lemma_dom_finite(&self)
        ensures
            self@.dom().finite(),
    {
        lemma_entries_map_finite(self.entries@);
    }

    /// Internal invariant: one entry per path.
    pub closed spec fn inv(&self) -> bool {
        distinct_paths(self.entries@)
    }

    /// A well-formed tree: internally consistent, and its map well formed.
    pub open spec fn wf(&self) -> bool {
        self.inv() && map_wf(self@)
    }

    /// The empty tree.
    pub fn new() -> (r: FsModel)
        ensures
            r@ == Map::<Seq<u8>, EntryKind>::empty(),
            r.wf(),
    {
        let r = FsModel { entries: Vec::new() };
        proof {
            assert(r@ =~= Map::<Seq<u8>, EntryKind>::empty());
        }
        r
    }

    fn find_index(&self, p: &Vec<u8>) -> (r: Option<usize>)
        requires
            self.inv(),
        ensures
            match r {
                Some(i) => i < self.entries@.len() && self.entries@[i as int].path@ == p@
                    && self@.contains_key(p@),
                None => !self@.contains_key(p@),
            },
    {
        let mut i: usize = 0;
        while i < self.entries.len()
            invariant
                i <= self.entries@.len(),
                forall|j: int| 0 <= j < i ==> self.entries@[j].path@ != p@,
            decreases self.entries@.len() - i,
        {
            if bytes_eq(&self.entries[i].path, p) {
                proof {
                    lemma_map_contains(self.entries@, p@);
                }
                return Some(i);
            }
            i += 1;
        }
        proof {
            lemma_map_contains(self.entries@, p@);
        }
        None
    }

    /// What sits at `p`, if anything.
    pub fn lookup(&self, p: &Vec<u8>) -> (r: Option<EntryKind>)
        requires
            self.inv(),
        ensures
            r == if self@.contains_key(p@) {
                Some(self@[p@])
            } else {
                None::<EntryKind>
            },
    {
        match self.find_index(p) {
            Some(i) => {
                proof {
                    lemma_map_value(self.entries@, i as int);
                }
                Some(self.entries[i].kind)
            },
            None => None,
        }
    }

    /// Is anything bound at `p`?
    pub fn contains(&self, p: &Vec<u8>) -> (r: bool)
        requires
            self.inv(),
        ensures
            r == self@.contains_key(p@),
    {
        self.find_index(p).is_some()
    }

    /// Bind `p` to `k`, keeping the tree well formed.
    pub fn set_entry(&mut self, p: Vec<u8>, k: EntryKind)
        requires
            old(self).wf(),
            valid_path(p@),
            map_wf(old(self)@.insert(p@, k)),
        ensures
            final(self).wf(),
            final(self)@ == old(self)@.insert(p@, k),
    {
        let ghost s0 = self.entries@;
        match self.find_index(&p) {
            Some(i) => {
                let e = FsEntry { path: p, kind: k };
                proof {
                    lemma_map_update(s0, i as int, e);
                }
                self.entries[i] = e;
                proof {
                    assert(distinct_paths(self.entries@));
                }
            },
            None => {
                let e = FsEntry { path: p, kind: k };
                proof {
                    lemma_map_push(s0, e);
                    lemma_map_contains(s0, e.path@);
                }
                self.entries.push(e);
                proof {
                    assert forall|i: int, j: int|
                        0 <= i < j < self.entries@.len() implies self.entries@[i].path@
                        != self.entries@[j].path@ by {
                        if j < self.entries@.len() - 1 {
                            assert(s0[i].path@ != s0[j].path@);
                        }
                    }
                }
            },
        }
    }

    /// Drop whatever is bound at `p`; a no-op when nothing is.
    pub fn remove_entry(&mut self, p: &Vec<u8>)
        requires
            old(self).wf(),
            map_wf(old(self)@.remove(p@)),
        ensures
            final(self).wf(),
            final(self)@ == old(self)@.remove(p@),
    {
        let ghost s0 = self.entries@;
        match self.find_index(p) {
            Some(i) => {
                proof {
                    lemma_map_remove(s0, i as int);
                    assert(distinct_paths(s0.remove(i as int)));
                }
                self.entries.remove(i);
            },
            None => {
                proof {
                    assert(old(self)@.remove(p@) =~= old(self)@);
                }
            },
        }
    }

    /// Is any entry strictly inside the directory `d`?
    pub fn any_strictly_under(&self, d: &Vec<u8>) -> (r: bool)
        requires
            self.inv(),
        ensures
            r == exists|q: Seq<u8>| self@.contains_key(q) && strictly_under(q, d@),
    {
        let mut i: usize = 0;
        while i < self.entries.len()
            invariant
                self.inv(),
                i <= self.entries@.len(),
                forall|j: int| 0 <= j < i ==> !strictly_under(#[trigger] self.entries@[j].path@, d@),
            decreases self.entries@.len() - i,
        {
            if is_strictly_under(&self.entries[i].path, d) {
                proof {
                    lemma_map_value(self.entries@, i as int);
                }
                return true;
            }
            i += 1;
        }
        proof {
            if exists|q: Seq<u8>| self@.contains_key(q) && strictly_under(q, d@) {
                let q = choose|q: Seq<u8>| self@.contains_key(q) && strictly_under(q, d@);
                lemma_map_contains(self.entries@, q);
            }
        }
        false
    }

    /// An existing directory with nothing inside it.
    pub fn is_empty_dir(&self, d: &Vec<u8>) -> (r: bool)
        requires
            self.inv(),
        ensures
            r == (self@.contains_key(d@) && self@[d@] == EntryKind::Dir && !exists|q: Seq<u8>|
                self@.contains_key(q) && strictly_under(q, d@)),
    {
        match self.lookup(d) {
            Some(EntryKind::Dir) => !self.any_strictly_under(d),
            _ => false,
        }
    }

    /// Bind `p` to `k` only where that keeps the tree well formed: the path
    /// well formed, every enclosing directory held as a directory, and, for a
    /// non-directory, nothing inside the slot. Reports whether it did.
    pub fn add_entry(&mut self, p: Vec<u8>, k: EntryKind) -> (ok: bool)
        requires
            old(self).wf(),
        ensures
            final(self).wf(),
            ok ==> final(self)@ == old(self)@.insert(p@, k),
            !ok ==> final(self)@ == old(self)@,
    {
        if !is_valid_path(&p) {
            return false;
        }
        let mut pos: usize = 1;
        while pos < p.len()
            invariant
                self.wf(),
                self@ == old(self)@,
                1 <= pos <= p@.len(),
                valid_path(p@),
                forall|q: Seq<u8>|
                    #![trigger strictly_under(p@, q)]
                    strictly_under(p@, q) && q.len() < pos ==> self@.contains_key(q) && self@[q]
                        == EntryKind::Dir,
            decreases p@.len() - pos,
        {
            if p[pos] == SLASH {
                let mut qv: Vec<u8> = Vec::new();
                crate::paths::push_range(&mut qv, &p, 0, pos);
                proof {
                    assert(qv@ =~= p@.subrange(0, pos as int));
                }
                match self.lookup(&qv) {
                    Some(EntryKind::Dir) => {
                        proof {
                            assert forall|q: Seq<u8>|
                                #![trigger strictly_under(p@, q)]
                                strictly_under(p@, q) && q.len() < pos + 1 implies self@.contains_key(
                                q,
                            ) && self@[q] == EntryKind::Dir by {
                                if q.len() == pos {
                                    assert(q =~= p@.subrange(0, pos as int));
                                }
                            }
                        }
                    },
                    _ => {
                        return false;
                    },
                }
            } else {
                proof {
                    assert forall|q: Seq<u8>|
                        #![trigger strictly_under(p@, q)]
                        strictly_under(p@, q) && q.len() < pos + 1 implies self@.contains_key(q)
                        && self@[q] == EntryKind::Dir by {
                        if q.len() == pos {
                            assert(p@[q.len() as int] == crate::paths::SLASH);
                        }
                    }
                }
            }
            pos += 1;
        }
        if !(matches!(k, EntryKind::Dir)) && self.any_strictly_under(&p) {
            return false;
        }
        proof {
            assert forall|x: Seq<u8>, r: Seq<u8>| #[trigger]
                self@.insert(p@, k).contains_key(x) && #[trigger]
                strictly_under(x, r) implies self@.insert(p@, k).contains_key(r) && self@.insert(
                p@,
                k,
            )[r] == EntryKind::Dir by {
                if x == p@ {
                    assert(r.len() + 1 < p@.len());
                    assert(self@.contains_key(r) && self@[r] == EntryKind::Dir);
                    assert(r != p@);
                } else {
                    assert(self@.contains_key(x));
                    assert(self@.contains_key(r) && self@[r] == EntryKind::Dir);
                    if r == p@ {
                        assert(self@[p@] == EntryKind::Dir);
                        if !(k matches EntryKind::Dir) {
                            assert(strictly_under(x, p@));
                            assert(false);
                        }
                    }
                }
            }
            assert(map_wf(self@.insert(p@, k)));
        }
        self.set_entry(p, k);
        true
    }

    /// Every entry strictly inside `dir` that the filter selects, one copy
    /// each; no order is promised.
    pub fn find_files(&self, dir: &Vec<u8>, filter: FileFilter) -> (r: Vec<Vec<u8>>)
        requires
            self.inv(),
        ensures
            forall|p: Seq<u8>|
                #[trigger] r.deep_view().contains(p) <==> (match filter {
                    FileFilter::Artifacts => is_artifact_entry(self@, dir@, p),
                    FileFilter::Markers => is_marker_entry(self@, dir@, p),
                }),
            forall|i: int, j: int| 0 <= i < j < r.deep_view().len() ==> r.deep_view()[i]
                != r.deep_view()[j],
    {
        let ghost m = self@;
        let mut r: Vec<Vec<u8>> = Vec::new();
        let mut i: usize = 0;
        while i < self.entries.len()
            invariant
                self.inv(),
                m == self@,
                i <= self.entries@.len(),
                forall|k: int| 0 <= k < r.deep_view().len() ==> exists|j: int|
                    0 <= j < i && #[trigger] r.deep_view()[k] == self.entries@[j].path@,
                forall|j: int|
                    0 <= j < i ==> (r.deep_view().contains(#[trigger] self.entries@[j].path@)
                        <==> (match filter {
                        FileFilter::Artifacts => is_artifact_entry(m, dir@, self.entries@[j].path@),
                        FileFilter::Markers => is_marker_entry(m, dir@, self.entries@[j].path@),
                    })),
                forall|k1: int, k2: int| 0 <= k1 < k2 < r.deep_view().len() ==> r.deep_view()[k1]
                    != r.deep_view()[k2],
            decreases self.entries@.len() - i,
        {
            let e = &self.entries[i];
            let under = is_strictly_under(&e.path, dir);
            let selected: bool = match filter {
                FileFilter::Artifacts => {
                    under && (matches!(e.kind, EntryKind::Symlink) || (matches!(
                        e.kind,
                        EntryKind::File,
                    ) && !ends_with_marker(&e.path)))
                },
                FileFilter::Markers => {
                    under && matches!(e.kind, EntryKind::File) && ends_with_marker(&e.path)
                },
            };
            proof {
                lemma_map_value(self.entries@, i as int);
            }
            let ghost r0 = r.deep_view();
            if selected {
                r.push(clone_bytes(&e.path));
                proof {
                    assert(r.deep_view() =~~= r0.push(self.entries@[i as int].path@));
                    assert forall|k1: int, k2: int|
                        0 <= k1 < k2 < r.deep_view().len() implies r.deep_view()[k1]
                        != r.deep_view()[k2] by {
                        if k2 == r.deep_view().len() - 1 {
                            let j = choose|j: int|
                                0 <= j < i && r0[k1] == self.entries@[j].path@;
                            assert(self.entries@[j].path@ != self.entries@[i as int].path@);
                        }
                    }
                }
            }
            proof {
                assert forall|j: int|
                    0 <= j < i + 1 implies (r.deep_view().contains(
                    #[trigger] self.entries@[j].path@,
                ) <==> (match filter {
                    FileFilter::Artifacts => is_artifact_entry(m, dir@, self.entries@[j].path@),
                    FileFilter::Markers => is_marker_entry(m, dir@, self.entries@[j].path@),
                })) by {
                    if j < i {
                        if r0.contains(self.entries@[j].path@) {
                            let k = choose|k: int|
                                0 <= k < r0.len() && r0[k] == self.entries@[j].path@;
                            assert(r.deep_view()[k] == self.entries@[j].path@);
                            assert(r.deep_view().contains(self.entries@[j].path@));
                        }
                        if r.deep_view().contains(self.entries@[j].path@) && !r0.contains(
                            self.entries@[j].path@,
                        ) {
                            assert(self.entries@[j].path@ == self.entries@[i as int].path@);
                            assert(false);
                        }
                    } else {
                        if selected {
                            assert(r.deep_view()[r.deep_view().len() - 1]
                                == self.entries@[i as int].path@);
                        } else {
                            if r.deep_view().contains(self.entries@[j].path@) {
                                let k = choose|k: int|
                                    0 <= k < r.deep_view().len() && r.deep_view()[k]
                                        == self.entries@[j].path@;
                                let jj = choose|jj: int|
                                    0 <= jj < i && r.deep_view()[k] == self.entries@[jj].path@;
                                assert(r.deep_view().contains(self.entries@[jj].path@));
                                assert(self.entries@[jj].path@ == self.entries@[i as int].path@);
                                assert(false);
                            }
                        }
                    }
                }
            }
            i += 1;
        }
        proof {
            assert forall|p: Seq<u8>| #[trigger] r.deep_view().contains(p) implies (match filter {
                FileFilter::Artifacts => is_artifact_entry(m, dir@, p),
                FileFilter::Markers => is_marker_entry(m, dir@, p),
            }) by {
                let k = choose|k: int| 0 <= k < r.deep_view().len() && r.deep_view()[k] == p;
                let j = choose|j: int|
                    0 <= j < self.entries@.len() && r.deep_view()[k] == self.entries@[j].path@;
                assert(r.deep_view().contains(self.entries@[j].path@));
            }
            assert forall|p: Seq<u8>|
                (match filter {
                    FileFilter::Artifacts => is_artifact_entry(m, dir@, p),
                    FileFilter::Markers => is_marker_entry(m, dir@, p),
                }) implies #[trigger] r.deep_view().contains(p) by {
                lemma_map_contains(self.entries@, p);
                let j = choose|j: int|
                    0 <= j < self.entries@.len() && self.entries@[j].path@ == p;
                assert(r.deep_view().contains(self.entries@[j].path@));
            }
        }
        r
    }
}

} // verus!
