//! The artifact lifecycle: promotion of build outputs and garbage collection
//! of what an earlier build produced, both driven by marker files.
use vstd::prelude::*;
use vstd::pervasive::unreached;
use crate::BuildType;

use crate::fsmodel::EntryKind;
use crate::fsmodel::FileFilter;
use crate::fsmodel::FsModel;
use crate::fsmodel::is_artifact_entry;
use crate::fsmodel::is_marker_entry;
use crate::fsmodel::map_wf;
use crate::paths::SLASH;
use crate::paths::append_marker_suffix;
use crate::paths::has_marker_suffix;
use crate::paths::in_chain;
use crate::paths::is_segment;
use crate::paths::is_valid_path;
use crate::paths::is_valid_segment;
use crate::paths::bytes_eq;
use crate::paths::is_strictly_under;
use crate::paths::join_path;
use crate::paths::lemma_join_facts;
use crate::paths::lemma_chain_valid;
use crate::paths::lex_less;
use crate::paths::lex_lt;
use crate::paths::lemma_lex_asym;
use crate::paths::lemma_lex_total;
use crate::paths::lemma_lex_trans;
use crate::paths::lemma_under_lex_lt;
use crate::paths::lemma_disjoint_dirs;
use crate::paths::lemma_marker_path_facts;
use crate::paths::lemma_marker_under;
use crate::paths::lemma_rebase_roundtrip;
use crate::paths::lemma_rebase_under;
use crate::paths::lemma_rebase_valid;
use crate::paths::lemma_strip_append;
use crate::paths::lemma_suffix_facts;
use crate::paths::lemma_two_prefixes;
use crate::paths::lemma_under_trans;
use crate::paths::marker_path;
use crate::paths::push_range;
use crate::paths::rebase;
use crate::paths::rebase_exec;
use crate::paths::strictly_under;
use crate::paths::strip_marker_suffix;
use crate::paths::valid_path;
use crate::fsmodel::clone_bytes;

verus! {

/// One step a caller replays against the real directory tree, in order.
pub enum FsAction {
    /// Create an empty file, truncating a prior file there.
    CreateEmptyFile(Vec<u8>),
    /// Create the path's parent directories, as many as are missing.
    MakeParentDirs(Vec<u8>),
    /// Move the first path to the second, replacing a prior file there.
    Rename(Vec<u8>, Vec<u8>),
    /// Remove one file or symlink.
    RemoveFile(Vec<u8>),
    /// Remove one empty directory.
    RemoveDir(Vec<u8>),
}

/// What one recorded step does to the tree: the model meaning of the step a
/// caller replays against the real directory tree.
pub open spec fn apply_action(m: Map<Seq<u8>, EntryKind>, a: FsAction) -> Map<Seq<u8>, EntryKind> {
    match a {
        FsAction::CreateEmptyFile(p) => m.insert(p@, EntryKind::File),
        FsAction::MakeParentDirs(p) => Map::new(
            |q: Seq<u8>| m.contains_key(q) || strictly_under(p@, q),
            |q: Seq<u8>|
                if m.contains_key(q) {
                    m[q]
                } else {
                    EntryKind::Dir
                },
        ),
        FsAction::Rename(fr, to) => m.remove(fr@).insert(
            to@,
            if m.contains_key(fr@) {
                m[fr@]
            } else {
                EntryKind::File
            },
        ),
        FsAction::RemoveFile(p) => m.remove(p@),
        FsAction::RemoveDir(p) => m.remove(p@),
    }
}

/// The tree after replaying the recorded steps in order.
pub open spec fn replay(m: Map<Seq<u8>, EntryKind>, acts: Seq<FsAction>) -> Map<Seq<u8>, EntryKind>
    decreases acts.len(),
{
    if acts.len() == 0 {
        m
    } else {
        apply_action(replay(m, acts.drop_last()), acts.last())
    }
}

/// Every move is preceded by the creation of its marker, so an interrupted
/// replay leaves a marker on disk for every file already moved out, and a
/// later cleanup pass converges.
pub open spec fn markers_before_renames(acts: Seq<FsAction>) -> bool {
    forall|i: int|
        0 <= i < acts.len() ==> (match #[trigger] acts[i] {
            FsAction::Rename(fr, to) => exists|j: int|
                0 <= j < i && (((#[trigger] acts[j]) matches FsAction::CreateEmptyFile(mk)
                    && mk@ == marker_path(fr@))),
            _ => true,
        })
}

/// The two directory trees promotion touches do not overlap.
pub open spec fn separate_dirs(d1: Seq<u8>, d2: Seq<u8>) -> bool {
    !strictly_under(d1, d2) && !strictly_under(d2, d1) && d1 != d2
}

/// Per-artifact precondition of promotion: its marker slot holds nothing but
/// a regular file, its destination holds no directory, and the directories on
/// the way to the destination hold nothing but directories.
pub open spec fn promote_ok_at(
    m: Map<Seq<u8>, EntryKind>,
    bd: Seq<u8>,
    out: Seq<u8>,
    a: Seq<u8>,
) -> bool {
    &&& !m.contains_key(marker_path(a)) || m[marker_path(a)] == EntryKind::File
    &&& !m.contains_key(rebase(a, bd, out)) || m[rebase(a, bd, out)] != EntryKind::Dir
    &&& forall|q: Seq<u8>| #[trigger]
        in_chain(q, out, rebase(a, bd, out)) ==> !m.contains_key(q) || m[q] == EntryKind::Dir
}

/// Precondition of promotion from build directory `bd` into `out`.
pub open spec fn promote_pre(m: Map<Seq<u8>, EntryKind>, bd: Seq<u8>, out: Seq<u8>) -> bool {
    &&& valid_path(bd) && valid_path(out)
    &&& m.contains_key(bd) && m[bd] == EntryKind::Dir
    &&& m.contains_key(out) && m[out] == EntryKind::Dir
    &&& separate_dirs(bd, out)
    &&& forall|a: Seq<u8>| #[trigger] is_artifact_entry(m, bd, a) ==> promote_ok_at(m, bd, out, a)
}

/// Which paths the tree holds after the artifacts in `done` were promoted.
pub open spec fn part_contains(
    m: Map<Seq<u8>, EntryKind>,
    bd: Seq<u8>,
    out: Seq<u8>,
    done: Seq<Seq<u8>>,
    q: Seq<u8>,
) -> bool {
    ||| (m.contains_key(q) && !done.contains(q))
    ||| (has_marker_suffix(q) && done.contains(strip_marker_suffix(q)))
    ||| (strictly_under(q, out) && done.contains(rebase(q, out, bd)))
    ||| (strictly_under(q, out) && exists|b: Seq<u8>| #[trigger]
        done.contains(b) && strictly_under(rebase(b, bd, out), q))
}

/// What sits at a held path after the artifacts in `done` were promoted.
pub open spec fn part_kind(
    m: Map<Seq<u8>, EntryKind>,
    bd: Seq<u8>,
    out: Seq<u8>,
    done: Seq<Seq<u8>>,
    q: Seq<u8>,
) -> EntryKind {
    if has_marker_suffix(q) && done.contains(strip_marker_suffix(q)) {
        EntryKind::File
    } else if strictly_under(q, out) && done.contains(rebase(q, out, bd)) {
        m[rebase(q, out, bd)]
    } else if strictly_under(q, out) && exists|b: Seq<u8>| #[trigger]
        done.contains(b) && strictly_under(rebase(b, bd, out), q) {
        EntryKind::Dir
    } else {
        m[q]
    }
}

/// Which paths the tree holds after full promotion: everything but the
/// artifacts themselves, plus one marker per artifact, the artifact moved
/// under `out`, and the directories created on the way.
pub open spec fn promoted_contains(
    m: Map<Seq<u8>, EntryKind>,
    bd: Seq<u8>,
    out: Seq<u8>,
    q: Seq<u8>,
) -> bool {
    ||| (m.contains_key(q) && !is_artifact_entry(m, bd, q))
    ||| (has_marker_suffix(q) && is_artifact_entry(m, bd, strip_marker_suffix(q)))
    ||| (strictly_under(q, out) && is_artifact_entry(m, bd, rebase(q, out, bd)))
    ||| (strictly_under(q, out) && exists|b: Seq<u8>| #[trigger]
        is_artifact_entry(m, bd, b) && strictly_under(rebase(b, bd, out), q))
}

/// What sits at a held path after full promotion.
pub open spec fn promoted_kind(
    m: Map<Seq<u8>, EntryKind>,
    bd: Seq<u8>,
    out: Seq<u8>,
    q: Seq<u8>,
) -> EntryKind {
    if has_marker_suffix(q) && is_artifact_entry(m, bd, strip_marker_suffix(q)) {
        EntryKind::File
    } else if strictly_under(q, out) && is_artifact_entry(m, bd, rebase(q, out, bd)) {
        m[rebase(q, out, bd)]
    } else if strictly_under(q, out) && exists|b: Seq<u8>| #[trigger]
        is_artifact_entry(m, bd, b) && strictly_under(rebase(b, bd, out), q) {
        EntryKind::Dir
    } else {
        m[q]
    }
}

/// The tree with the directories between `top` and `dest` added.
pub open spec fn chain_ext(m: Map<Seq<u8>, EntryKind>, top: Seq<u8>, dest: Seq<u8>) -> Map<
    Seq<u8>,
    EntryKind,
> {
    Map::new(
        |q: Seq<u8>| m.contains_key(q) || in_chain(q, top, dest),
        |q: Seq<u8>|
            if m.contains_key(q) {
                m[q]
            } else {
                EntryKind::Dir
            },
    )
}

/// Create the directories between `top` and `dest`, leaving everything else
/// in place.
fn ensure_dirs(fs: &mut FsModel, top: &Vec<u8>, dest: &Vec<u8>)
    requires
        old(fs).wf(),
        valid_path(dest@),
        strictly_under(dest@, top@),
        old(fs)@.contains_key(top@) && old(fs)@[top@] == EntryKind::Dir,
        forall|q: Seq<u8>| #[trigger]
            in_chain(q, top@, dest@) ==> !old(fs)@.contains_key(q) || old(fs)@[q]
                == EntryKind::Dir,
    ensures
        final(fs).wf(),
        forall|q: Seq<u8>| #[trigger]
            final(fs)@.contains_key(q) <==> (old(fs)@.contains_key(q) || in_chain(q, top@, dest@)),
        forall|q: Seq<u8>| #[trigger]
            final(fs)@.contains_key(q) ==> final(fs)@[q] == (if old(fs)@.contains_key(q) {
                old(fs)@[q]
            } else {
                EntryKind::Dir
            }),
        final(fs)@ == chain_ext(old(fs)@, top@, dest@),
{
    let dlen = dest.len();
    proof {
        assert(top@.len() + 1 < dest@.len());
    }
    let mut pos: usize = top.len() + 1;
    while pos < dlen
        invariant
            fs.wf(),
            old(fs).wf(),
            valid_path(dest@),
            strictly_under(dest@, top@),
            old(fs)@.contains_key(top@) && old(fs)@[top@] == EntryKind::Dir,
            forall|q: Seq<u8>| #[trigger]
                in_chain(q, top@, dest@) ==> !old(fs)@.contains_key(q) || old(fs)@[q]
                    == EntryKind::Dir,
            dlen == dest@.len(),
            top@.len() + 1 <= pos <= dest@.len(),
            forall|q: Seq<u8>| #[trigger]
                fs@.contains_key(q) <==> (old(fs)@.contains_key(q) || (in_chain(q, top@, dest@)
                    && q.len() < pos)),
            forall|q: Seq<u8>| #[trigger]
                fs@.contains_key(q) ==> fs@[q] == (if old(fs)@.contains_key(q) {
                    old(fs)@[q]
                } else {
                    EntryKind::Dir
                }),
        decreases dest@.len() - pos,
    {
        if dest[pos] == SLASH {
            let mut qv: Vec<u8> = Vec::new();
            push_range(&mut qv, dest, 0, pos);
            proof {
                assert(qv@ =~= dest@.subrange(0, pos as int));
                // `qv` is a chain directory: `dest` is well formed, so the
                // separator at `pos` is neither right after `top` nor last.
                assert(dest@[top@.len() as int] == SLASH);
                if pos == top@.len() + 1 {
                    assert(false);
                }
                if pos + 1 == dest@.len() {
                    assert(dest@[dest@.len() - 1] == SLASH);
                    assert(false);
                }
                assert(qv@.subrange(0, top@.len() as int) =~= dest@.subrange(0, top@.len() as int));
                assert(strictly_under(qv@, top@));
                assert(dest@.subrange(0, qv@.len() as int) =~= qv@);
                assert(strictly_under(dest@, qv@));
                assert(in_chain(qv@, top@, dest@));
                lemma_chain_valid(dest@, qv@);
            }
            if !fs.contains(&qv) {
                proof {
                    assert(fs@.contains_key(top@));
                    assert(fs@[top@] == EntryKind::Dir);
                    assert(valid_path(top@));
                    // Inserting the directory keeps the map well formed: all
                    // its enclosing directories are already present.
                    assert forall|p: Seq<u8>, r: Seq<u8>| #[trigger]
                        fs@.insert(qv@, EntryKind::Dir).contains_key(p) && #[trigger]
                        strictly_under(p, r) implies fs@.insert(qv@, EntryKind::Dir).contains_key(r)
                        && fs@.insert(qv@, EntryKind::Dir)[r] == EntryKind::Dir by {
                        if p == qv@ {
                            assert(r =~= dest@.subrange(0, r.len() as int));
                            assert(dest@[r.len() as int] == SLASH);
                            assert(strictly_under(dest@, r)) by {
                                lemma_under_trans(dest@, qv@, r);
                            }
                            if r.len() < top@.len() {
                                lemma_two_prefixes(qv@, r, top@);
                                assert(fs@.contains_key(r) && fs@[r] == EntryKind::Dir);
                            } else if r.len() == top@.len() {
                                assert(r =~= top@);
                                assert(fs@.contains_key(r) && fs@[r] == EntryKind::Dir);
                            } else {
                                lemma_chain_valid(dest@, r);
                                lemma_two_prefixes(qv@, top@, r);
                                assert(in_chain(r, top@, dest@));
                                assert(r.len() + 1 < qv@.len() && qv@.len() == pos);
                                assert(fs@.contains_key(r));
                                assert(fs@[r] == EntryKind::Dir);
                            }
                            assert(r != qv@);
                        } else {
                            assert(fs@.contains_key(p));
                            assert(fs@.contains_key(r) && fs@[r] == EntryKind::Dir);
                            assert(r != qv@);
                        }
                    }
                    assert(map_wf(fs@.insert(qv@, EntryKind::Dir)));
                }
                let ghost before = fs@;
                fs.set_entry(qv, EntryKind::Dir);
                proof {
                    assert forall|q: Seq<u8>| #[trigger]
                        fs@.contains_key(q) <==> (old(fs)@.contains_key(q) || (in_chain(
                        q,
                        top@,
                        dest@,
                    ) && q.len() < pos + 1)) by {
                        if q == dest@.subrange(0, pos as int) {
                        } else {
                            assert(fs@.contains_key(q) == before.contains_key(q));
                            if in_chain(q, top@, dest@) && q.len() == pos {
                                assert(q =~= dest@.subrange(0, pos as int));
                            }
                        }
                    }
                }
            } else {
                proof {
                    assert forall|q: Seq<u8>| #[trigger]
                        fs@.contains_key(q) <==> (old(fs)@.contains_key(q) || (in_chain(
                        q,
                        top@,
                        dest@,
                    ) && q.len() < pos + 1)) by {
                        if in_chain(q, top@, dest@) && q.len() == pos {
                            assert(q =~= dest@.subrange(0, pos as int));
                        }
                    }
                }
            }
        } else {
            proof {
                assert forall|q: Seq<u8>| #[trigger]
                    fs@.contains_key(q) <==> (old(fs)@.contains_key(q) || (in_chain(q, top@, dest@)
                        && q.len() < pos + 1)) by {
                    if in_chain(q, top@, dest@) && q.len() == pos {
                        assert(dest@[q.len() as int] == SLASH);
                    }
                }
            }
        }
        pos += 1;
    }
    proof {
        assert forall|q: Seq<u8>| #[trigger]
            fs@.contains_key(q) <==> (old(fs)@.contains_key(q) || in_chain(q, top@, dest@)) by {
            if in_chain(q, top@, dest@) {
                assert(q.len() + 1 < dest@.len());
            }
        }
        assert(fs@ =~= chain_ext(old(fs)@, top@, dest@));
    }
}

/// Pushing onto a sequence extends what it contains by the pushed value.
pub proof fn lemma_push_contains<T>(s: Seq<T>, a: T, x: T)
    ensures
        s.push(a).contains(x) <==> (s.contains(x) || x == a),
{
    if s.push(a).contains(x) {
        let i = choose|i: int| 0 <= i < s.push(a).len() && s.push(a)[i] == x;
        if i < s.len() {
            assert(s[i] == x);
        }
    }
    if s.contains(x) {
        let i = choose|i: int| 0 <= i < s.len() && s[i] == x;
        assert(s.push(a)[i] == x);
    }
    if x == a {
        assert(s.push(a)[s.len() as int] == x);
    }
}


/// One promotion step: starting from a tree that reflects the artifacts in
/// `done`, writing the marker of `a`, creating the destination directories,
/// and moving `a` is legal, and leaves the tree reflecting `done` plus `a`.
#[verifier::rlimit(100)]
#[verifier::spinoff_prover]
proof fn lemma_promote_step(
    m: Map<Seq<u8>, EntryKind>,
    bd: Seq<u8>,
    out: Seq<u8>,
    done: Seq<Seq<u8>>,
    a: Seq<u8>,
    cur: Map<Seq<u8>, EntryKind>,
)
    requires
        map_wf(m),
        promote_pre(m, bd, out),
        forall|p: Seq<u8>| #[trigger] done.contains(p) ==> is_artifact_entry(m, bd, p),
        is_artifact_entry(m, bd, a),
        !done.contains(a),
        map_wf(cur),
        forall|q: Seq<u8>| #[trigger] cur.contains_key(q) <==> part_contains(m, bd, out, done, q),
        forall|q: Seq<u8>| #[trigger]
            cur.contains_key(q) ==> cur[q] == part_kind(m, bd, out, done, q),
    ensures
        valid_path(a),
        valid_path(marker_path(a)),
        valid_path(rebase(a, bd, out)),
        strictly_under(a, bd),
        strictly_under(rebase(a, bd, out), out),
        m[a] != EntryKind::Dir,
        map_wf(cur.insert(marker_path(a), EntryKind::File)),
        cur.insert(marker_path(a), EntryKind::File).contains_key(out),
        cur.insert(marker_path(a), EntryKind::File)[out] == EntryKind::Dir,
        forall|q: Seq<u8>| #[trigger]
            in_chain(q, out, rebase(a, bd, out)) ==> !cur.insert(
                marker_path(a),
                EntryKind::File,
            ).contains_key(q) || cur.insert(marker_path(a), EntryKind::File)[q] == EntryKind::Dir,
        chain_ext(cur.insert(marker_path(a), EntryKind::File), out, rebase(a, bd, out)).contains_key(
            a,
        ),
        chain_ext(cur.insert(marker_path(a), EntryKind::File), out, rebase(a, bd, out))[a] == m[a],
        map_wf(
            chain_ext(cur.insert(marker_path(a), EntryKind::File), out, rebase(a, bd, out)).remove(
                a,
            ),
        ),
        map_wf(
            chain_ext(cur.insert(marker_path(a), EntryKind::File), out, rebase(a, bd, out)).remove(
                a,
            ).insert(rebase(a, bd, out), m[a]),
        ),
        forall|q: Seq<u8>| #[trigger]
            chain_ext(cur.insert(marker_path(a), EntryKind::File), out, rebase(a, bd, out)).remove(
                a,
            ).insert(rebase(a, bd, out), m[a]).contains_key(q) <==> part_contains(
                m,
                bd,
                out,
                done.push(a),
                q,
            ),
        forall|q: Seq<u8>| #[trigger]
            chain_ext(cur.insert(marker_path(a), EntryKind::File), out, rebase(a, bd, out)).remove(
                a,
            ).insert(rebase(a, bd, out), m[a]).contains_key(q) ==> chain_ext(
                cur.insert(marker_path(a), EntryKind::File),
                out,
                rebase(a, bd, out),
            ).remove(a).insert(rebase(a, bd, out), m[a])[q] == part_kind(
                m,
                bd,
                out,
                done.push(a),
                q,
            ),
{
    lemma_suffix_facts();
    let mk = marker_path(a);
    let dst = rebase(a, bd, out);
    let cur1 = cur.insert(mk, EntryKind::File);
    let cur2 = chain_ext(cur1, out, dst);
    let cur3 = cur2.remove(a);
    let cur4 = cur3.insert(dst, m[a]);
    let done1 = done.push(a);

    assert(valid_path(a) && valid_path(bd) && valid_path(out));
    lemma_marker_path_facts(a);
    lemma_rebase_valid(a, bd, out);
    lemma_marker_under(a, bd);
    assert(strictly_under(mk, bd));
    assert(mk != a && mk != dst && dst != a) by {
        if mk == dst || dst == a {
            lemma_disjoint_dirs(dst, bd, out);
        }
    }
    assert(m[a] != EntryKind::Dir);

    // Facts about artifacts already promoted.
    assert forall|b: Seq<u8>| #[trigger] done.contains(b) implies valid_path(b) && strictly_under(
        b,
        bd,
    ) && m[b] != EntryKind::Dir by {
        assert(is_artifact_entry(m, bd, b));
    }

    // A suffix-bearing path whose stem is a promoted artifact is that stem's
    // marker and lies inside the build tree.
    assert forall|q: Seq<u8>|
        has_marker_suffix(q) && (done.contains(strip_marker_suffix(q)) || strip_marker_suffix(q)
            == a) implies q == marker_path(strip_marker_suffix(q)) && strictly_under(q, bd) by {
        lemma_strip_append(q);
        lemma_marker_under(strip_marker_suffix(q), bd);
    }

    // Where `a` itself sits in `cur`.
    assert(cur.contains_key(a) && cur[a] == m[a]) by {
        assert(part_contains(m, bd, out, done, a));
        if strictly_under(a, out) {
            lemma_disjoint_dirs(a, bd, out);
        }
        if has_marker_suffix(a) && done.contains(strip_marker_suffix(a)) {
            // Then `a` is a marker of a promoted artifact, yet holds a symlink.
            assert(is_artifact_entry(m, bd, strip_marker_suffix(a)));
            assert(promote_ok_at(m, bd, out, strip_marker_suffix(a)));
            assert(m[marker_path(strip_marker_suffix(a))] == EntryKind::File);
            assert(m[a] == EntryKind::Symlink);
            assert(false);
        }
        assert(cur.contains_key(a));
        assert(cur[a] == part_kind(m, bd, out, done, a));
    }

    // Where the marker slot sits in `cur`: absent, or a regular file.
    assert(promote_ok_at(m, bd, out, a));
    assert(!cur.contains_key(mk) || cur[mk] == EntryKind::File) by {
        if cur.contains_key(mk) {
            if strictly_under(mk, out) {
                lemma_disjoint_dirs(mk, bd, out);
            }
            if has_marker_suffix(mk) && done.contains(strip_marker_suffix(mk)) {
                lemma_strip_append(mk);
                assert(strip_marker_suffix(mk) == a);
                assert(false);
            }
            assert(cur[mk] == m[mk]);
            assert(part_contains(m, bd, out, done, mk));
            assert(m.contains_key(mk));
        }
    }

    // The target tree root and everything above it is held as a directory.
    assert forall|r: Seq<u8>| r == out || strictly_under(out, r) implies cur.contains_key(r)
        && cur[r] == EntryKind::Dir && r != mk && r != a && r != dst by {
        if strictly_under(out, r) {
            assert(m.contains_key(r) && m[r] == EntryKind::Dir);
        }
        assert(m.contains_key(r) && m[r] == EntryKind::Dir);
        if done.contains(r) {
            assert(m[r] != EntryKind::Dir);
        }
        assert(part_contains(m, bd, out, done, r));
        if has_marker_suffix(r) && done.contains(strip_marker_suffix(r)) {
            assert(strictly_under(r, bd));
            if r == out {
                assert(false);
            } else {
                lemma_under_trans(out, r, bd);
                assert(false);
            }
        }
        if strictly_under(r, out) {
            if r == out {
                assert(false);
            } else {
                lemma_under_trans(out, r, out);
                assert(strictly_under(out, out));
                assert(false);
            }
        }
        assert(cur.contains_key(r));
        assert(cur[r] == part_kind(m, bd, out, done, r));
        if r == mk || r == a {
            lemma_disjoint_dirs(r, bd, out) ;
        }
        if r == dst {
            assert(strictly_under(dst, out));
            if r == out {
                assert(false);
            } else {
                lemma_under_trans(out, dst, out);
                assert(false);
            }
        }
    }

    // Directories on the way to the destination are absent or directories.
    assert forall|q: Seq<u8>| #[trigger]
        in_chain(q, out, dst) && cur.contains_key(q) implies cur[q] == EntryKind::Dir by {
        lemma_chain_valid(dst, q);
        if has_marker_suffix(q) && done.contains(strip_marker_suffix(q)) {
            lemma_disjoint_dirs(q, bd, out);
        }
        if done.contains(rebase(q, out, bd)) {
            let b = rebase(q, out, bd);
            lemma_rebase_roundtrip(q, out, bd);
            assert(rebase(b, bd, out) == q);
            lemma_rebase_under(a, b, bd, out);
            assert(strictly_under(a, b));
            assert(m.contains_key(a) && strictly_under(a, b));
            assert(m[b] == EntryKind::Dir);
            assert(false);
        }
        assert(cur[q] == part_kind(m, bd, out, done, q));
        if !(exists|b: Seq<u8>| #[trigger] done.contains(b) && strictly_under(rebase(b, bd, out), q)) {
            assert(m.contains_key(q));
            assert(cur[q] == m[q]);
            assert(!m.contains_key(q) || m[q] == EntryKind::Dir);
        }
    }

    // The marker insert keeps the map well formed.
    assert forall|p: Seq<u8>, r: Seq<u8>| #[trigger] cur1.contains_key(p) && #[trigger]
        strictly_under(p, r) implies cur1.contains_key(r) && cur1[r] == EntryKind::Dir by {
        if p == mk {
            lemma_marker_under(a, r);
            assert(strictly_under(a, r));
            assert(cur.contains_key(a));
            assert(cur.contains_key(r) && cur[r] == EntryKind::Dir);
            assert(r != mk);
        } else {
            assert(cur.contains_key(p));
            assert(cur.contains_key(r) && cur[r] == EntryKind::Dir);
            assert(r != mk);
        }
    }
    assert(map_wf(cur1));
    assert(cur1.contains_key(out) && cur1[out] == EntryKind::Dir);
    assert forall|q: Seq<u8>| #[trigger]
        in_chain(q, out, dst) implies !cur1.contains_key(q) || cur1[q] == EntryKind::Dir by {
        if q == mk {
            lemma_disjoint_dirs(q, bd, out);
        }
    }

    // The extended tree is well formed.
    assert forall|p: Seq<u8>, r: Seq<u8>| #[trigger] cur2.contains_key(p) && #[trigger]
        strictly_under(p, r) implies cur2.contains_key(r) && cur2[r] == EntryKind::Dir by {
        if cur1.contains_key(p) {
            assert(cur1.contains_key(r) && cur1[r] == EntryKind::Dir);
        } else {
            assert(in_chain(p, out, dst));
            lemma_chain_valid(dst, p);
            lemma_under_trans(dst, p, r);
            if r.len() < out.len() {
                lemma_two_prefixes(p, r, out);
                assert(cur1.contains_key(r) && cur1[r] == EntryKind::Dir);
            } else if r.len() == out.len() {
                assert(r =~= out);
                assert(cur1.contains_key(r) && cur1[r] == EntryKind::Dir);
            } else {
                lemma_chain_valid(p, r);
                lemma_two_prefixes(p, out, r);
                assert(in_chain(r, out, dst));
            }
        }
    }
    assert forall|p: Seq<u8>| #[trigger] cur2.contains_key(p) implies valid_path(p) by {
        if !cur1.contains_key(p) {
            lemma_chain_valid(dst, p);
        }
    }
    assert(map_wf(cur2));

    assert(cur2.contains_key(a) && cur2[a] == m[a]);

    // Removing the artifact keeps the map well formed: it is no directory.
    assert forall|p: Seq<u8>, r: Seq<u8>| #[trigger] cur3.contains_key(p) && #[trigger]
        strictly_under(p, r) implies cur3.contains_key(r) && cur3[r] == EntryKind::Dir by {
        assert(cur2.contains_key(r) && cur2[r] == EntryKind::Dir);
        assert(r != a);
    }
    assert(map_wf(cur3));

    // The destination slot of `cur2` holds no directory.
    assert(!cur2.contains_key(dst) || cur2[dst] != EntryKind::Dir) by {
        if cur2.contains_key(dst) {
            assert(dst != mk);
            if in_chain(dst, out, dst) {
                assert(strictly_under(dst, dst));
                assert(false);
            }
            if cur.contains_key(dst) {
                if has_marker_suffix(dst) && done.contains(strip_marker_suffix(dst)) {
                    lemma_disjoint_dirs(dst, bd, out);
                }
                lemma_rebase_roundtrip(a, bd, out);
                if done.contains(rebase(dst, out, bd)) {
                    assert(rebase(dst, out, bd) == a);
                    assert(false);
                }
                assert forall|b: Seq<u8>| #[trigger] done.contains(b) implies !strictly_under(
                    rebase(b, bd, out),
                    dst,
                ) by {
                    if strictly_under(rebase(b, bd, out), dst) {
                        lemma_rebase_under(b, a, bd, out);
                        assert(strictly_under(b, a));
                        assert(m.contains_key(b) && strictly_under(b, a));
                        assert(m[a] == EntryKind::Dir);
                        assert(false);
                    }
                }
                assert(cur[dst] == part_kind(m, bd, out, done, dst));
                assert(cur[dst] == m[dst]);
            }
        }
    }

    // Inserting the moved artifact keeps the map well formed.
    assert forall|p: Seq<u8>, r: Seq<u8>| #[trigger] cur4.contains_key(p) && #[trigger]
        strictly_under(p, r) implies cur4.contains_key(r) && cur4[r] == EntryKind::Dir by {
        if p == dst {
            lemma_chain_valid(dst, r);
            if r.len() < out.len() {
                lemma_two_prefixes(dst, r, out);
                assert(cur.contains_key(r) && cur[r] == EntryKind::Dir);
                assert(cur2.contains_key(r) && cur2[r] == EntryKind::Dir);
            } else if r.len() == out.len() {
                assert(r =~= out);
                assert(cur2.contains_key(r) && cur2[r] == EntryKind::Dir);
            } else {
                lemma_two_prefixes(dst, out, r);
                assert(in_chain(r, out, dst));
                assert(cur2.contains_key(r) && cur2[r] == EntryKind::Dir);
            }
            assert(r != a) by {
                if r == a {
                    lemma_disjoint_dirs(r, bd, out) ;
                }
            }
            assert(r != dst);
        } else {
            assert(cur3.contains_key(p));
            assert(cur3.contains_key(r) && cur3[r] == EntryKind::Dir);
            assert(r != dst);
        }
    }
    assert(map_wf(cur4));

    // The tree now reflects `done` plus `a`.
    assert forall|q: Seq<u8>| #[trigger]
        cur4.contains_key(q) <==> part_contains(m, bd, out, done1, q) by {
        lemma_push_contains(done, a, q);
        lemma_push_contains(done, a, a);
        lemma_push_contains(done, a, strip_marker_suffix(q));
        lemma_push_contains(done, a, rebase(q, out, bd));
        lemma_rebase_roundtrip(a, bd, out);
        if q == mk {
            assert(cur4.contains_key(q));
            assert(has_marker_suffix(mk) && strip_marker_suffix(mk) == a);
            assert(done1.contains(a));
            assert(part_contains(m, bd, out, done1, q));
        } else if q == a {
            assert(!cur4.contains_key(q));
            assert(done1.contains(a));
            if has_marker_suffix(a) && done1.contains(strip_marker_suffix(a)) {
                assert(strip_marker_suffix(a).len() < a.len());
                assert(done.contains(strip_marker_suffix(a)));
                assert(is_artifact_entry(m, bd, strip_marker_suffix(a)));
                assert(promote_ok_at(m, bd, out, strip_marker_suffix(a)));
                assert(m[a] == EntryKind::Symlink);
                assert(false);
            }
            if strictly_under(a, out) {
                lemma_disjoint_dirs(a, bd, out);
            }
            assert(!part_contains(m, bd, out, done1, q));
        } else if q == dst {
            assert(cur4.contains_key(q));
            assert(rebase(dst, out, bd) == a && done1.contains(a));
            assert(part_contains(m, bd, out, done1, q));
        } else if in_chain(q, out, dst) {
            assert(cur2.contains_key(q) && cur4.contains_key(q));
            assert(done1.contains(a) && strictly_under(rebase(a, bd, out), q));
            assert(part_contains(m, bd, out, done1, q));
        } else {
            assert(cur4.contains_key(q) == cur.contains_key(q));
            if has_marker_suffix(q) && strip_marker_suffix(q) == a {
                lemma_strip_append(q);
                assert(q == mk);
                assert(false);
            }
            if strictly_under(q, out) && rebase(q, out, bd) == a {
                lemma_rebase_roundtrip(q, out, bd);
                assert(q == dst);
                assert(false);
            }
            assert forall|b: Seq<u8>| #[trigger] done1.contains(b) && strictly_under(
                rebase(b, bd, out),
                q,
            ) && strictly_under(q, out) implies done.contains(b) by {
                lemma_push_contains(done, a, b);
                if b == a {
                    assert(in_chain(q, out, dst));
                    assert(false);
                }
            }
            assert(part_contains(m, bd, out, done1, q) == part_contains(m, bd, out, done, q)) by {
                if part_contains(m, bd, out, done, q) {
                    if m.contains_key(q) && !done.contains(q) {
                        assert(q != a || !m.contains_key(q));
                        assert(m.contains_key(q) && !done1.contains(q));
                    }
                    if strictly_under(q, out) && exists|b: Seq<u8>| #[trigger]
                        done.contains(b) && strictly_under(rebase(b, bd, out), q) {
                        let b = choose|b: Seq<u8>| #[trigger]
                            done.contains(b) && strictly_under(rebase(b, bd, out), q);
                        lemma_push_contains(done, a, b);
                        assert(done1.contains(b));
                    }
                }
            }
        }
    }

    // And the kinds match.
    assert forall|q: Seq<u8>| #[trigger]
        cur4.contains_key(q) implies cur4[q] == part_kind(m, bd, out, done1, q) by {
        lemma_push_contains(done, a, q);
        lemma_push_contains(done, a, a);
        lemma_push_contains(done, a, strip_marker_suffix(q));
        lemma_push_contains(done, a, rebase(q, out, bd));
        lemma_rebase_roundtrip(a, bd, out);
        if q == mk {
            assert(cur4[q] == EntryKind::File);
            assert(has_marker_suffix(mk) && strip_marker_suffix(mk) == a && done1.contains(a));
            assert(part_kind(m, bd, out, done1, q) == EntryKind::File);
        } else if q == dst {
            assert(cur4[q] == m[a]);
            if has_marker_suffix(dst) && done1.contains(strip_marker_suffix(dst)) {
                if done.contains(strip_marker_suffix(dst)) {
                    lemma_disjoint_dirs(dst, bd, out);
                }
                if strip_marker_suffix(dst) == a {
                    lemma_strip_append(dst);
                    assert(dst == mk);
                    assert(false);
                }
                assert(false);
            }
            assert(rebase(dst, out, bd) == a && done1.contains(a));
            assert(part_kind(m, bd, out, done1, q) == m[a]);
        } else if q != a && in_chain(q, out, dst) {
            assert(cur4[q] == cur2[q]);
            assert(!cur1.contains_key(q) || cur1[q] == EntryKind::Dir);
            assert(cur2[q] == EntryKind::Dir);
            if has_marker_suffix(q) && done1.contains(strip_marker_suffix(q)) {
                lemma_disjoint_dirs(q, bd, out);
            }
            if done1.contains(rebase(q, out, bd)) {
                let b = rebase(q, out, bd);
                lemma_rebase_roundtrip(q, out, bd);
                if b == a {
                    assert(q == dst);
                    assert(false);
                }
                lemma_rebase_under(a, b, bd, out);
                assert(m[b] == EntryKind::Dir);
                assert(false);
            }
            assert(done1.contains(a) && strictly_under(rebase(a, bd, out), q));
            assert(part_kind(m, bd, out, done1, q) == EntryKind::Dir);
        } else {
            assert(q != mk && q != dst && q != a && !in_chain(q, out, dst));
            assert(cur4[q] == cur[q]);
            if has_marker_suffix(q) && strip_marker_suffix(q) == a {
                lemma_strip_append(q);
                assert(false);
            }
            if strictly_under(q, out) && rebase(q, out, bd) == a {
                lemma_rebase_roundtrip(q, out, bd);
                assert(false);
            }
            assert forall|b: Seq<u8>| #[trigger] done1.contains(b) && strictly_under(
                rebase(b, bd, out),
                q,
            ) && strictly_under(q, out) implies done.contains(b) by {
                lemma_push_contains(done, a, b);
                if b == a {
                    assert(in_chain(q, out, dst));
                    assert(false);
                }
            }
            if strictly_under(q, out) && exists|b: Seq<u8>| #[trigger]
                done.contains(b) && strictly_under(rebase(b, bd, out), q) {
                let b = choose|b: Seq<u8>| #[trigger]
                    done.contains(b) && strictly_under(rebase(b, bd, out), q);
                lemma_push_contains(done, a, b);
                assert(done1.contains(b));
            }
            assert(part_kind(m, bd, out, done1, q) == part_kind(m, bd, out, done, q));
            assert(cur[q] == part_kind(m, bd, out, done, q));
        }
    }
}


/// Pushing a step that is no move preserves the marker-before-move order.
proof fn lemma_push_keeps_order(acts: Seq<FsAction>, x: FsAction)
    requires
        markers_before_renames(acts),
        !(x matches FsAction::Rename(fr, to)),
    ensures
        markers_before_renames(acts.push(x)),
{
    assert forall|i: int|
        0 <= i < acts.push(x).len() implies match #[trigger] acts.push(x)[i] {
        FsAction::Rename(fr, to) => exists|j: int|
            0 <= j < i && (((#[trigger] acts.push(x)[j]) matches FsAction::CreateEmptyFile(mk)
                && mk@ == marker_path(fr@))),
        _ => true,
    } by {
        if i < acts.len() {
            assert(acts.push(x)[i] == acts[i]);
            match acts[i] {
                FsAction::Rename(fr, to) => {
                    let j = choose|j: int|
                        0 <= j < i && (((#[trigger] acts[j]) matches FsAction::CreateEmptyFile(mk)
                            && mk@ == marker_path(fr@)));
                    assert(acts.push(x)[j] == acts[j]);
                },
                _ => {},
            }
        }
    }
}

/// Pushing a move whose marker was recorded earlier preserves the order.
proof fn lemma_push_rename_order(acts: Seq<FsAction>, x: FsAction, j: int)
    requires
        markers_before_renames(acts),
        0 <= j < acts.len(),
        (match x {
            FsAction::Rename(fr, to) => ((acts[j] matches FsAction::CreateEmptyFile(mk) && mk@
                == marker_path(fr@))),
            _ => false,
        }),
    ensures
        markers_before_renames(acts.push(x)),
{
    let t = acts.push(x);
    assert forall|i: int|
        0 <= i < t.len() implies match #[trigger] t[i] {
        FsAction::Rename(fr2, to2) => exists|j2: int|
            0 <= j2 < i && (((#[trigger] t[j2]) matches FsAction::CreateEmptyFile(mk)
                && mk@ == marker_path(fr2@))),
        _ => true,
    } by {
        if i < acts.len() {
            assert(t[i] == acts[i]);
            match acts[i] {
                FsAction::Rename(fr2, to2) => {
                    let j2 = choose|j2: int|
                        0 <= j2 < i && (((#[trigger] acts[j2]) matches FsAction::CreateEmptyFile(mk)
                            && mk@ == marker_path(fr2@)));
                    assert(t[j2] == acts[j2]);
                },
                _ => {},
            }
        } else {
            assert(t[i] == x);
            assert(t[j] == acts[j]);
        }
    }
}

/// The directories created on the way from `top` to `dest` are exactly the
/// missing ancestors of `dest`: everything above `top` is already held.
proof fn lemma_chain_ext_is_parent_closure(cur1: Map<Seq<u8>, EntryKind>, top: Seq<u8>, dest: Seq<u8>)
    requires
        map_wf(cur1),
        valid_path(top),
        valid_path(dest),
        strictly_under(dest, top),
        cur1.contains_key(top),
        cur1[top] == EntryKind::Dir,
    ensures
        chain_ext(cur1, top, dest) == Map::new(
            |q: Seq<u8>| cur1.contains_key(q) || strictly_under(dest, q),
            |q: Seq<u8>|
                if cur1.contains_key(q) {
                    cur1[q]
                } else {
                    EntryKind::Dir
                },
        ),
{
    assert forall|q: Seq<u8>|
        strictly_under(dest, q) && !cur1.contains_key(q) implies in_chain(q, top, dest) by {
        if q.len() < top.len() {
            lemma_chain_valid(dest, top);
            lemma_two_prefixes(dest, q, top);
            assert(cur1.contains_key(q));
        } else if q.len() == top.len() {
            assert(q =~= top);
        } else {
            lemma_chain_valid(dest, q);
            lemma_two_prefixes(dest, top, q);
        }
    }
    assert(chain_ext(cur1, top, dest) =~= Map::new(
        |q: Seq<u8>| cur1.contains_key(q) || strictly_under(dest, q),
        |q: Seq<u8>|
            if cur1.contains_key(q) {
                cur1[q]
            } else {
                EntryKind::Dir
            },
    ));
}

/// Promote every artifact in `build_dir` into `output_dir`: write a marker
/// beside each artifact first, create the destination directories, then move
/// the artifact into place, replacing whatever file sat there. Returns the
/// steps taken, in order, for replay against the real directory tree.
pub fn copy_build_files(fs: &mut FsModel, build_dir: &Vec<u8>, output_dir: &Vec<u8>) -> (actions:
    Vec<FsAction>)
    requires
        old(fs).wf(),
        promote_pre(old(fs)@, build_dir@, output_dir@),
    ensures
        final(fs).wf(),
        forall|q: Seq<u8>| #[trigger]
            final(fs)@.contains_key(q) <==> promoted_contains(
                old(fs)@,
                build_dir@,
                output_dir@,
                q,
            ),
        forall|q: Seq<u8>| #[trigger]
            final(fs)@.contains_key(q) ==> final(fs)@[q] == promoted_kind(
                old(fs)@,
                build_dir@,
                output_dir@,
                q,
            ),
        final(fs)@ == replay(old(fs)@, actions@),
        markers_before_renames(actions@),
{
    let ghost m = old(fs)@;
    let ghost bd = build_dir@;
    let ghost out = output_dir@;
    let arts = fs.find_files(build_dir, FileFilter::Artifacts);
    let mut actions: Vec<FsAction> = Vec::new();
    let mut k: usize = 0;
    proof {
        assert(arts.deep_view().take(0) =~= Seq::<Seq<u8>>::empty());
        assert(forall|b: Seq<u8>| !arts.deep_view().take(0).contains(b));
        assert(forall|q: Seq<u8>| #[trigger]
            fs@.contains_key(q) <==> part_contains(m, bd, out, arts.deep_view().take(0), q));
        assert(forall|q: Seq<u8>| #[trigger]
            fs@.contains_key(q) ==> fs@[q] == part_kind(m, bd, out, arts.deep_view().take(0), q));
    }
    while k < arts.len()
        invariant
            fs.wf(),
            map_wf(m),
            m == old(fs)@ && bd == build_dir@ && out == output_dir@,
            promote_pre(m, bd, out),
            k <= arts@.len(),
            forall|p: Seq<u8>| #[trigger]
                arts.deep_view().contains(p) <==> is_artifact_entry(m, bd, p),
            forall|i: int, j: int|
                0 <= i < j < arts.deep_view().len() ==> arts.deep_view()[i] != arts.deep_view()[j],
            forall|q: Seq<u8>| #[trigger]
                fs@.contains_key(q) <==> part_contains(
                    m,
                    bd,
                    out,
                    arts.deep_view().take(k as int),
                    q,
                ),
            forall|q: Seq<u8>| #[trigger]
                fs@.contains_key(q) ==> fs@[q] == part_kind(
                    m,
                    bd,
                    out,
                    arts.deep_view().take(k as int),
                    q,
                ),
            fs@ == replay(m, actions@),
            markers_before_renames(actions@),
        decreases arts@.len() - k,
    {
        let a = &arts[k];
        let ghost done = arts.deep_view().take(k as int);
        proof {
            assert(arts.deep_view()[k as int] == a@);
            assert(arts.deep_view().contains(a@));
            assert(is_artifact_entry(m, bd, a@));
            if done.contains(a@) {
                let j = choose|j: int| 0 <= j < done.len() && done[j] == a@;
                assert(arts.deep_view()[j] == arts.deep_view()[k as int]);
                assert(false);
            }
            assert forall|p: Seq<u8>| #[trigger]
                done.contains(p) implies is_artifact_entry(m, bd, p) by {
                let i = choose|i: int| 0 <= i < done.len() && done[i] == p;
                assert(arts.deep_view()[i] == p);
                assert(arts.deep_view().contains(p));
            }
            lemma_promote_step(m, bd, out, done, a@, fs@);
        }
        let ghost cur = fs@;
        let marker = append_marker_suffix(a);
        proof {
            assert(marker@ == marker_path(a@));
        }
        let ghost acts0 = actions@;
        actions.push(FsAction::CreateEmptyFile(clone_bytes(&marker)));
        proof {
            assert(actions@.drop_last() =~= acts0);
            assert((actions@.last() matches FsAction::CreateEmptyFile(mk) && mk@ == marker_path(
                a@,
            )));
            lemma_push_keeps_order(acts0, actions@.last());
            assert(actions@ =~= acts0.push(actions@.last()));
        }
        fs.set_entry(marker, EntryKind::File);
        proof {
            assert(replay(m, actions@) == apply_action(replay(m, acts0), actions@.last()));
            assert(fs@ =~= replay(m, actions@));
        }
        let ghost acts1 = actions@;
        let dest = rebase_exec(a, build_dir.len(), output_dir, 0);
        proof {
            assert(dest@ == rebase(a@, bd, out));
        }
        actions.push(FsAction::MakeParentDirs(clone_bytes(&dest)));
        proof {
            assert(actions@.drop_last() =~= acts1);
            assert((actions@.last() matches FsAction::MakeParentDirs(d) && d@ == dest@));
            lemma_push_keeps_order(acts1, actions@.last());
            assert(actions@ =~= acts1.push(actions@.last()));
        }
        ensure_dirs(fs, output_dir, &dest);
        proof {
            assert(fs@ == chain_ext(
                cur.insert(marker_path(a@), EntryKind::File),
                out,
                rebase(a@, bd, out),
            ));
            lemma_chain_ext_is_parent_closure(
                cur.insert(marker_path(a@), EntryKind::File),
                out,
                rebase(a@, bd, out),
            );
            assert(replay(m, actions@) == apply_action(replay(m, acts1), actions@.last()));
            assert(fs@ =~= replay(m, actions@));
        }
        let ghost acts2 = actions@;
        let ka = match fs.lookup(a) {
            Some(kind) => kind,
            None => {
                proof {
                    assert(false);
                }
                unreached()
            },
        };
        proof {
            assert(ka == m[a@]);
        }
        actions.push(FsAction::Rename(clone_bytes(a), clone_bytes(&dest)));
        proof {
            assert(actions@.drop_last() =~= acts2);
            assert((actions@.last() matches FsAction::Rename(fr, to) && fr@ == a@ && to@ == dest@));
            assert(acts2[acts0.len() as int] == acts0.push(acts1.last()).push(
                acts2.last(),
            )[acts0.len() as int]);
            assert((acts2[acts0.len() as int] matches FsAction::CreateEmptyFile(mk) && mk@
                == marker_path(a@)));
            lemma_push_rename_order(acts2, actions@.last(), acts0.len() as int);
            assert(actions@ =~= acts2.push(actions@.last()));
        }
        fs.remove_entry(a);
        fs.set_entry(dest, ka);
        proof {
            assert(fs@ == chain_ext(
                cur.insert(marker_path(a@), EntryKind::File),
                out,
                rebase(a@, bd, out),
            ).remove(a@).insert(rebase(a@, bd, out), m[a@]));
            assert(replay(m, actions@) == apply_action(replay(m, acts2), actions@.last()));
            assert(fs@ =~= replay(m, actions@));
            assert(arts.deep_view().take(k as int + 1) =~= done.push(a@));
        }
        k += 1;
    }
    proof {
        let full = arts.deep_view();
        assert(full.take(k as int) =~= full);
        assert forall|q: Seq<u8>| #[trigger]
            fs@.contains_key(q) <==> promoted_contains(m, bd, out, q) by {
            assert(fs@.contains_key(q) <==> part_contains(m, bd, out, full, q));
            if strictly_under(q, out) {
                if exists|b: Seq<u8>| #[trigger]
                    full.contains(b) && strictly_under(rebase(b, bd, out), q) {
                    let b = choose|b: Seq<u8>| #[trigger]
                        full.contains(b) && strictly_under(rebase(b, bd, out), q);
                    assert(is_artifact_entry(m, bd, b));
                }
                if exists|b: Seq<u8>| #[trigger]
                    is_artifact_entry(m, bd, b) && strictly_under(rebase(b, bd, out), q) {
                    let b = choose|b: Seq<u8>| #[trigger]
                        is_artifact_entry(m, bd, b) && strictly_under(rebase(b, bd, out), q);
                    assert(full.contains(b));
                }
            }
        }
        assert forall|q: Seq<u8>| #[trigger]
            fs@.contains_key(q) implies fs@[q] == promoted_kind(m, bd, out, q) by {
            assert(fs@[q] == part_kind(m, bd, out, full, q));
            assert(full.contains(strip_marker_suffix(q)) == is_artifact_entry(
                m,
                bd,
                strip_marker_suffix(q),
            ));
            assert(full.contains(rebase(q, out, bd)) == is_artifact_entry(
                m,
                bd,
                rebase(q, out, bd),
            ));
            if strictly_under(q, out) {
                if exists|b: Seq<u8>| #[trigger]
                    full.contains(b) && strictly_under(rebase(b, bd, out), q) {
                    let b = choose|b: Seq<u8>| #[trigger]
                        full.contains(b) && strictly_under(rebase(b, bd, out), q);
                    assert(is_artifact_entry(m, bd, b));
                }
                if exists|b: Seq<u8>| #[trigger]
                    is_artifact_entry(m, bd, b) && strictly_under(rebase(b, bd, out), q) {
                    let b = choose|b: Seq<u8>| #[trigger]
                        is_artifact_entry(m, bd, b) && strictly_under(rebase(b, bd, out), q);
                    assert(full.contains(b));
                }
            }
        }
    }
    actions
}


/// The artifact path a marker under `md` names inside the output tree `out`.
pub open spec fn victim_of(md: Seq<u8>, out: Seq<u8>, r: Seq<u8>) -> Seq<u8> {
    rebase(strip_marker_suffix(r), md, out)
}

/// A path some marker names inside some output tree.
pub open spec fn is_victim(
    m: Map<Seq<u8>, EntryKind>,
    md: Seq<u8>,
    outs: Seq<Seq<u8>>,
    p: Seq<u8>,
) -> bool {
    exists|r: Seq<u8>, i: int|
        #![trigger victim_of(md, outs[i], r)]
        is_marker_entry(m, md, r) && 0 <= i < outs.len() && p == victim_of(md, outs[i], r)
}

/// What cleanup removes in its first pass: every marker, and every named
/// artifact the tree holds.
pub open spec fn removed_file(
    m: Map<Seq<u8>, EntryKind>,
    md: Seq<u8>,
    outs: Seq<Seq<u8>>,
    p: Seq<u8>,
) -> bool {
    is_marker_entry(m, md, p) || (m.contains_key(p) && is_victim(m, md, outs, p))
}

/// A directory strictly between a tree root and a removed path: cleanup
/// removes it afterwards if nothing is left inside it.
pub open spec fn is_candidate(
    m: Map<Seq<u8>, EntryKind>,
    md: Seq<u8>,
    outs: Seq<Seq<u8>>,
    q: Seq<u8>,
) -> bool {
    ||| exists|r: Seq<u8>| #[trigger] is_marker_entry(m, md, r) && in_chain(q, md, r)
    ||| exists|r: Seq<u8>, i: int|
        #![trigger in_chain(q, outs[i], victim_of(md, outs[i], r))]
        is_marker_entry(m, md, r) && 0 <= i < outs.len() && m.contains_key(
            victim_of(md, outs[i], r),
        ) && in_chain(q, outs[i], victim_of(md, outs[i], r))
}

/// Nothing in the tree lies strictly inside `q`.
pub open spec fn subtree_empty(f: Map<Seq<u8>, EntryKind>, q: Seq<u8>) -> bool {
    forall|p: Seq<u8>| #[trigger] f.contains_key(p) ==> !strictly_under(p, q)
}

/// Precondition of cleanup: the marker directory and every output directory
/// exist and do not overlap, every marker names a nonempty relative path, and
/// a directory sitting at a named artifact path holds nothing, since it is
/// removed by one removal like a file or symlink.
pub open spec fn clean_pre(m: Map<Seq<u8>, EntryKind>, md: Seq<u8>, outs: Seq<Seq<u8>>) -> bool {
    &&& valid_path(md)
    &&& m.contains_key(md) && m[md] == EntryKind::Dir
    &&& forall|i: int|
        0 <= i < outs.len() ==> valid_path(#[trigger] outs[i]) && m.contains_key(outs[i])
            && m[outs[i]] == EntryKind::Dir && separate_dirs(md, outs[i])
    &&& forall|r: Seq<u8>| #[trigger]
        is_marker_entry(m, md, r) ==> strictly_under(strip_marker_suffix(r), md) && valid_path(
            strip_marker_suffix(r),
        )
    &&& forall|r: Seq<u8>, i: int|
        #![trigger victim_of(md, outs[i], r)]
        is_marker_entry(m, md, r) && 0 <= i < outs.len() && m.contains_key(
            victim_of(md, outs[i], r),
        ) && m[victim_of(md, outs[i], r)] == EntryKind::Dir ==> subtree_empty(
            m,
            victim_of(md, outs[i], r),
        )
}

/// Every cleanup candidate is a directory the tree holds.
proof fn lemma_candidate_dir(
    m: Map<Seq<u8>, EntryKind>,
    md: Seq<u8>,
    outs: Seq<Seq<u8>>,
    q: Seq<u8>,
)
    requires
        map_wf(m),
        is_candidate(m, md, outs, q),
    ensures
        m.contains_key(q),
        m[q] == EntryKind::Dir,
        valid_path(q),
        !subtree_empty(m, q),
{
    if exists|r: Seq<u8>| #[trigger] is_marker_entry(m, md, r) && in_chain(q, md, r) {
        let r = choose|r: Seq<u8>| #[trigger] is_marker_entry(m, md, r) && in_chain(q, md, r);
        assert(m.contains_key(r) && strictly_under(r, q));
    } else {
        let (r, i) = choose|r: Seq<u8>, i: int|
            #![trigger in_chain(q, outs[i], victim_of(md, outs[i], r))]
            is_marker_entry(m, md, r) && 0 <= i < outs.len() && m.contains_key(
                victim_of(md, outs[i], r),
            ) && in_chain(q, outs[i], victim_of(md, outs[i], r));
        assert(m.contains_key(victim_of(md, outs[i], r)) && strictly_under(
            victim_of(md, outs[i], r),
            q,
        ));
    }
}

/// Record every directory strictly between `top` and `p` as a candidate.
fn push_chain(cands: &mut Vec<Vec<u8>>, top: &Vec<u8>, p: &Vec<u8>)
    requires
        valid_path(p@),
        strictly_under(p@, top@),
    ensures
        forall|q: Seq<u8>| #[trigger]
            final(cands).deep_view().contains(q) <==> (old(cands).deep_view().contains(q)
                || in_chain(q, top@, p@)),
{
    let plen = p.len();
    proof {
        assert(top@.len() + 1 < p@.len());
    }
    let mut pos: usize = top.len() + 1;
    while pos < plen
        invariant
            plen == p@.len(),
            valid_path(p@),
            strictly_under(p@, top@),
            top@.len() + 1 <= pos <= p@.len(),
            forall|q: Seq<u8>| #[trigger]
                cands.deep_view().contains(q) <==> (old(cands).deep_view().contains(q) || (in_chain(
                    q,
                    top@,
                    p@,
                ) && q.len() < pos)),
        decreases p@.len() - pos,
    {
        if p[pos] == SLASH {
            let mut qv: Vec<u8> = Vec::new();
            push_range(&mut qv, p, 0, pos);
            let ghost c0 = cands.deep_view();
            proof {
                assert(qv@ =~= p@.subrange(0, pos as int));
                assert(p@[top@.len() as int] == SLASH);
                if pos == top@.len() + 1 {
                    assert(false);
                }
                if pos + 1 == p@.len() {
                    assert(p@[p@.len() - 1] == SLASH);
                    assert(false);
                }
                assert(qv@.subrange(0, top@.len() as int) =~= p@.subrange(0, top@.len() as int));
                assert(strictly_under(qv@, top@));
                assert(p@.subrange(0, qv@.len() as int) =~= qv@);
                assert(strictly_under(p@, qv@));
                assert(in_chain(qv@, top@, p@));
            }
            cands.push(qv);
            proof {
                assert(cands.deep_view() =~~= c0.push(p@.subrange(0, pos as int)));
                assert forall|q: Seq<u8>| #[trigger]
                    cands.deep_view().contains(q) <==> (old(cands).deep_view().contains(q) || (
                    in_chain(q, top@, p@) && q.len() < pos + 1)) by {
                    lemma_push_contains(c0, p@.subrange(0, pos as int), q);
                    if in_chain(q, top@, p@) && q.len() == pos {
                        assert(q =~= p@.subrange(0, pos as int));
                    }
                }
            }
        } else {
            proof {
                assert forall|q: Seq<u8>| #[trigger]
                    cands.deep_view().contains(q) <==> (old(cands).deep_view().contains(q) || (
                    in_chain(q, top@, p@) && q.len() < pos + 1)) by {
                    if in_chain(q, top@, p@) && q.len() == pos {
                        assert(p@[q.len() as int] == SLASH);
                    }
                }
            }
        }
        pos += 1;
    }
    proof {
        assert forall|q: Seq<u8>| #[trigger]
            cands.deep_view().contains(q) <==> (old(cands).deep_view().contains(q) || in_chain(
                q,
                top@,
                p@,
            )) by {
            if in_chain(q, top@, p@) {
                assert(q.len() + 1 < p@.len());
            }
        }
    }
}


/// Plan one cleanup pass: which files to remove, and which directories to
/// reconsider afterwards.
#[verifier::rlimit(100)]
#[verifier::spinoff_prover]
fn plan_clean(
    fs: &FsModel,
    marker_dir: &Vec<u8>,
    output_dirs: &Vec<Vec<u8>>,
    markers: &Vec<Vec<u8>>,
) -> (r: (Vec<Vec<u8>>, Vec<Vec<u8>>))
    requires
        fs.wf(),
        clean_pre(fs@, marker_dir@, output_dirs.deep_view()),
        forall|p: Seq<u8>| #[trigger]
            markers.deep_view().contains(p) <==> is_marker_entry(fs@, marker_dir@, p),
    ensures
        forall|p: Seq<u8>| #[trigger]
            r.0.deep_view().contains(p) <==> removed_file(
                fs@,
                marker_dir@,
                output_dirs.deep_view(),
                p,
            ),
        forall|q: Seq<u8>| #[trigger]
            r.1.deep_view().contains(q) <==> is_candidate(
                fs@,
                marker_dir@,
                output_dirs.deep_view(),
                q,
            ),
{
    let ghost m = fs@;
    let ghost md = marker_dir@;
    let ghost outs = output_dirs.deep_view();
    let mut removals: Vec<Vec<u8>> = Vec::new();
    let mut cands: Vec<Vec<u8>> = Vec::new();
    let mut k: usize = 0;
    proof {
        assert(markers.deep_view().take(0) =~= Seq::<Seq<u8>>::empty());
    }
    while k < markers.len()
        invariant
            fs.wf(),
            m == fs@ && md == marker_dir@ && outs == output_dirs.deep_view(),
            clean_pre(m, md, outs),
            forall|p: Seq<u8>| #[trigger]
                markers.deep_view().contains(p) <==> is_marker_entry(m, md, p),
            k <= markers@.len(),
            forall|p: Seq<u8>| #[trigger]
                removals.deep_view().contains(p) <==> (markers.deep_view().take(
                    k as int,
                ).contains(p) || (m.contains_key(p) && exists|r: Seq<u8>, i: int|
                    #![trigger victim_of(md, outs[i], r)]
                    markers.deep_view().take(k as int).contains(r) && 0 <= i < outs.len() && p
                        == victim_of(md, outs[i], r))),
            forall|q: Seq<u8>| #[trigger]
                cands.deep_view().contains(q) <==> ((exists|r: Seq<u8>| #[trigger]
                    markers.deep_view().take(k as int).contains(r) && in_chain(q, md, r)) || (
                exists|r: Seq<u8>, i: int|
                    #![trigger in_chain(q, outs[i], victim_of(md, outs[i], r))]
                    markers.deep_view().take(k as int).contains(r) && 0 <= i < outs.len()
                        && m.contains_key(victim_of(md, outs[i], r)) && in_chain(
                        q,
                        outs[i],
                        victim_of(md, outs[i], r),
                    ))),
        decreases markers@.len() - k,
    {
        let rv = &markers[k];
        let ghost marks = markers.deep_view().take(k as int);
        proof {
            assert(markers.deep_view()[k as int] == rv@);
            assert(markers.deep_view().contains(rv@));
            assert(is_marker_entry(m, md, rv@));
            assert(strictly_under(strip_marker_suffix(rv@), md) && valid_path(
                strip_marker_suffix(rv@),
            ));
            lemma_strip_append(rv@);
        }
        let mut j: usize = 0;
        while j < output_dirs.len()
            invariant
                fs.wf(),
                m == fs@ && md == marker_dir@ && outs == output_dirs.deep_view(),
                clean_pre(m, md, outs),
                k < markers@.len(),
                marks == markers.deep_view().take(k as int),
                rv@ == markers.deep_view()[k as int],
                is_marker_entry(m, md, rv@),
                strictly_under(strip_marker_suffix(rv@), md),
                valid_path(strip_marker_suffix(rv@)),
                strip_marker_suffix(rv@).len() == rv@.len() - 16,
                j <= outs.len(),
                forall|p: Seq<u8>| #[trigger]
                    removals.deep_view().contains(p) <==> ((marks.contains(p) || (m.contains_key(p)
                        && exists|r: Seq<u8>, i: int|
                        #![trigger victim_of(md, outs[i], r)]
                        marks.contains(r) && 0 <= i < outs.len() && p == victim_of(
                            md,
                            outs[i],
                            r,
                        ))) || (m.contains_key(p) && exists|i: int|
                        0 <= i < j && p == victim_of(md, #[trigger] outs[i], rv@))),
                forall|q: Seq<u8>| #[trigger]
                    cands.deep_view().contains(q) <==> (((exists|r: Seq<u8>| #[trigger]
                        marks.contains(r) && in_chain(q, md, r)) || (exists|r: Seq<u8>, i: int|
                        #![trigger in_chain(q, outs[i], victim_of(md, outs[i], r))]
                        marks.contains(r) && 0 <= i < outs.len() && m.contains_key(
                            victim_of(md, outs[i], r),
                        ) && in_chain(q, outs[i], victim_of(md, outs[i], r)))) || (exists|i: int|
                        0 <= i < j && m.contains_key(victim_of(md, #[trigger] outs[i], rv@))
                            && in_chain(q, outs[i], victim_of(md, outs[i], rv@)))),
            decreases outs.len() - j,
        {
            let od = &output_dirs[j];
            proof {
                assert(output_dirs.deep_view()[j as int] == od@);
                assert(valid_path(od@) && separate_dirs(md, od@));
                lemma_rebase_valid(strip_marker_suffix(rv@), md, od@);
            }
            let v = rebase_exec(rv, marker_dir.len(), od, 16);
            proof {
                assert(v@ =~= victim_of(md, od@, rv@));
            }
            let ghost r0 = removals.deep_view();
            let ghost c0 = cands.deep_view();
            if fs.contains(&v) {
                push_chain(&mut cands, od, &v);
                removals.push(v);
                proof {
                    assert(removals.deep_view() =~~= r0.push(victim_of(md, od@, rv@)));
                    assert forall|p: Seq<u8>| #[trigger]
                        removals.deep_view().contains(p) <==> ((marks.contains(p) || (
                        m.contains_key(p) && exists|r: Seq<u8>, i: int|
                        #![trigger victim_of(md, outs[i], r)]
                        marks.contains(r) && 0 <= i < outs.len() && p == victim_of(
                            md,
                            outs[i],
                            r,
                        ))) || (m.contains_key(p) && exists|i: int|
                        0 <= i < j + 1 && p == victim_of(md, #[trigger] outs[i], rv@))) by {
                        lemma_push_contains(r0, victim_of(md, od@, rv@), p);
                        if p == victim_of(md, od@, rv@) {
                            assert(victim_of(md, outs[j as int], rv@) == p);
                        }
                        if m.contains_key(p) && exists|i: int|
                            0 <= i < j + 1 && p == victim_of(md, #[trigger] outs[i], rv@) {
                            let i = choose|i: int|
                                0 <= i < j + 1 && p == victim_of(md, #[trigger] outs[i], rv@);
                            if i < j {
                                assert(r0.contains(p));
                            }
                        }
                    }
                    assert forall|q: Seq<u8>| #[trigger]
                        cands.deep_view().contains(q) <==> (((exists|r: Seq<u8>| #[trigger]
                        marks.contains(r) && in_chain(q, md, r)) || (exists|r: Seq<u8>, i: int|
                        #![trigger in_chain(q, outs[i], victim_of(md, outs[i], r))]
                        marks.contains(r) && 0 <= i < outs.len() && m.contains_key(
                            victim_of(md, outs[i], r),
                        ) && in_chain(q, outs[i], victim_of(md, outs[i], r)))) || (exists|i: int|
                        0 <= i < j + 1 && m.contains_key(victim_of(md, #[trigger] outs[i], rv@))
                            && in_chain(q, outs[i], victim_of(md, outs[i], rv@)))) by {
                        if cands.deep_view().contains(q) && !c0.contains(q) {
                            assert(in_chain(q, od@, victim_of(md, od@, rv@)));
                            assert(m.contains_key(victim_of(md, outs[j as int], rv@)));
                        }
                        if exists|i: int|
                            0 <= i < j + 1 && m.contains_key(victim_of(md, #[trigger] outs[i], rv@))
                                && in_chain(q, outs[i], victim_of(md, outs[i], rv@)) {
                            let i = choose|i: int|
                                0 <= i < j + 1 && m.contains_key(
                                    victim_of(md, #[trigger] outs[i], rv@),
                                ) && in_chain(q, outs[i], victim_of(md, outs[i], rv@));
                            if i < j {
                                assert(c0.contains(q));
                            } else {
                                assert(in_chain(q, od@, victim_of(md, od@, rv@)));
                            }
                        }
                    }
                }
            } else {
                proof {
                    assert forall|p: Seq<u8>|
                        (exists|i: int| 0 <= i < j + 1 && p == victim_of(md, #[trigger] outs[i], rv@))
                            && m.contains_key(p) implies (marks.contains(p) || (m.contains_key(p)
                        && exists|r: Seq<u8>, i: int|
                        #![trigger victim_of(md, outs[i], r)]
                        marks.contains(r) && 0 <= i < outs.len() && p == victim_of(md, outs[i], r))
                        || (m.contains_key(p) && exists|i: int|
                        0 <= i < j && p == victim_of(md, #[trigger] outs[i], rv@))) by {
                        let i = choose|i: int|
                            0 <= i < j + 1 && p == victim_of(md, #[trigger] outs[i], rv@);
                        if i == j {
                            assert(!m.contains_key(victim_of(md, od@, rv@)));
                            assert(false);
                        }
                    }
                    assert forall|q: Seq<u8>|
                        #![trigger cands.deep_view().contains(q)]
                        (exists|i: int|
                            0 <= i < j + 1 && m.contains_key(victim_of(md, #[trigger] outs[i], rv@))
                                && in_chain(q, outs[i], victim_of(md, outs[i], rv@))) implies (
                    exists|i: int|
                        0 <= i < j && m.contains_key(victim_of(md, #[trigger] outs[i], rv@))
                            && in_chain(q, outs[i], victim_of(md, outs[i], rv@))) by {
                        let i = choose|i: int|
                            0 <= i < j + 1 && m.contains_key(victim_of(md, #[trigger] outs[i], rv@))
                                && in_chain(q, outs[i], victim_of(md, outs[i], rv@));
                        if i == j {
                            assert(false);
                        }
                    }
                }
            }
            j += 1;
        }
        // The marker itself: record it and the directories above it.
        let ghost r1 = removals.deep_view();
        push_chain(&mut cands, marker_dir, rv);
        removals.push(clone_bytes(rv));
        proof {
            assert(removals.deep_view() =~~= r1.push(rv@));
            assert(markers.deep_view().take(k as int + 1) =~= marks.push(rv@));
            assert forall|p: Seq<u8>| #[trigger]
                removals.deep_view().contains(p) <==> (markers.deep_view().take(
                k as int + 1,
            ).contains(p) || (m.contains_key(p) && exists|r: Seq<u8>, i: int|
                #![trigger victim_of(md, outs[i], r)]
                markers.deep_view().take(k as int + 1).contains(r) && 0 <= i < outs.len() && p
                    == victim_of(md, outs[i], r))) by {
                lemma_push_contains(r1, rv@, p);
                lemma_push_contains(marks, rv@, p);
                if removals.deep_view().contains(p) {
                    if r1.contains(p) {
                        if marks.contains(p) || p == rv@ {
                        } else if m.contains_key(p) && exists|r: Seq<u8>, i: int|
                            #![trigger victim_of(md, outs[i], r)]
                            marks.contains(r) && 0 <= i < outs.len() && p == victim_of(
                                md,
                                outs[i],
                                r,
                            ) {
                            let (r, i) = choose|r: Seq<u8>, i: int|
                                #![trigger victim_of(md, outs[i], r)]
                                marks.contains(r) && 0 <= i < outs.len() && p == victim_of(
                                    md,
                                    outs[i],
                                    r,
                                );
                            lemma_push_contains(marks, rv@, r);
                            assert(markers.deep_view().take(k as int + 1).contains(r));
                        } else {
                            let i = choose|i: int|
                                0 <= i < outs.len() && p == victim_of(md, #[trigger] outs[i], rv@);
                            lemma_push_contains(marks, rv@, rv@);
                            assert(markers.deep_view().take(k as int + 1).contains(rv@));
                        }
                    }
                } else {
                    if markers.deep_view().take(k as int + 1).contains(p) {
                        assert(false);
                    }
                    if m.contains_key(p) && exists|r: Seq<u8>, i: int|
                        #![trigger victim_of(md, outs[i], r)]
                        markers.deep_view().take(k as int + 1).contains(r) && 0 <= i < outs.len()
                            && p == victim_of(md, outs[i], r) {
                        let (r, i) = choose|r: Seq<u8>, i: int|
                            #![trigger victim_of(md, outs[i], r)]
                            markers.deep_view().take(k as int + 1).contains(r) && 0 <= i
                                < outs.len() && p == victim_of(md, outs[i], r);
                        lemma_push_contains(marks, rv@, r);
                        assert(false);
                    }
                }
            }
            assert forall|q: Seq<u8>| #[trigger]
                cands.deep_view().contains(q) <==> ((exists|r: Seq<u8>| #[trigger]
                markers.deep_view().take(k as int + 1).contains(r) && in_chain(q, md, r)) || (
            exists|r: Seq<u8>, i: int|
                #![trigger in_chain(q, outs[i], victim_of(md, outs[i], r))]
                markers.deep_view().take(k as int + 1).contains(r) && 0 <= i < outs.len()
                    && m.contains_key(victim_of(md, outs[i], r)) && in_chain(
                    q,
                    outs[i],
                    victim_of(md, outs[i], r),
                ))) by {
                if cands.deep_view().contains(q) {
                    if in_chain(q, md, rv@) {
                        lemma_push_contains(marks, rv@, rv@);
                        assert(markers.deep_view().take(k as int + 1).contains(rv@));
                    } else if exists|r: Seq<u8>| #[trigger] marks.contains(r) && in_chain(q, md, r) {
                        let r = choose|r: Seq<u8>| #[trigger] marks.contains(r) && in_chain(q, md, r);
                        lemma_push_contains(marks, rv@, r);
                        assert(markers.deep_view().take(k as int + 1).contains(r));
                    } else if exists|r: Seq<u8>, i: int|
                        #![trigger in_chain(q, outs[i], victim_of(md, outs[i], r))]
                        marks.contains(r) && 0 <= i < outs.len() && m.contains_key(
                            victim_of(md, outs[i], r),
                        ) && in_chain(q, outs[i], victim_of(md, outs[i], r)) {
                        let (r, i) = choose|r: Seq<u8>, i: int|
                            #![trigger in_chain(q, outs[i], victim_of(md, outs[i], r))]
                            marks.contains(r) && 0 <= i < outs.len() && m.contains_key(
                                victim_of(md, outs[i], r),
                            ) && in_chain(q, outs[i], victim_of(md, outs[i], r));
                        lemma_push_contains(marks, rv@, r);
                        assert(markers.deep_view().take(k as int + 1).contains(r));
                    } else {
                        let i = choose|i: int|
                            0 <= i < outs.len() && m.contains_key(
                                victim_of(md, #[trigger] outs[i], rv@),
                            ) && in_chain(q, outs[i], victim_of(md, outs[i], rv@));
                        lemma_push_contains(marks, rv@, rv@);
                        assert(markers.deep_view().take(k as int + 1).contains(rv@));
                    }
                } else {
                    if exists|r: Seq<u8>| #[trigger]
                        markers.deep_view().take(k as int + 1).contains(r) && in_chain(q, md, r) {
                        let r = choose|r: Seq<u8>| #[trigger]
                            markers.deep_view().take(k as int + 1).contains(r) && in_chain(
                                q,
                                md,
                                r,
                            );
                        lemma_push_contains(marks, rv@, r);
                        assert(false);
                    }
                    if exists|r: Seq<u8>, i: int|
                        #![trigger in_chain(q, outs[i], victim_of(md, outs[i], r))]
                        markers.deep_view().take(k as int + 1).contains(r) && 0 <= i < outs.len()
                            && m.contains_key(victim_of(md, outs[i], r)) && in_chain(
                            q,
                            outs[i],
                            victim_of(md, outs[i], r),
                        ) {
                        let (r, i) = choose|r: Seq<u8>, i: int|
                            #![trigger in_chain(q, outs[i], victim_of(md, outs[i], r))]
                            markers.deep_view().take(k as int + 1).contains(r) && 0 <= i
                                < outs.len() && m.contains_key(victim_of(md, outs[i], r))
                                && in_chain(q, outs[i], victim_of(md, outs[i], r));
                        lemma_push_contains(marks, rv@, r);
                        assert(false);
                    }
                }
            }
        }
        k += 1;
    }
    proof {
        assert(markers.deep_view().take(k as int) =~= markers.deep_view());
        assert forall|p: Seq<u8>| #[trigger]
            removals.deep_view().contains(p) <==> removed_file(m, md, outs, p) by {
            if removals.deep_view().contains(p) {
                if !markers.deep_view().contains(p) {
                    let (r, i) = choose|r: Seq<u8>, i: int|
                        #![trigger victim_of(md, outs[i], r)]
                        markers.deep_view().contains(r) && 0 <= i < outs.len() && p == victim_of(
                            md,
                            outs[i],
                            r,
                        );
                    assert(is_marker_entry(m, md, r));
                    assert(is_victim(m, md, outs, p));
                }
            }
            if removed_file(m, md, outs, p) && !is_marker_entry(m, md, p) {
                let (r, i) = choose|r: Seq<u8>, i: int|
                    #![trigger victim_of(md, outs[i], r)]
                    is_marker_entry(m, md, r) && 0 <= i < outs.len() && p == victim_of(
                        md,
                        outs[i],
                        r,
                    );
                assert(markers.deep_view().contains(r));
            }
        }
        assert forall|q: Seq<u8>| #[trigger]
            cands.deep_view().contains(q) <==> is_candidate(m, md, outs, q) by {
            if cands.deep_view().contains(q) {
                if exists|r: Seq<u8>| #[trigger]
                    markers.deep_view().contains(r) && in_chain(q, md, r) {
                    let r = choose|r: Seq<u8>| #[trigger]
                        markers.deep_view().contains(r) && in_chain(q, md, r);
                    assert(is_marker_entry(m, md, r) && in_chain(q, md, r));
                } else {
                    let (r, i) = choose|r: Seq<u8>, i: int|
                        #![trigger in_chain(q, outs[i], victim_of(md, outs[i], r))]
                        markers.deep_view().contains(r) && 0 <= i < outs.len() && m.contains_key(
                            victim_of(md, outs[i], r),
                        ) && in_chain(q, outs[i], victim_of(md, outs[i], r));
                    assert(is_marker_entry(m, md, r));
                }
            }
            if is_candidate(m, md, outs, q) {
                if exists|r: Seq<u8>| #[trigger] is_marker_entry(m, md, r) && in_chain(q, md, r) {
                    let r = choose|r: Seq<u8>| #[trigger]
                        is_marker_entry(m, md, r) && in_chain(q, md, r);
                    assert(markers.deep_view().contains(r));
                } else {
                    let (r, i) = choose|r: Seq<u8>, i: int|
                        #![trigger in_chain(q, outs[i], victim_of(md, outs[i], r))]
                        is_marker_entry(m, md, r) && 0 <= i < outs.len() && m.contains_key(
                            victim_of(md, outs[i], r),
                        ) && in_chain(q, outs[i], victim_of(md, outs[i], r));
                    assert(markers.deep_view().contains(r));
                }
            }
        }
    }
    (removals, cands)
}


/// Remove every artifact a marker names from all output trees, remove the
/// markers themselves, then remove the directories the removals left empty,
/// deepest first, stopping where a directory still holds something. Returns
/// the steps taken, in order, for replay against the real directory tree.
#[verifier::rlimit(100)]
#[verifier::spinoff_prover]
pub fn clean_build_files(
    fs: &mut FsModel,
    marker_dir: &Vec<u8>,
    output_dirs: &Vec<Vec<u8>>,
) -> (actions: Vec<FsAction>)
    requires
        old(fs).wf(),
        clean_pre(old(fs)@, marker_dir@, output_dirs.deep_view()),
    ensures
        final(fs).wf(),
        forall|q: Seq<u8>| #[trigger]
            final(fs)@.contains_key(q) ==> old(fs)@.contains_key(q) && final(fs)@[q]
                == old(fs)@[q],
        forall|q: Seq<u8>| #[trigger]
            removed_file(old(fs)@, marker_dir@, output_dirs.deep_view(), q)
                ==> !(final(fs)@.contains_key(q)),
        forall|q: Seq<u8>| #[trigger]
            old(fs)@.contains_key(q) && !removed_file(
                old(fs)@,
                marker_dir@,
                output_dirs.deep_view(),
                q,
            ) ==> (final(fs)@.contains_key(q) <==> !(is_candidate(
                old(fs)@,
                marker_dir@,
                output_dirs.deep_view(),
                q,
            ) && subtree_empty(final(fs)@, q))),
        final(fs)@ == replay(old(fs)@, actions@),
        forall|i: int, j: int|
            0 <= i < j < actions@.len() && (#[trigger] actions@[i]) is RemoveDir ==> (#[trigger]
            actions@[j]) is RemoveDir,
        forall|i: int, j: int|
            0 <= i < j < actions@.len() ==> (match (#[trigger] actions@[i], #[trigger] actions@[j]) {
                (FsAction::RemoveDir(x), FsAction::RemoveDir(y)) => !lex_lt(x@, y@),
                _ => true,
            }),
{
    let ghost m = old(fs)@;
    let ghost md = marker_dir@;
    let ghost outs = output_dirs.deep_view();
    let markers = fs.find_files(marker_dir, FileFilter::Markers);
    let (removals, mut cands) = plan_clean(fs, marker_dir, output_dirs, &markers);
    let mut actions: Vec<FsAction> = Vec::new();

    // First pass: remove markers and the artifacts they name.
    let ghost rem = removals.deep_view();
    let mut i: usize = 0;
    proof {
        assert(rem.take(0) =~= Seq::<Seq<u8>>::empty());
    }
    while i < removals.len()
        invariant
            fs.wf(),
            map_wf(m),
            m == old(fs)@ && md == marker_dir@ && outs == output_dirs.deep_view(),
            clean_pre(m, md, outs),
            rem == removals.deep_view(),
            forall|p: Seq<u8>| #[trigger] rem.contains(p) <==> removed_file(m, md, outs, p),
            i <= removals@.len(),
            forall|q: Seq<u8>| #[trigger]
                fs@.contains_key(q) <==> (m.contains_key(q) && !rem.take(i as int).contains(q)),
            forall|q: Seq<u8>| #[trigger] fs@.contains_key(q) ==> fs@[q] == m[q],
            fs@ == replay(m, actions@),
            forall|i2: int| 0 <= i2 < actions@.len() ==> (#[trigger] actions@[i2]) is RemoveFile,
        decreases removals@.len() - i,
    {
        let p = &removals[i];
        proof {
            assert(rem[i as int] == p@);
            assert(rem.contains(p@));
            assert(removed_file(m, md, outs, p@));
            assert(m.contains_key(p@));
            assert(m[p@] == EntryKind::Dir ==> subtree_empty(m, p@)) by {
                if is_marker_entry(m, md, p@) {
                    assert(m[p@] == EntryKind::File);
                } else {
                    let (r, oi) = choose|r: Seq<u8>, oi: int|
                        #![trigger victim_of(md, outs[oi], r)]
                        is_marker_entry(m, md, r) && 0 <= oi < outs.len() && p@ == victim_of(
                            md,
                            outs[oi],
                            r,
                        );
                    assert(victim_of(md, outs[oi], r) == p@);
                }
            }
        }
        if fs.contains(p) {
            proof {
                assert forall|x: Seq<u8>, r2: Seq<u8>| #[trigger]
                    fs@.remove(p@).contains_key(x) && #[trigger]
                    strictly_under(x, r2) implies fs@.remove(p@).contains_key(r2) && fs@.remove(
                    p@,
                )[r2] == EntryKind::Dir by {
                    assert(fs@.contains_key(x));
                    assert(fs@.contains_key(r2) && fs@[r2] == EntryKind::Dir);
                    if r2 == p@ {
                        // nothing can sit inside a removed path: markers are
                        // files, and a directory victim is empty
                        assert(m.contains_key(x) && strictly_under(x, p@));
                        assert(m[p@] == EntryKind::Dir);
                        assert(subtree_empty(m, p@));
                        assert(false);
                    }
                }
                assert(map_wf(fs@.remove(p@)));
            }
            let ghost acts0 = actions@;
            actions.push(FsAction::RemoveFile(clone_bytes(p)));
            fs.remove_entry(p);
            proof {
                assert(actions@.drop_last() =~= acts0);
                assert((actions@.last() matches FsAction::RemoveFile(x) && x@ == p@));
                assert(replay(m, actions@) == apply_action(replay(m, acts0), actions@.last()));
                assert(fs@ =~= replay(m, actions@));
                assert forall|i2: int|
                    0 <= i2 < actions@.len() implies (#[trigger] actions@[i2]) is RemoveFile by {
                    if i2 < acts0.len() {
                        assert(actions@[i2] == acts0[i2]);
                    }
                }
            }
        } else {
            proof {
                assert(fs@ =~= fs@.remove(p@));
            }
        }
        proof {
            assert(rem.take(i as int + 1) =~= rem.take(i as int).push(p@));
            assert forall|q: Seq<u8>| #[trigger]
                fs@.contains_key(q) <==> (m.contains_key(q) && !rem.take(
                i as int + 1,
            ).contains(q)) by {
                lemma_push_contains(rem.take(i as int), p@, q);
            }
        }
        i += 1;
    }
    proof {
        assert(rem.take(i as int) =~= rem);
    }
    let ghost f0 = fs@;
    proof {
        assert(forall|q: Seq<u8>| #[trigger]
            f0.contains_key(q) <==> (m.contains_key(q) && !removed_file(m, md, outs, q)));
    }

    // Second pass: take the candidate directories deepest first and remove
    // each one that is empty when its turn comes.
    let ghost mut processed: Seq<Seq<u8>> = Seq::empty();
    while cands.len() > 0
        invariant
            fs.wf(),
            map_wf(m),
            m == old(fs)@ && md == marker_dir@ && outs == output_dirs.deep_view(),
            clean_pre(m, md, outs),
            forall|q: Seq<u8>| #[trigger]
                f0.contains_key(q) <==> (m.contains_key(q) && !removed_file(m, md, outs, q)),
            forall|q: Seq<u8>| #[trigger] f0.contains_key(q) ==> f0[q] == m[q],
            forall|q: Seq<u8>| #[trigger]
                fs@.contains_key(q) ==> f0.contains_key(q) && fs@[q] == f0[q],
            forall|q: Seq<u8>| #[trigger]
                f0.contains_key(q) && !fs@.contains_key(q) ==> processed.contains(q),
            forall|q: Seq<u8>| #[trigger] processed.contains(q) ==> is_candidate(m, md, outs, q),
            forall|q: Seq<u8>| #[trigger]
                cands.deep_view().contains(q) ==> is_candidate(m, md, outs, q),
            forall|q: Seq<u8>| #[trigger]
                is_candidate(m, md, outs, q) ==> cands.deep_view().contains(q)
                    || processed.contains(q),
            forall|q: Seq<u8>| #[trigger]
                processed.contains(q) ==> (fs@.contains_key(q) <==> !subtree_empty(fs@, q)),
            forall|q: Seq<u8>, x: Seq<u8>| #[trigger]
                processed.contains(q) && #[trigger] cands.deep_view().contains(x) ==> !lex_lt(q, x),
            fs@ == replay(m, actions@),
            forall|i2: int|
                0 <= i2 < actions@.len() ==> (match #[trigger] actions@[i2] {
                    FsAction::RemoveDir(x) => processed.contains(x@),
                    FsAction::RemoveFile(y) => true,
                    _ => false,
                }),
            forall|i2: int, j2: int|
                0 <= i2 < j2 < actions@.len() && (#[trigger] actions@[i2]) is RemoveDir ==> (
                #[trigger] actions@[j2]) is RemoveDir,
            forall|i2: int, j2: int|
                0 <= i2 < j2 < actions@.len() ==> (match (
                    #[trigger] actions@[i2],
                    #[trigger] actions@[j2],
                ) {
                    (FsAction::RemoveDir(x), FsAction::RemoveDir(y)) => !lex_lt(x@, y@),
                    _ => true,
                }),
        decreases cands@.len(),
    {
        let mut imax: usize = 0;
        let mut idx: usize = 1;
        proof {
            lemma_lex_asym(cands.deep_view()[0], cands.deep_view()[0]);
        }
        while idx < cands.len()
            invariant
                cands@.len() > 0,
                1 <= idx <= cands@.len(),
                imax < idx,
                forall|j: int|
                    0 <= j < idx ==> !lex_lt(
                        cands.deep_view()[imax as int],
                        #[trigger] cands.deep_view()[j],
                    ),
            decreases cands@.len() - idx,
        {
            proof {
                assert(cands.deep_view()[imax as int] == cands@[imax as int]@);
                assert(cands.deep_view()[idx as int] == cands@[idx as int]@);
            }
            if lex_less(&cands[imax], &cands[idx]) {
                proof {
                    let ghost oldmax = cands.deep_view()[imax as int];
                    assert forall|j: int|
                        0 <= j < idx + 1 implies !lex_lt(
                        cands.deep_view()[idx as int],
                        #[trigger] cands.deep_view()[j],
                    ) by {
                        let c = cands.deep_view()[idx as int];
                        let b = cands.deep_view()[j];
                        if j < idx {
                            if lex_lt(c, b) {
                                lemma_lex_total(b, oldmax);
                                if b == oldmax {
                                    lemma_lex_asym(oldmax, c);
                                } else if lex_lt(b, oldmax) {
                                    lemma_lex_trans(c, b, oldmax);
                                    lemma_lex_asym(oldmax, c);
                                } else {
                                    assert(!lex_lt(oldmax, b));
                                }
                            }
                        } else {
                            lemma_lex_asym(c, c);
                        }
                    }
                }
                imax = idx;
            }
            idx += 1;
        }
        let ghost before = cands.deep_view();
        let d = cands.swap_remove(imax);
        proof {
            assert(before[imax as int] == d@);
            assert(before.contains(d@));
            assert(is_candidate(m, md, outs, d@));
            lemma_candidate_dir(m, md, outs, d@);
            assert forall|x: Seq<u8>| #[trigger]
                cands.deep_view().contains(x) implies before.contains(x) by {
                let j = choose|j: int|
                    0 <= j < cands.deep_view().len() && cands.deep_view()[j] == x;
                if j == imax {
                    assert(before[before.len() - 1] == x);
                } else {
                    assert(before[j] == x);
                }
            }
            assert forall|x: Seq<u8>| #[trigger]
                before.contains(x) implies cands.deep_view().contains(x) || x == d@ by {
                let j = choose|j: int| 0 <= j < before.len() && before[j] == x;
                if j == imax {
                } else if j == before.len() - 1 {
                    if imax < before.len() - 1 {
                        assert(cands.deep_view()[imax as int] == x);
                    }
                } else {
                    assert(cands.deep_view()[j] == x);
                }
            }
            assert forall|x: Seq<u8>| #[trigger]
                before.contains(x) implies !lex_lt(d@, x) by {
                let j = choose|j: int| 0 <= j < before.len() && before[j] == x;
            }
        }
        let ghost fs_before = fs@;
        if fs.is_empty_dir(&d) {
            proof {
                assert forall|x: Seq<u8>, r2: Seq<u8>| #[trigger]
                    fs@.remove(d@).contains_key(x) && #[trigger]
                    strictly_under(x, r2) implies fs@.remove(d@).contains_key(r2) && fs@.remove(
                    d@,
                )[r2] == EntryKind::Dir by {
                    assert(fs@.contains_key(x));
                    assert(fs@.contains_key(r2) && fs@[r2] == EntryKind::Dir);
                    if r2 == d@ {
                        assert(strictly_under(x, d@));
                        assert(false);
                    }
                }
                assert(map_wf(fs@.remove(d@)));
            }
            let ghost acts0 = actions@;
            actions.push(FsAction::RemoveDir(clone_bytes(&d)));
            fs.remove_entry(&d);
            proof {
                assert(actions@.drop_last() =~= acts0);
                assert((actions@.last() matches FsAction::RemoveDir(x) && x@ == d@));
                assert(replay(m, actions@) == apply_action(replay(m, acts0), actions@.last()));
                assert(fs@ =~= replay(m, actions@));
                assert(forall|i2: int|
                    0 <= i2 < acts0.len() ==> actions@[i2] == #[trigger] acts0[i2]);
                assert forall|i2: int, j2: int|
                    0 <= i2 < j2 < actions@.len() implies (match (
                    #[trigger] actions@[i2],
                    #[trigger] actions@[j2],
                ) {
                    (FsAction::RemoveDir(x), FsAction::RemoveDir(y)) => !lex_lt(x@, y@),
                    _ => true,
                }) by {
                    if j2 == actions@.len() - 1 {
                        match actions@[i2] {
                            FsAction::RemoveDir(x) => {
                                // the earlier directory was taken while this
                                // one still waited, so it is no smaller
                                assert(processed.contains(x@));
                                assert(before.contains(d@));
                                assert(!lex_lt(x@, d@));
                            },
                            _ => {},
                        }
                    }
                }
            }
        }
        proof {
            let ghost p0 = processed;
            processed = processed.push(d@);
            assert(processed.drop_last() =~= p0);
            assert forall|q: Seq<u8>| #[trigger]
                processed.contains(q) implies (fs@.contains_key(q) <==> !subtree_empty(
                fs@,
                q,
            )) by {
                lemma_push_contains(p0, d@, q);
                if q == d@ {
                    if fs_before.contains_key(d@) {
                        if fs@.contains_key(d@) {
                            // kept: it was not empty, and nothing under it went away
                            assert(!subtree_empty(fs_before, d@));
                            let w = choose|w: Seq<u8>|
                                #[trigger] fs_before.contains_key(w) && strictly_under(w, d@);
                            assert(fs@.contains_key(w));
                            assert(!subtree_empty(fs@, q));
                        } else {
                            assert(subtree_empty(fs_before, d@));
                            assert forall|p2: Seq<u8>| #[trigger]
                                fs@.contains_key(p2) implies !strictly_under(p2, d@) by {
                                assert(fs_before.contains_key(p2));
                            }
                        }
                    } else {
                        // removed in an earlier turn: the recorded fact carries over
                        assert(f0.contains_key(d@)) by {
                            if is_marker_entry(m, md, d@) {
                                assert(m[d@] == EntryKind::File);
                            }
                            if m.contains_key(d@) && is_victim(m, md, outs, d@) {
                                let (r, oi) = choose|r: Seq<u8>, oi: int|
                                    #![trigger victim_of(md, outs[oi], r)]
                                    is_marker_entry(m, md, r) && 0 <= oi < outs.len() && d@
                                        == victim_of(md, outs[oi], r);
                                assert(victim_of(md, outs[oi], r) == d@);
                                assert(subtree_empty(m, d@));
                                assert(false);
                            }
                            assert(!removed_file(m, md, outs, d@));
                        }
                        assert(p0.contains(d@));
                        assert(fs@ == fs_before);
                    }
                } else {
                    assert(p0.contains(q));
                    if fs@.contains_key(q) {
                        assert(fs_before.contains_key(q));
                        assert(!subtree_empty(fs_before, q));
                        let w = choose|w: Seq<u8>|
                            #[trigger] fs_before.contains_key(w) && strictly_under(w, q);
                        assert(w != d@) by {
                            if w == d@ {
                                lemma_under_lex_lt(w, q);
                                assert(before.contains(d@));
                                assert(!lex_lt(q, d@));
                            }
                        }
                        assert(fs@.contains_key(w));
                        assert(!subtree_empty(fs@, q));
                    } else {
                        if fs_before.contains_key(q) {
                            // only `d` went away this turn
                            assert(q == d@);
                            assert(false);
                        }
                        assert(subtree_empty(fs_before, q));
                        assert forall|p2: Seq<u8>| #[trigger]
                            fs@.contains_key(p2) implies !strictly_under(p2, q) by {
                            assert(fs_before.contains_key(p2));
                        }
                    }
                }
            }
            assert forall|q: Seq<u8>| #[trigger]
                f0.contains_key(q) && !fs@.contains_key(q) implies processed.contains(q) by {
                lemma_push_contains(p0, d@, q);
                if fs_before.contains_key(q) {
                    assert(q == d@);
                } else {
                    assert(p0.contains(q));
                }
            }
            assert forall|q: Seq<u8>| #[trigger]
                processed.contains(q) implies is_candidate(m, md, outs, q) by {
                lemma_push_contains(p0, d@, q);
            }
            assert forall|q: Seq<u8>| #[trigger]
                is_candidate(m, md, outs, q) implies cands.deep_view().contains(q)
                || processed.contains(q) by {
                lemma_push_contains(p0, d@, q);
                if before.contains(q) && !cands.deep_view().contains(q) {
                    assert(q == d@);
                }
            }
            assert forall|q: Seq<u8>, x: Seq<u8>| #[trigger]
                processed.contains(q) && #[trigger]
                cands.deep_view().contains(x) implies !lex_lt(q, x) by {
                lemma_push_contains(p0, d@, q);
                assert(before.contains(x));
                if q == d@ {
                    assert(!lex_lt(d@, x));
                }
            }
        }
    }
    proof {
        assert(cands@.len() == 0);
        assert forall|q: Seq<u8>| #[trigger]
            old(fs)@.contains_key(q) && !removed_file(m, md, outs, q) implies (fs@.contains_key(q)
            <==> !(is_candidate(m, md, outs, q) && subtree_empty(fs@, q))) by {
            assert(f0.contains_key(q));
            if !fs@.contains_key(q) {
                assert(processed.contains(q));
                assert(is_candidate(m, md, outs, q));
            }
            if is_candidate(m, md, outs, q) && subtree_empty(fs@, q) {
                assert(!cands.deep_view().contains(q));
                assert(processed.contains(q));
                assert(!fs@.contains_key(q));
            }
        }
        assert forall|q: Seq<u8>| #[trigger]
            removed_file(m, md, outs, q) implies !fs@.contains_key(q) by {
            if fs@.contains_key(q) {
                assert(f0.contains_key(q));
            }
        }
    }
    actions
}


/// The per-kind directory name under the state root: `packages`, `kits`, or
/// `variants`; repackaging shares the variant tree.
pub open spec fn kind_prefix(kind: BuildType) -> Seq<u8> {
    match kind {
        BuildType::Package => seq![112u8, 97u8, 99u8, 107u8, 97u8, 103u8, 101u8, 115u8],
        BuildType::Kit => seq![107u8, 105u8, 116u8, 115u8],
        BuildType::Variant => seq![118u8, 97u8, 114u8, 105u8, 97u8, 110u8, 116u8, 115u8],
        BuildType::Repack => seq![118u8, 97u8, 114u8, 105u8, 97u8, 110u8, 116u8, 115u8],
    }
}

/// Where the markers of one target live: `stateRoot/arch/<kind>/name`.
pub open spec fn marker_dir_path(
    kind: BuildType,
    name: Seq<u8>,
    arch: Seq<u8>,
    state_dir: Seq<u8>,
) -> Seq<u8> {
    state_dir + seq![SLASH] + arch + seq![SLASH] + kind_prefix(kind) + seq![SLASH] + name
}

proof fn lemma_kind_prefix_segment(kind: BuildType)
    ensures
        is_segment(kind_prefix(kind)),
{
    let p = kind_prefix(kind);
    assert forall|i: int| 0 <= i < p.len() implies p[i] != SLASH by {
        match kind {
            BuildType::Package => {
                assert(p[0] == 112 && p[1] == 97 && p[2] == 99 && p[3] == 107 && p[4] == 97 && p[5]
                    == 103 && p[6] == 101 && p[7] == 115);
            },
            BuildType::Kit => {
                assert(p[0] == 107 && p[1] == 105 && p[2] == 116 && p[3] == 115);
            },
            BuildType::Variant => {
                assert(p[0] == 118 && p[1] == 97 && p[2] == 114 && p[3] == 105 && p[4] == 97 && p[5]
                    == 110 && p[6] == 116 && p[7] == 115);
            },
            BuildType::Repack => {
                assert(p[0] == 118 && p[1] == 97 && p[2] == 114 && p[3] == 105 && p[4] == 97 && p[5]
                    == 110 && p[6] == 116 && p[7] == 115);
            },
        }
    }
}

/// Adding one directory right inside a held directory keeps the tree map
/// well formed.
proof fn lemma_insert_dir_wf(m: Map<Seq<u8>, EntryKind>, dir: Seq<u8>, seg: Seq<u8>)
    requires
        map_wf(m),
        valid_path(dir),
        is_segment(seg),
        m.contains_key(dir) && m[dir] == EntryKind::Dir,
        !m.contains_key(dir + seq![SLASH] + seg) || m[dir + seq![SLASH] + seg] == EntryKind::Dir,
    ensures
        map_wf(m.insert(dir + seq![SLASH] + seg, EntryKind::Dir)),
{
    lemma_join_facts(dir, seg);
    let p = dir + seq![SLASH] + seg;
    let ins = m.insert(p, EntryKind::Dir);
    assert forall|x: Seq<u8>, r: Seq<u8>| #[trigger] ins.contains_key(x) && #[trigger]
        strictly_under(x, r) implies ins.contains_key(r) && ins[r] == EntryKind::Dir by {
        if x == p {
            assert(r == dir || strictly_under(dir, r));
            assert(m.contains_key(r) && m[r] == EntryKind::Dir);
            assert(r.len() < p.len());
        } else {
            assert(m.contains_key(x));
            assert(m.contains_key(r) && m[r] == EntryKind::Dir);
        }
    }
}

/// The per-kind directory name as an executable value.
fn kind_prefix_vec(kind: &BuildType) -> (v: Vec<u8>)
    ensures
        v@ == kind_prefix(*kind),
{
    let mut prefix: Vec<u8> = Vec::new();
    match kind {
        BuildType::Package => {
            prefix.push(112);
            prefix.push(97);
            prefix.push(99);
            prefix.push(107);
            prefix.push(97);
            prefix.push(103);
            prefix.push(101);
            prefix.push(115);
        },
        BuildType::Kit => {
            prefix.push(107);
            prefix.push(105);
            prefix.push(116);
            prefix.push(115);
        },
        BuildType::Variant => {
            prefix.push(118);
            prefix.push(97);
            prefix.push(114);
            prefix.push(105);
            prefix.push(97);
            prefix.push(110);
            prefix.push(116);
            prefix.push(115);
        },
        BuildType::Repack => {
            prefix.push(118);
            prefix.push(97);
            prefix.push(114);
            prefix.push(105);
            prefix.push(97);
            prefix.push(110);
            prefix.push(116);
            prefix.push(115);
        },
    };
    proof {
        assert(prefix@ =~= kind_prefix(*kind));
    }
    prefix
}

/// Marker-directory creation asks only that the state root exist and that
/// nothing but directories sit on the way down.
pub open spec fn marker_dir_pre(
    m: Map<Seq<u8>, EntryKind>,
    kind: BuildType,
    name: Seq<u8>,
    arch: Seq<u8>,
    state_dir: Seq<u8>,
) -> bool {
    &&& valid_path(state_dir)
    &&& is_segment(arch)
    &&& is_segment(name)
    &&& m.contains_key(state_dir) && m[state_dir] == EntryKind::Dir
    &&& !m.contains_key(state_dir + seq![SLASH] + arch) || m[state_dir + seq![SLASH] + arch]
        == EntryKind::Dir
    &&& !m.contains_key(state_dir + seq![SLASH] + arch + seq![SLASH] + kind_prefix(kind))
        || m[state_dir + seq![SLASH] + arch + seq![SLASH] + kind_prefix(kind)] == EntryKind::Dir
    &&& !m.contains_key(marker_dir_path(kind, name, arch, state_dir)) || m[marker_dir_path(
        kind,
        name,
        arch,
        state_dir,
    )] == EntryKind::Dir
}

/// Compute the marker directory of one target and create it and its parents;
/// a second call with the same inputs changes nothing.
pub fn create_marker_dir(
    fs: &mut FsModel,
    kind: &BuildType,
    name: &Vec<u8>,
    arch: &Vec<u8>,
    state_dir: &Vec<u8>,
) -> (r: Vec<u8>)
    requires
        old(fs).wf(),
        marker_dir_pre(old(fs)@, *kind, name@, arch@, state_dir@),
    ensures
        r@ == marker_dir_path(*kind, name@, arch@, state_dir@),
        final(fs).wf(),
        final(fs)@ == old(fs)@.insert(state_dir@ + seq![SLASH] + arch@, EntryKind::Dir).insert(
            state_dir@ + seq![SLASH] + arch@ + seq![SLASH] + kind_prefix(*kind),
            EntryKind::Dir,
        ).insert(marker_dir_path(*kind, name@, arch@, state_dir@), EntryKind::Dir),
        final(fs)@.contains_key(r@) && final(fs)@[r@] == EntryKind::Dir,
        valid_path(r@),
{
    let prefix = kind_prefix_vec(kind);
    proof {
        lemma_kind_prefix_segment(*kind);
        lemma_join_facts(state_dir@, arch@);
        lemma_insert_dir_wf(fs@, state_dir@, arch@);
    }
    let p1 = join_path(state_dir, arch);
    let ghost m1 = fs@.insert(p1@, EntryKind::Dir);
    fs.set_entry(clone_bytes(&p1), EntryKind::Dir);
    proof {
        lemma_join_facts(p1@, kind_prefix(*kind));
        lemma_insert_dir_wf(fs@, p1@, prefix@);
    }
    let p2 = join_path(&p1, &prefix);
    fs.set_entry(clone_bytes(&p2), EntryKind::Dir);
    proof {
        lemma_join_facts(p2@, name@);
        lemma_insert_dir_wf(fs@, p2@, name@);
    }
    let p3 = join_path(&p2, name);
    fs.set_entry(clone_bytes(&p3), EntryKind::Dir);
    proof {
        assert(p3@ =~= marker_dir_path(*kind, name@, arch@, state_dir@));
    }
    p3
}


/// Promotion leaves, for every artifact of the build tree, a marker carrying
/// the artifact's path plus the marker suffix in the build tree, moves the
/// artifact itself out of the build tree, and puts it at the matching path of
/// the output tree with its kind unchanged.
pub proof fn lemma_promotion_tracks_artifacts(
    m: Map<Seq<u8>, EntryKind>,
    f: Map<Seq<u8>, EntryKind>,
    bd: Seq<u8>,
    out: Seq<u8>,
    a: Seq<u8>,
)
    requires
        map_wf(m),
        promote_pre(m, bd, out),
        forall|q: Seq<u8>| #[trigger] f.contains_key(q) <==> promoted_contains(m, bd, out, q),
        forall|q: Seq<u8>| #[trigger] f.contains_key(q) ==> f[q] == promoted_kind(m, bd, out, q),
        is_artifact_entry(m, bd, a),
    ensures
        f.contains_key(marker_path(a)) && f[marker_path(a)] == EntryKind::File,
        !f.contains_key(a),
        f.contains_key(rebase(a, bd, out)) && f[rebase(a, bd, out)] == m[a],
{
    assert(valid_path(a));
    lemma_marker_path_facts(a);
    lemma_rebase_valid(a, bd, out);
    lemma_rebase_roundtrip(a, bd, out);
    let mk = marker_path(a);
    let dst = rebase(a, bd, out);
    lemma_marker_under(a, bd);
    assert(promote_ok_at(m, bd, out, a));

    // The marker is a file of the build tree.
    assert(f.contains_key(mk));
    assert(f[mk] == EntryKind::File);

    // The artifact itself is gone.
    assert(!f.contains_key(a)) by {
        if has_marker_suffix(a) && is_artifact_entry(m, bd, strip_marker_suffix(a)) {
            lemma_strip_append(a);
            assert(promote_ok_at(m, bd, out, strip_marker_suffix(a)));
            assert(m[marker_path(strip_marker_suffix(a))] == EntryKind::File);
            assert(m[a] == EntryKind::Symlink);
            assert(false);
        }
        if strictly_under(a, out) {
            lemma_disjoint_dirs(a, bd, out);
        }
        assert(!promoted_contains(m, bd, out, a));
    }

    // The artifact sits at the matching output path with its kind.
    assert(f.contains_key(dst)) by {
        assert(strictly_under(dst, out) && is_artifact_entry(m, bd, rebase(dst, out, bd)));
    }
    assert(f[dst] == m[a]) by {
        if has_marker_suffix(dst) && is_artifact_entry(m, bd, strip_marker_suffix(dst)) {
            lemma_strip_append(dst);
            lemma_marker_under(strip_marker_suffix(dst), bd);
            lemma_disjoint_dirs(dst, bd, out);
        }
        assert(promoted_kind(m, bd, out, dst) == m[rebase(dst, out, bd)]);
    }
}

/// Cleaning twice changes nothing the second time: the first pass leaves no
/// marker behind, so the second finds nothing to remove and no directory to
/// reconsider.
pub proof fn lemma_clean_idempotent(
    m: Map<Seq<u8>, EntryKind>,
    f1: Map<Seq<u8>, EntryKind>,
    f2: Map<Seq<u8>, EntryKind>,
    md: Seq<u8>,
    outs: Seq<Seq<u8>>,
)
    requires
        forall|q: Seq<u8>| #[trigger] f1.contains_key(q) ==> m.contains_key(q) && f1[q] == m[q],
        forall|q: Seq<u8>| #[trigger] removed_file(m, md, outs, q) ==> !f1.contains_key(q),
        forall|q: Seq<u8>| #[trigger] f2.contains_key(q) ==> f1.contains_key(q) && f2[q] == f1[q],
        forall|q: Seq<u8>| #[trigger]
            f1.contains_key(q) && !removed_file(f1, md, outs, q) ==> (f2.contains_key(q) <==> !(
            is_candidate(f1, md, outs, q) && subtree_empty(f2, q))),
    ensures
        f2 == f1,
        forall|r: Seq<u8>| !(#[trigger] is_marker_entry(f1, md, r)),
{
    assert forall|r: Seq<u8>| !(#[trigger] is_marker_entry(f1, md, r)) by {
        if is_marker_entry(f1, md, r) {
            assert(f1.contains_key(r));
            assert(is_marker_entry(m, md, r));
            assert(removed_file(m, md, outs, r));
            assert(false);
        }
    }
    assert forall|q: Seq<u8>| #[trigger] f1.contains_key(q) implies f2.contains_key(q) by {
        if removed_file(f1, md, outs, q) {
            if m.contains_key(q) && is_victim(f1, md, outs, q) {
                let (r, i) = choose|r: Seq<u8>, i: int|
                    #![trigger victim_of(md, outs[i], r)]
                    is_marker_entry(f1, md, r) && 0 <= i < outs.len() && q == victim_of(
                        md,
                        outs[i],
                        r,
                    );
                assert(!is_marker_entry(f1, md, r));
                assert(false);
            }
            assert(false);
        }
        if is_candidate(f1, md, outs, q) {
            if exists|r: Seq<u8>| #[trigger] is_marker_entry(f1, md, r) && in_chain(q, md, r) {
                let r = choose|r: Seq<u8>| #[trigger] is_marker_entry(f1, md, r) && in_chain(q, md, r);
                assert(false);
            } else {
                let (r, i) = choose|r: Seq<u8>, i: int|
                    #![trigger in_chain(q, outs[i], victim_of(md, outs[i], r))]
                    is_marker_entry(f1, md, r) && 0 <= i < outs.len() && f1.contains_key(
                        victim_of(md, outs[i], r),
                    ) && in_chain(q, outs[i], victim_of(md, outs[i], r));
                assert(false);
            }
        }
    }
    assert(f1 =~= f2);
}

/// Promotion followed by cleanup against the same directories undoes the
/// promotion: what the output tree held beforehand it holds afterwards with
/// unchanged kinds, and every artifact, marker, and promoted copy is gone.
/// The directories promotion created on the way are reconsidered by the same
/// pass and fall away as they empty.
pub proof fn lemma_promote_clean_round_trip(
    m: Map<Seq<u8>, EntryKind>,
    f1: Map<Seq<u8>, EntryKind>,
    f2: Map<Seq<u8>, EntryKind>,
    bd: Seq<u8>,
    out: Seq<u8>,
    a: Seq<u8>,
)
    requires
        map_wf(m),
        promote_pre(m, bd, out),
        // the build tree holds no marker-suffixed entry beforehand
        forall|q: Seq<u8>|
            m.contains_key(q) && #[trigger] strictly_under(q, bd) ==> !has_marker_suffix(q),
        // the promoted paths and the directories on the way to them are fresh
        forall|b: Seq<u8>| #[trigger]
            is_artifact_entry(m, bd, b) ==> !m.contains_key(rebase(b, bd, out)) && forall|q: Seq<u8>|
                #[trigger] in_chain(q, out, rebase(b, bd, out)) ==> !m.contains_key(q),
        // f1 is the promoted tree
        forall|q: Seq<u8>| #[trigger] f1.contains_key(q) <==> promoted_contains(m, bd, out, q),
        forall|q: Seq<u8>| #[trigger] f1.contains_key(q) ==> f1[q] == promoted_kind(m, bd, out, q),
        // f2 is the tree after cleaning f1 against the same directories
        forall|q: Seq<u8>| #[trigger] f2.contains_key(q) ==> f1.contains_key(q) && f2[q] == f1[q],
        forall|q: Seq<u8>| #[trigger]
            removed_file(f1, bd, seq![out], q) ==> !f2.contains_key(q),
        forall|q: Seq<u8>| #[trigger]
            f1.contains_key(q) && !removed_file(f1, bd, seq![out], q) ==> (f2.contains_key(q) <==> !(
            is_candidate(f1, bd, seq![out], q) && subtree_empty(f2, q))),
    ensures
        // what the output tree held beforehand it holds afterwards, unchanged
        forall|q: Seq<u8>|
            m.contains_key(q) && #[trigger] strictly_under(q, out) ==> f2.contains_key(q) && f2[q]
                == m[q],
        // the promotion of `a` is undone
        is_artifact_entry(m, bd, a) ==> !f2.contains_key(a) && !f2.contains_key(marker_path(a))
            && !f2.contains_key(rebase(a, bd, out)),
{
    let outs = seq![out];
    assert(outs[0] == out);

    // Every marker of the promoted tree is the marker of an artifact.
    assert forall|r: Seq<u8>| #[trigger]
        is_marker_entry(f1, bd, r) implies is_artifact_entry(m, bd, strip_marker_suffix(r))
        && valid_path(strip_marker_suffix(r)) && marker_path(strip_marker_suffix(r)) == r by {
        assert(f1.contains_key(r));
        lemma_strip_append(r);
        if m.contains_key(r) && !is_artifact_entry(m, bd, r) {
            assert(!has_marker_suffix(r));
        }
        if strictly_under(r, out) {
            lemma_disjoint_dirs(r, bd, out);
        }
        assert(has_marker_suffix(r) && is_artifact_entry(m, bd, strip_marker_suffix(r)));
        assert(m.contains_key(strip_marker_suffix(r)));
    }

    // Prior entries of the output tree survive with their kinds.
    assert forall|q: Seq<u8>|
        m.contains_key(q) && #[trigger] strictly_under(q, out) implies f2.contains_key(q) && f2[q]
            == m[q] by {
        if is_artifact_entry(m, bd, q) {
            lemma_disjoint_dirs(q, bd, out);
        }
        if has_marker_suffix(q) && is_artifact_entry(m, bd, strip_marker_suffix(q)) {
            lemma_strip_append(q);
            lemma_marker_under(strip_marker_suffix(q), bd);
            lemma_disjoint_dirs(q, bd, out);
        }
        if is_artifact_entry(m, bd, rebase(q, out, bd)) {
            lemma_rebase_roundtrip(q, out, bd);
            assert(!m.contains_key(rebase(rebase(q, out, bd), bd, out)));
            assert(false);
        }
        if exists|b: Seq<u8>| #[trigger]
            is_artifact_entry(m, bd, b) && strictly_under(rebase(b, bd, out), q) {
            let b = choose|b: Seq<u8>| #[trigger]
                is_artifact_entry(m, bd, b) && strictly_under(rebase(b, bd, out), q);
            lemma_rebase_valid(b, bd, out);
            assert(in_chain(q, out, rebase(b, bd, out)));
            assert(!m.contains_key(q));
            assert(false);
        }
        assert(promoted_contains(m, bd, out, q));
        assert(f1.contains_key(q));
        assert(f1[q] == promoted_kind(m, bd, out, q));
        assert(promoted_kind(m, bd, out, q) == m[q]);
        // it is neither a marker nor a named artifact of the cleanup
        assert(!removed_file(f1, bd, outs, q)) by {
            if is_marker_entry(f1, bd, q) {
                lemma_disjoint_dirs(q, bd, out);
            }
            if is_victim(f1, bd, outs, q) {
                let (r, i) = choose|r: Seq<u8>, i: int|
                    #![trigger victim_of(bd, outs[i], r)]
                    is_marker_entry(f1, bd, r) && 0 <= i < outs.len() && q == victim_of(
                        bd,
                        outs[i],
                        r,
                    );
                assert(q == rebase(strip_marker_suffix(r), bd, out));
                assert(is_artifact_entry(m, bd, strip_marker_suffix(r)));
                assert(!m.contains_key(q));
                assert(false);
            }
        }
        // nor a reconsidered directory, which are all freshly created
        assert(!is_candidate(f1, bd, outs, q)) by {
            if exists|r: Seq<u8>| #[trigger] is_marker_entry(f1, bd, r) && in_chain(q, bd, r) {
                let r = choose|r: Seq<u8>| #[trigger] is_marker_entry(f1, bd, r) && in_chain(q, bd, r);
                lemma_disjoint_dirs(q, bd, out);
            }
            if exists|r: Seq<u8>, i: int|
                #![trigger in_chain(q, outs[i], victim_of(bd, outs[i], r))]
                is_marker_entry(f1, bd, r) && 0 <= i < outs.len() && f1.contains_key(
                    victim_of(bd, outs[i], r),
                ) && in_chain(q, outs[i], victim_of(bd, outs[i], r)) {
                let (r, i) = choose|r: Seq<u8>, i: int|
                    #![trigger in_chain(q, outs[i], victim_of(bd, outs[i], r))]
                    is_marker_entry(f1, bd, r) && 0 <= i < outs.len() && f1.contains_key(
                        victim_of(bd, outs[i], r),
                    ) && in_chain(q, outs[i], victim_of(bd, outs[i], r));
                let b = strip_marker_suffix(r);
                assert(victim_of(bd, outs[i], r) == rebase(b, bd, out));
                assert(in_chain(q, out, rebase(b, bd, out)));
                assert(!m.contains_key(q));
                assert(false);
            }
        }
    }

    // The promotion of `a` is undone.
    if is_artifact_entry(m, bd, a) {
        lemma_promotion_tracks_artifacts(m, f1, bd, out, a);
        lemma_marker_path_facts(a);
        lemma_rebase_valid(a, bd, out);
        assert(is_marker_entry(f1, bd, marker_path(a))) by {
            lemma_marker_under(a, bd);
        }
        assert(removed_file(f1, bd, outs, marker_path(a)));
        assert(!f2.contains_key(marker_path(a)));
        assert(victim_of(bd, outs[0], marker_path(a)) == rebase(a, bd, out)) by {
            lemma_marker_path_facts(a);
        }
        assert(is_victim(f1, bd, outs, rebase(a, bd, out)));
        assert(removed_file(f1, bd, outs, rebase(a, bd, out)));
        assert(!f2.contains_key(rebase(a, bd, out)));
        assert(!f2.contains_key(a));
    }
}


/// Something of the set lies strictly under `q`.
#[verifier::opaque]
spec fn has_strictly_lower(s: Set<Seq<u8>>, q: Seq<u8>) -> bool {
    exists|p: Seq<u8>| s.contains(p) && strictly_under(p, q)
}

/// A finite set in which everything has something strictly under it holds
/// nothing at all.
proof fn lemma_no_descending_set(s: Set<Seq<u8>>)
    requires
        s.finite(),
        forall|q: Seq<u8>| #[trigger] s.contains(q) ==> has_strictly_lower(s, q),
    ensures
        forall|q: Seq<u8>| !(#[trigger] s.contains(q)),
    decreases s.len(),
{
    if exists|q: Seq<u8>| s.contains(q) {
        let q = choose|q: Seq<u8>| s.contains(q);
        assert(exists|p: Seq<u8>| s.contains(p) && strictly_under(p, q)) by {
            reveal(has_strictly_lower);
        }
        let t = Set::new(|p: Seq<u8>| s.contains(p) && strictly_under(p, q));
        assert(t.subset_of(s));
        assert(!t.contains(q));
        t.lemma_subset_not_in_lt(s, q);
        vstd::set_lib::lemma_len_subset(t, s);
        assert forall|p: Seq<u8>| #[trigger] t.contains(p) implies has_strictly_lower(t, p) by {
            assert(s.contains(p));
            assert(exists|p2: Seq<u8>| s.contains(p2) && strictly_under(p2, p)) by {
                reveal(has_strictly_lower);
            }
            let p2 = choose|p2: Seq<u8>| s.contains(p2) && strictly_under(p2, p);
            lemma_under_trans(p2, p, q);
            assert(t.contains(p2) && strictly_under(p2, p));
            assert(has_strictly_lower(t, p)) by {
                reveal(has_strictly_lower);
            }
        }
        lemma_no_descending_set(t);
        let p = choose|p: Seq<u8>| s.contains(p) && strictly_under(p, q);
        assert(t.contains(p));
        assert(false);
    }
}

/// The rest of the round trip: after promotion and cleanup nothing remains
/// under the output tree that the tree did not hold beforehand, and nothing
/// at all remains inside the build tree, provided every directory of the
/// build tree held an artifact.
#[verifier::rlimit(100)]
#[verifier::spinoff_prover]
pub proof fn lemma_round_trip_removes_created(
    m: Map<Seq<u8>, EntryKind>,
    f1: Map<Seq<u8>, EntryKind>,
    f2: Map<Seq<u8>, EntryKind>,
    bd: Seq<u8>,
    out: Seq<u8>,
)
    requires
        map_wf(m),
        promote_pre(m, bd, out),
        forall|q: Seq<u8>|
            m.contains_key(q) && #[trigger] strictly_under(q, bd) ==> !has_marker_suffix(q),
        forall|b: Seq<u8>| #[trigger]
            is_artifact_entry(m, bd, b) ==> !m.contains_key(rebase(b, bd, out)) && forall|q: Seq<u8>|
                #[trigger] in_chain(q, out, rebase(b, bd, out)) ==> !m.contains_key(q),
        forall|q: Seq<u8>|
            m.contains_key(q) && #[trigger] strictly_under(q, bd) && m[q] == EntryKind::Dir
                ==> exists|b: Seq<u8>| is_artifact_entry(m, bd, b) && strictly_under(b, q),
        forall|q: Seq<u8>| #[trigger] f1.contains_key(q) <==> promoted_contains(m, bd, out, q),
        forall|q: Seq<u8>| #[trigger] f1.contains_key(q) ==> f1[q] == promoted_kind(m, bd, out, q),
        forall|q: Seq<u8>| #[trigger] f2.contains_key(q) ==> f1.contains_key(q) && f2[q] == f1[q],
        forall|q: Seq<u8>| #[trigger]
            removed_file(f1, bd, seq![out], q) ==> !f2.contains_key(q),
        forall|q: Seq<u8>| #[trigger]
            f1.contains_key(q) && !removed_file(f1, bd, seq![out], q) ==> (f2.contains_key(q) <==> !(
            is_candidate(f1, bd, seq![out], q) && subtree_empty(f2, q))),
        f2.dom().finite(),
    ensures
        forall|q: Seq<u8>|
            #[trigger] strictly_under(q, out) && f2.contains_key(q) ==> m.contains_key(q),
        forall|q: Seq<u8>| #[trigger] strictly_under(q, bd) ==> !f2.contains_key(q),
{
    let outs = seq![out];
    assert(outs[0] == out);

    // Every marker of the promoted tree is the marker of an artifact, and is
    // itself held by the promoted tree.
    assert forall|b: Seq<u8>| #[trigger]
        is_artifact_entry(m, bd, b) implies is_marker_entry(f1, bd, marker_path(b)) by {
        lemma_promotion_tracks_artifacts(m, f1, bd, out, b);
        lemma_marker_path_facts(b);
        lemma_marker_under(b, bd);
    }

    let s = Set::new(
        |q: Seq<u8>|
            f2.contains_key(q) && ((strictly_under(q, out) && !m.contains_key(q))
                || strictly_under(q, bd)),
    );
    assert(s.subset_of(f2.dom()));
    vstd::set_lib::lemma_len_subset(s, f2.dom());

    assert forall|q: Seq<u8>| #[trigger] s.contains(q) implies has_strictly_lower(s, q) by {
        assert(f2.contains_key(q) && f1.contains_key(q));
        assert(!removed_file(f1, bd, outs, q));
        if strictly_under(q, out) && !m.contains_key(q) {
            // a freshly created path under the output tree: it can only be a
            // directory created on the way to some promoted artifact
            if has_marker_suffix(q) && is_artifact_entry(m, bd, strip_marker_suffix(q)) {
                lemma_strip_append(q);
                lemma_marker_under(strip_marker_suffix(q), bd);
                lemma_disjoint_dirs(q, bd, out);
            }
            if is_artifact_entry(m, bd, rebase(q, out, bd)) {
                // then the cleanup names it and removes it
                let b = rebase(q, out, bd);
                lemma_rebase_roundtrip(q, out, bd);
                lemma_marker_path_facts(b);
                assert(victim_of(bd, outs[0], marker_path(b)) == rebase(b, bd, out));
                assert(is_victim(f1, bd, outs, q));
                assert(removed_file(f1, bd, outs, q));
                assert(false);
            }
            let b = choose|b: Seq<u8>| #[trigger]
                is_artifact_entry(m, bd, b) && strictly_under(rebase(b, bd, out), q);
            assert(f1.contains_key(rebase(b, bd, out))) by {
                lemma_promotion_tracks_artifacts(m, f1, bd, out, b);
            }
            assert(victim_of(bd, outs[0], marker_path(b)) == rebase(b, bd, out)) by {
                lemma_marker_path_facts(b);
            }
            assert(is_candidate(f1, bd, outs, q)) by {
                assert(is_marker_entry(f1, bd, marker_path(b)));
                assert(in_chain(q, outs[0], victim_of(bd, outs[0], marker_path(b))));
            }
            assert(!subtree_empty(f2, q));
            let p = choose|p: Seq<u8>| #[trigger] f2.contains_key(p) && strictly_under(p, q);
            lemma_under_trans(p, q, out);
            assert(!m.contains_key(p)) by {
                if m.contains_key(p) {
                    assert(m.contains_key(q) && m[q] == EntryKind::Dir);
                }
            }
            assert(s.contains(p) && strictly_under(p, q));
            assert(has_strictly_lower(s, q)) by {
                reveal(has_strictly_lower);
            }
        } else {
            // a surviving path inside the build tree: a directory that held
            // an artifact, so it was reconsidered and is not empty
            assert(strictly_under(q, bd));
            if has_marker_suffix(q) && is_artifact_entry(m, bd, strip_marker_suffix(q)) {
                assert(is_marker_entry(f1, bd, q)) by {
                    lemma_strip_append(q);
                    lemma_marker_under(strip_marker_suffix(q), bd);
                }
                assert(removed_file(f1, bd, outs, q));
                assert(false);
            }
            if strictly_under(q, out) {
                lemma_disjoint_dirs(q, bd, out);
            }
            assert(!strictly_under(q, out));
            assert(m.contains_key(q) && !is_artifact_entry(m, bd, q));
            assert(m[q] == EntryKind::Dir) by {
                assert(!has_marker_suffix(q));
            }
            let b = choose|b: Seq<u8>| is_artifact_entry(m, bd, b) && strictly_under(b, q);
            assert(is_candidate(f1, bd, outs, q)) by {
                assert(is_marker_entry(f1, bd, marker_path(b)));
                assert(strictly_under(marker_path(b), q)) by {
                    lemma_marker_path_facts(b);
                    lemma_marker_under(b, q);
                }
                assert(in_chain(q, bd, marker_path(b)));
            }
            assert(!subtree_empty(f2, q));
            let p = choose|p: Seq<u8>| #[trigger] f2.contains_key(p) && strictly_under(p, q);
            lemma_under_trans(p, q, bd);
            assert(s.contains(p) && strictly_under(p, q));
            assert(has_strictly_lower(s, q)) by {
                reveal(has_strictly_lower);
            }
        }
    }
    lemma_no_descending_set(s);
    assert forall|q: Seq<u8>|
        #[trigger] strictly_under(q, out) && f2.contains_key(q) implies m.contains_key(q) by {
        if !m.contains_key(q) {
            assert(s.contains(q));
        }
    }
    assert forall|q: Seq<u8>| #[trigger] strictly_under(q, bd) implies !f2.contains_key(q) by {
        if f2.contains_key(q) {
            assert(s.contains(q));
        }
    }
}


/// The directories on the way from `top` down to `dest` hold nothing but
/// directories.
fn chain_clear(fs: &FsModel, top: &Vec<u8>, dest: &Vec<u8>) -> (r: bool)
    requires
        fs.wf(),
        valid_path(dest@),
        strictly_under(dest@, top@),
    ensures
        r == (forall|q: Seq<u8>| #[trigger]
            in_chain(q, top@, dest@) ==> !fs@.contains_key(q) || fs@[q] == EntryKind::Dir),
{
    let dlen = dest.len();
    proof {
        assert(top@.len() + 1 < dest@.len());
    }
    let mut pos: usize = top.len() + 1;
    while pos < dlen
        invariant
            fs.wf(),
            dlen == dest@.len(),
            valid_path(dest@),
            strictly_under(dest@, top@),
            top@.len() + 1 <= pos <= dest@.len(),
            forall|q: Seq<u8>| #[trigger]
                in_chain(q, top@, dest@) && q.len() < pos ==> !fs@.contains_key(q) || fs@[q]
                    == EntryKind::Dir,
        decreases dest@.len() - pos,
    {
        if dest[pos] == SLASH {
            let mut qv: Vec<u8> = Vec::new();
            push_range(&mut qv, dest, 0, pos);
            proof {
                assert(qv@ =~= dest@.subrange(0, pos as int));
                assert(dest@[top@.len() as int] == SLASH);
                if pos == top@.len() + 1 {
                    assert(false);
                }
                if pos + 1 == dest@.len() {
                    assert(dest@[dest@.len() - 1] == SLASH);
                    assert(false);
                }
                assert(qv@.subrange(0, top@.len() as int) =~= dest@.subrange(0, top@.len() as int));
                assert(strictly_under(qv@, top@));
                assert(dest@.subrange(0, qv@.len() as int) =~= qv@);
                assert(strictly_under(dest@, qv@));
                assert(in_chain(qv@, top@, dest@));
            }
            match fs.lookup(&qv) {
                Some(EntryKind::Dir) => {
                    proof {
                        assert forall|q: Seq<u8>| #[trigger]
                            in_chain(q, top@, dest@) && q.len() < pos + 1 implies !fs@.contains_key(
                            q,
                        ) || fs@[q] == EntryKind::Dir by {
                            if q.len() == pos {
                                assert(q =~= dest@.subrange(0, pos as int));
                            }
                        }
                    }
                },
                Some(_) => {
                    return false;
                },
                None => {
                    proof {
                        assert forall|q: Seq<u8>| #[trigger]
                            in_chain(q, top@, dest@) && q.len() < pos + 1 implies !fs@.contains_key(
                            q,
                        ) || fs@[q] == EntryKind::Dir by {
                            if q.len() == pos {
                                assert(q =~= dest@.subrange(0, pos as int));
                            }
                        }
                    }
                },
            }
        } else {
            proof {
                assert forall|q: Seq<u8>| #[trigger]
                    in_chain(q, top@, dest@) && q.len() < pos + 1 implies !fs@.contains_key(q)
                    || fs@[q] == EntryKind::Dir by {
                    if q.len() == pos {
                        assert(dest@[q.len() as int] == SLASH);
                    }
                }
            }
        }
        pos += 1;
    }
    proof {
        assert forall|q: Seq<u8>| #[trigger]
            in_chain(q, top@, dest@) implies !fs@.contains_key(q) || fs@[q] == EntryKind::Dir by {
            assert(q.len() + 1 < dest@.len());
        }
    }
    true
}

/// Does the tree admit promotion from `build_dir` into `output_dir`? The
/// caller tests this before asking for a promotion.
pub fn check_promote_pre(fs: &FsModel, build_dir: &Vec<u8>, output_dir: &Vec<u8>) -> (r: bool)
    requires
        fs.wf(),
    ensures
        r == promote_pre(fs@, build_dir@, output_dir@),
{
    if !is_valid_path(build_dir) || !is_valid_path(output_dir) {
        return false;
    }
    if !(matches!(fs.lookup(build_dir), Some(EntryKind::Dir))) {
        return false;
    }
    if !(matches!(fs.lookup(output_dir), Some(EntryKind::Dir))) {
        return false;
    }
    if is_strictly_under(build_dir, output_dir) || is_strictly_under(output_dir, build_dir)
        || bytes_eq(build_dir, output_dir) {
        return false;
    }
    let ghost m = fs@;
    let ghost bd = build_dir@;
    let ghost out = output_dir@;
    let arts = fs.find_files(build_dir, FileFilter::Artifacts);
    let mut k: usize = 0;
    while k < arts.len()
        invariant
            fs.wf(),
            m == fs@ && bd == build_dir@ && out == output_dir@,
            valid_path(bd) && valid_path(out),
            m.contains_key(bd) && m[bd] == EntryKind::Dir,
            m.contains_key(out) && m[out] == EntryKind::Dir,
            separate_dirs(bd, out),
            k <= arts@.len(),
            forall|p: Seq<u8>| #[trigger]
                arts.deep_view().contains(p) <==> is_artifact_entry(m, bd, p),
            forall|i: int|
                0 <= i < k ==> promote_ok_at(m, bd, out, #[trigger] arts.deep_view()[i]),
        decreases arts@.len() - k,
    {
        let a = &arts[k];
        proof {
            assert(arts.deep_view()[k as int] == a@);
            assert(arts.deep_view().contains(a@));
            assert(is_artifact_entry(m, bd, a@));
            assert(valid_path(a@));
            lemma_marker_path_facts(a@);
            lemma_rebase_valid(a@, bd, out);
        }
        let marker = append_marker_suffix(a);
        match fs.lookup(&marker) {
            None => {},
            Some(EntryKind::File) => {},
            Some(_) => {
                proof {
                    assert(!promote_ok_at(m, bd, out, a@));
                }
                return false;
            },
        }
        let dest = rebase_exec(a, build_dir.len(), output_dir, 0);
        proof {
            assert(dest@ == rebase(a@, bd, out));
        }
        if matches!(fs.lookup(&dest), Some(EntryKind::Dir)) {
            proof {
                assert(!promote_ok_at(m, bd, out, a@));
            }
            return false;
        }
        if !chain_clear(fs, output_dir, &dest) {
            proof {
                assert(!promote_ok_at(m, bd, out, a@));
            }
            return false;
        }
        proof {
            assert(promote_ok_at(m, bd, out, a@));
        }
        k += 1;
    }
    proof {
        assert forall|a: Seq<u8>| #[trigger]
            is_artifact_entry(m, bd, a) implies promote_ok_at(m, bd, out, a) by {
            assert(arts.deep_view().contains(a));
            let i = choose|i: int| 0 <= i < arts.deep_view().len() && arts.deep_view()[i] == a;
            assert(promote_ok_at(m, bd, out, arts.deep_view()[i]));
        }
        assert(promote_pre(m, bd, out));
    }
    true
}

/// Does the tree admit a cleanup pass for `marker_dir` against the output
/// directories? The caller tests this before asking for a cleanup.
pub fn check_clean_pre(fs: &FsModel, marker_dir: &Vec<u8>, output_dirs: &Vec<Vec<u8>>) -> (r: bool)
    requires
        fs.wf(),
    ensures
        r == clean_pre(fs@, marker_dir@, output_dirs.deep_view()),
{
    let ghost m = fs@;
    let ghost md = marker_dir@;
    let ghost outs = output_dirs.deep_view();
    if !is_valid_path(marker_dir) {
        return false;
    }
    if !(matches!(fs.lookup(marker_dir), Some(EntryKind::Dir))) {
        return false;
    }
    let mut j: usize = 0;
    while j < output_dirs.len()
        invariant
            fs.wf(),
            m == fs@ && md == marker_dir@ && outs == output_dirs.deep_view(),
            valid_path(md),
            m.contains_key(md) && m[md] == EntryKind::Dir,
            j <= outs.len(),
            forall|i: int|
                0 <= i < j ==> valid_path(#[trigger] outs[i]) && m.contains_key(outs[i])
                    && m[outs[i]] == EntryKind::Dir && separate_dirs(md, outs[i]),
        decreases outs.len() - j,
    {
        let od = &output_dirs[j];
        proof {
            assert(outs[j as int] == od@);
        }
        if !is_valid_path(od) {
            return false;
        }
        if !(matches!(fs.lookup(od), Some(EntryKind::Dir))) {
            return false;
        }
        if is_strictly_under(marker_dir, od) || is_strictly_under(od, marker_dir) || bytes_eq(
            marker_dir,
            od,
        ) {
            return false;
        }
        j += 1;
    }
    let markers = fs.find_files(marker_dir, FileFilter::Markers);
    let mut k: usize = 0;
    while k < markers.len()
        invariant
            fs.wf(),
            m == fs@ && md == marker_dir@ && outs == output_dirs.deep_view(),
            valid_path(md),
            m.contains_key(md) && m[md] == EntryKind::Dir,
            forall|i: int|
                0 <= i < outs.len() ==> valid_path(#[trigger] outs[i]) && m.contains_key(outs[i])
                    && m[outs[i]] == EntryKind::Dir && separate_dirs(md, outs[i]),
            k <= markers@.len(),
            forall|p: Seq<u8>| #[trigger]
                markers.deep_view().contains(p) <==> is_marker_entry(m, md, p),
            forall|i: int|
                0 <= i < k ==> strictly_under(
                    strip_marker_suffix(#[trigger] markers.deep_view()[i]),
                    md,
                ) && valid_path(strip_marker_suffix(markers.deep_view()[i])),
            forall|i: int, oi: int|
                #![trigger victim_of(md, outs[oi], markers.deep_view()[i])]
                0 <= i < k && 0 <= oi < outs.len() && m.contains_key(
                    victim_of(md, outs[oi], markers.deep_view()[i]),
                ) && m[victim_of(md, outs[oi], markers.deep_view()[i])] == EntryKind::Dir
                    ==> subtree_empty(m, victim_of(md, outs[oi], markers.deep_view()[i])),
        decreases markers@.len() - k,
    {
        let rv = &markers[k];
        proof {
            assert(markers.deep_view()[k as int] == rv@);
            assert(markers.deep_view().contains(rv@));
            assert(is_marker_entry(m, md, rv@));
            lemma_strip_append(rv@);
        }
        let mut stem: Vec<u8> = Vec::new();
        push_range(&mut stem, rv, 0, rv.len() - 16);
        proof {
            assert(stem@ =~= strip_marker_suffix(rv@));
        }
        if !is_valid_path(&stem) || !is_strictly_under(&stem, marker_dir) {
            return false;
        }
        let mut oi: usize = 0;
        while oi < output_dirs.len()
            invariant
                fs.wf(),
                m == fs@ && md == marker_dir@ && outs == output_dirs.deep_view(),
                k < markers@.len(),
                rv@ == markers.deep_view()[k as int],
                is_marker_entry(m, md, rv@),
                strictly_under(strip_marker_suffix(rv@), md),
                strip_marker_suffix(rv@).len() == rv@.len() - 16,
                oi <= outs.len(),
                forall|o2: int|
                    #![trigger victim_of(md, outs[o2], rv@)]
                    0 <= o2 < oi && m.contains_key(victim_of(md, outs[o2], rv@)) && m[victim_of(
                        md,
                        outs[o2],
                        rv@,
                    )] == EntryKind::Dir ==> subtree_empty(m, victim_of(md, outs[o2], rv@)),
            decreases outs.len() - oi,
        {
            let od = &output_dirs[oi];
            proof {
                assert(outs[oi as int] == od@);
            }
            let v = rebase_exec(rv, marker_dir.len(), od, 16);
            proof {
                assert(v@ =~= victim_of(md, od@, rv@));
            }
            if matches!(fs.lookup(&v), Some(EntryKind::Dir)) {
                if fs.any_strictly_under(&v) {
                    proof {
                        assert(m.contains_key(victim_of(md, outs[oi as int], rv@)));
                        assert(m[victim_of(md, outs[oi as int], rv@)] == EntryKind::Dir);
                        assert(!subtree_empty(m, victim_of(md, outs[oi as int], rv@)));
                    }
                    return false;
                }
            }
            oi += 1;
        }
        k += 1;
    }
    proof {
        assert forall|r2: Seq<u8>| #[trigger]
            is_marker_entry(m, md, r2) implies strictly_under(strip_marker_suffix(r2), md)
            && valid_path(strip_marker_suffix(r2)) by {
            assert(markers.deep_view().contains(r2));
            let i = choose|i: int|
                0 <= i < markers.deep_view().len() && markers.deep_view()[i] == r2;
            assert(strictly_under(strip_marker_suffix(markers.deep_view()[i]), md));
        }
        assert forall|r2: Seq<u8>, oi2: int|
            #![trigger victim_of(md, outs[oi2], r2)]
            is_marker_entry(m, md, r2) && 0 <= oi2 < outs.len() && m.contains_key(
                victim_of(md, outs[oi2], r2),
            ) && m[victim_of(md, outs[oi2], r2)] == EntryKind::Dir implies subtree_empty(
            m,
            victim_of(md, outs[oi2], r2),
        ) by {
            assert(markers.deep_view().contains(r2));
            let i = choose|i: int|
                0 <= i < markers.deep_view().len() && markers.deep_view()[i] == r2;
            assert(m.contains_key(victim_of(md, outs[oi2], markers.deep_view()[i])));
        }
        assert(clean_pre(m, md, outs));
    }
    true
}

/// Does the tree admit creating the marker directory of this target? The
/// caller tests this before asking for it.
pub fn check_marker_dir_pre(
    fs: &FsModel,
    kind: &BuildType,
    name: &Vec<u8>,
    arch: &Vec<u8>,
    state_dir: &Vec<u8>,
) -> (r: bool)
    requires
        fs.wf(),
    ensures
        r == marker_dir_pre(fs@, *kind, name@, arch@, state_dir@),
{
    if !is_valid_path(state_dir) || !is_valid_segment(arch) || !is_valid_segment(name) {
        return false;
    }
    if !(matches!(fs.lookup(state_dir), Some(EntryKind::Dir))) {
        return false;
    }
    let prefix = kind_prefix_vec(kind);
    let p1 = join_path(state_dir, arch);
    match fs.lookup(&p1) {
        None => {},
        Some(EntryKind::Dir) => {},
        Some(_) => {
            return false;
        },
    }
    let p2 = join_path(&p1, &prefix);
    match fs.lookup(&p2) {
        None => {},
        Some(EntryKind::Dir) => {},
        Some(_) => {
            return false;
        },
    }
    let p3 = join_path(&p2, name);
    proof {
        assert(p3@ =~= marker_dir_path(*kind, name@, arch@, state_dir@));
    }
    match fs.lookup(&p3) {
        None => {},
        Some(EntryKind::Dir) => {},
        Some(_) => {
            return false;
        },
    }
    true
}

} // verus!
