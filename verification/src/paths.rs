//! Byte-string paths.
//!
//! A path is a nonempty sequence of bytes with `/` separating its segments:
//! no leading or trailing separator and no empty segment. Callers that work
//! with absolute host paths strip the leading separator before handing the
//! path to this crate and put it back on the way out.
use vstd::prelude::*;

verus! {

/// Byte value of the path separator.
pub const SLASH: u8 = 47;

/// The suffix that makes a file name a marker file name: `.buildsys_marker`.
pub open spec fn marker_suffix() -> Seq<u8> {
    seq![46u8, 98u8, 117u8, 105u8, 108u8, 100u8, 115u8, 121u8, 115u8, 95u8, 109u8, 97u8, 114u8, 107u8, 101u8, 114u8]
}

/// The marker suffix as an executable value.
pub fn marker_suffix_vec() -> (v: Vec<u8>)
    ensures
        v@ == marker_suffix(),
{
    let mut v: Vec<u8> = Vec::new();
    v.push(46);
    v.push(98);
    v.push(117);
    v.push(105);
    v.push(108);
    v.push(100);
    v.push(115);
    v.push(121);
    v.push(115);
    v.push(95);
    v.push(109);
    v.push(97);
    v.push(114);
    v.push(107);
    v.push(101);
    v.push(114);
    proof {
        assert(v@ =~= marker_suffix());
    }
    v
}

/// A well-formed path: nonempty, no leading or trailing separator, no empty segment.
pub open spec fn valid_path(p: Seq<u8>) -> bool {
    &&& p.len() > 0
    &&& p[0] != SLASH
    &&& p[p.len() - 1] != SLASH
    &&& forall|i: int| 0 <= i < p.len() - 1 ==> !(p[i] == SLASH && #[trigger] p[i + 1] == SLASH)
}

/// `p` lies strictly inside the directory `d`: `d` is a proper prefix of `p`,
/// a separator follows it, and at least one byte follows the separator.
pub open spec fn strictly_under(p: Seq<u8>, d: Seq<u8>) -> bool {
    &&& d.len() + 1 < p.len()
    &&& p.subrange(0, d.len() as int) == d
    &&& p[d.len() as int] == SLASH
}

/// `q` is a directory strictly between `top` and `p` on the way down to `p`.
pub open spec fn in_chain(q: Seq<u8>, top: Seq<u8>, p: Seq<u8>) -> bool {
    strictly_under(q, top) && strictly_under(p, q)
}

/// The path's last segment ends with the marker suffix.
pub open spec fn has_marker_suffix(p: Seq<u8>) -> bool {
    p.len() >= marker_suffix().len() && p.subrange(p.len() - marker_suffix().len(), p.len() as int)
        == marker_suffix()
}

/// The path without its trailing marker suffix.
pub open spec fn strip_marker_suffix(p: Seq<u8>) -> Seq<u8> {
    p.subrange(0, p.len() - marker_suffix().len())
}

/// Move `p` from under `from_dir` to under `to_dir`, keeping the relative part.
pub open spec fn rebase(p: Seq<u8>, from_dir: Seq<u8>, to_dir: Seq<u8>) -> Seq<u8> {
    to_dir + p.subrange(from_dir.len() as int, p.len() as int)
}

/// Strict lexicographic order on byte strings.
pub open spec fn lex_lt(a: Seq<u8>, b: Seq<u8>) -> bool
    decreases a.len(),
{
    if b.len() == 0 {
        false
    } else if a.len() == 0 {
        true
    } else if a[0] < b[0] {
        true
    } else if a[0] > b[0] {
        false
    } else {
        lex_lt(a.drop_first(), b.drop_first())
    }
}

/// Equality of two byte vectors, stated over their views.
pub fn bytes_eq(a: &Vec<u8>, b: &Vec<u8>) -> (r: bool)
    ensures
        r == (a@ == b@),
{
    if a.len() != b.len() {
        proof {
            assert(a@ != b@);
        }
        return false;
    }
    let mut i: usize = 0;
    while i < a.len()
        invariant
            i <= a.len(),
            a@.len() == b@.len(),
            forall|j: int| 0 <= j < i ==> a@[j] == b@[j],
        decreases a.len() - i,
    {
        if a[i] != b[i] {
            proof {
                assert(a@ != b@);
            }
            return false;
        }
        i += 1;
    }
    proof {
        assert(a@ =~= b@);
    }
    true
}

/// Does `p` lie strictly inside directory `d`?
pub fn is_strictly_under(p: &Vec<u8>, d: &Vec<u8>) -> (r: bool)
    ensures
        r == strictly_under(p@, d@),
{
    if p.len() <= d.len() {
        return false;
    }
    if p.len() - d.len() < 2 {
        return false;
    }
    if p[d.len()] != SLASH {
        return false;
    }
    let mut i: usize = 0;
    while i < d.len()
        invariant
            i <= d.len(),
            d@.len() + 1 < p@.len(),
            p@[d@.len() as int] == SLASH,
            forall|j: int| 0 <= j < i ==> p@[j] == d@[j],
        decreases d.len() - i,
    {
        if p[i] != d[i] {
            proof {
                assert(p@.subrange(0, d@.len() as int)[i as int] != d@[i as int]);
            }
            return false;
        }
        i += 1;
    }
    proof {
        assert(p@.subrange(0, d@.len() as int) =~= d@);
    }
    true
}

/// Does the path end with the marker suffix?
pub fn ends_with_marker(p: &Vec<u8>) -> (r: bool)
    ensures
        r == has_marker_suffix(p@),
{
    let suffix = marker_suffix_vec();
    let n = p.len();
    if n < suffix.len() {
        return false;
    }
    let base = n - suffix.len();
    let mut i: usize = 0;
    while i < suffix.len()
        invariant
            i <= suffix@.len(),
            suffix@ == marker_suffix(),
            n == p@.len(),
            base + suffix@.len() == n,
            forall|j: int| 0 <= j < i ==> p@[base + j] == suffix@[j],
        decreases suffix.len() - i,
    {
        if p[base + i] != suffix[i] {
            proof {
                assert(p@.subrange(p@.len() - marker_suffix().len(), p@.len() as int)[i as int]
                    != marker_suffix()[i as int]);
            }
            return false;
        }
        i += 1;
    }
    proof {
        assert(p@.subrange(p@.len() - marker_suffix().len(), p@.len() as int) =~= marker_suffix());
    }
    true
}

/// Append a range of `src` to `dst`.
pub fn push_range(dst: &mut Vec<u8>, src: &Vec<u8>, start: usize, end: usize)
    requires
        start <= end <= src@.len(),
    ensures
        final(dst)@ == old(dst)@ + src@.subrange(start as int, end as int),
{
    let mut i: usize = start;
    while i < end
        invariant
            start <= i <= end <= src@.len(),
            dst@ == old(dst)@ + src@.subrange(start as int, i as int),
        decreases end - i,
    {
        dst.push(src[i]);
        proof {
            assert(dst@ =~= old(dst)@ + src@.subrange(start as int, i + 1));
        }
        i += 1;
    }
}

/// Copy of `p` with the marker suffix appended.
pub fn append_marker_suffix(p: &Vec<u8>) -> (r: Vec<u8>)
    ensures
        r@ == p@ + marker_suffix(),
{
    let mut r: Vec<u8> = Vec::new();
    push_range(&mut r, p, 0, p.len());
    let suffix = marker_suffix_vec();
    push_range(&mut r, &suffix, 0, suffix.len());
    proof {
        assert(r@ =~= p@ + marker_suffix());
    }
    r
}

/// The path moved from under `from_dir` to under `to_dir`, with `drop_tail`
/// final bytes left off: `rebase` and suffix stripping in one step.
pub fn rebase_exec(p: &Vec<u8>, from_dir_len: usize, to_dir: &Vec<u8>, drop_tail: usize) -> (r: Vec<
    u8,
>)
    requires
        from_dir_len <= p@.len() - drop_tail,
        drop_tail <= p@.len(),
    ensures
        r@ == to_dir@ + p@.subrange(from_dir_len as int, p@.len() - drop_tail),
{
    let mut r: Vec<u8> = Vec::new();
    push_range(&mut r, to_dir, 0, to_dir.len());
    push_range(&mut r, p, from_dir_len, p.len() - drop_tail);
    proof {
        assert(r@ =~= to_dir@ + p@.subrange(from_dir_len as int, p@.len() - drop_tail));
    }
    r
}

/// Is `a` lexicographically before `b`?
pub fn lex_less(a: &Vec<u8>, b: &Vec<u8>) -> (r: bool)
    ensures
        r == lex_lt(a@, b@),
{
    let mut i: usize = 0;
    proof {
        lemma_lex_skip(a@, b@, 0);
    }
    loop
        invariant
            i <= a@.len(),
            i <= b@.len(),
            forall|j: int| 0 <= j < i ==> a@[j] == b@[j],
            lex_lt(a@, b@) == lex_lt(a@.skip(i as int), b@.skip(i as int)),
        decreases a@.len() - i,
    {
        proof {
            lemma_lex_skip_step(a@, b@, i as int);
        }
        if i >= b.len() {
            return false;
        }
        if i >= a.len() {
            return true;
        }
        if a[i] < b[i] {
            return true;
        }
        if a[i] > b[i] {
            return false;
        }
        i += 1;
        proof {
            lemma_lex_skip(a@, b@, i as int);
        }
    }
}

/// Peeling equal leading bytes leaves the lexicographic order unchanged.
proof fn lemma_lex_skip(a: Seq<u8>, b: Seq<u8>, i: int)
    requires
        0 <= i <= a.len(),
        i <= b.len(),
        forall|j: int| 0 <= j < i ==> a[j] == b[j],
    ensures
        lex_lt(a, b) == lex_lt(a.skip(i), b.skip(i)),
    decreases i,
{
    if i > 0 {
        assert(a.len() > 0 && b.len() > 0 && a[0] == b[0]);
        assert(lex_lt(a, b) == lex_lt(a.drop_first(), b.drop_first()));
        lemma_lex_skip(a.drop_first(), b.drop_first(), i - 1);
        assert(a.drop_first().skip(i - 1) =~= a.skip(i));
        assert(b.drop_first().skip(i - 1) =~= b.skip(i));
    } else {
        assert(a.skip(0) =~= a);
        assert(b.skip(0) =~= b);
    }
}

/// Unfold `lex_lt` one step at position `i` of two sequences that agree up to `i`.
proof fn lemma_lex_skip_step(a: Seq<u8>, b: Seq<u8>, i: int)
    requires
        0 <= i <= a.len(),
        i <= b.len(),
        forall|j: int| 0 <= j < i ==> a[j] == b[j],
    ensures
        i >= b.len() ==> !lex_lt(a, b),
        i >= a.len() && i < b.len() ==> lex_lt(a, b),
        i < a.len() && i < b.len() && a[i] < b[i] ==> lex_lt(a, b),
        i < a.len() && i < b.len() && a[i] > b[i] ==> !lex_lt(a, b),
{
    lemma_lex_skip(a, b, i);
    if i >= b.len() {
        assert(b.skip(i).len() == 0);
    } else if i >= a.len() {
        assert(a.skip(i).len() == 0 && b.skip(i).len() > 0);
    } else {
        assert(a.skip(i)[0] == a[i] && b.skip(i)[0] == b[i]);
    }
}

/// The lexicographic order is total on distinct sequences.
pub proof fn lemma_lex_total(a: Seq<u8>, b: Seq<u8>)
    ensures
        a == b || lex_lt(a, b) || lex_lt(b, a),
    decreases a.len(),
{
    if a.len() == 0 && b.len() == 0 {
        assert(a =~= b);
    } else if a.len() > 0 && b.len() > 0 && a[0] == b[0] {
        lemma_lex_total(a.drop_first(), b.drop_first());
        if a.drop_first() == b.drop_first() {
            assert(a =~= seq![a[0]] + a.drop_first());
            assert(b =~= seq![b[0]] + b.drop_first());
        }
    }
}

/// The lexicographic order is irreflexive and asymmetric.
pub proof fn lemma_lex_asym(a: Seq<u8>, b: Seq<u8>)
    ensures
        !(lex_lt(a, b) && lex_lt(b, a)),
        lex_lt(a, b) ==> a != b,
    decreases a.len(),
{
    if a.len() > 0 && b.len() > 0 && a[0] == b[0] {
        lemma_lex_asym(a.drop_first(), b.drop_first());
        if a.drop_first() == b.drop_first() {
            assert(a =~= seq![a[0]] + a.drop_first());
            assert(b =~= seq![b[0]] + b.drop_first());
        } else {
            assert(a != b);
        }
    } else if lex_lt(a, b) {
        assert(a != b);
    }
}

/// The lexicographic order is transitive.
pub proof fn lemma_lex_trans(a: Seq<u8>, b: Seq<u8>, c: Seq<u8>)
    requires
        lex_lt(a, b),
        lex_lt(b, c),
    ensures
        lex_lt(a, c),
    decreases a.len() + b.len() + c.len(),
{
    if a.len() == 0 {
        assert(c.len() > 0);
    } else {
        assert(b.len() > 0 && c.len() > 0);
        if a[0] == b[0] && b[0] == c[0] {
            lemma_lex_trans(a.drop_first(), b.drop_first(), c.drop_first());
        }
    }
}

/// A proper prefix comes lexicographically first.
pub proof fn lemma_prefix_lex_lt(a: Seq<u8>, b: Seq<u8>)
    requires
        a.len() < b.len(),
        a == b.subrange(0, a.len() as int),
    ensures
        lex_lt(a, b),
    decreases a.len(),
{
    if a.len() > 0 {
        assert(a[0] == b.subrange(0, a.len() as int)[0]);
        assert(a.drop_first() =~= b.drop_first().subrange(0, a.len() - 1));
        lemma_prefix_lex_lt(a.drop_first(), b.drop_first());
    }
}

/// A directory comes lexicographically before everything strictly under it.
pub proof fn lemma_under_lex_lt(p: Seq<u8>, d: Seq<u8>)
    requires
        strictly_under(p, d),
    ensures
        lex_lt(d, p),
{
    lemma_prefix_lex_lt(d, p);
}

/// Lying strictly under a directory is transitive.
pub proof fn lemma_under_trans(p: Seq<u8>, q: Seq<u8>, d: Seq<u8>)
    requires
        strictly_under(p, q),
        strictly_under(q, d),
    ensures
        strictly_under(p, d),
{
    assert(p.subrange(0, d.len() as int) =~= q.subrange(0, d.len() as int));
    assert(p[d.len() as int] == q[d.len() as int]);
}

/// Of two directories holding the same path, the longer lies strictly under
/// the shorter, provided the longer one is well formed.
pub proof fn lemma_two_prefixes(p: Seq<u8>, d1: Seq<u8>, d2: Seq<u8>)
    requires
        strictly_under(p, d1),
        strictly_under(p, d2),
        d1.len() < d2.len(),
        valid_path(d2),
    ensures
        strictly_under(d2, d1),
{
    assert(d2.subrange(0, d1.len() as int) =~= d1);
    assert(d2[d1.len() as int] == p[d1.len() as int]);
    if d2.len() == d1.len() + 1 {
        assert(d2[d2.len() - 1] == SLASH);
    }
}

/// Two directories, neither inside the other and not equal, share no path.
pub proof fn lemma_disjoint_dirs(p: Seq<u8>, d1: Seq<u8>, d2: Seq<u8>)
    requires
        strictly_under(p, d1),
        strictly_under(p, d2),
        !strictly_under(d1, d2),
        !strictly_under(d2, d1),
        valid_path(d1),
        valid_path(d2),
    ensures
        d1 == d2,
{
    if d1.len() < d2.len() {
        lemma_two_prefixes(p, d1, d2);
    } else if d2.len() < d1.len() {
        lemma_two_prefixes(p, d2, d1);
    } else {
        assert(d1 =~= d2);
    }
}

/// Every directory on the chain from a well-formed path up to one of its
/// enclosing directories is itself well formed.
pub proof fn lemma_chain_valid(p: Seq<u8>, q: Seq<u8>)
    requires
        valid_path(p),
        strictly_under(p, q),
        q.len() > 0,
    ensures
        valid_path(q),
{
    assert(q[0] == p[0]);
    assert(q[q.len() - 1] == p[q.len() - 1]);
    if q[q.len() - 1] == SLASH {
        let i = q.len() - 1;
        assert(p[i] == SLASH && p[i + 1] == SLASH);
        assert(false);
    }
    assert forall|i: int| 0 <= i < q.len() - 1 implies !(q[i] == SLASH && #[trigger] q[i + 1]
        == SLASH) by {
        assert(q[i] == p[i] && q[i + 1] == p[i + 1]);
    }
}


/// The full path of the marker that records `a`.
pub open spec fn marker_path(a: Seq<u8>) -> Seq<u8> {
    a + marker_suffix()
}

/// The marker suffix is sixteen bytes, none of them a separator.
pub proof fn lemma_suffix_facts()
    ensures
        marker_suffix().len() == 16,
        forall|i: int| 0 <= i < marker_suffix().len() ==> marker_suffix()[i] != SLASH,
        marker_suffix()[0] != SLASH,
{
    assert forall|i: int| 0 <= i < marker_suffix().len() implies marker_suffix()[i] != SLASH by {
        let v = marker_suffix();
        assert(v[0] == 46 && v[1] == 98 && v[2] == 117 && v[3] == 105 && v[4] == 108 && v[5] == 100
            && v[6] == 115 && v[7] == 121 && v[8] == 115 && v[9] == 95 && v[10] == 109 && v[11]
            == 97 && v[12] == 114 && v[13] == 107 && v[14] == 101 && v[15] == 114);
    }
}

/// Appending the marker suffix keeps a path well formed, marks it, and
/// stripping undoes it.
pub proof fn lemma_marker_path_facts(a: Seq<u8>)
    requires
        valid_path(a),
    ensures
        valid_path(marker_path(a)),
        has_marker_suffix(marker_path(a)),
        strip_marker_suffix(marker_path(a)) == a,
        marker_path(a).len() == a.len() + 16,
{
    lemma_suffix_facts();
    let mk = marker_path(a);
    assert(forall|i: int| 0 <= i < a.len() ==> mk[i] == a[i]);
    assert(forall|i: int| a.len() <= i < mk.len() ==> mk[i] == marker_suffix()[i - a.len()]);
    assert(mk[mk.len() - 1] == marker_suffix()[15]);
    assert forall|i: int| 0 <= i < mk.len() - 1 implies !(mk[i] == SLASH && #[trigger] mk[i + 1]
        == SLASH) by {
        if i + 1 < a.len() {
            assert(!(a[i] == SLASH && a[i + 1] == SLASH));
        } else if i + 1 >= a.len() {
            assert(mk[i + 1] == marker_suffix()[i + 1 - a.len()]);
        }
    }
    assert(mk.subrange(mk.len() - 16, mk.len() as int) =~= marker_suffix());
    assert(strip_marker_suffix(mk) =~= a);
}

/// A path with the marker suffix is the marker of what stripping leaves.
pub proof fn lemma_strip_append(q: Seq<u8>)
    requires
        has_marker_suffix(q),
    ensures
        marker_path(strip_marker_suffix(q)) == q,
        strip_marker_suffix(q).len() == q.len() - 16,
{
    lemma_suffix_facts();
    assert forall|i: int| 0 <= i < q.len() implies marker_path(strip_marker_suffix(q))[i]
        == q[i] by {
        if i >= q.len() - 16 {
            assert(q.subrange(q.len() - 16, q.len() as int)[i - (q.len() - 16)]
                == marker_suffix()[i - (q.len() - 16)]);
        }
    }
    assert(marker_path(strip_marker_suffix(q)) =~= q);
}

/// A marker sits in exactly the directories its artifact sits in.
pub proof fn lemma_marker_under(a: Seq<u8>, d: Seq<u8>)
    requires
        valid_path(a),
    ensures
        strictly_under(marker_path(a), d) <==> strictly_under(a, d),
{
    lemma_suffix_facts();
    let mk = marker_path(a);
    if strictly_under(a, d) {
        assert(mk.subrange(0, d.len() as int) =~= a.subrange(0, d.len() as int));
    }
    if strictly_under(mk, d) {
        if d.len() >= a.len() {
            assert(mk[d.len() as int] == marker_suffix()[d.len() - a.len()]);
            assert(false);
        }
        if d.len() + 1 == a.len() {
            assert(a[a.len() - 1] == mk[d.len() as int]);
            assert(false);
        }
        assert(a.subrange(0, d.len() as int) =~= mk.subrange(0, d.len() as int));
    }
}

/// Rebasing a path from one directory to another keeps it well formed and
/// puts it strictly inside the target directory.
pub proof fn lemma_rebase_valid(a: Seq<u8>, from_dir: Seq<u8>, to_dir: Seq<u8>)
    requires
        valid_path(a),
        valid_path(to_dir),
        strictly_under(a, from_dir),
    ensures
        valid_path(rebase(a, from_dir, to_dir)),
        strictly_under(rebase(a, from_dir, to_dir), to_dir),
        rebase(a, from_dir, to_dir).len() == to_dir.len() + a.len() - from_dir.len(),
{
    let r = rebase(a, from_dir, to_dir);
    assert(forall|i: int| 0 <= i < to_dir.len() ==> r[i] == to_dir[i]);
    assert(forall|i: int|
        to_dir.len() <= i < r.len() ==> r[i] == a[i - to_dir.len() + from_dir.len()]);
    assert(r[to_dir.len() as int] == a[from_dir.len() as int]);
    assert(r[r.len() - 1] == a[a.len() - 1]);
    assert forall|i: int| 0 <= i < r.len() - 1 implies !(r[i] == SLASH && #[trigger] r[i + 1]
        == SLASH) by {
        if i + 1 < to_dir.len() {
            assert(!(to_dir[i] == SLASH && to_dir[i + 1] == SLASH));
        } else if i + 1 == to_dir.len() {
            assert(r[i] == to_dir[to_dir.len() - 1]);
        } else {
            let j = i - to_dir.len() + from_dir.len();
            assert(r[i] == a[j] && r[i + 1] == a[j + 1]);
            assert(!(a[j] == SLASH && a[j + 1] == SLASH));
        }
    }
    assert(r.subrange(0, to_dir.len() as int) =~= to_dir);
}

/// Rebasing there and back returns the starting path.
pub proof fn lemma_rebase_roundtrip(a: Seq<u8>, from_dir: Seq<u8>, to_dir: Seq<u8>)
    requires
        strictly_under(a, from_dir),
    ensures
        rebase(rebase(a, from_dir, to_dir), to_dir, from_dir) == a,
{
    let r = rebase(a, from_dir, to_dir);
    assert(rebase(r, to_dir, from_dir) =~= a);
}

/// Rebasing preserves which paths sit inside which.
pub proof fn lemma_rebase_under(a: Seq<u8>, b: Seq<u8>, from_dir: Seq<u8>, to_dir: Seq<u8>)
    requires
        strictly_under(a, from_dir),
        strictly_under(b, from_dir),
    ensures
        strictly_under(rebase(a, from_dir, to_dir), rebase(b, from_dir, to_dir)) <==> strictly_under(
            a,
            b,
        ),
{
    let ra = rebase(a, from_dir, to_dir);
    let rb = rebase(b, from_dir, to_dir);
    if strictly_under(a, b) {
        assert(b.len() > from_dir.len());
        assert(forall|i: int| 0 <= i < rb.len() ==> ra[i] == rb[i]);
        assert(ra[rb.len() as int] == a[b.len() as int]);
        assert(ra.subrange(0, rb.len() as int) =~= rb);
    }
    if strictly_under(ra, rb) {
        assert(forall|i: int|
            from_dir.len() <= i < b.len() ==> a[i] == ra[i - from_dir.len() + to_dir.len()]
                && b[i] == rb[i - from_dir.len() + to_dir.len()]);
        assert(a[b.len() as int] == ra[rb.len() as int]);
        assert(a.subrange(0, b.len() as int) =~= b);
    }
}


/// One path segment: nonempty, and free of separators.
pub open spec fn is_segment(s: Seq<u8>) -> bool {
    s.len() > 0 && forall|i: int| 0 <= i < s.len() ==> s[i] != SLASH
}

/// `dir`, a separator, and one more segment.
pub fn join_path(dir: &Vec<u8>, seg: &Vec<u8>) -> (r: Vec<u8>)
    ensures
        r@ == dir@ + seq![SLASH] + seg@,
{
    let mut r: Vec<u8> = Vec::new();
    push_range(&mut r, dir, 0, dir.len());
    r.push(SLASH);
    push_range(&mut r, seg, 0, seg.len());
    proof {
        assert(r@ =~= dir@ + seq![SLASH] + seg@);
    }
    r
}

/// Joining a well-formed directory and a segment gives a well-formed path
/// directly inside the directory, whose only new separator sits between them.
pub proof fn lemma_join_facts(dir: Seq<u8>, seg: Seq<u8>)
    requires
        valid_path(dir),
        is_segment(seg),
    ensures
        valid_path(dir + seq![SLASH] + seg),
        strictly_under(dir + seq![SLASH] + seg, dir),
        forall|q: Seq<u8>| #[trigger]
            strictly_under(dir + seq![SLASH] + seg, q) ==> q == dir || strictly_under(dir, q),
{
    let p = dir + seq![SLASH] + seg;
    assert(forall|i: int| 0 <= i < dir.len() ==> p[i] == dir[i]);
    assert(p[dir.len() as int] == SLASH);
    assert(forall|i: int| dir.len() < i < p.len() ==> p[i] == seg[i - dir.len() - 1]);
    assert(p[p.len() - 1] == seg[seg.len() - 1]);
    assert forall|i: int| 0 <= i < p.len() - 1 implies !(p[i] == SLASH && #[trigger] p[i + 1]
        == SLASH) by {
        if i + 1 < dir.len() {
            assert(!(dir[i] == SLASH && dir[i + 1] == SLASH));
        } else if i + 1 == dir.len() {
            assert(p[i] == dir[dir.len() - 1]);
        } else if i == dir.len() {
            assert(p[i + 1] == seg[0]);
        } else {
            assert(p[i] == seg[i - dir.len() - 1] && p[i + 1] == seg[i - dir.len()]);
        }
    }
    assert(p.subrange(0, dir.len() as int) =~= dir);
    assert(strictly_under(p, dir));
    assert forall|q: Seq<u8>| #[trigger] strictly_under(p, q) implies q == dir || strictly_under(
        dir,
        q,
    ) by {
        if q.len() == dir.len() {
            assert(q =~= dir);
        } else if q.len() > dir.len() {
            assert(p[q.len() as int] == SLASH);
            assert(q.len() != dir.len() as int);
            assert(p[q.len() as int] == seg[q.len() - dir.len() - 1]);
            assert(false);
        } else {
            assert(q == p.subrange(0, q.len() as int));
            assert(dir.subrange(0, q.len() as int) =~= p.subrange(0, q.len() as int));
            assert(dir[q.len() as int] == p[q.len() as int]);
            if q.len() + 1 == dir.len() {
                assert(dir[dir.len() - 1] == SLASH);
            }
            assert(strictly_under(dir, q));
        }
    }
}


/// Is the byte string a well-formed path?
pub fn is_valid_path(p: &Vec<u8>) -> (r: bool)
    ensures
        r == valid_path(p@),
{
    if p.len() == 0 {
        return false;
    }
    if p[0] == SLASH || p[p.len() - 1] == SLASH {
        return false;
    }
    let n = p.len();
    let mut i: usize = 0;
    while i + 1 < n
        invariant
            n == p@.len(),
            i < p@.len(),
            p@.len() > 0,
            forall|j: int| 0 <= j < i ==> !(p@[j] == SLASH && #[trigger] p@[j + 1] == SLASH),
        decreases p@.len() - i,
    {
        if p[i] == SLASH && p[i + 1] == SLASH {
            return false;
        }
        i += 1;
    }
    true
}

/// Is the byte string one separator-free nonempty segment?
pub fn is_valid_segment(s: &Vec<u8>) -> (r: bool)
    ensures
        r == is_segment(s@),
{
    if s.len() == 0 {
        return false;
    }
    let mut i: usize = 0;
    while i < s.len()
        invariant
            i <= s@.len(),
            forall|j: int| 0 <= j < i ==> s@[j] != SLASH,
        decreases s@.len() - i,
    {
        if s[i] == SLASH {
            return false;
        }
        i += 1;
    }
    true
}

} // verus!
