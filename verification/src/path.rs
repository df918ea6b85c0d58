//! Logical paths (`root/relative`) and physical paths, and the checks that
//! keep a physical path inside its root.

use vstd::prelude::*;

use crate::text::{chars_of, chars_eq, first_index_of, contains_dot_dot, contains_seq, is_prefix_of, concat3, owned, slash, string_from_chars};
use crate::Error;

verus! {

/// The pieces of `s` between `'/'` characters, empty pieces included.
pub open spec fn segments(s: Seq<char>) -> Seq<Seq<char>>
    decreases s.len(),
{
    if s.len() == 0 {
        seq![Seq::empty()]
    } else {
        let prev = segments(s.drop_last());
        if s.last() == '/' {
            prev.push(Seq::empty())
        } else {
            prev.update(prev.len() - 1, prev.last().push(s.last()))
        }
    }
}

/// A segment that names a directory entry: not empty and not `"."`.
pub open spec fn is_normal_segment(g: Seq<char>) -> bool {
    g.len() > 0 && g != seq!['.']
}

/// The normal segments of `segs`, in order.
pub open spec fn normal_segments(segs: Seq<Seq<char>>) -> Seq<Seq<char>>
    decreases segs.len(),
{
    if segs.len() == 0 {
        Seq::empty()
    } else {
        let prev = normal_segments(segs.drop_last());
        if is_normal_segment(segs.last()) {
            prev.push(segs.last())
        } else {
            prev
        }
    }
}

/// The components of a Unix path as `std::path::Path::components` yields
/// them: a leading root is written `"/"`, a leading current-directory marker
/// of a relative path is written `"."`, empty pieces and inner `"."` pieces
/// are dropped, and every other piece (`".."` included) is kept.
pub open spec fn components(s: Seq<char>) -> Seq<Seq<char>> {
    let segs = segments(s);
    if s.len() > 0 && s[0] == '/' {
        seq![seq!['/']] + normal_segments(segs.drop_first())
    } else if segs[0] == seq!['.'] {
        seq![seq!['.']] + normal_segments(segs.drop_first())
    } else {
        normal_segments(segs)
    }
}

/// `Path::starts_with`: the components of `base` are a prefix of those of `path`.
pub open spec fn path_starts_with(path: Seq<char>, base: Seq<char>) -> bool {
    is_prefix_of(components(base), components(path))
}

/// `PathBuf::join` on Unix: an absolute `rel` replaces `base`; otherwise a
/// separator is inserted when `base` is not empty and does not end in one.
pub open spec fn join_spec(base: Seq<char>, rel: Seq<char>) -> Seq<char> {
    if rel.len() > 0 && rel[0] == '/' {
        rel
    } else if base.len() > 0 && base.last() != '/' {
        base + seq!['/'] + rel
    } else {
        base + rel
    }
}

/// The character sequences held by a vector of character vectors.
pub open spec fn rows(v: Seq<Vec<char>>) -> Seq<Seq<char>> {
    Seq::new(v.len(), |i: int| v[i]@)
}

proof fn lemma_segments_len(s: Seq<char>)
    ensures
        segments(s).len() >= 1,
        s.len() > 0 && s[0] == '/' ==> segments(s).len() >= 2,
        s.len() > 0 && s[0] == '/' ==> segments(s)[0] == Seq::<char>::empty(),
    decreases s.len(),
{
    if s.len() > 0 {
        lemma_segments_len(s.drop_last());
        if s.len() > 1 {
            assert(s.drop_last()[0] == s[0]);
        }
    }
}

proof fn lemma_normal_segments_step(segs: Seq<Seq<char>>, a: int, j: int)
    requires
        0 <= a <= j < segs.len(),
    ensures
        normal_segments(segs.subrange(a, j + 1)) == if is_normal_segment(segs[j]) {
            normal_segments(segs.subrange(a, j)).push(segs[j])
        } else {
            normal_segments(segs.subrange(a, j))
        },
{
    assert(segs.subrange(a, j + 1).drop_last() =~= segs.subrange(a, j));
}

/// `"rootname/relative/path"` → `("rootname", "relative/path")`: the text
/// before and after the first `'/'`, or `None` when there is no `'/'`.
pub fn split_logical(logical: &str) -> (r: Option<(&str, &str)>)
    ensures
        match r {
            Some((root, rel)) => root@ + seq!['/'] + rel@ == logical@ && !root@.contains('/'),
            None => !logical@.contains('/'),
        },
{
    let v = chars_of(logical);
    match first_index_of(&v, '/') {
        Some(k) => {
            assert(k < v.len());
            let root = logical.substring_char(0, k);
            let rel = logical.substring_char(k + 1, v.len());
            assert(root@ + seq!['/'] + rel@ =~= logical@);
            Some((root, rel))
        },
        None => None,
    }
}

/// Joins `relative` onto the (already canonical) root path, refusing any
/// relative path that could leave the root: one that contains `".."`, or an
/// absolute one (which `PathBuf::join` would put in the root's place). The
/// caller still canonicalizes the result and checks it with
/// [`assert_within`]. Under an absolute root the result always lies inside
/// it.
pub fn resolve(canonical_root: &str, relative: &str) -> (r: Result<String, Error>)
    ensures
        escapes_root(relative@) ==> (r matches Err(Error::PathTraversal(m)) && m@ == relative@),
        !escapes_root(relative@) ==> (r matches Ok(p) && p@ == join_spec(canonical_root@, relative@)),
        r matches Ok(p) ==> (canonical_root@.len() > 0 && canonical_root@[0] == '/' ==> path_starts_with(
            p@,
            canonical_root@,
        )),
{
    let rv = chars_of(relative);
    if contains_dot_dot(&rv) || (rv.len() > 0 && rv[0] == '/') {
        return Err(Error::PathTraversal(owned(relative)));
    }
    proof {
        if canonical_root@.len() > 0 && canonical_root@[0] == '/' {
            lemma_join_stays_inside(canonical_root@, relative@);
        }
    }
    Ok(join(canonical_root, relative))
}

/// Splitting at a `'/'` splits the segments.
proof fn lemma_segments_concat(a: Seq<char>, b: Seq<char>)
    ensures
        segments(a + seq!['/'] + b) == segments(a) + segments(b),
    decreases b.len(),
{
    if b.len() == 0 {
        assert(a + seq!['/'] + b =~= a.push('/'));
        assert(a.push('/').drop_last() =~= a);
        assert(segments(b) == seq![Seq::<char>::empty()]);
        assert(segments(a).push(Seq::empty()) =~= segments(a) + segments(b));
    } else {
        let b0 = b.drop_last();
        let x = b.last();
        lemma_segments_concat(a, b0);
        lemma_segments_len(b0);
        let s = a + seq!['/'] + b;
        assert(s.drop_last() =~= a + seq!['/'] + b0);
        assert(s.last() == x);
        assert(b.drop_last() =~= b0);
        let prev = segments(a) + segments(b0);
        if x == '/' {
            assert(prev.push(Seq::empty()) =~= segments(a) + segments(b0).push(Seq::empty()));
        } else {
            let sb = segments(b0);
            assert(prev.last() == sb.last());
            assert(prev.update(prev.len() - 1, prev.last().push(x)) =~= segments(a) + sb.update(sb.len() - 1, sb.last().push(x)));
        }
    }
}

/// Normal segments of a concatenation.
proof fn lemma_normal_concat(s: Seq<Seq<char>>, t: Seq<Seq<char>>)
    ensures
        normal_segments(s + t) == normal_segments(s) + normal_segments(t),
    decreases t.len(),
{
    if t.len() == 0 {
        assert(s + t =~= s);
        assert(normal_segments(s) + normal_segments(t) =~= normal_segments(s));
    } else {
        let t0 = t.drop_last();
        lemma_normal_concat(s, t0);
        assert((s + t).drop_last() =~= s + t0);
        assert((s + t).last() == t.last());
        if is_normal_segment(t.last()) {
            assert((normal_segments(s) + normal_segments(t0)).push(t.last()) =~= normal_segments(s) + normal_segments(t0).push(t.last()));
        }
    }
}

/// A relative path without a leading `'/'` joined onto an absolute base
/// lies inside it, component by component.
proof fn lemma_join_stays_inside(base: Seq<char>, rel: Seq<char>)
    requires
        base.len() > 0,
        base[0] == '/',
        !(rel.len() > 0 && rel[0] == '/'),
    ensures
        path_starts_with(join_spec(base, rel), base),
{
    let a = if base.last() == '/' { base.drop_last() } else { base };
    let p = join_spec(base, rel);
    assert(p =~= a + seq!['/'] + rel);
    assert(p[0] == '/');
    lemma_segments_concat(a, rel);
    lemma_segments_len(a);
    let sa = segments(a);
    assert((sa + segments(rel)).drop_first() =~= sa.drop_first() + segments(rel));
    lemma_normal_concat(sa.drop_first(), segments(rel));
    let head = seq![seq!['/']] + normal_segments(sa.drop_first());
    assert(components(p) =~= head + normal_segments(segments(rel)));
    if base.last() == '/' {
        assert(base =~= a + seq!['/'] + Seq::<char>::empty());
        lemma_segments_concat(a, Seq::<char>::empty());
        assert(segments(Seq::<char>::empty()) == seq![Seq::<char>::empty()]);
        assert((sa + seq![Seq::<char>::empty()]).drop_first() =~= sa.drop_first() + seq![Seq::<char>::empty()]);
        lemma_normal_concat(sa.drop_first(), seq![Seq::<char>::empty()]);
        let one = seq![Seq::<char>::empty()];
        assert(one.drop_last() =~= Seq::<Seq<char>>::empty());
        assert(one.last().len() == 0);
        assert(normal_segments(Seq::<Seq<char>>::empty()) == Seq::<Seq<char>>::empty());
        assert(normal_segments(one) =~= Seq::<Seq<char>>::empty());
        assert(components(base) =~= head);
    } else {
        assert(components(base) =~= head);
    }
    assert((head + normal_segments(segments(rel))).subrange(0, head.len() as int) =~= head);
}

/// `PathBuf::join` of `rel` onto `base` (see [`join_spec`]).
pub fn join(base: &str, rel: &str) -> (r: String)
    ensures
        r@ == join_spec(base@, rel@),
{
    let rv = chars_of(rel);
    let bv = chars_of(base);
    if rv.len() > 0 && rv[0] == '/' {
        owned(rel)
    } else if bv.len() > 0 && bv[bv.len() - 1] != '/' {
        concat3(base, slash(), rel)
    } else {
        let mut r = owned(base);
        r.append(rel);
        r
    }
}

/// A copy of `v[from..to]`.
fn copy_range(v: &Vec<char>, from: usize, to: usize) -> (r: Vec<char>)
    requires
        from <= to <= v@.len(),
    ensures
        r@ == v@.subrange(from as int, to as int),
{
    let mut r: Vec<char> = Vec::new();
    let mut i = from;
    while i < to
        invariant
            from <= i <= to <= v@.len(),
            r@ == v@.subrange(from as int, i as int),
        decreases to - i,
    {
        r.push(v[i]);
        assert(v@.subrange(from as int, i + 1) =~= v@.subrange(from as int, i as int).push(v@[i as int]));
        i += 1;
    }
    r
}

/// The `'/'`-separated pieces of `s` (see [`segments`]).
fn split_segments(s: &Vec<char>) -> (r: Vec<Vec<char>>)
    ensures
        rows(r@) == segments(s@),
{
    let mut done: Vec<Vec<char>> = Vec::new();
    let mut cur: Vec<char> = Vec::new();
    let mut i: usize = 0;
    assert(s@.take(0) =~= Seq::<char>::empty());
    while i < s.len()
        invariant
            i <= s@.len(),
            rows(done@).push(cur@) == segments(s@.take(i as int)),
        decreases s.len() - i,
    {
        let c = s[i];
        let ghost prev = segments(s@.take(i as int));
        assert(s@.take(i + 1).drop_last() =~= s@.take(i as int));
        assert(s@.take(i + 1).last() == c);
        if c == '/' {
            let old_cur = cur;
            done.push(old_cur);
            cur = Vec::new();
            assert(rows(done@).push(cur@) =~= prev.push(Seq::empty()));
        } else {
            cur.push(c);
            assert(rows(done@).push(cur@) =~= prev.update(prev.len() - 1, prev.last().push(c)));
        }
        i += 1;
    }
    assert(s@.take(s@.len() as int) =~= s@);
    done.push(cur);
    done
}

/// The components of the path `s` (see [`components`]).
pub fn path_components(s: &str) -> (r: Vec<Vec<char>>)
    ensures
        rows(r@) == components(s@),
{
    let v = chars_of(s);
    let segs = split_segments(&v);
    proof {
        lemma_segments_len(v@);
    }
    let dot: Vec<char> = vec!['.'];
    let root_form: Vec<char> = vec!['/'];
    assert(dot@ =~= seq!['.']);
    assert(root_form@ =~= seq!['/']);
    let mut out: Vec<Vec<char>> = Vec::new();
    let start: usize;
    if v.len() > 0 && v[0] == '/' {
        out.push(root_form);
        start = 1;
    } else if chars_eq(&segs[0], &dot) {
        out.push(dot);
        start = 1;
    } else {
        start = 0;
    }
    let ghost head = rows(out@);
    let ghost all = rows(segs@);
    assert(all.subrange(start as int, start as int) =~= Seq::<Seq<char>>::empty());
    let mut j = start;
    while j < segs.len()
        invariant
            start <= j <= segs.len(),
            start <= 1,
            all == rows(segs@),
            all.len() == segs@.len(),
            rows(out@) == head + normal_segments(all.subrange(start as int, j as int)),
        decreases segs.len() - j,
    {
        proof {
            lemma_normal_segments_step(all, start as int, j as int);
        }
        let g = &segs[j];
        let single_dot: Vec<char> = vec!['.'];
        assert(single_dot@ =~= seq!['.']);
        let keep = g.len() > 0 && !chars_eq(g, &single_dot);
        assert(g@ == all[j as int]);
        if keep {
            let ghost before = rows(out@);
            let piece = copy_range(g, 0, g.len());
            assert(g@.subrange(0, g@.len() as int) =~= g@);
            out.push(piece);
            assert(rows(out@) =~= before.push(g@));
            assert(rows(out@) =~= head + normal_segments(all.subrange(start as int, j + 1)));
        } else {
            assert(!is_normal_segment(all[j as int]));
        }
        j += 1;
    }
    assert(all.subrange(start as int, all.len() as int) =~= if start == 1 { all.drop_first() } else { all });
    assert(rows(out@) =~= components(v@));
    out
}

/// Checks that the canonical `path` lies inside `canonical_root`, comparing
/// whole components so that `/tmp/test-evil` is not taken to be inside
/// `/tmp/test`. This stops symbolic links that lead out of the root.
pub fn assert_within(canonical_root: &str, path: &str) -> (r: Result<(), Error>)
    ensures
        r is Ok <==> path_starts_with(path@, canonical_root@),
        r matches Err(e) ==> (e matches Error::PathTraversal(m) && m@ == path@),
{
    let base = path_components(canonical_root);
    let comps = path_components(path);
    let ghost b = rows(base@);
    let ghost p = rows(comps@);
    assert(b.len() == base@.len() && p.len() == comps@.len());
    if base.len() > comps.len() {
        return Err(Error::PathTraversal(owned(path)));
    }
    let mut i: usize = 0;
    while i < base.len()
        invariant
            i <= base@.len() <= comps@.len(),
            b == rows(base@),
            p == rows(comps@),
            b.len() == base@.len(),
            p.len() == comps@.len(),
            b == components(canonical_root@),
            p == components(path@),
            forall|j: int| 0 <= j < i ==> b[j] == p[j],
        decreases base.len() - i,
    {
        if !chars_eq(&base[i], &comps[i]) {
            proof {
                assert(b[i as int] == base@[i as int]@);
                assert(p[i as int] == comps@[i as int]@);
                assert(b[i as int] != p[i as int]);
                assert(p.subrange(0, b.len() as int)[i as int] == p[i as int]);
            }
            return Err(Error::PathTraversal(owned(path)));
        }
        i += 1;
    }
    assert(p.subrange(0, b.len() as int) =~= b);
    Ok(())
}

} // verus!

verus! {

/// The path that a list of components spells (`PathBuf::from_iter`): each
/// component joined onto the previous ones as by [`join_spec`].
pub open spec fn rejoin(cs: Seq<Seq<char>>) -> Seq<char>
    decreases cs.len(),
{
    if cs.len() == 0 {
        Seq::empty()
    } else {
        join_spec(rejoin(cs.drop_last()), cs.last())
    }
}

/// `Path::strip_prefix`: when `base` is a component prefix of `path`, the
/// remaining components, spelled as a path. For paths without empty or `"."`
/// pieces (canonical paths, and the paths the operating system reports) this
/// is the text of `path` after the prefix.
pub open spec fn strip_prefix_spec(path: Seq<char>, base: Seq<char>) -> Option<Seq<char>> {
    if path_starts_with(path, base) {
        Some(rejoin(components(path).skip(components(base).len() as int)))
    } else {
        None
    }
}

/// `s` with every `'\\'` turned into `'/'`.
pub open spec fn forward_slashes(s: Seq<char>) -> Seq<char> {
    Seq::new(s.len(), |i: int| if s[i] == '\\' { '/' } else { s[i] })
}

/// The text of the part of `path` below `base`, with forward slashes; what
/// `strip_prefix`, `to_string_lossy` and `replace('\\', "/")` give together.
pub open spec fn relative_text_spec(path: Seq<char>, base: Seq<char>) -> Option<Seq<char>> {
    match strip_prefix_spec(path, base) {
        Some(rel) => Some(forward_slashes(rel)),
        None => None,
    }
}

/// The part of `path` below `base`, with every `'\\'` turned into `'/'`;
/// `None` when `path` does not lie under `base` (see [`relative_text_spec`]).
pub fn relative_text(path: &str, base: &str) -> (r: Option<String>)
    ensures
        match relative_text_spec(path@, base@) {
            Some(t) => r matches Some(s) && s@ == t,
            None => r is None,
        },
{
    let bc = path_components(base);
    let pc = path_components(path);
    let ghost b = rows(bc@);
    let ghost p = rows(pc@);
    assert(b.len() == bc@.len() && p.len() == pc@.len());
    if bc.len() > pc.len() {
        return None;
    }
    let mut i: usize = 0;
    while i < bc.len()
        invariant
            i <= bc@.len() <= pc@.len(),
            b == rows(bc@),
            p == rows(pc@),
            b.len() == bc@.len(),
            p.len() == pc@.len(),
            b == components(base@),
            p == components(path@),
            forall|j: int| 0 <= j < i ==> b[j] == p[j],
        decreases bc.len() - i,
    {
        if !chars_eq(&bc[i], &pc[i]) {
            proof {
                assert(b[i as int] == bc@[i as int]@);
                assert(p[i as int] == pc@[i as int]@);
                assert(p.subrange(0, b.len() as int)[i as int] == p[i as int]);
            }
            return None;
        }
        i += 1;
    }
    assert(p.subrange(0, b.len() as int) =~= b);
    let ghost rest = p.skip(b.len() as int);
    let mut out: Vec<char> = Vec::new();
    let mut j = bc.len();
    assert(rest.take(0) =~= Seq::<Seq<char>>::empty());
    while j < pc.len()
        invariant
            bc@.len() <= j <= pc@.len(),
            p == rows(pc@),
            p.len() == pc@.len(),
            rest == p.skip(bc@.len() as int),
            out@ == rejoin(rest.take(j - bc@.len())),
        decreases pc.len() - j,
    {
        let piece = &pc[j];
        let ghost k = j - bc@.len();
        assert(rest.take(k + 1).drop_last() =~= rest.take(k));
        assert(rest.take(k + 1).last() == piece@) by {
            assert(p[j as int] == pc@[j as int]@);
        }
        let ghost before = out@;
        if piece.len() > 0 && piece[0] == '/' {
            out = copy_range(piece, 0, piece.len());
            assert(piece@.subrange(0, piece@.len() as int) =~= piece@);
        } else {
            if out.len() > 0 && out[out.len() - 1] != '/' {
                out.push('/');
            }
            let mut t: usize = 0;
            let ghost mid = out@;
            while t < piece.len()
                invariant
                    t <= piece@.len(),
                    out@ == mid + piece@.take(t as int),
                decreases piece.len() - t,
            {
                out.push(piece[t]);
                assert(piece@.take(t + 1) =~= piece@.take(t as int).push(piece@[t as int]));
                t += 1;
            }
            assert(piece@.take(piece@.len() as int) =~= piece@);
        }
        assert(out@ =~= join_spec(before, piece@));
        j += 1;
    }
    assert(rest.take(pc@.len() - bc@.len()) =~= rest);
    let ghost joined = out@;
    let mut k: usize = 0;
    while k < out.len()
        invariant
            k <= out@.len(),
            out@.len() == joined.len(),
            forall|m: int| 0 <= m < k ==> out@[m] == (if joined[m] == '\\' { '/' } else { joined[m] }),
            forall|m: int| k <= m < out@.len() ==> out@[m] == joined[m],
        decreases out.len() - k,
    {
        if out[k] == '\\' {
            out.set(k, '/');
        }
        k += 1;
    }
    assert(out@ =~= forward_slashes(joined));
    Some(string_from_chars(&out))
}

} // verus!

verus! {

/// `s` contains `".."`.
pub open spec fn contains_dot_dot_seq(s: Seq<char>) -> bool {
    crate::text::contains_seq(s, seq!['.', '.'])
}

/// A relative part that could lead out of its root: it contains `".."` or
/// it is absolute.
pub open spec fn escapes_root(rel: Seq<char>) -> bool {
    contains_dot_dot_seq(rel) || (rel.len() > 0 && rel[0] == '/')
}

} // verus!
