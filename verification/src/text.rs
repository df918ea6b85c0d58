//! Character-level helpers on `str` and `String` shared by the path, filter
//! and configuration logic.

use vstd::prelude::*;

verus! {

/// `p` is a prefix of `s`.
pub open spec fn is_prefix_of<A>(p: Seq<A>, s: Seq<A>) -> bool {
    p.len() <= s.len() && s.subrange(0, p.len() as int) == p
}

/// `p` is a suffix of `s`.
pub open spec fn is_suffix_of(p: Seq<char>, s: Seq<char>) -> bool {
    p.len() <= s.len() && s.subrange(s.len() - p.len(), s.len() as int) == p
}

/// `t` occurs somewhere in `s` as a contiguous run.
pub open spec fn contains_seq(s: Seq<char>, t: Seq<char>) -> bool {
    exists|i: int| 0 <= i && i + t.len() <= s.len() && #[trigger] s.subrange(i, i + t.len()) == t
}

/// The characters of `s`, in order.
pub fn chars_of(s: &str) -> (v: Vec<char>)
    ensures
        v@ == s@,
{
    let mut v: Vec<char> = Vec::new();
    for c in it: s.chars()
        invariant
            v@ == it.seq().take(it.index() as int),
            it.seq() == s@,
    {
        v.push(c);
    }
    v
}

/// Whether two character vectors hold the same characters.
pub fn chars_eq(a: &Vec<char>, b: &Vec<char>) -> (r: bool)
    ensures
        r == (a@ == b@),
{
    if a.len() != b.len() {
        return false;
    }
    let mut i: usize = 0;
    while i < a.len()
        invariant
            i <= a.len(),
            a.len() == b.len(),
            forall|j: int| 0 <= j < i ==> a@[j] == b@[j],
        decreases a.len() - i,
    {
        if a[i] != b[i] {
            assert(a@[i as int] != b@[i as int]);
            return false;
        }
        i += 1;
    }
    assert(a@ =~= b@);
    true
}

/// Whether two string slices hold the same characters.
pub fn str_eq(a: &str, b: &str) -> (r: bool)
    ensures
        r == (a@ == b@),
{
    let va = chars_of(a);
    let vb = chars_of(b);
    chars_eq(&va, &vb)
}

/// Whether `needle` equals one of the strings in `list`.
pub fn list_contains(list: &Vec<String>, needle: &str) -> (r: bool)
    ensures
        r == (exists|i: int| 0 <= i < list@.len() && #[trigger] list@[i]@ == needle@),
{
    let mut i: usize = 0;
    while i < list.len()
        invariant
            i <= list.len(),
            forall|j: int| 0 <= j < i ==> #[trigger] list@[j]@ != needle@,
        decreases list.len() - i,
    {
        if str_eq(list[i].as_str(), needle) {
            return true;
        }
        i += 1;
    }
    false
}

/// `k` is the position of the first `sep` of `s`.
pub open spec fn first_sep_at(s: Seq<char>, sep: char, k: int) -> bool {
    0 <= k < s.len() && s[k] == sep && !s.take(k).contains(sep)
}

/// The text before and after the first `sep` of `s` (`str::split_once`), or
/// `None` when `s` has no `sep`.
pub open spec fn split_once_spec(s: Seq<char>, sep: char) -> Option<(Seq<char>, Seq<char>)> {
    if s.contains(sep) {
        let k = choose|k: int| first_sep_at(s, sep, k);
        Some((s.take(k), s.skip(k + 1)))
    } else {
        None
    }
}

/// Splitting at the first `sep`: `s` splits around the position of its
/// first `sep`.
pub proof fn lemma_split_once(s: Seq<char>, sep: char, at: int)
    requires
        first_sep_at(s, sep, at),
    ensures
        split_once_spec(s, sep) == Some((s.take(at), s.skip(at + 1))),
{
    assert(s.contains(sep));
    let k = choose|k: int| first_sep_at(s, sep, k);
    if k < at {
        assert(s.take(at)[k] == sep);
    }
    if at < k {
        assert(s.take(k)[at] == sep);
    }
}

/// The index of the first occurrence of `c` in `v`.
pub fn first_index_of(v: &Vec<char>, c: char) -> (r: Option<usize>)
    ensures
        match r {
            Some(k) => k < v@.len() && v@[k as int] == c && !v@.take(k as int).contains(c),
            None => !v@.contains(c),
        },
{
    let mut i: usize = 0;
    while i < v.len()
        invariant
            i <= v.len(),
            forall|j: int| 0 <= j < i ==> v@[j] != c,
        decreases v.len() - i,
    {
        if v[i] == c {
            assert(!v@.take(i as int).contains(c)) by {
                assert forall|j: int| 0 <= j < i implies v@.take(i as int)[j] != c by {}
            }
            return Some(i);
        }
        i += 1;
    }
    assert(!v@.contains(c)) by {
        assert forall|j: int| 0 <= j < v@.len() implies v@[j] != c by {}
    }
    None
}

/// Whether `v` holds two consecutive dots.
pub fn contains_dot_dot(v: &Vec<char>) -> (r: bool)
    ensures
        r == contains_seq(v@, seq!['.', '.']),
{
    let ghost dd = seq!['.', '.'];
    let mut i: usize = 0;
    while i < v.len()
        invariant
            dd == seq!['.', '.'],
            i <= v.len(),
            forall|j: int| 0 <= j < i && j + 1 < v@.len() ==> !(#[trigger] v@[j] == '.' && v@[j + 1] == '.'),
        decreases v.len() - i,
    {
        if i + 1 < v.len() && v[i] == '.' && v[i + 1] == '.' {
            assert(v@.subrange(i as int, i + 2) =~= dd);
            return true;
        }
        i += 1;
    }
    assert forall|j: int| 0 <= j && j + dd.len() <= v@.len() implies #[trigger] v@.subrange(j, j + dd.len()) != dd by {
        if v@.subrange(j, j + dd.len()) == dd {
            assert(v@[j] == v@.subrange(j, j + 2)[0]);
            assert(v@[j + 1] == v@.subrange(j, j + 2)[1]);
        }
    }
    false
}

/// A fresh string holding the characters of `s`.
pub fn owned(s: &str) -> (r: String)
    ensures
        r@ == s@,
{
    String::from_str(s)
}

/// `a` followed by `b`.
pub fn concat2(a: &str, b: &str) -> (r: String)
    ensures
        r@ == a@ + b@,
{
    let mut r = String::from_str(a);
    r.append(b);
    r
}

/// `a`, then `b`, then `c`.
pub fn concat3(a: &str, b: &str, c: &str) -> (r: String)
    ensures
        r@ == a@ + b@ + c@,
{
    let mut r = String::from_str(a);
    r.append(b);
    r.append(c);
    r
}

/// The one-character string `"/"`.
pub fn slash() -> (r: &'static str)
    ensures
        r@ == seq!['/'],
{
    proof {
        reveal_strlit("/");
    }
    "/"
}

} // verus!

verus! {

/// The character sequences of a list of strings.
pub open spec fn strings(v: Seq<String>) -> Seq<Seq<char>> {
    Seq::new(v.len(), |i: int| v[i]@)
}

/// Whether `p` is a prefix of `v`.
pub fn has_prefix(v: &Vec<char>, p: &Vec<char>) -> (r: bool)
    ensures
        r == is_prefix_of(p@, v@),
{
    if p.len() > v.len() {
        return false;
    }
    let mut i: usize = 0;
    while i < p.len()
        invariant
            i <= p@.len() <= v@.len(),
            forall|j: int| 0 <= j < i ==> p@[j] == v@[j],
        decreases p.len() - i,
    {
        if p[i] != v[i] {
            assert(v@.subrange(0, p@.len() as int)[i as int] == v@[i as int]);
            return false;
        }
        i += 1;
    }
    assert(v@.subrange(0, p@.len() as int) =~= p@);
    true
}

/// Collects characters into a `String` (`FromIterator<char>`).
#[verifier::external_body]
pub(crate) fn string_from_chars(v: &Vec<char>) -> (r: String)
    ensures
        r@ == v@,
{
    v.iter().collect()
}

} // verus!

verus! {

/// Unicode `White_Space`, what `char::is_whitespace` tests.
pub open spec fn is_white_space(c: char) -> bool {
    let n = c as u32;
    (0x09 <= n && n <= 0x0D) || n == 0x20 || n == 0x85 || n == 0xA0 || n == 0x1680
        || (0x2000 <= n && n <= 0x200A) || n == 0x2028 || n == 0x2029 || n == 0x202F
        || n == 0x205F || n == 0x3000
}

/// `s` without its leading white space.
pub open spec fn trim_start(s: Seq<char>) -> Seq<char>
    decreases s.len(),
{
    if s.len() > 0 && is_white_space(s[0]) {
        trim_start(s.drop_first())
    } else {
        s
    }
}

/// `s` without its trailing white space.
pub open spec fn trim_end(s: Seq<char>) -> Seq<char>
    decreases s.len(),
{
    if s.len() > 0 && is_white_space(s.last()) {
        trim_end(s.drop_last())
    } else {
        s
    }
}

/// `str::trim`: `s` without leading and trailing white space.
pub open spec fn trim_spec(s: Seq<char>) -> Seq<char> {
    trim_end(trim_start(s))
}

/// Whether `c` is white space (see [`is_white_space`]).
pub fn char_is_white_space(c: char) -> (r: bool)
    ensures
        r == is_white_space(c),
{
    let n = c as u32;
    (0x09 <= n && n <= 0x0D) || n == 0x20 || n == 0x85 || n == 0xA0 || n == 0x1680
        || (0x2000 <= n && n <= 0x200A) || n == 0x2028 || n == 0x2029 || n == 0x202F
        || n == 0x205F || n == 0x3000
}

/// `s` without leading and trailing white space (see [`trim_spec`]).
pub fn trim(s: &str) -> (r: &str)
    ensures
        r@ == trim_spec(s@),
{
    let v = chars_of(s);
    let n = v.len();
    let mut a: usize = 0;
    assert(s@.subrange(0, n as int) =~= s@);
    while a < n && char_is_white_space(v[a])
        invariant
            a <= n == v@.len(),
            v@ == s@,
            trim_start(s@) == trim_start(s@.subrange(a as int, n as int)),
        decreases n - a,
    {
        assert(s@.subrange(a as int, n as int).drop_first() =~= s@.subrange(a + 1, n as int));
        a += 1;
    }
    let ghost front = s@.subrange(a as int, n as int);
    assert(trim_start(s@) == front);
    let mut b: usize = n;
    assert(front.subrange(0, (b - a) as int) =~= front);
    while b > a && char_is_white_space(v[b - 1])
        invariant
            a <= b <= n == v@.len(),
            v@ == s@,
            front == s@.subrange(a as int, n as int),
            trim_end(front) == trim_end(s@.subrange(a as int, b as int)),
        decreases b - a,
    {
        assert(s@.subrange(a as int, b as int).drop_last() =~= s@.subrange(a as int, b - 1));
        b -= 1;
    }
    s.substring_char(a, b)
}

/// The pieces of `s` between the occurrences of `sep` (`str::split`).
pub open spec fn split_spec(s: Seq<char>, sep: char) -> Seq<Seq<char>>
    decreases s.len(),
{
    if s.len() == 0 {
        seq![Seq::empty()]
    } else {
        let prev = split_spec(s.drop_last(), sep);
        if s.last() == sep {
            prev.push(Seq::empty())
        } else {
            prev.update(prev.len() - 1, prev.last().push(s.last()))
        }
    }
}

proof fn lemma_split_nonempty(s: Seq<char>, sep: char)
    ensures
        split_spec(s, sep).len() >= 1,
    decreases s.len(),
{
    if s.len() > 0 {
        lemma_split_nonempty(s.drop_last(), sep);
    }
}

/// The pieces of `s` between the occurrences of `sep`, as strings.
pub fn split_char(s: &str, sep: char) -> (r: Vec<String>)
    ensures
        strings(r@) == split_spec(s@, sep),
{
    let v = chars_of(s);
    let mut done: Vec<String> = Vec::new();
    let mut start: usize = 0;
    let mut i: usize = 0;
    assert(s@.take(0) =~= Seq::<char>::empty());
    assert(s@.subrange(0, 0) =~= Seq::<char>::empty());
    while i < v.len()
        invariant
            start <= i <= v@.len(),
            v@ == s@,
            strings(done@).push(s@.subrange(start as int, i as int)) == split_spec(s@.take(i as int), sep),
        decreases v.len() - i,
    {
        let ghost prev = split_spec(s@.take(i as int), sep);
        proof {
            lemma_split_nonempty(s@.take(i as int), sep);
        }
        assert(s@.take(i + 1).drop_last() =~= s@.take(i as int));
        assert(s@.take(i + 1).last() == v@[i as int]);
        if v[i] == sep {
            let piece = String::from_str(s.substring_char(start, i));
            let ghost before = strings(done@);
            done.push(piece);
            assert(strings(done@) =~= before.push(s@.subrange(start as int, i as int)));
            start = i + 1;
            assert(s@.subrange(start as int, (i + 1) as int) =~= Seq::<char>::empty());
            assert(strings(done@).push(s@.subrange(start as int, i + 1)) =~= prev.push(Seq::empty()));
        } else {
            assert(s@.subrange(start as int, i + 1) =~= s@.subrange(start as int, i as int).push(v@[i as int]));
            assert(strings(done@).push(s@.subrange(start as int, i + 1)) =~= prev.update(prev.len() - 1, prev.last().push(v@[i as int])));
        }
        i += 1;
    }
    assert(s@.take(v@.len() as int) =~= s@);
    let last = String::from_str(s.substring_char(start, v.len()));
    let ghost before = strings(done@);
    done.push(last);
    assert(strings(done@) =~= before.push(s@.subrange(start as int, v@.len() as int)));
    done
}

} // verus!
