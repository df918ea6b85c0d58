//! The one visibility gate that every way of reaching a file goes through:
//! listing, reading and change events.
//!
//! With a non-empty `expose` list a root is in allow-list mode: only listed
//! files, and everything under listed directories, are visible, and the
//! global rules do not apply. With an empty list the global rules apply in
//! turn: ignore globs (on the path and on every directory above it, which
//! the walks skip), then the extension list, then include globs.

use vstd::prelude::*;

use globset::GlobSet;

use crate::glob::{glob_set_is_match, set_matches, set_patterns};
use crate::path::{components, path_components};
use crate::text::{chars_eq, chars_of, has_prefix, is_prefix_of, list_contains, owned, string_from_chars, strings};

verus! {

/// The final component of a path when it names an entry (`Path::file_name`).
pub open spec fn file_name_of(path: Seq<char>) -> Option<Seq<char>> {
    let c = components(path);
    if c.len() == 0 {
        None
    } else {
        let l = c.last();
        if l == seq!['/'] || l == seq!['.'] || l == seq!['.', '.'] {
            None
        } else {
            Some(l)
        }
    }
}

/// The index of the last `'.'` in `s`.
pub open spec fn last_dot(s: Seq<char>) -> Option<int>
    decreases s.len(),
{
    if s.len() == 0 {
        None
    } else if s.last() == '.' {
        Some(s.len() - 1)
    } else {
        last_dot(s.drop_last())
    }
}

/// `Path::extension`: the text after the last `'.'` of the file name, when
/// that dot is not the name's first character.
pub open spec fn extension_of(path: Seq<char>) -> Option<Seq<char>> {
    match file_name_of(path) {
        None => None,
        Some(name) => match last_dot(name) {
            Some(k) => if k > 0 {
                Some(name.skip(k + 1))
            } else {
                None
            },
            None => None,
        },
    }
}

/// What `str::to_lowercase` returns for a string (Unicode lowercase mapping).
pub uninterp spec fn lowercase(s: Seq<char>) -> Seq<char>;

/// Every character of `s` is ASCII.
pub open spec fn is_ascii_text(s: Seq<char>) -> bool {
    forall|i: int| 0 <= i < s.len() ==> (#[trigger] s[i] as u32) < 128
}

/// The ASCII lowercase of a character: `'A'..='Z'` become `'a'..='z'`,
/// every other character stays.
pub open spec fn ascii_lower_char(c: char) -> char {
    if 65 <= (c as u32) <= 90 {
        ((c as u32) + 32) as char
    } else {
        c
    }
}

/// The ASCII lowercase of a text, character by character.
pub open spec fn ascii_lowercase(s: Seq<char>) -> Seq<char> {
    Seq::new(s.len(), |i: int| ascii_lower_char(s[i]))
}

/// The lowercased extension of `path`, or the empty text when it has none.
/// An ASCII extension is lowercased letter by letter.
pub open spec fn lowercase_extension(path: Seq<char>) -> Seq<char> {
    match extension_of(path) {
        Some(e) => if is_ascii_text(e) {
            ascii_lowercase(e)
        } else {
            lowercase(e)
        },
        None => Seq::empty(),
    }
}

/// `relative` is the listed entry itself or lies under it as a directory.
pub open spec fn under_entry(relative: Seq<char>, entry: Seq<char>) -> bool {
    relative == entry || is_prefix_of(entry.push('/'), relative)
}

/// Some directory above `relative` (the text before one of its `'/'`) is
/// matched by an ignore glob: the walks skip such a directory, so nothing
/// below it is visible.
pub open spec fn ignored_ancestor(ignore: Seq<Seq<char>>, relative: Seq<char>) -> bool {
    exists|k: int| 0 <= k < relative.len() && relative[k] == '/' && #[trigger] set_matches(ignore, relative.take(k))
}

/// The visibility rule (see the module documentation). `required` holds the include globs; it is `None`
/// when no include globs are configured.
pub open spec fn exposed(
    expose: Seq<Seq<char>>,
    relative: Seq<char>,
    extensions: Seq<Seq<char>>,
    ignore: Seq<Seq<char>>,
    required: Option<Seq<Seq<char>>>,
) -> bool {
    if expose.len() > 0 {
        exists|i: int| 0 <= i < expose.len() && under_entry(relative, #[trigger] expose[i])
    } else {
        &&& !set_matches(ignore, relative)
        &&& !ignored_ancestor(ignore, relative)
        &&& (extensions.len() == 0 || extensions.contains(lowercase_extension(relative)))
        &&& match required {
            Some(inc) => set_matches(inc, relative),
            None => true,
        }
    }
}

/// The patterns of an optional glob set.
pub open spec fn opt_set_patterns(s: Option<&GlobSet>) -> Option<Seq<Seq<char>>> {
    match s {
        Some(g) => Some(set_patterns(*g)),
        None => None,
    }
}

/// Calls `str::to_lowercase`: the Unicode lowercase mapping, which on ASCII
/// text maps `'A'..='Z'` to `'a'..='z'` and keeps every other character.
/// What it does to other text is left unsaid beyond its name.
#[verifier::external_body]
fn to_lowercase(s: &str) -> (r: String)
    ensures
        r@ == lowercase(s@),
        is_ascii_text(s@) ==> r@ == ascii_lowercase(s@),
{
    s.to_lowercase()
}

/// The extension of `path` (see [`extension_of`]).
pub fn extension(path: &str) -> (r: Option<String>)
    ensures
        match extension_of(path@) {
            Some(e) => r matches Some(s) && s@ == e,
            None => r is None,
        },
{
    let comps = path_components(path);
    let ghost c = components(path@);
    assert(c.len() == comps@.len());
    if comps.len() == 0 {
        return None;
    }
    let last = &comps[comps.len() - 1];
    assert(last@ == c.last());
    let root_form: Vec<char> = vec!['/'];
    let dot: Vec<char> = vec!['.'];
    let dotdot: Vec<char> = vec!['.', '.'];
    assert(root_form@ =~= seq!['/']);
    assert(dot@ =~= seq!['.']);
    assert(dotdot@ =~= seq!['.', '.']);
    if chars_eq(last, &root_form) || chars_eq(last, &dot) || chars_eq(last, &dotdot) {
        return None;
    }
    let ghost name = last@;
    assert(file_name_of(path@) == Some(name));
    assert(name.take(name.len() as int) =~= name);
    let mut i = last.len();
    while i > 0
        invariant
            i <= last@.len(),
            name == last@,
            file_name_of(path@) == Some(name),
            last_dot(name) == last_dot(name.take(i as int)),
        decreases i,
    {
        assert(name.take(i as int).drop_last() =~= name.take(i - 1));
        if last[i - 1] == '.' {
            assert(name.take(i as int).last() == '.');
            if i - 1 == 0 {
                return None;
            }
            let mut rest: Vec<char> = Vec::new();
            let mut j = i;
            while j < last.len()
                invariant
                    i <= j <= last@.len(),
                    name == last@,
                    rest@ == name.subrange(i as int, j as int),
                decreases last.len() - j,
            {
                rest.push(last[j]);
                assert(name.subrange(i as int, j + 1) =~= name.subrange(i as int, j as int).push(name[j as int]));
                j += 1;
            }
            assert(name.skip(i as int) =~= name.subrange(i as int, name.len() as int));
            return Some(string_from_chars(&rest));
        }
        i -= 1;
    }
    assert(name.take(0) =~= Seq::<char>::empty());
    None
}

/// The visibility gate: whether `relative` (a path inside its root, such as
/// `"notes/todo.md"`) may be shown (see [`exposed`]).
pub fn is_exposed(
    expose: &Vec<String>,
    relative: &str,
    include_extensions: &Vec<String>,
    ignore_set: &GlobSet,
    include_glob_set: Option<&GlobSet>,
) -> (r: bool)
    ensures
        r == exposed(
            strings(expose@),
            relative@,
            strings(include_extensions@),
            set_patterns(*ignore_set),
            opt_set_patterns(include_glob_set),
        ),
{
    let ghost ev = strings(expose@);
    if expose.len() > 0 {
        let rel = chars_of(relative);
        let mut i: usize = 0;
        while i < expose.len()
            invariant
                i <= expose@.len(),
                ev == strings(expose@),
                rel@ == relative@,
                forall|j: int| 0 <= j < i ==> !under_entry(relative@, #[trigger] ev[j]),
            decreases expose.len() - i,
        {
            let entry = chars_of(expose[i].as_str());
            assert(entry@ == ev[i as int]);
            if chars_eq(&rel, &entry) {
                return true;
            }
            let mut with_sep = entry;
            with_sep.push('/');
            if has_prefix(&rel, &with_sep) {
                return true;
            }
            i += 1;
        }
        return false;
    }
    if glob_set_is_match(ignore_set, relative) {
        return false;
    }
    let rv = chars_of(relative);
    let mut k: usize = 0;
    while k < rv.len()
        invariant
            k <= rv@.len(),
            rv@ == relative@,
            expose@.len() == 0,
            ev == strings(expose@),
            forall|j: int| 0 <= j < k && rv@[j] == '/' ==> !#[trigger] set_matches(set_patterns(*ignore_set), relative@.take(j)),
        decreases rv.len() - k,
    {
        if rv[k] == '/' {
            let above = relative.substring_char(0, k);
            assert(above@ =~= relative@.take(k as int));
            if glob_set_is_match(ignore_set, above) {
                assert(relative@[k as int] == '/');
                assert(set_matches(set_patterns(*ignore_set), relative@.take(k as int)));
                assert(ignored_ancestor(set_patterns(*ignore_set), relative@));
                return false;
            }
        }
        k += 1;
    }
    if include_extensions.len() > 0 {
        let ghost xs = strings(include_extensions@);
        let target: String = match extension(relative) {
            Some(e) => to_lowercase(e.as_str()),
            None => {
                proof {
                    reveal_strlit("");
                }
                owned("")
            },
        };
        assert(target@ == lowercase_extension(relative@));
        let found = list_contains(include_extensions, target.as_str());
        proof {
            if found {
                let k = choose|k: int| 0 <= k < include_extensions@.len() && #[trigger] include_extensions@[k]@ == target@;
                assert(xs[k] == lowercase_extension(relative@));
            } else {
                assert forall|k: int| 0 <= k < xs.len() implies xs[k] != lowercase_extension(relative@) by {
                    assert(xs[k] == include_extensions@[k]@);
                }
            }
        }
        if !found {
            return false;
        }
    }
    match include_glob_set {
        Some(s) => glob_set_is_match(s, relative),
        None => true,
    }
}

} // verus!

verus! {

/// In allow-list mode the global rules play no part: two rule sets give the
/// same answer for every path.
pub proof fn allow_list_ignores_global_rules(
    expose: Seq<Seq<char>>,
    relative: Seq<char>,
    extensions1: Seq<Seq<char>>,
    ignore1: Seq<Seq<char>>,
    required1: Option<Seq<Seq<char>>>,
    extensions2: Seq<Seq<char>>,
    ignore2: Seq<Seq<char>>,
    required2: Option<Seq<Seq<char>>>,
)
    requires
        expose.len() > 0,
    ensures
        exposed(expose, relative, extensions1, ignore1, required1) == exposed(expose, relative, extensions2, ignore2, required2),
{
}

/// An allow-list entry makes itself visible, and everything below it when
/// it is a directory; nothing else is visible in allow-list mode.
pub proof fn allow_list_entry_covers_subtree(
    expose: Seq<Seq<char>>,
    i: int,
    rest: Seq<char>,
    extensions: Seq<Seq<char>>,
    ignore: Seq<Seq<char>>,
    required: Option<Seq<Seq<char>>>,
)
    requires
        0 <= i < expose.len(),
    ensures
        exposed(expose, expose[i], extensions, ignore, required),
        exposed(expose, expose[i] + seq!['/'] + rest, extensions, ignore, required),
{
    let e = expose[i];
    let r = e + seq!['/'] + rest;
    assert(r.subrange(0, e.push('/').len() as int) =~= e.push('/'));
    assert(under_entry(r, e));
    assert(under_entry(e, e));
}

/// Without an allow list, a path that an ignore glob matches is never
/// visible, whatever the other rules say.
pub proof fn ignored_paths_are_hidden(
    relative: Seq<char>,
    extensions: Seq<Seq<char>>,
    ignore: Seq<Seq<char>>,
    required: Option<Seq<Seq<char>>>,
)
    requires
        set_matches(ignore, relative),
    ensures
        !exposed(Seq::empty(), relative, extensions, ignore, required),
{
}

/// Without an allow list, nothing below a directory that an ignore glob
/// matches is visible, so that reading and change events agree with the
/// walks, which do not enter such a directory.
pub proof fn files_under_ignored_directories_are_hidden(
    dir: Seq<char>,
    rest: Seq<char>,
    extensions: Seq<Seq<char>>,
    ignore: Seq<Seq<char>>,
    required: Option<Seq<Seq<char>>>,
)
    requires
        set_matches(ignore, dir),
    ensures
        !exposed(Seq::empty(), dir + seq!['/'] + rest, extensions, ignore, required),
{
    let r = dir + seq!['/'] + rest;
    let k = dir.len() as int;
    assert(r[k] == '/');
    assert(r.take(k) =~= dir);
    assert(set_matches(ignore, r.take(k)));
}

/// Without an allow list and with a non-empty extension list, a visible
/// path has a listed extension (compared in lowercase); a path without an
/// extension, such as `Makefile`, is hidden unless the empty text is listed.
pub proof fn unlisted_extensions_are_hidden(
    relative: Seq<char>,
    extensions: Seq<Seq<char>>,
    ignore: Seq<Seq<char>>,
    required: Option<Seq<Seq<char>>>,
)
    requires
        extensions.len() > 0,
    ensures
        exposed(Seq::empty(), relative, extensions, ignore, required) ==> extension_of(relative) is Some
            || extensions.contains(Seq::empty()),
        exposed(Seq::empty(), relative, extensions, ignore, required) ==> exists|i: int|
            0 <= i < extensions.len() && #[trigger] extensions[i] == lowercase_extension(relative),
        extension_of(relative) is None && !extensions.contains(Seq::empty()) ==> !exposed(
            Seq::empty(),
            relative,
            extensions,
            ignore,
            required,
        ),
{
    if exposed(Seq::empty(), relative, extensions, ignore, required) {
        let e = lowercase_extension(relative);
        assert(extensions.contains(e));
        let i = choose|i: int| 0 <= i < extensions.len() && extensions[i] == e;
        assert(extensions[i] == lowercase_extension(relative));
    }
}

/// Without an allow list, ignore match or include globs, a path with a
/// listed (lowercased) extension is visible: the extension list lets
/// through exactly the listed extensions.
pub proof fn listed_extensions_are_shown(
    relative: Seq<char>,
    extensions: Seq<Seq<char>>,
    ignore: Seq<Seq<char>>,
    i: int,
)
    requires
        0 <= i < extensions.len(),
        extensions[i] == lowercase_extension(relative),
        !set_matches(ignore, relative),
        !ignored_ancestor(ignore, relative),
    ensures
        exposed(Seq::empty(), relative, extensions, ignore, None),
{
    assert(extensions.contains(lowercase_extension(relative)));
}

} // verus!
