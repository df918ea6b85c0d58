//! Glob sets compiled by the `globset` crate, and the two ways this library
//! builds them from configured patterns.

use vstd::prelude::*;

use globset::{GlobSet, GlobSetBuilder};

use crate::text::{concat3, owned, strings};
use crate::Error;

verus! {

/// A compiled set of globs.
#[verifier::external_type_specification]
#[verifier::external_body]
pub struct ExGlobSet(GlobSet);

/// A set of globs being collected before compilation.
#[verifier::external_type_specification]
#[verifier::external_body]
pub struct ExGlobSetBuilder(GlobSetBuilder);

/// The patterns a builder holds, in the order in which they were added.
pub uninterp spec fn builder_patterns(b: GlobSetBuilder) -> Seq<Seq<char>>;

/// The patterns a compiled set was built from.
pub uninterp spec fn set_patterns(s: GlobSet) -> Seq<Seq<char>>;

/// What `Glob::new` reports for a pattern: `None` when it compiles, else the
/// text of its error.
pub uninterp spec fn glob_parse_error(pattern: Seq<char>) -> Option<Seq<char>>;

/// Whether one glob, compiled with the default options, matches a path.
pub uninterp spec fn glob_matches(pattern: Seq<char>, path: Seq<char>) -> bool;

/// What `GlobSetBuilder::build` reports for a list of patterns: `None` when
/// the set compiles, else the text of its error.
pub uninterp spec fn glob_set_build_error(patterns: Seq<Seq<char>>) -> Option<Seq<char>>;

/// The patterns of an optional owned set.
pub open spec fn owned_set_patterns(s: Option<GlobSet>) -> Option<Seq<Seq<char>>> {
    match s {
        Some(g) => Some(set_patterns(g)),
        None => None,
    }
}

/// A set matches a path when one of its globs does.
pub open spec fn set_matches(patterns: Seq<Seq<char>>, path: Seq<char>) -> bool {
    exists|i: int| 0 <= i < patterns.len() && glob_matches(#[trigger] patterns[i], path)
}

/// Calls `GlobSetBuilder::new`: the new builder holds no pattern.
#[verifier::external_body]
fn glob_builder_new() -> (b: GlobSetBuilder)
    ensures
        builder_patterns(b) == Seq::<Seq<char>>::empty(),
{
    GlobSetBuilder::new()
}

/// Calls `Glob::new` on `pattern`; when it compiles, hands the glob to
/// `GlobSetBuilder::add`, which appends it to the builder, and otherwise
/// returns the error's text and leaves the builder as it was.
#[verifier::external_body]
fn glob_builder_add(b: &mut GlobSetBuilder, pattern: &str) -> (r: Result<(), String>)
    ensures
        r is Ok <==> glob_parse_error(pattern@) is None,
        r is Ok ==> builder_patterns(*final(b)) == builder_patterns(*old(b)).push(pattern@),
        r matches Err(e) ==> glob_parse_error(pattern@) == Some(e@),
        r is Err ==> builder_patterns(*final(b)) == builder_patterns(*old(b)),
{
    match globset::Glob::new(pattern) {
        Ok(glob) => {
            b.add(glob);
            Ok(())
        },
        Err(e) => Err(e.to_string()),
    }
}

/// Calls `GlobSetBuilder::build`. The set it returns holds the builder's
/// patterns; a builder with no pattern always builds (to the empty set).
#[verifier::external_body]
fn glob_builder_build(b: &GlobSetBuilder) -> (r: Result<GlobSet, String>)
    ensures
        builder_patterns(*b).len() == 0 ==> r is Ok,
        r is Ok <==> glob_set_build_error(builder_patterns(*b)) is None,
        r matches Ok(s) ==> set_patterns(s) == builder_patterns(*b),
        r matches Err(e) ==> glob_set_build_error(builder_patterns(*b)) == Some(e@),
{
    b.build().map_err(|e| e.to_string())
}

/// Calls `GlobSet::is_match`, which is true when any glob of the set matches
/// the path.
#[verifier::external_body]
pub(crate) fn glob_set_is_match(s: &GlobSet, path: &str) -> (r: bool)
    ensures
        r == (exists|i: int|
            0 <= i < set_patterns(*s).len() && glob_matches(#[trigger] set_patterns(*s)[i], path@)),
{
    s.is_match(path)
}

/// The index of the first pattern that does not compile, if any.
pub open spec fn first_bad_glob(pv: Seq<Seq<char>>) -> Option<int>
    decreases pv.len(),
{
    if pv.len() == 0 {
        None
    } else {
        match first_bad_glob(pv.drop_last()) {
            Some(i) => Some(i),
            None => if glob_parse_error(pv.last()) is Some {
                Some(pv.len() - 1)
            } else {
                None
            },
        }
    }
}

/// The patterns that compile, in order.
pub open spec fn parsed_globs(pv: Seq<Seq<char>>) -> Seq<Seq<char>>
    decreases pv.len(),
{
    if pv.len() == 0 {
        Seq::empty()
    } else {
        let prev = parsed_globs(pv.drop_last());
        if glob_parse_error(pv.last()) is None {
            prev.push(pv.last())
        } else {
            prev
        }
    }
}

/// What the strict build yields: the compiled patterns, or the message of
/// the first failure (`"<pattern>: <error>"` for a pattern that does not
/// compile, `"(build): <error>"` when the set as a whole does not).
pub open spec fn strict_glob_set(pv: Seq<Seq<char>>) -> Result<Seq<Seq<char>>, Seq<char>> {
    match first_bad_glob(pv) {
        Some(i) => Err(pv[i] + seq![':', ' '] + glob_parse_error(pv[i])->0),
        None => match glob_set_build_error(pv) {
            None => Ok(pv),
            Some(e) => Err(seq!['(', 'b', 'u', 'i', 'l', 'd', ')', ':', ' '] + e),
        },
    }
}

/// The patterns of the lenient build: those that compile, or none at all when
/// they do not compile together.
pub open spec fn lenient_glob_set(pv: Seq<Seq<char>>) -> Seq<Seq<char>> {
    if glob_set_build_error(parsed_globs(pv)) is None {
        parsed_globs(pv)
    } else {
        Seq::empty()
    }
}

proof fn lemma_first_bad_extends(pv: Seq<Seq<char>>, k: int)
    requires
        0 <= k <= pv.len(),
        first_bad_glob(pv.take(k)) is Some,
    ensures
        first_bad_glob(pv) == first_bad_glob(pv.take(k)),
    decreases pv.len() - k,
{
    if k < pv.len() {
        assert(pv.take(k + 1).drop_last() =~= pv.take(k));
        lemma_first_bad_extends(pv, k + 1);
    } else {
        assert(pv.take(k) =~= pv);
    }
}

/// Compiles `patterns` into one set. Fails with [`Error::InvalidGlob`] on
/// the first pattern that does not compile, or when the set does not build.
pub fn build_glob_set(patterns: &Vec<String>) -> (r: Result<GlobSet, Error>)
    ensures
        match strict_glob_set(strings(patterns@)) {
            Ok(pv) => r matches Ok(s) && set_patterns(s) == pv,
            Err(msg) => r matches Err(Error::InvalidGlob(m)) && m@ == msg,
        },
{
    let ghost pv = strings(patterns@);
    let mut builder = glob_builder_new();
    let mut i: usize = 0;
    assert(pv.take(0) =~= Seq::<Seq<char>>::empty());
    while i < patterns.len()
        invariant
            i <= patterns@.len(),
            pv == strings(patterns@),
            builder_patterns(builder) == pv.take(i as int),
            first_bad_glob(pv.take(i as int)) is None,
        decreases patterns.len() - i,
    {
        let p = patterns[i].as_str();
        assert(p@ == pv[i as int]);
        assert(pv.take(i + 1).drop_last() =~= pv.take(i as int));
        assert(pv.take(i + 1).last() == pv[i as int]);
        match glob_builder_add(&mut builder, p) {
            Ok(()) => {
                assert(pv.take(i + 1) =~= pv.take(i as int).push(pv[i as int]));
            },
            Err(e) => {
                proof {
                    lemma_first_bad_extends(pv, i + 1);
                }
                proof {
                    reveal_strlit(": ");
                }
                let msg = concat3(p, ": ", e.as_str());
                return Err(Error::InvalidGlob(msg));
            },
        }
        i += 1;
    }
    assert(pv.take(patterns@.len() as int) =~= pv);
    match glob_builder_build(&builder) {
        Ok(s) => Ok(s),
        Err(e) => {
            proof {
                reveal_strlit("(build): ");
            }
            let mut msg = owned("(build): ");
            msg.append(e.as_str());
            Err(Error::InvalidGlob(msg))
        },
    }
}

/// Compiles the patterns that compile and skips the others; when the
/// remaining set does not build, yields the empty set instead.
pub fn build_glob_set_lenient(patterns: &Vec<String>) -> (s: GlobSet)
    ensures
        set_patterns(s) == lenient_glob_set(strings(patterns@)),
{
    let ghost pv = strings(patterns@);
    let mut builder = glob_builder_new();
    let mut i: usize = 0;
    assert(pv.take(0) =~= Seq::<Seq<char>>::empty());
    while i < patterns.len()
        invariant
            i <= patterns@.len(),
            pv == strings(patterns@),
            builder_patterns(builder) == parsed_globs(pv.take(i as int)),
        decreases patterns.len() - i,
    {
        let p = patterns[i].as_str();
        assert(p@ == pv[i as int]);
        assert(pv.take(i + 1).drop_last() =~= pv.take(i as int));
        assert(pv.take(i + 1).last() == pv[i as int]);
        let _ = glob_builder_add(&mut builder, p);
        i += 1;
    }
    assert(pv.take(patterns@.len() as int) =~= pv);
    match glob_builder_build(&builder) {
        Ok(s) => s,
        Err(_) => {
            let empty = glob_builder_new();
            let r = glob_builder_build(&empty);
            r.unwrap()
        },
    }
}

} // verus!
