//! The includes / excludes filter of a package, over glob patterns.
use vstd::prelude::*;
use crate::error::SourceError;
use crate::path::parts;

verus! {

/// Whether `pattern` compiles as a glob.
pub uninterp spec fn glob_valid(pattern: Seq<char>) -> bool;

/// Whether the compiled glob `pattern` matches the text `candidate`.
pub uninterp spec fn glob_match(pattern: Seq<char>, candidate: Seq<char>) -> bool;

/// Relies on `glob::Pattern::new`: whether a text compiles depends on the text
/// alone. On failure the error's rendered message is handed back.
#[verifier::external_body]
fn compile_glob(text: &str) -> (r: Result<(), String>)
    ensures
        r is Ok <==> glob_valid(text@),
{
    glob::Pattern::new(text).map(|_| ()).map_err(|e| e.to_string())
}

/// Relies on `glob::Pattern::new` and `glob::Pattern::matches` (default match
/// options): whether a valid pattern matches a text depends on the two alone.
#[verifier::external_body]
fn glob_matches(pattern: &str, candidate: &str) -> (r: bool)
    requires
        glob_valid(pattern@),
    ensures
        r == glob_match(pattern@, candidate@),
{
    match glob::Pattern::new(pattern) {
        Ok(p) => p.matches(candidate),
        Err(_) => false,
    }
}

/// Components written with `/` between them.
pub open spec fn joined(p: Seq<Seq<char>>) -> Seq<char>
    decreases p.len(),
{
    if p.len() == 0 {
        Seq::empty()
    } else if p.len() == 1 {
        p[0]
    } else {
        joined(p.drop_last()) + seq!['/'] + p.last()
    }
}

/// Writes the components of `p` from index `from` on with `/` between them.
pub fn join_from(p: &Vec<String>, from: usize) -> (r: String)
    requires
        from <= p.len(),
    ensures
        r@ == joined(parts(p).subrange(from as int, p.len() as int)),
{
    let mut s = String::new();
    let mut i: usize = from;
    proof {
        reveal_strlit("/");
        assert(parts(p).subrange(from as int, from as int) =~= Seq::<Seq<char>>::empty());
    }
    while i < p.len()
        invariant
            from <= i <= p.len(),
            s@ == joined(parts(p).subrange(from as int, i as int)),
        decreases p.len() - i,
    {
        let ghost before = parts(p).subrange(from as int, i as int);
        let ghost after = parts(p).subrange(from as int, i + 1);
        assert(after.drop_last() =~= before);
        if i > from {
            s.append("/");
        }
        assert(parts(p)[i as int] == p@[i as int]@);
        s.append(p[i].as_str());
        proof {
            reveal_strlit("/");
            if i == from {
                assert(after =~= seq![p@[i as int]@]);
            }
        }
        i += 1;
    }
    s
}

/// Whether some pattern of `pats` matches `rel`.
pub open spec fn any_match(pats: Seq<Seq<char>>, rel: Seq<char>) -> bool {
    exists|i: int| 0 <= i < pats.len() && glob_match(pats[i], rel)
}

/// The inclusion policy: a non-empty includes list decides alone; an empty one
/// lets in whatever no excludes pattern matches.
pub open spec fn included(includes: Seq<Seq<char>>, excludes: Seq<Seq<char>>, rel: Seq<char>) -> bool {
    any_match(includes, rel) || (includes.len() == 0 && !any_match(excludes, rel))
}

/// Every pattern of `pats` compiles.
pub open spec fn all_valid(pats: Seq<Seq<char>>) -> bool {
    forall|i: int| 0 <= i < pats.len() ==> glob_valid(pats[i])
}

/// An includes list and an excludes list of glob patterns.
pub struct FilterSpec {
    pub includes: Seq<Seq<char>>,
    pub excludes: Seq<Seq<char>>,
}

impl FilterSpec {
    /// Whether the filter lets in the path `rel`, relative to the package root.
    pub open spec fn admits(self, rel: Seq<char>) -> bool {
        included(self.includes, self.excludes, rel)
    }
}

/// `pattern` is the first that does not compile, the excludes list checked
/// before the includes list.
pub open spec fn first_bad_pattern(includes: Seq<Seq<char>>, excludes: Seq<Seq<char>>, pattern: Seq<char>) -> bool {
    (exists|i: int| 0 <= i < excludes.len() && pattern == excludes[i]
        && !glob_valid(excludes[i]) && all_valid(excludes.take(i)))
    || (all_valid(excludes) && exists|i: int| 0 <= i < includes.len()
        && pattern == includes[i] && !glob_valid(includes[i])
        && all_valid(includes.take(i)))
}

/// A package's compiled includes and excludes patterns.
pub struct Filter {
    pub includes: Vec<String>,
    pub excludes: Vec<String>,
}

impl View for Filter {
    type V = FilterSpec;

    open spec fn view(&self) -> FilterSpec {
        FilterSpec { includes: parts(&self.includes), excludes: parts(&self.excludes) }
    }
}

impl Filter {
    pub open spec fn includes_spec(&self) -> Seq<Seq<char>> {
        parts(&self.includes)
    }

    pub open spec fn excludes_spec(&self) -> Seq<Seq<char>> {
        parts(&self.excludes)
    }

    /// Every pattern of the filter compiles.
    pub open spec fn wf(&self) -> bool {
        all_valid(self.includes_spec()) && all_valid(self.excludes_spec())
    }


    /// Compiles the excludes patterns, then the includes patterns; the first
    /// pattern that does not compile is reported.
    pub fn new(includes: &Vec<String>, excludes: &Vec<String>) -> (r: Result<Filter, SourceError>)
        ensures
            r is Ok <==> all_valid(parts(includes)) && all_valid(parts(excludes)),
            r matches Ok(f) ==> f.wf() && f.includes_spec() == parts(includes)
                && f.excludes_spec() == parts(excludes),
            r matches Err(e) ==> e matches SourceError::InvalidPattern { pattern, .. }
                && first_bad_pattern(parts(includes), parts(excludes), pattern@),
    {
        match first_invalid(excludes) {
            Err(e) => return Err(e),
            Ok(()) => {},
        }
        match first_invalid(includes) {
            Err(e) => return Err(e),
            Ok(()) => {},
        }
        Ok(Filter { includes: includes.clone(), excludes: excludes.clone() })
    }

    /// Whether some pattern of `pats` matches `rel`.
    fn any_matches(pats: &Vec<String>, rel: &str) -> (r: bool)
        requires
            all_valid(parts(pats)),
        ensures
            r == any_match(parts(pats), rel@),
    {
        let mut i: usize = 0;
        while i < pats.len()
            invariant
                i <= pats.len(),
                all_valid(parts(pats)),
                forall|j: int| 0 <= j < i ==> !glob_match(parts(pats)[j], rel@),
            decreases pats.len() - i,
        {
            assert(parts(pats)[i as int] == pats@[i as int]@);
            if glob_matches(pats[i].as_str(), rel) {
                return true;
            }
            i += 1;
        }
        false
    }

    /// Whether the filter lets in `rel`, a path relative to the package root
    /// written with `/` between its components.
    pub fn matches(&self, rel: &str) -> (r: bool)
        requires
            self.wf(),
        ensures
            r == self@.admits(rel@),
    {
        Self::any_matches(&self.includes, rel) || (self.includes.len() == 0
            && !Self::any_matches(&self.excludes, rel))
    }
}

/// Checks each pattern in order and reports the first that does not compile.
fn first_invalid(pats: &Vec<String>) -> (r: Result<(), SourceError>)
    ensures
        r is Ok <==> all_valid(parts(pats)),
        r matches Err(e) ==> e matches SourceError::InvalidPattern { pattern, .. } && exists|i: int|
            0 <= i < pats.len() && pattern@ == parts(pats)[i] && !glob_valid(parts(pats)[i])
                && all_valid(parts(pats).take(i)),
{
    let mut i: usize = 0;
    while i < pats.len()
        invariant
            i <= pats.len(),
            all_valid(parts(pats).take(i as int)),
        decreases pats.len() - i,
    {
        assert(parts(pats)[i as int] == pats@[i as int]@);
        match compile_glob(pats[i].as_str()) {
            Err(message) => {
                return Err(SourceError::InvalidPattern { pattern: pats[i].clone(), message });
            },
            Ok(()) => {},
        }
        assert(parts(pats).take(i + 1) =~= parts(pats).take(i as int).push(parts(pats)[i as int]));
        i += 1;
    }
    assert(parts(pats).take(pats.len() as int) =~= parts(pats));
    Ok(())
}

} // verus!

verus! {

/// With no includes and no excludes patterns, every path is let in.
pub proof fn lemma_empty_lists_admit_all(rel: Seq<char>)
    ensures
        included(Seq::empty(), Seq::empty(), rel),
{
}

/// Once the includes list is non-empty, the excludes list has no say: two
/// filters with the same includes agree on every path.
pub proof fn lemma_excludes_ignored_with_includes(
    includes: Seq<Seq<char>>,
    excludes_a: Seq<Seq<char>>,
    excludes_b: Seq<Seq<char>>,
    rel: Seq<char>,
)
    requires
        includes.len() > 0,
    ensures
        included(includes, excludes_a, rel) == included(includes, excludes_b, rel),
        included(includes, excludes_a, rel) == any_match(includes, rel),
{
}

} // verus!
