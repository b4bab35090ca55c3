//! Paths as sequences of components, compared component by component.
use vstd::prelude::*;

verus! {

/// The components of a path, as character sequences.
pub open spec fn parts(p: &Vec<String>) -> Seq<Seq<char>> {
    p.deep_view()
}

/// `p` equals `root` or lies underneath it.
pub open spec fn within(p: Seq<Seq<char>>, root: Seq<Seq<char>>) -> bool {
    root.len() <= p.len() && p.take(root.len() as int) == root
}

/// Whether `p` equals `root` or lies underneath it, comparing whole components.
pub fn is_within(p: &Vec<String>, root: &Vec<String>) -> (r: bool)
    ensures
        r == within(parts(p), parts(root)),
{
    if root.len() > p.len() {
        return false;
    }
    let mut i: usize = 0;
    while i < root.len()
        invariant
            root.len() <= p.len(),
            i <= root.len(),
            forall|j: int| 0 <= j < i ==> parts(p)[j] == parts(root)[j],
        decreases root.len() - i,
    {
        if !(p[i] == root[i]) {
            assert(parts(p).take(root.len() as int)[i as int] != parts(root)[i as int]);
            return false;
        }
        i += 1;
    }
    assert(parts(p).take(root.len() as int) =~= parts(root));
    true
}

/// The lock file, never part of a package's files at the top level.
pub open spec fn lock_name() -> Seq<char> {
    "Cargo.lock"@
}

/// The build output directory, never part of a package's files at the top level.
pub open spec fn output_name() -> Seq<char> {
    "target"@
}

/// The version-control metadata directory, skipped at any depth of a walk.
pub open spec fn vcs_dir_name() -> Seq<char> {
    ".git"@
}

/// A one-component path naming the lock file or the build output directory.
pub open spec fn is_reserved(rel: Seq<Seq<char>>) -> bool {
    rel == seq![lock_name()] || rel == seq![output_name()]
}

/// Whether `name` is the lock file's or the build output directory's name.
pub fn is_reserved_name(name: &String) -> (r: bool)
    ensures
        r == (name@ == lock_name() || name@ == output_name()),
{
    proof {
        reveal_strlit("Cargo.lock");
        reveal_strlit("target");
    }
    let lock = String::from_str("Cargo.lock");
    let output = String::from_str("target");
    *name == lock || *name == output
}

/// Whether `name` is the version-control metadata directory's name.
pub fn is_vcs_dir_name(name: &String) -> (r: bool)
    ensures
        r == (name@ == vcs_dir_name()),
{
    proof {
        reveal_strlit(".git");
    }
    let git = String::from_str(".git");
    *name == git
}

/// Whether the components of `p` from index `from` on name the lock file or
/// the build output directory alone.
pub fn is_reserved_from(p: &Vec<String>, from: usize) -> (r: bool)
    requires
        from <= p.len(),
    ensures
        r == is_reserved(parts(p).subrange(from as int, p.len() as int)),
{
    let ghost rest = parts(p).subrange(from as int, p.len() as int);
    if p.len() - from != 1 {
        assert(rest.len() != 1);
        return false;
    }
    let r = is_reserved_name(&p[from]);
    assert(rest[0] == p@[from as int]@);
    if r {
        assert(rest =~= seq![p@[from as int]@]);
    } else {
        assert(seq![lock_name()][0] == lock_name());
        assert(seq![output_name()][0] == output_name());
    }
    r
}

/// `a` followed by the components of `b`.
pub fn concat_paths(a: &Vec<String>, b: &Vec<String>) -> (r: Vec<String>)
    ensures
        parts(&r) == parts(a) + parts(b),
{
    let mut out: Vec<String> = Vec::new();
    let mut i: usize = 0;
    while i < a.len()
        invariant
            i <= a.len(),
            out@ == a@.take(i as int),
        decreases a.len() - i,
    {
        out.push(a[i].clone());
        assert(out@ =~= a@.take(i + 1));
        i += 1;
    }
    let mut j: usize = 0;
    while j < b.len()
        invariant
            i == a.len(),
            j <= b.len(),
            out@ == a@ + b@.take(j as int),
        decreases b.len() - j,
    {
        out.push(b[j].clone());
        assert(out@ =~= a@ + b@.take(j + 1));
        j += 1;
    }
    assert(a@.take(a.len() as int) =~= a@);
    assert(b@.take(b.len() as int) =~= b@);
    assert(parts(&out) =~= parts(a) + parts(b));
    out
}

/// Whether `p` lies within one of `roots`.
pub open spec fn under_any(p: Seq<Seq<char>>, roots: Seq<Seq<Seq<char>>>) -> bool {
    exists|k: int| 0 <= k < roots.len() && within(p, roots[k])
}

/// Whether `p` lies within one of `roots`.
pub fn is_under_any(p: &Vec<String>, roots: &Vec<Vec<String>>) -> (r: bool)
    ensures
        r == under_any(parts(p), roots.deep_view()),
{
    let mut k: usize = 0;
    while k < roots.len()
        invariant
            k <= roots.len(),
            forall|j: int| 0 <= j < k ==> !within(parts(p), roots.deep_view()[j]),
        decreases roots.len() - k,
    {
        assert(roots.deep_view()[k as int] == parts(&roots@[k as int]));
        if is_within(p, &roots[k]) {
            return true;
        }
        k += 1;
    }
    false
}

} // verus!
