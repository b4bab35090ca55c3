//! Packages as the package reader hands them over.
use vstd::prelude::*;
use crate::path::parts;

verus! {

/// The identity of a package; packages are told apart by it, not by path.
pub struct PackageId {
    pub name: String,
    pub version: String,
}

impl PackageId {
    pub open spec fn same(&self, o: &PackageId) -> bool {
        self.name@ == o.name@ && self.version@ == o.version@
    }

    /// Whether the two identities are equal.
    pub fn same_as(&self, o: &PackageId) -> (r: bool)
        ensures
            r == self.same(o),
    {
        self.name == o.name && self.version == o.version
    }

    /// A copy with equal fields.
    pub fn duplicate(&self) -> (r: PackageId)
        ensures
            r == *self,
    {
        PackageId { name: self.name.clone(), version: self.version.clone() }
    }
}

/// A package: its identity, its root directory as components, and the
/// includes and excludes glob lists of its manifest.
pub struct Package {
    pub id: PackageId,
    pub root: Vec<String>,
    pub includes: Vec<String>,
    pub excludes: Vec<String>,
}

/// Copies a list of strings component by component.
pub fn copy_strings(v: &Vec<String>) -> (r: Vec<String>)
    ensures
        r@ == v@,
{
    let mut out: Vec<String> = Vec::new();
    let mut i: usize = 0;
    while i < v.len()
        invariant
            i <= v.len(),
            out@ == v@.take(i as int),
        decreases v.len() - i,
    {
        out.push(v[i].clone());
        assert(out@ =~= v@.take(i + 1));
        i += 1;
    }
    assert(v@.take(v.len() as int) =~= v@);
    out
}

/// What a package is, as plain values.
pub struct PackageView {
    pub name: Seq<char>,
    pub version: Seq<char>,
    pub root: Seq<Seq<char>>,
    pub includes: Seq<Seq<char>>,
    pub excludes: Seq<Seq<char>>,
}

impl PackageView {
    pub open spec fn same_id(self, o: PackageView) -> bool {
        self.name == o.name && self.version == o.version
    }
}

impl View for Package {
    type V = PackageView;

    open spec fn view(&self) -> PackageView {
        PackageView {
            name: self.id.name@,
            version: self.id.version@,
            root: parts(&self.root),
            includes: parts(&self.includes),
            excludes: parts(&self.excludes),
        }
    }
}

impl Package {
    pub open spec fn root_spec(&self) -> Seq<Seq<char>> {
        parts(&self.root)
    }

    /// A copy with equal fields.
    pub fn duplicate(&self) -> (r: Package)
        ensures
            r@ == self@,
    {
        let r = Package {
            id: self.id.duplicate(),
            root: copy_strings(&self.root),
            includes: copy_strings(&self.includes),
            excludes: copy_strings(&self.excludes),
        };
        assert(parts(&r.root) =~= parts(&self.root));
        assert(parts(&r.includes) =~= parts(&self.includes));
        assert(parts(&r.excludes) =~= parts(&self.excludes));
        r
    }
}

} // verus!
