//! The path source: the packages found under one directory, their files and
//! their fingerprints.
use vstd::prelude::*;
use crate::error::SourceError;
use crate::package::{copy_strings, Package, PackageId, PackageView};
use crate::path::{parts, within, is_within, under_any, lock_name, output_name};
use crate::pattern::{Filter, FilterSpec, all_valid, first_bad_pattern};
use crate::vcs::{TrackedSnapshot, list_repo, repo_files, listing, extend_paths};
use crate::walk::{DiskKind, entered, file_at, dir_at, lemma_walk_entered, DiskSnapshot, walk_node, walk_files, walk_kept, all_kept, lemma_walk_kept, no_dups, lemma_walk_no_dups};
use crate::path::vcs_dir_name;

verus! {

/// The identity of a path source: the directory it was made for.
pub struct SourceId {
    pub root: Vec<String>,
}

impl SourceId {
    /// The identity of the source for the directory `path`.
    pub fn for_path(path: &Vec<String>) -> (r: SourceId)
        ensures
            r.root@ == path@,
    {
        SourceId { root: copy_strings(path) }
    }
}

/// Where a path source is in its life: fresh, or updated with the packages
/// that the package reader found.
pub enum SourceState {
    Fresh,
    Updated(Vec<Package>),
}

/// The packages rooted under one directory.
pub struct PathSource {
    id: SourceId,
    path: Vec<String>,
    state: SourceState,
}

/// The views of a list of packages.
pub open spec fn views(v: Seq<Package>) -> Seq<PackageView> {
    v.map_values(|p: Package| p@)
}

/// Copies a list of packages.
pub fn copy_packages(v: &Vec<Package>) -> (r: Vec<Package>)
    ensures
        views(r@) == views(v@),
{
    let mut out: Vec<Package> = Vec::new();
    let mut i: usize = 0;
    while i < v.len()
        invariant
            i <= v.len(),
            views(out@) == views(v@).take(i as int),
        decreases v.len() - i,
    {
        let ghost prev = out@;
        let d = v[i].duplicate();
        out.push(d);
        assert(out@ =~= prev.push(d));
        assert(views(prev.push(d)) =~= views(prev).push(d@));
        assert(views(v@).take(i + 1) =~= views(v@).take(i as int).push(v@[i as int]@));
        i += 1;
    }
    assert(views(v@).take(v.len() as int) =~= views(v@));
    out
}

/// Whether `p`'s identity is one of `ids`.
pub open spec fn wanted(p: PackageView, ids: Seq<PackageId>) -> bool {
    exists|k: int| 0 <= k < ids.len() && ids[k].name@ == p.name && ids[k].version@ == p.version
}

/// Where the files of a package are read from: the index of the repository
/// that holds it, or its directory on disk.
pub enum Listing {
    Repository(TrackedSnapshot),
    Walk(DiskSnapshot),
}

/// The roots of a list of packages.
pub open spec fn roots(v: Seq<PackageView>) -> Seq<Seq<Seq<char>>> {
    v.map_values(|p: PackageView| p.root)
}

/// The filter that a package's manifest asks for.
pub open spec fn filter_of(pkg: PackageView) -> FilterSpec {
    FilterSpec { includes: pkg.includes, excludes: pkg.excludes }
}

/// The walk of `w`'s listing, once for each of the first `n` packages of
/// `pkgs` with the identity of `pkg`.
pub open spec fn repeated_walk(
    pkgs: Seq<PackageView>,
    pkg: PackageView,
    w: Result<Seq<Seq<Seq<char>>>, SourceError>,
    n: int,
) -> Result<Seq<Seq<Seq<char>>>, SourceError>
    decreases n,
{
    if n <= 0 {
        Ok(Seq::empty())
    } else {
        match repeated_walk(pkgs, pkg, w, n - 1) {
            Err(e) => Err(e),
            Ok(a) => if pkgs[n - 1].same_id(pkg) {
                match w {
                    Err(e) => Err(e),
                    Ok(b) => Ok(a + b),
                }
            } else {
                Ok(a)
            },
        }
    }
}

proof fn lemma_error_stops_walks(
    pkgs: Seq<PackageView>,
    pkg: PackageView,
    w: Result<Seq<Seq<Seq<char>>>, SourceError>,
    n: int,
    m: int,
)
    requires
        n <= m,
        repeated_walk(pkgs, pkg, w, n) is Err,
    ensures
        repeated_walk(pkgs, pkg, w, m) == repeated_walk(pkgs, pkg, w, n),
    decreases m - n,
{
    if n < m {
        lemma_error_stops_walks(pkgs, pkg, w, n, m - 1);
    }
}

/// The files of `pkg` that `src` lists from `l`, once its patterns compile.
pub open spec fn files_of(src: PathSource, pkg: PackageView, l: Listing) -> Result<Seq<Seq<Seq<char>>>, SourceError> {
    match l {
        Listing::Repository(s) => repo_files(s, 0, pkg.root, nested_of(src, pkg), filter_of(pkg)),
        Listing::Walk(d) => repeated_walk(
            src.packages(),
            pkg,
            walk_files(d, 0, true, filter_of(pkg)),
            src.packages().len() as int,
        ),
    }
}

/// Whether a listing fits the package it is read for: a snapshot that is
/// well formed, and a walk that starts at the package's root.
pub open spec fn fits(l: Listing, pkg: PackageView) -> bool {
    match l {
        Listing::Repository(s) => s.wf(),
        Listing::Walk(d) => d.wf() && d.root_spec() == pkg.root,
    }
}

/// A modification time, zero where it could not be read.
pub open spec fn mtime_or_zero(t: Option<u64>) -> nat {
    match t {
        Some(v) => v as nat,
        None => 0,
    }
}

/// The newest of the modification times, zero for none.
pub open spec fn newest(ts: Seq<Option<u64>>) -> nat
    decreases ts.len(),
{
    if ts.len() == 0 {
        0
    } else {
        let a = newest(ts.drop_last());
        let b = mtime_or_zero(ts.last());
        if a >= b {
            a
        } else {
            b
        }
    }
}

/// The decimal digits of `n`, most significant first, without leading zeros.
pub open spec fn decimal(n: nat) -> Seq<char>
    decreases n,
{
    if n < 10 {
        seq!["0123456789"@[n as int]]
    } else {
        decimal(n / 10) + seq!["0123456789"@[(n % 10) as int]]
    }
}

/// The decimal digits of `n`, most significant first.
pub fn render_decimal(n: u64) -> (r: String)
    ensures
        r@ == decimal(n as nat),
    decreases n,
{
    let digits = "0123456789";
    proof {
        reveal_strlit("0123456789");
    }
    let d: usize = (n % 10) as usize;
    let last = digits.substring_char(d, d + 1);
    assert(last@ =~= seq!["0123456789"@[(n % 10) as int]]);
    if n < 10 {
        String::from_str(last)
    } else {
        let mut r = render_decimal(n / 10);
        r.append(last);
        r
    }
}

/// The newest of the modification times, an unreadable one counting as zero.
pub fn newest_mtime(mtimes: &Vec<Option<u64>>) -> (r: u64)
    ensures
        r as nat == newest(mtimes@),
{
    let mut max: u64 = 0;
    let mut i: usize = 0;
    while i < mtimes.len()
        invariant
            i <= mtimes.len(),
            max as nat == newest(mtimes@.take(i as int)),
        decreases mtimes.len() - i,
    {
        assert(mtimes@.take(i + 1).drop_last() =~= mtimes@.take(i as int));
        let t: u64 = match mtimes[i] {
            Some(v) => v,
            None => 0,
        };
        if t > max {
            max = t;
        }
        i += 1;
    }
    assert(mtimes@.take(mtimes.len() as int) =~= mtimes@);
    max
}

impl PathSource {
    /// The directory the source was made for.
    pub closed spec fn root_spec(&self) -> Seq<Seq<char>> {
        parts(&self.path)
    }

    /// The directory of the source's identity.
    pub closed spec fn id_spec(&self) -> Seq<Seq<char>> {
        parts(&self.id.root)
    }

    /// Whether `update` has run.
    pub closed spec fn updated(&self) -> bool {
        self.state is Updated
    }

    /// The packages found by `update`; none before it ran.
    pub closed spec fn packages(&self) -> Seq<PackageView> {
        match self.state {
            SourceState::Updated(v) => views(v@),
            SourceState::Fresh => Seq::empty(),
        }
    }

    /// A fresh source for the directory `path`, which holds a manifest.
    pub fn new(path: &Vec<String>, id: &SourceId) -> (r: PathSource)
        ensures
            r.root_spec() == parts(path),
            r.id_spec() == parts(&id.root),
            !r.updated(),
            r.packages() == Seq::<PackageView>::empty(),
    {
        let r = PathSource {
            id: SourceId { root: copy_strings(&id.root) },
            path: copy_strings(path),
            state: SourceState::Fresh,
        };
        assert(parts(&r.path) =~= parts(path));
        assert(parts(&r.id.root) =~= parts(&id.root));
        r
    }

    /// A fresh source for the directory `path`, with the identity of that path.
    pub fn for_path(path: &Vec<String>) -> (r: PathSource)
        ensures
            r.root_spec() == parts(path),
            r.id_spec() == parts(path),
            !r.updated(),
            r.packages() == Seq::<PackageView>::empty(),
    {
        let id = SourceId::for_path(path);
        assert(parts(&id.root) =~= parts(path));
        PathSource::new(path, &id)
    }

    /// Whether `update` has run.
    pub fn is_updated(&self) -> (r: bool)
        ensures
            r == self.updated(),
    {
        match &self.state {
            SourceState::Fresh => false,
            SourceState::Updated(_) => true,
        }
    }

    /// Takes in the packages that the package reader found under the root.
    /// Only the first call has an effect.
    pub fn update(&mut self, discovered: Vec<Package>)
        ensures
            final(self).updated(),
            final(self).root_spec() == old(self).root_spec(),
            final(self).id_spec() == old(self).id_spec(),
            old(self).updated() ==> final(self).packages() == old(self).packages(),
            !old(self).updated() ==> final(self).packages() == views(discovered@),
    {
        if !self.is_updated() {
            self.state = SourceState::Updated(discovered);
        }
    }

    /// The packages found by `update`, or `None` where it has not run and the
    /// package reader must be asked.
    pub fn read_packages(&self) -> (r: Option<Vec<Package>>)
        ensures
            self.updated() <==> r is Some,
            r matches Some(v) ==> views(v@) == self.packages(),
    {
        match &self.state {
            SourceState::Fresh => None,
            SourceState::Updated(v) => Some(copy_packages(v)),
        }
    }

    /// The package whose root is the source's own directory: the first such
    /// one among those found.
    pub fn root_package(&self) -> (r: Result<Package, SourceError>)
        ensures
            !self.updated() ==> r == Err::<Package, SourceError>(SourceError::NotUpdated),
            self.updated() ==> (r is Ok <==> exists|i: int|
                0 <= i < self.packages().len() && self.packages()[i].root == self.root_spec()),
            r matches Ok(p) ==> exists|i: int|
                0 <= i < self.packages().len() && p@ == self.packages()[i]
                    && p@.root == self.root_spec()
                    && forall|j: int| 0 <= j < i ==> self.packages()[j].root != self.root_spec(),
            self.updated() && !(exists|i: int|
                0 <= i < self.packages().len() && self.packages()[i].root == self.root_spec()) ==> r
                == Err::<Package, SourceError>(SourceError::NoRootPackage),
    {
        let pkgs = match &self.state {
            SourceState::Fresh => return Err(SourceError::NotUpdated),
            SourceState::Updated(v) => v,
        };
        let mut i: usize = 0;
        while i < pkgs.len()
            invariant
                i <= pkgs.len(),
                self.updated(),
                self.packages() == views(pkgs@),
                forall|j: int| 0 <= j < i ==> self.packages()[j].root != self.root_spec(),
            decreases pkgs.len() - i,
        {
            let same = pkgs[i].root.len() == self.path.len() && is_within(&pkgs[i].root, &self.path);
            if same {
                assert(parts(&pkgs@[i as int].root).take(parts(&self.path).len() as int) =~= parts(&pkgs@[i as int].root));
                let d = pkgs[i].duplicate();
                assert(self.packages()[i as int] == pkgs@[i as int]@);
                assert(self.packages()[i as int].root == self.root_spec());
                return Ok(d);
            }
            proof {
                assert(self.packages()[i as int] == pkgs@[i as int]@);
                if parts(&pkgs@[i as int].root) == parts(&self.path) {
                    assert(parts(&self.path).take(parts(&self.path).len() as int) =~= parts(&self.path));
                }
            }
            i += 1;
        }
        Err(SourceError::NoRootPackage)
    }

    /// Nothing to fetch: the files of a local source are on disk already.
    pub fn download(&self, ids: &Vec<PackageId>) -> (r: Result<(), SourceError>)
        ensures
            r is Ok,
    {
        Ok(())
    }

    /// The packages found whose identity is one of `ids`, in the order found.
    pub fn get(&self, ids: &Vec<PackageId>) -> (r: Vec<Package>)
        ensures
            views(r@) == self.packages().filter(|p: PackageView| wanted(p, ids@)),
    {
        let mut out: Vec<Package> = Vec::new();
        let pkgs = match &self.state {
            SourceState::Fresh => {
                assert(self.packages().len() == 0);
                proof {
                    reveal(Seq::filter);
                }
                assert(views(out@) =~= Seq::<PackageView>::empty());
                return out;
            },
            SourceState::Updated(v) => v,
        };
        let ghost pred = |p: PackageView| wanted(p, ids@);
        let mut i: usize = 0;
        while i < pkgs.len()
            invariant
                i <= pkgs.len(),
                self.packages() == views(pkgs@),
                pred == (|p: PackageView| wanted(p, ids@)),
                views(out@) == views(pkgs@).take(i as int).filter(pred),
            decreases pkgs.len() - i,
        {
            let mut k: usize = 0;
            let mut hit = false;
            while k < ids.len()
                invariant
                    k <= ids.len(),
                    i < pkgs.len(),
                    hit == exists|j: int| 0 <= j < k && ids@[j].name@ == pkgs@[i as int]@.name
                        && ids@[j].version@ == pkgs@[i as int]@.version,
                decreases ids.len() - k,
            {
                if !hit && ids[k].same_as(&pkgs[i].id) {
                    hit = true;
                }
                k += 1;
            }
            let ghost prev = out@;
            proof {
                reveal(Seq::filter);
                assert(views(pkgs@).take(i + 1).drop_last() =~= views(pkgs@).take(i as int));
            }
            if hit {
                let d = pkgs[i].duplicate();
                out.push(d);
                assert(out@ =~= prev.push(d));
                assert(views(prev.push(d)) =~= views(prev).push(d@));
            }
            i += 1;
        }
        assert(views(pkgs@).take(pkgs.len() as int) =~= views(pkgs@));
        out
    }

    /// The roots of the packages found that hold `pkg`'s root (or equal
    /// it), in the order found: where to look for a repository, first first.
    pub fn repo_candidates(&self, pkg: &Package) -> (r: Vec<Vec<String>>)
        ensures
            r.deep_view() == roots(self.packages().filter(|p: PackageView| within(pkg@.root, p.root))),
    {
        let ghost pred = |p: PackageView| within(pkg@.root, p.root);
        let mut out: Vec<Vec<String>> = Vec::new();
        let pkgs = match &self.state {
            SourceState::Fresh => {
                proof {
                    reveal(Seq::filter);
                }
                assert(out.deep_view() =~= roots(self.packages().filter(pred)));
                return out;
            },
            SourceState::Updated(v) => v,
        };
        let mut i: usize = 0;
        while i < pkgs.len()
            invariant
                i <= pkgs.len(),
                self.packages() == views(pkgs@),
                pred == (|p: PackageView| within(pkg@.root, p.root)),
                out.deep_view() == roots(views(pkgs@).take(i as int).filter(pred)),
            decreases pkgs.len() - i,
        {
            proof {
                reveal(Seq::filter);
                assert(views(pkgs@).take(i + 1).drop_last() =~= views(pkgs@).take(i as int));
            }
            if is_within(&pkg.root, &pkgs[i].root) {
                let ghost prev = out.deep_view();
                let c = copy_strings(&pkgs[i].root);
                out.push(c);
                assert(out.deep_view() =~= prev.push(parts(&pkgs@[i as int].root)));
                let ghost kept = views(pkgs@).take(i as int).filter(pred);
                assert(roots(kept.push(pkgs@[i as int]@)) =~= roots(kept).push(pkgs@[i as int]@.root));
            }
            i += 1;
        }
        assert(views(pkgs@).take(pkgs.len() as int) =~= views(pkgs@));
        out
    }

    /// The roots of the other packages found that lie within `pkg`'s root.
    pub fn nested_roots(&self, pkg: &Package) -> (r: Vec<Vec<String>>)
        ensures
            r.deep_view() == roots(
                self.packages().filter(|p: PackageView| !p.same_id(pkg@) && within(p.root, pkg@.root)),
            ),
    {
        let ghost pred = |p: PackageView| !p.same_id(pkg@) && within(p.root, pkg@.root);
        let mut out: Vec<Vec<String>> = Vec::new();
        let pkgs = match &self.state {
            SourceState::Fresh => {
                proof {
                    reveal(Seq::filter);
                }
                assert(out.deep_view() =~= roots(self.packages().filter(pred)));
                return out;
            },
            SourceState::Updated(v) => v,
        };
        let mut i: usize = 0;
        while i < pkgs.len()
            invariant
                i <= pkgs.len(),
                self.packages() == views(pkgs@),
                pred == (|p: PackageView| !p.same_id(pkg@) && within(p.root, pkg@.root)),
                out.deep_view() == roots(views(pkgs@).take(i as int).filter(pred)),
            decreases pkgs.len() - i,
        {
            proof {
                reveal(Seq::filter);
                assert(views(pkgs@).take(i + 1).drop_last() =~= views(pkgs@).take(i as int));
            }
            if !pkgs[i].id.same_as(&pkg.id) && is_within(&pkgs[i].root, &pkg.root) {
                let ghost prev = out.deep_view();
                let c = copy_strings(&pkgs[i].root);
                out.push(c);
                assert(out.deep_view() =~= prev.push(parts(&pkgs@[i as int].root)));
                let ghost kept = views(pkgs@).take(i as int).filter(pred);
                assert(roots(kept.push(pkgs@[i as int]@)) =~= roots(kept).push(pkgs@[i as int]@.root));
            }
            i += 1;
        }
        assert(views(pkgs@).take(pkgs.len() as int) =~= views(pkgs@));
        out
    }

    /// The files that belong to `pkg`, read from `source`: those of the
    /// repository's index, or those of a walk of the package's directory,
    /// once for each package found with `pkg`'s identity. Fails where a
    /// pattern of the manifest does not compile, or where the listing fails.
    pub fn list_files(&self, pkg: &Package, source: &Listing) -> (r: Result<Vec<Vec<String>>, SourceError>)
        requires
            fits(*source, pkg@),
        ensures
            !(all_valid(pkg@.includes) && all_valid(pkg@.excludes)) ==> (r matches Err(
                SourceError::InvalidPattern { pattern, .. },
            ) && first_bad_pattern(pkg@.includes, pkg@.excludes, pattern@)),
            all_valid(pkg@.includes) && all_valid(pkg@.excludes) ==> listing(r) == files_of(
                *self,
                pkg@,
                *source,
            ),
    {
        let filter = match Filter::new(&pkg.includes, &pkg.excludes) {
            Err(e) => return Err(e),
            Ok(f) => f,
        };
        assert(filter@ == filter_of(pkg@));
        match source {
            Listing::Repository(s) => {
                let nested = self.nested_roots(pkg);
                list_repo(s, 0, &pkg.root, &nested, &filter)
            },
            Listing::Walk(d) => {
                let mut ret: Vec<Vec<String>> = Vec::new();
                assert(ret.deep_view() =~= Seq::<Seq<Seq<char>>>::empty());
                let pkgs = match &self.state {
                    SourceState::Fresh => return Ok(ret),
                    SourceState::Updated(v) => v,
                };
                let ghost w = walk_files(*d, 0, true, filter@);
                let mut i: usize = 0;
                while i < pkgs.len()
                    invariant
                        i <= pkgs.len(),
                        d.wf(),
                        filter.wf(),
                        w == walk_files(*d, 0, true, filter@),
                        filter@ == filter_of(pkg@),
                        all_valid(pkg@.includes) && all_valid(pkg@.excludes),
                        *source == Listing::Walk(*d),
                        self.packages() == views(pkgs@),
                        repeated_walk(self.packages(), pkg@, w, i as int) == Ok::<Seq<Seq<Seq<char>>>, SourceError>(ret.deep_view()),
                    decreases pkgs.len() - i,
                {
                    if pkgs[i].id.same_as(&pkg.id) {
                        match walk_node(d, 0, true, &filter) {
                            Err(e) => {
                                proof {
                                    assert(self.packages()[i as int] == pkgs@[i as int]@);
                                    assert(repeated_walk(self.packages(), pkg@, w, i + 1) is Err);
                                    lemma_error_stops_walks(self.packages(), pkg@, w, i + 1, pkgs.len() as int);
                                }
                                return Err(e);
                            },
                            Ok(found) => extend_paths(&mut ret, &found),
                        }
                    }
                    assert(self.packages()[i as int] == pkgs@[i as int]@);
                    i += 1;
                }
                Ok(ret)
            },
        }
    }

    /// The fingerprint of a package whose files have the modification times
    /// `mtimes` (`None` where one could not be read): the newest of them in
    /// decimal. Fails where `update` has not run.
    pub fn fingerprint(&self, mtimes: &Vec<Option<u64>>) -> (r: Result<String, SourceError>)
        ensures
            !self.updated() ==> r == Err::<String, SourceError>(SourceError::NotUpdated),
            self.updated() ==> (r matches Ok(t) && t@ == decimal(newest(mtimes@))),
    {
        if !self.is_updated() {
            return Err(SourceError::NotUpdated);
        }
        Ok(render_decimal(newest_mtime(mtimes)))
    }
}

} // verus!

verus! {

/// The roots of the packages found other than `pkg` that lie within its root.
pub open spec fn nested_of(src: PathSource, pkg: PackageView) -> Seq<Seq<Seq<char>>> {
    roots(src.packages().filter(|p: PackageView| !p.same_id(pkg) && within(p.root, pkg.root)))
}

/// Listing a package from a repository's index: nothing within the root of
/// another package `b` found within its root, nothing outside its own root,
/// and neither the lock file nor the build output directory at its root,
/// whatever its patterns say.
pub proof fn lemma_repository_listing_bounds(src: PathSource, a: PackageView, b: PackageView, s: TrackedSnapshot)
    requires
        src.packages().contains(b),
        !b.same_id(a),
        within(b.root, a.root),
    ensures
        files_of(src, a, Listing::Repository(s)) matches Ok(v) ==> forall|k: int|
            0 <= k < v.len() ==> within(#[trigger] v[k], a.root) && !within(v[k], b.root)
                && v[k] != a.root + seq![lock_name()] && v[k] != a.root + seq![output_name()],
{
    let pred = |p: PackageView| !p.same_id(a) && within(p.root, a.root);
    let pkgs = src.packages();
    let i = choose|i: int| 0 <= i < pkgs.len() && pkgs[i] == b;
    pkgs.lemma_filter_contains(pred, i);
    let kept = pkgs.filter(pred);
    let j = choose|j: int| 0 <= j < kept.len() && kept[j] == b;
    assert(roots(kept)[j] == b.root);
    let nested = nested_of(src, a);
    crate::vcs::lemma_repo_files_bounded(s, 0, a.root, nested, filter_of(a));
    if let Ok(v) = files_of(src, a, Listing::Repository(s)) {
        assert forall|k: int| 0 <= k < v.len() implies within(#[trigger] v[k], a.root) && !within(v[k], b.root)
            && v[k] != a.root + seq![lock_name()] && v[k] != a.root + seq![output_name()] by {
            assert(crate::vcs::kept(v[k], a.root, nested));
            if within(v[k], b.root) {
                assert(under_any(v[k], nested));
            }
        }
    }
}

proof fn lemma_repeated_walk_kept(
    pkgs: Seq<PackageView>,
    pkg: PackageView,
    w: Result<Seq<Seq<Seq<char>>>, SourceError>,
    n: int,
    base: Seq<Seq<char>>,
)
    requires
        w matches Ok(b) ==> all_kept(b, base, true),
    ensures
        repeated_walk(pkgs, pkg, w, n) matches Ok(v) ==> all_kept(v, base, true),
    decreases n,
{
    if n > 0 {
        lemma_repeated_walk_kept(pkgs, pkg, w, n - 1, base);
        if let Ok(a) = repeated_walk(pkgs, pkg, w, n - 1) {
            if let Ok(b) = w {
                if pkgs[n - 1].same_id(pkg) {
                    let v = a + b;
                    assert forall|k: int| 0 <= k < v.len() implies #[trigger] walk_kept(v[k], base, true) by {
                        if k < a.len() {
                            assert(v[k] == a[k]);
                        } else {
                            assert(v[k] == b[k - a.len()]);
                        }
                    }
                }
            }
        }
    }
}

/// Listing a package by walking its directory: nothing outside its root,
/// nothing that passes through a metadata directory, and neither the lock file
/// nor the build output directory at its root, whatever its patterns say.
pub proof fn lemma_walk_listing_bounds(src: PathSource, pkg: PackageView, d: DiskSnapshot)
    requires
        fits(Listing::Walk(d), pkg),
    ensures
        files_of(src, pkg, Listing::Walk(d)) matches Ok(v) ==> forall|k: int|
            0 <= k < v.len() ==> within(#[trigger] v[k], pkg.root)
                && (forall|i: int| pkg.root.len() <= i < v[k].len() ==> v[k][i] != vcs_dir_name())
                && v[k] != pkg.root + seq![lock_name()] && v[k] != pkg.root + seq![output_name()],
{
    lemma_walk_kept(d, 0, true, filter_of(pkg));
    let w = walk_files(d, 0, true, filter_of(pkg));
    lemma_repeated_walk_kept(src.packages(), pkg, w, src.packages().len() as int, pkg.root);
    if let Ok(v) = files_of(src, pkg, Listing::Walk(d)) {
        assert forall|k: int| 0 <= k < v.len() implies within(#[trigger] v[k], pkg.root)
            && (forall|i: int| pkg.root.len() <= i < v[k].len() ==> v[k][i] != vcs_dir_name())
            && v[k] != pkg.root + seq![lock_name()] && v[k] != pkg.root + seq![output_name()] by {
            assert(walk_kept(v[k], pkg.root, true));
        }
    }
}

proof fn lemma_repeated_walk_same_id(
    pkgs: Seq<PackageView>,
    a: PackageView,
    b: PackageView,
    w: Result<Seq<Seq<Seq<char>>>, SourceError>,
    n: int,
)
    requires
        a.name == b.name,
        a.version == b.version,
    ensures
        repeated_walk(pkgs, a, w, n) == repeated_walk(pkgs, b, w, n),
    decreases n,
{
    if n > 0 {
        lemma_repeated_walk_same_id(pkgs, a, b, w, n - 1);
    }
}

/// Once a package's includes list is non-empty its excludes list has no say:
/// two packages that differ only in their excludes lists list the same files.
pub proof fn lemma_listing_ignores_excludes(src: PathSource, a: PackageView, b: PackageView, l: Listing)
    requires
        a.name == b.name,
        a.version == b.version,
        a.root == b.root,
        a.includes == b.includes,
        a.includes.len() > 0,
    ensures
        files_of(src, a, l) == files_of(src, b, l),
{
    assert forall|rel: Seq<char>| #[trigger] filter_of(a).admits(rel) == filter_of(b).admits(rel) by {
        crate::pattern::lemma_excludes_ignored_with_includes(a.includes, a.excludes, b.excludes, rel);
    }
    let pa = |p: PackageView| !p.same_id(a) && within(p.root, a.root);
    let pb = |p: PackageView| !p.same_id(b) && within(p.root, b.root);
    assert(pa =~= pb);
    assert(nested_of(src, a) == nested_of(src, b));
    match l {
        Listing::Repository(s) => {
            crate::vcs::lemma_repo_files_same_verdicts(s, 0, a.root, nested_of(src, a), filter_of(a), filter_of(b));
        },
        Listing::Walk(d) => {
            crate::walk::lemma_walk_same_verdicts(d, 0, true, filter_of(a), filter_of(b));
            lemma_repeated_walk_same_id(
                src.packages(),
                a,
                b,
                walk_files(d, 0, true, filter_of(a)),
                src.packages().len() as int,
            );
        },
    }
}

proof fn lemma_repeated_walk_none(
    pkgs: Seq<PackageView>,
    pkg: PackageView,
    w: Result<Seq<Seq<Seq<char>>>, SourceError>,
    n: int,
)
    requires
        forall|j: int| 0 <= j < n ==> !(#[trigger] pkgs[j]).same_id(pkg),
    ensures
        repeated_walk(pkgs, pkg, w, n) == Ok::<Seq<Seq<Seq<char>>>, SourceError>(Seq::empty()),
    decreases n,
{
    if n > 0 {
        lemma_repeated_walk_none(pkgs, pkg, w, n - 1);
    }
}

proof fn lemma_repeated_walk_once(
    pkgs: Seq<PackageView>,
    pkg: PackageView,
    w: Result<Seq<Seq<Seq<char>>>, SourceError>,
    n: int,
)
    requires
        n <= pkgs.len(),
        forall|j: int, k: int|
            0 <= j < pkgs.len() && 0 <= k < pkgs.len() && (#[trigger] pkgs[j]).same_id(pkg) && (#[trigger] pkgs[k]).same_id(pkg) ==> j == k,
    ensures
        repeated_walk(pkgs, pkg, w, n) matches Ok(v) ==> v.len() == 0 || w == Ok::<Seq<Seq<Seq<char>>>, SourceError>(v),
    decreases n,
{
    if n > 0 {
        if pkgs[n - 1].same_id(pkg) {
            assert forall|j: int| 0 <= j < n - 1 implies !(#[trigger] pkgs[j]).same_id(pkg) by {
                if pkgs[j].same_id(pkg) {
                    assert(j == n - 1);
                }
            }
            lemma_repeated_walk_none(pkgs, pkg, w, n - 1);
            if let Ok(b) = w {
                assert(Seq::<Seq<Seq<char>>>::empty() + b =~= b);
            }
        } else {
            lemma_repeated_walk_once(pkgs, pkg, w, n - 1);
        }
    }
}

/// Where `pkg`'s identity is found at most once, a walk lists no file twice.
pub proof fn lemma_walk_listing_no_dups(src: PathSource, pkg: PackageView, d: DiskSnapshot)
    requires
        fits(Listing::Walk(d), pkg),
        forall|j: int, k: int|
            0 <= j < src.packages().len() && 0 <= k < src.packages().len() && (#[trigger] src.packages()[j]).same_id(pkg)
                && (#[trigger] src.packages()[k]).same_id(pkg) ==> j == k,
    ensures
        files_of(src, pkg, Listing::Walk(d)) matches Ok(v) ==> no_dups(v),
{
    let w = walk_files(d, 0, true, filter_of(pkg));
    lemma_walk_no_dups(d, 0, true, filter_of(pkg));
    lemma_repeated_walk_once(src.packages(), pkg, w, src.packages().len() as int);
}

/// Every path of `v` is one of `b`.
pub open spec fn drawn_from(v: Seq<Seq<Seq<char>>>, b: Seq<Seq<Seq<char>>>) -> bool {
    forall|k: int| 0 <= k < v.len() ==> #[trigger] b.contains(v[k])
}

proof fn lemma_repeated_walk_from(
    pkgs: Seq<PackageView>,
    pkg: PackageView,
    w: Result<Seq<Seq<Seq<char>>>, SourceError>,
    n: int,
)
    ensures
        repeated_walk(pkgs, pkg, w, n) matches Ok(v) ==> v.len() == 0 || (w matches Ok(b) && drawn_from(v, b)),
    decreases n,
{
    if n > 0 {
        lemma_repeated_walk_from(pkgs, pkg, w, n - 1);
        if let Ok(a) = repeated_walk(pkgs, pkg, w, n - 1) {
            if pkgs[n - 1].same_id(pkg) {
                if let Ok(b) = w {
                    let v = a + b;
                    assert forall|k: int| 0 <= k < v.len() implies #[trigger] b.contains(v[k]) by {
                        if k < a.len() {
                            assert(v[k] == a[k]);
                            assert(b.contains(a[k]));
                        } else {
                            assert(v[k] == b[k - a.len()]);
                        }
                    }
                }
            }
        }
    }
}

/// Listing package `a` by a walk gives nothing within `sub`, a directory below
/// `a`'s root where the snapshot holds another package's manifest.
pub proof fn lemma_walk_nested_boundary(src: PathSource, a: PackageView, d: DiskSnapshot, sub: Seq<Seq<char>>)
    requires
        fits(Listing::Walk(d), a),
        within(sub, a.root),
        sub.len() > a.root.len(),
        forall|m: int| 0 <= m < d.nodes.len() && #[trigger] parts(&d.nodes@[m].path) == sub ==> (d.nodes@[m].kind matches DiskKind::Directory { manifest, .. } && manifest),
    ensures
        files_of(src, a, Listing::Walk(d)) matches Ok(v) ==> forall|k: int| 0 <= k < v.len() ==> !within(#[trigger] v[k], sub),
{
    lemma_walk_entered(d, 0, true, filter_of(a));
    let w = walk_files(d, 0, true, filter_of(a));
    lemma_repeated_walk_from(src.packages(), a, w, src.packages().len() as int);
    if let Ok(v) = files_of(src, a, Listing::Walk(d)) {
        let b = w->Ok_0;
        {
            assert forall|k: int| 0 <= k < v.len() implies !within(#[trigger] v[k], sub) by {
                assert(b.contains(v[k]));
                let j = choose|j: int| 0 <= j < b.len() && b[j] == v[k];
                let o = b[j];
                assert(entered(d, o, a.root.len() + 1int) && file_at(d, o));
                if within(o, sub) {
                    if o.len() == sub.len() {
                        assert(o.take(sub.len() as int) =~= o);
                        let m = choose|m: int| 0 <= m < d.nodes.len() && parts(&d.nodes@[m].path) == o && d.nodes@[m].kind is Plain;
                        assert(parts(&d.nodes@[m].path) == sub);
                    } else {
                        assert(dir_at(d, o.take(sub.len() as int)));
                        let m = choose|m: int| 0 <= m < d.nodes.len() && parts(&d.nodes@[m].path) == o.take(sub.len() as int)
                            && crate::walk::plain_dir(d, m);
                        assert(parts(&d.nodes@[m].path) == sub);
                    }
                }
            }
        }
    }
}

/// Raising one file's modification time past the newest one makes it the
/// newest: the fingerprint moves forward.
pub proof fn lemma_touch_moves_forward(ts: Seq<Option<u64>>, i: int, t: u64)
    requires
        0 <= i < ts.len(),
        t as nat > newest(ts),
    ensures
        newest(ts.update(i, Some(t))) == t as nat,
        newest(ts.update(i, Some(t))) > newest(ts),
    decreases ts.len(),
{
    lemma_newest_is_max(ts);
    let u = ts.update(i, Some(t));
    lemma_newest_is_max(u);
    assert(mtime_or_zero(u[i]) == t as nat);
}

/// The newest time is at least each file's time, and is one of them (or zero).
pub proof fn lemma_newest_is_max(ts: Seq<Option<u64>>)
    ensures
        forall|k: int| 0 <= k < ts.len() ==> mtime_or_zero(#[trigger] ts[k]) <= newest(ts),
        newest(ts) == 0 || exists|k: int| 0 <= k < ts.len() && mtime_or_zero(ts[k]) == newest(ts),
    decreases ts.len(),
{
    if ts.len() > 0 {
        let d = ts.drop_last();
        lemma_newest_is_max(d);
        assert forall|k: int| 0 <= k < ts.len() implies mtime_or_zero(#[trigger] ts[k]) <= newest(ts) by {
            if k < d.len() {
                assert(ts[k] == d[k]);
            }
        }
        if newest(ts) != 0 {
            if newest(ts) == mtime_or_zero(ts.last()) {
                assert(mtime_or_zero(ts[ts.len() - 1]) == newest(ts));
            } else {
                let k = choose|k: int| 0 <= k < d.len() && mtime_or_zero(d[k]) == newest(d);
                assert(ts[k] == d[k]);
            }
        }
    }
}

/// Where no file could be read, or none is left, the fingerprint is time zero.
pub proof fn lemma_unreadable_files_give_zero(ts: Seq<Option<u64>>)
    requires
        forall|k: int| 0 <= k < ts.len() ==> ts[k] is None,
    ensures
        newest(ts) == 0,
{
    lemma_newest_is_max(ts);
}

proof fn lemma_digit_injective(a: nat, b: nat)
    requires
        a < 10,
        b < 10,
        "0123456789"@[a as int] == "0123456789"@[b as int],
    ensures
        a == b,
{
    reveal_strlit("0123456789");
}

proof fn lemma_decimal_len(n: nat)
    ensures
        decimal(n).len() >= 1,
        n >= 10 ==> decimal(n).len() >= 2,
    decreases n,
{
    if n >= 10 {
        lemma_decimal_len(n / 10);
    }
}

/// Different times give different tokens.
pub proof fn lemma_decimal_injective(a: nat, b: nat)
    requires
        decimal(a) == decimal(b),
    ensures
        a == b,
    decreases a,
{
    reveal_strlit("0123456789");
    lemma_decimal_len(a);
    lemma_decimal_len(b);
    if a < 10 && b < 10 {
        let da = decimal(a);
        let db = decimal(b);
        assert(da == seq!["0123456789"@[a as int]]);
        assert(db == seq!["0123456789"@[b as int]]);
        assert(da[0] == "0123456789"@[a as int]);
        assert(db[0] == "0123456789"@[b as int]);
        lemma_digit_injective(a, b);
    } else if a >= 10 && b >= 10 {
        let da = decimal(a / 10);
        let db = decimal(b / 10);
        assert(decimal(a).last() == "0123456789"@[(a % 10) as int]);
        assert(decimal(b).last() == "0123456789"@[(b % 10) as int]);
        lemma_digit_injective(a % 10, b % 10);
        assert(decimal(a).drop_last() =~= da);
        assert(decimal(b).drop_last() =~= db);
        lemma_decimal_injective(a / 10, b / 10);
    }
}

/// Touching a file past the newest time changes the fingerprint's token.
pub proof fn lemma_touch_changes_token(ts: Seq<Option<u64>>, i: int, t: u64)
    requires
        0 <= i < ts.len(),
        t as nat > newest(ts),
    ensures
        decimal(newest(ts.update(i, Some(t)))) != decimal(newest(ts)),
{
    lemma_touch_moves_forward(ts, i, t);
    if decimal(newest(ts.update(i, Some(t)))) == decimal(newest(ts)) {
        lemma_decimal_injective(newest(ts.update(i, Some(t))), newest(ts));
    }
}

} // verus!
