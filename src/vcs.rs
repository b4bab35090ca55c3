//! Listing a package's files from the index of a repository, going
//! down into checked-out submodules.
use vstd::prelude::*;
use crate::error::SourceError;
use crate::path::{lock_name, output_name, parts, within, is_within, is_reserved, is_reserved_from, under_any, is_under_any, concat_paths};
use crate::pattern::{Filter, FilterSpec, joined, join_from};
use crate::package::copy_strings;

verus! {

/// What came of looking up a directory of the index among the declared submodules.
pub enum SubmoduleState {
    /// It is not a declared submodule; the lookup's message.
    Undeclared(String),
    /// It is declared but could not be opened (never checked out).
    Unopened,
    /// It opened; the index of its repository in the snapshot.
    Opened(usize),
}

/// What an entry of the index is on disk.
pub enum TrackedKind {
    File,
    Directory(SubmoduleState),
}

/// One entry of a repository's index.
pub struct TrackedEntry {
    /// Its recorded path, relative to the working tree, as components; where
    /// it cannot be represented on this host, the recorded path with its
    /// undecodable bytes replaced.
    pub path: Result<Vec<String>, String>,
    pub kind: TrackedKind,
}

/// One repository as read from disk.
pub struct TrackedRepo {
    /// The working tree's directory; `None` for a bare repository.
    pub workdir: Option<Vec<String>>,
    /// The entries in index order, or why the index could not be read.
    pub index: Result<Vec<TrackedEntry>, String>,
}

/// A repository and every submodule that was opened under it. The first
/// repository is the top one; a submodule always comes after its parent.
pub struct TrackedSnapshot {
    pub repos: Vec<TrackedRepo>,
}

pub open spec fn child_after(e: TrackedEntry, r: int, n: int) -> bool {
    match e.kind {
        TrackedKind::Directory(SubmoduleState::Opened(c)) => r < c < n,
        _ => true,
    }
}

pub open spec fn entries_of(s: TrackedSnapshot, r: int) -> Seq<TrackedEntry> {
    match s.repos@[r].index {
        Ok(v) => v@,
        Err(_) => Seq::empty(),
    }
}

impl TrackedSnapshot {
    /// There is a top repository, and every opened submodule refers to a
    /// later repository of the snapshot.
    pub open spec fn wf(&self) -> bool {
        &&& self.repos.len() > 0
        &&& forall|r: int, i: int|
            0 <= r < self.repos.len() && 0 <= i < entries_of(*self, r).len() ==> child_after(
                #[trigger] entries_of(*self, r)[i],
                r,
                self.repos.len() as int,
            )
    }
}

/// A list of paths as component sequences, or the error that stopped it.
pub open spec fn listing(r: Result<Vec<Vec<String>>, SourceError>) -> Result<Seq<Seq<Seq<char>>>, SourceError> {
    match r {
        Ok(v) => Ok(v.deep_view()),
        Err(e) => Err(e),
    }
}

/// The files that repository `r` of `s` contributes to the package rooted at
/// `root`, given the roots of the other packages nested under it.
pub open spec fn repo_files(
    s: TrackedSnapshot,
    r: int,
    root: Seq<Seq<char>>,
    nested: Seq<Seq<Seq<char>>>,
    f: FilterSpec,
) -> Result<Seq<Seq<Seq<char>>>, SourceError>
    decreases s.repos.len() - r, entries_of(s, r).len() + 1,
{
    if r < 0 || r >= s.repos.len() {
        Ok(Seq::empty())
    } else {
        match s.repos@[r].index {
            Err(m) => Err(SourceError::Index { message: m }),
            Ok(v) => match s.repos@[r].workdir {
                None => Err(SourceError::BareRepository),
                Some(w) => prefix_files(s, r, parts(&w), v@.len() as int, root, nested, f),
            },
        }
    }
}

/// The files that the first `n` entries of repository `r` contribute, in order.
pub open spec fn prefix_files(
    s: TrackedSnapshot,
    r: int,
    w: Seq<Seq<char>>,
    n: int,
    root: Seq<Seq<char>>,
    nested: Seq<Seq<Seq<char>>>,
    f: FilterSpec,
) -> Result<Seq<Seq<Seq<char>>>, SourceError>
    decreases s.repos.len() - r, n,
{
    if n <= 0 || r < 0 || r >= s.repos.len() {
        Ok(Seq::empty())
    } else {
        match prefix_files(s, r, w, n - 1, root, nested, f) {
            Err(e) => Err(e),
            Ok(a) => match entry_files(s, r, w, n - 1, root, nested, f) {
                Err(e) => Err(e),
                Ok(b) => Ok(a + b),
            },
        }
    }
}

/// The files that entry `i` of repository `r`, whose working tree is `w`,
/// contributes: none where it lies outside the package, is the lock file or
/// the build output directory at the package's root, or lies in a nested package; a file where the
/// filter lets it in; a checked-out submodule's own files.
pub open spec fn entry_files(
    s: TrackedSnapshot,
    r: int,
    w: Seq<Seq<char>>,
    i: int,
    root: Seq<Seq<char>>,
    nested: Seq<Seq<Seq<char>>>,
    f: FilterSpec,
) -> Result<Seq<Seq<Seq<char>>>, SourceError>
    decreases s.repos.len() - r, 0int,
{
    let e = entries_of(s, r)[i];
    match e.path {
        Err(raw) => Err(SourceError::InvalidPath { path: raw }),
        Ok(p) => {
            let file = w + parts(&p);
            if !within(file, root) || is_reserved(file.subrange(root.len() as int, file.len() as int))
                || under_any(file, nested) {
                Ok(Seq::empty())
            } else {
                match e.kind {
                    TrackedKind::File => if f.admits(
                        joined(file.subrange(root.len() as int, file.len() as int)),
                    ) {
                        Ok(seq![file])
                    } else {
                        Ok(Seq::empty())
                    },
                    TrackedKind::Directory(SubmoduleState::Undeclared(m)) => Err(
                        SourceError::Submodule { message: m },
                    ),
                    TrackedKind::Directory(SubmoduleState::Unopened) => Ok(Seq::empty()),
                    TrackedKind::Directory(SubmoduleState::Opened(c)) => if r < c
                        && c < s.repos.len() {
                        repo_files(s, c as int, root, nested, f)
                    } else {
                        Ok(Seq::empty())
                    },
                }
            }
        },
    }
}

/// Once an entry fails, the listing of every longer prefix fails the same way.
proof fn lemma_error_stops_listing(
    s: TrackedSnapshot,
    r: int,
    w: Seq<Seq<char>>,
    n: int,
    m: int,
    root: Seq<Seq<char>>,
    nested: Seq<Seq<Seq<char>>>,
    f: FilterSpec,
)
    requires
        n <= m,
        prefix_files(s, r, w, n, root, nested, f) is Err,
    ensures
        prefix_files(s, r, w, m, root, nested, f) == prefix_files(s, r, w, n, root, nested, f),
    decreases m - n,
{
    if n < m {
        lemma_error_stops_listing(s, r, w, n, m - 1, root, nested, f);
    }
}

/// Appends copies of the paths of `more` to `out`.
pub fn extend_paths(out: &mut Vec<Vec<String>>, more: &Vec<Vec<String>>)
    ensures
        final(out).deep_view() == old(out).deep_view() + more.deep_view(),
{
    let ghost start = out.deep_view();
    let mut j: usize = 0;
    while j < more.len()
        invariant
            j <= more.len(),
            out.deep_view() == start + more.deep_view().take(j as int),
        decreases more.len() - j,
    {
        let c = copy_strings(&more[j]);
        assert(parts(&c) =~= more.deep_view()[j as int]);
        let ghost prev = out.deep_view();
        let ghost pc = parts(&c);
        out.push(c);
        assert(out.deep_view() =~= prev.push(pc));
        assert(more.deep_view().take(j + 1) =~= more.deep_view().take(j as int).push(pc));
        assert(out.deep_view() =~= start + more.deep_view().take(j + 1));
        j += 1;
    }
    assert(more.deep_view().take(more.len() as int) =~= more.deep_view());
}

/// Lists the files of repository `r` of `s` that belong to the package rooted
/// at `root`, skipping the files of the packages rooted at `nested`.
pub fn list_repo(
    s: &TrackedSnapshot,
    r: usize,
    root: &Vec<String>,
    nested: &Vec<Vec<String>>,
    f: &Filter,
) -> (res: Result<Vec<Vec<String>>, SourceError>)
    requires
        s.wf(),
        r < s.repos.len(),
        f.wf(),
    ensures
        listing(res) == repo_files(*s, r as int, parts(root), nested.deep_view(), f@),
    decreases s.repos.len() - r,
{
    let repo = &s.repos[r];
    let entries = match &repo.index {
        Err(m) => return Err(SourceError::Index { message: m.clone() }),
        Ok(v) => v,
    };
    let w = match &repo.workdir {
        None => return Err(SourceError::BareRepository),
        Some(w) => w,
    };
    let ghost sr = *s;
    let ghost gw = parts(w);
    let ghost groot = parts(root);
    let ghost gn = nested.deep_view();
    let mut ret: Vec<Vec<String>> = Vec::new();
    assert(ret.deep_view() =~= Seq::<Seq<Seq<char>>>::empty());
    let mut i: usize = 0;
    while i < entries.len()
        invariant
            s.wf(),
            f.wf(),
            r < s.repos.len(),
            *s == sr,
            repo == s.repos@[r as int],
            repo.index == Ok::<Vec<TrackedEntry>, String>(*entries),
            repo.workdir == Some(*w),
            gw == parts(w),
            groot == parts(root),
            gn == nested.deep_view(),
            i <= entries.len(),
            prefix_files(sr, r as int, gw, i as int, groot, gn, f@) == Ok::<Seq<Seq<Seq<char>>>, SourceError>(ret.deep_view()),
        decreases entries.len() - i,
    {
        let e = &entries[i];
        assert(entries_of(sr, r as int)[i as int] == *e);
        let ghost before = ret.deep_view();
        match &e.path {
            Err(raw) => {
                proof {
                    lemma_error_stops_listing(sr, r as int, gw, i + 1, entries.len() as int, groot, gn, f@);
                }
                return Err(SourceError::InvalidPath { path: raw.clone() });
            },
            Ok(p) => {
                let file = concat_paths(w, p);
                let skip = !is_within(&file, root) || is_reserved_from(&file, root.len())
                    || is_under_any(&file, nested);
                if !skip {
                    match &e.kind {
                        TrackedKind::File => {
                            let rel = join_from(&file, root.len());
                            if f.matches(rel.as_str()) {
                                ret.push(file);
                                assert(ret.deep_view() =~= before + seq![parts(&file)]);
                            }
                        },
                        TrackedKind::Directory(SubmoduleState::Undeclared(m)) => {
                            proof {
                                lemma_error_stops_listing(sr, r as int, gw, i + 1, entries.len() as int, groot, gn, f@);
                            }
                            return Err(SourceError::Submodule { message: m.clone() });
                        },
                        TrackedKind::Directory(SubmoduleState::Unopened) => {},
                        TrackedKind::Directory(SubmoduleState::Opened(c)) => {
                            assert(child_after(entries_of(sr, r as int)[i as int], r as int, s.repos.len() as int));
                            let sub = list_repo(s, *c, root, nested, f);
                            match sub {
                                Err(err) => {
                                    proof {
                                        lemma_error_stops_listing(sr, r as int, gw, i + 1, entries.len() as int, groot, gn, f@);
                                    }
                                    return Err(err);
                                },
                                Ok(sub) => extend_paths(&mut ret, &sub),
                            }
                        },
                    }
                }
                assert(ret.deep_view() =~= before + entry_files(sr, r as int, gw, i as int, groot, gn, f@)->Ok_0);
            },
        }
        i += 1;
    }
    Ok(ret)
}

} // verus!

verus! {

/// Every path of `v` lies within `root`, outside every root of `nested`, and
/// is not the lock file or the build output directory at `root`.
pub open spec fn bounded(v: Seq<Seq<Seq<char>>>, root: Seq<Seq<char>>, nested: Seq<Seq<Seq<char>>>) -> bool {
    forall|k: int| 0 <= k < v.len() ==> #[trigger] kept(v[k], root, nested)
}

/// `f` lies within `root`, outside every root of `nested`, and is not the
/// lock file or the build output directory at `root`.
pub open spec fn kept(f: Seq<Seq<char>>, root: Seq<Seq<char>>, nested: Seq<Seq<Seq<char>>>) -> bool {
    within(f, root) && !under_any(f, nested) && f != root + seq![lock_name()] && f != root + seq![output_name()]
}

proof fn lemma_bounded_concat(a: Seq<Seq<Seq<char>>>, b: Seq<Seq<Seq<char>>>, root: Seq<Seq<char>>, nested: Seq<Seq<Seq<char>>>)
    requires
        bounded(a, root, nested),
        bounded(b, root, nested),
    ensures
        bounded(a + b, root, nested),
{
    assert forall|k: int| 0 <= k < (a + b).len() implies #[trigger] kept((a + b)[k], root, nested) by {
        if k < a.len() {
            assert((a + b)[k] == a[k]);
        } else {
            assert((a + b)[k] == b[k - a.len()]);
        }
    }
}

/// A package's listing from a repository's index holds only paths within the
/// package's root, none within the root of a package nested under it, and
/// neither the lock file nor the build output directory at the package's root.
pub proof fn lemma_repo_files_bounded(
    s: TrackedSnapshot,
    r: int,
    root: Seq<Seq<char>>,
    nested: Seq<Seq<Seq<char>>>,
    f: FilterSpec,
)
    ensures
        repo_files(s, r, root, nested, f) matches Ok(v) ==> bounded(v, root, nested),
    decreases s.repos.len() - r, entries_of(s, r).len() + 1,
{
    if 0 <= r < s.repos.len() {
        match s.repos@[r].index {
            Err(_) => {},
            Ok(v) => match s.repos@[r].workdir {
                None => {},
                Some(w) => lemma_prefix_files_bounded(s, r, parts(&w), v@.len() as int, root, nested, f),
            },
        }
    }
}

proof fn lemma_prefix_files_bounded(
    s: TrackedSnapshot,
    r: int,
    w: Seq<Seq<char>>,
    n: int,
    root: Seq<Seq<char>>,
    nested: Seq<Seq<Seq<char>>>,
    f: FilterSpec,
)
    ensures
        prefix_files(s, r, w, n, root, nested, f) matches Ok(v) ==> bounded(v, root, nested),
    decreases s.repos.len() - r, n,
{
    if n > 0 && 0 <= r < s.repos.len() {
        lemma_prefix_files_bounded(s, r, w, n - 1, root, nested, f);
        lemma_entry_files_bounded(s, r, w, n - 1, root, nested, f);
        match prefix_files(s, r, w, n - 1, root, nested, f) {
            Err(_) => {},
            Ok(a) => match entry_files(s, r, w, n - 1, root, nested, f) {
                Err(_) => {},
                Ok(b) => lemma_bounded_concat(a, b, root, nested),
            },
        }
    }
}

proof fn lemma_entry_files_bounded(
    s: TrackedSnapshot,
    r: int,
    w: Seq<Seq<char>>,
    i: int,
    root: Seq<Seq<char>>,
    nested: Seq<Seq<Seq<char>>>,
    f: FilterSpec,
)
    ensures
        entry_files(s, r, w, i, root, nested, f) matches Ok(v) ==> bounded(v, root, nested),
    decreases s.repos.len() - r, 0int,
{
    let e = entries_of(s, r)[i];
    if let TrackedKind::Directory(SubmoduleState::Opened(c)) = e.kind {
        if r < c && c < s.repos.len() {
            lemma_repo_files_bounded(s, c as int, root, nested, f);
        }
    }
    if let Ok(p) = e.path {
        let file = w + parts(&p);
        if within(file, root) {
            let rest = file.subrange(root.len() as int, file.len() as int);
            if file == root + seq![lock_name()] {
                assert(rest =~= seq![lock_name()]);
            }
            if file == root + seq![output_name()] {
                assert(rest =~= seq![output_name()]);
            }
        }
    }
}

/// An entry that is the lock file or the build output directory at the
/// package's root adds nothing to a listing, whatever the filter says.
pub proof fn lemma_reserved_entries_dropped(
    s: TrackedSnapshot,
    r: int,
    w: Seq<Seq<char>>,
    i: int,
    root: Seq<Seq<char>>,
    nested: Seq<Seq<Seq<char>>>,
    f: FilterSpec,
)
    requires
        entries_of(s, r)[i].path matches Ok(p) && within(w + parts(&p), root)
            && is_reserved((w + parts(&p)).subrange(root.len() as int, (w + parts(&p)).len() as int)),
    ensures
        entry_files(s, r, w, i, root, nested, f) == Ok::<Seq<Seq<Seq<char>>>, SourceError>(Seq::empty()),
{
}

/// A checked-out submodule inside the package adds its own listing; one that
/// was never checked out adds nothing and does not fail the listing.
pub proof fn lemma_submodules(
    s: TrackedSnapshot,
    r: int,
    w: Seq<Seq<char>>,
    i: int,
    root: Seq<Seq<char>>,
    nested: Seq<Seq<Seq<char>>>,
    f: FilterSpec,
)
    requires
        s.wf(),
        0 <= r < s.repos.len(),
        0 <= i < entries_of(s, r).len(),
        entries_of(s, r)[i].path matches Ok(p) && within(w + parts(&p), root)
            && !is_reserved((w + parts(&p)).subrange(root.len() as int, (w + parts(&p)).len() as int))
            && !under_any(w + parts(&p), nested),
    ensures
        entries_of(s, r)[i].kind matches TrackedKind::Directory(SubmoduleState::Opened(c))
            ==> entry_files(s, r, w, i, root, nested, f) == repo_files(s, c as int, root, nested, f),
        entries_of(s, r)[i].kind matches TrackedKind::Directory(SubmoduleState::Unopened)
            ==> entry_files(s, r, w, i, root, nested, f) == Ok::<Seq<Seq<Seq<char>>>, SourceError>(Seq::empty()),
{
    assert(child_after(entries_of(s, r)[i], r, s.repos.len() as int));
}

} // verus!

verus! {

/// Two filters that let in the same paths.
pub open spec fn same_verdicts(f1: FilterSpec, f2: FilterSpec) -> bool {
    forall|rel: Seq<char>| #[trigger] f1.admits(rel) == f2.admits(rel)
}

/// A listing from an index depends on the filter only through what it lets in.
pub proof fn lemma_repo_files_same_verdicts(
    s: TrackedSnapshot,
    r: int,
    root: Seq<Seq<char>>,
    nested: Seq<Seq<Seq<char>>>,
    f1: FilterSpec,
    f2: FilterSpec,
)
    requires
        same_verdicts(f1, f2),
    ensures
        repo_files(s, r, root, nested, f1) == repo_files(s, r, root, nested, f2),
    decreases s.repos.len() - r, entries_of(s, r).len() + 1,
{
    if 0 <= r < s.repos.len() {
        if let Ok(v) = s.repos@[r].index {
            if let Some(w) = s.repos@[r].workdir {
                lemma_prefix_files_same_verdicts(s, r, parts(&w), v@.len() as int, root, nested, f1, f2);
            }
        }
    }
}

proof fn lemma_prefix_files_same_verdicts(
    s: TrackedSnapshot,
    r: int,
    w: Seq<Seq<char>>,
    n: int,
    root: Seq<Seq<char>>,
    nested: Seq<Seq<Seq<char>>>,
    f1: FilterSpec,
    f2: FilterSpec,
)
    requires
        same_verdicts(f1, f2),
    ensures
        prefix_files(s, r, w, n, root, nested, f1) == prefix_files(s, r, w, n, root, nested, f2),
    decreases s.repos.len() - r, n,
{
    if n > 0 && 0 <= r < s.repos.len() {
        lemma_prefix_files_same_verdicts(s, r, w, n - 1, root, nested, f1, f2);
        lemma_entry_files_same_verdicts(s, r, w, n - 1, root, nested, f1, f2);
    }
}

proof fn lemma_entry_files_same_verdicts(
    s: TrackedSnapshot,
    r: int,
    w: Seq<Seq<char>>,
    i: int,
    root: Seq<Seq<char>>,
    nested: Seq<Seq<Seq<char>>>,
    f1: FilterSpec,
    f2: FilterSpec,
)
    requires
        same_verdicts(f1, f2),
    ensures
        entry_files(s, r, w, i, root, nested, f1) == entry_files(s, r, w, i, root, nested, f2),
    decreases s.repos.len() - r, 0int,
{
    let e = entries_of(s, r)[i];
    if let TrackedKind::Directory(SubmoduleState::Opened(c)) = e.kind {
        if r < c && c < s.repos.len() {
            lemma_repo_files_same_verdicts(s, c as int, root, nested, f1, f2);
        }
    }
    if let Ok(p) = e.path {
        let file = w + parts(&p);
        let rel = joined(file.subrange(root.len() as int, file.len() as int));
        assert(f1.admits(rel) == f2.admits(rel));
    }
}

} // verus!

verus! {

/// With empty includes and excludes lists, a file entry inside the package,
/// not reserved and not in a nested package, is listed.
pub proof fn lemma_empty_lists_keep_file_entries(
    s: TrackedSnapshot,
    r: int,
    w: Seq<Seq<char>>,
    i: int,
    root: Seq<Seq<char>>,
    nested: Seq<Seq<Seq<char>>>,
)
    requires
        entries_of(s, r)[i].kind is File,
        entries_of(s, r)[i].path matches Ok(p) && within(w + parts(&p), root)
            && !is_reserved((w + parts(&p)).subrange(root.len() as int, (w + parts(&p)).len() as int))
            && !under_any(w + parts(&p), nested),
    ensures
        entry_files(s, r, w, i, root, nested, FilterSpec { includes: Seq::empty(), excludes: Seq::empty() })
            == Ok::<Seq<Seq<Seq<char>>>, SourceError>(seq![w + parts(&entries_of(s, r)[i].path->Ok_0)]),
{
}

} // verus!

