//! Listing a package's files by walking its directory on disk.
use vstd::prelude::*;
use crate::error::SourceError;
use crate::path::{parts, within, lock_name, output_name, vcs_dir_name, is_reserved_name, is_vcs_dir_name};
use crate::pattern::{Filter, FilterSpec, joined, join_from};
use crate::vcs::listing;

verus! {

/// What a node of the walk is on disk.
pub enum DiskKind {
    /// Not a directory: a file, or nothing at all.
    Plain,
    /// A directory: whether it holds a package manifest, and its entries as
    /// indices of later nodes, or why it could not be read.
    Directory { manifest: bool, entries: Result<Vec<usize>, String> },
}

/// A path met by the walk.
pub struct DiskNode {
    /// Its absolute path, as components.
    pub path: Vec<String>,
    pub kind: DiskKind,
}

/// A directory tree as read from disk; the first node is where the walk
/// starts, and each node's entries come after it.
pub struct DiskSnapshot {
    pub nodes: Vec<DiskNode>,
}

pub open spec fn entries_after(k: DiskKind, n: int, len: int) -> bool {
    match k {
        DiskKind::Directory { entries: Ok(cs), .. } => forall|j: int|
            0 <= j < cs.len() ==> n < #[trigger] cs@[j] < len,
        _ => true,
    }
}

/// Each entry `c` of node `n` is `n`'s path with one more component.
pub open spec fn entries_extend(s: DiskSnapshot, n: int) -> bool {
    match s.nodes@[n].kind {
        DiskKind::Directory { entries: Ok(cs), .. } => forall|j: int|
            0 <= j < cs.len() ==> #[trigger] one_below(parts(&s.nodes@[cs@[j] as int].path), parts(&s.nodes@[n].path)),
        _ => true,
    }
}

/// The entries of node `n` have pairwise different paths.
pub open spec fn entries_distinct(s: DiskSnapshot, n: int) -> bool {
    match s.nodes@[n].kind {
        DiskKind::Directory { entries: Ok(cs), .. } => forall|j1: int, j2: int|
            0 <= j1 < cs.len() && 0 <= j2 < cs.len() && j1 != j2 ==> parts(&s.nodes@[#[trigger] cs@[j1] as int].path)
                != parts(&s.nodes@[#[trigger] cs@[j2] as int].path),
        _ => true,
    }
}

/// `c` is `p` with one more component.
pub open spec fn one_below(c: Seq<Seq<char>>, p: Seq<Seq<char>>) -> bool {
    c.len() == p.len() + 1 && c.take(p.len() as int) == p
}

impl DiskSnapshot {
    pub open spec fn root_spec(&self) -> Seq<Seq<char>> {
        parts(&self.nodes@[0].path)
    }

    /// There is a start node, every node lies within it, and the entries of a
    /// directory come after it, are its path with one more component, and
    /// differ from each other.
    pub open spec fn wf(&self) -> bool {
        &&& self.nodes.len() > 0
        &&& forall|n: int|
            0 <= n < self.nodes.len() ==> within(parts(&#[trigger] self.nodes@[n].path), self.root_spec())
        &&& forall|n: int|
            0 <= n < self.nodes.len() ==> entries_after(#[trigger] self.nodes@[n].kind, n, self.nodes.len() as int)
        &&& forall|n: int| 0 <= n < self.nodes.len() ==> #[trigger] entries_extend(*self, n)
        &&& forall|n: int| 0 <= n < self.nodes.len() ==> #[trigger] entries_distinct(*self, n)
    }
}

pub open spec fn entry_count(s: DiskSnapshot, n: int) -> int {
    match s.nodes@[n].kind {
        DiskKind::Directory { entries: Ok(cs), .. } => cs.len() as int,
        _ => 0,
    }
}

/// The files that the walk finds from node `n`: a non-directory where the
/// filter lets it in, relative to the start; nothing in a directory other
/// than the start that holds a manifest; else the files of its entries.
pub open spec fn walk_files(s: DiskSnapshot, n: int, at_start: bool, f: FilterSpec) -> Result<
    Seq<Seq<Seq<char>>>,
    SourceError,
>
    decreases s.nodes.len() - n, entry_count(s, n) + 1,
{
    if n < 0 || n >= s.nodes.len() {
        Ok(Seq::empty())
    } else {
        let p = parts(&s.nodes@[n].path);
        match s.nodes@[n].kind {
            DiskKind::Plain => if f.admits(joined(p.subrange(s.root_spec().len() as int, p.len() as int))) {
                Ok(seq![p])
            } else {
                Ok(Seq::empty())
            },
            DiskKind::Directory { manifest, entries } => if !at_start && manifest {
                Ok(Seq::empty())
            } else {
                match entries {
                    Err(m) => Err(SourceError::Io { message: m }),
                    Ok(cs) => entries_files(s, n, cs@, cs.len() as int, at_start, f),
                }
            },
        }
    }
}

/// The files of the first `k` entries `cs` of directory node `n`.
pub open spec fn entries_files(s: DiskSnapshot, n: int, cs: Seq<usize>, k: int, at_start: bool, f: FilterSpec) -> Result<
    Seq<Seq<Seq<char>>>,
    SourceError,
>
    decreases s.nodes.len() - n, k,
{
    if k <= 0 {
        Ok(Seq::empty())
    } else {
        match entries_files(s, n, cs, k - 1, at_start, f) {
            Err(e) => Err(e),
            Ok(a) => match child_files(s, n, cs[k - 1] as int, at_start, f) {
                Err(e) => Err(e),
                Ok(b) => Ok(a + b),
            },
        }
    }
}

/// Whether the walk passes over an entry named `name`: the metadata directory
/// anywhere, the lock file and the build output directory at the start.
pub open spec fn skipped_name(name: Seq<char>, at_start: bool) -> bool {
    name == vcs_dir_name() || (at_start && (name == lock_name() || name == output_name()))
}

/// The files of entry `c` of directory node `n`.
pub open spec fn child_files(s: DiskSnapshot, n: int, c: int, at_start: bool, f: FilterSpec) -> Result<
    Seq<Seq<Seq<char>>>,
    SourceError,
>
    decreases s.nodes.len() - n, 0int,
{
    if !(n < c < s.nodes.len()) {
        Ok(Seq::empty())
    } else {
        let p = parts(&s.nodes@[c].path);
        if p.len() > 0 && skipped_name(p.last(), at_start) {
            Ok(Seq::empty())
        } else {
            walk_files(s, c, false, f)
        }
    }
}

/// Once an entry fails, the walk of every longer prefix of entries fails the same way.
proof fn lemma_error_stops_walk(
    s: DiskSnapshot,
    n: int,
    cs: Seq<usize>,
    k: int,
    m: int,
    at_start: bool,
    f: FilterSpec,
)
    requires
        k <= m,
        entries_files(s, n, cs, k, at_start, f) is Err,
    ensures
        entries_files(s, n, cs, m, at_start, f) == entries_files(s, n, cs, k, at_start, f),
    decreases m - k,
{
    if k < m {
        lemma_error_stops_walk(s, n, cs, k, m - 1, at_start, f);
    }
}

/// Whether the walk passes over the path `p`, by its last component.
fn is_skipped(p: &Vec<String>, at_start: bool) -> (r: bool)
    ensures
        r == (parts(p).len() > 0 && skipped_name(parts(p).last(), at_start)),
{
    if p.len() == 0 {
        return false;
    }
    let name = &p[p.len() - 1];
    assert(parts(p).last() == name@);
    is_vcs_dir_name(name) || (at_start && is_reserved_name(name))
}

/// Walks the snapshot from node `n` and lists the files the filter lets in.
pub fn walk_node(s: &DiskSnapshot, n: usize, at_start: bool, f: &Filter) -> (res: Result<
    Vec<Vec<String>>,
    SourceError,
>)
    requires
        s.wf(),
        n < s.nodes.len(),
        f.wf(),
    ensures
        listing(res) == walk_files(*s, n as int, at_start, f@),
    decreases s.nodes.len() - n,
{
    let node = &s.nodes[n];
    assert(within(parts(&s.nodes@[n as int].path), s.root_spec()));
    let root_len = s.nodes[0].path.len();
    match &node.kind {
        DiskKind::Plain => {
            let rel = join_from(&node.path, root_len);
            if f.matches(rel.as_str()) {
                let mut out: Vec<Vec<String>> = Vec::new();
                out.push(crate::package::copy_strings(&node.path));
                assert(out.deep_view() =~= seq![parts(&node.path)]);
                Ok(out)
            } else {
                let out: Vec<Vec<String>> = Vec::new();
                assert(out.deep_view() =~= Seq::<Seq<Seq<char>>>::empty());
                Ok(out)
            }
        },
        DiskKind::Directory { manifest, entries } => {
            if !at_start && *manifest {
                let out: Vec<Vec<String>> = Vec::new();
                assert(out.deep_view() =~= Seq::<Seq<Seq<char>>>::empty());
                return Ok(out);
            }
            let cs = match entries {
                Err(m) => return Err(SourceError::Io { message: m.clone() }),
                Ok(cs) => cs,
            };
            assert(entries_after(s.nodes@[n as int].kind, n as int, s.nodes.len() as int));
            let ghost sr = *s;
            let mut ret: Vec<Vec<String>> = Vec::new();
            assert(ret.deep_view() =~= Seq::<Seq<Seq<char>>>::empty());
            let mut i: usize = 0;
            while i < cs.len()
                invariant
                    s.wf(),
                    f.wf(),
                    *s == sr,
                    n < s.nodes.len(),
                    s.nodes@[n as int].kind == (DiskKind::Directory { manifest: *manifest, entries: Ok::<Vec<usize>, String>(*cs) }),
                    at_start || !*manifest,
                    forall|j: int| 0 <= j < cs.len() ==> n < #[trigger] cs@[j] < s.nodes.len(),
                    i <= cs.len(),
                    entries_files(sr, n as int, cs@, i as int, at_start, f@) == Ok::<Seq<Seq<Seq<char>>>, SourceError>(ret.deep_view()),
                decreases cs.len() - i,
            {
                let c = cs[i];
                let ghost before = ret.deep_view();
                if !is_skipped(&s.nodes[c].path, at_start) {
                    match walk_node(s, c, false, f) {
                        Err(e) => {
                            proof {
                                assert(child_files(sr, n as int, c as int, at_start, f@) == Err::<Seq<Seq<Seq<char>>>, SourceError>(e));
                                assert(entries_files(sr, n as int, cs@, i + 1, at_start, f@) is Err);
                                lemma_error_stops_walk(sr, n as int, cs@, i + 1, cs.len() as int, at_start, f@);
                                assert(walk_files(sr, n as int, at_start, f@) == entries_files(sr, n as int, cs@, cs.len() as int, at_start, f@));
                            }
                            return Err(e);
                        },
                        Ok(sub) => crate::vcs::extend_paths(&mut ret, &sub),
                    }
                }
                assert(ret.deep_view() =~= before + child_files(sr, n as int, c as int, at_start, f@)->Ok_0);
                i += 1;
            }
            assert(cs@.len() == cs.len());
            Ok(ret)
        },
    }
}

} // verus!

verus! {

/// Every path of `v` lies within `root`.
pub open spec fn all_within(v: Seq<Seq<Seq<char>>>, root: Seq<Seq<char>>) -> bool {
    forall|k: int| 0 <= k < v.len() ==> within(#[trigger] v[k], root)
}

proof fn lemma_all_within_concat(a: Seq<Seq<Seq<char>>>, b: Seq<Seq<Seq<char>>>, root: Seq<Seq<char>>)
    requires
        all_within(a, root),
        all_within(b, root),
    ensures
        all_within(a + b, root),
{
    assert forall|k: int| 0 <= k < (a + b).len() implies within(#[trigger] (a + b)[k], root) by {
        if k < a.len() {
            assert((a + b)[k] == a[k]);
        } else {
            assert((a + b)[k] == b[k - a.len()]);
        }
    }
}

/// A walk finds only paths within the directory it starts at.
pub proof fn lemma_walk_within_start(s: DiskSnapshot, n: int, at_start: bool, f: FilterSpec)
    requires
        s.wf(),
    ensures
        walk_files(s, n, at_start, f) matches Ok(v) ==> all_within(v, s.root_spec()),
    decreases s.nodes.len() - n, entry_count(s, n) + 1,
{
    if 0 <= n < s.nodes.len() {
        assert(within(parts(&s.nodes@[n].path), s.root_spec()));
        match s.nodes@[n].kind {
            DiskKind::Plain => {},
            DiskKind::Directory { manifest, entries } => if at_start || !manifest {
                match entries {
                    Err(_) => {},
                    Ok(cs) => lemma_entries_within_start(s, n, cs@, cs.len() as int, at_start, f),
                }
            },
        }
    }
}

proof fn lemma_entries_within_start(s: DiskSnapshot, n: int, cs: Seq<usize>, k: int, at_start: bool, f: FilterSpec)
    requires
        s.wf(),
    ensures
        entries_files(s, n, cs, k, at_start, f) matches Ok(v) ==> all_within(v, s.root_spec()),
    decreases s.nodes.len() - n, k,
{
    if k > 0 {
        lemma_entries_within_start(s, n, cs, k - 1, at_start, f);
        let c = cs[k - 1] as int;
        if n < c < s.nodes.len() {
            lemma_walk_within_start(s, c, false, f);
        }
        match entries_files(s, n, cs, k - 1, at_start, f) {
            Err(_) => {},
            Ok(a) => match child_files(s, n, c, at_start, f) {
                Err(_) => {},
                Ok(b) => lemma_all_within_concat(a, b, s.root_spec()),
            },
        }
    }
}

/// A directory other than the start that holds a manifest belongs to another
/// package: the walk finds nothing in it.
pub proof fn lemma_walk_stops_at_manifest(s: DiskSnapshot, n: int, f: FilterSpec)
    requires
        0 <= n < s.nodes.len(),
        s.nodes@[n].kind matches DiskKind::Directory { manifest, .. } && manifest,
    ensures
        walk_files(s, n, false, f) == Ok::<Seq<Seq<Seq<char>>>, SourceError>(Seq::empty()),
{
}

/// At the start of a walk, an entry named as the lock file or the build output
/// directory adds nothing, whatever the filter says.
pub proof fn lemma_walk_skips_reserved(s: DiskSnapshot, c: int, f: FilterSpec)
    requires
        0 < c < s.nodes.len(),
        parts(&s.nodes@[c].path).len() > 0,
        parts(&s.nodes@[c].path).last() == lock_name() || parts(&s.nodes@[c].path).last() == output_name(),
    ensures
        child_files(s, 0, c, true, f) == Ok::<Seq<Seq<Seq<char>>>, SourceError>(Seq::empty()),
{
}

} // verus!

verus! {

/// `o` lies within `base`, no component of it past `base` is the metadata
/// directory, and, at the start of a walk, it is neither the lock file nor the
/// build output directory at `base`.
pub open spec fn walk_kept(o: Seq<Seq<char>>, base: Seq<Seq<char>>, at_start: bool) -> bool {
    &&& within(o, base)
    &&& forall|i: int| base.len() <= i < o.len() ==> #[trigger] o[i] != vcs_dir_name()
    &&& at_start ==> o != base + seq![lock_name()] && o != base + seq![output_name()]
}

pub open spec fn all_kept(v: Seq<Seq<Seq<char>>>, base: Seq<Seq<char>>, at_start: bool) -> bool {
    forall|k: int| 0 <= k < v.len() ==> #[trigger] walk_kept(v[k], base, at_start)
}

proof fn lemma_all_kept_concat(a: Seq<Seq<Seq<char>>>, b: Seq<Seq<Seq<char>>>, base: Seq<Seq<char>>, at_start: bool)
    requires
        all_kept(a, base, at_start),
        all_kept(b, base, at_start),
    ensures
        all_kept(a + b, base, at_start),
{
    assert forall|k: int| 0 <= k < (a + b).len() implies #[trigger] walk_kept((a + b)[k], base, at_start) by {
        if k < a.len() {
            assert((a + b)[k] == a[k]);
        } else {
            assert((a + b)[k] == b[k - a.len()]);
        }
    }
}

/// What the walk finds from node `n` lies within `n`'s path, passes through
/// no metadata directory below it, and, from the start, holds neither the lock
/// file nor the build output directory at the start.
pub proof fn lemma_walk_kept(s: DiskSnapshot, n: int, at_start: bool, f: FilterSpec)
    requires
        s.wf(),
        0 <= n < s.nodes.len(),
    ensures
        walk_files(s, n, at_start, f) matches Ok(v) ==> all_kept(v, parts(&s.nodes@[n].path), at_start),
    decreases s.nodes.len() - n, entry_count(s, n) + 1,
{
    let base = parts(&s.nodes@[n].path);
    match s.nodes@[n].kind {
        DiskKind::Plain => {
            if let Ok(v) = walk_files(s, n, at_start, f) {
                assert forall|k: int| 0 <= k < v.len() implies #[trigger] walk_kept(v[k], base, at_start) by {
                    assert(v[k] == base);
                    assert(base.take(base.len() as int) =~= base);
                }
            }
        },
        DiskKind::Directory { manifest, entries } => if at_start || !manifest {
            match entries {
                Err(_) => {},
                Ok(cs) => {
                    assert(entries_extend(s, n));
                    assert(entries_after(s.nodes@[n].kind, n, s.nodes.len() as int));
                    lemma_entries_kept(s, n, cs@, cs.len() as int, at_start, f);
                },
            }
        } else {
            assert(walk_files(s, n, at_start, f) == Ok::<Seq<Seq<Seq<char>>>, SourceError>(Seq::empty()));
        },
    }
}

proof fn lemma_entries_kept(s: DiskSnapshot, n: int, cs: Seq<usize>, k: int, at_start: bool, f: FilterSpec)
    requires
        s.wf(),
        0 <= n < s.nodes.len(),
        k <= cs.len(),
        forall|j: int| 0 <= j < cs.len() ==> n < #[trigger] cs[j] < s.nodes.len(),
        forall|j: int| 0 <= j < cs.len() ==> #[trigger] one_below(parts(&s.nodes@[cs[j] as int].path), parts(&s.nodes@[n].path)),
    ensures
        entries_files(s, n, cs, k, at_start, f) matches Ok(v) ==> all_kept(v, parts(&s.nodes@[n].path), at_start),
    decreases s.nodes.len() - n, k,
{
    if k > 0 {
        let base = parts(&s.nodes@[n].path);
        lemma_entries_kept(s, n, cs, k - 1, at_start, f);
        let c = cs[k - 1] as int;
        assert(n < cs[k - 1] < s.nodes.len());
        assert(one_below(parts(&s.nodes@[c].path), base));
        let pc = parts(&s.nodes@[c].path);
        if !(pc.len() > 0 && skipped_name(pc.last(), at_start)) {
            lemma_walk_kept(s, c, false, f);
            if let Ok(b) = walk_files(s, c, false, f) {
                assert forall|m: int| 0 <= m < b.len() implies #[trigger] walk_kept(b[m], base, at_start) by {
                    let o = b[m];
                    assert(walk_kept(o, pc, false));
                    assert(o.take(pc.len() as int) == pc);
                    assert(o[base.len() as int] == pc[base.len() as int]);
                    assert(pc[base.len() as int] == pc.last());
                    assert(o.take(base.len() as int) =~= pc.take(base.len() as int));
                    if at_start {
                        if o == base + seq![lock_name()] {
                            assert(o[base.len() as int] == lock_name());
                        }
                        if o == base + seq![output_name()] {
                            assert(o[base.len() as int] == output_name());
                        }
                    }
                }
            }
        }
        match entries_files(s, n, cs, k - 1, at_start, f) {
            Err(_) => {},
            Ok(a) => match child_files(s, n, c, at_start, f) {
                Err(_) => {},
                Ok(b) => lemma_all_kept_concat(a, b, base, at_start),
            },
        }
    }
}

} // verus!


verus! {

/// A walk depends on the filter only through what it lets in.
pub proof fn lemma_walk_same_verdicts(s: DiskSnapshot, n: int, at_start: bool, f1: FilterSpec, f2: FilterSpec)
    requires
        crate::vcs::same_verdicts(f1, f2),
    ensures
        walk_files(s, n, at_start, f1) == walk_files(s, n, at_start, f2),
    decreases s.nodes.len() - n, entry_count(s, n) + 1,
{
    if 0 <= n < s.nodes.len() {
        let p = parts(&s.nodes@[n].path);
        let rel = joined(p.subrange(s.root_spec().len() as int, p.len() as int));
        assert(f1.admits(rel) == f2.admits(rel));
        if let DiskKind::Directory { entries: Ok(cs), .. } = s.nodes@[n].kind {
            lemma_entries_same_verdicts(s, n, cs@, cs.len() as int, at_start, f1, f2);
        }
    }
}

proof fn lemma_entries_same_verdicts(
    s: DiskSnapshot,
    n: int,
    cs: Seq<usize>,
    k: int,
    at_start: bool,
    f1: FilterSpec,
    f2: FilterSpec,
)
    requires
        crate::vcs::same_verdicts(f1, f2),
    ensures
        entries_files(s, n, cs, k, at_start, f1) == entries_files(s, n, cs, k, at_start, f2),
    decreases s.nodes.len() - n, k,
{
    if k > 0 {
        lemma_entries_same_verdicts(s, n, cs, k - 1, at_start, f1, f2);
        let c = cs[k - 1] as int;
        if n < c < s.nodes.len() {
            lemma_walk_same_verdicts(s, c, false, f1, f2);
        }
        assert(child_files(s, n, c, at_start, f1) == child_files(s, n, c, at_start, f2));
    }
}

} // verus!

verus! {

/// No path occurs twice in `v`.
pub open spec fn no_dups(v: Seq<Seq<Seq<char>>>) -> bool {
    forall|i: int, j: int| 0 <= i < j < v.len() ==> v[i] != v[j]
}

/// A walk lists no path twice.
pub proof fn lemma_walk_no_dups(s: DiskSnapshot, n: int, at_start: bool, f: FilterSpec)
    requires
        s.wf(),
        0 <= n < s.nodes.len(),
    ensures
        walk_files(s, n, at_start, f) matches Ok(v) ==> no_dups(v),
    decreases s.nodes.len() - n, entry_count(s, n) + 1,
{
    if let DiskKind::Directory { manifest, entries: Ok(cs) } = s.nodes@[n].kind {
        if at_start || !manifest {
            assert(entries_extend(s, n));
            assert(entries_distinct(s, n));
            assert(entries_after(s.nodes@[n].kind, n, s.nodes.len() as int));
            lemma_entries_no_dups(s, n, cs@, cs.len() as int, at_start, f);
        }
    }
}

proof fn lemma_entries_no_dups(s: DiskSnapshot, n: int, cs: Seq<usize>, k: int, at_start: bool, f: FilterSpec)
    requires
        s.wf(),
        0 <= n < s.nodes.len(),
        k <= cs.len(),
        forall|j: int| 0 <= j < cs.len() ==> n < #[trigger] cs[j] < s.nodes.len(),
        forall|j: int| 0 <= j < cs.len() ==> #[trigger] one_below(parts(&s.nodes@[cs[j] as int].path), parts(&s.nodes@[n].path)),
        forall|j1: int, j2: int| 0 <= j1 < cs.len() && 0 <= j2 < cs.len() && j1 != j2 ==> parts(&s.nodes@[#[trigger] cs[j1] as int].path)
            != parts(&s.nodes@[#[trigger] cs[j2] as int].path),
    ensures
        entries_files(s, n, cs, k, at_start, f) matches Ok(v) ==> no_dups(v) && forall|m: int|
            0 <= m < v.len() ==> exists|j: int| 0 <= j < k && within(#[trigger] v[m], parts(&s.nodes@[cs[j] as int].path)),
    decreases s.nodes.len() - n, k,
{
    if k > 0 {
        let base = parts(&s.nodes@[n].path);
        lemma_entries_no_dups(s, n, cs, k - 1, at_start, f);
        let c = cs[k - 1] as int;
        assert(n < cs[k - 1] < s.nodes.len());
        let pc = parts(&s.nodes@[c].path);
        assert(one_below(pc, base));
        if let Ok(a) = entries_files(s, n, cs, k - 1, at_start, f) {
            if let Ok(b) = child_files(s, n, c, at_start, f) {
                if !(pc.len() > 0 && skipped_name(pc.last(), at_start)) {
                    lemma_walk_no_dups(s, c, false, f);
                    lemma_walk_kept(s, c, false, f);
                    assert(b == walk_files(s, c, false, f)->Ok_0);
                    assert forall|m: int| 0 <= m < b.len() implies within(#[trigger] b[m], pc) by {
                        assert(walk_kept(b[m], pc, false));
                    }
                } else {
                    assert(b.len() == 0);
                }
                let v = a + b;
                assert forall|i: int, j: int| 0 <= i < j < v.len() implies v[i] != v[j] by {
                    if j < a.len() {
                        assert(v[i] == a[i] && v[j] == a[j]);
                    } else if i >= a.len() {
                        assert(v[i] == b[i - a.len()] && v[j] == b[j - a.len()]);
                    } else {
                        assert(v[i] == a[i] && v[j] == b[j - a.len()]);
                        let o = a[i];
                        let jj = choose|jj: int| 0 <= jj < k - 1 && within(o, parts(&s.nodes@[cs[jj] as int].path));
                        let pj = parts(&s.nodes@[cs[jj] as int].path);
                        assert(one_below(pj, base));
                        assert(within(b[j - a.len()], pc));
                        if o == b[j - a.len()] {
                            assert(o.take(pj.len() as int) == pj);
                            assert(o.take(pc.len() as int) == pc);
                            assert(pj =~= pc);
                        }
                    }
                }
                assert forall|m: int| 0 <= m < v.len() implies exists|j: int|
                    0 <= j < k && within(#[trigger] v[m], parts(&s.nodes@[cs[j] as int].path)) by {
                    if m < a.len() {
                        assert(v[m] == a[m]);
                        let jj = choose|jj: int| 0 <= jj < k - 1 && within(a[m], parts(&s.nodes@[cs[jj] as int].path));
                        assert(0 <= jj < k && within(v[m], parts(&s.nodes@[cs[jj] as int].path)));
                    } else {
                        assert(v[m] == b[m - a.len()]);
                        assert(within(v[m], parts(&s.nodes@[cs[k - 1] as int].path)));
                    }
                }
            }
        }
    }
}

} // verus!

verus! {

/// Node `m` is a directory that holds no manifest.
pub open spec fn plain_dir(s: DiskSnapshot, m: int) -> bool {
    s.nodes@[m].kind matches DiskKind::Directory { manifest, .. } && !manifest
}

/// Every prefix of `o` at least `lo` components long, `o` itself aside, is the
/// path of a directory of the snapshot that holds no manifest.
pub open spec fn entered(s: DiskSnapshot, o: Seq<Seq<char>>, lo: int) -> bool {
    forall|l: int| lo <= l < o.len() ==> #[trigger] dir_at(s, o.take(l))
}

/// Some node of the snapshot at path `p` is not a directory.
pub open spec fn file_at(s: DiskSnapshot, p: Seq<Seq<char>>) -> bool {
    exists|m: int| 0 <= m < s.nodes.len() && parts(&s.nodes@[m].path) == p && s.nodes@[m].kind is Plain
}

/// Some directory of the snapshot at path `p` holds no manifest.
pub open spec fn dir_at(s: DiskSnapshot, p: Seq<Seq<char>>) -> bool {
    exists|m: int| 0 <= m < s.nodes.len() && parts(&s.nodes@[m].path) == p && plain_dir(s, m)
}

/// The walk reaches a path only through directories that hold no manifest,
/// the start aside: it never goes into another package's directory.
pub proof fn lemma_walk_entered(s: DiskSnapshot, n: int, at_start: bool, f: FilterSpec)
    requires
        s.wf(),
        0 <= n < s.nodes.len(),
    ensures
        walk_files(s, n, at_start, f) matches Ok(v) ==> forall|k: int|
            0 <= k < v.len() ==> entered(s, #[trigger] v[k], parts(&s.nodes@[n].path).len() + if at_start {
                1int
            } else {
                0int
            }) && file_at(s, v[k]),
    decreases s.nodes.len() - n, entry_count(s, n) + 1,
{
    let base = parts(&s.nodes@[n].path);
    let lo = base.len() + if at_start { 1int } else { 0int };
    match s.nodes@[n].kind {
        DiskKind::Plain => {
            if let Ok(v) = walk_files(s, n, at_start, f) {
                assert forall|k: int| 0 <= k < v.len() implies file_at(s, #[trigger] v[k]) by {
                    assert(v[k] == base);
                }
            }
        },
        DiskKind::Directory { manifest, entries } => if at_start || !manifest {
            if let Ok(cs) = entries {
                assert(entries_extend(s, n));
                assert(entries_after(s.nodes@[n].kind, n, s.nodes.len() as int));
                lemma_entries_entered(s, n, cs@, cs.len() as int, at_start, f);
                lemma_walk_kept(s, n, at_start, f);
                if let Ok(v) = walk_files(s, n, at_start, f) {
                    assert forall|k: int| 0 <= k < v.len() implies entered(s, #[trigger] v[k], lo) && file_at(s, v[k]) by {
                        assert(entered(s, v[k], base.len() + 1int));
                        assert(walk_kept(v[k], base, at_start));
                        if !at_start {
                            assert forall|l: int| lo <= l < v[k].len() implies #[trigger] dir_at(s, v[k].take(l)) by {
                                if l == base.len() {
                                    assert(parts(&s.nodes@[n].path) == v[k].take(l));
                                    assert(plain_dir(s, n));
                                }
                            }
                        }
                    }
                }
            }
        },
    }
}

proof fn lemma_entries_entered(s: DiskSnapshot, n: int, cs: Seq<usize>, k: int, at_start: bool, f: FilterSpec)
    requires
        s.wf(),
        0 <= n < s.nodes.len(),
        k <= cs.len(),
        forall|j: int| 0 <= j < cs.len() ==> n < #[trigger] cs[j] < s.nodes.len(),
        forall|j: int| 0 <= j < cs.len() ==> #[trigger] one_below(parts(&s.nodes@[cs[j] as int].path), parts(&s.nodes@[n].path)),
    ensures
        entries_files(s, n, cs, k, at_start, f) matches Ok(v) ==> forall|m: int|
            0 <= m < v.len() ==> entered(s, #[trigger] v[m], parts(&s.nodes@[n].path).len() + 1int) && file_at(s, v[m]),
    decreases s.nodes.len() - n, k,
{
    if k > 0 {
        let base = parts(&s.nodes@[n].path);
        lemma_entries_entered(s, n, cs, k - 1, at_start, f);
        let c = cs[k - 1] as int;
        assert(n < cs[k - 1] < s.nodes.len());
        assert(one_below(parts(&s.nodes@[c].path), base));
        if let Ok(a) = entries_files(s, n, cs, k - 1, at_start, f) {
            if let Ok(b) = child_files(s, n, c, at_start, f) {
                let pc = parts(&s.nodes@[c].path);
                if !(pc.len() > 0 && skipped_name(pc.last(), at_start)) {
                    lemma_walk_entered(s, c, false, f);
                    assert(b == walk_files(s, c, false, f)->Ok_0);
                } else {
                    assert(b.len() == 0);
                }
                let v = a + b;
                assert forall|m: int| 0 <= m < v.len() implies entered(s, #[trigger] v[m], base.len() + 1int) && file_at(s, v[m]) by {
                    if m < a.len() {
                        assert(v[m] == a[m]);
                    } else {
                        assert(v[m] == b[m - a.len()]);
                    }
                }
            }
        }
    }
}

} // verus!

verus! {

/// With empty includes and excludes lists, every non-directory the walk
/// reaches is listed.
pub proof fn lemma_empty_lists_keep_plain_nodes(s: DiskSnapshot, n: int, at_start: bool)
    requires
        0 <= n < s.nodes.len(),
        s.nodes@[n].kind is Plain,
    ensures
        walk_files(s, n, at_start, FilterSpec { includes: Seq::empty(), excludes: Seq::empty() })
            == Ok::<Seq<Seq<Seq<char>>>, SourceError>(seq![parts(&s.nodes@[n].path)]),
{
}

} // verus!

