use path_source::error::SourceError;
use path_source::package::{Package, PackageId};
use path_source::path::{concat_paths, is_reserved_from, is_within};
use path_source::pattern::{join_from, Filter};
use path_source::source::{newest_mtime, render_decimal, Listing, PathSource, SourceId};
use path_source::vcs::{SubmoduleState, TrackedEntry, TrackedKind, TrackedRepo, TrackedSnapshot};
use path_source::walk::{DiskKind, DiskNode, DiskSnapshot};

fn p(s: &str) -> Vec<String> {
    s.split('/').filter(|c| !c.is_empty()).map(|c| c.to_string()).collect()
}

fn strs(v: &[&str]) -> Vec<String> {
    v.iter().map(|s| s.to_string()).collect()
}

fn id(name: &str) -> PackageId {
    PackageId { name: name.to_string(), version: "0.1.0".to_string() }
}

fn pkg(name: &str, root: &str, includes: &[&str], excludes: &[&str]) -> Package {
    Package { id: id(name), root: p(root), includes: strs(includes), excludes: strs(excludes) }
}

fn file(path: &str) -> TrackedEntry {
    TrackedEntry { path: Ok(p(path)), kind: TrackedKind::File }
}

fn dir(path: &str, state: SubmoduleState) -> TrackedEntry {
    TrackedEntry { path: Ok(p(path)), kind: TrackedKind::Directory(state) }
}

fn repo(workdir: &str, entries: Vec<TrackedEntry>) -> TrackedRepo {
    TrackedRepo { workdir: Some(p(workdir)), index: Ok(entries) }
}

fn plain(path: &str) -> DiskNode {
    DiskNode { path: p(path), kind: DiskKind::Plain }
}

fn directory(path: &str, manifest: bool, entries: Vec<usize>) -> DiskNode {
    DiskNode { path: p(path), kind: DiskKind::Directory { manifest, entries: Ok(entries) } }
}

fn updated(root: &str, packages: Vec<Package>) -> PathSource {
    let mut src = PathSource::for_path(&p(root));
    src.update(packages);
    src
}

fn sorted(mut v: Vec<Vec<String>>) -> Vec<Vec<String>> {
    v.sort();
    v
}

fn project_packages() -> Vec<Package> {
    vec![pkg("proj", "/proj", &[], &["*.tmp"]), pkg("vendored", "/proj/vendor", &[], &[])]
}

fn project_repo() -> TrackedSnapshot {
    TrackedSnapshot {
        repos: vec![repo(
            "/proj",
            vec![
                file("Cargo.lock"),
                file("Cargo.toml"),
                file("notes.tmp"),
                file("src/lib.x"),
                file("target"),
                file("vendor/Cargo.toml"),
                file("vendor/x.rs"),
            ],
        )],
    }
}

fn project_disk() -> DiskSnapshot {
    DiskSnapshot {
        nodes: vec![
            directory("/proj", true, vec![1, 2, 3, 4, 5, 6, 7]),
            plain("/proj/Cargo.toml"),
            directory("/proj/src", false, vec![8]),
            plain("/proj/notes.tmp"),
            directory("/proj/vendor", true, vec![9, 10]),
            plain("/proj/Cargo.lock"),
            directory("/proj/.git", false, vec![11]),
            directory("/proj/target", false, vec![12]),
            plain("/proj/src/lib.x"),
            plain("/proj/vendor/Cargo.toml"),
            plain("/proj/vendor/x.rs"),
            plain("/proj/.git/HEAD"),
            plain("/proj/target/out.bin"),
        ],
    }
}

#[test]
fn empty_lists_admit_every_path() {
    let f = Filter::new(&vec![], &vec![]).unwrap();
    assert!(f.matches("src/lib.rs"));
    assert!(f.matches("notes.tmp"));
    assert!(f.matches(""));
}

#[test]
fn includes_ignore_excludes() {
    let with = Filter::new(&strs(&["src/*"]), &strs(&["src/a.rs"])).unwrap();
    let without = Filter::new(&strs(&["src/*"]), &vec![]).unwrap();
    for path in ["src/a.rs", "src/b.rs", "b.rs", "docs/a.rs"] {
        assert_eq!(with.matches(path), without.matches(path));
    }
    assert!(with.matches("src/a.rs"));
    assert!(!with.matches("b.rs"));
}

#[test]
fn excludes_apply_without_includes() {
    let f = Filter::new(&vec![], &strs(&["*.tmp"])).unwrap();
    assert!(!f.matches("notes.tmp"));
    assert!(f.matches("src/lib.x"));
}

#[test]
fn invalid_pattern_is_reported_with_its_text() {
    match Filter::new(&strs(&["src/*"]), &strs(&["ok", "a/***"])) {
        Err(SourceError::InvalidPattern { pattern, message }) => {
            assert_eq!(pattern, "a/***");
            assert!(!message.is_empty());
        }
        _ => panic!("expected a pattern error"),
    }
    match Filter::new(&strs(&["a/***"]), &vec![]) {
        Err(SourceError::InvalidPattern { pattern, .. }) => assert_eq!(pattern, "a/***"),
        _ => panic!("expected a pattern error"),
    }
}

#[test]
fn paths_compare_by_component() {
    assert!(is_within(&p("/p/sub/x"), &p("/p")));
    assert!(is_within(&p("/p"), &p("/p")));
    assert!(!is_within(&p("/psub"), &p("/p")));
    assert!(!is_within(&p("/p"), &p("/p/sub")));
    assert_eq!(join_from(&p("/a/b/c"), 1), "b/c");
    assert_eq!(join_from(&p("/a/b/c"), 3), "");
    assert_eq!(concat_paths(&p("/a"), &p("b/c")), p("/a/b/c"));
    assert!(is_reserved_from(&p("/w/sub/Cargo.lock"), 2));
    assert!(is_reserved_from(&p("/w/target"), 1));
    assert!(!is_reserved_from(&p("/w/src/target"), 1));
    assert!(!is_reserved_from(&p("/w/sub/Cargo.lock"), 1));
}

#[test]
fn repository_listing_of_project() {
    let src = updated("/proj", project_packages());
    let files = src.list_files(&project_packages()[0], &Listing::Repository(project_repo())).unwrap();
    assert_eq!(files, vec![p("/proj/Cargo.toml"), p("/proj/src/lib.x")]);
}

#[test]
fn walk_listing_of_project() {
    let src = updated("/proj", project_packages());
    let files = src.list_files(&project_packages()[0], &Listing::Walk(project_disk())).unwrap();
    assert_eq!(sorted(files), vec![p("/proj/Cargo.toml"), p("/proj/src/lib.x")]);
}

#[test]
fn listings_agree_on_simple_tree() {
    let src = updated("/proj", project_packages());
    let a = src.list_files(&project_packages()[0], &Listing::Repository(project_repo())).unwrap();
    let b = src.list_files(&project_packages()[0], &Listing::Walk(project_disk())).unwrap();
    assert_eq!(sorted(a), sorted(b));
}

#[test]
fn nested_package_lists_only_its_own_files() {
    let src = updated("/proj", project_packages());
    let files = src.list_files(&project_packages()[1], &Listing::Repository(project_repo())).unwrap();
    assert_eq!(files, vec![p("/proj/vendor/Cargo.toml"), p("/proj/vendor/x.rs")]);
    let disk = DiskSnapshot {
        nodes: vec![
            directory("/proj/vendor", true, vec![1, 2]),
            plain("/proj/vendor/Cargo.toml"),
            plain("/proj/vendor/x.rs"),
        ],
    };
    let walked = src.list_files(&project_packages()[1], &Listing::Walk(disk)).unwrap();
    assert_eq!(sorted(walked), vec![p("/proj/vendor/Cargo.toml"), p("/proj/vendor/x.rs")]);
}

#[test]
fn reserved_names_are_skipped_only_at_top_of_walk() {
    let src = updated("/r", vec![pkg("r", "/r", &[], &[])]);
    let disk = DiskSnapshot {
        nodes: vec![
            directory("/r", true, vec![1, 2]),
            plain("/r/Cargo.lock"),
            directory("/r/sub", false, vec![3, 4, 5]),
            plain("/r/sub/Cargo.lock"),
            directory("/r/sub/target", false, vec![6]),
            directory("/r/sub/.git", false, vec![7]),
            plain("/r/sub/target/a"),
            plain("/r/sub/.git/b"),
        ],
    };
    let files = src.list_files(&pkg("r", "/r", &[], &[]), &Listing::Walk(disk)).unwrap();
    assert_eq!(sorted(files), vec![p("/r/sub/Cargo.lock"), p("/r/sub/target/a")]);
}

#[test]
fn reserved_names_skipped_even_when_included() {
    let src = updated("/r", vec![pkg("r", "/r", &["*"], &[])]);
    let snap = TrackedSnapshot { repos: vec![repo("/r", vec![file("Cargo.lock"), file("target"), file("a")])] };
    let files = src.list_files(&pkg("r", "/r", &["*"], &[]), &Listing::Repository(snap)).unwrap();
    assert_eq!(files, vec![p("/r/a")]);
}

#[test]
fn checked_out_submodule_contributes_its_files() {
    let root = pkg("r", "/r", &[], &[]);
    let src = updated("/r", vec![pkg("r", "/r", &[], &[])]);
    let snap = TrackedSnapshot {
        repos: vec![
            repo("/r", vec![file("a.rs"), dir("lib/dep", SubmoduleState::Opened(1)), file("z.rs")]),
            repo("/r/lib/dep", vec![file("Cargo.toml"), file("src/m.rs")]),
        ],
    };
    let files = src.list_files(&root, &Listing::Repository(snap)).unwrap();
    assert_eq!(
        files,
        vec![p("/r/a.rs"), p("/r/lib/dep/Cargo.toml"), p("/r/lib/dep/src/m.rs"), p("/r/z.rs")]
    );
}

#[test]
fn unopened_submodule_contributes_nothing() {
    let root = pkg("r", "/r", &[], &[]);
    let src = updated("/r", vec![pkg("r", "/r", &[], &[])]);
    let snap = TrackedSnapshot {
        repos: vec![repo("/r", vec![file("a.rs"), dir("lib/dep", SubmoduleState::Unopened)])],
    };
    assert_eq!(src.list_files(&root, &Listing::Repository(snap)).unwrap(), vec![p("/r/a.rs")]);
}

#[test]
fn listing_errors() {
    let root = pkg("r", "/r", &[], &[]);
    let src = updated("/r", vec![pkg("r", "/r", &[], &[])]);
    let undeclared = TrackedSnapshot {
        repos: vec![repo("/r", vec![dir("d", SubmoduleState::Undeclared("no submodule".to_string()))])],
    };
    assert_eq!(
        src.list_files(&root, &Listing::Repository(undeclared)),
        Err(SourceError::Submodule { message: "no submodule".to_string() })
    );
    let bad = TrackedSnapshot {
        repos: vec![repo(
            "/r",
            vec![file("a"), TrackedEntry { path: Err("bad\u{FFFD}name".to_string()), kind: TrackedKind::File }],
        )],
    };
    assert_eq!(
        src.list_files(&root, &Listing::Repository(bad)),
        Err(SourceError::InvalidPath { path: "bad\u{FFFD}name".to_string() })
    );
    let bare = TrackedSnapshot { repos: vec![TrackedRepo { workdir: None, index: Ok(vec![]) }] };
    assert_eq!(src.list_files(&root, &Listing::Repository(bare)), Err(SourceError::BareRepository));
    let no_index = TrackedSnapshot {
        repos: vec![TrackedRepo { workdir: Some(p("/r")), index: Err("corrupt".to_string()) }],
    };
    assert_eq!(
        src.list_files(&root, &Listing::Repository(no_index)),
        Err(SourceError::Index { message: "corrupt".to_string() })
    );
    let unreadable = DiskSnapshot {
        nodes: vec![DiskNode {
            path: p("/r"),
            kind: DiskKind::Directory { manifest: true, entries: Err("denied".to_string()) },
        }],
    };
    assert_eq!(
        src.list_files(&root, &Listing::Walk(unreadable)),
        Err(SourceError::Io { message: "denied".to_string() })
    );
    let broken = pkg("r", "/r", &["a/***"], &[]);
    assert!(matches!(
        src.list_files(&broken, &Listing::Repository(project_repo())),
        Err(SourceError::InvalidPattern { .. })
    ));
}

#[test]
fn walk_of_unknown_package_is_empty() {
    let src = updated("/r", vec![pkg("r", "/r", &[], &[])]);
    let other = pkg("other", "/o", &[], &[]);
    let disk = DiskSnapshot { nodes: vec![directory("/o", true, vec![1]), plain("/o/a")] };
    assert_eq!(src.list_files(&other, &Listing::Walk(disk)).unwrap(), Vec::<Vec<String>>::new());
}

#[test]
fn fingerprint_is_newest_time() {
    let src = updated("/proj", project_packages());
    assert_eq!(src.fingerprint(&vec![Some(100), Some(7)]).unwrap(), "100");
    assert_eq!(src.fingerprint(&vec![Some(100), None, Some(250)]).unwrap(), "250");
    assert_eq!(src.fingerprint(&vec![None, None]).unwrap(), "0");
    assert_eq!(src.fingerprint(&vec![]).unwrap(), "0");
    assert_eq!(newest_mtime(&vec![Some(3), Some(9), Some(4)]), 9);
}

#[test]
fn fingerprint_moves_forward_when_touched() {
    let src = updated("/proj", project_packages());
    let before = src.fingerprint(&vec![Some(100), Some(90)]).unwrap();
    let again = src.fingerprint(&vec![Some(100), Some(90)]).unwrap();
    let after = src.fingerprint(&vec![Some(100), Some(101)]).unwrap();
    assert_eq!(before, again);
    assert_ne!(before, after);
    assert_eq!(after, "101");
}

#[test]
fn fingerprint_before_update_fails() {
    let src = PathSource::for_path(&p("/proj"));
    assert_eq!(src.fingerprint(&vec![Some(1)]), Err(SourceError::NotUpdated));
}

#[test]
fn project_scenario_end_to_end() {
    let src = updated("/proj", project_packages());
    let root = src.root_package().unwrap();
    assert_eq!(root.root, p("/proj"));
    let files = src.list_files(&root, &Listing::Walk(project_disk())).unwrap();
    assert_eq!(sorted(files.clone()), vec![p("/proj/Cargo.toml"), p("/proj/src/lib.x")]);
    // manifest 40, src/lib.x 100
    let times: Vec<Option<u64>> =
        files.iter().map(|f| if f == &p("/proj/src/lib.x") { Some(100) } else { Some(40) }).collect();
    assert_eq!(src.fingerprint(&times).unwrap(), "100");
}

#[test]
fn root_package_lifecycle() {
    let fresh = PathSource::new(&p("/proj"), &SourceId::for_path(&p("/proj")));
    assert_eq!(fresh.root_package().err(), Some(SourceError::NotUpdated));
    assert!(fresh.read_packages().is_none());
    assert!(!fresh.is_updated());
    let none = updated("/proj", vec![pkg("v", "/proj/vendor", &[], &[])]);
    assert_eq!(none.root_package().err(), Some(SourceError::NoRootPackage));
    let src = updated("/proj", project_packages());
    assert_eq!(src.root_package().unwrap().id.name, "proj");
}

#[test]
fn update_runs_once() {
    let mut src = updated("/proj", project_packages());
    src.update(vec![pkg("late", "/late", &[], &[])]);
    let found = src.read_packages().unwrap();
    assert_eq!(found.len(), 2);
    assert_eq!(found[0].id.name, "proj");
    assert_eq!(found[1].id.name, "vendored");
}

#[test]
fn get_and_download() {
    let src = updated("/proj", project_packages());
    let got = src.get(&vec![id("vendored"), id("missing")]);
    assert_eq!(got.len(), 1);
    assert_eq!(got[0].root, p("/proj/vendor"));
    assert!(src.get(&vec![]).is_empty());
    assert!(src.download(&vec![id("proj")]).is_ok());
}

#[test]
fn candidates_and_nested_roots() {
    let src = updated("/proj", project_packages());
    let vendored = &project_packages()[1];
    assert_eq!(src.repo_candidates(vendored), vec![p("/proj"), p("/proj/vendor")]);
    assert_eq!(src.repo_candidates(&project_packages()[0]), vec![p("/proj")]);
    assert_eq!(src.nested_roots(&project_packages()[0]), vec![p("/proj/vendor")]);
    assert!(src.nested_roots(vendored).is_empty());
}

#[test]
fn reserved_names_at_package_root_below_working_tree() {
    let member = pkg("member", "/w/sub", &["*"], &[]);
    let src = updated("/w", vec![pkg("top", "/w", &[], &[]), pkg("member", "/w/sub", &["*"], &[])]);
    let snap = TrackedSnapshot {
        repos: vec![repo(
            "/w",
            vec![file("Cargo.lock"), file("sub/Cargo.lock"), file("sub/Cargo.toml"), file("sub/target")],
        )],
    };
    let files = src.list_files(&member, &Listing::Repository(snap)).unwrap();
    assert_eq!(files, vec![p("/w/sub/Cargo.toml")]);
}

#[test]
fn lock_file_at_top_of_submodule_is_kept() {
    let root = pkg("r", "/r", &[], &[]);
    let src = updated("/r", vec![pkg("r", "/r", &[], &[])]);
    let snap = TrackedSnapshot {
        repos: vec![
            repo("/r", vec![file("Cargo.lock"), dir("dep", SubmoduleState::Opened(1))]),
            repo("/r/dep", vec![file("Cargo.lock"), file("lib.rs")]),
        ],
    };
    let files = src.list_files(&root, &Listing::Repository(snap)).unwrap();
    assert_eq!(files, vec![p("/r/dep/Cargo.lock"), p("/r/dep/lib.rs")]);
}

#[test]
fn decimal_rendering() {
    assert_eq!(render_decimal(0), "0");
    assert_eq!(render_decimal(7), "7");
    assert_eq!(render_decimal(10), "10");
    assert_eq!(render_decimal(1234567890), "1234567890");
    assert_eq!(render_decimal(u64::MAX), u64::MAX.to_string());
}
