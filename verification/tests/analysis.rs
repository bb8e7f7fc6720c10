use std::path::PathBuf;

use dush::listing::{enumerate_children, ChildMetadata, ListedChild};
use dush::model::{checked_total, subtree_size};
use dush::order::sort_by_size;
use dush::scan::{name_of, name_or_path, Scan, ScanStep};
use dush::{Analysis, AnalysisError, AnalyzeOptions, Entry, Progress, WalkFault};

/// What a test's file system holds at one path: nothing that can be `stat`ed,
/// or a file or directory with its recursive size.
enum Child {
    Unreadable,
    Found { is_dir: bool, size: u64, faults: Vec<WalkFault> },
}

fn file(size: u64) -> Child {
    Child::Found { is_dir: false, size, faults: Vec::new() }
}

fn dir(size: u64) -> Child {
    Child::Found { is_dir: true, size, faults: Vec::new() }
}

fn analyze_with_progress<F: FnMut(Progress<'_>)>(
    root: &str,
    children: Vec<(&str, Child)>,
    mut on_progress: F,
) -> Analysis {
    let root = PathBuf::from(root);
    let paths: Vec<PathBuf> = children.iter().map(|(name, _)| root.join(name)).collect();
    let mut scan = Scan::new(root, paths);
    let mut found = children.into_iter();
    loop {
        match scan.next() {
            ScanStep::Stat(pending) => {
                let (name, child) = found.next().expect("a child for each path");
                assert!(pending.path().ends_with(name));
                scan = match child {
                    Child::Unreadable => pending.unreadable(),
                    Child::Found { is_dir, size, faults } => {
                        let (sizing, started) = pending.found(is_dir);
                        assert!(sizing.path().ends_with(name));
                        on_progress(started.as_progress());
                        let (scan, finished) = sizing.sized(size, &faults);
                        on_progress(finished.as_progress());
                        scan
                    }
                };
            }
            ScanStep::Done(finished, done) => {
                on_progress(done.as_progress());
                assert!(finished.checked_total().is_some());
                return finished.into_analysis();
            }
        }
    }
}

fn analyze(root: &str, children: Vec<(&str, Child)>) -> Analysis {
    analyze_with_progress(root, children, |_| {})
}

fn entry(name: &str, size_in_bytes: u64) -> Entry {
    Entry {
        path: PathBuf::from("/r").join(name),
        name: name.to_string(),
        size_in_bytes,
        is_dir: false,
    }
}

fn event_tag(event: Progress<'_>) -> String {
    match event {
        Progress::Started { index, total, name } => format!("S/{index}/{total}/{name}"),
        Progress::Finished { index, total, name, size_in_bytes } => {
            format!("F/{index}/{total}/{name}/{size_in_bytes}")
        }
        Progress::Done => "D".to_string(),
    }
}

#[test]
fn analyzes_flat_directory_sorted_desc() {
    let analysis = analyze(
        "/tmp/flat",
        vec![("small.txt", file(10)), ("medium.txt", file(1_000)), ("large.txt", file(50_000))],
    );
    let names: Vec<&str> = analysis.entries().iter().map(|e| e.name.as_str()).collect();
    assert_eq!(names, vec!["large.txt", "medium.txt", "small.txt"]);
    assert_eq!(analysis.entries()[0].size_in_bytes, 50_000);
    assert_eq!(analysis.entries()[1].size_in_bytes, 1_000);
    assert_eq!(analysis.entries()[2].size_in_bytes, 10);
    assert_eq!(analysis.total_in_bytes(), 51_010);
}

#[test]
fn nested_directory_size_aggregates() {
    let analysis =
        analyze("/tmp/tree", vec![("nested", dir(4_096 + 4_096)), ("loose.txt", file(100))]);

    let nested_entry = analysis
        .entries()
        .iter()
        .find(|e| e.name == "nested")
        .expect("nested entry present");
    assert!(nested_entry.is_dir);
    assert_eq!(nested_entry.size_in_bytes, 8_192);

    let loose_entry = analysis
        .entries()
        .iter()
        .find(|e| e.name == "loose.txt")
        .expect("loose entry present");
    assert!(!loose_entry.is_dir);
    assert_eq!(loose_entry.size_in_bytes, 100);
}

#[test]
fn empty_directory_yields_no_entries() {
    let analysis = analyze("/tmp/empty", Vec::new());
    assert!(analysis.entries().is_empty());
    assert_eq!(analysis.total_in_bytes(), 0);
}

#[test]
fn progress_callback_emits_started_finished_done() {
    let mut events: Vec<String> = Vec::new();
    analyze_with_progress("/tmp/two", vec![("a", file(100)), ("b", file(200))], |p| {
        events.push(event_tag(p));
    });

    // Two children: 2 Started + 2 Finished + 1 Done = 5 events.
    assert_eq!(events.len(), 5, "events: {events:?}");
    assert_eq!(events.last().map(String::as_str), Some("D"));
    let starts = events.iter().filter(|e| e.starts_with("S/")).count();
    let finishes = events.iter().filter(|e| e.starts_with("F/")).count();
    assert_eq!(starts, 2);
    assert_eq!(finishes, 2);
}

#[test]
fn unreadable_subdirectory_surfaces_as_error() {
    let restricted = PathBuf::from("/tmp/deny/restricted");
    let analysis = analyze(
        "/tmp/deny",
        vec![(
            "restricted",
            Child::Found {
                is_dir: true,
                size: 4_096,
                faults: vec![WalkFault::CouldNotReadDir(restricted.clone())],
            },
        )],
    );
    assert!(!analysis.errors().is_empty(), "expected at least one access error, got none");
    let mentions = analysis.errors().iter().any(|e| e.path().starts_with(&restricted));
    assert!(
        mentions,
        "errors should reference the restricted path: {:?}",
        analysis.errors()
    );
}

#[test]
fn progress_is_numbered_by_place_and_paired() {
    let mut events: Vec<String> = Vec::new();
    analyze_with_progress(
        "/r",
        vec![("a", file(1)), ("gone", Child::Unreadable), ("b", dir(2))],
        |p| events.push(event_tag(p)),
    );
    assert_eq!(events, vec!["S/1/3/a", "F/1/3/a/1", "S/3/3/b", "F/3/3/b/2", "D"]);
}

#[test]
fn empty_scan_still_reports_the_end() {
    let mut events: Vec<String> = Vec::new();
    analyze_with_progress("/r", Vec::new(), |p| events.push(event_tag(p)));
    assert_eq!(events, vec!["D"]);
}

#[test]
fn every_child_becomes_an_entry_or_an_error() {
    let analysis = analyze(
        "/r",
        vec![
            ("gone", Child::Unreadable),
            ("a", file(7)),
            (
                "d",
                Child::Found {
                    is_dir: true,
                    size: 9,
                    faults: vec![
                        WalkFault::NoMetadataForPath(PathBuf::from("/r/d/x")),
                        WalkFault::CouldNotReadDir(PathBuf::from("/r/d/y")),
                    ],
                },
            ),
        ],
    );
    assert_eq!(analysis.root(), &PathBuf::from("/r"));
    let names: Vec<&str> = analysis.entries().iter().map(|e| e.name.as_str()).collect();
    assert_eq!(names, vec!["d", "a"]);
    assert_eq!(analysis.total_in_bytes(), 16);
    let errors: Vec<(String, String)> = analysis
        .errors()
        .iter()
        .map(|e| (e.reason().to_string(), e.path().display().to_string()))
        .collect();
    assert_eq!(
        errors,
        vec![
            ("could not stat".to_string(), "/r/gone".to_string()),
            ("could not stat".to_string(), "/r/d/x".to_string()),
            ("could not read directory".to_string(), "/r/d/y".to_string()),
        ]
    );
}

#[test]
fn equal_sizes_keep_the_order_of_the_listing() {
    let analysis = analyze(
        "/r",
        vec![("c", file(5)), ("a", file(5)), ("big", file(6)), ("b", file(5)), ("none", file(0))],
    );
    let names: Vec<&str> = analysis.entries().iter().map(|e| e.name.as_str()).collect();
    assert_eq!(names, vec!["big", "c", "a", "b", "none"]);
}

#[test]
fn analysis_clone_is_the_same() {
    let analysis = analyze("/r", vec![("a", file(3)), ("gone", Child::Unreadable)]);
    let copy = analysis.clone();
    assert_eq!(copy.root(), analysis.root());
    assert_eq!(copy.total_in_bytes(), 3);
    assert_eq!(copy.entries()[0].path, PathBuf::from("/r/a"));
    assert_eq!(copy.errors().len(), 1);
}

#[test]
fn total_too_large_is_noticed() {
    let scan = Scan::new(PathBuf::from("/r"), vec![PathBuf::from("/r/a"), PathBuf::from("/r/b")]);
    let mut scan = scan;
    for size in [u64::MAX, 1] {
        scan = match scan.next() {
            ScanStep::Stat(pending) => pending.found(false).0.sized(size, &Vec::new()).0,
            ScanStep::Done(..) => unreachable!(),
        };
    }
    match scan.next() {
        ScanStep::Done(finished, _) => assert_eq!(finished.checked_total(), None),
        ScanStep::Stat(_) => unreachable!(),
    }
}

#[test]
fn checked_total_adds_up() {
    assert_eq!(checked_total(&Vec::new()), Some(0));
    assert_eq!(checked_total(&vec![entry("a", 2), entry("b", 40)]), Some(42));
    assert_eq!(checked_total(&vec![entry("a", u64::MAX), entry("b", 0)]), Some(u64::MAX));
    assert_eq!(checked_total(&vec![entry("a", u64::MAX), entry("b", 1)]), None);
}

#[test]
fn sorting_is_descending_and_stable() {
    let sorted = sort_by_size(vec![
        entry("a", 1),
        entry("b", 3),
        entry("c", 2),
        entry("d", 3),
        entry("e", 1),
        entry("f", 9),
        entry("g", 0),
    ]);
    let names: Vec<&str> = sorted.iter().map(|e| e.name.as_str()).collect();
    assert_eq!(names, vec!["f", "b", "d", "c", "a", "e", "g"]);
}

#[test]
fn sorting_agrees_with_the_standard_sort() {
    let mut expected: Vec<(u64, String)> = Vec::new();
    let mut entries: Vec<Entry> = Vec::new();
    let mut state: u64 = 12345;
    for i in 0..300 {
        state = state.wrapping_mul(6364136223846793005).wrapping_add(1442695040888963407);
        let size = (state >> 33) % 40;
        expected.push((size, format!("n{i}")));
        entries.push(entry(&format!("n{i}"), size));
    }
    expected.sort_by_key(|(size, _)| std::cmp::Reverse(*size));
    let sorted = sort_by_size(entries);
    assert_eq!(sorted.len(), expected.len());
    for (entry, (size, name)) in sorted.iter().zip(expected.iter()) {
        assert_eq!(entry.size_in_bytes, *size);
        assert_eq!(&entry.name, name);
    }
}

#[test]
fn walk_faults_become_errors() {
    let faults = vec![
        WalkFault::NoMetadataForPath(PathBuf::from("/x/a")),
        WalkFault::CouldNotReadDir(PathBuf::from("/x/b")),
    ];
    let (size, errors) = subtree_size(77, &faults);
    assert_eq!(size, 77);
    assert_eq!(errors.len(), 2);
    assert!(matches!(errors[0], AnalysisError::NoMetadata(_)));
    assert!(matches!(errors[1], AnalysisError::CouldNotReadDir(_)));
    assert_eq!(errors[0].path(), &PathBuf::from("/x/a"));
    assert_eq!(errors[1].path(), &PathBuf::from("/x/b"));
    assert_eq!(errors[0].reason(), "could not stat");
    assert_eq!(errors[1].reason(), "could not read directory");
    assert!(matches!(AnalysisError::from(&faults[0]), AnalysisError::NoMetadata(_)));
}

#[test]
fn disk_usage_is_the_default() {
    assert!(!AnalyzeOptions::default().apparent_size);
}

#[test]
fn names_are_last_components() {
    assert_eq!(name_of(&PathBuf::from("/a/b/c.txt")), "c.txt");
    assert_eq!(name_of(&PathBuf::from("/a/b/")), "b");
    // Neither of these has a last component to show.
    assert_eq!(name_of(&PathBuf::from("/")), "/");
    assert_eq!(name_of(&PathBuf::from("/a/..")), "/a/..");
}

#[test]
fn whole_path_stands_in_for_a_missing_name() {
    assert_eq!(name_or_path(Some("n".to_string()), "/p/n".to_string()), "n");
    assert_eq!(name_or_path(None, "/p/..".to_string()), "/p/..");
}

#[test]
fn listing_has_lengths_and_skips_what_cannot_be_read() {
    let entries = enumerate_children(&vec![
        ListedChild {
            path: PathBuf::from("/r/f"),
            metadata: Some(ChildMetadata { is_dir: false, len: 12 }),
        },
        ListedChild { path: PathBuf::from("/r/gone"), metadata: None },
        ListedChild {
            path: PathBuf::from("/r/d"),
            metadata: Some(ChildMetadata { is_dir: true, len: 4096 }),
        },
    ]);
    assert_eq!(entries.len(), 2);
    assert_eq!(entries[0].path, PathBuf::from("/r/f"));
    assert_eq!(entries[0].name, "f");
    assert_eq!(entries[0].size_in_bytes, 12);
    assert!(!entries[0].is_dir);
    assert_eq!(entries[1].path, PathBuf::from("/r/d"));
    assert_eq!(entries[1].name, "d");
    assert_eq!(entries[1].size_in_bytes, 0);
    assert!(entries[1].is_dir);
}

#[test]
fn listing_and_analysis_agree() {
    let analysis = analyze(
        "/r",
        vec![("f", file(12)), ("gone", Child::Unreadable), ("d", dir(4096)), ("g", file(1))],
    );
    let meta = |is_dir, len| Some(ChildMetadata { is_dir, len });
    let listing = enumerate_children(&vec![
        ListedChild { path: PathBuf::from("/r/f"), metadata: meta(false, 12) },
        ListedChild { path: PathBuf::from("/r/gone"), metadata: None },
        ListedChild { path: PathBuf::from("/r/d"), metadata: meta(true, 64) },
        ListedChild { path: PathBuf::from("/r/g"), metadata: meta(false, 1) },
    ]);
    let identity = |e: &Entry| (e.path.clone(), e.name.clone(), e.is_dir);
    let mut listed: Vec<_> = listing.iter().map(identity).collect();
    let mut analyzed: Vec<_> = analysis.entries().iter().map(identity).collect();
    listed.sort();
    analyzed.sort();
    assert_eq!(listed, analyzed);
    listed.dedup_by(|a, b| a.0 == b.0);
    assert_eq!(listed.len(), 3);
}

#[test]
fn no_errors_where_all_was_read() {
    assert!(analyze("/r", vec![("f", file(1)), ("d", dir(2))]).errors().is_empty());
    assert_eq!(analyze("/r", vec![("f", file(1)), ("x", Child::Unreadable)]).errors().len(), 1);
    let faulty = Child::Found {
        is_dir: true,
        size: 2,
        faults: vec![WalkFault::NoMetadataForPath(PathBuf::from("/r/d/y"))],
    };
    assert_eq!(analyze("/r", vec![("d", faulty)]).errors().len(), 1);
}

#[test]
fn listing_of_nothing_is_empty() {
    assert!(enumerate_children(&Vec::new()).is_empty());
}
