//! Formulas, errors and the smaller functions.

use std::path::Path;

use dups::check::{all_same_size, check};
use dups::digest::ContentHasher;
use dups::disk::{Disk, FileDigest, WalkedFile};
use dups::entries::{Course, ManifestSource};
use dups::error::Failure;
use dups::generate::{
    coverage,
    format_duration,
    format_size,
    scan_root,
    select_files,
    total_bytes,
    write_manifest,
};
use dups::hashfile::{HashEntry, HashFile};
use dups::logging::{escape_csv, read_undo_pairs, Journal};
use dups::moves::{undo, Apply, Event, Step};
use dups::path::{FilePath, Platform};
use dups::rename::{hash_file, hash_file_chunks, verify_hash, Action, RenameOperation, Report};
use dups::report::{apply_summary, count_status, report_csv, summarize};

fn at(path: &str) -> FilePath {
    FilePath::from_text(path, Platform::Other)
}

fn entry(hash: &str, path: &str) -> HashEntry {
    HashEntry {
        hash: hash.to_string(),
        abs_path: at(path),
        manifest_path: at("/m.xxh3"),
        computed: false,
    }
}

fn file(path: &str, size: Option<u64>) -> WalkedFile {
    WalkedFile { path: at(path), is_file: true, absolute: None, size }
}

fn operation(verify: bool, dry_run: bool, all_files: bool, only_dupes: bool) -> RenameOperation {
    RenameOperation::new(at("/d"), None, verify, dry_run, all_files, only_dupes, true, true)
        .unwrap()
}

fn disk(existing: &[&str]) -> Disk {
    Disk {
        existing: existing.iter().map(|p| at(p)).collect(),
        digests: vec![],
        walk: vec![],
    }
}

const A: &str = "AAAAAAAAAAAAAAAA";
const B: &str = "BBBBBBBBBBBBBBBB";

// ---------------------------------------------------------------------------
// Hashes
// ---------------------------------------------------------------------------

#[test]
fn hashes_are_those_of_xxh3() {
    assert_eq!(hash_file(b""), "2D06800538D394C2");
    for content in [&b"hello world"[..], &b"a"[..], &[0u8; 1000][..]] {
        let expected = format!("{:016X}", xxhash_rust::xxh3::xxh3_64(content));
        assert_eq!(hash_file(content), expected);
    }
}

#[test]
fn chunks_make_no_difference() {
    let whole: Vec<u8> = (0..1000u32).map(|i| (i % 251) as u8).collect();
    let expected = hash_file(&whole);
    for size in [1usize, 7, 240, 241, 256, 999] {
        let chunks: Vec<Vec<u8>> = whole.chunks(size).map(|c| c.to_vec()).collect();
        assert_eq!(hash_file_chunks(&chunks), expected);
    }
    let mut hasher = ContentHasher::new();
    hasher.update(&whole[..500]);
    assert_eq!(hasher.finish(), hash_file(&whole[..500]));
    hasher.update(&whole[500..]);
    assert_eq!(hasher.finish(), expected);
}

#[test]
fn mismatches_are_told() {
    assert_eq!(verify_hash(A, "aaaaaaaaaaaaaaaa"), Ok(()));
    assert_eq!(
        verify_hash(A, B),
        Err("hash mismatch (manifest BBBBBBBBBBBBBBBB vs actual AAAAAAAAAAAAAAAA)".to_string())
    );
    // What is hashed is in upper case.
    assert!(verify_hash("aaaaaaaaaaaaaaaa", A).is_err());
    assert!(verify_hash("SS", "ß").is_ok());
}

// ---------------------------------------------------------------------------
// Sizes and times
// ---------------------------------------------------------------------------

fn expected_size(bytes: u64) -> String {
    let units: [(u64, &str); 4] =
        [(1 << 40, "TB"), (1 << 30, "GB"), (1 << 20, "MB"), (1 << 10, "KB")];
    for (unit, name) in units {
        if bytes >= unit {
            return format!("{:.1} {}", bytes as f64 / unit as f64, name);
        }
    }
    format!("{} B", bytes)
}

#[test]
fn sizes_read_as_floating_point_has_them() {
    assert_eq!(format_size(0), "0 B");
    assert_eq!(format_size(1023), "1023 B");
    assert_eq!(format_size(1024), "1.0 KB");
    assert_eq!(format_size(1536), "1.5 KB");
    assert_eq!(format_size(1280), "1.2 KB");
    assert_eq!(format_size(1 << 20), "1.0 MB");
    assert_eq!(format_size((1 << 20) - 1), "1024.0 KB");
    assert_eq!(format_size(1 << 30), "1.0 GB");
    assert_eq!(format_size(1 << 40), "1.0 TB");
    let mut n: u64 = 1;
    let mut state: u64 = 0x9e37_79b9_7f4a_7c15;
    for _ in 0..20_000 {
        state ^= state << 13;
        state ^= state >> 7;
        state ^= state << 17;
        n = state >> (state % 64);
        assert_eq!(format_size(n), expected_size(n), "{n} bytes");
    }
    for shift in 0..64u32 {
        let p = 1u64 << shift;
        for m in [p - 1, p, p + 1, p + p / 2, p + p / 4, p + p / 20] {
            assert_eq!(format_size(m), expected_size(m), "{m} bytes");
        }
    }
    for m in [u64::MAX, u64::MAX - 1, u64::MAX - 1024, (1 << 53) + 1, (1 << 54) + 2, n] {
        assert_eq!(format_size(m), expected_size(m), "{m} bytes");
    }
}

#[test]
fn ties_go_to_the_even_digit() {
    // A quarter is halfway between two tenths.
    for k in 0..40u64 {
        let n = 1024 * k + 256;
        assert_eq!(format_size(n + 1024), expected_size(n + 1024));
        assert_eq!(format_size(n + 1536), expected_size(n + 1536));
    }
}

#[test]
fn durations_read_as_clocks() {
    assert_eq!(format_duration(0), "00:00");
    assert_eq!(format_duration(59), "00:59");
    assert_eq!(format_duration(60), "01:00");
    assert_eq!(format_duration(3599), "59:59");
    assert_eq!(format_duration(3600), "01:00:00");
    assert_eq!(format_duration(3661), "01:01:01");
    assert_eq!(format_duration(360_000), "100:00:00");
}

// ---------------------------------------------------------------------------
// Manifests
// ---------------------------------------------------------------------------

#[test]
fn lines_that_are_no_entries_are_passed_over() {
    let text = "; a comment\n\nnot an entry\naaaaaaaaaaaaaaaa  with spaces.mp4\n\
        AAAAAAAAAAAAAAA *fifteen.mp4\nAAAAAAAAAAAAAAAA*no space.mp4\nAAAAAAAAAAAAAAAA *\n\
        AAAAAAAAAAAAAAAA -other marker.mp4\nBBBBBBBBBBBBBBBB *sub\\dir\\b.mp4\r\r";
    let lines = HashFile::parse(text, &at("/d/m.xxh3")).unwrap();
    let got: Vec<(String, String)> =
        lines.iter().map(|l| (l.hash.clone(), l.path.text())).collect();
    assert_eq!(
        got,
        vec![
            (A.to_string(), "/d/with spaces.mp4".to_string()),
            (B.to_string(), "/d/sub/dir/b.mp4".to_string()),
        ]
    );
}

fn read(text: &str) -> Vec<(String, String)> {
    let lines = HashFile::parse(text, &at("/d/m.xxh3")).unwrap();
    lines.iter().map(|l| (l.hash.clone(), l.path.text())).collect()
}

#[test]
fn lines_are_read_one_by_one() {
    let a = "aaaaaaaaaaaaaaaa *a.mp4\nno entry\nBBBBBBBBBBBBBBBB  b.mp4";
    let b = "; comment\nabcdefABCDEF0123 *s\\c.mp4";
    let both = [read(a), read(b)].concat();
    assert_eq!(both.len(), 3);
    assert_eq!(read(&format!("{a}\n{b}")), both);
    assert_eq!(read(&format!("{a}\n\n{b}\n")), both);
    // Neither a mark at the start nor carriage returns make a difference.
    assert_eq!(read(&format!("\u{feff}{a}\n{b}")), both);
    assert_eq!(read(&format!("{a}\n{b}\n").replace('\n', "\r\n")), both);
    for (hash, _) in both {
        assert_eq!(hash.len(), 16);
        assert!(hash.chars().all(|c| c.is_ascii_digit() || ('A'..='F').contains(&c)));
    }
}

#[test]
fn backslashes_stay_on_windows() {
    let manifest = FilePath::from_text("C:\\d\\m.xxh3", Platform::Windows);
    let lines = HashFile::parse("AAAAAAAAAAAAAAAA *s\\a.mp4", &manifest).unwrap();
    assert_eq!(lines[0].path.text(), "C:\\d\\s\\a.mp4");
}

#[test]
fn entries_take_the_absolute_path_where_there_is_one() {
    let manifest = at("m.xxh3");
    let text = "AAAAAAAAAAAAAAAA *a.mp4\nBBBBBBBBBBBBBBBB *b.mp4\n";
    let mut lines = HashFile::parse(text, &manifest).unwrap();
    let second = lines.pop().unwrap().into_entry(None, &manifest);
    let first = lines.pop().unwrap().into_entry(Some(at("/x/a.mp4")), &manifest);
    assert_eq!(first.abs_path, at("/x/a.mp4"));
    assert_eq!(second.abs_path, at("b.mp4"));
    assert_eq!(first.hash, A);
    assert!(!first.computed);
    assert_eq!(first.manifest_path, manifest);
}

#[test]
fn a_manifest_needs_a_directory() {
    let e = HashFile::parse("", &at("/")).unwrap_err();
    assert!(matches!(e, Failure::NoParentDir));
    assert_eq!(e.to_text(), "No parent dir");
}

#[test]
fn repetitions_are_dropped_and_contradictions_kept() {
    let all = HashFile::load_all(&vec![
        vec![entry(A, "/d/a.mp4"), entry(B, "/d/b.mp4")],
        vec![entry(A, "/d/a.mp4"), entry(A, "/d/b.mp4"), entry(B, "/d/b.mp4")],
    ]);
    let got: Vec<(String, String)> =
        all.iter().map(|e| (e.hash.clone(), e.abs_path.text())).collect();
    assert_eq!(
        got,
        vec![
            (A.to_string(), "/d/a.mp4".to_string()),
            (B.to_string(), "/d/b.mp4".to_string()),
            (A.to_string(), "/d/b.mp4".to_string()),
        ]
    );
}

#[test]
fn dropping_repetitions_changes_no_plan() {
    let entries = vec![
        entry(A, "/d/a.mp4"),
        entry(A, "/d/a.mp4"),
        entry(B, "/d/b.mp4"),
        entry(A, "/d/b.mp4"),
        entry(B, "/d/b.mp4"),
    ];
    let op = operation(false, true, false, false);
    let d = disk(&["/d/a.mp4", "/d/b.mp4"]);
    let short = HashFile::load_all(&vec![entries.clone()]);
    assert_eq!(short.len(), 3);
    let x = op.build_plan(&entries, &d);
    let y = op.build_plan(&short, &d);
    assert_eq!(format!("{:?}", x), format!("{:?}", y));
}

#[test]
fn generated_manifests_are_read_back() {
    let files = vec![file("/d/a.mp4", Some(1)), file("/d/s/b.mp4", Some(2)), file("/d/c.mp4", None)];
    let outcomes: Vec<Result<String, String>> =
        vec![Ok(A.to_string()), Ok(B.to_string()), Err("unreadable".to_string())];
    let manifest = write_manifest(&files, &outcomes, &at("/d"));
    assert_eq!(manifest.text, "AAAAAAAAAAAAAAAA *a.mp4\nBBBBBBBBBBBBBBBB *s\\b.mp4\n");
    assert_eq!((manifest.listed, manifest.errors), (2, 1));
    let lines = HashFile::parse(&manifest.text, &at("/d/m.xxh3")).unwrap();
    let got: Vec<(String, String)> =
        lines.iter().map(|l| (l.hash.clone(), l.path.text())).collect();
    assert_eq!(
        got,
        vec![
            (A.to_string(), "/d/a.mp4".to_string()),
            (B.to_string(), "/d/s/b.mp4".to_string()),
        ]
    );
    // On Windows separators are as they are.
    let path = FilePath::from_text("C:\\d\\s\\a.mp4", Platform::Windows);
    let base = FilePath::from_text("C:\\d", Platform::Windows);
    let files = vec![WalkedFile { path, is_file: true, absolute: None, size: None }];
    let manifest = write_manifest(&files, &vec![Ok(A.to_string())], &base);
    assert_eq!(manifest.text, "AAAAAAAAAAAAAAAA *s\\a.mp4\n");
}

#[test]
fn generated_manifests_lead_to_the_files() {
    let walk = vec![
        file("d/z.mp4", Some(1)),
        file("d/s/é (1).mp4", Some(2)),
        file("d/a.mp4", Some(3)),
    ];
    let files = select_files(&walk, false);
    let outcomes: Vec<Result<String, String>> =
        files.iter().map(|f| Ok(hash_file(&f.path.bytes))).collect();
    let expected: Vec<(String, FilePath)> =
        files.iter().map(|f| (hash_file(&f.path.bytes), f.path.clone())).collect();
    // The directory may be given with a separator behind it.
    for base in ["d", "d/"] {
        let manifest = write_manifest(&files, &outcomes, &at(base));
        let lines = HashFile::parse(&manifest.text, &at(base).join(b"m.xxh3")).unwrap();
        let got: Vec<(String, FilePath)> =
            lines.into_iter().map(|l| (l.hash, l.path)).collect();
        assert_eq!(got, expected);
    }
    assert_eq!(expected[0].1, at("d/a.mp4"));
    // With more behind the directory the paths are the same, in other words.
    for base in ["d//", "d/./", "d/."] {
        let file = at(base).join(b"s").join(b"a.mp4");
        let path = file.clone();
        let files = vec![WalkedFile { path, is_file: true, absolute: None, size: None }];
        let manifest = write_manifest(&files, &vec![Ok(A.to_string())], &at(base));
        assert_eq!(manifest.text, "AAAAAAAAAAAAAAAA *s\\a.mp4\n");
        let lines = HashFile::parse(&manifest.text, &at(base).join(b"m.xxh3")).unwrap();
        assert_eq!(lines[0].path, at("d/s/a.mp4"));
        assert_ne!(lines[0].path, file);
        assert_eq!(Path::new(&lines[0].path.text()), Path::new(&file.text()));
    }
}

#[test]
fn files_are_selected_sorted_and_summed() {
    let walk = vec![
        file("/d/b.mp4", Some(10)),
        file("/d/a/z.mp4", None),
        file("/d/a.txt", Some(1)),
        file("/d/a.mp4", Some(5)),
    ];
    let files = select_files(&walk, false);
    let got: Vec<String> = files.iter().map(|f| f.path.text()).collect();
    assert_eq!(got, vec!["/d/a/z.mp4", "/d/a.mp4", "/d/b.mp4"]);
    assert_eq!(total_bytes(&files), Some(15));
    let huge = vec![file("/d/a.mp4", Some(u64::MAX)), file("/d/b.mp4", Some(1))];
    assert_eq!(total_bytes(&huge), None);
    assert_eq!(coverage(&files, &vec![entry(A, "/d/b.mp4"), entry(A, "/d/x.mp4")]), (1, 2));
}

// ---------------------------------------------------------------------------
// Errors
// ---------------------------------------------------------------------------

#[test]
fn errors_say_what_is_wrong() {
    let e = RenameOperation::new(at("/no"), None, false, true, false, false, false, false)
        .unwrap_err();
    assert_eq!(e.to_text(), "Path does not exist or is not a directory: /no");
    let e = RenameOperation::new(at("/f"), None, false, true, false, false, true, false)
        .unwrap_err();
    assert!(matches!(e, Failure::NotADirectory(_)));

    let op = RenameOperation::new(
        at("/d"),
        Some(at("/m.xxh3")),
        false,
        true,
        false,
        false,
        true,
        true,
    )
    .unwrap();
    let e = op.manifest_source(false).unwrap_err();
    assert_eq!(e.to_text(), "Hashfile not found: /m.xxh3");
    assert!(matches!(op.manifest_source(true), Ok(ManifestSource::Named(_))));
    let op = operation(false, true, false, false);
    assert!(matches!(op.manifest_source(false), Ok(ManifestSource::Search)));

    let e = scan_root(at("/no"), false, false).unwrap_err();
    assert_eq!(e.to_text(), "路径不存在或不是目录: /no");
    assert_eq!(scan_root(at("/d"), true, true).unwrap(), at("/d"));

    let e = undo(None, Platform::Other).unwrap_err();
    assert_eq!(e.to_text(), "Log not found");
    let e = undo(Some(b"a,b\n1,2,3\n".to_vec()), Platform::Other).unwrap_err();
    assert!(matches!(e, Failure::MalformedLog(_)));
    assert_eq!(
        e.to_text(),
        "CSV error: record 1 (line: 2, byte: 4): found record with 3 fields, but the previous \
         record has 2 fields"
    );
    let data = b"a,b\n1,\xff\n".to_vec();
    let expected = csv::Reader::from_reader(&data[..]).records().next().unwrap().unwrap_err();
    let e = undo(Some(data), Platform::Other).unwrap_err();
    assert_eq!(e.to_text(), expected.to_string());
    assert!(e.to_text().contains("invalid utf-8"));
}

#[test]
fn nothing_is_renamed_unless_asked() {
    let entries = vec![entry(A, "/d/a.mp4")];
    assert_eq!(operation(false, true, false, false).course(&entries), Course::DryRun);
    assert_eq!(operation(false, false, false, false).course(&entries), Course::Apply);
    assert_eq!(operation(false, false, false, false).course(&vec![]), Course::NoEntries);
    assert_eq!(operation(false, false, false, true).course(&vec![]), Course::NoDuplicates);
}

// ---------------------------------------------------------------------------
// Plans
// ---------------------------------------------------------------------------

fn only(report: &Report) -> (&str, Option<String>, &str) {
    assert_eq!(report.actions.len(), 1);
    let a = &report.actions[0];
    (a.status.as_str(), a.dst.as_ref().map(|p| p.text()), a.note.as_str())
}

#[test]
fn each_status_has_its_cause() {
    let op = operation(false, true, false, false);
    let plan = |path: &str, existing: &[&str]| op.build_plan(&vec![entry(A, path)], &disk(existing));
    let dst = "/d/a_AAAAAAAAAAAAAAAA.mp4";

    assert_eq!(only(&plan("/d/a.exe", &[])), ("not-video", None, "system file (excluded)"));
    assert_eq!(
        only(&plan("/d/a.txt", &[])),
        ("not-video", None, "extension not in video allowlist")
    );
    assert_eq!(only(&plan(dst, &[])), ("done", Some(dst.to_string()), "already suffixed"));
    assert_eq!(
        only(&plan("/d/a.mp4", &[dst])),
        ("done", Some(dst.to_string()), "source already renamed in a prior run")
    );
    assert_eq!(
        only(&plan("/d/a.mp4", &[])),
        ("missing", None, "listed in manifest but not found on disk (checked: /d/a.mp4)")
    );
    assert_eq!(
        only(&plan("/d/a.mp4", &["/d/a.mp4", dst])),
        ("conflict", Some(dst.to_string()), "target name already exists on disk")
    );
    assert_eq!(
        only(&plan("/d/a.mp4", &["/d/a.mp4"])),
        ("rename", Some(dst.to_string()), "")
    );
    let all = operation(false, true, true, false);
    let report = all.build_plan(&vec![entry(A, "/d/a.txt")], &disk(&["/d/a.txt"]));
    assert_eq!(only(&report).0, "rename");
}

#[test]
fn second_runs_rename_nothing() {
    let op = operation(false, true, false, false);
    // One to rename, two with one target, one whose target exists, one missing.
    let entries = vec![
        entry(A, "/d/a.mp4"),
        entry(A, "/e/b.mp4"),
        entry(A, "/e//b.mp4"),
        entry(B, "/d/c.mp4"),
        entry(B, "/d/gone.mp4"),
    ];
    let before = ["/d/a.mp4", "/e/b.mp4", "/e//b.mp4", "/d/c.mp4", "/d/c_BBBBBBBBBBBBBBBB.mp4"];
    let first = op.build_plan(&entries, &disk(&before));
    let statuses = |r: &Report| -> Vec<String> {
        r.actions.iter().map(|a| a.status.clone()).collect()
    };
    assert_eq!(statuses(&first), vec!["rename", "conflict", "conflict", "conflict", "missing"]);
    let after = [
        "/d/a_AAAAAAAAAAAAAAAA.mp4",
        "/e/b.mp4",
        "/e//b.mp4",
        "/d/c.mp4",
        "/d/c_BBBBBBBBBBBBBBBB.mp4",
    ];
    let second = op.build_plan(&entries, &disk(&after));
    assert_eq!(statuses(&second), vec!["done", "conflict", "conflict", "conflict", "missing"]);
    assert_eq!(Apply::new(second).total(), 0);
}

#[test]
fn one_renamed_file_is_done() {
    let op = operation(false, true, false, false);
    for hash in [A, "aaaaaaaaaaaaaaaa", "00AaBbCcDdEeFf11"] {
        let dst = format!("/d/a_{hash}.mp4");
        let first = op.build_plan(&vec![entry(hash, "/d/a.mp4")], &disk(&["/d/a.mp4"]));
        assert_eq!(only(&first), ("rename", Some(dst.clone()), ""));
        let later = disk(&[&dst]);
        for path in [dst.as_str(), "/d/a.mp4"] {
            let again = op.build_plan(&vec![entry(hash, path)], &later);
            let (status, to, _) = only(&again);
            assert_eq!((status, to), ("done", Some(dst.clone())));
        }
    }
}

#[test]
fn names_that_are_no_text_are_done_where_the_hash_stays_in_the_stem() {
    let op = operation(false, true, true, false);
    let entry_at = |name: &[u8]| HashEntry { abs_path: at("/d").join(name), ..entry(A, "/") };
    let run = |name: &[u8]| -> Vec<String> {
        let first = entry_at(name);
        let there = Disk { existing: vec![first.abs_path.clone()], digests: vec![], walk: vec![] };
        let report = op.build_plan(&vec![first], &there);
        assert_eq!(only(&report).0, "rename");
        let dst = report.actions[0].dst.clone().unwrap();
        let later = Disk { existing: vec![dst.clone()], digests: vec![], walk: vec![] };
        let moved = HashEntry { abs_path: dst.clone(), ..entry(A, "/") };
        let again = op.build_plan(&vec![moved], &later);
        vec![dst.text(), only(&again).0.to_string()]
    };
    assert_eq!(run(b"a.\xff"), vec!["/d/a_AAAAAAAAAAAAAAAA", "done"]);
    assert_eq!(run(b".a.\xff"), vec!["/d/.a_AAAAAAAAAAAAAAAA", "done"]);
    // Here the hash becomes part of an extension.
    assert_eq!(run(b"a.b.\xff"), vec!["/d/a.b_AAAAAAAAAAAAAAAA", "rename"]);
}

#[test]
fn contents_are_verified_where_asked() {
    let op = operation(true, true, false, false);
    let entries = vec![entry(A, "/d/a.mp4")];
    let existing = vec![at("/d/a.mp4")];
    let probes: Vec<String> = op.paths_to_probe(&entries).iter().map(|p| p.text()).collect();
    assert_eq!(probes, vec!["/d/a.mp4", "/d/a_AAAAAAAAAAAAAAAA.mp4"]);
    assert_eq!(op.paths_to_hash(&entries, &existing), vec![at("/d/a.mp4")]);
    assert_eq!(op.paths_to_hash(&entries, &vec![]), vec![]);

    let plan = |outcome: Result<String, String>| {
        let digests = vec![FileDigest { path: at("/d/a.mp4"), outcome }];
        op.build_plan(&entries, &Disk { existing: existing.clone(), digests, walk: vec![] })
    };
    assert_eq!(only(&plan(Ok(A.to_string()))).0, "rename");
    let wrong = plan(Ok(B.to_string()));
    assert_eq!(only(&wrong).0, "verify-failed");
    assert_eq!(
        only(&wrong).2,
        "hash mismatch (manifest AAAAAAAAAAAAAAAA vs actual BBBBBBBBBBBBBBBB)"
    );
    let unread = plan(Err("permission denied".to_string()));
    assert_eq!(only(&unread).0, "verify-failed");
    assert_eq!(only(&unread).2, "permission denied");
    let untried = op.build_plan(&entries, &disk(&["/d/a.mp4"]));
    assert_eq!(only(&untried).0, "verify-failed");
}

#[test]
fn contradictions_are_told() {
    let op = operation(false, true, false, false);
    let entries = vec![entry(A, "/d/a.mp4"), entry(B, "/d/a.mp4"), entry(A, "/d/a.mp4")];
    let report = op.build_plan(&entries, &disk(&["/d/a.mp4"]));
    assert_eq!(
        only(&report),
        (
            "conflict",
            None,
            "same path listed with two hashes (AAAAAAAAAAAAAAAA vs BBBBBBBBBBBBBBBB)"
        )
    );
    assert_eq!(
        report.warnings,
        vec![
            "Warning: /d/a.mp4 listed with two different hashes:\n  \
             manifest 1: AAAAAAAAAAAAAAAA (from /m.xxh3)\n  \
             manifest 2: BBBBBBBBBBBBBBBB (from /m.xxh3)"
        ]
    );
}

#[test]
fn files_with_one_target_are_conflicts() {
    // Two spellings of one name on a platform that does not tell them apart.
    let mac = |p: &str| FilePath::from_text(p, Platform::MacOs);
    let entries = vec![
        HashEntry {
            hash: A.to_string(),
            abs_path: mac("/d/x.MP4"),
            manifest_path: mac("/m"),
            computed: false,
        },
        HashEntry {
            hash: A.to_string(),
            abs_path: mac("/d//x.mp4"),
            manifest_path: mac("/m"),
            computed: false,
        },
    ];
    let op = operation(false, true, false, false);
    let existing = vec![mac("/d/x.MP4"), mac("/d//x.mp4")];
    let report = op.build_plan(&entries, &Disk { existing, digests: vec![], walk: vec![] });
    let statuses: Vec<&str> = report.actions.iter().map(|a| a.status.as_str()).collect();
    assert_eq!(statuses, vec!["conflict", "conflict"]);
    assert_eq!(report.actions[0].note, "2 different files would collide on target name");
}

#[test]
fn files_without_action_are_orphans() {
    let op = operation(false, true, false, false);
    let mut d = disk(&["/d/a.mp4"]);
    d.walk = vec![
        file("/d/a.mp4", None),
        file("/d/a_AAAAAAAAAAAAAAAA.mp4", None),
        file("/d/b.mp4", None),
        file("/d/c.txt", None),
        WalkedFile {
            path: at("d/e.mp4"),
            is_file: true,
            absolute: Some(at("/abs/e.mp4")),
            size: None,
        },
    ];
    let report = op.build_plan(&vec![entry(A, "/d/a.mp4")], &d);
    let orphans: Vec<String> = report.orphans.iter().map(|p| p.text()).collect();
    assert_eq!(orphans, vec!["/d/b.mp4", "/abs/e.mp4"]);
    let dupes = operation(false, true, false, true);
    assert!(dupes.build_plan(&vec![entry(A, "/d/a.mp4")], &d).orphans.is_empty());
}

// ---------------------------------------------------------------------------
// Reports
// ---------------------------------------------------------------------------

fn action(src: &str, dst: Option<&str>, status: &str, note: &str) -> Action {
    Action {
        src: at(src),
        dst: dst.map(|p| at(p)),
        hash: A.to_string(),
        status: status.to_string(),
        note: note.to_string(),
    }
}

#[test]
fn summaries_count_what_there_is() {
    let actions = vec![
        action("/a", None, "missing", ""),
        action("/b", None, "rename", ""),
        action("/c", None, "rename", ""),
        action("/d", None, "verify-failed", ""),
    ];
    let got: Vec<(String, usize)> =
        summarize(&actions).iter().map(|l| (l.label.clone(), l.count)).collect();
    assert_eq!(
        got,
        vec![
            ("将重命名".to_string(), 2),
            ("校验失败(已拒绝)".to_string(), 1),
            ("清单有、磁盘无".to_string(), 1),
        ]
    );
    assert_eq!(count_status(&actions, "rename"), 2);
    assert_eq!(count_status(&actions, "done"), 0);
}

#[test]
fn applies_are_summed_up() {
    let mut actions = vec![
        action("/a", Some("/a_h"), "renamed", ""),
        action("/b", Some("/b_h"), "renamed", ""),
        action("/c", None, "done", ""),
    ];
    let log = "dups-applied-20260630-153526.csv";
    let (thick, thin) = ("=".repeat(70), "-".repeat(70));
    assert_eq!(
        apply_summary(&actions, log),
        vec![
            "",
            thick.as_str(),
            "执行完成",
            thin.as_str(),
            "[OK] 成功改名: 2 个",
            thick.as_str(),
            "",
            "Next steps:",
            "  1. 检查结果是否满意",
            "  2. 如需撤销所有改名，运行:",
            "     dups undo dups-applied-20260630-153526.csv",
            "  3. 详细日志见: dups-applied-20260630-153526.csv",
        ]
    );
    for a in actions.iter_mut() {
        a.status = "error".to_string();
    }
    assert_eq!(
        apply_summary(&actions, log),
        vec![
            "",
            thick.as_str(),
            "执行完成",
            thin.as_str(),
            "[OK] 成功改名: 0 个",
            "[ERROR] 改名失败: 3 个",
            thick.as_str(),
        ]
    );
}

#[test]
fn reports_are_written_row_by_row() {
    let report = Report {
        actions: vec![
            action("/d/a.mp4", Some("/d/x,y.mp4"), "rename", ""),
            action("/d/\"b\".mp4", None, "missing", "gone"),
        ],
        orphans: vec![at("/d/o.mp4")],
        warnings: vec!["two\nlines".to_string()],
    };
    assert_eq!(
        report_csv(&report, "NOW"),
        "\u{feff}timestamp,status,hash,old_path,new_path,note\n\
         NOW,rename,AAAAAAAAAAAAAAAA,/d/a.mp4,\"/d/x,y.mp4\",\n\
         NOW,missing,AAAAAAAAAAAAAAAA,\"/d/\"\"b\"\".mp4\",,gone\n\
         NOW,orphan,,/d/o.mp4,,no hash in any manifest\n\
         NOW,warning,,,,\"two\nlines\"\n"
    );
}

#[test]
fn plans_are_never_undone() {
    let op = operation(false, true, false, false);
    let entries = vec![entry(A, "/d/a.mp4"), entry(B, "/d/b.mp4")];
    let report = op.build_plan(&entries, &disk(&["/d/a.mp4"]));
    let text = report_csv(&report, "NOW");
    assert!(read_undo_pairs(text.as_bytes()).unwrap().is_empty());
}

// ---------------------------------------------------------------------------
// Logs
// ---------------------------------------------------------------------------

#[test]
fn fields_are_quoted_where_needed() {
    assert_eq!(escape_csv(""), "");
    assert_eq!(escape_csv("plain text"), "plain text");
    assert_eq!(escape_csv("a,b"), "\"a,b\"");
    assert_eq!(escape_csv("say \"hi\""), "\"say \"\"hi\"\"\"");
    assert_eq!(escape_csv("two\nlines"), "\"two\nlines\"");
}

#[test]
fn journals_read_back_whatever_is_in_the_fields() {
    let pairs = [
        ("/d/a, b.mp4", "/d/a, b_H.mp4"),
        ("/d/\"q\".mp4", "/d/\"q\"_H.mp4"),
        ("/d/line\nbreak.mp4", "/d/line\nbreak_H.mp4"),
        ("/d/both\r\n,.mp4", "/d/both\r\n,_H.mp4"),
        (" /d/ space .mp4 ", "/d/【素材】.mp4"),
    ];
    let mut journal = Journal::new();
    let mut written = journal.take();
    assert_eq!(written, "\u{feff}timestamp,status,hash,old_path,new_path,note\n");
    for (old, new) in pairs {
        journal.record("2026-07-02T00:00:00+00:00", "renamed", A, old, new, "a \"note\", too");
        written.push_str(&journal.take());
    }
    assert_eq!(journal.take(), "");
    let read = read_undo_pairs(written.as_bytes()).unwrap();
    let got: Vec<(&str, &str)> = read.iter().map(|p| (p.old.as_str(), p.new.as_str())).collect();
    assert_eq!(got, pairs.to_vec());
}

#[test]
fn journals_can_go_on_with_a_file() {
    let mut journal = Journal::append();
    assert_eq!(journal.take(), "");
    journal.record("T", "renamed", "H", "/o", "/n", "");
    assert_eq!(journal.take(), "T,renamed,H,/o,/n,\n");
}

#[test]
fn only_renames_that_were_made_are_undone() {
    let log = "timestamp,status,hash,old_path,new_path,note\n\
        t,rename,h,/planned,/planned_h,\n\
        t,pending,h,/a,/a_h,\n\
        t,renamed,h,/a,/a_h,\n\
        t,pending,h,/open,/open_h,\n\
        t,conflict,h,/c,/c_h,\n\
        t,renamed,h,,/x_h,\n\
        t,renamed,h,/a,/a_h,\n";
    let pairs = read_undo_pairs(log.as_bytes()).unwrap();
    let got: Vec<(&str, &str)> = pairs.iter().map(|p| (p.old.as_str(), p.new.as_str())).collect();
    assert_eq!(got, vec![("/a", "/a_h"), ("/open", "/open_h")]);
    let short = "a,b\n1,2\n";
    assert!(read_undo_pairs(short.as_bytes()).unwrap().is_empty());
}

// ---------------------------------------------------------------------------
// Renaming
// ---------------------------------------------------------------------------

fn two_renames() -> Report {
    Report {
        actions: vec![
            action("/d/a.mp4", Some("/d/a_h.mp4"), "rename", ""),
            action("/d/n.txt", None, "not-video", ""),
            action("/d/b.mp4", Some("/d/b_h.mp4"), "rename", ""),
        ],
        orphans: vec![],
        warnings: vec![],
    }
}

/// Runs with the answers given for each rename, and tells the steps.
fn run(apply: &mut Apply, answers: Vec<(bool, bool, Option<&str>)>) -> Vec<String> {
    let mut told: Vec<String> = Vec::new();
    let mut i: usize = 0;
    let mut trouble: Option<&str> = None;
    loop {
        match apply.step() {
            Step::Finished => return told,
            Step::Probe { src, dst } => {
                told.push(format!("probe {} {}", src.text(), dst.text()));
                let (s, d, t) = answers[i];
                i += 1;
                trouble = t;
                apply.advance(Event::Probed { src: s, dst: d });
            }
            Step::Record(r) => {
                told.push(format!("{} {} {} {}", r.status, r.old, r.new, r.note));
                apply.advance(Event::Recorded);
            }
            Step::Rename { src, dst } => {
                told.push(format!("mv {} {}", src.text(), dst.text()));
                match trouble {
                    Some(why) => apply.advance(Event::Failed(why.to_string())),
                    None => apply.advance(Event::Renamed),
                }
            }
        }
    }
}

#[test]
fn renames_are_announced_and_reported() {
    let mut apply = Apply::new(two_renames());
    assert_eq!(apply.total(), 2);
    let told = run(&mut apply, vec![(true, false, None), (true, false, Some("disk full"))]);
    assert_eq!(
        told,
        vec![
            "probe /d/a.mp4 /d/a_h.mp4",
            "pending /d/a.mp4 /d/a_h.mp4 about to rename",
            "mv /d/a.mp4 /d/a_h.mp4",
            "renamed /d/a.mp4 /d/a_h.mp4 ",
            "probe /d/b.mp4 /d/b_h.mp4",
            "pending /d/b.mp4 /d/b_h.mp4 about to rename",
            "mv /d/b.mp4 /d/b_h.mp4",
            "error /d/b.mp4 /d/b_h.mp4 disk full",
        ]
    );
    assert_eq!((apply.successes(), apply.failures()), (1, 1));
    let report = apply.into_report();
    assert_eq!(report.actions[0].status, "renamed");
    assert_eq!(report.actions[1].status, "not-video");
    assert_eq!(report.actions[2].status, "error");
    assert_eq!(report.actions[2].note, "rename failed: disk full");
}

#[test]
fn renames_that_are_no_longer_safe_are_refused() {
    let mut apply = Apply::new(two_renames());
    let told = run(&mut apply, vec![(false, false, None), (true, true, None)]);
    assert_eq!(
        told,
        vec![
            "probe /d/a.mp4 /d/a_h.mp4",
            "error /d/a.mp4 /d/a_h.mp4 source no longer exists at apply time",
            "probe /d/b.mp4 /d/b_h.mp4",
            "conflict /d/b.mp4 /d/b_h.mp4 target now exists on disk (would overwrite); skipped",
        ]
    );
    assert_eq!((apply.successes(), apply.failures()), (0, 2));
    let report = apply.into_report();
    assert_eq!(report.actions[0].status, "error");
    assert_eq!(report.actions[2].status, "conflict");
}

#[test]
fn answers_to_other_questions_change_nothing() {
    let mut apply = Apply::new(two_renames());
    apply.advance(Event::Renamed);
    apply.advance(Event::Recorded);
    apply.advance(Event::Failed("x".to_string()));
    assert!(matches!(apply.step(), Step::Probe { .. }));
    assert_eq!((apply.successes(), apply.failures()), (0, 0));
}

/// Stops after each number of steps, undoes what the log tells, and finds the
/// disk as it was.
#[test]
fn broken_runs_can_be_undone() {
    let before: Vec<String> = vec!["/d/a.mp4".to_string(), "/d/b.mp4".to_string()];
    for stop in 0..12usize {
        let mut files = before.clone();
        let mut journal = Journal::new();
        let mut apply = Apply::new(two_renames());
        for _ in 0..stop {
            match apply.step() {
                Step::Finished => {}
                Step::Probe { src, dst } => {
                    let event = Event::Probed {
                        src: files.contains(&src.text()),
                        dst: files.contains(&dst.text()),
                    };
                    apply.advance(event);
                }
                Step::Record(r) => {
                    journal.record("T", &r.status, &r.hash, &r.old, &r.new, &r.note);
                    apply.advance(Event::Recorded);
                }
                Step::Rename { src, dst } => {
                    files.retain(|f| *f != src.text());
                    files.push(dst.text());
                    apply.advance(Event::Renamed);
                }
            }
        }
        let log = journal.take();
        let mut u = undo(Some(log.into_bytes()), Platform::Other).unwrap();
        loop {
            match u.step() {
                Step::Finished => break,
                Step::Probe { src, dst } => {
                    let event = Event::Probed {
                        src: files.contains(&src.text()),
                        dst: files.contains(&dst.text()),
                    };
                    u.advance(event);
                }
                Step::Record(_) => u.advance(Event::Recorded),
                Step::Rename { src, dst } => {
                    files.retain(|f| *f != src.text());
                    files.push(dst.text());
                    u.advance(Event::Renamed);
                }
            }
        }
        files.sort();
        assert_eq!(files, before, "after {stop} steps");
    }
}

#[test]
fn undo_counts_what_it_did() {
    let log = "timestamp,status,hash,old_path,new_path,note\n\
        t,renamed,h,/a,/a_h,\nt,renamed,h,/b,/b_h,\nt,renamed,h,/c,/c_h,\nt,renamed,h,/e,/e_h,\n";
    let mut u = undo(Some(log.as_bytes().to_vec()), Platform::Other).unwrap();
    assert_eq!(u.total(), 4);
    let answers = [(true, false), (false, false), (true, true), (true, false)];
    let mut i: usize = 0;
    let mut rows: Vec<String> = Vec::new();
    loop {
        match u.step() {
            Step::Finished => break,
            Step::Probe { .. } => {
                let (src, dst) = answers[i];
                u.advance(Event::Probed { src, dst });
            }
            Step::Record(r) => {
                rows.push(format!("{},{},{},{},{}", r.status, r.hash, r.old, r.new, r.note));
                i += 1;
                u.advance(Event::Recorded);
            }
            Step::Rename { src, dst } => {
                assert!(src.text().ends_with("_h"));
                assert!(!dst.text().ends_with("_h"));
                if i == 3 {
                    u.advance(Event::Failed("denied".to_string()));
                } else {
                    u.advance(Event::Renamed);
                }
            }
        }
    }
    assert_eq!(
        rows,
        vec![
            "reverted,,/a,/a_h,",
            "skip,,/b,/b_h,new name not present",
            "refuse,,/c,/c_h,original name occupied",
            "error,,/e,/e_h,denied",
        ]
    );
    assert_eq!((u.reverted(), u.skipped(), u.failures()), (1, 1, 2));
}

// ---------------------------------------------------------------------------
// Duplicate names
// ---------------------------------------------------------------------------

#[test]
fn groups_are_sorted_and_sized() {
    let walk = vec![
        file("/z/b.mp4", Some(3)),
        file("/y/a.mp4", Some(1)),
        file("/x/b.mp4", None),
        file("/a/a.mp4", Some(1)),
        file("/only.mp4", Some(9)),
    ];
    let found = check(&walk, false);
    assert_eq!(found.total, 5);
    assert_eq!(found.groups.len(), 2);
    assert_eq!(found.groups[0].members, vec![at("/a/a.mp4"), at("/y/a.mp4")]);
    assert_eq!(found.groups[0].sizes, vec![Some(1), Some(1)]);
    assert_eq!(found.groups[1].members, vec![at("/x/b.mp4"), at("/z/b.mp4")]);
    assert_eq!(found.groups[1].sizes, vec![None, Some(3)]);
    assert_eq!(found.real, vec![0, 1]);
    assert!(found.benign.is_empty());
    assert!(all_same_size(&found.groups[0].sizes));
    assert!(!all_same_size(&found.groups[1].sizes));
    assert!(!all_same_size(&vec![]));
}

#[test]
fn renaming_duplicates_leaves_none() {
    let copy = "y_00AABBCCDDEEFF11.mp4";
    let mut walk = vec![
        file("/a/x.mp4", Some(1)),
        file("/b/x.mp4", Some(2)),
        file("/c/x.mp4", Some(1)),
        file("/a/alone.mp4", Some(4)),
        file(&format!("/a/{copy}"), Some(5)),
        file(&format!("/b/{copy}"), Some(5)),
    ];
    let found = check(&walk, false);
    assert_eq!(found.real.len(), 1);
    let op = operation(false, true, false, true);
    let members = op.only_dupes_to_hash(&found.groups, &vec![]);
    assert_eq!(members, vec![at("/a/x.mp4"), at("/b/x.mp4"), at("/c/x.mp4")]);
    // The first and the third have the same content.
    let digests: Vec<FileDigest> = members
        .into_iter()
        .zip([A, B, A])
        .map(|(path, hash)| FileDigest { path, outcome: Ok(hash.to_string()) })
        .collect();
    let entries = op.load_only_dupes_entries(&found.groups, &vec![], &digests).unwrap();
    let report = op.build_plan(&entries, &disk(&["/a/x.mp4", "/b/x.mp4", "/c/x.mp4"]));
    assert_eq!(count_status(&report.actions, "rename"), 3);
    for a in &report.actions {
        let w = walk.iter_mut().find(|w| w.path == a.src).unwrap();
        w.path = a.dst.clone().unwrap();
    }
    let after = check(&walk, false);
    assert!(after.real.is_empty());
    assert_eq!(after.benign.len(), 2);
}

#[test]
fn unknown_sizes_are_not_benign() {
    let name = "x_00AABBCCDDEEFF11.mp4";
    let walk = vec![file(&format!("/a/{name}"), None), file(&format!("/b/{name}"), None)];
    assert_eq!(check(&walk, false).real, vec![0]);
}

#[test]
fn an_unreadable_duplicate_is_an_error() {
    let walk = vec![file("/a/x.mp4", Some(1)), file("/b/x.mp4", Some(2))];
    let groups = check(&walk, false).groups;
    let op = operation(false, true, false, true);
    assert_eq!(op.only_dupes_to_hash(&groups, &vec![]), vec![at("/a/x.mp4"), at("/b/x.mp4")]);
    assert_eq!(op.only_dupes_to_hash(&groups, &vec![entry(A, "/a/x.mp4")]), vec![at("/b/x.mp4")]);
    let digests = vec![
        FileDigest { path: at("/a/x.mp4"), outcome: Ok(A.to_string()) },
        FileDigest { path: at("/b/x.mp4"), outcome: Err("denied".to_string()) },
    ];
    let r = op.load_only_dupes_entries(&groups, &vec![], &digests);
    assert_eq!(r.unwrap_err(), "denied");
    let r = op.load_only_dupes_entries(&groups, &vec![], &vec![]);
    assert!(r.is_err());
}
