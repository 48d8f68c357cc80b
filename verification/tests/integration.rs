//! Whole workflows on a disk that is kept in memory.

use std::collections::BTreeMap;

use dups::check;
use dups::check::{DupeGroup, Findings};
use dups::disk::{Disk, FileDigest, WalkedFile};
use dups::hashfile::{HashEntry, HashFile};
use dups::moves::{undo, Event, Step};
use dups::path::{FilePath, Platform};
use dups::rename;
use dups::rename::{RenameOperation, Report};

/// A disk: the contents of files by their paths.
struct Tree {
    files: BTreeMap<String, Vec<u8>>,
}

impl Tree {
    fn new() -> Tree {
        Tree { files: BTreeMap::new() }
    }

    fn write(&mut self, path: &str, content: &[u8]) {
        self.files.insert(path.to_string(), content.to_vec());
    }

    fn holds(&self, path: &FilePath) -> bool {
        self.files.contains_key(&path.text())
    }

    fn has(&self, path: &str) -> bool {
        self.files.contains_key(path)
    }

    fn rename(&mut self, from: &FilePath, to: &FilePath) {
        let content = self.files.remove(&from.text()).unwrap();
        self.files.insert(to.text(), content);
    }

    fn walk(&self) -> Vec<WalkedFile> {
        let mut walk: Vec<WalkedFile> = Vec::new();
        for (path, content) in &self.files {
            walk.push(WalkedFile {
                path: at(path),
                is_file: true,
                absolute: Some(at(path)),
                size: Some(content.len() as u64),
            });
        }
        walk
    }

    fn digests(&self, paths: &Vec<FilePath>) -> Vec<FileDigest> {
        let mut digests: Vec<FileDigest> = Vec::new();
        for path in paths {
            let outcome = match self.files.get(&path.text()) {
                Some(content) => Ok(rename::hash_file(content)),
                None => Err("no such file".to_string()),
            };
            digests.push(FileDigest { path: path.clone(), outcome });
        }
        digests
    }

    /// Plans with what the plan asks to know.
    fn plan(&self, op: &RenameOperation, entries: &Vec<HashEntry>) -> Report {
        let probed = op.paths_to_probe(entries);
        let existing: Vec<FilePath> = probed.into_iter().filter(|p| self.holds(p)).collect();
        let digests = self.digests(&op.paths_to_hash(entries, &existing));
        op.build_plan(entries, &Disk { existing, digests, walk: self.walk() })
    }

    fn only_dupes(&self, op: &RenameOperation, manifest: &Vec<HashEntry>) -> Vec<HashEntry> {
        let (_, groups) = check::scan_duplicate_groups(&self.walk(), op.all_files);
        let to_hash = op.only_dupes_to_hash(&groups, manifest);
        op.load_only_dupes_entries(&groups, manifest, &self.digests(&to_hash)).unwrap()
    }

    fn check(&self, all_files: bool) -> Findings {
        check::check(&self.walk(), all_files)
    }

    fn groups(&self, all_files: bool) -> (usize, Vec<DupeGroup>) {
        check::scan_duplicate_groups(&self.walk(), all_files)
    }

    fn undo(&mut self, log: &str) {
        let mut u = undo(Some(log.as_bytes().to_vec()), Platform::Other).unwrap();
        loop {
            match u.step() {
                Step::Finished => return,
                Step::Probe { src, dst } => {
                    let event = Event::Probed { src: self.holds(&src), dst: self.holds(&dst) };
                    u.advance(event);
                }
                Step::Record(_) => u.advance(Event::Recorded),
                Step::Rename { src, dst } => {
                    self.rename(&src, &dst);
                    u.advance(Event::Renamed);
                }
            }
        }
    }
}

fn at(path: &str) -> FilePath {
    FilePath::from_text(path, Platform::Other)
}

fn operation(verify: bool, only_dupes: bool, hashfile: Option<FilePath>) -> RenameOperation {
    RenameOperation::new(at("/d"), hashfile, verify, true, false, only_dupes, true, true).unwrap()
}

fn entry(hash: &str, path: &str) -> HashEntry {
    HashEntry {
        hash: hash.to_string(),
        abs_path: at(path),
        manifest_path: at("dummy.xxh3"),
        computed: false,
    }
}

fn computed_entry(hash: &str, path: &str) -> HashEntry {
    HashEntry::from_computed(&at(path), hash.to_string())
}

fn count(report: &Report, status: &str) -> usize {
    report.actions.iter().filter(|a| a.status == status).count()
}

#[test]
fn verify_zero_padding() {
    let mut found: Option<(String, [u8; 4])> = None;
    for i in 0u32..10_000 {
        let content = i.to_le_bytes();
        let h = rename::hash_file(&content);
        assert_eq!(h.len(), 16, "hash must always be zero-padded to 16 chars");
        if h.starts_with('0') {
            found = Some((h, content));
            break;
        }
    }
    let (h, content) = found.expect("should find a leading-zero hash within 10000 tries");
    assert_eq!(h.len(), 16);
    let got = rename::hash_file(&content);
    // The padded hash verifies.
    assert!(rename::verify_hash(&got, &h).is_ok());
    // One without the zeros in front does not.
    assert!(rename::verify_hash(&got, h.trim_start_matches('0')).is_err());
}

#[test]
fn double_suffix_idempotency() {
    let mut tree = Tree::new();
    tree.write("/d/video.mp4", b"hello world");
    let hash = rename::hash_file(b"hello world");
    let op = operation(false, false, None);

    // First plan: a rename is scheduled.
    let report = tree.plan(&op, &vec![entry(&hash, "/d/video.mp4")]);
    let rename_action = report
        .actions
        .iter()
        .find(|a| a.status == "rename")
        .expect("expected a rename action");
    let dst = rename_action.dst.clone().unwrap();
    let name = String::from_utf8(dst.file_name().unwrap()).unwrap();
    assert!(name.contains(&hash));

    // Carry it out.
    tree.rename(&at("/d/video.mp4"), &dst);
    assert!(tree.holds(&dst));

    // A regenerated manifest lists the file under its new name.
    let report2 = tree.plan(&op, &vec![entry(&hash, &dst.text())]);
    assert_eq!(
        count(&report2, "rename"),
        0,
        "already-suffixed file must not be renamed again"
    );
    assert!(report2.actions.iter().any(|a| a.status == "done"));

    // And no file with the hash twice in its name exists.
    assert!(!tree.has(&format!("/d/video_{hash}_{hash}.mp4")));
}

#[test]
fn conflicting_hash_not_renamed() {
    let mut tree = Tree::new();
    tree.write("/d/a.mp4", b"content");
    let op = operation(false, false, None);
    let entries = vec![
        entry("AAAAAAAAAAAAAAAA", "/d/a.mp4"),
        entry("BBBBBBBBBBBBBBBB", "/d/a.mp4"),
    ];
    let report = tree.plan(&op, &entries);

    assert_eq!(
        count(&report, "rename"),
        0,
        "conflicting-hash path must not be scheduled for rename"
    );
    assert!(
        report.actions.iter().any(|a| a.status == "conflict"),
        "expected a conflict action for the path"
    );
}

#[test]
fn bom_manifest_parses_all_entries() {
    let mut bytes = vec![0xEFu8, 0xBB, 0xBF];
    bytes.extend_from_slice(b"AAAAAAAAAAAAAAAA *a.mp4\r\nBBBBBBBBBBBBBBBB *b.mp4\r\n");
    let content = String::from_utf8(bytes).unwrap();

    let entries = HashFile::parse(&content, &at("/d/m.xxh3")).unwrap();
    assert_eq!(entries.len(), 2, "BOM must not swallow the first entry");
    assert_eq!(entries[0].hash, "AAAAAAAAAAAAAAAA");
    assert_eq!(entries[1].hash, "BBBBBBBBBBBBBBBB");
}

fn log_of(rows: &[(&str, &str, &str)]) -> String {
    // Rows: status, old path, new path. No path has a comma in it.
    let mut s = String::from("timestamp,status,hash,old_path,new_path,note\n");
    for (status, old, new) in rows {
        s.push_str(&format!(
            "2026-07-02T00:00:00+00:00,{status},HHHHHHHHHHHHHHHH,{old},{new},\n"
        ));
    }
    s
}

#[test]
fn undo_reverts_and_refuses() {
    // The file goes back.
    let mut tree = Tree::new();
    let old = "/d/a.mp4";
    let new = "/d/a_HHHHHHHHHHHHHHHH.mp4";
    tree.write(new, b"data");
    tree.undo(&log_of(&[("renamed", old, new)]));
    assert!(tree.has(old), "original name should be restored");
    assert!(!tree.has(new), "renamed file should be gone");

    // The old name is occupied.
    let mut tree2 = Tree::new();
    tree2.write(old, b"occupied");
    tree2.write(new, b"data");
    tree2.undo(&log_of(&[("renamed", old, new)]));
    assert!(tree2.has(old));
    assert!(tree2.has(new), "must refuse to overwrite occupied original");
    assert_eq!(tree2.files[old], b"occupied");
}

#[test]
fn pending_row_recovery() {
    let mut tree = Tree::new();

    // A: only announced, but evidently done.
    let old_a = "/d/a.mp4";
    let new_a = "/d/a_HHHHHHHHHHHHHHHH.mp4";
    tree.write(new_a, b"a-data");

    // B: announced, and ended in an error.
    let old_b = "/d/b.mp4";
    let new_b = "/d/b_HHHHHHHHHHHHHHHH.mp4";
    tree.write(new_b, b"b-data");

    tree.undo(&log_of(&[
        ("pending", old_a, new_a),
        ("pending", old_b, new_b),
        ("error", old_b, new_b),
    ]));

    assert!(tree.has(old_a), "pending pair A should be recovered");
    assert!(!tree.has(new_a));

    assert!(!tree.has(old_b), "pair B with terminal error must be left alone");
    assert!(tree.has(new_b));
}

#[test]
fn no_two_renames_share_target() {
    let mut tree = Tree::new();
    tree.write("/d/one.mp4", b"1");
    tree.write("/d/two.mp4", b"2");
    tree.write("/d/three.mp4", b"3");

    let op = operation(false, false, None);
    // One file is listed twice.
    let entries = vec![
        entry("1111111111111111", "/d/one.mp4"),
        entry("1111111111111111", "/d/one.mp4"),
        entry("2222222222222222", "/d/two.mp4"),
        entry("3333333333333333", "/d/three.mp4"),
    ];
    let report = tree.plan(&op, &entries);

    let mut targets: Vec<String> = report
        .actions
        .iter()
        .filter(|a| a.status == "rename")
        .map(|a| a.dst.as_ref().unwrap().text().to_lowercase())
        .collect();
    let before = targets.len();
    targets.sort();
    targets.dedup();
    assert_eq!(before, targets.len(), "no two renames may share a target");
    assert_eq!(before, 3, "each distinct source should be renamed once");
}

#[test]
fn check_finds_duplicate_names() {
    let mut tree = Tree::new();
    tree.write("/d/a/x.mp4", b"content-a");
    tree.write("/d/b/x.mp4", b"content-b-different");
    tree.write("/d/c/unique.mp4", b"unique");
    // Not grouped unless all files are asked for.
    tree.write("/d/a/note.txt", b"note-a");
    tree.write("/d/b/note.txt", b"note-b");

    let (total, groups) = tree.groups(false);
    assert_eq!(total, 3, "only the 3 video files should be scanned");
    assert_eq!(groups.len(), 1, "expected exactly one duplicate-name group (x.mp4)");
    assert_eq!(groups[0].members.len(), 2);

    let n = tree.check(false).real.len();
    assert_eq!(n, 1);

    // With all files, the pair of notes is a second group.
    let (total_all, groups_all) = tree.groups(true);
    assert_eq!(total_all, 5);
    assert_eq!(groups_all.len(), 2);
}

#[test]
fn check_clean_dir_returns_zero_groups() {
    let mut tree = Tree::new();
    tree.write("/d/a.mp4", b"aaa");
    tree.write("/d/b.mp4", b"bbb");

    let (total, groups) = tree.groups(false);
    assert_eq!(total, 2);
    assert!(groups.is_empty());

    let n = tree.check(false).real.len();
    assert_eq!(n, 0);
}

fn is_16char_uppercase_hex(s: &str) -> bool {
    s.len() == 16 && s.chars().all(|c| c.is_ascii_hexdigit() && !c.is_ascii_lowercase())
}

#[test]
fn only_dupes_renames_only_collisions() {
    let mut tree = Tree::new();
    tree.write("/d/a/dup.mp4", b"content-one");
    tree.write("/d/b/dup.mp4", b"content-two-different");
    tree.write("/d/unique.mp4", b"content-unique");

    let op = operation(false, true, None);
    let entries = tree.only_dupes(&op, &vec![]);
    assert_eq!(entries.len(), 2, "only the two same-named files should be collected");
    for e in &entries {
        assert!(e.computed, "no manifest present, hash must be computed on the fly");
        assert!(is_16char_uppercase_hex(&e.hash));
    }

    let report = tree.plan(&op, &entries);
    let rename_actions: Vec<_> = report.actions.iter().filter(|a| a.status == "rename").collect();
    assert_eq!(rename_actions.len(), 2, "exactly the two dupe-group members should be planned");

    let planned_srcs: Vec<String> = rename_actions.iter().map(|a| a.src.text()).collect();
    assert!(planned_srcs.contains(&"/d/a/dup.mp4".to_string()));
    assert!(planned_srcs.contains(&"/d/b/dup.mp4".to_string()));
    assert!(
        !report.actions.iter().any(|a| a.src == at("/d/unique.mp4")),
        "unique.mp4 must not appear in an --only-dupes plan"
    );
    assert!(report.orphans.is_empty(), "orphan scan must be skipped for --only-dupes");
}

#[test]
fn only_dupes_uses_manifest_hash() {
    let mut tree = Tree::new();
    let f1 = "/d/a/dup.mp4";
    let f2 = "/d/b/dup.mp4";
    tree.write(f1, b"content-one");
    tree.write(f2, b"content-two-different");

    let hash1 = rename::hash_file(b"content-one");
    let hash2 = rename::hash_file(b"content-two-different");

    let manifest = at("/d/m.xxh3");
    let text = format!("{} *{}\r\n", hash1, "a/dup.mp4");
    let mut listed: Vec<HashEntry> = Vec::new();
    for line in HashFile::parse(&text, &manifest).unwrap() {
        listed.push(line.into_entry(None, &manifest));
    }

    let op = operation(false, true, Some(manifest));
    let entries = tree.only_dupes(&op, &listed);
    assert_eq!(entries.len(), 2);

    let e1 = entries
        .iter()
        .find(|e| e.abs_path == at(f1))
        .expect("manifest-covered member present");
    assert_eq!(e1.hash, hash1);
    assert!(!e1.computed, "manifest-covered entry must not be marked computed");

    let e2 = entries
        .iter()
        .find(|e| e.abs_path == at(f2))
        .expect("uncovered member present");
    assert!(e2.computed, "uncovered entry must be computed on the fly");
    assert_eq!(e2.hash, hash2);

    let report = tree.plan(&op, &entries);
    let action1 = report.actions.iter().find(|a| a.src == at(f1)).unwrap();
    assert_eq!(action1.status, "rename");
    assert_eq!(action1.hash, hash1);
}

#[test]
fn computed_entry_skips_verify() {
    let mut tree = Tree::new();
    tree.write("/d/video.mp4", b"real content");

    let op = operation(true, false, None);
    let bad_hash = "0000000000000000";
    let report = tree.plan(&op, &vec![computed_entry(bad_hash, "/d/video.mp4")]);

    assert_eq!(report.actions.len(), 1);
    let action = &report.actions[0];
    assert_eq!(
        action.status, "rename",
        "computed entries must skip verification even when the hash is wrong"
    );
    assert_eq!(action.hash, bad_hash);
    let name = action.dst.as_ref().unwrap().file_name().unwrap();
    assert!(String::from_utf8(name).unwrap().contains(bad_hash));
}

#[test]
fn check_hash_suffixed_pair_is_benign() {
    let mut tree = Tree::new();
    tree.write("/d/a/x_00AABBCCDDEEFF11.mp4", b"same");
    tree.write("/d/b/x_00AABBCCDDEEFF11.mp4", b"same");

    let (total, groups) = tree.groups(false);
    assert_eq!(total, 2);
    assert_eq!(groups.len(), 1);
    assert!(groups[0].benign, "hash-suffixed same-name pair must be classified benign");

    let n = tree.check(false).real.len();
    assert_eq!(n, 0, "benign groups must not count toward the real-collision total");
}

#[test]
fn check_mixed_real_and_benign_groups() {
    let mut tree = Tree::new();
    // No hash in the name, different contents.
    tree.write("/d/a/clip.mp4", b"one");
    tree.write("/d/b/clip.mp4", b"two-different");
    // One hash in both names.
    tree.write("/d/a/intro_0873784776488DB8.mov", b"same");
    tree.write("/d/b/intro_0873784776488DB8.mov", b"same");

    let (_, groups) = tree.groups(false);
    assert_eq!(groups.len(), 2);
    assert_eq!(groups.iter().filter(|g| g.benign).count(), 1);
    assert_eq!(groups.iter().filter(|g| !g.benign).count(), 1);

    let n = tree.check(false).real.len();
    assert_eq!(n, 1, "only the real (un-suffixed) collision counts");
}

#[test]
fn only_dupes_skips_benign_groups() {
    let mut tree = Tree::new();
    tree.write("/d/a/x_00AABBCCDDEEFF11.mp4", b"same");
    tree.write("/d/b/x_00AABBCCDDEEFF11.mp4", b"same");

    let op = operation(false, true, None);
    let entries = tree.only_dupes(&op, &vec![]);
    assert!(
        entries.is_empty(),
        "benign groups must be skipped entirely (no hashing, no plan entries)"
    );
}

#[test]
fn timestamp_named_collision_not_benign() {
    let mut tree = Tree::new();
    // Sixteen decimal digits look like a hash, but the sizes differ.
    tree.write("/d/a/x_2026070212345678.mp4", b"short");
    tree.write("/d/b/x_2026070212345678.mp4", b"much longer different content");

    let (_, groups) = tree.groups(false);
    assert_eq!(groups.len(), 1);
    assert!(
        !groups[0].benign,
        "hash-shaped name with differing sizes must NOT be benign"
    );

    let n = tree.check(false).real.len();
    assert_eq!(n, 1, "the pair must count as a real collision");

    // And it is taken where only duplicates are.
    let op = operation(false, true, None);
    let entries = tree.only_dupes(&op, &vec![]);
    assert_eq!(entries.len(), 2, "differing-size pair must be planned, not skipped");
}

#[test]
fn equal_size_hash_suffixed_pair_stays_benign() {
    let mut tree = Tree::new();
    tree.write("/d/a/y_0873784776488DB8.mov", b"copy-content");
    tree.write("/d/b/y_0873784776488DB8.mov", b"copy-content");

    let (_, groups) = tree.groups(false);
    assert_eq!(groups.len(), 1);
    assert!(groups[0].benign, "equal-size hash-suffixed pair must stay benign");
    assert_eq!(tree.check(false).real.len(), 0);
}

#[test]
fn has_hash_suffix_detection() {
    let has = |p: &str| rename::has_hash_suffix(&at(p));
    assert!(has("x_00AABBCCDDEEFF11.mp4"));
    assert!(has("x_00aabbccddeeff11.mp4")); // lower case
    assert!(has("dir/intro_0873784776488DB8.mov"));
    assert!(!has("x.mp4")); // no suffix
    assert!(!has("x_00AABBCCDDEEFF1.mp4")); // fifteen digits
    assert!(!has("x_00AABBCCDDEEFFGG.mp4")); // no digits
    assert!(!has("x-00AABBCCDDEEFF11.mp4")); // no underscore
    assert!(!has("0AABBCCDDEEFF11.mp4")); // too short
}
