//! Paths, names and their order, held against `std::path` where it says the same.

use std::path::Path;

use dups::hashfile::{name_key, path_key, HashFile};
use dups::names::{default_video_exts, passes_filters, target_for};
use dups::path::{show, sort_paths, FilePath, Platform};
use dups::rename::{already_suffixed, has_hash_suffix, is_system_file, is_video};
use dups::report::{output_path, undo_log_path, Output};

fn at(path: &str) -> FilePath {
    FilePath::from_text(path, Platform::Other)
}

fn on_windows(path: &str) -> FilePath {
    FilePath::from_text(path, Platform::Windows)
}

fn text(bytes: Vec<u8>) -> String {
    String::from_utf8(bytes).unwrap()
}

const PATHS: [&str; 24] = [
    "", "/", "a", "a/b", "/a", "/a/b.c", "a/", "a/b/", "a//b", "./a", "a/./b", "a/..", "..", ".",
    "/a/../b", ".hidden", "dir/.hidden.x", "a.b.c", "a.", "a/b.tar.gz", "//a/b", "/.", "a/.",
    "x/y/z.mp4/",
];

#[test]
fn components_are_those_of_std() {
    for p in PATHS {
        let ours = at(p);
        let theirs = Path::new(p);
        assert_eq!(
            ours.file_name().map(text),
            theirs.file_name().map(|n| n.to_str().unwrap().to_string()),
            "file name of {p:?}"
        );
        assert_eq!(
            ours.parent().map(|q| q.text()),
            theirs.parent().map(|q| q.to_str().unwrap().to_string()),
            "parent of {p:?}"
        );
        assert_eq!(ours.components().len(), theirs.components().count(), "components of {p:?}");
        for tail in ["x", "x/y.z", "/root", "", "."] {
            assert_eq!(
                ours.join(tail.as_bytes()).text(),
                theirs.join(tail).to_str().unwrap(),
                "{p:?} joined with {tail:?}"
            );
        }
        assert_eq!(
            ours.with_file_name(b"new.mp4").text(),
            theirs.with_file_name("new.mp4").to_str().unwrap(),
            "{p:?} with another file name"
        );
        for base in PATHS {
            let expected = theirs.strip_prefix(base).unwrap_or(theirs);
            assert_eq!(
                ours.relative_to(&at(base)).text(),
                expected.to_str().unwrap(),
                "{p:?} as seen from {base:?}"
            );
        }
    }
}

#[test]
fn paths_sort_as_those_of_std() {
    let names = [
        "b", "a/b", "a", "a.b", "a/b/c", "a-b", "/a", "a/a", "A", "a b", "ab", "./a", "../a", "a0/b",
        "a/é", "a/z",
    ];
    let ours: Vec<String> =
        sort_paths(&names.iter().map(|n| at(n)).collect()).iter().map(|p| p.text()).collect();
    let mut theirs: Vec<&Path> = names.iter().map(|n| Path::new(*n)).collect();
    theirs.sort();
    let theirs: Vec<&str> = theirs.iter().map(|p| p.to_str().unwrap()).collect();
    assert_eq!(ours, theirs);
}

#[test]
fn equal_paths_keep_their_order() {
    let sorted = sort_paths(&vec![at("a//b"), at("a"), at("a/b")]);
    let texts: Vec<String> = sorted.iter().map(|p| p.text()).collect();
    assert_eq!(texts, vec!["a", "a//b", "a/b"]);
}

#[test]
fn windows_paths_have_drives_and_two_separators() {
    let p = on_windows("C:\\media\\clip.mp4");
    assert_eq!(text(p.file_name().unwrap()), "clip.mp4");
    assert_eq!(p.parent().unwrap().text(), "C:\\media");
    assert_eq!(on_windows("C:\\").parent(), None);
    assert_eq!(on_windows("C:").join(b"x").text(), "C:x");
    assert_eq!(on_windows("C:\\a").join(b"b/c").text(), "C:\\a\\b/c");
    assert_eq!(on_windows("C:\\a").join(b"\\b").text(), "C:\\b");
    assert_eq!(on_windows("C:\\a").join(b"D:\\b").text(), "D:\\b");
    assert_eq!(text(on_windows("a/b\\c.mov").file_name().unwrap()), "c.mov");
    // Elsewhere a backslash is a character like any other.
    assert_eq!(text(at("a\\b").file_name().unwrap()), "a\\b");
}

/// The components of a Windows path, as text.
fn components_on_windows(path: &str) -> Vec<String> {
    let p = on_windows(path);
    p.components().iter().map(|c| text(p.bytes[c.start..c.end].to_vec())).collect()
}

#[test]
fn windows_prefixes_are_components() {
    let cases: [(&str, &[&str]); 26] = [
        (r"C:", &["C:"]),
        (r"C:foo.txt", &["C:", "foo.txt"]),
        (r"C:\foo.txt", &["C:", r"\", "foo.txt"]),
        (r"C:.", &["C:"]),
        (r"C:.\foo", &["C:", "foo"]),
        (r"\foo", &[r"\", "foo"]),
        (r".\foo", &[".", "foo"]),
        (r"\\server\share", &[r"\\server\share", ""]),
        (r"\\server\share\foo.txt", &[r"\\server\share", r"\", "foo.txt"]),
        (r"//server/share/foo.txt", &["//server/share", "/", "foo.txt"]),
        (r"\\server", &[r"\", "server"]),
        (r"\\\server\share", &[r"\", "server", "share"]),
        (r"\\?\bar\foo.txt", &[r"\\?\bar", r"\", "foo.txt"]),
        (r"\\?\bar", &[r"\\?\bar"]),
        (r"\\?\", &[r"\\?\"]),
        (r"\\?\UNC\server\share\foo.txt", &[r"\\?\UNC\server\share", r"\", "foo.txt"]),
        (r"\\?\UNC\server", &[r"\\?\UNC\server"]),
        (r"\\?\UNC\", &[r"\\?\UNC\"]),
        (r"\\?\C:\foo.txt", &[r"\\?\C:", r"\", "foo.txt"]),
        (r"\\?\C:", &[r"\\?\C:"]),
        (r"\\?\foo/bar", &[r"\\?\foo/bar"]),
        (r"\\?\C:/foo/bar", &[r"\\?\C:", "/", "foo/bar"]),
        (r"\\?\C:\a\.\b", &[r"\\?\C:", r"\", "a", ".", "b"]),
        (r"\\.\foo\bar/baz", &[r"\\.\foo", r"\", "bar", "baz"]),
        (r"\\.\foo", &[r"\\.\foo", ""]),
        (r"//?/foo/bar", &["//?/foo", "/", "bar"]),
    ];
    for (path, parts) in cases {
        assert_eq!(components_on_windows(path), parts, "{path:?}");
    }
}

#[test]
fn windows_parents_stop_at_the_root() {
    let parent = |p: &str| on_windows(p).parent().map(|q| q.text());
    assert_eq!(parent(r"\\server\share\foo.txt").unwrap(), r"\\server\share\");
    assert_eq!(parent(r"\\server\share\a\b").unwrap(), r"\\server\share\a");
    assert_eq!(parent(r"\\server\share"), None);
    assert_eq!(parent(r"\\server").unwrap(), r"\");
    assert_eq!(parent(r"\\?\bar\foo.txt").unwrap(), r"\\?\bar\");
    assert_eq!(parent(r"\\?\bar"), None);
    assert_eq!(parent(r"\\?\C:/foo/bar").unwrap(), r"\\?\C:/");
    assert_eq!(parent(r"\\.\foo/bar").unwrap(), r"\\.\foo/");
    assert_eq!(parent(r"C:foo").unwrap(), "C:");
    assert_eq!(parent(r"C:.\foo").unwrap(), "C:.");
    assert_eq!(parent(r"C:."), None);
    assert_eq!(on_windows(r"\\server\share").file_name(), None);
}

#[test]
fn windows_joins_mind_the_prefix() {
    let cases = [
        ("", "foo", "foo"),
        ("foo", "bar", r"foo\bar"),
        ("foo/", "bar", "foo/bar"),
        (r"c:\", "windows", r"c:\windows"),
        ("c:", "windows", "c:windows"),
        (r"a\b", r"\c\d", r"\c\d"),
        (r"a\b", ".", r"a\b\."),
        (r"a\b", r"..\c", r"a\b\..\c"),
        (r"a\b", "C:a.txt", "C:a.txt"),
        (r"C:\a", r"C:\b.txt", r"C:\b.txt"),
        (r"C:\a\b", r"\c", r"C:\c"),
        ("C:", r"..\a", r"C:..\a"),
        (r"\\server\share\foo", "bar", r"\\server\share\foo\bar"),
        (r"\\server\share\foo", r"\bar", r"\\server\share\bar"),
        (r"\\server\share", "bar", r"\\server\share\bar"),
        (r"\\server\share\foo", "C:baz", "C:baz"),
        (r"\\?\C:\a\b", r"C:c\d", r"C:c\d"),
        (r"\\?\foo\bar", "baz", r"\\?\foo\bar\baz"),
        (r"\\?\UNC\server\share\foo", "bar", r"\\?\UNC\server\share\foo\bar"),
        (r"\\?\UNC\server", "foo", r"\\?\UNC\server\foo"),
        (r"C:\a", r"\\?\UNC\server\share", r"\\?\UNC\server\share"),
        (r"\\.\foo\bar", "baz", r"\\.\foo\bar\baz"),
        (r"\\.\foo", r"..\bar", r"\\.\foo\..\bar"),
        (r"\\?\C:", "foo", r"\\?\C:\foo"),
        (r"\\?\C:\bar", "../foo", r"\\?\C:\foo"),
        (r"\\?\C:\bar", "../../foo", r"\\?\C:\foo"),
        (r"\\?\C:\", "../foo", r"\\?\C:\foo"),
        (r"\\?\A:\x\y", "/foo", r"\\?\A:\foo"),
        (r"\\?\A:", r"..\foo\.", r"\\?\A:\foo"),
        (r"\\?\A:\x\y", r".\foo\.", r"\\?\A:\x\y\foo"),
        (r"\\?\A:\x\y", "", r"\\?\A:\x\y\"),
    ];
    for (base, tail, joined) in cases {
        assert_eq!(on_windows(base).join(tail.as_bytes()).text(), joined, "{base:?} {tail:?}");
    }
}

#[test]
fn windows_drives_are_the_same_in_either_case() {
    let seen = |p: &str, base: &str| on_windows(p).relative_to(&on_windows(base)).text();
    assert_eq!(
        seen(r"C:\src\rust\test\Cargo.toml", r"c:\src\rust\test"),
        "Cargo.toml"
    );
    assert_eq!(seen(r"c:\foo", r"C:\foo"), "");
    assert_eq!(seen(r"C:\foo\bar", r"C:\FOO"), r"C:\foo\bar");
    assert_eq!(seen(r"\\server\share\a\b", r"\\server/share"), r"a\b");
    assert_eq!(seen(r"\\server\share\a", r"\\SERVER\share"), r"\\server\share\a");
    assert_eq!(seen(r"\\?\c:\a\b", r"\\?\C:\a"), "b");
    assert_eq!(seen(r"\\?\C:\a\b", r"C:\a"), r"\\?\C:\a\b");
    assert_eq!(seen(r"\\?\bar\foo", r"\\?\bar"), r"\foo");
    assert_eq!(seen(r"C:.\a", "C:"), r".\a");
    assert_eq!(seen(r"C:\foo\.\bar.txt", r"C:\foo\"), "bar.txt");
}

#[test]
fn windows_paths_sort_by_prefix_first() {
    let names = [
        r"\x", r"d:\a", r"C:\b", r"c:\a", r"\\server\share\a", r"\\server\other\a", r"\\.\dev\a",
        r"\\?\D:\a", r"\\?\UNC\s\t\a", r"\\?\name\a", "a",
    ];
    let paths: Vec<FilePath> = names.iter().map(|n| on_windows(n)).collect();
    let sorted: Vec<String> = sort_paths(&paths).iter().map(|p| p.text()).collect();
    assert_eq!(
        sorted,
        vec![
            r"\\?\name\a", r"\\?\UNC\s\t\a", r"\\?\D:\a", r"\\.\dev\a", r"\\server\other\a",
            r"\\server\share\a", r"c:\a", r"C:\b", r"d:\a", r"\x", "a",
        ]
    );
}

#[test]
fn lone_surrogates_are_one_replacement_character() {
    // A lone surrogate in the encoding that Windows paths have.
    let bytes = vec![0x61, 0xed, 0xa0, 0x80, 0x62];
    let p = FilePath::new(bytes.clone(), Platform::Windows);
    assert_eq!(p.text(), "a\u{fffd}b");
    assert_eq!(name_key(&p), "a\u{fffd}b");
    assert_eq!(show(&bytes, Platform::Windows), "a\u{fffd}b");
    // Elsewhere these bytes are three faults.
    assert_eq!(show(&bytes, Platform::Other), "a\u{fffd}\u{fffd}\u{fffd}b");
    let pair = [bytes.clone(), bytes].concat();
    assert_eq!(show(&pair, Platform::Windows), "a\u{fffd}ba\u{fffd}b");
}

#[test]
fn targets_keep_network_and_verbatim_prefixes() {
    let h = "00AABBCCDDEEFF11";
    let target = |p: &str| target_for(&on_windows(p), h, "_").text();
    assert_eq!(target(r"\\server\share\a.mp4"), r"\\server\share\a_00AABBCCDDEEFF11.mp4");
    assert_eq!(target(r"\\?\C:\d\a.mp4"), r"\\?\C:\d\a_00AABBCCDDEEFF11.mp4");
    assert_eq!(target(r"\\?\UNC\s\t\a.mp4"), r"\\?\UNC\s\t\a_00AABBCCDDEEFF11.mp4");
    // Where a path is taken as it stands, a join writes it out anew.
    assert_eq!(target(r"\\?\C:\d\\e\a.mp4"), r"\\?\C:\d\e\a_00AABBCCDDEEFF11.mp4");
    assert_eq!(target(r"C:\d\\e\a.mp4"), r"C:\d\\e\a_00AABBCCDDEEFF11.mp4");
}

#[test]
fn relative_paths_lead_back() {
    for base in ["/d", "/", "", ".", "d/", "a/b"] {
        let mut file = at(base);
        for name in ["sub", "é", "clip.mp4"] {
            file = file.join(name.as_bytes());
            let short = file.relative_to(&at(base));
            assert_eq!(at(base).join(&short.bytes), file, "{base:?}");
        }
        assert_eq!(file.relative_to(&at(base)).text(), "sub/é/clip.mp4", "{base:?}");
    }
}

#[test]
fn windows_relative_paths_lead_back() {
    for base in [
        r"C:\d", r"C:\", "C:", r"d\e", "", r"\\server\share", r"\\server\share\d", r"\\.\dev",
        r"\\?\C:\d", r"\\?\C:\d\\e", r"\\?\UNC\server\share\d",
    ] {
        let file = on_windows(base).join(b"sub").join(b"clip.mp4");
        let short = file.relative_to(&on_windows(base));
        assert_eq!(short.text(), r"sub\clip.mp4", "{base:?}");
        assert_eq!(on_windows(base).join(&short.bytes), file, "{base:?}");
    }
    // A verbatim prefix alone gets its root with the first name.
    let base = on_windows(r"\\?\C:");
    let file = base.join(b"clip.mp4");
    assert_eq!(file.text(), r"\\?\C:\clip.mp4");
    let short = file.relative_to(&base);
    assert_eq!(short.text(), r"\clip.mp4");
    assert_eq!(base.join(&short.bytes), file);
}

#[test]
fn files_stand_in_the_directory_they_were_put_into() {
    for base in ["/d", "/", "", ".", "a/b"] {
        let file = at(base).join(b"m.xxh3");
        assert_eq!(file.parent().unwrap(), at(base));
        assert_eq!(text(file.file_name().unwrap()), "m.xxh3");
    }
}

#[test]
fn targets_are_told_apart_by_path_and_hash() {
    let (h, g) = ("00AABBCCDDEEFF11", "00aabbccddeeff11");
    let target = |p: &str, h: &str| target_for(&at(p), h, "_");
    assert_eq!(target("a//x.mp4", h), target("a/x.mp4", h));
    assert_ne!(target("a/x.mp4", h), target("b/x.mp4", h));
    assert_ne!(target("a/x.mp4", h), target("a/x.mp4", g));
    assert_ne!(target("a/x.mp4", h), target("a/y.mp4", h));
    // The hash is found there in either case, and no other one.
    for hash in [h, g] {
        let t = target("a/x.mp4", hash);
        assert!(already_suffixed(&t, h) && already_suffixed(&t, g) && has_hash_suffix(&t));
        assert!(!already_suffixed(&t, "00AABBCCDDEEFF12"));
    }
}

#[test]
fn keys_ignore_case_where_the_platform_does() {
    assert_eq!(path_key(&at("/D/Clip.MP4")), "/D/Clip.MP4");
    assert_eq!(path_key(&on_windows("C:\\D\\Clip.MP4")), "c:\\d\\clip.mp4");
    let mac = FilePath::from_text("/D/ÉCLAIR.MP4", Platform::MacOs);
    assert_eq!(path_key(&mac), "/d/éclair.mp4");
    assert_eq!(name_key(&mac), "éclair.mp4");
    assert_eq!(name_key(&at("/D/Clip.MP4")), "Clip.MP4");
    assert_eq!(name_key(&at("/")), "");
}

#[test]
fn keys_of_names_do_not_depend_on_directories() {
    for n in ["X.mp4", "é.mov", ".hidden"] {
        for d in ["", "/", "/a", "b/c//", "."] {
            assert_eq!(name_key(&at(d).join(n.as_bytes())), n);
        }
        for d in ["", r"C:\d", r"\\server\share", r"\\?\C:\d\\e", r"\\.\dev"] {
            let key = name_key(&on_windows(d).join(n.as_bytes()));
            assert_eq!(key, name_key(&on_windows(n)));
            assert_eq!(key, n.to_lowercase());
        }
    }
    for p in ["/", "..", ""] {
        assert_eq!(name_key(&at(p)), "");
    }
}

#[test]
fn hashes_last_in_names_that_are_taken_for_a_drive() {
    let h = "00AABBCCDDEEFF11";
    for n in ["C:x.mp4", "C:x", "C:.mp4", "C:D:x.mp4", "C:é"] {
        let t = target_for(&on_windows(&format!("d\\{n}")), h, "_");
        assert!(already_suffixed(&t, h) && has_hash_suffix(&t), "{n}");
        assert!(!already_suffixed(&t, "00AABBCCDDEEFF12"), "{n}");
    }
}

#[test]
fn keys_of_names_that_are_not_text_have_replacement_characters() {
    let p = FilePath::new(vec![0x2f, 0x61, 0xff, 0x62], Platform::Other);
    assert_eq!(p.text(), "/a\u{fffd}b");
    assert_eq!(path_key(&p), "/a\u{fffd}b");
    assert_eq!(name_key(&p), "a\u{fffd}b");
}

#[test]
fn system_files_are_known_by_their_extension() {
    for e in [
        "exe", "dll", "sys", "driver", "scr", "bat", "cmd", "ps1", "msi", "lnk", "url", "desktop",
        "app", "ini", "config", "conf",
    ] {
        assert!(is_system_file(&at(&format!("x.{e}"))), "{e}");
        assert!(is_system_file(&at(&format!("x.{}", e.to_uppercase()))), "{e} in upper case");
    }
    assert!(!is_system_file(&at("x.mp4")));
    assert!(!is_system_file(&at("exe")));
    assert!(!is_system_file(&at(".exe")));
}

#[test]
fn videos_are_known_by_their_extension() {
    let exts = default_video_exts();
    assert_eq!(exts.len(), 23);
    assert!(is_video(&at("a/b.MP4"), &exts));
    assert!(is_video(&at("b.m2ts"), &exts));
    assert!(!is_video(&at("b.txt"), &exts));
    assert!(!is_video(&at("mp4"), &exts));
    assert!(is_video(&at("b.txt"), &[".txt"]));
    assert!(!is_video(&at("b.mp4"), &[]));
    // No text, no video.
    let p = FilePath::new(vec![0x61, 0x2e, 0xff], Platform::Other);
    assert!(!is_video(&p, &exts));
}

#[test]
fn filters_pass_over_what_is_not_to_be_looked_at() {
    assert!(passes_filters(&at("/d/a.mp4"), true, false));
    assert!(!passes_filters(&at("/d/a.mp4"), false, false));
    assert!(!passes_filters(&at("/d/a.txt"), true, false));
    assert!(passes_filters(&at("/d/a.txt"), true, true));
    assert!(passes_filters(&at("/d/a"), true, true));
    assert!(!passes_filters(&at("/d/a.exe"), true, true));
    assert!(!passes_filters(&at("/d/m.xxh3"), true, true));
    assert!(!passes_filters(&at("/d/m.XXH"), true, true));
    assert!(!passes_filters(&at("/d/dups-applied-1.csv"), true, true));
    assert!(passes_filters(&at("/d/other.csv"), true, true));
    assert!(passes_filters(&at("/d/dups-notes.txt"), true, true));
}

#[test]
fn targets_get_the_hash_before_the_extension() {
    let h = "00AABBCCDDEEFF11";
    let target = |p: &str| target_for(&at(p), h, "_").text();
    assert_eq!(target("/d/clip.mp4"), "/d/clip_00AABBCCDDEEFF11.mp4");
    assert_eq!(target("clip"), "clip_00AABBCCDDEEFF11");
    assert_eq!(target("a.b.c"), "a.b_00AABBCCDDEEFF11.c");
    assert_eq!(target(".hidden"), ".hidden_00AABBCCDDEEFF11");
    assert_eq!(target("a."), "a_00AABBCCDDEEFF11.");
    assert_eq!(target("d/"), "d_00AABBCCDDEEFF11");
    assert_eq!(target("/"), "/");
    assert_eq!(target("d/.."), "d/..");
    assert_eq!(
        target_for(&on_windows("C:\\d\\clip.mp4"), h, "_").text(),
        "C:\\d\\clip_00AABBCCDDEEFF11.mp4"
    );
    // A stem that is no text stays; an extension that is none goes.
    let odd = FilePath::new(vec![0xff, 0x2e, 0x61], Platform::Other);
    assert_eq!(target_for(&odd, h, "_"), odd);
    let odd = FilePath::new(vec![0x61, 0x2e, 0xff], Platform::Other);
    assert_eq!(target_for(&odd, h, "_").text(), "a_00AABBCCDDEEFF11");
}

#[test]
fn targets_carry_their_hash_and_stay_in_place() {
    let h = "0873784776488DB8";
    for p in ["/d/clip.mp4", "clip", ".hidden", "a.", "d/é.mov", "d/x_0000000000000000.mp4"] {
        let t = target_for(&at(p), h, "_");
        assert!(already_suffixed(&t, h), "{p}");
        assert!(has_hash_suffix(&t), "{p}");
        assert!(!already_suffixed(&at(p), h), "{p}");
        assert_eq!(t.parent(), at(p).parent(), "{p}");
    }
}

#[test]
fn hashes_in_names_are_compared_without_case() {
    assert!(already_suffixed(&at("x_00aabbccddeeff11.mp4"), "00AABBCCDDEEFF11"));
    assert!(already_suffixed(&at("_00AABBCCDDEEFF11"), "00aabbccddeeff11"));
    assert!(!already_suffixed(&at("x_00AABBCCDDEEFF12.mp4"), "00AABBCCDDEEFF11"));
    assert!(!already_suffixed(&at("00AABBCCDDEEFF11.mp4"), "00AABBCCDDEEFF11"));
    assert!(!already_suffixed(&at("/"), "00AABBCCDDEEFF11"));
}

#[test]
fn different_hashes_give_different_names() {
    let a = target_for(&at("a/x.mp4"), "1111111111111111", "_");
    let b = target_for(&at("b/x.mp4"), "2222222222222222", "_");
    let c = target_for(&at("c/x.mp4"), "1111111111111111", "_");
    assert_ne!(a.file_name(), b.file_name());
    assert_eq!(a.file_name(), c.file_name());
}

#[test]
fn manifests_are_found_by_name_and_sorted() {
    let walked = vec![
        at("/d/z.xxh3"),
        at("/d/a/m.xxh3"),
        at("/d/a/m_renamed.xxh3"),
        at("/d/b.xxh"),
        at("/d/c.mp4"),
        at("/d/a.XXH3"),
    ];
    let found = |pattern: &str| -> Vec<String> {
        HashFile::find_in_dir(&walked, pattern).iter().map(|p| p.text()).collect()
    };
    assert_eq!(found("*.xxh3"), vec!["/d/a/m.xxh3", "/d/z.xxh3"]);
    assert_eq!(found("*.xxh"), vec!["/d/b.xxh"]);
    assert_eq!(found("*.txt"), Vec::<String>::new());
}

#[test]
fn outputs_go_into_the_directory_and_are_passed_over() {
    let stamp = "20260630-153526";
    let dir = at("/media");
    let dry = output_path(&dir, Output::DryRun, stamp);
    let applied = output_path(&dir, Output::Applied, stamp);
    let manifest = output_path(&dir, Output::Manifest, stamp);
    assert_eq!(dry.text(), "/media/dups-dryrun-20260630-153526.csv");
    assert_eq!(applied.text(), "/media/dups-applied-20260630-153526.csv");
    assert_eq!(manifest.text(), "/media/dups-manifest-20260630-153526.xxh3");
    for p in [dry, applied, manifest] {
        assert!(!passes_filters(&p, true, true));
    }
}

#[test]
fn undo_logs_go_next_to_the_log() {
    let stamp = "1";
    assert_eq!(undo_log_path(&at("/d/dups-applied-x.csv"), stamp).text(), "/d/undo-1.csv");
    assert_eq!(undo_log_path(&at("/d/log.txt"), stamp).text(), "/d/undo-1.txt");
    assert_eq!(undo_log_path(&at("log"), stamp).text(), "undo-1.csv");
}
