//! What a file name says: whether the file is one to look at, which name it
//! gets with its hash, and whether it carries a hash already.

use vstd::prelude::*;
use vstd::string::*;
use vstd::utf8::*;
use crate::path::{
    extension,
    extension_of,
    file_name,
    file_stem,
    lemma_join_platform,
    parent,
    split_name,
    stem_of,
    with_file_name,
    FilePath,
    PathView,
};
use crate::path_facts::lemma_named_path_has_parent;
use crate::text::{
    copy_range,
    ends_with,
    equal_ignoring_ascii_case,
    has_prefix,
    has_suffix,
    hex_byte,
    is_hex_byte,
    lists_text,
    lowercase,
    push_bytes,
    same_ignoring_ascii_case,
    same_text,
    starts_with,
    text_in,
    to_lowercase,
    utf8_text,
};

verus! {

// ---------------------------------------------------------------------------
// Kinds of files
// ---------------------------------------------------------------------------

/// The extension in lower case with its dot, where it is valid text.
pub open spec fn dotted_extension(p: PathView) -> Option<Seq<char>> {
    match extension(p) {
        Some(e) => if valid_utf8(e) {
            Some("."@ + lowercase(decode_utf8(e)))
        } else {
            None
        },
        None => None,
    }
}

pub open spec fn is_system_extension(e: Seq<char>) -> bool {
    ||| e == ".exe"@ || e == ".dll"@ || e == ".sys"@ || e == ".driver"@ || e == ".scr"@
    ||| e == ".bat"@ || e == ".cmd"@ || e == ".ps1"@ || e == ".msi"@
    ||| e == ".lnk"@ || e == ".url"@ || e == ".desktop"@ || e == ".app"@
    ||| e == ".ini"@ || e == ".config"@ || e == ".conf"@
}

/// A file that belongs to the system and is never renamed.
pub open spec fn system_file(p: PathView) -> bool {
    dotted_extension(p) matches Some(e) && is_system_extension(e)
}

/// A file whose extension is one of `exts`.
pub open spec fn video_file(p: PathView, exts: Seq<&str>) -> bool {
    dotted_extension(p) matches Some(e) && lists_text(exts, e)
}

/// The extensions of video files.
pub open spec fn video_extensions() -> Seq<&'static str> {
    seq![
        ".mp4", ".mov", ".mxf", ".avi", ".mts", ".m2ts", ".m2t", ".ts", ".mkv", ".m4v", ".mpg",
        ".mpeg", ".wmv", ".braw", ".r3d", ".ari", ".arx", ".insv", ".lrv", ".3gp", ".vob", ".mod",
        ".tod",
    ]
}

/// A manifest of hashes, by its extension.
pub open spec fn manifest_file(p: PathView) -> bool {
    extension(p) matches Some(e) && valid_utf8(e) && (same_ignoring_ascii_case(
        e,
        encode_utf8("xxh3"@),
    ) || same_ignoring_ascii_case(e, encode_utf8("xxh"@)))
}

/// A log that this tool wrote.
pub open spec fn own_log(p: PathView) -> bool {
    file_name(p) matches Some(name) && valid_utf8(name) && has_prefix(name, encode_utf8("dups-"@))
        && has_suffix(name, encode_utf8(".csv"@))
}

/// The files that `check`, `generate` and the search for files without a hash
/// look at.
pub open spec fn passes(p: PathView, is_file: bool, all_files: bool) -> bool {
    &&& is_file
    &&& !system_file(p)
    &&& all_files || video_file(p, video_extensions())
    &&& !manifest_file(p)
    &&& !own_log(p)
}

fn dotted(p: &FilePath) -> (r: Option<String>)
    ensures
        match r {
            Some(e) => dotted_extension(p@) == Some(e@),
            None => dotted_extension(p@) is None,
        },
{
    match p.file_name() {
        Some(name) => match split_name(&name).1 {
            Some(e) => match utf8_text(e.as_slice()) {
                Some(text) => {
                    let mut r = ".".to_string();
                    let low = to_lowercase(text.as_str());
                    r.append(low.as_str());
                    Some(r)
                },
                None => None,
            },
            None => None,
        },
        None => None,
    }
}

pub fn is_system_file(path: &FilePath) -> (r: bool)
    ensures
        r == system_file(path@),
{
    match dotted(path) {
        Some(e) => {
            let s = e.as_str();
            same_text(s, ".exe") || same_text(s, ".dll") || same_text(s, ".sys") || same_text(
                s,
                ".driver",
            ) || same_text(s, ".scr") || same_text(s, ".bat") || same_text(s, ".cmd") || same_text(
                s,
                ".ps1",
            ) || same_text(s, ".msi") || same_text(s, ".lnk") || same_text(s, ".url") || same_text(
                s,
                ".desktop",
            ) || same_text(s, ".app") || same_text(s, ".ini") || same_text(s, ".config")
                || same_text(s, ".conf")
        },
        None => false,
    }
}

pub fn is_video(path: &FilePath, exts: &[&str]) -> (r: bool)
    ensures
        r == video_file(path@, exts@),
{
    match dotted(path) {
        Some(e) => text_in(exts, e.as_str()),
        None => false,
    }
}

pub fn default_video_exts() -> (r: Vec<&'static str>)
    ensures
        r@ == video_extensions(),
{
    let r: Vec<&'static str> = vec![
        ".mp4", ".mov", ".mxf", ".avi", ".mts", ".m2ts", ".m2t", ".ts", ".mkv", ".m4v", ".mpg",
        ".mpeg", ".wmv", ".braw", ".r3d", ".ari", ".arx", ".insv", ".lrv", ".3gp", ".vob", ".mod",
        ".tod",
    ];
    assert(r@ =~= video_extensions());
    r
}

/// The filter that `check`, `generate` and the search for files without a hash
/// share. `is_file` says what the disk knows of the path.
pub fn passes_filters(path: &FilePath, is_file: bool, all_files: bool) -> (r: bool)
    ensures
        r == passes(path@, is_file, all_files),
{
    if !is_file {
        return false;
    }
    if is_system_file(path) {
        return false;
    }
    if !all_files && !is_video(path, default_video_exts().as_slice()) {
        return false;
    }
    if let Some(name) = path.file_name() {
        if let Some(e) = split_name(&name).1 {
            if utf8_text(e.as_slice()).is_some() {
                if equal_ignoring_ascii_case(e.as_slice(), "xxh3".as_bytes())
                    || equal_ignoring_ascii_case(e.as_slice(), "xxh".as_bytes()) {
                    return false;
                }
            }
        }
        if utf8_text(name.as_slice()).is_some() {
            if starts_with(name.as_slice(), "dups-".as_bytes()) && ends_with(
                name.as_slice(),
                ".csv".as_bytes(),
            ) {
                return false;
            }
        }
    }
    true
}

// ---------------------------------------------------------------------------
// Names with a hash
// ---------------------------------------------------------------------------

/// A name with `suffix` between its stem and its extension. An extension that
/// is not valid text is left out.
pub open spec fn suffixed_name(name: Seq<u8>, suffix: Seq<u8>) -> Seq<u8> {
    match extension_of(name) {
        Some(e) => if valid_utf8(e) {
            (stem_of(name) + suffix).push(0x2e) + e
        } else {
            stem_of(name) + suffix
        },
        None => stem_of(name) + suffix,
    }
}

/// Where a file goes with its hash: next to where it is, `name_HASH.ext` for
/// `name.ext`. A path without a stem that is valid text stays as it is.
pub open spec fn target(p: PathView, hash: Seq<char>, sep: Seq<char>) -> PathView {
    match file_name(p) {
        Some(name) => if valid_utf8(stem_of(name)) {
            with_file_name(p, suffixed_name(name, encode_utf8(sep) + encode_utf8(hash)))
        } else {
            p
        },
        None => p,
    }
}

/// A file keeps the conventions of its path.
pub proof fn lemma_target_platform(p: PathView, hash: Seq<char>, sep: Seq<char>)
    ensures
        target(p, hash, sep).platform == p.platform,
{
    if file_name(p) is Some {
        let name = suffixed_name(file_name(p)->0, encode_utf8(sep) + encode_utf8(hash));
        lemma_named_path_has_parent(p);
        lemma_join_platform(parent(p)->0, name);
    }
}

/// The stem ends in an underscore and `hash`, letters in either case.
pub open spec fn suffixed_with(p: PathView, hash: Seq<char>) -> bool {
    file_stem(p) matches Some(stem) && valid_utf8(stem) && {
        let suffix = seq![0x5fu8] + encode_utf8(hash);
        suffix.len() <= stem.len() && same_ignoring_ascii_case(
            stem.skip(stem.len() - suffix.len()),
            suffix,
        )
    }
}

/// The stem ends in an underscore and sixteen hexadecimal digits.
pub open spec fn hash_suffixed(p: PathView) -> bool {
    file_stem(p) matches Some(stem) && valid_utf8(stem) && stem.len() >= 17 && stem[stem.len() - 17]
        == 0x5f && forall|i: int|
        stem.len() - 16 <= i < stem.len() ==> is_hex_byte(#[trigger] stem[i])
}

pub fn target_for(src: &FilePath, hash: &str, sep: &str) -> (r: FilePath)
    ensures
        r@ == target(src@, hash@, sep@),
{
    match src.file_name() {
        Some(name) => {
            let (stem, ext) = split_name(&name);
            if utf8_text(stem.as_slice()).is_none() {
                return src.clone();
            }
            let ghost suffix = encode_utf8(sep@) + encode_utf8(hash@);
            let mut new_name = stem;
            push_bytes(&mut new_name, sep.as_bytes());
            push_bytes(&mut new_name, hash.as_bytes());
            assert(new_name@ =~= stem_of(name@) + suffix);
            if let Some(e) = ext {
                if utf8_text(e.as_slice()).is_some() {
                    new_name.push(0x2e);
                    push_bytes(&mut new_name, e.as_slice());
                }
            }
            assert(new_name@ =~= suffixed_name(name@, suffix));
            src.with_file_name(new_name.as_slice())
        },
        None => src.clone(),
    }
}

/// The stem of the file name, where it is valid text.
fn text_stem(p: &FilePath) -> (r: Option<Vec<u8>>)
    ensures
        match r {
            Some(stem) => file_stem(p@) == Some(stem@) && valid_utf8(stem@),
            None => file_stem(p@) matches Some(stem) ==> !valid_utf8(stem),
        },
{
    match p.file_name() {
        Some(name) => {
            let stem = split_name(&name).0;
            if utf8_text(stem.as_slice()).is_some() {
                Some(stem)
            } else {
                None
            }
        },
        None => None,
    }
}

/// Whether the file carries this hash in its name already.
pub fn already_suffixed(src: &FilePath, hash: &str) -> (r: bool)
    ensures
        r == suffixed_with(src@, hash@),
{
    match text_stem(src) {
        Some(stem) => {
            let mut suffix: Vec<u8> = Vec::new();
            suffix.push(0x5f);
            push_bytes(&mut suffix, hash.as_bytes());
            assert(suffix@ =~= seq![0x5fu8] + encode_utf8(hash@));
            if stem.len() < suffix.len() {
                return false;
            }
            let tail = copy_range(&stem, stem.len() - suffix.len(), stem.len());
            assert(tail@ =~= stem@.skip(stem@.len() - suffix@.len()));
            equal_ignoring_ascii_case(tail.as_slice(), suffix.as_slice())
        },
        None => false,
    }
}

/// Whether the file carries some hash in its name.
pub fn has_hash_suffix(src: &FilePath) -> (r: bool)
    ensures
        r == hash_suffixed(src@),
{
    match text_stem(src) {
        Some(stem) => {
            let n = stem.len();
            if n < 17 || stem[n - 17] != 0x5f {
                return false;
            }
            let mut i: usize = n - 16;
            while i < n
                invariant
                    file_stem(src@) == Some(stem@),
                    n == stem@.len(),
                    17 <= n,
                    n - 16 <= i <= n,
                    forall|k: int| n - 16 <= k < i ==> is_hex_byte(#[trigger] stem@[k]),
                decreases n - i,
            {
                if !hex_byte(stem[i]) {
                    return false;
                }
                i += 1;
            }
            true
        },
        None => false,
    }
}

} // verus!
