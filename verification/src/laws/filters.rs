//! Laws of filters: which files are looked at, by what their names end in.

use vstd::prelude::*;
use vstd::utf8::*;
use crate::names::{passes, system_file, video_extensions, video_file};
use crate::path::{extension, file_name, file_stem, last_position, PathView};
use crate::path_facts::{lemma_last_position, lemma_last_position_is};
use crate::text::{ascii_lower, has_prefix, has_suffix, lowercase, same_ignoring_ascii_case};

verus! {

broadcast use vstd::seq_lib::group_seq_properties;

/// The file is called `stem.ext`, with no further dot in `ext`.
pub open spec fn called(p: PathView, stem: Seq<u8>, ext: Seq<u8>) -> bool {
    &&& file_name(p) == Some(stem.push(0x2e) + ext)
    &&& stem.len() > 0
    &&& !ext.contains(0x2e)
}

/// The bytes are text that in lower case is `word`.
pub open spec fn spells(ext: Seq<u8>, word: Seq<char>) -> bool {
    valid_utf8(ext) && lowercase(decode_utf8(ext)) == word
}

/// The file has a name without a dot after its first character, or no name.
pub open spec fn called_without_dot(p: PathView) -> bool {
    file_name(p) matches Some(name) ==> forall|i: int|
        0 < i < name.len() ==> #[trigger] name[i] != 0x2e
}

pub proof fn lemma_called(p: PathView, stem: Seq<u8>, ext: Seq<u8>)
    requires
        called(p, stem, ext),
    ensures
        extension(p) == Some(ext),
        file_stem(p) == Some(stem),
{
    let name = stem.push(0x2e) + ext;
    let dot = stem.len() as int;
    assert forall|k: int| dot < k < name.len() implies #[trigger] name[k] != 0x2e by {
        assert(name[k] == ext[k - dot - 1]);
    }
    assert(name[dot] == 0x2e);
    lemma_last_position_is(name, 0x2e, dot);
    assert(name.skip(dot + 1) =~= ext);
    assert(name.take(dot) =~= stem);
}

pub proof fn lemma_called_without_dot(p: PathView)
    requires
        called_without_dot(p),
    ensures
        extension(p) is None,
{
    if file_name(p) is Some {
        let name = file_name(p)->0;
        lemma_last_position(name, 0x2e);
        assert(last_position(name, 0x2e) <= 0);
    }
}

proof fn lemma_dot(t: Seq<char>, word: Seq<char>, dotted: Seq<char>)
    requires
        dotted =~= seq!['.'] + word,
    ensures
        "."@ + t == dotted <==> t == word,
{
    reveal_strlit(".");
    assert("."@ =~= seq!['.']);
    if "."@ + t == dotted {
        assert(t =~= ("."@ + t).skip(1));
        assert(word =~= dotted.skip(1));
    }
}

proof fn lemma_video_words(t: Seq<char>)
    ensures
        crate::text::lists_text(video_extensions(), "."@ + t) <==> {
            ||| t == "mp4"@ || t == "mov"@ || t == "mxf"@
            ||| t == "avi"@ || t == "mts"@ || t == "m2ts"@
            ||| t == "m2t"@ || t == "ts"@ || t == "mkv"@
            ||| t == "m4v"@ || t == "mpg"@ || t == "mpeg"@
            ||| t == "wmv"@ || t == "braw"@ || t == "r3d"@
            ||| t == "ari"@ || t == "arx"@ || t == "insv"@
            ||| t == "lrv"@ || t == "3gp"@ || t == "vob"@
            ||| t == "mod"@ || t == "tod"@
        },
{
    reveal_strlit("mp4");
    reveal_strlit(".mp4");
    reveal_strlit("mov");
    reveal_strlit(".mov");
    reveal_strlit("mxf");
    reveal_strlit(".mxf");
    reveal_strlit("avi");
    reveal_strlit(".avi");
    reveal_strlit("mts");
    reveal_strlit(".mts");
    reveal_strlit("m2ts");
    reveal_strlit(".m2ts");
    reveal_strlit("m2t");
    reveal_strlit(".m2t");
    reveal_strlit("ts");
    reveal_strlit(".ts");
    reveal_strlit("mkv");
    reveal_strlit(".mkv");
    reveal_strlit("m4v");
    reveal_strlit(".m4v");
    reveal_strlit("mpg");
    reveal_strlit(".mpg");
    reveal_strlit("mpeg");
    reveal_strlit(".mpeg");
    reveal_strlit("wmv");
    reveal_strlit(".wmv");
    reveal_strlit("braw");
    reveal_strlit(".braw");
    reveal_strlit("r3d");
    reveal_strlit(".r3d");
    reveal_strlit("ari");
    reveal_strlit(".ari");
    reveal_strlit("arx");
    reveal_strlit(".arx");
    reveal_strlit("insv");
    reveal_strlit(".insv");
    reveal_strlit("lrv");
    reveal_strlit(".lrv");
    reveal_strlit("3gp");
    reveal_strlit(".3gp");
    reveal_strlit("vob");
    reveal_strlit(".vob");
    reveal_strlit("mod");
    reveal_strlit(".mod");
    reveal_strlit("tod");
    reveal_strlit(".tod");
    lemma_dot(t, "mp4"@, ".mp4"@);
    lemma_dot(t, "mov"@, ".mov"@);
    lemma_dot(t, "mxf"@, ".mxf"@);
    lemma_dot(t, "avi"@, ".avi"@);
    lemma_dot(t, "mts"@, ".mts"@);
    lemma_dot(t, "m2ts"@, ".m2ts"@);
    lemma_dot(t, "m2t"@, ".m2t"@);
    lemma_dot(t, "ts"@, ".ts"@);
    lemma_dot(t, "mkv"@, ".mkv"@);
    lemma_dot(t, "m4v"@, ".m4v"@);
    lemma_dot(t, "mpg"@, ".mpg"@);
    lemma_dot(t, "mpeg"@, ".mpeg"@);
    lemma_dot(t, "wmv"@, ".wmv"@);
    lemma_dot(t, "braw"@, ".braw"@);
    lemma_dot(t, "r3d"@, ".r3d"@);
    lemma_dot(t, "ari"@, ".ari"@);
    lemma_dot(t, "arx"@, ".arx"@);
    lemma_dot(t, "insv"@, ".insv"@);
    lemma_dot(t, "lrv"@, ".lrv"@);
    lemma_dot(t, "3gp"@, ".3gp"@);
    lemma_dot(t, "vob"@, ".vob"@);
    lemma_dot(t, "mod"@, ".mod"@);
    lemma_dot(t, "tod"@, ".tod"@);
    let all = video_extensions();
    if t == "mp4"@ {
        assert(all[0]@ == "."@ + t);
    }
    if t == "mov"@ {
        assert(all[1]@ == "."@ + t);
    }
    if t == "mxf"@ {
        assert(all[2]@ == "."@ + t);
    }
    if t == "avi"@ {
        assert(all[3]@ == "."@ + t);
    }
    if t == "mts"@ {
        assert(all[4]@ == "."@ + t);
    }
    if t == "m2ts"@ {
        assert(all[5]@ == "."@ + t);
    }
    if t == "m2t"@ {
        assert(all[6]@ == "."@ + t);
    }
    if t == "ts"@ {
        assert(all[7]@ == "."@ + t);
    }
    if t == "mkv"@ {
        assert(all[8]@ == "."@ + t);
    }
    if t == "m4v"@ {
        assert(all[9]@ == "."@ + t);
    }
    if t == "mpg"@ {
        assert(all[10]@ == "."@ + t);
    }
    if t == "mpeg"@ {
        assert(all[11]@ == "."@ + t);
    }
    if t == "wmv"@ {
        assert(all[12]@ == "."@ + t);
    }
    if t == "braw"@ {
        assert(all[13]@ == "."@ + t);
    }
    if t == "r3d"@ {
        assert(all[14]@ == "."@ + t);
    }
    if t == "ari"@ {
        assert(all[15]@ == "."@ + t);
    }
    if t == "arx"@ {
        assert(all[16]@ == "."@ + t);
    }
    if t == "insv"@ {
        assert(all[17]@ == "."@ + t);
    }
    if t == "lrv"@ {
        assert(all[18]@ == "."@ + t);
    }
    if t == "3gp"@ {
        assert(all[19]@ == "."@ + t);
    }
    if t == "vob"@ {
        assert(all[20]@ == "."@ + t);
    }
    if t == "mod"@ {
        assert(all[21]@ == "."@ + t);
    }
    if t == "tod"@ {
        assert(all[22]@ == "."@ + t);
    }
}

proof fn lemma_system_words(t: Seq<char>)
    ensures
        crate::names::is_system_extension("."@ + t) <==> {
            ||| t == "exe"@ || t == "dll"@ || t == "sys"@
            ||| t == "driver"@ || t == "scr"@ || t == "bat"@
            ||| t == "cmd"@ || t == "ps1"@ || t == "msi"@
            ||| t == "lnk"@ || t == "url"@ || t == "desktop"@
            ||| t == "app"@ || t == "ini"@ || t == "config"@
            ||| t == "conf"@
        },
{
    reveal_strlit("exe");
    reveal_strlit(".exe");
    reveal_strlit("dll");
    reveal_strlit(".dll");
    reveal_strlit("sys");
    reveal_strlit(".sys");
    reveal_strlit("driver");
    reveal_strlit(".driver");
    reveal_strlit("scr");
    reveal_strlit(".scr");
    reveal_strlit("bat");
    reveal_strlit(".bat");
    reveal_strlit("cmd");
    reveal_strlit(".cmd");
    reveal_strlit("ps1");
    reveal_strlit(".ps1");
    reveal_strlit("msi");
    reveal_strlit(".msi");
    reveal_strlit("lnk");
    reveal_strlit(".lnk");
    reveal_strlit("url");
    reveal_strlit(".url");
    reveal_strlit("desktop");
    reveal_strlit(".desktop");
    reveal_strlit("app");
    reveal_strlit(".app");
    reveal_strlit("ini");
    reveal_strlit(".ini");
    reveal_strlit("config");
    reveal_strlit(".config");
    reveal_strlit("conf");
    reveal_strlit(".conf");
    lemma_dot(t, "exe"@, ".exe"@);
    lemma_dot(t, "dll"@, ".dll"@);
    lemma_dot(t, "sys"@, ".sys"@);
    lemma_dot(t, "driver"@, ".driver"@);
    lemma_dot(t, "scr"@, ".scr"@);
    lemma_dot(t, "bat"@, ".bat"@);
    lemma_dot(t, "cmd"@, ".cmd"@);
    lemma_dot(t, "ps1"@, ".ps1"@);
    lemma_dot(t, "msi"@, ".msi"@);
    lemma_dot(t, "lnk"@, ".lnk"@);
    lemma_dot(t, "url"@, ".url"@);
    lemma_dot(t, "desktop"@, ".desktop"@);
    lemma_dot(t, "app"@, ".app"@);
    lemma_dot(t, "ini"@, ".ini"@);
    lemma_dot(t, "config"@, ".config"@);
    lemma_dot(t, "conf"@, ".conf"@);
}

/// A file is taken for a video exactly if its extension, in whatever case, is one
/// of these.
pub proof fn law_videos_are_known_by_their_extension(p: PathView, stem: Seq<u8>, ext: Seq<u8>)
    requires
        called(p, stem, ext),
    ensures
        video_file(p, video_extensions()) <==> {
            ||| spells(ext, "mp4"@) || spells(ext, "mov"@) || spells(ext, "mxf"@)
            ||| spells(ext, "avi"@) || spells(ext, "mts"@) || spells(ext, "m2ts"@)
            ||| spells(ext, "m2t"@) || spells(ext, "ts"@) || spells(ext, "mkv"@)
            ||| spells(ext, "m4v"@) || spells(ext, "mpg"@) || spells(ext, "mpeg"@)
            ||| spells(ext, "wmv"@) || spells(ext, "braw"@) || spells(ext, "r3d"@)
            ||| spells(ext, "ari"@) || spells(ext, "arx"@) || spells(ext, "insv"@)
            ||| spells(ext, "lrv"@) || spells(ext, "3gp"@) || spells(ext, "vob"@)
            ||| spells(ext, "mod"@) || spells(ext, "tod"@)
        },
{
    lemma_called(p, stem, ext);
    if valid_utf8(ext) {
        lemma_video_words(lowercase(decode_utf8(ext)));
    }
}

/// A file belongs to the system exactly if its extension, in whatever case, is
/// one of these.
pub proof fn law_system_files_are_known_by_their_extension(
    p: PathView,
    stem: Seq<u8>,
    ext: Seq<u8>,
)
    requires
        called(p, stem, ext),
    ensures
        system_file(p) <==> {
            ||| spells(ext, "exe"@) || spells(ext, "dll"@) || spells(ext, "sys"@)
            ||| spells(ext, "driver"@) || spells(ext, "scr"@) || spells(ext, "bat"@)
            ||| spells(ext, "cmd"@) || spells(ext, "ps1"@) || spells(ext, "msi"@)
            ||| spells(ext, "lnk"@) || spells(ext, "url"@) || spells(ext, "desktop"@)
            ||| spells(ext, "app"@) || spells(ext, "ini"@) || spells(ext, "config"@)
            ||| spells(ext, "conf"@)
        },
{
    lemma_called(p, stem, ext);
    if valid_utf8(ext) {
        lemma_system_words(lowercase(decode_utf8(ext)));
    }
}

/// With a list of extensions of one's own, each with its dot and in lower case,
/// a file is taken for a video exactly if its extension is on the list.
pub proof fn law_lists_say_what_is_a_video(
    p: PathView,
    stem: Seq<u8>,
    ext: Seq<u8>,
    exts: Seq<&str>,
)
    requires
        called(p, stem, ext),
    ensures
        video_file(p, exts) <==> valid_utf8(ext) && exists|i: int|
            0 <= i < exts.len() && (#[trigger] exts[i])@ == "."@ + lowercase(decode_utf8(ext)),
{
    lemma_called(p, stem, ext);
}

/// Plain letters count the same in either case.
pub proof fn law_case_of_extensions_makes_no_difference(
    ext: Seq<u8>,
    other: Seq<u8>,
    word: Seq<char>,
)
    requires
        forall|i: int| 0 <= i < ext.len() ==> #[trigger] ext[i] < 0x80,
        same_ignoring_ascii_case(ext, other),
    ensures
        spells(ext, word) == spells(other, word),
{
    assert forall|i: int| 0 <= i < other.len() implies #[trigger] other[i] < 0x80 by {
        assert(crate::text::lower_byte(ext[i]) == crate::text::lower_byte(other[i]));
    }
    crate::laws::cleaning::lemma_ascii_decoded(ext);
    crate::laws::cleaning::lemma_ascii_decoded(other);
    let a = ascii_lower(decode_utf8(ext));
    let b = ascii_lower(decode_utf8(other));
    assert forall|i: int| 0 <= i < a.len() implies a[i] == b[i] by {
        assert(crate::text::lower_byte(ext[i]) == crate::text::lower_byte(other[i]));
        assert(decode_utf8(ext)[i] == ext[i] as char && decode_utf8(other)[i] == other[i] as char);
    }
    assert(a =~= b);
}

/// A file without an extension is neither a video nor a file of the system.
pub proof fn law_no_extension_no_kind(p: PathView, exts: Seq<&str>)
    requires
        called_without_dot(p),
    ensures
        !video_file(p, exts),
        !system_file(p),
{
    lemma_called_without_dot(p);
}

/// What is looked at, file by file: a regular file that is no file of the system,
/// no manifest and no log of this tool and, unless all files were asked for, is a
/// video.
pub proof fn law_what_is_looked_at(
    p: PathView,
    stem: Seq<u8>,
    ext: Seq<u8>,
    is_file: bool,
    all_files: bool,
)
    requires
        called(p, stem, ext),
    ensures
        passes(p, is_file, all_files) <==> {
            &&& is_file
            &&& !{
                ||| spells(ext, "exe"@) || spells(ext, "dll"@) || spells(ext, "sys"@)
                ||| spells(ext, "driver"@) || spells(ext, "scr"@) || spells(ext, "bat"@)
                ||| spells(ext, "cmd"@) || spells(ext, "ps1"@) || spells(ext, "msi"@)
                ||| spells(ext, "lnk"@) || spells(ext, "url"@) || spells(ext, "desktop"@)
                ||| spells(ext, "app"@) || spells(ext, "ini"@) || spells(ext, "config"@)
                ||| spells(ext, "conf"@)
            }
            &&& all_files || {
                ||| spells(ext, "mp4"@) || spells(ext, "mov"@) || spells(ext, "mxf"@)
                ||| spells(ext, "avi"@) || spells(ext, "mts"@) || spells(ext, "m2ts"@)
                ||| spells(ext, "m2t"@) || spells(ext, "ts"@) || spells(ext, "mkv"@)
                ||| spells(ext, "m4v"@) || spells(ext, "mpg"@) || spells(ext, "mpeg"@)
                ||| spells(ext, "wmv"@) || spells(ext, "braw"@) || spells(ext, "r3d"@)
                ||| spells(ext, "ari"@) || spells(ext, "arx"@) || spells(ext, "insv"@)
                ||| spells(ext, "lrv"@) || spells(ext, "3gp"@) || spells(ext, "vob"@)
                ||| spells(ext, "mod"@) || spells(ext, "tod"@)
            }
            &&& !same_ignoring_ascii_case(ext, encode_utf8("xxh3"@))
            &&& !same_ignoring_ascii_case(ext, encode_utf8("xxh"@))
            &&& !(valid_utf8(stem.push(0x2e) + ext) && has_prefix(stem, encode_utf8("dups-"@))
                && ext == encode_utf8("csv"@))
        },
{
    law_videos_are_known_by_their_extension(p, stem, ext);
    law_system_files_are_known_by_their_extension(p, stem, ext);
    lemma_called(p, stem, ext);
    lemma_log_name(stem, ext);
    lemma_manifest_extension_is_text(ext);
}

/// A file without an extension is looked at exactly if it is a regular file and
/// all files were asked for.
pub proof fn law_files_without_extension_are_looked_at(p: PathView, is_file: bool, all_files: bool)
    requires
        called_without_dot(p),
    ensures
        passes(p, is_file, all_files) <==> is_file && all_files,
{
    lemma_called_without_dot(p);
    reveal_strlit("dups-");
    reveal_strlit(".csv");
    is_ascii_chars_encode_utf8("dups-"@);
    is_ascii_chars_encode_utf8(".csv"@);
    if file_name(p) is Some {
        let name = file_name(p)->0;
        let head = encode_utf8("dups-"@);
        let tail = encode_utf8(".csv"@);
        if has_prefix(name, head) && has_suffix(name, tail) {
            let d = name.len() - 4;
            assert(tail[0] == ".csv"@[0] as u8);
            assert(name.skip(d)[0] == tail[0]);
            assert(head[0] == "dups-"@[0] as u8);
            assert(name.take(5)[0] == head[0]);
            assert(name[d] == 0x2e && d > 0);
        }
    }
}

/// A log of this tool, by its stem and extension.
proof fn lemma_log_name(stem: Seq<u8>, ext: Seq<u8>)
    requires
        stem.len() > 0,
        !ext.contains(0x2e),
    ensures
        ({
            let name = stem.push(0x2e) + ext;
            has_prefix(name, encode_utf8("dups-"@)) && has_suffix(name, encode_utf8(".csv"@)) <==> (
            has_prefix(stem, encode_utf8("dups-"@)) && ext == encode_utf8("csv"@))
        }),
{
    reveal_strlit("dups-");
    reveal_strlit(".csv");
    reveal_strlit("csv");
    is_ascii_chars_encode_utf8("dups-"@);
    is_ascii_chars_encode_utf8(".csv"@);
    is_ascii_chars_encode_utf8("csv"@);
    let name = stem.push(0x2e) + ext;
    let n = stem.len() as int;
    let head = encode_utf8("dups-"@);
    let tail = encode_utf8(".csv"@);
    let short = encode_utf8("csv"@);
    assert(tail =~= seq![0x2eu8] + short) by {
        assert forall|i: int| 0 <= i < 4 implies tail[i] == (seq![0x2eu8] + short)[i] by {
            assert(tail[i] == ".csv"@[i] as u8);
            if i > 0 {
                assert(short[i - 1] == "csv"@[i - 1] as u8);
            }
        }
    }
    assert forall|i: int| 0 <= i < 5 implies #[trigger] head[i] != 0x2e by {
        assert(head[i] == "dups-"@[i] as u8);
    }
    assert forall|i: int| 0 <= i < 3 implies #[trigger] short[i] != 0x2e by {
        assert(short[i] == "csv"@[i] as u8);
    }
    if has_suffix(name, tail) && has_prefix(name, head) {
        let d = name.len() - 4;
        assert forall|i: int| 0 <= i < 4 implies #[trigger] tail[i] == name[d + i] by {
            assert(name.skip(d)[i] == name[d + i]);
        }
        if d > n {
            assert(tail[0] == name[d]);
            assert(ext[d - n - 1] == name[d]);
        } else if d < n {
            assert(name[n] == 0x2e);
            assert(n - d < 4 ==> tail[n - d] == name[n]);
            if n - d < 4 {
                assert(tail[n - d] == short[n - d - 1]);
            } else {
                assert(n < name.len());
            }
        }
        assert(d == n);
        assert(ext =~= short) by {
            assert forall|i: int| 0 <= i < 3 implies ext[i] == short[i] by {
                assert(tail[i + 1] == name[d + i + 1]);
            }
        }
        if n < 5 {
            assert(name.take(5)[n] == head[n]);
        } else {
            assert(stem.take(5) =~= name.take(5));
        }
    }
    if has_prefix(stem, head) && ext == short {
        assert(name.take(5) =~= stem.take(5));
        assert(name.skip(name.len() - 4) =~= tail);
    }
}

/// What differs from plain text in case alone is text.
proof fn lemma_manifest_extension_is_text(ext: Seq<u8>)
    ensures
        same_ignoring_ascii_case(ext, encode_utf8("xxh3"@)) ==> valid_utf8(ext),
        same_ignoring_ascii_case(ext, encode_utf8("xxh"@)) ==> valid_utf8(ext),
{
    reveal_strlit("xxh3");
    reveal_strlit("xxh");
    is_ascii_chars_encode_utf8("xxh3"@);
    is_ascii_chars_encode_utf8("xxh"@);
    let a = encode_utf8("xxh3"@);
    let b = encode_utf8("xxh"@);
    if same_ignoring_ascii_case(ext, a) {
        assert forall|i: int| 0 <= i < ext.len() implies #[trigger] ext[i] < 0x80 by {
            assert(a[i] == "xxh3"@[i] as u8);
            assert(crate::text::lower_byte(ext[i]) == crate::text::lower_byte(a[i]));
        }
        crate::laws::cleaning::lemma_ascii_decoded(ext);
    }
    if same_ignoring_ascii_case(ext, b) {
        assert forall|i: int| 0 <= i < ext.len() implies #[trigger] ext[i] < 0x80 by {
            assert(b[i] == "xxh"@[i] as u8);
            assert(crate::text::lower_byte(ext[i]) == crate::text::lower_byte(b[i]));
        }
        crate::laws::cleaning::lemma_ascii_decoded(ext);
    }
}

} // verus!
