//! Laws of single files: what a plan makes of a file, by its name and by what
//! exists, and how files and entries bear on one another.

use vstd::prelude::*;
use vstd::utf8::*;
use crate::disk::{digest_of, digest_paths, DigestView, DiskView};
use crate::hashfile::{computed_entry, entry_keys, path_key_text, EntryView};
use crate::index::{
    first_position,
    lemma_first_position,
    lemma_first_position_is,
    lemma_positions,
    lemma_text_bytes_injective,
    positions_of,
};
use crate::laws::filters::{
    called,
    law_system_files_are_known_by_their_extension,
    law_videos_are_known_by_their_extension,
    lemma_called,
    spells,
};
use crate::laws::plans::{
    law_no_more_actions_than_entries,
    law_orphans_are_files_without_action,
    lemma_sources,
    lemma_statuses,
    lemma_two_rivals,
    sources,
};
use crate::laws::reruns::{lemma_draft, lemma_one_entry, lemma_rival};
use crate::names::{passes, suffixed_with, system_file, target, video_extensions, video_file};
use crate::path::{file_name, file_stem, join, parent, path_text, PathView};
use crate::plan::{
    contradicted,
    contradiction_warning,
    contradiction_warnings,
    contradicts,
    counts,
    covered,
    draft,
    entry_action,
    goal,
    key_bytes,
    orphans_of,
    plan,
    planned_actions,
    reconciled,
    rivals,
    same_path,
    ActionView,
    PlanOptions,
};
use crate::text::{lowercase, uppercase};

verus! {

broadcast use vstd::seq_lib::group_seq_properties;

/// `stem_HASH.ext` next to `p`.
pub open spec fn beside(p: PathView, stem: Seq<u8>, hash: Seq<char>, ext: Seq<u8>) -> PathView {
    join(parent(p)->0, (stem + seq![0x5fu8] + encode_utf8(hash)).push(0x2e) + ext)
}

/// A file `stem.ext` whose name is text goes to `stem_HASH.ext` next to it.
pub proof fn law_files_go_beside(p: PathView, stem: Seq<u8>, ext: Seq<u8>, hash: Seq<char>)
    requires
        called(p, stem, ext),
        valid_utf8(stem),
        valid_utf8(ext),
    ensures
        target(p, hash, "_"@) == beside(p, stem, hash, ext),
{
    lemma_called(p, stem, ext);
    reveal_strlit("_");
    assert(is_ascii_chars("_"@));
    is_ascii_chars_encode_utf8("_"@);
    assert(encode_utf8("_"@) =~= seq![0x5fu8]) by {
        assert("_"@[0] as u8 == encode_utf8("_"@)[0]);
    }
    assert(stem + (encode_utf8("_"@) + encode_utf8(hash)) =~= stem + seq![0x5fu8] + encode_utf8(
        hash,
    ));
}

/// A file whose name has no extension goes to `name_HASH` next to it.
pub proof fn law_files_without_extension_go_beside(p: PathView, hash: Seq<char>)
    requires
        file_name(p) is Some,
        crate::laws::filters::called_without_dot(p),
        valid_utf8(file_name(p)->0),
    ensures
        target(p, hash, "_"@) == join(
            parent(p)->0,
            file_name(p)->0 + seq![0x5fu8] + encode_utf8(hash),
        ),
{
    crate::laws::filters::lemma_called_without_dot(p);
    reveal_strlit("_");
    assert(is_ascii_chars("_"@));
    is_ascii_chars_encode_utf8("_"@);
    assert(encode_utf8("_"@) =~= seq![0x5fu8]) by {
        assert("_"@[0] as u8 == encode_utf8("_"@)[0]);
    }
    let name = file_name(p)->0;
    assert(name + (encode_utf8("_"@) + encode_utf8(hash)) =~= name + seq![0x5fu8] + encode_utf8(
        hash,
    ));
}

/// Whatever separates it from the stem, the hash comes behind the stem and before
/// the extension. An extension that is no text is dropped.
pub proof fn law_hashes_come_behind_the_stem(
    p: PathView,
    stem: Seq<u8>,
    ext: Seq<u8>,
    hash: Seq<char>,
    sep: Seq<char>,
)
    requires
        called(p, stem, ext),
        valid_utf8(stem),
    ensures
        valid_utf8(ext) ==> target(p, hash, sep) == join(
            parent(p)->0,
            stem + encode_utf8(sep) + encode_utf8(hash) + seq![0x2eu8] + ext,
        ),
        !valid_utf8(ext) ==> target(p, hash, sep) == join(
            parent(p)->0,
            stem + encode_utf8(sep) + encode_utf8(hash),
        ),
{
    lemma_called(p, stem, ext);
    let suffix = encode_utf8(sep) + encode_utf8(hash);
    assert(stem + suffix =~= stem + encode_utf8(sep) + encode_utf8(hash));
    assert((stem + suffix).push(0x2e) + ext =~= stem + encode_utf8(sep) + encode_utf8(hash)
        + seq![0x2eu8] + ext);
}

/// A path without a name, or with a stem that is no text, stays as it is.
pub proof fn law_other_files_stay(p: PathView, hash: Seq<char>, sep: Seq<char>)
    requires
        file_stem(p) matches Some(stem) ==> !valid_utf8(stem),
    ensures
        target(p, hash, sep) == p,
{
}

/// The plan for one entry has one action, for the path and the hash of the entry.
pub open spec fn only_action(
    e: EntryView,
    options: PlanOptions,
    disk: DiskView,
    status: Seq<char>,
    dst: Option<PathView>,
) -> bool {
    let actions = plan(seq![e], options, disk).actions;
    &&& actions.len() == 1
    &&& actions[0].src == e.path
    &&& actions[0].hash == e.hash
    &&& actions[0].status == status
    &&& actions[0].dst == dst
}

/// A file of the system, and one that is no video where only videos are asked
/// for, is left alone.
pub proof fn law_other_kinds_are_left_alone(e: EntryView, options: PlanOptions, disk: DiskView)
    requires
        system_file(e.path) || (!options.all_files && !video_file(e.path, video_extensions())),
    ensures
        only_action(e, options, disk, "not-video"@, None),
{
    lemma_one_entry(e, options, disk);
}

/// The file is one to be renamed: not of the system, a video unless all files are
/// asked for, and without its hash at the end of its stem.
pub open spec fn to_be_renamed(e: EntryView, all_files: bool) -> bool {
    &&& !system_file(e.path)
    &&& all_files || video_file(e.path, video_extensions())
    &&& !suffixed_with(e.path, e.hash)
}

/// A file that carries its hash already is done, and stays where it is.
pub proof fn law_files_with_their_hash_are_done(e: EntryView, options: PlanOptions, disk: DiskView)
    requires
        !system_file(e.path),
        options.all_files || video_file(e.path, video_extensions()),
        suffixed_with(e.path, e.hash),
    ensures
        only_action(e, options, disk, "done"@, Some(e.path)),
{
    lemma_one_entry(e, options, disk);
}

/// What becomes of a file that is one to be renamed depends on what exists, and
/// on its content where that is to be verified: it is renamed to `stem_HASH.ext`
/// exactly if it exists, nothing is there, and its content has its hash.
pub proof fn law_what_exists_decides(
    e: EntryView,
    stem: Seq<u8>,
    ext: Seq<u8>,
    options: PlanOptions,
    disk: DiskView,
)
    requires
        called(e.path, stem, ext),
        valid_utf8(stem),
        valid_utf8(ext),
        to_be_renamed(e, options.all_files),
    ensures
        ({
            let to = beside(e.path, stem, e.hash, ext);
            let src = disk.existing.contains(e.path.bytes);
            let dst = disk.existing.contains(to.bytes);
            let trusted = !options.verify || e.computed;
            let right = digest_of(disk.digests, e.path) == Some(
                Ok::<Seq<char>, Seq<char>>(uppercase(e.hash)),
            );
            &&& src && !dst && (trusted || right) ==> only_action(
                e,
                options,
                disk,
                "rename"@,
                Some(to),
            )
            &&& src && !dst && !trusted && !right ==> only_action(
                e,
                options,
                disk,
                "verify-failed"@,
                Some(to),
            )
            &&& src && dst ==> only_action(e, options, disk, "conflict"@, Some(to))
            &&& !src && dst ==> only_action(e, options, disk, "done"@, Some(to))
            &&& !src && !dst ==> only_action(e, options, disk, "missing"@, None)
        }),
{
    law_files_go_beside(e.path, stem, ext, e.hash);
    lemma_one_entry(e, options, disk);
}

/// Whatever a file that is one to be renamed is called: what exists where it is and
/// where it is to go decides, and its content where that is to be verified.
pub proof fn law_what_exists_decides_for_any_name(
    e: EntryView,
    options: PlanOptions,
    disk: DiskView,
)
    requires
        to_be_renamed(e, options.all_files),
    ensures
        ({
            let to = target(e.path, e.hash, "_"@);
            let src = disk.existing.contains(e.path.bytes);
            let dst = disk.existing.contains(to.bytes);
            let trusted = !options.verify || e.computed;
            let right = digest_of(disk.digests, e.path) == Some(
                Ok::<Seq<char>, Seq<char>>(uppercase(e.hash)),
            );
            &&& src && !dst && (trusted || right) ==> only_action(
                e,
                options,
                disk,
                "rename"@,
                Some(to),
            )
            &&& src && !dst && !trusted && !right ==> only_action(
                e,
                options,
                disk,
                "verify-failed"@,
                Some(to),
            )
            &&& src && dst ==> only_action(e, options, disk, "conflict"@, Some(to))
            &&& !src && dst ==> only_action(e, options, disk, "done"@, Some(to))
            &&& !src && !dst ==> only_action(e, options, disk, "missing"@, None)
        }),
{
    lemma_one_entry(e, options, disk);
}

/// A file whose stem is no text has nowhere to go: where it exists it is in its own
/// way.
pub proof fn law_names_that_are_no_text_are_in_their_own_way(
    e: EntryView,
    options: PlanOptions,
    disk: DiskView,
)
    requires
        to_be_renamed(e, options.all_files),
        file_stem(e.path) matches Some(stem) ==> !valid_utf8(stem),
    ensures
        disk.existing.contains(e.path.bytes) ==> only_action(
            e,
            options,
            disk,
            "conflict"@,
            Some(e.path),
        ),
        !disk.existing.contains(e.path.bytes) ==> only_action(e, options, disk, "missing"@, None),
{
    law_what_exists_decides_for_any_name(e, options, disk);
    law_other_files_stay(e.path, e.hash, "_"@);
}

/// What is said of a single file: why it is not renamed, and nothing where it is.
pub proof fn law_reasons_are_given(e: EntryView, options: PlanOptions, disk: DiskView)
    ensures
        ({
            let a = plan(seq![e], options, disk).actions[0];
            let got = digest_of(disk.digests, e.path);
            &&& a.status == "rename"@ ==> a.note == ""@
            &&& a.status == "not-video"@ && system_file(e.path) ==> a.note
                == "system file (excluded)"@
            &&& a.status == "not-video"@ && !system_file(e.path) ==> a.note
                == "extension not in video allowlist"@
            &&& a.status == "done"@ && suffixed_with(e.path, e.hash) ==> a.note
                == "already suffixed"@
            &&& a.status == "done"@ && !suffixed_with(e.path, e.hash) ==> a.note
                == "source already renamed in a prior run"@
            &&& a.status == "missing"@ ==> a.note
                == "listed in manifest but not found on disk (checked: "@ + path_text(e.path)
                + ")"@
            &&& a.status == "conflict"@ ==> a.note == "target name already exists on disk"@
            &&& a.status == "verify-failed"@ && got is None ==> a.note == "content was not read"@
            &&& a.status == "verify-failed"@ && got is Some && got->0 is Err ==> a.note
                == got->0->Err_0
            &&& a.status == "verify-failed"@ && got is Some && got->0 is Ok ==> a.note
                == "hash mismatch (manifest "@ + e.hash + " vs actual "@ + got->0->Ok_0 + ")"@
        }),
{
    lemma_one_entry(e, options, disk);
    lemma_statuses();
    lemma_other_statuses();
}

proof fn lemma_other_statuses()
    ensures
        "conflict"@.len() == 8,
        "done"@.len() == 4,
        "missing"@.len() == 7,
        "not-video"@.len() == 9,
        "verify-failed"@.len() == 13,
{
    reveal_strlit("conflict");
    reveal_strlit("done");
    reveal_strlit("missing");
    reveal_strlit("not-video");
    reveal_strlit("verify-failed");
}

/// No video is a file of the system.
proof fn lemma_videos_are_not_of_the_system(t: Seq<char>)
    requires
        ({
            ||| t == "mp4"@ || t == "mov"@ || t == "mxf"@
            ||| t == "avi"@ || t == "mts"@ || t == "m2ts"@
            ||| t == "m2t"@ || t == "ts"@ || t == "mkv"@
            ||| t == "m4v"@ || t == "mpg"@ || t == "mpeg"@
            ||| t == "wmv"@ || t == "braw"@ || t == "r3d"@
            ||| t == "ari"@ || t == "arx"@ || t == "insv"@
            ||| t == "lrv"@ || t == "3gp"@ || t == "vob"@
            ||| t == "mod"@ || t == "tod"@
        }),
    ensures
        !({
            ||| t == "exe"@ || t == "dll"@ || t == "sys"@
            ||| t == "driver"@ || t == "scr"@ || t == "bat"@
            ||| t == "cmd"@ || t == "ps1"@ || t == "msi"@
            ||| t == "lnk"@ || t == "url"@ || t == "desktop"@
            ||| t == "app"@ || t == "ini"@ || t == "config"@
            ||| t == "conf"@
        }),
{
    reveal_strlit("mp4");
    reveal_strlit("mov");
    reveal_strlit("mxf");
    reveal_strlit("avi");
    reveal_strlit("mts");
    reveal_strlit("m2ts");
    reveal_strlit("m2t");
    reveal_strlit("ts");
    reveal_strlit("mkv");
    reveal_strlit("m4v");
    reveal_strlit("mpg");
    reveal_strlit("mpeg");
    reveal_strlit("wmv");
    reveal_strlit("braw");
    reveal_strlit("r3d");
    reveal_strlit("ari");
    reveal_strlit("arx");
    reveal_strlit("insv");
    reveal_strlit("lrv");
    reveal_strlit("3gp");
    reveal_strlit("vob");
    reveal_strlit("mod");
    reveal_strlit("tod");
    reveal_strlit("exe");
    reveal_strlit("dll");
    reveal_strlit("sys");
    reveal_strlit("driver");
    reveal_strlit("scr");
    reveal_strlit("bat");
    reveal_strlit("cmd");
    reveal_strlit("ps1");
    reveal_strlit("msi");
    reveal_strlit("lnk");
    reveal_strlit("url");
    reveal_strlit("desktop");
    reveal_strlit("app");
    reveal_strlit("ini");
    reveal_strlit("config");
    reveal_strlit("conf");
    assert(t == "mp4"@ ==> t.len() == 3 && t[0] == 'm' && t[1] == 'p' && t[2] == '4');
    assert(t == "mov"@ ==> t.len() == 3 && t[0] == 'm' && t[1] == 'o' && t[2] == 'v');
    assert(t == "mxf"@ ==> t.len() == 3 && t[0] == 'm' && t[1] == 'x' && t[2] == 'f');
    assert(t == "avi"@ ==> t.len() == 3 && t[0] == 'a' && t[1] == 'v' && t[2] == 'i');
    assert(t == "mts"@ ==> t.len() == 3 && t[0] == 'm' && t[1] == 't' && t[2] == 's');
    assert(t == "m2ts"@ ==>
        t.len() == 4 && t[0] == 'm' && t[1] == '2' && t[2] == 't' && t[3] == 's');
    assert(t == "m2t"@ ==> t.len() == 3 && t[0] == 'm' && t[1] == '2' && t[2] == 't');
    assert(t == "ts"@ ==> t.len() == 2 && t[0] == 't' && t[1] == 's');
    assert(t == "mkv"@ ==> t.len() == 3 && t[0] == 'm' && t[1] == 'k' && t[2] == 'v');
    assert(t == "m4v"@ ==> t.len() == 3 && t[0] == 'm' && t[1] == '4' && t[2] == 'v');
    assert(t == "mpg"@ ==> t.len() == 3 && t[0] == 'm' && t[1] == 'p' && t[2] == 'g');
    assert(t == "mpeg"@ ==>
        t.len() == 4 && t[0] == 'm' && t[1] == 'p' && t[2] == 'e' && t[3] == 'g');
    assert(t == "wmv"@ ==> t.len() == 3 && t[0] == 'w' && t[1] == 'm' && t[2] == 'v');
    assert(t == "braw"@ ==>
        t.len() == 4 && t[0] == 'b' && t[1] == 'r' && t[2] == 'a' && t[3] == 'w');
    assert(t == "r3d"@ ==> t.len() == 3 && t[0] == 'r' && t[1] == '3' && t[2] == 'd');
    assert(t == "ari"@ ==> t.len() == 3 && t[0] == 'a' && t[1] == 'r' && t[2] == 'i');
    assert(t == "arx"@ ==> t.len() == 3 && t[0] == 'a' && t[1] == 'r' && t[2] == 'x');
    assert(t == "insv"@ ==>
        t.len() == 4 && t[0] == 'i' && t[1] == 'n' && t[2] == 's' && t[3] == 'v');
    assert(t == "lrv"@ ==> t.len() == 3 && t[0] == 'l' && t[1] == 'r' && t[2] == 'v');
    assert(t == "3gp"@ ==> t.len() == 3 && t[0] == '3' && t[1] == 'g' && t[2] == 'p');
    assert(t == "vob"@ ==> t.len() == 3 && t[0] == 'v' && t[1] == 'o' && t[2] == 'b');
    assert(t == "mod"@ ==> t.len() == 3 && t[0] == 'm' && t[1] == 'o' && t[2] == 'd');
    assert(t == "tod"@ ==> t.len() == 3 && t[0] == 't' && t[1] == 'o' && t[2] == 'd');
}

/// Unless other things are asked for, a file with one of these extensions, in
/// whatever case, that exists, whose name lacks the hash and whose target is
/// free, is renamed to `stem_HASH.ext`.
pub proof fn law_videos_are_renamed_by_default(
    e: EntryView,
    stem: Seq<u8>,
    ext: Seq<u8>,
    disk: DiskView,
    only_dupes: bool,
)
    requires
        called(e.path, stem, ext),
        valid_utf8(stem),
        ({
            ||| spells(ext, "mp4"@) || spells(ext, "mov"@) || spells(ext, "mxf"@)
            ||| spells(ext, "avi"@) || spells(ext, "mts"@) || spells(ext, "m2ts"@)
            ||| spells(ext, "m2t"@) || spells(ext, "ts"@) || spells(ext, "mkv"@)
            ||| spells(ext, "m4v"@) || spells(ext, "mpg"@) || spells(ext, "mpeg"@)
            ||| spells(ext, "wmv"@) || spells(ext, "braw"@) || spells(ext, "r3d"@)
            ||| spells(ext, "ari"@) || spells(ext, "arx"@) || spells(ext, "insv"@)
            ||| spells(ext, "lrv"@) || spells(ext, "3gp"@) || spells(ext, "vob"@)
            ||| spells(ext, "mod"@) || spells(ext, "tod"@)
        }),
        !suffixed_with(e.path, e.hash),
        disk.existing.contains(e.path.bytes),
        !disk.existing.contains(beside(e.path, stem, e.hash, ext).bytes),
    ensures
        only_action(
            e,
            (PlanOptions { verify: false, all_files: false, only_dupes }),
            disk,
            "rename"@,
            Some(beside(e.path, stem, e.hash, ext)),
        ),
{
    law_videos_are_known_by_their_extension(e.path, stem, ext);
    law_system_files_are_known_by_their_extension(e.path, stem, ext);
    lemma_videos_are_not_of_the_system(lowercase(decode_utf8(ext)));
    let options = PlanOptions { verify: false, all_files: false, only_dupes };
    law_what_exists_decides(e, stem, ext, options, disk);
}

/// What is known of the content of a file is what came of hashing it the first
/// time.
pub proof fn law_digests_are_found_by_path(digests: Seq<DigestView>, p: PathView, k: int)
    requires
        digests.len() <= usize::MAX,
        0 <= k <= digests.len(),
        forall|i: int| 0 <= i < k ==> (#[trigger] digests[i]).path != p.bytes,
        k < digests.len() ==> digests[k].path == p.bytes,
    ensures
        digest_of(digests, p) == (if k < digests.len() {
            Some(digests[k].outcome)
        } else {
            None
        }),
{
    let paths = digest_paths(digests);
    lemma_positions(paths, p.bytes);
    let at = positions_of(paths, p.bytes);
    if k < digests.len() {
        assert(paths[k] == p.bytes);
        assert(at.contains(k as usize));
        let m = choose|m: int| 0 <= m < at.len() && at[m] == k as usize;
        assert(paths[at[0] as int] == p.bytes);
        assert(digests[at[0] as int].path == p.bytes);
        if m > 0 {
            assert(at[0] < at[m]);
        }
    } else if at.len() > 0 {
        assert(paths[at[0] as int] == p.bytes);
        assert(digests[at[0] as int].path == p.bytes);
    }
}

/// A hash that was computed just now is taken as it is: contents are not looked
/// at again.
pub proof fn law_computed_hashes_are_not_verified(
    p: PathView,
    hash: Seq<char>,
    options: PlanOptions,
    disk: DiskView,
    other: Seq<DigestView>,
)
    ensures
        computed_entry(p, hash).path == p,
        computed_entry(p, hash).hash == hash,
        plan(seq![computed_entry(p, hash)], options, disk).actions == plan(
            seq![computed_entry(p, hash)],
            (PlanOptions { verify: false, ..options }),
            (DiskView { digests: other, ..disk }),
        ).actions,
{
    let e = computed_entry(p, hash);
    let d = DiskView { digests: other, ..disk };
    lemma_one_entry(e, options, disk);
    lemma_one_entry(e, PlanOptions { verify: false, ..options }, d);
    assert(d.present(e.path) == disk.present(e.path));
    assert(d.present(goal(e)) == disk.present(goal(e)));
}

// ---------------------------------------------------------------------------
// Several files
// ---------------------------------------------------------------------------

/// All entries for the path of the entry at `i` agree on its hash.
pub open spec fn undisputed(all: Seq<EntryView>, i: int) -> bool {
    forall|j: int|
        0 <= j < all.len() && path_key_text((#[trigger] all[j]).path) == path_key_text(all[i].path)
            ==> all[j].hash == all[i].hash
}

/// No earlier entry is for the same path.
pub open spec fn comes_first(all: Seq<EntryView>, i: int) -> bool {
    forall|j: int|
        0 <= j < i ==> path_key_text((#[trigger] all[j]).path) != path_key_text(all[i].path)
}

pub proof fn lemma_undisputed_counts(all: Seq<EntryView>, i: int)
    requires
        0 <= i < all.len(),
        undisputed(all, i),
        comes_first(all, i),
    ensures
        counts(all, i),
{
    let keys = entry_keys(all);
    assert forall|j: int| 0 <= j < i implies keys[j] != keys[i] by {
        assert(path_key_text(all[j].path) != path_key_text(all[i].path));
    }
    lemma_first_position_is(keys, i, i);
    if contradicted(all, i) {
        let j = choose|j: int|
            0 <= j < all.len() && #[trigger] same_path(all, i, j) && contradicts(all, j);
        lemma_first_position(keys, j);
        let f = first_position(keys, j);
        assert(keys[f] == keys[j]);
        assert(path_key_text(all[f].path) == path_key_text(all[i].path));
        assert(path_key_text(all[j].path) == path_key_text(all[i].path));
        assert(false);
    }
}

/// Where an entry that counts has its action.
proof fn lemma_place(all: Seq<EntryView>, options: PlanOptions, disk: DiskView, i: int) -> (k: int)
    requires
        0 <= i < all.len(),
        counts(all, i),
    ensures
        0 <= k < sources(all).len(),
        sources(all)[k] == i,
        k < planned_actions(all, options, disk).len(),
        k < draft(all, options, disk).len(),
        draft(all, options, disk)[k] == entry_action(all[i], options, disk),
        planned_actions(all, options, disk)[k] == reconciled(
            draft(all, options, disk),
            draft(all, options, disk)[k],
        ),
{
    lemma_sources(all, options, disk);
    let s = sources(all);
    assert(s.contains(i));
    let k = choose|k: int| 0 <= k < s.len() && s[k] == i;
    lemma_draft(all, options, disk, k);
    if contradicts(all, i) {
        assert(same_path(all, i, i));
    }
    k
}

/// Files are planned one by one: where the entries for a path agree on its hash,
/// and no other file is to go where this one is to go, the plan has the action
/// for it that the plan for its entry alone has.
pub proof fn law_files_are_planned_one_by_one(
    all: Seq<EntryView>,
    options: PlanOptions,
    disk: DiskView,
    i: int,
)
    requires
        all.len() <= usize::MAX,
        0 <= i < all.len(),
        undisputed(all, i),
        comes_first(all, i),
        forall|j: int|
            0 <= j < all.len() && path_key_text((#[trigger] all[j]).path) != path_key_text(
                all[i].path,
            ) ==> path_key_text(target(all[j].path, all[j].hash, "_"@)) != path_key_text(
                target(all[i].path, all[i].hash, "_"@),
            ),
    ensures
        plan(all, options, disk).actions.contains(plan(seq![all[i]], options, disk).actions[0]),
{
    lemma_undisputed_counts(all, i);
    let k = lemma_place(all, options, disk, i);
    lemma_one_entry(all[i], options, disk);
    lemma_statuses();
    law_no_more_actions_than_entries(all, options, disk);
    lemma_sources(all, options, disk);
    let d = draft(all, options, disk);
    if d[k].is_rename() && rivals(d, d[k].dst->0) > 1 {
        let l = lemma_rival(d, k);
        lemma_draft(all, options, disk, l);
        lemma_draft(all, options, disk, k);
        let j = sources(all)[l];
        lemma_text_bytes_injective(path_key_text(goal(all[j])), path_key_text(goal(all[i])));
        if k < l {
            crate::laws::plans::lemma_sources_increase(all, k, l);
        } else {
            crate::laws::plans::lemma_sources_increase(all, l, k);
        }
        crate::laws::plans::lemma_sources_distinct(all, i, j);
        assert(!same_path(all, i, j));
        assert(path_key_text(all[j].path) != path_key_text(all[i].path));
        assert(false);
    }
    assert(planned_actions(all, options, disk)[k] == entry_action(all[i], options, disk));
}

/// Different files that would go to one place are refused: each of them is a
/// conflict about that place, and none is renamed.
pub proof fn law_files_with_one_target_are_conflicts(
    all: Seq<EntryView>,
    options: PlanOptions,
    disk: DiskView,
    i: int,
    j: int,
)
    requires
        all.len() <= usize::MAX,
        0 <= i < all.len(),
        0 <= j < all.len(),
        undisputed(all, i),
        comes_first(all, i),
        undisputed(all, j),
        comes_first(all, j),
        path_key_text(all[i].path) != path_key_text(all[j].path),
        plan(seq![all[i]], options, disk).actions[0].status == "rename"@,
        plan(seq![all[j]], options, disk).actions[0].status == "rename"@,
        path_key_text(target(all[i].path, all[i].hash, "_"@)) == path_key_text(
            target(all[j].path, all[j].hash, "_"@),
        ),
    ensures
        exists|k: int|
            0 <= k < plan(all, options, disk).actions.len() && (#[trigger] plan(
                all,
                options,
                disk,
            ).actions[k]).src == all[i].path && plan(all, options, disk).actions[k].status
                == "conflict"@ && plan(all, options, disk).actions[k].dst == Some(
                target(all[i].path, all[i].hash, "_"@),
            ),
{
    lemma_undisputed_counts(all, i);
    lemma_undisputed_counts(all, j);
    let k = lemma_place(all, options, disk, i);
    let l = lemma_place(all, options, disk, j);
    lemma_one_entry(all[i], options, disk);
    lemma_one_entry(all[j], options, disk);
    lemma_statuses();
    law_no_more_actions_than_entries(all, options, disk);
    lemma_sources(all, options, disk);
    lemma_draft(all, options, disk, k);
    lemma_draft(all, options, disk, l);
    let d = draft(all, options, disk);
    assert(k != l);
    if k < l {
        lemma_two_rivals(d, k, l);
    } else {
        lemma_two_rivals(d, l, k);
    }
    assert(plan(all, options, disk).actions[k].status == "conflict"@);
}

/// A path that is listed with two hashes is told of in a warning that names it.
pub proof fn law_contradictions_are_told(
    all: Seq<EntryView>,
    options: PlanOptions,
    disk: DiskView,
    i: int,
    j: int,
)
    requires
        0 <= i < all.len(),
        0 <= j < all.len(),
        path_key_text(all[i].path) == path_key_text(all[j].path),
        all[i].hash != all[j].hash,
    ensures
        exists|w: int, m: int|
            0 <= w < plan(all, options, disk).warnings.len() && 0 <= m < all.len()
                && path_key_text((#[trigger] all[m]).path) == path_key_text(all[i].path)
                && crate::text::has_prefix(
                #[trigger] plan(all, options, disk).warnings[w],
                "Warning: "@ + path_text(all[m].path),
            ),
{
    let keys = entry_keys(all);
    lemma_first_position(keys, i);
    let f = first_position(keys, i);
    lemma_first_position_is(keys, f, f);
    assert(keys[f] == keys[i]);
    let o = if all[f].hash != all[i].hash {
        i
    } else {
        j
    };
    assert(keys[o] == keys[i]);
    assert(same_path(all, f, o));
    crate::laws::plans::lemma_contradiction_exists(all, f, o);
    let m = choose|m: int|
        0 <= m < all.len() && #[trigger] same_path(all, f, m) && contradicts(all, m);
    let w = lemma_warning_place(all, m, all.len() as int);
    let text = plan(all, options, disk).warnings[w];
    let head = "Warning: "@ + path_text(all[m].path);
    assert(text.take(head.len() as int) =~= head);
    assert(path_key_text(all[m].path) == path_key_text(all[i].path));
}

proof fn lemma_warning_place(all: Seq<EntryView>, m: int, n: int) -> (w: int)
    requires
        0 <= m < n <= all.len(),
        contradicts(all, m),
    ensures
        0 <= w < contradiction_warnings(all, n).len(),
        contradiction_warnings(all, n)[w] == contradiction_warning(
            all[first_position(entry_keys(all), m)],
            all[m],
        ),
    decreases n,
{
    if m < n - 1 {
        let w = lemma_warning_place(all, m, n - 1);
        w
    } else {
        contradiction_warnings(all, n - 1).len() as int
    }
}

/// Where the entries agree, there is nothing to warn of.
pub proof fn law_no_contradiction_no_warning(
    all: Seq<EntryView>,
    options: PlanOptions,
    disk: DiskView,
)
    requires
        forall|i: int| 0 <= i < all.len() ==> #[trigger] undisputed(all, i),
    ensures
        plan(all, options, disk).warnings.len() == 0,
{
    lemma_no_warnings(all, all.len() as int);
}

proof fn lemma_no_warnings(all: Seq<EntryView>, n: int)
    requires
        0 <= n <= all.len(),
        forall|i: int| 0 <= i < all.len() ==> #[trigger] undisputed(all, i),
    ensures
        contradiction_warnings(all, n).len() == 0,
    decreases n,
{
    if n > 0 {
        lemma_no_warnings(all, n - 1);
        let keys = entry_keys(all);
        lemma_first_position(keys, n - 1);
        let f = first_position(keys, n - 1);
        assert(keys[f] == keys[n - 1]);
        assert(undisputed(all, n - 1));
        assert(path_key_text(all[f].path) == path_key_text(all[n - 1].path));
        assert(!contradicts(all, n - 1));
    }
}

/// A file is told of as one that no manifest lists exactly if it is one to look
/// at and no action starts where it is or leads there; where only files that
/// share a name are renamed, none is.
pub proof fn law_orphans(
    all: Seq<EntryView>,
    options: PlanOptions,
    disk: DiskView,
    p: PathView,
)
    ensures
        plan(all, options, disk).orphans.contains(p) <==> !options.only_dupes && exists|i: int|
            0 <= i < disk.walk.len() && (#[trigger] disk.walk[i]).location() == p && passes(
                disk.walk[i].path,
                disk.walk[i].is_file,
                options.all_files,
            ) && forall|k: int|
                0 <= k < plan(all, options, disk).actions.len() ==> path_key_text(
                    (#[trigger] plan(all, options, disk).actions[k]).src,
                ) != path_key_text(p) && (plan(all, options, disk).actions[k].dst matches Some(d)
                    ==> path_key_text(d) != path_key_text(p)),
{
    let actions = plan(all, options, disk).actions;
    law_orphans_are_files_without_action(disk.walk, actions, options.all_files, p);
    lemma_covered(actions, p);
    if !options.only_dupes {
        if orphans_of(disk.walk, actions, options.all_files).contains(p) {
            let i = choose|i: int|
                0 <= i < disk.walk.len() && crate::plan::is_orphan(
                    #[trigger] disk.walk[i],
                    actions,
                    options.all_files,
                ) && disk.walk[i].location() == p;
            assert(disk.walk[i].location() == p);
        }
    }
}

pub proof fn lemma_covered(actions: Seq<ActionView>, p: PathView)
    ensures
        covered(actions, key_bytes(p)) <==> !(forall|k: int|
            0 <= k < actions.len() ==> path_key_text((#[trigger] actions[k]).src)
                != path_key_text(p) && (actions[k].dst matches Some(d) ==> path_key_text(d) != path_key_text(p))),
{
    if covered(actions, key_bytes(p)) {
        let k = choose|k: int|
            0 <= k < actions.len() && (key_bytes((#[trigger] actions[k]).src) == key_bytes(p) || (
            actions[k].dst matches Some(dst) && key_bytes(dst) == key_bytes(p)));
        if key_bytes(actions[k].src) == key_bytes(p) {
            lemma_text_bytes_injective(path_key_text(actions[k].src), path_key_text(p));
        } else {
            lemma_text_bytes_injective(path_key_text(actions[k].dst->0), path_key_text(p));
        }
    }
}

} // verus!
