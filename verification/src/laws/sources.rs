//! Laws of sources: which entries a renaming goes by, where only files that share
//! a name are to be renamed.

use vstd::prelude::*;
use vstd::utf8::*;
use crate::disk::{digest_of, DigestView, DiskView};
use crate::entries::{chosen_course, dupe_entries, entries_for, uncovered};
use crate::hashfile::{computed_entry, entry_keys, path_key_text, EntryView};
use crate::index::{lemma_text_bytes_injective, positions_of, text_bytes};
use crate::laws::listings::lemma_filter;
use crate::laws::plans::law_contradicted_paths_are_not_renamed;
use crate::path::PathView;
use crate::plan::{key_bytes, plan, PlanOptions};

verus! {

broadcast use vstd::seq_lib::group_seq_properties;

/// The entries for a path are all those of the manifest with its key, each as often
/// as the manifest has it and in its order.
pub proof fn law_entries_of_a_path(manifest: Seq<EntryView>, p: PathView)
    requires
        manifest.len() <= usize::MAX,
    ensures
        entries_for(manifest, p) == manifest.filter(
            |e: EntryView| path_key_text(e.path) == path_key_text(p),
        ),
    decreases manifest.len(),
{
    reveal(Seq::filter);
    let pred = |e: EntryView| path_key_text(e.path) == path_key_text(p);
    let keys = text_bytes(entry_keys(manifest));
    if manifest.len() == 0 {
        assert(entries_for(manifest, p) =~= manifest.filter(pred));
    } else {
        let front = manifest.drop_last();
        law_entries_of_a_path(front, p);
        assert(keys.drop_last() =~= text_bytes(entry_keys(front)));
        assert(keys.last() == encode_utf8(path_key_text(manifest.last().path)));
        let before = positions_of(keys.drop_last(), key_bytes(p));
        crate::index::lemma_positions(keys.drop_last(), key_bytes(p));
        assert forall|i: int| 0 <= i < before.len() implies front[(#[trigger] before[i]) as int]
            == manifest[before[i] as int] by {
        }
        if keys.last() == key_bytes(p) {
            lemma_text_bytes_injective(path_key_text(manifest.last().path), path_key_text(p));
            assert(entries_for(manifest, p) =~= entries_for(front, p).push(manifest.last()));
        } else {
            assert(entries_for(manifest, p) =~= entries_for(front, p));
        }
    }
}

/// A file is to be hashed exactly if it is one of the members and no entry of the
/// manifest has its key.
pub proof fn law_uncovered_files(members: Seq<PathView>, manifest: Seq<EntryView>, p: PathView)
    requires
        manifest.len() <= usize::MAX,
    ensures
        uncovered(members, manifest).contains(p) <==> members.contains(p) && forall|i: int|
            0 <= i < manifest.len() ==> path_key_text((#[trigger] manifest[i]).path)
                != path_key_text(p),
        members.no_duplicates() ==> uncovered(members, manifest).no_duplicates(),
{
    let pred = |q: PathView| entries_for(manifest, q).len() == 0;
    lemma_filter(members, pred, p);
    lemma_covered_by(manifest, p);
}

/// A path has entries exactly if some entry of the manifest has its key.
pub proof fn lemma_covered_by(manifest: Seq<EntryView>, p: PathView)
    requires
        manifest.len() <= usize::MAX,
    ensures
        entries_for(manifest, p).len() == 0 <==> forall|i: int|
            0 <= i < manifest.len() ==> path_key_text((#[trigger] manifest[i]).path)
                != path_key_text(p),
        forall|i: int|
            0 <= i < manifest.len() && path_key_text((#[trigger] manifest[i]).path)
                == path_key_text(p) ==> entries_for(manifest, p).contains(manifest[i]),
        forall|e: EntryView| #[trigger]
            entries_for(manifest, p).contains(e) ==> manifest.contains(e) && path_key_text(e.path)
                == path_key_text(p),
{
    let pred = |e: EntryView| path_key_text(e.path) == path_key_text(p);
    law_entries_of_a_path(manifest, p);
    let hits = entries_for(manifest, p);
    assert forall|i: int|
        0 <= i < manifest.len() && path_key_text((#[trigger] manifest[i]).path) == path_key_text(
            p,
        ) implies hits.contains(manifest[i]) by {
        lemma_filter(manifest, pred, manifest[i]);
    }
    assert forall|e: EntryView| #[trigger] hits.contains(e) implies manifest.contains(e)
        && path_key_text(e.path) == path_key_text(p) by {
        lemma_filter(manifest, pred, e);
    }
    if hits.len() > 0 {
        assert(hits.contains(hits[0]));
        assert(manifest.contains(hits[0]));
    }
}

/// Every entry of the manifest for a file that shares its name is taken: none that
/// differs from another is lost.
pub proof fn law_all_entries_of_duplicates_are_taken(
    members: Seq<PathView>,
    manifest: Seq<EntryView>,
    digests: Seq<DigestView>,
    found: Seq<EntryView>,
    m: int,
    i: int,
)
    requires
        manifest.len() <= usize::MAX,
        dupe_entries(members, manifest, digests) == Ok::<Seq<EntryView>, Seq<char>>(found),
        0 <= m < members.len(),
        0 <= i < manifest.len(),
        path_key_text(manifest[i].path) == path_key_text(members[m]),
    ensures
        found.contains(manifest[i]),
    decreases members.len(),
{
    let front = members.drop_last();
    let p = members.last();
    let before = dupe_entries(front, manifest, digests)->Ok_0;
    let hits = entries_for(manifest, p);
    if m < front.len() {
        assert(front[m] == members[m]);
        law_all_entries_of_duplicates_are_taken(front, manifest, digests, before, m, i);
        let k = choose|k: int| 0 <= k < before.len() && before[k] == manifest[i];
        assert(found[k] == manifest[i]);
    } else {
        lemma_covered_by(manifest, p);
        assert(hits.contains(manifest[i]));
        let k = choose|k: int| 0 <= k < hits.len() && hits[k] == manifest[i];
        assert(found[before.len() + k] == manifest[i]);
    }
}

/// Every entry that is taken is for one of the files that share a name. It is one of
/// the manifest; or no entry of the manifest is for that file, and it has the hash
/// that was computed for the file, and says so.
pub proof fn law_every_entry_has_a_source(
    members: Seq<PathView>,
    manifest: Seq<EntryView>,
    digests: Seq<DigestView>,
    found: Seq<EntryView>,
    k: int,
)
    requires
        manifest.len() <= usize::MAX,
        dupe_entries(members, manifest, digests) == Ok::<Seq<EntryView>, Seq<char>>(found),
        0 <= k < found.len(),
    ensures
        exists|m: int|
            0 <= m < members.len() && path_key_text(found[k].path) == path_key_text(
                #[trigger] members[m],
            ) && {
                ||| manifest.contains(found[k])
                ||| {
                    &&& forall|i: int|
                        0 <= i < manifest.len() ==> path_key_text((#[trigger] manifest[i]).path)
                            != path_key_text(members[m])
                    &&& found[k].path == members[m]
                    &&& found[k].computed
                    &&& digest_of(digests, members[m]) == Some(
                        Ok::<Seq<char>, Seq<char>>(found[k].hash),
                    )
                }
            },
    decreases members.len(),
{
    let front = members.drop_last();
    let p = members.last();
    let before = dupe_entries(front, manifest, digests)->Ok_0;
    let hits = entries_for(manifest, p);
    if k < before.len() {
        law_every_entry_has_a_source(front, manifest, digests, before, k);
        assert(found[k] == before[k]);
        let m = choose|m: int|
            0 <= m < front.len() && path_key_text(before[k].path) == path_key_text(
                #[trigger] front[m],
            ) && {
                ||| manifest.contains(before[k])
                ||| {
                    &&& forall|i: int|
                        0 <= i < manifest.len() ==> path_key_text((#[trigger] manifest[i]).path)
                            != path_key_text(front[m])
                    &&& before[k].path == front[m]
                    &&& before[k].computed
                    &&& digest_of(digests, front[m]) == Some(
                        Ok::<Seq<char>, Seq<char>>(before[k].hash),
                    )
                }
            };
        assert(front[m] == members[m]);
    } else {
        lemma_covered_by(manifest, p);
        assert(members[members.len() - 1] == p);
        if hits.len() > 0 {
            assert(found[k] == hits[k - before.len()]);
            assert(hits.contains(found[k]));
        }
    }
}

/// Some entry of the manifest is for the path, or the file was hashed.
pub open spec fn accounted_for(
    p: PathView,
    manifest: Seq<EntryView>,
    digests: Seq<DigestView>,
) -> bool {
    ||| exists|i: int|
        0 <= i < manifest.len() && path_key_text((#[trigger] manifest[i]).path) == path_key_text(p)
    ||| digest_of(digests, p) is Some && digest_of(digests, p)->0 is Ok
}

/// There are entries exactly if each file that no manifest covers could be hashed.
pub proof fn law_hashing_decides(
    members: Seq<PathView>,
    manifest: Seq<EntryView>,
    digests: Seq<DigestView>,
)
    requires
        manifest.len() <= usize::MAX,
    ensures
        dupe_entries(members, manifest, digests) is Ok <==> forall|m: int|
            0 <= m < members.len() ==> accounted_for(#[trigger] members[m], manifest, digests),
    decreases members.len(),
{
    if members.len() > 0 {
        let front = members.drop_last();
        let p = members.last();
        law_hashing_decides(front, manifest, digests);
        lemma_covered_by(manifest, p);
        assert(members[members.len() - 1] == p);
        if dupe_entries(members, manifest, digests) is Ok {
            assert forall|m: int| 0 <= m < members.len() implies accounted_for(
                #[trigger] members[m],
                manifest,
                digests,
            ) by {
                if m < front.len() {
                    assert(front[m] == members[m]);
                }
            }
        }
        if forall|m: int|
            0 <= m < members.len() ==> accounted_for(#[trigger] members[m], manifest, digests) {
            assert forall|m: int| 0 <= m < front.len() implies accounted_for(
                #[trigger] front[m],
                manifest,
                digests,
            ) by {
                assert(front[m] == members[m]);
            }
            assert(accounted_for(p, manifest, digests));
        }
    }
}

/// What is taken for the members one by one is what is taken for all of them.
pub proof fn law_members_are_taken_one_by_one(
    members: Seq<PathView>,
    p: PathView,
    manifest: Seq<EntryView>,
    digests: Seq<DigestView>,
)
    ensures
        dupe_entries(members.push(p), manifest, digests) == (match (
            dupe_entries(members, manifest, digests),
            dupe_entries(seq![p], manifest, digests),
        ) {
            (Ok(before), Ok(more)) => Ok::<Seq<EntryView>, Seq<char>>(before + more),
            (Err(why), _) => Err::<Seq<EntryView>, Seq<char>>(why),
            (_, Err(why)) => Err::<Seq<EntryView>, Seq<char>>(why),
        }),
{
    assert(members.push(p).drop_last() =~= members);
    assert(seq![p].drop_last() =~= Seq::<PathView>::empty());
    let none = Seq::<EntryView>::empty();
    assert(dupe_entries(seq![p].drop_last(), manifest, digests) == Ok::<Seq<EntryView>, Seq<char>>(
        none,
    ));
    let hits = entries_for(manifest, p);
    assert(none + hits =~= hits);
    match dupe_entries(members, manifest, digests) {
        Ok(before) => {
            if hits.len() == 0 {
                if let Some(Ok(hash)) = digest_of(digests, p) {
                    let e = computed_entry(p, hash);
                    assert(before.push(e) =~= before + none.push(e));
                }
            }
        },
        Err(_) => {},
    }
}

/// For one member: all entries of the manifest with its key, in the order of the
/// manifest, where there are any; else the one with the hash that was computed.
pub proof fn law_one_member(
    p: PathView,
    manifest: Seq<EntryView>,
    digests: Seq<DigestView>,
)
    requires
        manifest.len() <= usize::MAX,
    ensures
        (exists|i: int|
            0 <= i < manifest.len() && path_key_text((#[trigger] manifest[i]).path)
                == path_key_text(p)) ==> dupe_entries(seq![p], manifest, digests) == Ok::<
            Seq<EntryView>,
            Seq<char>,
        >(manifest.filter(|e: EntryView| path_key_text(e.path) == path_key_text(p))),
        (forall|i: int|
            0 <= i < manifest.len() ==> path_key_text((#[trigger] manifest[i]).path)
                != path_key_text(p)) ==> (match dupe_entries(seq![p], manifest, digests) {
            Ok(found) => found.len() == 1 && found[0].path == p && found[0].computed && digest_of(
                digests,
                p,
            ) == Some(Ok::<Seq<char>, Seq<char>>(found[0].hash)),
            Err(why) => digest_of(digests, p) == Some(Err::<Seq<char>, Seq<char>>(why))
                || digest_of(digests, p) is None && why == "content was not read"@,
        }),
{
    law_entries_of_a_path(manifest, p);
    lemma_covered_by(manifest, p);
    assert(seq![p].drop_last() =~= Seq::<PathView>::empty());
    let none = Seq::<EntryView>::empty();
    assert(dupe_entries(seq![p].drop_last(), manifest, digests) == Ok::<Seq<EntryView>, Seq<char>>(
        none,
    ));
    assert(none + entries_for(manifest, p) =~= entries_for(manifest, p));
}

/// A file that shares its name and that the manifest lists with two hashes is not
/// renamed: the contradiction reaches the plan.
pub proof fn law_contradicted_duplicates_are_conflicts(
    members: Seq<PathView>,
    manifest: Seq<EntryView>,
    digests: Seq<DigestView>,
    found: Seq<EntryView>,
    options: PlanOptions,
    disk: DiskView,
    m: int,
    i: int,
    j: int,
    k: int,
)
    requires
        manifest.len() <= usize::MAX,
        dupe_entries(members, manifest, digests) == Ok::<Seq<EntryView>, Seq<char>>(found),
        0 <= m < members.len(),
        0 <= i < manifest.len(),
        0 <= j < manifest.len(),
        path_key_text(manifest[i].path) == path_key_text(members[m]),
        path_key_text(manifest[j].path) == path_key_text(members[m]),
        manifest[i].hash != manifest[j].hash,
        0 <= k < plan(found, options, disk).actions.len(),
        path_key_text(plan(found, options, disk).actions[k].src) == path_key_text(members[m]),
    ensures
        plan(found, options, disk).actions[k].status == "conflict"@,
        plan(found, options, disk).actions[k].dst is None,
{
    law_all_entries_of_duplicates_are_taken(members, manifest, digests, found, m, i);
    law_all_entries_of_duplicates_are_taken(members, manifest, digests, found, m, j);
    let a = choose|a: int| 0 <= a < found.len() && found[a] == manifest[i];
    let b = choose|b: int| 0 <= b < found.len() && found[b] == manifest[j];
    law_contradicted_paths_are_not_renamed(found, options, disk, a, b, k);
}

/// Files are renamed exactly if there are entries and it was not asked to only tell
/// what would be. Without entries nothing is planned, whatever was asked; then what
/// is missing are names that occur twice, where only those were to be renamed.
pub proof fn law_courses(any: bool, only_dupes: bool, dry_run: bool)
    ensures
        chosen_course(any, only_dupes, dry_run) is Apply <==> any && !dry_run,
        chosen_course(any, only_dupes, dry_run) is DryRun <==> any && dry_run,
        chosen_course(any, only_dupes, dry_run) is NoDuplicates <==> !any && only_dupes,
        chosen_course(any, only_dupes, dry_run) is NoEntries <==> !any && !only_dupes,
{
}

} // verus!
