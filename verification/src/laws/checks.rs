//! Laws of the search for files that share a name.

use vstd::prelude::*;
use vstd::utf8::*;
use crate::check::{
    duplicate_groups,
    group_at,
    group_keys,
    groups_that,
    name_keys,
    one_size,
    shared_names,
    GroupView,
};
use crate::disk::{digest_of, DigestView, WalkView};
use crate::entries::{ambiguous_members, dupe_entries, entries_for};
use crate::hashfile::{computed_entry, name_key_text, EntryView};
use crate::index::{
    distinct,
    lemma_distinct_keys,
    lemma_positions,
    lemma_text_bytes_injective,
    positions_of,
};
use crate::names::hash_suffixed;
use crate::order::{lemma_sort_order, sort_order};
use crate::path::{sort_keys, PathView};

verus! {

broadcast use vstd::seq_lib::group_seq_properties;

/// The member at `m` of the group is the file at `i`, with its size.
pub open spec fn is_member(g: GroupView, m: int, file: WalkView) -> bool {
    g.members[m] == file.location() && g.sizes[m] == file.size
}

/// The files that have the given key, in the order of their paths.
pub open spec fn member_order(files: Seq<WalkView>, key: Seq<u8>) -> Seq<usize> {
    let at = positions_of(name_keys(files), key);
    sort_order(sort_keys(Seq::new(at.len(), |i: int| files[at[i] as int].location())))
}

/// The group of the files with a key has as many members and sizes as there are
/// such files.
pub proof fn lemma_group_at(files: Seq<WalkView>, key: Seq<u8>)
    requires
        files.len() <= usize::MAX,
    ensures
        ({
            let at = positions_of(name_keys(files), key);
            let g = group_at(files, at);
            let order = member_order(files, key);
            &&& g.members.len() == at.len()
            &&& g.sizes.len() == at.len()
            &&& order.len() == at.len()
            &&& forall|m: int|
                0 <= m < at.len() ==> (#[trigger] order[m]) < at.len() && is_member(
                    g,
                    m,
                    files[at[order[m] as int] as int],
                )
            &&& forall|k: usize| k < at.len() ==> #[trigger] order.contains(k)
        }),
{
    let at = positions_of(name_keys(files), key);
    let paths = Seq::new(at.len(), |i: int| files[at[i] as int].location());
    lemma_positions(name_keys(files), key);
    lemma_sort_order(sort_keys(paths));
}

/// Each member of the group of a key is a file with that key.
pub proof fn lemma_member_source(files: Seq<WalkView>, key: Seq<u8>, m: int) -> (i: int)
    requires
        files.len() <= usize::MAX,
        0 <= m < positions_of(name_keys(files), key).len(),
    ensures
        0 <= i < files.len(),
        name_keys(files)[i] == key,
        is_member(group_at(files, positions_of(name_keys(files), key)), m, files[i]),
{
    let at = positions_of(name_keys(files), key);
    lemma_positions(name_keys(files), key);
    lemma_group_at(files, key);
    let o = member_order(files, key)[m];
    assert(at[o as int] < files.len());
    at[o as int] as int
}

/// Each file with a key is a member of the group of that key.
pub proof fn lemma_file_member(files: Seq<WalkView>, i: int) -> (m: int)
    requires
        files.len() <= usize::MAX,
        0 <= i < files.len(),
    ensures
        ({
            let at = positions_of(name_keys(files), name_keys(files)[i]);
            0 <= m < at.len() && is_member(group_at(files, at), m, files[i])
        }),
{
    let key = name_keys(files)[i];
    let at = positions_of(name_keys(files), key);
    lemma_positions(name_keys(files), key);
    lemma_group_at(files, key);
    let order = member_order(files, key);
    assert(at.contains(i as usize));
    let k = choose|k: int| 0 <= k < at.len() && at[k] == i as usize;
    assert(order.contains(k as usize));
    let m = choose|m: int| 0 <= m < order.len() && order[m] == k as usize;
    m
}

/// A group is that of a key which two or more files share.
pub proof fn lemma_shared_from(files: Seq<WalkView>, keys: Seq<Seq<u8>>, g: int) -> (k: int)
    requires
        0 <= g < shared_names(files, keys).len(),
    ensures
        0 <= k < keys.len(),
        positions_of(name_keys(files), keys[k]).len() >= 2,
        shared_names(files, keys)[g] == group_at(files, positions_of(name_keys(files), keys[k])),
    decreases keys.len(),
{
    let front = keys.drop_last();
    let before = shared_names(files, front);
    if g < before.len() {
        let k = lemma_shared_from(files, front, g);
        assert(keys[k] == front[k]);
        k
    } else {
        keys.len() - 1
    }
}

/// A key that two or more files share has a group.
proof fn lemma_shared_has(files: Seq<WalkView>, keys: Seq<Seq<u8>>, k: int) -> (g: int)
    requires
        0 <= k < keys.len(),
        positions_of(name_keys(files), keys[k]).len() >= 2,
    ensures
        0 <= g < shared_names(files, keys).len(),
        shared_names(files, keys)[g] == group_at(files, positions_of(name_keys(files), keys[k])),
    decreases keys.len(),
{
    let front = keys.drop_last();
    let before = shared_names(files, front);
    if k < front.len() {
        assert(front[k] == keys[k]);
        lemma_shared_has(files, front, k)
    } else {
        before.len() as int
    }
}

pub proof fn lemma_shared_len(files: Seq<WalkView>, keys: Seq<Seq<u8>>)
    ensures
        shared_names(files, keys).len() <= keys.len(),
    decreases keys.len(),
{
    if keys.len() > 0 {
        lemma_shared_len(files, keys.drop_last());
    }
}

/// A group that a search found is that of a key which two or more files share.
pub proof fn lemma_found_group(files: Seq<WalkView>, g: int) -> (key: Seq<u8>)
    requires
        files.len() <= usize::MAX,
        0 <= g < duplicate_groups(files).len(),
    ensures
        positions_of(name_keys(files), key).len() >= 2,
        duplicate_groups(files)[g] == group_at(files, positions_of(name_keys(files), key)),
{
    let names = name_keys(files);
    let keys = distinct(names);
    let groups = shared_names(files, keys);
    lemma_shared_len(files, keys);
    lemma_distinct_len(names);
    lemma_sort_order(group_keys(groups));
    let order = sort_order(group_keys(groups));
    assert(order[g] < groups.len());
    let k = lemma_shared_from(files, keys, order[g] as int);
    keys[k]
}

pub proof fn lemma_distinct_len(all: Seq<Seq<u8>>)
    ensures
        distinct(all).len() <= all.len(),
    decreases all.len(),
{
    if all.len() > 0 {
        lemma_distinct_len(all.drop_last());
    }
}

/// A group has two or more members, with as many sizes, and each member is a file
/// that was looked at, by the name that all of them share.
pub proof fn law_members_of_a_group_share_a_name(files: Seq<WalkView>, g: int)
    requires
        files.len() <= usize::MAX,
        0 <= g < duplicate_groups(files).len(),
    ensures
        duplicate_groups(files)[g].members.len() >= 2,
        duplicate_groups(files)[g].sizes.len() == duplicate_groups(files)[g].members.len(),
        forall|m: int|
            #![trigger duplicate_groups(files)[g].members[m]]
            0 <= m < duplicate_groups(files)[g].members.len() ==> name_key_text(
                duplicate_groups(files)[g].members[m],
            ) == name_key_text(duplicate_groups(files)[g].members[0]) && exists|i: int|
                0 <= i < files.len() && #[trigger] is_member(
                    duplicate_groups(files)[g],
                    m,
                    files[i],
                ),
{
    let key = lemma_found_group(files, g);
    lemma_group_at(files, key);
    let found = duplicate_groups(files)[g];
    let zero = lemma_member_source(files, key, 0);
    assert forall|m: int| #![trigger found.members[m]] 0 <= m < found.members.len() implies (
    name_key_text(found.members[m]) == name_key_text(found.members[0]) && exists|i: int|
        0 <= i < files.len() && #[trigger] is_member(found, m, files[i])) by {
        let i = lemma_member_source(files, key, m);
        assert(is_member(found, m, files[i]));
        lemma_text_bytes_injective(
            name_key_text(files[i].location()),
            name_key_text(files[zero].location()),
        );
    }
}

/// Any two files that share a name are in one group: no collision is missed.
pub proof fn law_no_collision_is_missed(files: Seq<WalkView>, i: int, j: int)
    requires
        files.len() <= usize::MAX,
        0 <= i < j < files.len(),
        name_key_text(files[i].location()) == name_key_text(files[j].location()),
    ensures
        exists|g: int|
            0 <= g < duplicate_groups(files).len() && (#[trigger] duplicate_groups(
                files,
            )[g]).members.contains(files[i].location()) && duplicate_groups(
                files,
            )[g].members.contains(files[j].location()),
{
    let names = name_keys(files);
    let key = names[i];
    assert(names[j] == key);
    lemma_positions(names, key);
    let at = positions_of(names, key);
    assert(at.contains(i as usize) && at.contains(j as usize));
    let a = choose|a: int| 0 <= a < at.len() && at[a] == i as usize;
    let b = choose|b: int| 0 <= b < at.len() && at[b] == j as usize;
    assert(a != b);
    assert(at.len() >= 2);
    let group = group_at(files, at);
    let m = lemma_file_member(files, i);
    let n = lemma_file_member(files, j);
    lemma_group_at(files, key);
    assert(group.members[m] == files[i].location());
    assert(group.members[n] == files[j].location());
    assert(group.members.contains(files[i].location()));
    assert(group.members.contains(files[j].location()));
    let g = lemma_group_found(files, key);
    assert(duplicate_groups(files)[g].members.contains(files[i].location()));
}

/// The group of a key that two or more files share is found.
pub proof fn lemma_group_found(files: Seq<WalkView>, key: Seq<u8>) -> (g: int)
    requires
        files.len() <= usize::MAX,
        positions_of(name_keys(files), key).len() >= 2,
    ensures
        0 <= g < duplicate_groups(files).len(),
        duplicate_groups(files)[g] == group_at(files, positions_of(name_keys(files), key)),
{
    let names = name_keys(files);
    let keys = distinct(names);
    lemma_positions(names, key);
    assert(names[positions_of(names, key)[0] as int] == key);
    lemma_distinct_keys(names);
    lemma_distinct_len(names);
    assert(names.contains(key));
    assert(keys.contains(key));
    let k = choose|k: int| 0 <= k < keys.len() && keys[k] == key;
    let groups = shared_names(files, keys);
    lemma_shared_len(files, keys);
    let c = lemma_shared_has(files, keys, k);
    lemma_sort_order(group_keys(groups));
    let order = sort_order(group_keys(groups));
    assert(order.contains(c as usize));
    let g = choose|g: int| 0 <= g < order.len() && order[g] == c as usize;
    g
}

pub proof fn lemma_groups_that_none(groups: Seq<GroupView>)
    requires
        forall|g: int| 0 <= g < groups.len() ==> (#[trigger] groups[g]).benign,
    ensures
        groups_that(groups, false).len() == 0,
        ambiguous_members(groups).len() == 0,
    decreases groups.len(),
{
    if groups.len() > 0 {
        let front = groups.drop_last();
        assert forall|g: int| 0 <= g < front.len() implies (#[trigger] front[g]).benign by {
            assert(front[g] == groups[g]);
        }
        lemma_groups_that_none(front);
        assert(groups[groups.len() - 1].benign);
    }
}

/// A group is benign whose files all carry a hash in their names and have one
/// known size.
pub proof fn lemma_benign_group(files: Seq<WalkView>, key: Seq<u8>)
    requires
        files.len() <= usize::MAX,
        positions_of(name_keys(files), key).len() >= 2,
        forall|i: int|
            0 <= i < files.len() && #[trigger] name_keys(files)[i] == key ==> hash_suffixed(
                files[i].location(),
            ) && files[i].size is Some,
        forall|i: int, j: int|
            0 <= i < files.len() && 0 <= j < files.len() && #[trigger] name_keys(files)[i] == key
                && #[trigger] name_keys(files)[j] == key ==> files[i].size == files[j].size,
    ensures
        group_at(files, positions_of(name_keys(files), key)).benign,
{
    lemma_group_at(files, key);
    let found = group_at(files, positions_of(name_keys(files), key));
    let zero = lemma_member_source(files, key, 0);
    assert forall|m: int| 0 <= m < found.sizes.len() implies #[trigger] found.sizes[m]
        == found.sizes[0] && found.sizes[m] is Some by {
        let i = lemma_member_source(files, key, m);
        assert(name_keys(files)[i] == name_keys(files)[zero]);
    }
    assert(one_size(found.sizes));
}

/// Where files that share a name carry a hash in it and have one known size, a
/// check finds nothing, and there is nothing left to rename.
pub proof fn law_hashed_names_are_clean(files: Seq<WalkView>)
    requires
        files.len() <= usize::MAX,
        forall|i: int, j: int|
            0 <= i < files.len() && 0 <= j < files.len() && i != j && name_key_text(
                (#[trigger] files[i]).location(),
            ) == name_key_text((#[trigger] files[j]).location()) ==> hash_suffixed(
                files[i].location(),
            ) && files[i].size is Some && files[i].size == files[j].size,
    ensures
        groups_that(duplicate_groups(files), false).len() == 0,
        ambiguous_members(duplicate_groups(files)).len() == 0,
{
    let groups = duplicate_groups(files);
    let names = name_keys(files);
    assert forall|g: int| 0 <= g < groups.len() implies (#[trigger] groups[g]).benign by {
        let key = lemma_found_group(files, g);
        lemma_positions(names, key);
        let at = positions_of(names, key);
        let a = at[0] as int;
        let b = at[1] as int;
        assert(at[0] < at[1]);
        assert(names[a] == key && names[b] == key);
        assert forall|i: int| 0 <= i < files.len() && #[trigger] names[i] == key implies (
        hash_suffixed(files[i].location()) && files[i].size is Some) by {
            let j = if i == a {
                b
            } else {
                a
            };
            lemma_text_bytes_injective(
                name_key_text(files[i].location()),
                name_key_text(files[j].location()),
            );
            assert(name_key_text(files[i].location()) == name_key_text(files[j].location()));
        }
        assert forall|i: int, j: int|
            0 <= i < files.len() && 0 <= j < files.len() && #[trigger] names[i] == key
                && #[trigger] names[j] == key implies files[i].size == files[j].size by {
            lemma_text_bytes_injective(
                name_key_text(files[i].location()),
                name_key_text(files[j].location()),
            );
            assert(i == j || name_key_text(files[i].location()) == name_key_text(
                files[j].location(),
            ));
        }
        lemma_benign_group(files, key);
    }
    lemma_groups_that_none(groups);
}

// ---------------------------------------------------------------------------
// Renaming only files that share a name
// ---------------------------------------------------------------------------

/// An entry for the member `p`: one of the manifest for its path or, where there
/// is none, one with the hash that was computed for it.
pub open spec fn is_entry_for(
    e: EntryView,
    p: PathView,
    manifest: Seq<EntryView>,
    digests: Seq<DigestView>,
) -> bool {
    ||| entries_for(manifest, p).contains(e)
    ||| entries_for(manifest, p).len() == 0 && (digest_of(digests, p) matches Some(Ok(hash)) && e
        == computed_entry(p, hash))
}

/// Where only files that share a name are to be renamed, every entry is for one
/// of them. A hash is computed only for a file that no manifest covers.
pub proof fn law_only_duplicates_are_taken(
    members: Seq<PathView>,
    manifest: Seq<EntryView>,
    digests: Seq<DigestView>,
    found: Seq<EntryView>,
    k: int,
)
    requires
        dupe_entries(members, manifest, digests) == Ok::<Seq<EntryView>, Seq<char>>(found),
        0 <= k < found.len(),
    ensures
        exists|m: int|
            0 <= m < members.len() && is_entry_for(
                found[k],
                #[trigger] members[m],
                manifest,
                digests,
            ),
    decreases members.len(),
{
    let front = members.drop_last();
    let p = members.last();
    let before = dupe_entries(front, manifest, digests)->Ok_0;
    let hits = entries_for(manifest, p);
    if k < before.len() {
        law_only_duplicates_are_taken(front, manifest, digests, before, k);
        let m = choose|m: int|
            0 <= m < front.len() && is_entry_for(before[k], #[trigger] front[m], manifest, digests);
        assert(found[k] == before[k]);
        assert(is_entry_for(found[k], members[m], manifest, digests));
    } else {
        if hits.len() > 0 {
            assert(found[k] == hits[k - before.len()]);
            assert(hits.contains(found[k]));
        }
        assert(is_entry_for(found[k], members[members.len() - 1], manifest, digests));
    }
}

/// Each of the files that share a name has an entry.
pub proof fn law_all_duplicates_are_taken(
    members: Seq<PathView>,
    manifest: Seq<EntryView>,
    digests: Seq<DigestView>,
    found: Seq<EntryView>,
    m: int,
)
    requires
        dupe_entries(members, manifest, digests) == Ok::<Seq<EntryView>, Seq<char>>(found),
        0 <= m < members.len(),
    ensures
        exists|k: int|
            0 <= k < found.len() && is_entry_for(
                #[trigger] found[k],
                members[m],
                manifest,
                digests,
            ),
    decreases members.len(),
{
    let front = members.drop_last();
    let p = members.last();
    let before = dupe_entries(front, manifest, digests)->Ok_0;
    let hits = entries_for(manifest, p);
    if m < front.len() {
        assert(front[m] == members[m]);
        law_all_duplicates_are_taken(front, manifest, digests, before, m);
        let k = choose|k: int|
            0 <= k < before.len() && is_entry_for(
                #[trigger] before[k],
                front[m],
                manifest,
                digests,
            );
        assert(found[k] == before[k]);
        assert(is_entry_for(found[k], members[m], manifest, digests));
    } else {
        let k = before.len() as int;
        if hits.len() > 0 {
            assert(found[k] == hits[0]);
            assert(hits.contains(found[k]));
        }
        assert(is_entry_for(found[k], members[m], manifest, digests));
    }
}

} // verus!
