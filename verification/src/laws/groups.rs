//! Laws of groups: which files that share a name count as copies of one another,
//! which are ambiguous, and what a check tells of them.

use vstd::prelude::*;
use vstd::utf8::*;
use crate::check::{
    duplicate_groups,
    group_at,
    group_keys,
    group_name,
    groups_that,
    name_keys,
    one_size,
    shared_names,
    GroupView,
};
use crate::disk::{kept_files, WalkView};
use crate::entries::ambiguous_members;
use crate::hashfile::name_key_text;
use crate::index::{
    distinct,
    lemma_distinct_keys,
    lemma_positions,
    lemma_text_bytes_injective,
    positions_of,
};
use crate::laws::checks::{
    is_member,
    law_members_of_a_group_share_a_name,
    law_no_collision_is_missed,
    lemma_distinct_len,
    lemma_file_member,
    lemma_found_group,
    lemma_group_at,
    lemma_group_found,
    lemma_member_source,
    lemma_shared_len,
};
use crate::laws::components::{bytes_before, law_keys_of_bytes};
use crate::laws::listings::{law_kept_files, lemma_arranged};
use crate::names::{hash_suffixed, passes};
use crate::order::{lex_less, sort_order};
use crate::path::{bytes_key, file_name, file_stem, sort_key, sort_keys, PathView};
use crate::text::is_hex_byte;

verus! {

broadcast use vstd::seq_lib::group_seq_properties;

/// Sizes are one size exactly if there are any, and any two of them are known and
/// equal.
pub proof fn law_one_size(sizes: Seq<Option<u64>>)
    ensures
        one_size(sizes) <==> sizes.len() > 0 && forall|i: int, j: int|
            0 <= i < sizes.len() && 0 <= j < sizes.len() ==> #[trigger] sizes[i] is Some
                && sizes[i] == #[trigger] sizes[j],
{
    if one_size(sizes) {
        assert forall|i: int, j: int|
            0 <= i < sizes.len() && 0 <= j < sizes.len() implies #[trigger] sizes[i] is Some
            && sizes[i] == #[trigger] sizes[j] by {
            assert(sizes[i] == sizes[0] && sizes[j] == sizes[0]);
        }
    }
    if sizes.len() > 0 && forall|i: int, j: int|
        0 <= i < sizes.len() && 0 <= j < sizes.len() ==> #[trigger] sizes[i] is Some && sizes[i]
            == #[trigger] sizes[j] {
        assert(sizes[0] is Some);
        assert(one_size(sizes));
    }
}

/// A name carries a hash exactly if its stem is text that ends in an underscore
/// and sixteen hexadecimal digits.
pub proof fn law_hash_suffix(p: PathView)
    ensures
        hash_suffixed(p) <==> file_stem(p) is Some && valid_utf8(file_stem(p)->0) && exists|
            head: Seq<u8>,
            digits: Seq<u8>,
        |
            #![trigger head.push(0x5fu8) + digits]
            file_stem(p)->0 == head.push(0x5fu8) + digits && digits.len() == 16 && forall|i: int|
                0 <= i < 16 ==> {
                    ||| 0x30 <= #[trigger] digits[i] <= 0x39
                    ||| 0x41 <= digits[i] <= 0x46
                    ||| 0x61 <= digits[i] <= 0x66
                },
{
    if hash_suffixed(p) {
        let stem = file_stem(p)->0;
        let n = stem.len() as int;
        let head = stem.take(n - 17);
        let digits = stem.skip(n - 16);
        assert(stem =~= head.push(0x5fu8) + digits);
        assert forall|i: int| 0 <= i < 16 implies is_hex_byte(#[trigger] digits[i]) by {
            assert(digits[i] == stem[n - 16 + i]);
        }
    }
    if exists|head: Seq<u8>, digits: Seq<u8>|
        #![trigger head.push(0x5fu8) + digits]
        file_stem(p) == Some(head.push(0x5fu8) + digits) && digits.len() == 16 && forall|i: int|
            0 <= i < 16 ==> is_hex_byte(#[trigger] digits[i]) {
        let (head, digits) = choose|head: Seq<u8>, digits: Seq<u8>|
            #![trigger head.push(0x5fu8) + digits]
            file_stem(p) == Some(head.push(0x5fu8) + digits) && digits.len() == 16 && forall|i: int|
                0 <= i < 16 ==> is_hex_byte(#[trigger] digits[i]);
        let stem = file_stem(p)->0;
        let n = stem.len() as int;
        assert forall|i: int| n - 16 <= i < n implies is_hex_byte(#[trigger] stem[i]) by {
            assert(stem[i] == digits[i - (n - 16)]);
        }
    }
}

/// A group counts as copies exactly if its name carries a hash and any two of its
/// members have known sizes that are equal.
pub proof fn law_copies_have_one_size(files: Seq<WalkView>, g: int)
    requires
        files.len() <= usize::MAX,
        0 <= g < duplicate_groups(files).len(),
    ensures
        duplicate_groups(files)[g].sizes.len() == duplicate_groups(files)[g].members.len(),
        duplicate_groups(files)[g].benign <==> hash_suffixed(duplicate_groups(files)[g].members[0])
            && forall|i: int, j: int|
            0 <= i < duplicate_groups(files)[g].sizes.len() && 0 <= j < duplicate_groups(
                files,
            )[g].sizes.len() ==> #[trigger] duplicate_groups(files)[g].sizes[i] is Some
                && duplicate_groups(files)[g].sizes[i] == #[trigger] duplicate_groups(
                files,
            )[g].sizes[j],
{
    let key = lemma_found_group(files, g);
    lemma_group_at(files, key);
    law_one_size(duplicate_groups(files)[g].sizes);
}

/// The positions of the groups of a kind are exactly those at which such a group
/// stands, in order.
pub proof fn law_groups_that(groups: Seq<GroupView>, benign: bool, g: usize)
    requires
        groups.len() <= usize::MAX,
    ensures
        groups_that(groups, benign).contains(g) <==> g < groups.len() && groups[g as int].benign
            == benign,
        forall|i: int, j: int|
            0 <= i < j < groups_that(groups, benign).len() ==> (#[trigger] groups_that(
                groups,
                benign,
            )[i]) < (#[trigger] groups_that(groups, benign)[j]),
        groups_that(groups, benign).len() + groups_that(groups, !benign).len() == groups.len(),
        forall|i: int|
            0 <= i < groups_that(groups, benign).len() ==> (#[trigger] groups_that(
                groups,
                benign,
            )[i]) < groups.len(),
    decreases groups.len(),
{
    if groups.len() > 0 {
        let front = groups.drop_last();
        let before = groups_that(front, benign);
        let now = groups_that(groups, benign);
        law_groups_that(front, benign, g);
        let last = (groups.len() - 1) as usize;
        if now.contains(g) {
            let i = choose|i: int| 0 <= i < now.len() && now[i] == g;
            if i < before.len() {
                assert(before[i] == g);
                assert(before.contains(g));
            }
        }
        if g < groups.len() && groups[g as int].benign == benign {
            if g == last {
                assert(now[before.len() as int] == g);
            } else {
                assert(front[g as int] == groups[g as int]);
                assert(before.contains(g));
                let i = choose|i: int| 0 <= i < before.len() && before[i] == g;
                assert(now[i] == g);
            }
        }
    }
}

/// Two files that share a name are a finding of a check where their sizes differ
/// or one of them is not known.
pub proof fn law_different_sizes_are_found(files: Seq<WalkView>, i: int, j: int)
    requires
        files.len() <= usize::MAX,
        0 <= i < files.len(),
        0 <= j < files.len(),
        i != j,
        name_key_text(files[i].location()) == name_key_text(files[j].location()),
        files[i].size is None || files[i].size != files[j].size,
    ensures
        exists|g: usize|
            #[trigger] groups_that(duplicate_groups(files), false).contains(g)
                && duplicate_groups(files)[g as int].members.contains(files[i].location())
                && duplicate_groups(files)[g as int].members.contains(files[j].location()),
{
    let g = lemma_group_of_two(files, i, j);
    let found = duplicate_groups(files)[g];
    let m = choose|m: int| 0 <= m < found.members.len() && is_member(found, m, files[i]);
    let n = choose|n: int| 0 <= n < found.members.len() && is_member(found, n, files[j]);
    law_copies_have_one_size(files, g);
    assert(found.sizes[m] == files[i].size && found.sizes[n] == files[j].size);
    assert(!found.benign);
    lemma_groups_fit(files);
    law_groups_that(duplicate_groups(files), false, g as usize);
    assert(found.members[m] == files[i].location() && found.members[n] == files[j].location());
    assert(groups_that(duplicate_groups(files), false).contains(g as usize));
}

/// Two files that share a name are a finding of a check where no file of that name
/// carries a hash.
pub proof fn law_names_without_hash_are_found(files: Seq<WalkView>, i: int, j: int)
    requires
        files.len() <= usize::MAX,
        0 <= i < files.len(),
        0 <= j < files.len(),
        i != j,
        name_key_text(files[i].location()) == name_key_text(files[j].location()),
        forall|k: int|
            0 <= k < files.len() && name_key_text((#[trigger] files[k]).location())
                == name_key_text(files[i].location()) ==> !hash_suffixed(files[k].location()),
    ensures
        exists|g: usize|
            #[trigger] groups_that(duplicate_groups(files), false).contains(g)
                && duplicate_groups(files)[g as int].members.contains(files[i].location())
                && duplicate_groups(files)[g as int].members.contains(files[j].location()),
{
    let g = lemma_group_of_two(files, i, j);
    let found = duplicate_groups(files)[g];
    let m = choose|m: int| 0 <= m < found.members.len() && is_member(found, m, files[i]);
    let n = choose|n: int| 0 <= n < found.members.len() && is_member(found, n, files[j]);
    let key = name_keys(files)[i];
    let k = lemma_member_source(files, key, 0);
    lemma_text_bytes_injective(
        name_key_text(files[k].location()),
        name_key_text(files[i].location()),
    );
    assert(found.members[0] == files[k].location());
    law_copies_have_one_size(files, g);
    assert(!found.benign);
    lemma_groups_fit(files);
    law_groups_that(duplicate_groups(files), false, g as usize);
    assert(found.members[m] == files[i].location() && found.members[n] == files[j].location());
    assert(groups_that(duplicate_groups(files), false).contains(g as usize));
}

/// The group in which two files that share a name are found.
proof fn lemma_group_of_two(files: Seq<WalkView>, i: int, j: int) -> (g: int)
    requires
        files.len() <= usize::MAX,
        0 <= i < files.len(),
        0 <= j < files.len(),
        i != j,
        name_key_text(files[i].location()) == name_key_text(files[j].location()),
    ensures
        0 <= g < duplicate_groups(files).len(),
        duplicate_groups(files)[g] == group_at(
            files,
            positions_of(name_keys(files), name_keys(files)[i]),
        ),
        positions_of(name_keys(files), name_keys(files)[i]).len() >= 2,
        exists|m: int|
            0 <= m < duplicate_groups(files)[g].members.len() && is_member(
                duplicate_groups(files)[g],
                m,
                files[i],
            ),
        exists|m: int|
            0 <= m < duplicate_groups(files)[g].members.len() && is_member(
                duplicate_groups(files)[g],
                m,
                files[j],
            ),
{
    let names = name_keys(files);
    let key = names[i];
    assert(names[j] == key);
    lemma_positions(names, key);
    let at = positions_of(names, key);
    assert(at.contains(i as usize) && at.contains(j as usize));
    let a = choose|a: int| 0 <= a < at.len() && at[a] == i as usize;
    let b = choose|b: int| 0 <= b < at.len() && at[b] == j as usize;
    assert(a != b);
    lemma_group_at(files, key);
    let m = lemma_file_member(files, i);
    let n = lemma_file_member(files, j);
    let g = lemma_group_found(files, key);
    assert(is_member(duplicate_groups(files)[g], m, files[i]));
    assert(is_member(duplicate_groups(files)[g], n, files[j]));
    g
}

proof fn lemma_groups_fit(files: Seq<WalkView>)
    requires
        files.len() <= usize::MAX,
    ensures
        duplicate_groups(files).len() <= usize::MAX,
        shared_names(files, distinct(name_keys(files))).len() <= usize::MAX,
        duplicate_groups(files).len() == shared_names(files, distinct(name_keys(files))).len(),
{
    let groups = shared_names(files, distinct(name_keys(files)));
    lemma_shared_len(files, distinct(name_keys(files)));
    lemma_distinct_len(name_keys(files));
    lemma_arranged(groups, group_keys(groups));
}

/// A group holds every file of its name.
pub proof fn law_groups_are_complete(files: Seq<WalkView>, g: int, i: int)
    requires
        files.len() <= usize::MAX,
        0 <= g < duplicate_groups(files).len(),
        0 <= i < files.len(),
        name_key_text(files[i].location()) == name_key_text(duplicate_groups(files)[g].members[0]),
    ensures
        exists|m: int|
            0 <= m < duplicate_groups(files)[g].members.len() && #[trigger] is_member(
                duplicate_groups(files)[g],
                m,
                files[i],
            ),
{
    let key = lemma_found_group(files, g);
    lemma_group_at(files, key);
    let zero = lemma_member_source(files, key, 0);
    assert(name_keys(files)[zero] == key);
    assert(name_keys(files)[i] == key);
    let m = lemma_file_member(files, i);
    assert(is_member(duplicate_groups(files)[g], m, files[i]));
}

/// A group has no more members than there are files of its name: different files
/// are different members.
pub proof fn law_members_are_different_files(files: Seq<WalkView>, g: int)
    requires
        files.len() <= usize::MAX,
        0 <= g < duplicate_groups(files).len(),
        forall|i: int, j: int|
            0 <= i < j < files.len() ==> (#[trigger] files[i]).location() != (
            #[trigger] files[j]).location(),
    ensures
        duplicate_groups(files)[g].members.no_duplicates(),
{
    let key = lemma_found_group(files, g);
    let at = positions_of(name_keys(files), key);
    lemma_positions(name_keys(files), key);
    let paths = Seq::new(at.len(), |i: int| files[at[i] as int].location());
    assert forall|i: int, j: int|
        0 <= i < paths.len() && 0 <= j < paths.len() && i != j implies paths[i] != paths[j] by {
        if i < j {
            assert(at[i] < at[j]);
            assert(files[at[i] as int].location() != files[at[j] as int].location());
        } else {
            assert(at[j] < at[i]);
            assert(files[at[j] as int].location() != files[at[i] as int].location());
        }
    }
    lemma_arranged(paths, sort_keys(paths));
}

/// The members of a group come in the order of their paths.
pub proof fn law_members_are_sorted(files: Seq<WalkView>, g: int, i: int, j: int)
    requires
        files.len() <= usize::MAX,
        0 <= g < duplicate_groups(files).len(),
        0 <= i < j < duplicate_groups(files)[g].members.len(),
    ensures
        !lex_less(
            sort_key(duplicate_groups(files)[g].members[j]),
            sort_key(duplicate_groups(files)[g].members[i]),
        ),
{
    let key = lemma_found_group(files, g);
    let at = positions_of(name_keys(files), key);
    lemma_positions(name_keys(files), key);
    let paths = Seq::new(at.len(), |i: int| files[at[i] as int].location());
    let keys = sort_keys(paths);
    lemma_arranged(paths, keys);
    let (a, b) = (sort_order(keys)[i] as int, sort_order(keys)[j] as int);
    assert(keys[a] == sort_key(paths[a]));
    assert(keys[b] == sort_key(paths[b]));
}

/// The groups come in the order of their names.
pub proof fn law_groups_are_sorted(files: Seq<WalkView>, g: int, h: int)
    requires
        files.len() <= usize::MAX,
        0 <= g < h < duplicate_groups(files).len(),
    ensures
        file_name(duplicate_groups(files)[g].members[0]) is Some && file_name(
            duplicate_groups(files)[h].members[0],
        ) is Some ==> !bytes_before(
            file_name(duplicate_groups(files)[h].members[0])->0,
            file_name(duplicate_groups(files)[g].members[0])->0,
        ),
{
    let groups = shared_names(files, distinct(name_keys(files)));
    lemma_groups_fit(files);
    let keys = group_keys(groups);
    lemma_arranged(groups, keys);
    let (a, b) = (sort_order(keys)[g] as int, sort_order(keys)[h] as int);
    assert(keys[a] == bytes_key(group_name(groups[a])));
    assert(keys[b] == bytes_key(group_name(groups[b])));
    law_keys_of_bytes(group_name(groups[b]), group_name(groups[a]));
}

/// The keys of two groups.
proof fn lemma_shared_apart(files: Seq<WalkView>, keys: Seq<Seq<u8>>, g: int, h: int) -> (r: (
    int,
    int,
))
    requires
        0 <= g < h < shared_names(files, keys).len(),
    ensures
        0 <= r.0 < r.1 < keys.len(),
        positions_of(name_keys(files), keys[r.0]).len() >= 2,
        positions_of(name_keys(files), keys[r.1]).len() >= 2,
        shared_names(files, keys)[g] == group_at(files, positions_of(name_keys(files), keys[r.0])),
        shared_names(files, keys)[h] == group_at(files, positions_of(name_keys(files), keys[r.1])),
    decreases keys.len(),
{
    let front = keys.drop_last();
    let before = shared_names(files, front);
    if h < before.len() {
        let r = lemma_shared_apart(files, front, g, h);
        assert(keys[r.0] == front[r.0] && keys[r.1] == front[r.1]);
        r
    } else {
        let k = crate::laws::checks::lemma_shared_from(files, front, g);
        assert(keys[k] == front[k]);
        (k, keys.len() - 1)
    }
}

/// Files of one name are in one group: the names of two groups are different.
pub proof fn law_groups_have_different_names(files: Seq<WalkView>, g: int, h: int)
    requires
        files.len() <= usize::MAX,
        0 <= g < h < duplicate_groups(files).len(),
    ensures
        name_key_text(duplicate_groups(files)[g].members[0]) != name_key_text(
            duplicate_groups(files)[h].members[0],
        ),
{
    let names = name_keys(files);
    let keys = distinct(names);
    let groups = shared_names(files, keys);
    lemma_groups_fit(files);
    lemma_arranged(groups, group_keys(groups));
    lemma_distinct_keys(names);
    let order = sort_order(group_keys(groups));
    crate::order::lemma_sort_order(group_keys(groups));
    assert(crate::order::precedes(group_keys(groups), order[g], order[h]));
    crate::order::lemma_lex_irreflexive(group_keys(groups)[order[g] as int]);
    assert(order[g] != order[h]);
    let (a, b) = (order[g] as int, order[h] as int);
    let r = if a < b {
        lemma_shared_apart(files, keys, a, b)
    } else {
        lemma_shared_apart(files, keys, b, a)
    };
    let x = lemma_member_source(files, keys[r.0], 0);
    let y = lemma_member_source(files, keys[r.1], 0);
    assert(keys[r.0] != keys[r.1]);
    assert(names[x] != names[y]);
}

/// The files to rename, where only files that share a name are: the members of
/// the groups that do not count as copies.
pub proof fn law_ambiguous_members(groups: Seq<GroupView>, p: PathView)
    ensures
        ambiguous_members(groups).contains(p) <==> exists|g: int|
            0 <= g < groups.len() && !(#[trigger] groups[g]).benign && groups[g].members.contains(
                p,
            ),
    decreases groups.len(),
{
    if groups.len() > 0 {
        let front = groups.drop_last();
        let last = groups.last();
        let before = ambiguous_members(front);
        law_ambiguous_members(front, p);
        let now = ambiguous_members(groups);
        if now.contains(p) {
            let i = choose|i: int| 0 <= i < now.len() && now[i] == p;
            if i < before.len() {
                assert(before[i] == p);
                let g = choose|g: int|
                    0 <= g < front.len() && !(#[trigger] front[g]).benign
                        && front[g].members.contains(p);
                assert(groups[g] == front[g]);
            } else {
                assert(last.members[i - before.len()] == p);
                assert(!groups[groups.len() - 1].benign);
            }
        }
        if exists|g: int|
            0 <= g < groups.len() && !(#[trigger] groups[g]).benign && groups[g].members.contains(
                p,
            ) {
            let g = choose|g: int|
                0 <= g < groups.len() && !(#[trigger] groups[g]).benign
                    && groups[g].members.contains(p);
            if g < front.len() {
                assert(front[g] == groups[g]);
                assert(before.contains(p));
                let i = choose|i: int| 0 <= i < before.len() && before[i] == p;
                assert(now[i] == p);
            } else {
                let i = choose|i: int| 0 <= i < last.members.len() && last.members[i] == p;
                assert(now[before.len() + i] == p);
            }
        }
    }
}

/// The members of one more group come after those before it, unless it counts as
/// copies, which adds none.
pub proof fn law_ambiguous_members_add_up(groups: Seq<GroupView>, g: GroupView)
    ensures
        g.benign ==> ambiguous_members(groups.push(g)) == ambiguous_members(groups),
        !g.benign ==> ambiguous_members(groups.push(g)) == ambiguous_members(groups) + g.members,
        ambiguous_members(Seq::empty()).len() == 0,
{
    assert(groups.push(g).drop_last() =~= groups);
}

/// A check looks at the files of the walk that are to be looked at: any two of them
/// that share a name are in one group, and each member of a group is one of them.
pub proof fn law_checks_look_at_all_files(
    walk: Seq<WalkView>,
    all_files: bool,
    i: int,
    j: int,
)
    requires
        walk.len() <= usize::MAX,
        0 <= i < j < walk.len(),
        passes(walk[i].path, walk[i].is_file, all_files),
        passes(walk[j].path, walk[j].is_file, all_files),
        name_key_text(walk[i].location()) == name_key_text(walk[j].location()),
    ensures
        exists|g: int|
            0 <= g < duplicate_groups(kept_files(walk, all_files)).len() && (
            #[trigger] duplicate_groups(kept_files(walk, all_files))[g]).members.contains(
                walk[i].location(),
            ) && duplicate_groups(kept_files(walk, all_files))[g].members.contains(
                walk[j].location(),
            ),
{
    let files = kept_files(walk, all_files);
    law_kept_files(walk, all_files, walk[i]);
    let (a, b) = lemma_both_kept(walk, all_files, i, j);
    law_no_collision_is_missed(files, a, b);
}

/// Where two kept files stand among those that are.
proof fn lemma_both_kept(walk: Seq<WalkView>, all_files: bool, i: int, j: int) -> (r: (int, int))
    requires
        0 <= i < j < walk.len(),
        passes(walk[i].path, walk[i].is_file, all_files),
        passes(walk[j].path, walk[j].is_file, all_files),
    ensures
        0 <= r.0 < r.1 < kept_files(walk, all_files).len(),
        kept_files(walk, all_files)[r.0] == walk[i],
        kept_files(walk, all_files)[r.1] == walk[j],
    decreases walk.len(),
{
    let front = walk.drop_last();
    let before = kept_files(front, all_files);
    law_kept_files(front, all_files, walk.last());
    assert(front.push(walk.last()) =~= walk);
    if j < front.len() {
        lemma_both_kept(front, all_files, i, j)
    } else {
        law_kept_files(front, all_files, walk[i]);
        assert(front[i] == walk[i]);
        assert(before.contains(walk[i]));
        let a = choose|a: int| 0 <= a < before.len() && before[a] == walk[i];
        (a, before.len() as int)
    }
}

/// Each member of a group that a check finds is where a file of the walk is that is
/// to be looked at.
pub proof fn law_checks_look_at_no_other_files(
    walk: Seq<WalkView>,
    all_files: bool,
    g: int,
    m: int,
)
    requires
        walk.len() <= usize::MAX,
        0 <= g < duplicate_groups(kept_files(walk, all_files)).len(),
        0 <= m < duplicate_groups(kept_files(walk, all_files))[g].members.len(),
    ensures
        exists|i: int|
            0 <= i < walk.len() && passes(
                (#[trigger] walk[i]).path,
                walk[i].is_file,
                all_files,
            ) && is_member(duplicate_groups(kept_files(walk, all_files))[g], m, walk[i]),
{
    let files = kept_files(walk, all_files);
    law_kept_files(walk, all_files, arbitrary());
    law_members_of_a_group_share_a_name(files, g);
    let found = duplicate_groups(files)[g];
    let name = found.members[m];
    let k = choose|k: int| 0 <= k < files.len() && #[trigger] is_member(found, m, files[k]);
    law_kept_files(walk, all_files, files[k]);
    assert(files.contains(files[k]));
    let i = choose|i: int| 0 <= i < walk.len() && walk[i] == files[k];
    assert(is_member(found, m, walk[i]));
}

} // verus!
