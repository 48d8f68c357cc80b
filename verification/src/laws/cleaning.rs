//! Laws of renaming only files that share a name: a check then finds nothing.

use vstd::prelude::*;
use vstd::utf8::*;
use crate::check::{duplicate_groups, group_at, groups_that, name_keys, GroupView};
use crate::disk::{DigestView, DiskView, WalkView};
use crate::entries::{ambiguous_members, dupe_entries, entries_for};
use crate::hashfile::{entry_keys, name_key_text, path_key_text, EntryView};
use crate::index::{lemma_positions, lemma_text_bytes_injective, positions_of, text_bytes};
use crate::laws::checks::{
    is_entry_for,
    is_member,
    law_all_duplicates_are_taken,
    law_only_duplicates_are_taken,
    lemma_benign_group,
    lemma_file_member,
    lemma_found_group,
    lemma_group_at,
    lemma_group_found,
    lemma_groups_that_none,
    lemma_member_source,
};
use crate::laws::names::{
    hash_suffix,
    law_target_carries_hash,
    law_target_keeps_place_and_extension,
    lemma_hash_suffix,
    lemma_suffixed_name,
    nameable,
};
use crate::laws::plans::{called_for, law_one_action_for_each_path, law_renames_are_called_for};
use crate::names::{suffixed_name, target};
use crate::path::{extension_of, file_name, last_position, stem_of, PathView};
use crate::path_facts::{lemma_file_name, lemma_last_position, lemma_last_position_is};
use crate::plan::{action_for, counts, goal, key_bytes, planned_actions, ActionView, PlanOptions};
use crate::text::{
    ascii_lower,
    ascii_lower_char,
    is_hash_text,
    is_upper_hex_char,
    lower_byte,
    same_ignoring_ascii_case,
};

verus! {

broadcast use vstd::seq_lib::group_seq_properties;

// ---------------------------------------------------------------------------
// Keys of new names
// ---------------------------------------------------------------------------

pub open spec fn ascii_bytes(b: Seq<u8>) -> bool {
    forall|i: int| 0 <= i < b.len() ==> #[trigger] b[i] < 0x80
}

/// Names of which it is known how they look in lower case, where names are
/// compared so.
pub open spec fn plainly_cased(p: PathView) -> bool {
    p.platform.ignores_case() ==> file_name(p) is Some && ascii_bytes(file_name(p)->0)
}

/// Plain bytes are text, character by character.
pub proof fn lemma_ascii_decoded(b: Seq<u8>)
    requires
        ascii_bytes(b),
    ensures
        valid_utf8(b),
        is_ascii_chars(decode_utf8(b)),
        decode_utf8(b).len() == b.len(),
        forall|i: int| 0 <= i < b.len() ==> #[trigger] decode_utf8(b)[i] == b[i] as char,
{
    let t = Seq::new(b.len(), |i: int| b[i] as char);
    assert forall|i: int| 0 <= i < t.len() implies '\0' <= #[trigger] t[i] <= '\u{7f}' by {
        assert(b[i] < 0x80);
    }
    is_ascii_chars_encode_utf8(t);
    assert(encode_utf8(t) =~= b) by {
        assert forall|i: int| 0 <= i < b.len() implies encode_utf8(t)[i] == b[i] by {
            assert(t[i] as u8 == encode_utf8(t)[i]);
        }
    }
    encode_utf8_valid_utf8(t);
    encode_utf8_decode_utf8(t);
}

/// Plain bytes with one form in lower case are the same but for case.
proof fn lemma_same_lower_form(a: Seq<u8>, b: Seq<u8>)
    requires
        ascii_bytes(a),
        ascii_bytes(b),
        ascii_lower(decode_utf8(a)) == ascii_lower(decode_utf8(b)),
    ensures
        same_ignoring_ascii_case(a, b),
{
    lemma_ascii_decoded(a);
    lemma_ascii_decoded(b);
    let s = decode_utf8(a);
    let t = decode_utf8(b);
    assert(ascii_lower(s).len() == ascii_lower(t).len());
    assert forall|i: int| 0 <= i < a.len() implies lower_byte(#[trigger] a[i]) == lower_byte(
        b[i],
    ) by {
        assert(ascii_lower(s)[i] == ascii_lower(t)[i]);
        assert(ascii_lower_char(s[i]) == ascii_lower_char(t[i]));
        assert(a[i] < 0x80 && b[i] < 0x80);
        assert(s[i] == a[i] as char && t[i] == b[i] as char);
    }
}

/// Names that are the same but for case have their last dot at the same place.
proof fn lemma_same_dot(a: Seq<u8>, b: Seq<u8>)
    requires
        same_ignoring_ascii_case(a, b),
    ensures
        last_position(a, 0x2e) == last_position(b, 0x2e),
        stem_of(a).len() == stem_of(b).len(),
{
    lemma_last_position(a, 0x2e);
    lemma_last_position(b, 0x2e);
    let dot = last_position(a, 0x2e);
    if dot >= 0 {
        assert(lower_byte(a[dot]) == lower_byte(b[dot]));
    }
    assert forall|k: int| dot < k < b.len() implies #[trigger] b[k] != 0x2e by {
        assert(lower_byte(a[k]) == lower_byte(b[k]));
        assert(a[k] != 0x2e);
    }
    lemma_last_position_is(b, 0x2e, dot);
}

/// A name with a hash in it is text, and plain where the name was.
proof fn lemma_new_name(p: PathView, hash: Seq<char>)
    requires
        nameable(p),
        is_hash_text(hash),
    ensures
        ({
            let new = suffixed_name(file_name(p)->0, hash_suffix(hash));
            &&& file_name(target(p, hash, "_"@)) == Some(new)
            &&& target(p, hash, "_"@).platform == p.platform
            &&& valid_utf8(new)
            &&& ascii_bytes(file_name(p)->0) ==> ascii_bytes(new)
        }),
{
    let name = file_name(p)->0;
    let suffix = hash_suffix(hash);
    let new = suffixed_name(name, suffix);
    assert forall|i: int| 0 <= i < 16 implies crate::text::is_hex_char(#[trigger] hash[i]) by {
        assert(is_upper_hex_char(hash[i]));
    }
    law_target_keeps_place_and_extension(p, hash);
    lemma_hash_suffix(hash);
    valid_utf8_concat(stem_of(name), suffix);
    if extension_of(name) is Some {
        let e = extension_of(name)->0;
        let dot = seq![0x2eu8];
        lemma_ascii_decoded(dot);
        valid_utf8_concat(stem_of(name) + suffix, dot);
        valid_utf8_concat(stem_of(name) + suffix + dot, e);
        assert(new =~= stem_of(name) + suffix + dot + e);
    }
    if ascii_bytes(name) {
        lemma_last_position(name, 0x2e);
        assert(forall|i: int| 1 <= i < 17 ==> crate::text::is_hex_byte(#[trigger] suffix[i]));
        let stem = stem_of(name);
        assert forall|i: int| 0 <= i < new.len() implies #[trigger] new[i] < 0x80 by {
            if i < stem.len() {
                assert(new[i] == stem[i] && stem[i] == name[i]);
            } else if i < stem.len() + 17 {
                assert(new[i] == suffix[i - stem.len()]);
                if i > stem.len() {
                    assert(crate::text::is_hex_byte(suffix[i - stem.len()]));
                }
            } else if i > stem.len() + 17 {
                let e = extension_of(name)->0;
                assert(new[i] == e[i - stem.len() - 18]);
                assert(new[i] == name[i - 17]);
            }
        }
    }
}

/// New names that differ only in case hold the same hash.
proof fn lemma_same_hash(p: PathView, p_hash: Seq<char>, q: PathView, q_hash: Seq<char>)
    requires
        nameable(p),
        nameable(q),
        is_hash_text(p_hash),
        is_hash_text(q_hash),
        same_ignoring_ascii_case(
            suffixed_name(file_name(p)->0, hash_suffix(p_hash)),
            suffixed_name(file_name(q)->0, hash_suffix(q_hash)),
        ),
    ensures
        p_hash == q_hash,
{
    let a = file_name(p)->0;
    let b = file_name(q)->0;
    let x = suffixed_name(a, hash_suffix(p_hash));
    let y = suffixed_name(b, hash_suffix(q_hash));
    assert forall|i: int| 0 <= i < 16 implies crate::text::is_hex_char(#[trigger] p_hash[i]) by {
        assert(is_upper_hex_char(p_hash[i]));
    }
    assert forall|i: int| 0 <= i < 16 implies crate::text::is_hex_char(#[trigger] q_hash[i]) by {
        assert(is_upper_hex_char(q_hash[i]));
    }
    lemma_file_name(p);
    lemma_file_name(q);
    lemma_suffixed_name(a, p_hash);
    lemma_suffixed_name(b, q_hash);
    lemma_hash_suffix(p_hash);
    lemma_hash_suffix(q_hash);
    lemma_same_dot(x, y);
    let n = stem_of(a).len() as int;
    assert(stem_of(b).len() == n);
    is_ascii_chars_encode_utf8(p_hash);
    is_ascii_chars_encode_utf8(q_hash);
    assert forall|i: int| 0 <= i < 16 implies p_hash[i] == q_hash[i] by {
        let u = hash_suffix(p_hash)[i + 1];
        let v = hash_suffix(q_hash)[i + 1];
        assert(u == encode_utf8(p_hash)[i] && v == encode_utf8(q_hash)[i]);
        assert(p_hash[i] as u8 == u && q_hash[i] as u8 == v);
        assert(stem_of(x)[n + 1 + i] == u && stem_of(y)[n + 1 + i] == v);
        assert(x[n + 1 + i] == u && y[n + 1 + i] == v);
        assert(lower_byte(x[n + 1 + i]) == lower_byte(y[n + 1 + i]));
        assert(is_upper_hex_char(p_hash[i]) && is_upper_hex_char(q_hash[i]));
    }
    assert(p_hash =~= q_hash);
}

/// Files whose new names are taken for the same have the same hash.
pub proof fn law_shared_new_names_mean_shared_hashes(
    p: PathView,
    p_hash: Seq<char>,
    q: PathView,
    q_hash: Seq<char>,
)
    requires
        nameable(p),
        nameable(q),
        p.platform == q.platform,
        is_hash_text(p_hash),
        is_hash_text(q_hash),
        plainly_cased(p),
        plainly_cased(q),
        name_key_text(target(p, p_hash, "_"@)) == name_key_text(target(q, q_hash, "_"@)),
    ensures
        p_hash == q_hash,
{
    lemma_new_name(p, p_hash);
    lemma_new_name(q, q_hash);
    let x = suffixed_name(file_name(p)->0, hash_suffix(p_hash));
    let y = suffixed_name(file_name(q)->0, hash_suffix(q_hash));
    if p.platform.ignores_case() {
        lemma_ascii_decoded(x);
        lemma_ascii_decoded(y);
        lemma_same_lower_form(x, y);
    } else {
        decode_utf8_encode_utf8(x);
        decode_utf8_encode_utf8(y);
        assert(x == y);
        assert(same_ignoring_ascii_case(x, y));
    }
    lemma_same_hash(p, p_hash, q, q_hash);
}

// ---------------------------------------------------------------------------
// Which files are renamed
// ---------------------------------------------------------------------------

proof fn lemma_ambiguous(groups: Seq<GroupView>, g: int, m: int)
    requires
        0 <= g < groups.len(),
        !groups[g].benign,
        0 <= m < groups[g].members.len(),
    ensures
        ambiguous_members(groups).contains(groups[g].members[m]),
    decreases groups.len(),
{
    let front = groups.drop_last();
    let before = ambiguous_members(front);
    let all = ambiguous_members(groups);
    if g < front.len() {
        assert(front[g] == groups[g]);
        lemma_ambiguous(front, g, m);
        let k = choose|k: int| 0 <= k < before.len() && before[k] == groups[g].members[m];
        assert(all[k] == groups[g].members[m]);
    } else {
        assert(all[before.len() + m] == groups[g].members[m]);
    }
}

proof fn lemma_ambiguous_source(groups: Seq<GroupView>, k: int) -> (found: (int, int))
    requires
        0 <= k < ambiguous_members(groups).len(),
    ensures
        0 <= found.0 < groups.len(),
        !groups[found.0].benign,
        0 <= found.1 < groups[found.0].members.len(),
        groups[found.0].members[found.1] == ambiguous_members(groups)[k],
    decreases groups.len(),
{
    let front = groups.drop_last();
    let before = ambiguous_members(front);
    if k < before.len() {
        let found = lemma_ambiguous_source(front, k);
        assert(front[found.0] == groups[found.0]);
        found
    } else {
        (groups.len() - 1, k - before.len())
    }
}

/// The file shares its name with others and the group is not benign.
pub open spec fn is_ambiguous(files: Seq<WalkView>, i: int) -> bool {
    ambiguous_members(duplicate_groups(files)).contains(files[i].location())
}

/// Whether a file is to be renamed is up to the group of its name.
proof fn lemma_is_ambiguous(files: Seq<WalkView>, i: int)
    requires
        files.len() <= usize::MAX,
        0 <= i < files.len(),
    ensures
        ({
            let at = positions_of(name_keys(files), name_keys(files)[i]);
            is_ambiguous(files, i) <==> at.len() >= 2 && !group_at(files, at).benign
        }),
{
    let groups = duplicate_groups(files);
    let members = ambiguous_members(groups);
    let key = name_keys(files)[i];
    let at = positions_of(name_keys(files), key);
    if at.len() >= 2 && !group_at(files, at).benign {
        let g = lemma_group_found(files, key);
        let m = lemma_file_member(files, i);
        lemma_group_at(files, key);
        assert(is_member(group_at(files, at), m, files[i]));
        lemma_ambiguous(groups, g, m);
    }
    if is_ambiguous(files, i) {
        let k = choose|k: int| 0 <= k < members.len() && members[k] == files[i].location();
        let found = lemma_ambiguous_source(groups, k);
        let other = lemma_found_group(files, found.0);
        lemma_group_at(files, other);
        let j = lemma_member_source(files, other, found.1);
        assert(files[j].location() == files[i].location());
        assert(name_keys(files)[j] == name_keys(files)[i]);
    }
}

// ---------------------------------------------------------------------------
// After the renaming
// ---------------------------------------------------------------------------

/// Every file that shares its name ambiguously went where its hash leads it; the
/// others stayed where they were.
pub open spec fn duplicates_renamed(
    before: Seq<WalkView>,
    hashes: Seq<Seq<char>>,
    after: Seq<WalkView>,
) -> bool {
    &&& before.len() == after.len()
    &&& before.len() == hashes.len()
    &&& forall|i: int|
        #![trigger after[i]]
        0 <= i < before.len() ==> after[i].size == before[i].size && after[i].location() == (
        if is_ambiguous(before, i) {
            target(before[i].location(), hashes[i], "_"@)
        } else {
            before[i].location()
        })
}

/// The files at `i` and `j` have one hash, or get names that are taken for one
/// without its being known how they look in lower case.
pub open spec fn taken_for_one(
    before: Seq<WalkView>,
    hashes: Seq<Seq<char>>,
    i: int,
    j: int,
) -> bool {
    let p = before[i].location();
    let q = before[j].location();
    hashes[i] == hashes[j] || (!(plainly_cased(p) && plainly_cased(q)) && name_key_text(
        target(p, hashes[i], "_"@),
    ) == name_key_text(target(q, hashes[j], "_"@)))
}

/// The files that are renamed can be named, have known sizes and hashes, and
/// files that are taken for one have one size.
pub open spec fn well_hashed(before: Seq<WalkView>, hashes: Seq<Seq<char>>) -> bool {
    &&& forall|i: int|
        #![trigger before[i]]
        0 <= i < before.len() && is_ambiguous(before, i) ==> {
            &&& nameable(before[i].location())
            &&& before[i].location().platform == before[0].location().platform
            &&& is_hash_text(hashes[i])
            &&& before[i].size is Some
        }
    &&& forall|i: int, j: int|
        #![trigger before[i], before[j]]
        0 <= i < before.len() && 0 <= j < before.len() && is_ambiguous(before, i) && is_ambiguous(
            before,
            j,
        ) && taken_for_one(before, hashes, i, j) ==> before[i].size == before[j].size
}

/// No new name was in use.
pub open spec fn new_names_are_free(before: Seq<WalkView>, hashes: Seq<Seq<char>>) -> bool {
    forall|i: int, j: int|
        #![trigger before[i], before[j]]
        0 <= i < before.len() && 0 <= j < before.len() && is_ambiguous(before, i) ==> name_key_text(
            target(before[i].location(), hashes[i], "_"@),
        ) != name_key_text(before[j].location())
}

proof fn lemma_same_positions(a: Seq<Seq<u8>>, b: Seq<Seq<u8>>, key: Seq<u8>)
    requires
        a.len() == b.len(),
        forall|k: int| 0 <= k < a.len() ==> (#[trigger] a[k] == key <==> b[k] == key),
    ensures
        positions_of(a, key) == positions_of(b, key),
    decreases a.len(),
{
    if a.len() > 0 {
        let x = a.drop_last();
        let y = b.drop_last();
        assert forall|k: int| 0 <= k < x.len() implies (#[trigger] x[k] == key <==> y[k]
            == key) by {
            assert(a[k] == key <==> b[k] == key);
        }
        lemma_same_positions(x, y, key);
        assert(a[a.len() - 1] == key <==> b[b.len() - 1] == key);
    }
}

/// Files that share a new name are copies of one another.
proof fn lemma_renamed_group(
    before: Seq<WalkView>,
    hashes: Seq<Seq<char>>,
    after: Seq<WalkView>,
    key: Seq<u8>,
    i: int,
)
    requires
        before.len() <= usize::MAX,
        duplicates_renamed(before, hashes, after),
        well_hashed(before, hashes),
        new_names_are_free(before, hashes),
        positions_of(name_keys(after), key).len() >= 2,
        0 <= i < after.len(),
        name_keys(after)[i] == key,
        is_ambiguous(before, i),
    ensures
        group_at(after, positions_of(name_keys(after), key)).benign,
{
    let names = name_keys(after);
    assert(after[i].location() == target(before[i].location(), hashes[i], "_"@));
    assert forall|j: int| 0 <= j < after.len() && #[trigger] names[j] == key implies is_ambiguous(
        before,
        j,
    ) && before[j].size == before[i].size && after[j].size
        == before[j].size && after[j].location() == target(
        before[j].location(),
        hashes[j],
        "_"@,
    ) by {
        lemma_text_bytes_injective(
            name_key_text(after[i].location()),
            name_key_text(after[j].location()),
        );
        assert(before[i] == before[i] && before[j] == before[j]);
        if !is_ambiguous(before, j) {
            assert(after[j].location() == before[j].location());
            assert(false);
        }
        let p = before[i].location();
        let q = before[j].location();
        if plainly_cased(p) && plainly_cased(q) {
            law_shared_new_names_mean_shared_hashes(p, hashes[i], q, hashes[j]);
        }
        assert(taken_for_one(before, hashes, i, j));
    }
    assert forall|j: int| 0 <= j < after.len() && #[trigger] names[j] == key implies (
    crate::names::hash_suffixed(after[j].location()) && after[j].size is Some) by {
        assert(before[j] == before[j]);
        assert(is_ambiguous(before, j));
        assert forall|m: int| 0 <= m < 16 implies crate::text::is_hex_char(
            #[trigger] hashes[j][m],
        ) by {
            assert(is_upper_hex_char(hashes[j][m]));
        }
        law_target_carries_hash(before[j].location(), hashes[j]);
    }
    lemma_benign_group(after, key);
}

/// Files that share an old name did so before, and were copies of one another.
proof fn lemma_old_group(
    before: Seq<WalkView>,
    hashes: Seq<Seq<char>>,
    after: Seq<WalkView>,
    key: Seq<u8>,
)
    requires
        before.len() <= usize::MAX,
        duplicates_renamed(before, hashes, after),
        positions_of(name_keys(after), key).len() >= 2,
        forall|i: int|
            0 <= i < after.len() && #[trigger] name_keys(after)[i] == key ==> !is_ambiguous(
                before,
                i,
            ),
    ensures
        group_at(after, positions_of(name_keys(after), key)).benign,
{
    let names = name_keys(before);
    let now = name_keys(after);
    let at = positions_of(now, key);
    lemma_positions(now, key);
    let i = at[0] as int;
    assert(now[i] == key);
    assert(after[i].location() == before[i].location());
    assert(names[i] == key);
    lemma_is_ambiguous(before, i);
    assert forall|k: int| 0 <= k < now.len() implies (#[trigger] now[k] == key <==> names[k]
        == key) by {
        assert(after[k] == after[k]);
        lemma_is_ambiguous(before, k);
        if is_ambiguous(before, k) {
            if names[k] == key {
                assert(is_ambiguous(before, i));
            }
        }
    }
    lemma_same_positions(now, names, key);
    assert forall|k: int| 0 <= k < at.len() implies after[(#[trigger] at[k]) as int].location()
        == before[at[k] as int].location() && after[at[k] as int].size
        == before[at[k] as int].size by {
        assert(now[at[k] as int] == key);
    }
    let paths = Seq::new(at.len(), |i: int| before[at[i] as int].location());
    let sizes = Seq::new(at.len(), |i: int| before[at[i] as int].size);
    assert(Seq::new(at.len(), |i: int| after[at[i] as int].location()) =~= paths);
    assert(Seq::new(at.len(), |i: int| after[at[i] as int].size) =~= sizes);
    assert(group_at(after, at) == group_at(before, at));
}

/// Once every file that shared its name ambiguously went where its hash leads
/// it, and no new name was in use before, a check finds nothing more to rename.
pub proof fn law_renaming_duplicates_leaves_none(
    before: Seq<WalkView>,
    hashes: Seq<Seq<char>>,
    after: Seq<WalkView>,
)
    requires
        before.len() <= usize::MAX,
        duplicates_renamed(before, hashes, after),
        well_hashed(before, hashes),
        new_names_are_free(before, hashes),
    ensures
        groups_that(duplicate_groups(after), false).len() == 0,
        ambiguous_members(duplicate_groups(after)).len() == 0,
{
    let groups = duplicate_groups(after);
    let names = name_keys(after);
    assert forall|g: int| 0 <= g < groups.len() implies (#[trigger] groups[g]).benign by {
        let key = lemma_found_group(after, g);
        if exists|i: int|
            0 <= i < after.len() && #[trigger] names[i] == key && is_ambiguous(before, i) {
            let i = choose|i: int|
                0 <= i < after.len() && #[trigger] names[i] == key && is_ambiguous(before, i);
            lemma_renamed_group(before, hashes, after, key, i);
        } else {
            lemma_old_group(before, hashes, after, key);
        }
    }
    lemma_groups_that_none(groups);
}

// ---------------------------------------------------------------------------
// A run that renames only files that share a name
// ---------------------------------------------------------------------------

/// Paths that are taken for one are one: those of the members, and those of the
/// manifest that are taken for the path of a member.
pub open spec fn keys_tell_paths_apart(
    members: Seq<PathView>,
    manifest: Seq<EntryView>,
) -> bool {
    &&& forall|m: int, n: int|
        #![trigger members[m], members[n]]
        0 <= m < members.len() && 0 <= n < members.len() && path_key_text(members[m])
            == path_key_text(members[n]) ==> members[m] == members[n]
    &&& forall|e: int, m: int|
        #![trigger manifest[e], members[m]]
        0 <= e < manifest.len() && 0 <= m < members.len() && path_key_text(manifest[e].path)
            == path_key_text(members[m]) ==> manifest[e].path == members[m]
}

/// An entry for a member has the path of the member.
proof fn lemma_entry_path(
    members: Seq<PathView>,
    m: int,
    manifest: Seq<EntryView>,
    digests: Seq<DigestView>,
    e: EntryView,
)
    requires
        manifest.len() <= usize::MAX,
        keys_tell_paths_apart(members, manifest),
        0 <= m < members.len(),
        is_entry_for(e, members[m], manifest, digests),
    ensures
        e.path == members[m],
{
    let p = members[m];
    let hits = entries_for(manifest, p);
    if hits.contains(e) {
        let keys = text_bytes(entry_keys(manifest));
        let at = positions_of(keys, key_bytes(p));
        lemma_positions(keys, key_bytes(p));
        let k = choose|k: int| 0 <= k < hits.len() && hits[k] == e;
        let i = at[k] as int;
        assert(keys[i] == key_bytes(p));
        assert(manifest[i] == e);
        lemma_text_bytes_injective(path_key_text(manifest[i].path), path_key_text(p));
    }
}

/// The action at `k` renames what is at `p`.
pub open spec fn renames_at(actions: Seq<ActionView>, k: int, p: PathView) -> bool {
    &&& 0 <= k < actions.len()
    &&& actions[k].is_rename()
    &&& actions[k].src == p
    &&& actions[k].dst is Some
}

/// Where a file is after a run.
pub open spec fn carried(actions: Seq<ActionView>, p: PathView) -> PathView {
    if exists|k: int| renames_at(actions, k, p) {
        actions[choose|k: int| renames_at(actions, k, p)].dst->0
    } else {
        p
    }
}

/// The hashes by which a run renames the files.
pub open spec fn given_hashes(files: Seq<WalkView>, actions: Seq<ActionView>) -> Seq<Seq<char>> {
    Seq::new(
        files.len(),
        |i: int| actions[choose|k: int| renames_at(actions, k, files[i].location())].hash,
    )
}

/// A rename is of a member, to the target that the hash leads it to.
proof fn lemma_rename_of_member(
    members: Seq<PathView>,
    manifest: Seq<EntryView>,
    digests: Seq<DigestView>,
    found: Seq<EntryView>,
    options: PlanOptions,
    disk: DiskView,
    k: int,
)
    requires
        manifest.len() <= usize::MAX,
        keys_tell_paths_apart(members, manifest),
        dupe_entries(members, manifest, digests) == Ok::<Seq<EntryView>, Seq<char>>(found),
        0 <= k < planned_actions(found, options, disk).len(),
        planned_actions(found, options, disk)[k].is_rename(),
    ensures
        ({
            let a = planned_actions(found, options, disk)[k];
            members.contains(a.src) && a.dst == Some(target(a.src, a.hash, "_"@))
        }),
{
    law_renames_are_called_for(found, options, disk, k);
    let a = planned_actions(found, options, disk)[k];
    let j = choose|j: int|
        0 <= j < found.len() && #[trigger] counts(found, j) && called_for(found[j], options, disk)
            && a == action_for(found[j], Some(goal(found[j])), "rename"@, ""@);
    law_only_duplicates_are_taken(members, manifest, digests, found, j);
    let m = choose|m: int|
        0 <= m < members.len() && is_entry_for(found[j], #[trigger] members[m], manifest, digests);
    lemma_entry_path(members, m, manifest, digests, found[j]);
    assert(members[m] == a.src);
}

/// Where every action of a run is a rename, each member is renamed.
proof fn lemma_member_is_renamed(
    members: Seq<PathView>,
    manifest: Seq<EntryView>,
    digests: Seq<DigestView>,
    found: Seq<EntryView>,
    options: PlanOptions,
    disk: DiskView,
    m: int,
) -> (k: int)
    requires
        manifest.len() <= usize::MAX,
        keys_tell_paths_apart(members, manifest),
        dupe_entries(members, manifest, digests) == Ok::<Seq<EntryView>, Seq<char>>(found),
        forall|k: int|
            0 <= k < planned_actions(found, options, disk).len() ==> (#[trigger] planned_actions(
                found,
                options,
                disk,
            )[k]).is_rename(),
        0 <= m < members.len(),
    ensures
        renames_at(planned_actions(found, options, disk), k, members[m]),
{
    let actions = planned_actions(found, options, disk);
    law_all_duplicates_are_taken(members, manifest, digests, found, m);
    let j = choose|j: int|
        0 <= j < found.len() && is_entry_for(#[trigger] found[j], members[m], manifest, digests);
    lemma_entry_path(members, m, manifest, digests, found[j]);
    law_one_action_for_each_path(found, options, disk);
    assert(found[j] == found[j]);
    let k = choose|k: int|
        0 <= k < actions.len() && path_key_text((#[trigger] actions[k]).src) == path_key_text(
            found[j].path,
        );
    assert(actions[k].is_rename());
    lemma_rename_of_member(members, manifest, digests, found, options, disk, k);
    let n = choose|n: int| 0 <= n < members.len() && members[n] == actions[k].src;
    assert(members[n] == members[m]);
    k
}

/// A run that renames only files that share a name, and in which every action is
/// a rename, leaves a check nothing to find.
pub proof fn law_runs_on_duplicates_leave_none(
    before: Seq<WalkView>,
    manifest: Seq<EntryView>,
    digests: Seq<DigestView>,
    found: Seq<EntryView>,
    options: PlanOptions,
    disk: DiskView,
    after: Seq<WalkView>,
)
    requires
        before.len() <= usize::MAX,
        manifest.len() <= usize::MAX,
        ({
            let members = ambiguous_members(duplicate_groups(before));
            &&& keys_tell_paths_apart(members, manifest)
            &&& dupe_entries(members, manifest, digests) == Ok::<Seq<EntryView>, Seq<char>>(found)
        }),
        forall|k: int|
            0 <= k < planned_actions(found, options, disk).len() ==> (#[trigger] planned_actions(
                found,
                options,
                disk,
            )[k]).is_rename(),
        after.len() == before.len(),
        forall|i: int|
            #![trigger after[i]]
            0 <= i < before.len() ==> after[i].size == before[i].size && after[i].location()
                == carried(planned_actions(found, options, disk), before[i].location()),
        well_hashed(before, given_hashes(before, planned_actions(found, options, disk))),
        new_names_are_free(before, given_hashes(before, planned_actions(found, options, disk))),
    ensures
        groups_that(duplicate_groups(after), false).len() == 0,
        ambiguous_members(duplicate_groups(after)).len() == 0,
{
    let members = ambiguous_members(duplicate_groups(before));
    let actions = planned_actions(found, options, disk);
    let hashes = given_hashes(before, actions);
    assert forall|i: int| #![trigger after[i]] 0 <= i < before.len() implies after[i].size
        == before[i].size && after[i].location() == (if is_ambiguous(before, i) {
        target(before[i].location(), hashes[i], "_"@)
    } else {
        before[i].location()
    }) by {
        let p = before[i].location();
        if is_ambiguous(before, i) {
            let m = choose|m: int| 0 <= m < members.len() && members[m] == p;
            let some = lemma_member_is_renamed(
                members,
                manifest,
                digests,
                found,
                options,
                disk,
                m,
            );
            assert(renames_at(actions, some, p));
            let k = choose|k: int| renames_at(actions, k, p);
            assert(renames_at(actions, k, p));
            lemma_rename_of_member(members, manifest, digests, found, options, disk, k);
            assert(hashes[i] == actions[k].hash);
        } else if exists|k: int| renames_at(actions, k, p) {
            let k = choose|k: int| renames_at(actions, k, p);
            lemma_rename_of_member(members, manifest, digests, found, options, disk, k);
            assert(false);
        }
    }
    law_renaming_duplicates_leaves_none(before, hashes, after);
}

} // verus!
