//! Laws of plans for several files: what is told of contradictions and of files
//! that would collide, what a plan asks of the disk, and in what order things come.

use vstd::prelude::*;
use vstd::utf8::*;
use crate::disk::{DiskView, WalkView};
use crate::hashfile::{entry_keys, path_key_text, EntryView};
use crate::index::{
    first_position,
    lemma_first_position,
    lemma_first_position_is,
    lemma_text_bytes_injective,
};
use crate::laws::plans::{lemma_contradiction_exists, lemma_sources, lemma_statuses, sources};
use crate::laws::statuses::{comes_first, lemma_undisputed_counts, to_be_renamed, undisputed};
use crate::names::{passes, suffixed_with, target};
use crate::path::{file_stem, path_text, PathView};
use crate::plan::{
    contradiction_action,
    contradiction_warning,
    contradiction_warnings,
    contradictions,
    contradicts,
    counts,
    draft,
    entry_action,
    entry_actions,
    goal,
    key_bytes,
    orphans_of,
    plan,
    planned_actions,
    reconciled,
    rename_targets,
    rivals,
    same_path,
    settled_by_name,
    ActionView,
    PlanOptions,
    RenameOperation,
};
use crate::probes::{hash_wishes, probes};
use crate::text::{decimal_text, same_ignoring_ascii_case};

verus! {

broadcast use vstd::seq_lib::group_seq_properties;

/// An entry counts exactly if no earlier one is for its path and none for its path
/// has another hash.
pub proof fn lemma_counts(all: Seq<EntryView>, i: int)
    requires
        0 <= i < all.len(),
    ensures
        counts(all, i) <==> undisputed(all, i) && comes_first(all, i),
{
    let keys = entry_keys(all);
    if counts(all, i) {
        lemma_first_position(keys, i);
        assert forall|j: int| 0 <= j < i implies path_key_text((#[trigger] all[j]).path)
            != path_key_text(all[i].path) by {
            assert(keys[j] != keys[i]);
        }
        assert forall|j: int|
            0 <= j < all.len() && path_key_text((#[trigger] all[j]).path) == path_key_text(
                all[i].path,
            ) implies all[j].hash == all[i].hash by {
            if all[j].hash != all[i].hash {
                assert(same_path(all, i, j));
                lemma_contradiction_exists(all, i, j);
            }
        }
    }
    if undisputed(all, i) && comes_first(all, i) {
        lemma_undisputed_counts(all, i);
    }
}

// ---------------------------------------------------------------------------
// What a plan asks
// ---------------------------------------------------------------------------

/// The options of an operation are those it was given.
pub proof fn law_options(op: RenameOperation)
    ensures
        op.options().verify == op.verify,
        op.options().all_files == op.all_files,
        op.options().only_dupes == op.only_dupes,
{
}

/// The file of the entry at `i` is one to be renamed, and the entry is the first
/// for its path with no other hash for it.
pub open spec fn stands(all: Seq<EntryView>, i: int, all_files: bool) -> bool {
    &&& 0 <= i < all.len()
    &&& undisputed(all, i)
    &&& comes_first(all, i)
    &&& to_be_renamed(all[i], all_files)
}

/// A plan asks of a path whether it exists exactly if the path is that of a file to
/// be renamed, or where such a file is to go.
pub proof fn law_what_is_probed(all: Seq<EntryView>, n: int, all_files: bool, p: PathView)
    requires
        0 <= n <= all.len(),
    ensures
        probes(all, n, all_files).contains(p) <==> exists|i: int|
            i < n && #[trigger] stands(all, i, all_files) && (p == all[i].path || p == target(
                all[i].path,
                all[i].hash,
                "_"@,
            )),
    decreases n,
{
    if n > 0 {
        let e = all[n - 1];
        let before = probes(all, n - 1, all_files);
        let now = probes(all, n, all_files);
        law_what_is_probed(all, n - 1, all_files, p);
        lemma_counts(all, n - 1);
        assert(settled_by_name(e, all_files) is None <==> to_be_renamed(e, all_files));
        if now.contains(p) {
            let k = choose|k: int| 0 <= k < now.len() && now[k] == p;
            if k < before.len() {
                assert(before[k] == p);
                assert(before.contains(p));
            } else {
                assert(stands(all, n - 1, all_files));
            }
        }
        if exists|i: int|
            i < n && #[trigger] stands(all, i, all_files) && (p == all[i].path || p == target(
                all[i].path,
                all[i].hash,
                "_"@,
            )) {
            let i = choose|i: int|
                i < n && #[trigger] stands(all, i, all_files) && (p == all[i].path || p == target(
                    all[i].path,
                    all[i].hash,
                    "_"@,
                ));
            if i < n - 1 {
                assert(before.contains(p));
                let k = choose|k: int| 0 <= k < before.len() && before[k] == p;
                assert(now[k] == p);
            } else {
                assert(now[before.len() as int] == e.path);
                assert(now[before.len() + 1int] == goal(e));
            }
        }
    }
}

/// A plan wants a file hashed exactly if hashes are to be verified, that of the file
/// was not computed just now, and the file is one to be renamed that exists and
/// whose target does not.
pub proof fn law_what_is_hashed(
    all: Seq<EntryView>,
    n: int,
    options: PlanOptions,
    existing: Seq<Seq<u8>>,
    p: PathView,
)
    requires
        0 <= n <= all.len(),
    ensures
        hash_wishes(all, n, options, existing).contains(p) <==> options.verify && exists|i: int|
            i < n && #[trigger] stands(all, i, options.all_files) && p == all[i].path
                && !all[i].computed && existing.contains(p.bytes) && !existing.contains(
                target(p, all[i].hash, "_"@).bytes,
            ),
    decreases n,
{
    if n > 0 {
        let e = all[n - 1];
        let before = hash_wishes(all, n - 1, options, existing);
        let now = hash_wishes(all, n, options, existing);
        law_what_is_hashed(all, n - 1, options, existing, p);
        lemma_counts(all, n - 1);
        assert(settled_by_name(e, options.all_files) is None <==> to_be_renamed(
            e,
            options.all_files,
        ));
        if now.contains(p) {
            let k = choose|k: int| 0 <= k < now.len() && now[k] == p;
            if k < before.len() {
                assert(before[k] == p);
                assert(before.contains(p));
            } else {
                assert(stands(all, n - 1, options.all_files));
            }
        }
        if options.verify && exists|i: int|
            i < n && #[trigger] stands(all, i, options.all_files) && p == all[i].path
                && !all[i].computed && existing.contains(p.bytes) && !existing.contains(
                target(p, all[i].hash, "_"@).bytes,
            ) {
            let i = choose|i: int|
                i < n && #[trigger] stands(all, i, options.all_files) && p == all[i].path
                    && !all[i].computed && existing.contains(p.bytes) && !existing.contains(
                    target(p, all[i].hash, "_"@).bytes,
                );
            if i < n - 1 {
                assert(before.contains(p));
                let k = choose|k: int| 0 <= k < before.len() && before[k] == p;
                assert(now[k] == p);
            } else {
                assert(now[before.len() as int] == e.path);
            }
        }
    }
}

/// A stem carries a hash exactly if it is text and ends in an underscore and the
/// hash, letters in either case.
pub proof fn law_stems_with_hash(p: PathView, hash: Seq<char>)
    ensures
        suffixed_with(p, hash) <==> file_stem(p) is Some && valid_utf8(file_stem(p)->0) && exists|
            head: Seq<u8>,
            tail: Seq<u8>,
        |
            file_stem(p)->0 == #[trigger] (head + tail) && same_ignoring_ascii_case(
                tail,
                seq![0x5fu8] + encode_utf8(hash),
            ),
{
    let suffix = seq![0x5fu8] + encode_utf8(hash);
    if suffixed_with(p, hash) {
        let stem = file_stem(p)->0;
        let at = stem.len() - suffix.len();
        assert(stem =~= stem.take(at) + stem.skip(at));
    }
    if file_stem(p) is Some && exists|head: Seq<u8>, tail: Seq<u8>|
        file_stem(p)->0 == #[trigger] (head + tail) && same_ignoring_ascii_case(tail, suffix) {
        let (head, tail) = choose|head: Seq<u8>, tail: Seq<u8>|
            file_stem(p)->0 == #[trigger] (head + tail) && same_ignoring_ascii_case(tail, suffix);
        let stem = file_stem(p)->0;
        assert(stem.skip(stem.len() - suffix.len()) =~= tail);
    }
}

// ---------------------------------------------------------------------------
// Contradictions
// ---------------------------------------------------------------------------

proof fn lemma_contradiction_place(all: Seq<EntryView>, j: int, n: int) -> (k: int)
    requires
        0 <= j < n <= all.len(),
        contradicts(all, j),
    ensures
        0 <= k < contradictions(all, n).len(),
        contradictions(all, n).len() == contradiction_warnings(all, n).len(),
        contradictions(all, n)[k] == contradiction_action(
            all[first_position(entry_keys(all), j)],
            all[j],
        ),
        contradiction_warnings(all, n)[k] == contradiction_warning(
            all[first_position(entry_keys(all), j)],
            all[j],
        ),
    decreases n,
{
    lemma_as_many(all, n - 1);
    if j < n - 1 {
        lemma_contradiction_place(all, j, n - 1)
    } else {
        contradictions(all, n - 1).len() as int
    }
}

proof fn lemma_as_many(all: Seq<EntryView>, n: int)
    ensures
        contradictions(all, n).len() == contradiction_warnings(all, n).len(),
    decreases n,
{
    if n > 0 {
        lemma_as_many(all, n - 1);
    }
}

/// Where a path is listed first at `f` and the first entry for it with another hash
/// stands at `j`, the plan has a conflict for the path that names both hashes, and
/// in the same place among its warnings one that names the path, both hashes and
/// both manifests.
pub proof fn law_contradictions_are_spelled_out(
    all: Seq<EntryView>,
    options: PlanOptions,
    disk: DiskView,
    f: int,
    j: int,
) -> (k: int)
    requires
        0 <= f < j < all.len(),
        path_key_text(all[f].path) == path_key_text(all[j].path),
        all[f].hash != all[j].hash,
        forall|i: int|
            0 <= i < f ==> path_key_text((#[trigger] all[i]).path) != path_key_text(all[j].path),
        forall|i: int|
            0 <= i < j && path_key_text((#[trigger] all[i]).path) == path_key_text(all[j].path)
                ==> all[i].hash == all[f].hash,
    ensures
        0 <= k < plan(all, options, disk).warnings.len() <= plan(all, options, disk).actions.len(),
        plan(all, options, disk).actions[k] == (ActionView {
            src: all[j].path,
            dst: None,
            hash: all[j].hash,
            status: "conflict"@,
            note: "same path listed with two hashes ("@ + all[f].hash + " vs "@ + all[j].hash
                + ")"@,
        }),
        plan(all, options, disk).warnings[k] == "Warning: "@ + path_text(all[j].path)
            + " listed with two different hashes:\n  manifest 1: "@ + all[f].hash + " (from "@
            + path_text(all[f].manifest) + ")\n  manifest 2: "@ + all[j].hash + " (from "@
            + path_text(all[j].manifest) + ")"@,
{
    let keys = entry_keys(all);
    assert forall|i: int| 0 <= i < f implies keys[i] != keys[j] by {
        assert(path_key_text(all[i].path) != path_key_text(all[j].path));
    }
    lemma_first_position_is(keys, j, f);
    assert forall|i: int| 0 <= i < j && #[trigger] same_path(all, i, j) implies all[i].hash
        == all[f].hash by {
        assert(path_key_text(all[i].path) == path_key_text(all[j].path));
    }
    assert(contradicts(all, j));
    let n = all.len() as int;
    let k = lemma_contradiction_place(all, j, n);
    let d = draft(all, options, disk);
    lemma_statuses();
    assert(d[k] == contradictions(all, n)[k]);
    assert(planned_actions(all, options, disk)[k] == reconciled(d, d[k]));
    k
}

/// The contradictions come first among the actions, one for each warning. Each is
/// about a path that two entries give different hashes.
pub proof fn law_contradictions_come_first(
    all: Seq<EntryView>,
    options: PlanOptions,
    disk: DiskView,
    k: int,
)
    requires
        0 <= k < plan(all, options, disk).warnings.len(),
    ensures
        plan(all, options, disk).warnings.len() <= plan(all, options, disk).actions.len(),
        plan(all, options, disk).actions[k].status == "conflict"@,
        plan(all, options, disk).actions[k].dst is None,
        exists|i: int, j: int|
            0 <= i < all.len() && 0 <= j < all.len() && path_key_text((#[trigger] all[i]).path)
                == path_key_text(plan(all, options, disk).actions[k].src) && path_key_text(
                (#[trigger] all[j]).path,
            ) == path_key_text(plan(all, options, disk).actions[k].src) && all[i].hash
                != all[j].hash,
{
    let n = all.len() as int;
    lemma_as_many(all, n);
    let j = lemma_contradiction_source(all, n, k);
    let keys = entry_keys(all);
    lemma_first_position(keys, j);
    let f = first_position(keys, j);
    assert(keys[f] == keys[j]);
    let d = draft(all, options, disk);
    lemma_statuses();
    assert(d[k] == contradictions(all, n)[k]);
    assert(planned_actions(all, options, disk)[k] == reconciled(d, d[k]));
    assert(path_key_text(all[f].path) == path_key_text(all[j].path));
}

proof fn lemma_contradiction_source(all: Seq<EntryView>, n: int, k: int) -> (j: int)
    requires
        0 <= n <= all.len(),
        0 <= k < contradictions(all, n).len(),
    ensures
        0 <= j < n,
        contradicts(all, j),
        contradictions(all, n)[k] == contradiction_action(
            all[first_position(entry_keys(all), j)],
            all[j],
        ),
    decreases n,
{
    if k < contradictions(all, n - 1).len() {
        lemma_contradiction_source(all, n - 1, k)
    } else {
        n - 1
    }
}

// ---------------------------------------------------------------------------
// Collisions
// ---------------------------------------------------------------------------

/// An action that is a rename to the path with this key.
pub open spec fn renames_to(a: ActionView, key: Seq<char>) -> bool {
    a.status == "rename"@ && a.dst is Some && path_key_text(a.dst->0) == key
}

proof fn lemma_rivals(actions: Seq<ActionView>, dst: PathView)
    requires
        actions.len() <= usize::MAX,
    ensures
        rivals(actions, dst) == actions.filter(
            |a: ActionView| renames_to(a, path_key_text(dst)),
        ).len(),
    decreases actions.len(),
{
    reveal(Seq::filter);
    if actions.len() > 0 {
        let front = actions.drop_last();
        let a = actions.last();
        lemma_rivals(front, dst);
        let before = rename_targets(front);
        let now = rename_targets(actions);
        if a.dst is Some && a.is_rename() {
            assert(now == before.push(key_bytes(a.dst->0)));
            assert(now.drop_last() =~= before);
            if key_bytes(a.dst->0) == key_bytes(dst) {
                lemma_text_bytes_injective(path_key_text(a.dst->0), path_key_text(dst));
            }
        } else {
            assert(now == before);
        }
    }
}

proof fn lemma_filters_agree<A, B>(
    a: Seq<A>,
    b: Seq<B>,
    p: spec_fn(A) -> bool,
    q: spec_fn(B) -> bool,
)
    requires
        a.len() == b.len(),
        forall|i: int| 0 <= i < a.len() ==> (p(#[trigger] a[i]) <==> q(b[i])),
    ensures
        a.filter(p).len() == b.filter(q).len(),
    decreases a.len(),
{
    reveal(Seq::filter);
    if a.len() > 0 {
        let (x, y) = (a.drop_last(), b.drop_last());
        assert forall|i: int| 0 <= i < x.len() implies (p(#[trigger] x[i]) <==> q(y[i])) by {
            assert(p(a[i]) <==> q(b[i]));
        }
        lemma_filters_agree(x, y, p, q);
        assert(p(a[a.len() - 1]) <==> q(b[b.len() - 1]));
    }
}

/// What is said of so many files that would collide.
pub open spec fn collision_note(n: nat) -> Seq<char> {
    decimal_text(n) + " different files would collide on target name"@
}

/// The action is a conflict between files that would go to the path with this key.
pub open spec fn collides(a: ActionView, key: Seq<char>) -> bool {
    &&& a.status == "conflict"@
    &&& a.dst is Some
    &&& path_key_text(a.dst->0) == key
    &&& exists|n: nat| a.note == #[trigger] collision_note(n)
}

proof fn lemma_notes_differ(n: nat)
    ensures
        collision_note(n) != "target name already exists on disk"@,
{
    crate::laws::texts::law_decimal(n);
    reveal_strlit("target name already exists on disk");
    assert(collision_note(n)[0] == decimal_text(n)[0]);
    assert("target name already exists on disk"@[0] == 't');
}

/// The number of files that would collide is the number of actions that say so of
/// the same target, and there are at least two of them.
pub proof fn law_collisions_are_counted(
    all: Seq<EntryView>,
    options: PlanOptions,
    disk: DiskView,
    k: int,
    key: Seq<char>,
)
    requires
        all.len() <= usize::MAX,
        0 <= k < plan(all, options, disk).actions.len(),
        collides(plan(all, options, disk).actions[k], key),
    ensures
        plan(all, options, disk).actions[k].note == collision_note(
            plan(all, options, disk).actions.filter(|a: ActionView| collides(a, key)).len(),
        ),
        plan(all, options, disk).actions.filter(|a: ActionView| collides(a, key)).len() >= 2,
{
    let d = draft(all, options, disk);
    let actions = plan(all, options, disk).actions;
    lemma_sources(all, options, disk);
    crate::laws::plans::law_no_more_actions_than_entries(all, options, disk);
    lemma_drafted(all, options, disk, k, key);
    let dst = d[k].dst->0;
    assert forall|i: int| 0 <= i < d.len() implies (collides(#[trigger] actions[i], key)
        <==> renames_to(d[i], key)) by {
        lemma_drafted(all, options, disk, i, key);
        if renames_to(d[i], key) {
            let c = path_key_text(d[i].dst->0);
            assert(key_bytes(d[i].dst->0) == key_bytes(dst));
            assert(rivals(d, d[i].dst->0) == rivals(d, dst));
            assert(actions[i].note == collision_note(rivals(d, dst)));
        }
    }
    lemma_rivals(d, dst);
    lemma_filters_agree(
        actions,
        d,
        |a: ActionView| collides(a, key),
        |a: ActionView| renames_to(a, key),
    );
}

/// An action that collides was to be a rename which others rival.
proof fn lemma_drafted(
    all: Seq<EntryView>,
    options: PlanOptions,
    disk: DiskView,
    i: int,
    key: Seq<char>,
)
    requires
        all.len() <= usize::MAX,
        0 <= i < planned_actions(all, options, disk).len(),
    ensures
        ({
            let d = draft(all, options, disk);
            let a = planned_actions(all, options, disk)[i];
            &&& d.len() == planned_actions(all, options, disk).len()
            &&& a == reconciled(d, d[i])
            &&& collides(a, key) ==> renames_to(d[i], key) && rivals(d, d[i].dst->0) > 1 && a.dst
                == d[i].dst && a.note == collision_note(rivals(d, d[i].dst->0))
        }),
{
    lemma_sources(all, options, disk);
    lemma_statuses();
    let d = draft(all, options, disk);
    let a = planned_actions(all, options, disk)[i];
    let s = sources(all)[i];
    if collides(a, key) && !d[i].is_rename() {
        assert(a == d[i]);
        let n = choose|n: nat| a.note == #[trigger] collision_note(n);
        lemma_notes_differ(n);
        lemma_other_conflicts(all[s], options, disk);
    }
}

/// The only conflict for one file apart from others is one with what is on disk.
proof fn lemma_other_conflicts(e: EntryView, options: PlanOptions, disk: DiskView)
    ensures
        ({
            let a = entry_action(e, options, disk);
            a.status == "conflict"@ ==> a.note == "target name already exists on disk"@
        }),
{
    lemma_statuses();
    reveal_strlit("conflict");
    reveal_strlit("done");
    reveal_strlit("missing");
    reveal_strlit("not-video");
    reveal_strlit("verify-failed");
    assert("conflict"@.len() == 8 && "done"@.len() == 4 && "missing"@.len() == 7
        && "not-video"@.len() == 9 && "verify-failed"@.len() == 13);
}

// ---------------------------------------------------------------------------
// Order
// ---------------------------------------------------------------------------

/// One more file of a walk adds its location to the orphans, at the end, exactly
/// if it is one to look at and no action is about it.
pub proof fn law_orphans_come_in_order(
    walk: Seq<WalkView>,
    w: WalkView,
    actions: Seq<ActionView>,
    all_files: bool,
)
    ensures
        orphans_of(Seq::empty(), actions, all_files).len() == 0,
        orphans_of(walk.push(w), actions, all_files) == (if passes(w.path, w.is_file, all_files)
            && forall|k: int|
            0 <= k < actions.len() ==> path_key_text((#[trigger] actions[k]).src) != path_key_text(
                w.location(),
            ) && (actions[k].dst matches Some(d) ==> path_key_text(d) != path_key_text(
                w.location(),
            )) {
            orphans_of(walk, actions, all_files).push(w.location())
        } else {
            orphans_of(walk, actions, all_files)
        }),
{
    assert(walk.push(w).drop_last() =~= walk);
    crate::laws::statuses::lemma_covered(actions, w.location());
}

/// Where a file is: at its absolute path where that is known, else at the path by
/// which the walk met it.
pub proof fn law_location(w: WalkView, p: PathView)
    ensures
        w.absolute == Some(p) ==> w.location() == p,
        w.absolute is None ==> w.location() == w.path,
{
}

/// Files that share a name are told apart by what is renamed, not by how: renaming
/// only those leaves actions and warnings of the same entries as they are.
pub proof fn law_only_dupes_concerns_orphans(
    all: Seq<EntryView>,
    options: PlanOptions,
    disk: DiskView,
)
    ensures
        ({
            let some = plan(all, PlanOptions { only_dupes: true, ..options }, disk);
            let whole = plan(all, PlanOptions { only_dupes: false, ..options }, disk);
            &&& some.actions == whole.actions
            &&& some.warnings == whole.warnings
            &&& some.orphans.len() == 0
        }),
{
    let x = PlanOptions { only_dupes: true, ..options };
    let y = PlanOptions { only_dupes: false, ..options };
    lemma_same_entry_actions(all, all.len() as int, x, y, disk);
}

proof fn lemma_same_entry_actions(
    all: Seq<EntryView>,
    n: int,
    x: PlanOptions,
    y: PlanOptions,
    disk: DiskView,
)
    requires
        x.verify == y.verify,
        x.all_files == y.all_files,
    ensures
        entry_actions(all, n, x, disk) == entry_actions(all, n, y, disk),
    decreases n,
{
    if n > 0 {
        lemma_same_entry_actions(all, n - 1, x, y, disk);
    }
}

/// Actions come in the order of the entries: of two that count, the action for the
/// first comes before that for the second.
pub proof fn law_actions_come_in_order(
    all: Seq<EntryView>,
    options: PlanOptions,
    disk: DiskView,
    i: int,
    j: int,
) -> (r: (int, int))
    requires
        0 <= i < j < all.len(),
        undisputed(all, i),
        comes_first(all, i),
        undisputed(all, j),
        comes_first(all, j),
    ensures
        0 <= r.0 < r.1 < plan(all, options, disk).actions.len(),
        plan(all, options, disk).actions[r.0].src == all[i].path,
        plan(all, options, disk).actions[r.1].src == all[j].path,
{
    lemma_counts(all, i);
    lemma_counts(all, j);
    let n = all.len() as int;
    let (k, l) = lemma_entry_places(all, n, options, disk, i, j);
    let head = contradictions(all, n).len() as int;
    let d = draft(all, options, disk);
    assert(d[head + k] == entry_actions(all, n, options, disk)[k]);
    assert(d[head + l] == entry_actions(all, n, options, disk)[l]);
    assert(planned_actions(all, options, disk)[head + k] == reconciled(d, d[head + k]));
    assert(planned_actions(all, options, disk)[head + l] == reconciled(d, d[head + l]));
    (head + k, head + l)
}

proof fn lemma_entry_places(
    all: Seq<EntryView>,
    n: int,
    options: PlanOptions,
    disk: DiskView,
    i: int,
    j: int,
) -> (r: (int, int))
    requires
        0 <= i < j < n <= all.len(),
        counts(all, i),
        counts(all, j),
    ensures
        0 <= r.0 < r.1 < entry_actions(all, n, options, disk).len(),
        entry_actions(all, n, options, disk)[r.0] == entry_action(all[i], options, disk),
        entry_actions(all, n, options, disk)[r.1] == entry_action(all[j], options, disk),
    decreases n,
{
    let before = entry_actions(all, n - 1, options, disk);
    if j < n - 1 {
        lemma_entry_places(all, n - 1, options, disk, i, j)
    } else {
        let k = lemma_entry_place(all, n - 1, options, disk, i);
        (k, before.len() as int)
    }
}

proof fn lemma_entry_place(
    all: Seq<EntryView>,
    n: int,
    options: PlanOptions,
    disk: DiskView,
    i: int,
) -> (k: int)
    requires
        0 <= i < n <= all.len(),
        counts(all, i),
    ensures
        0 <= k < entry_actions(all, n, options, disk).len(),
        entry_actions(all, n, options, disk)[k] == entry_action(all[i], options, disk),
    decreases n,
{
    if i < n - 1 {
        lemma_entry_place(all, n - 1, options, disk, i)
    } else {
        entry_actions(all, n - 1, options, disk).len() as int
    }
}

} // verus!
