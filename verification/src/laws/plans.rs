//! Laws of plans: what is renamed, and what is never.

use vstd::prelude::*;
use vstd::utf8::*;
use crate::disk::{digest_of, DiskView, WalkView};
use crate::hashfile::{entry_keys, is_news, news, path_key_text, EntryView};
use crate::index::{
    first_position,
    lemma_first_position,
    lemma_first_position_is,
    lemma_positions,
    positions_of,
};
use crate::laws::names::{lasting, law_target_carries_hash, law_target_keeps_kind};
use crate::names::{suffixed_with, system_file, video_extensions, video_file};
use crate::path::PathView;
use crate::plan::{
    action_for,
    contradicted,
    contradiction_action,
    contradiction_warnings,
    contradictions,
    contradicts,
    counts,
    draft,
    entry_action,
    entry_actions,
    goal,
    is_orphan,
    key_bytes,
    orphans_of,
    plan,
    planned_actions,
    reconciled,
    rename_targets,
    rivals,
    same_path,
    verification,
    ActionView,
    PlanOptions,
};
use crate::text::is_hash_digits;

verus! {

broadcast use vstd::seq_lib::group_seq_properties;

// ---------------------------------------------------------------------------
// Where actions come from
// ---------------------------------------------------------------------------

/// The positions of the entries that count, among the first `n`.
pub open spec fn counting_positions(all: Seq<EntryView>, n: int) -> Seq<int>
    decreases n,
{
    if n <= 0 {
        Seq::empty()
    } else if counts(all, n - 1) {
        counting_positions(all, n - 1).push(n - 1)
    } else {
        counting_positions(all, n - 1)
    }
}

/// The positions of the entries that contradict others, among the first `n`.
pub open spec fn contradicting_positions(all: Seq<EntryView>, n: int) -> Seq<int>
    decreases n,
{
    if n <= 0 {
        Seq::empty()
    } else if contradicts(all, n - 1) {
        contradicting_positions(all, n - 1).push(n - 1)
    } else {
        contradicting_positions(all, n - 1)
    }
}

/// The positions of the entries that actions are about, in the order of the
/// actions.
pub open spec fn sources(all: Seq<EntryView>) -> Seq<int> {
    contradicting_positions(all, all.len() as int) + counting_positions(all, all.len() as int)
}

proof fn lemma_counting(all: Seq<EntryView>, n: int, options: PlanOptions, disk: DiskView)
    requires
        0 <= n <= all.len(),
    ensures
        counting_positions(all, n).len() == entry_actions(all, n, options, disk).len(),
        forall|k: int|
            0 <= k < counting_positions(all, n).len() ==> {
                let i = #[trigger] counting_positions(all, n)[k];
                &&& 0 <= i < n
                &&& counts(all, i)
                &&& entry_actions(all, n, options, disk)[k] == entry_action(all[i], options, disk)
            },
        forall|k: int, l: int|
            0 <= k < l < counting_positions(all, n).len() ==> (#[trigger] counting_positions(
                all,
                n,
            )[k]) < (#[trigger] counting_positions(all, n)[l]),
        forall|i: int|
            0 <= i < n && #[trigger] counts(all, i) ==> counting_positions(all, n).contains(i),
    decreases n,
{
    if n > 0 {
        lemma_counting(all, n - 1, options, disk);
        let before = counting_positions(all, n - 1);
        let now = counting_positions(all, n);
        assert forall|i: int| 0 <= i < n && #[trigger] counts(all, i) implies now.contains(i) by {
            if i < n - 1 {
                assert(before.contains(i));
                let k = choose|k: int| 0 <= k < before.len() && before[k] == i;
                assert(now[k] == i);
            } else {
                assert(now[before.len() as int] == i);
            }
        }
    }
}

proof fn lemma_contradicting(all: Seq<EntryView>, n: int)
    requires
        0 <= n <= all.len(),
    ensures
        contradicting_positions(all, n).len() == contradictions(all, n).len(),
        forall|k: int|
            0 <= k < contradicting_positions(all, n).len() ==> {
                let i = #[trigger] contradicting_positions(all, n)[k];
                &&& 0 <= i < n
                &&& contradicts(all, i)
                &&& contradictions(all, n)[k] == contradiction_action(
                    all[first_position(entry_keys(all), i)],
                    all[i],
                )
            },
        forall|k: int, l: int|
            0 <= k < l < contradicting_positions(all, n).len() ==> (
            #[trigger] contradicting_positions(all, n)[k]) < (#[trigger] contradicting_positions(
                all,
                n,
            )[l]),
        forall|i: int|
            0 <= i < n && #[trigger] contradicts(all, i) ==> contradicting_positions(
                all,
                n,
            ).contains(i),
    decreases n,
{
    if n > 0 {
        lemma_contradicting(all, n - 1);
        let before = contradicting_positions(all, n - 1);
        let now = contradicting_positions(all, n);
        assert forall|i: int| 0 <= i < n && #[trigger] contradicts(all, i) implies now.contains(
            i,
        ) by {
            if i < n - 1 {
                assert(before.contains(i));
                let k = choose|k: int| 0 <= k < before.len() && before[k] == i;
                assert(now[k] == i);
            } else {
                assert(now[before.len() as int] == i);
            }
        }
    }
}

/// Each action of a plan is about one entry: one that contradicts another, or
/// one that counts for its path.
pub proof fn lemma_sources(all: Seq<EntryView>, options: PlanOptions, disk: DiskView)
    ensures
        sources(all).len() == draft(all, options, disk).len(),
        planned_actions(all, options, disk).len() == draft(all, options, disk).len(),
        forall|k: int|
            0 <= k < sources(all).len() ==> {
                let i = #[trigger] sources(all)[k];
                let a = draft(all, options, disk)[k];
                &&& 0 <= i < all.len()
                &&& a.src == all[i].path
                &&& (contradicts(all, i) && a == contradiction_action(
                    all[first_position(entry_keys(all), i)],
                    all[i],
                )) || (counts(all, i) && a == entry_action(all[i], options, disk))
                &&& planned_actions(all, options, disk)[k].src == all[i].path
            },
        forall|i: int|
            0 <= i < all.len() && (#[trigger] counts(all, i)) ==> sources(all).contains(i),
        forall|i: int|
            0 <= i < all.len() && (#[trigger] contradicts(all, i)) ==> sources(all).contains(i),
{
    let n = all.len() as int;
    lemma_counting(all, n, options, disk);
    lemma_contradicting(all, n);
    let head = contradicting_positions(all, n);
    let tail = counting_positions(all, n);
    let s = sources(all);
    assert forall|k: int| 0 <= k < s.len() implies {
        let i = #[trigger] s[k];
        let a = draft(all, options, disk)[k];
        &&& 0 <= i < all.len()
        &&& a.src == all[i].path
        &&& (contradicts(all, i) && a == contradiction_action(
            all[first_position(entry_keys(all), i)],
            all[i],
        )) || (counts(all, i) && a == entry_action(all[i], options, disk))
        &&& planned_actions(all, options, disk)[k].src == all[i].path
    } by {
        if k < head.len() {
            assert(s[k] == head[k]);
        } else {
            assert(s[k] == tail[k - head.len()]);
        }
    }
    assert forall|i: int| 0 <= i < all.len() && (#[trigger] counts(all, i)) implies s.contains(
        i,
    ) by {
        let k = choose|k: int| 0 <= k < tail.len() && tail[k] == i;
        assert(s[head.len() + k] == i);
    }
    assert forall|i: int| 0 <= i < all.len() && (#[trigger] contradicts(all, i)) implies s.contains(
        i,
    ) by {
        let k = choose|k: int| 0 <= k < head.len() && head[k] == i;
        assert(s[k] == i);
    }
}

pub proof fn lemma_statuses()
    ensures
        "rename"@ != "conflict"@,
        "rename"@ != "done"@,
        "rename"@ != "missing"@,
        "rename"@ != "not-video"@,
        "rename"@ != "verify-failed"@,
{
    reveal_strlit("rename");
    reveal_strlit("conflict");
    reveal_strlit("done");
    reveal_strlit("missing");
    reveal_strlit("not-video");
    reveal_strlit("verify-failed");
    assert("rename"@.len() == 6);
    assert("conflict"@.len() == 8);
    assert("done"@.len() == 4);
    assert("missing"@.len() == 7);
    assert("not-video"@.len() == 9);
    assert("verify-failed"@.len() == 13);
}

// ---------------------------------------------------------------------------
// Contradictions
// ---------------------------------------------------------------------------

/// Where entries for one path have different hashes, some entry is the first
/// whose hash differs from that of the first entry.
pub proof fn lemma_contradiction_exists(all: Seq<EntryView>, i: int, j: int)
    requires
        0 <= i < all.len(),
        0 <= j < all.len(),
        same_path(all, i, j),
        first_position(entry_keys(all), i) == i,
        all[j].hash != all[i].hash,
    ensures
        contradicted(all, i),
    decreases j,
{
    let keys = entry_keys(all);
    lemma_first_position(keys, i);
    assert(keys[i] == keys[j]);
    if j < i {
        assert(keys[j] != keys[i]);
    }
    lemma_first_position_is(keys, j, i);
    if forall|k: int| 0 <= k < j && #[trigger] same_path(all, k, j) ==> all[k].hash == all[i].hash {
        assert(contradicts(all, j));
    } else {
        let k = choose|k: int|
            0 <= k < j && #[trigger] same_path(all, k, j) && all[k].hash != all[i].hash;
        assert(same_path(all, i, k));
        lemma_contradiction_exists(all, i, k);
    }
}

/// Of two entries that actions are about, no two are for the same path.
pub proof fn lemma_sources_distinct(all: Seq<EntryView>, i: int, j: int)
    requires
        0 <= i < all.len(),
        0 <= j < all.len(),
        i != j,
        counts(all, i) || contradicts(all, i),
        counts(all, j) || contradicts(all, j),
    ensures
        !same_path(all, i, j),
{
    let keys = entry_keys(all);
    if same_path(all, i, j) {
        assert(keys[i] == keys[j]);
        assert(same_path(all, j, i));
        assert(same_path(all, i, i) && same_path(all, j, j));
        lemma_first_position(keys, i);
        lemma_first_position(keys, j);
        let f = first_position(keys, i);
        assert(first_position(keys, j) == f);
        if counts(all, i) && counts(all, j) {
            assert(i == f && j == f);
        } else if counts(all, i) {
            assert(contradicts(all, j));
            assert(contradicted(all, i));
        } else if counts(all, j) {
            assert(contradicts(all, i));
            assert(contradicted(all, j));
        } else if i < j {
            assert(all[i].hash == all[f].hash);
        } else {
            assert(all[j].hash == all[f].hash);
        }
    }
}

/// Every path that is listed gets an action, and no path gets two.
pub proof fn law_one_action_for_each_path(
    all: Seq<EntryView>,
    options: PlanOptions,
    disk: DiskView,
)
    ensures
        forall|i: int|
            #![trigger all[i]]
            0 <= i < all.len() ==> exists|k: int|
                0 <= k < planned_actions(all, options, disk).len() && path_key_text(
                    (#[trigger] planned_actions(all, options, disk)[k]).src,
                ) == path_key_text(all[i].path),
        forall|k: int, l: int|
            0 <= k < l < planned_actions(all, options, disk).len() ==> path_key_text(
                (#[trigger] planned_actions(all, options, disk)[k]).src,
            ) != path_key_text((#[trigger] planned_actions(all, options, disk)[l]).src),
{
    lemma_sources(all, options, disk);
    let s = sources(all);
    let actions = planned_actions(all, options, disk);
    let keys = entry_keys(all);
    assert forall|i: int| #![trigger all[i]] 0 <= i < all.len() implies exists|k: int|
        0 <= k < actions.len() && path_key_text((#[trigger] actions[k]).src) == path_key_text(
            all[i].path,
        ) by {
        lemma_first_position(keys, i);
        let f = first_position(keys, i);
        lemma_first_position_is(keys, f, f);
        assert(keys[f] == keys[i]);
        let j = if contradicted(all, f) {
            choose|j: int|
                0 <= j < all.len() && #[trigger] same_path(all, f, j) && contradicts(all, j)
        } else {
            f
        };
        assert(contradicts(all, j) || counts(all, j));
        assert(path_key_text(all[j].path) == path_key_text(all[i].path));
        assert(s.contains(j));
        let k = choose|k: int| 0 <= k < s.len() && s[k] == j;
        assert(actions[k].src == all[s[k]].path);
    }
    assert forall|k: int, l: int| 0 <= k < l < actions.len() implies path_key_text(
        (#[trigger] actions[k]).src,
    ) != path_key_text((#[trigger] actions[l]).src) by {
        assert(actions[k].src == all[s[k]].path && actions[l].src == all[s[l]].path);
        lemma_sources_increase(all, k, l);
        lemma_sources_distinct(all, s[k], s[l]);
        assert(!same_path(all, s[k], s[l]));
    }
}

pub proof fn lemma_sources_increase(all: Seq<EntryView>, k: int, l: int)
    requires
        0 <= k < l < sources(all).len(),
    ensures
        sources(all)[k] != sources(all)[l],
{
    let n = all.len() as int;
    let head = contradicting_positions(all, n);
    let tail = counting_positions(all, n);
    lemma_contradicting(all, n);
    lemma_counting(
        all,
        n,
        PlanOptions { verify: false, all_files: false, only_dupes: false },
        DiskView { existing: Seq::empty(), digests: Seq::empty(), walk: Seq::empty() },
    );
    let s = sources(all);
    if k < head.len() {
        assert(s[k] == head[k]);
    } else {
        assert(s[k] == tail[k - head.len()]);
    }
    if l < head.len() {
        assert(s[l] == head[l]);
    } else {
        assert(s[l] == tail[l - head.len()]);
    }
    if k < head.len() && l >= head.len() && s[k] == s[l] {
        let i = s[k];
        assert(contradicts(all, i) && counts(all, i));
        assert(same_path(all, i, i));
        assert(contradicted(all, i));
    }
}

/// A path that is listed with two different hashes is not renamed: the one action
/// about it is a conflict.
pub proof fn law_contradicted_paths_are_not_renamed(
    all: Seq<EntryView>,
    options: PlanOptions,
    disk: DiskView,
    i: int,
    j: int,
    k: int,
)
    requires
        0 <= i < all.len(),
        0 <= j < all.len(),
        same_path(all, i, j),
        all[i].hash != all[j].hash,
        0 <= k < planned_actions(all, options, disk).len(),
        path_key_text(planned_actions(all, options, disk)[k].src) == path_key_text(all[i].path),
    ensures
        planned_actions(all, options, disk)[k].status == "conflict"@,
        planned_actions(all, options, disk)[k].dst is None,
{
    lemma_sources(all, options, disk);
    lemma_statuses();
    let s = sources(all);
    let m = s[k];
    let keys = entry_keys(all);
    assert(keys[i] == keys[j]);
    assert(keys[m] == keys[i]) by {
        assert(planned_actions(all, options, disk)[k].src == all[m].path);
    }
    lemma_first_position(keys, i);
    let f = first_position(keys, i);
    lemma_first_position_is(keys, f, f);
    assert(keys[f] == keys[i]);
    if counts(all, m) {
        assert(first_position(keys, m) == f);
        assert(m == f);
        if all[i].hash != all[f].hash {
            assert(same_path(all, f, i));
            lemma_contradiction_exists(all, f, i);
        } else {
            assert(same_path(all, f, j));
            lemma_contradiction_exists(all, f, j);
        }
        assert(false);
    }
    let a = draft(all, options, disk)[k];
    assert(a.dst is None);
    assert(planned_actions(all, options, disk)[k] == reconciled(draft(all, options, disk), a));
}

// ---------------------------------------------------------------------------
// Renames
// ---------------------------------------------------------------------------

/// A rename is called for: the file is one to be renamed, it exists, nothing is
/// where it goes, and its content has its hash where that was to be verified.
pub open spec fn called_for(e: EntryView, options: PlanOptions, disk: DiskView) -> bool {
    &&& !system_file(e.path)
    &&& options.all_files || video_file(e.path, video_extensions())
    &&& !suffixed_with(e.path, e.hash)
    &&& disk.present(e.path)
    &&& !disk.present(goal(e))
    &&& options.verify && !e.computed ==> verification(
        e,
        digest_of(disk.digests, e.path),
    ) is Ok
}

/// A rename in a plan is for an entry that counts for its path, from where that
/// entry has the file to the target of the file, and it is called for. No file
/// is renamed that does not exist, and none over one that does.
pub proof fn law_renames_are_called_for(
    all: Seq<EntryView>,
    options: PlanOptions,
    disk: DiskView,
    k: int,
)
    requires
        0 <= k < planned_actions(all, options, disk).len(),
        planned_actions(all, options, disk)[k].is_rename(),
    ensures
        exists|i: int|
            0 <= i < all.len() && #[trigger] counts(all, i) && called_for(all[i], options, disk)
                && planned_actions(all, options, disk)[k] == action_for(
                all[i],
                Some(goal(all[i])),
                "rename"@,
                ""@,
            ),
{
    lemma_sources(all, options, disk);
    lemma_statuses();
    let i = sources(all)[k];
    let a = draft(all, options, disk)[k];
    assert(planned_actions(all, options, disk)[k] == reconciled(draft(all, options, disk), a));
    assert(a.is_rename());
    assert(counts(all, i));
    assert(called_for(all[i], options, disk));
}

/// The place of the target of the action at `i` among the targets of renames.
pub open spec fn target_place(actions: Seq<ActionView>, i: int) -> int {
    rename_targets(actions.take(i)).len() as int
}

pub proof fn lemma_target_place(actions: Seq<ActionView>, i: int)
    requires
        0 <= i < actions.len(),
        actions[i].is_rename(),
        actions[i].dst is Some,
    ensures
        target_place(actions, i) < rename_targets(actions).len(),
        rename_targets(actions)[target_place(actions, i)] == key_bytes(actions[i].dst->0),
    decreases actions.len(),
{
    let n = actions.len() - 1;
    let front = actions.drop_last();
    if i < n {
        assert(front[i] == actions[i]);
        lemma_target_place(front, i);
        assert(front.take(i) =~= actions.take(i));
    } else {
        assert(actions.take(n) =~= front);
    }
}

pub proof fn lemma_rename_targets_len(actions: Seq<ActionView>)
    ensures
        rename_targets(actions).len() <= actions.len(),
    decreases actions.len(),
{
    if actions.len() > 0 {
        lemma_rename_targets_len(actions.drop_last());
    }
}

proof fn lemma_target_place_increases(actions: Seq<ActionView>, i: int, j: int)
    requires
        0 <= i < j < actions.len(),
        actions[i].is_rename(),
        actions[i].dst is Some,
    ensures
        target_place(actions, i) < target_place(actions, j),
{
    let front = actions.take(j);
    assert(front[i] == actions[i]);
    lemma_target_place(front, i);
    assert(front.take(i) =~= actions.take(i));
}

/// Two renames to one target are rivals.
pub proof fn lemma_two_rivals(actions: Seq<ActionView>, k: int, l: int)
    requires
        actions.len() <= usize::MAX,
        0 <= k < l < actions.len(),
        actions[k].is_rename(),
        actions[k].dst is Some,
        actions[l].is_rename(),
        actions[l].dst is Some,
        key_bytes(actions[k].dst->0) == key_bytes(actions[l].dst->0),
    ensures
        rivals(actions, actions[k].dst->0) > 1,
        rivals(actions, actions[l].dst->0) > 1,
{
    let key = key_bytes(actions[k].dst->0);
    let t = rename_targets(actions);
    lemma_target_place(actions, k);
    lemma_target_place(actions, l);
    lemma_target_place_increases(actions, k, l);
    lemma_rename_targets_len(actions);
    let a = target_place(actions, k);
    let b = target_place(actions, l);
    lemma_positions(t, key);
    let at = positions_of(t, key);
    assert(t[a] == key && t[b] == key);
    assert(at.contains(a as usize) && at.contains(b as usize));
    let u = choose|u: int| 0 <= u < at.len() && at[u] == a as usize;
    let v = choose|v: int| 0 <= v < at.len() && at[v] == b as usize;
    assert(u != v);
}

/// No two renames in a plan go to the same place, nor to places that differ only
/// in what the platform does not tell apart.
pub proof fn law_no_two_renames_share_a_target(
    all: Seq<EntryView>,
    options: PlanOptions,
    disk: DiskView,
    k: int,
    l: int,
)
    requires
        all.len() <= usize::MAX,
        0 <= k < l < planned_actions(all, options, disk).len(),
        planned_actions(all, options, disk)[k].is_rename(),
        planned_actions(all, options, disk)[l].is_rename(),
    ensures
        planned_actions(all, options, disk)[k].dst is Some,
        planned_actions(all, options, disk)[l].dst is Some,
        path_key_text(planned_actions(all, options, disk)[k].dst->0) != path_key_text(
            planned_actions(all, options, disk)[l].dst->0,
        ),
{
    law_renames_are_called_for(all, options, disk, k);
    law_renames_are_called_for(all, options, disk, l);
    lemma_sources(all, options, disk);
    lemma_statuses();
    let d = draft(all, options, disk);
    let actions = planned_actions(all, options, disk);
    assert(actions[k] == reconciled(d, d[k]) && actions[l] == reconciled(d, d[l]));
    assert(d[k].is_rename() && d[l].is_rename());
    let x = d[k].dst->0;
    let y = d[l].dst->0;
    if path_key_text(x) == path_key_text(y) {
        law_no_more_actions_than_entries(all, options, disk);
        lemma_two_rivals(d, k, l);
        assert(false);
    }
}

/// A plan has no more actions than there are entries.
pub proof fn law_no_more_actions_than_entries(
    all: Seq<EntryView>,
    options: PlanOptions,
    disk: DiskView,
)
    ensures
        planned_actions(all, options, disk).len() <= all.len(),
{
    lemma_lens(all, all.len() as int, options, disk);
}

proof fn lemma_lens(all: Seq<EntryView>, n: int, options: PlanOptions, disk: DiskView)
    requires
        0 <= n <= all.len(),
    ensures
        contradictions(all, n).len() + entry_actions(all, n, options, disk).len() <= n,
    decreases n,
{
    if n > 0 {
        lemma_lens(all, n - 1, options, disk);
        assert(!(contradicts(all, n - 1) && counts(all, n - 1))) by {
            assert(same_path(all, n - 1, n - 1));
        }
    }
}

// ---------------------------------------------------------------------------
// Running again
// ---------------------------------------------------------------------------

/// Once a file has been renamed, an entry for it under its new name is done: it
/// is not renamed again.
pub proof fn law_renamed_files_are_not_renamed_again(
    e: EntryView,
    options: PlanOptions,
    disk: DiskView,
    later: DiskView,
    again: EntryView,
)
    requires
        lasting(e.path),
        is_hash_digits(e.hash),
        entry_action(e, options, disk).is_rename(),
        again.path == goal(e),
        again.hash == e.hash,
    ensures
        entry_action(again, options, later) == action_for(
            again,
            Some(again.path),
            "done"@,
            "already suffixed"@,
        ),
{
    lemma_statuses();
    law_target_carries_hash(e.path, e.hash);
    law_target_keeps_kind(e.path, e.hash, video_extensions());
}

/// Where every file that is listed carries its hash already, a plan renames
/// nothing.
pub proof fn law_suffixed_files_are_left_alone(
    all: Seq<EntryView>,
    options: PlanOptions,
    disk: DiskView,
)
    requires
        forall|i: int|
            0 <= i < all.len() ==> suffixed_with((#[trigger] all[i]).path, all[i].hash),
    ensures
        forall|k: int|
            0 <= k < planned_actions(all, options, disk).len() ==> !(#[trigger] planned_actions(
                all,
                options,
                disk,
            )[k]).is_rename(),
{
    assert forall|k: int| 0 <= k < planned_actions(all, options, disk).len() implies !(
    #[trigger] planned_actions(all, options, disk)[k]).is_rename() by {
        if planned_actions(all, options, disk)[k].is_rename() {
            law_renames_are_called_for(all, options, disk, k);
        }
    }
}

/// Once a file has been renamed, the entry that had it renamed is done: where the
/// file was there is nothing, and where it went it is.
pub proof fn law_entries_of_renamed_files_are_done(
    e: EntryView,
    options: PlanOptions,
    disk: DiskView,
    later: DiskView,
)
    requires
        entry_action(e, options, disk).is_rename(),
        !later.present(e.path),
        later.present(goal(e)),
    ensures
        entry_action(e, options, later) == action_for(
            e,
            Some(goal(e)),
            "done"@,
            "source already renamed in a prior run"@,
        ),
{
    lemma_statuses();
}

// ---------------------------------------------------------------------------
// Orphans
// ---------------------------------------------------------------------------

/// A path is reported as an orphan exactly if a file that passes the filter is
/// there and no action starts from it or leads to it.
pub proof fn law_orphans_are_files_without_action(
    walk: Seq<WalkView>,
    actions: Seq<ActionView>,
    all_files: bool,
    p: PathView,
)
    ensures
        orphans_of(walk, actions, all_files).contains(p) <==> exists|i: int|
            0 <= i < walk.len() && is_orphan(#[trigger] walk[i], actions, all_files)
                && walk[i].location() == p,
    decreases walk.len(),
{
    let now = orphans_of(walk, actions, all_files);
    if walk.len() > 0 {
        let front = walk.drop_last();
        let last = walk.last();
        let before = orphans_of(front, actions, all_files);
        law_orphans_are_files_without_action(front, actions, all_files, p);
        if now.contains(p) {
            let k = choose|k: int| 0 <= k < now.len() && now[k] == p;
            if k < before.len() {
                assert(before[k] == p);
                assert(before.contains(p));
                let i = choose|i: int|
                    0 <= i < front.len() && is_orphan(#[trigger] front[i], actions, all_files)
                        && front[i].location() == p;
                assert(walk[i] == front[i]);
            } else {
                assert(walk[walk.len() - 1] == last);
            }
        }
        if exists|i: int|
            0 <= i < walk.len() && is_orphan(#[trigger] walk[i], actions, all_files)
                && walk[i].location() == p {
            let i = choose|i: int|
                0 <= i < walk.len() && is_orphan(#[trigger] walk[i], actions, all_files)
                    && walk[i].location() == p;
            if i < front.len() {
                assert(front[i] == walk[i]);
                assert(before.contains(p));
                let k = choose|k: int| 0 <= k < before.len() && before[k] == p;
                assert(now[k] == p);
            } else {
                assert(now[before.len() as int] == p);
            }
        }
    }
}

// ---------------------------------------------------------------------------
// Several manifests
// ---------------------------------------------------------------------------

/// How many of the first `n` entries say something new.
pub open spec fn news_count(all: Seq<EntryView>, n: int) -> int {
    news(all, n).len() as int
}

proof fn lemma_news_prefix(all: Seq<EntryView>, i: int, n: int)
    requires
        0 <= i <= n <= all.len(),
    ensures
        news(all, i).len() <= news(all, n).len(),
        forall|k: int|
            0 <= k < news(all, i).len() ==> #[trigger] news(all, n)[k] == news(all, i)[k],
    decreases n,
{
    if i < n {
        lemma_news_prefix(all, i, n - 1);
    }
}

proof fn lemma_news_at(all: Seq<EntryView>, i: int, n: int)
    requires
        0 <= i < n <= all.len(),
        is_news(all, i),
    ensures
        news_count(all, i) < news_count(all, n),
        news(all, n)[news_count(all, i)] == all[i],
{
    lemma_news_prefix(all, i + 1, n);
    assert(news(all, i + 1) == news(all, i).push(all[i]));
}

proof fn lemma_news_from(all: Seq<EntryView>, n: int, k: int) -> (i: int)
    requires
        0 <= n <= all.len(),
        0 <= k < news(all, n).len(),
    ensures
        0 <= i < n,
        is_news(all, i),
        news_count(all, i) == k,
    decreases n,
{
    if k < news(all, n - 1).len() {
        lemma_news_from(all, n - 1, k)
    } else {
        n - 1
    }
}

proof fn lemma_news(all: Seq<EntryView>, n: int)
    requires
        0 <= n <= all.len(),
    ensures
        forall|i: int|
            0 <= i < n && #[trigger] is_news(all, i) ==> 0 <= news_count(all, i) < news_count(
                all,
                n,
            )
                && news(all, n)[news_count(all, i)] == all[i],
{
    assert forall|i: int| 0 <= i < n && #[trigger] is_news(all, i) implies 0 <= news_count(all, i)
        < news_count(all, n) && news(all, n)[news_count(all, i)] == all[i] by {
        lemma_news_at(all, i, n);
    }
}

proof fn lemma_news_order(all: Seq<EntryView>, i: int, j: int)
    requires
        0 <= i < j <= all.len(),
        is_news(all, i),
    ensures
        news_count(all, i) < news_count(all, j),
{
    lemma_news_at(all, i, j);
}

/// The first entry for a path stays the first once repetitions are dropped.
proof fn lemma_news_first(all: Seq<EntryView>, i: int)
    requires
        0 <= i < all.len(),
        is_news(all, i),
    ensures
        ({
            let rest = news(all, all.len() as int);
            let f = first_position(entry_keys(all), i);
            &&& is_news(all, f)
            &&& first_position(entry_keys(rest), news_count(all, i)) == news_count(all, f)
            &&& rest[news_count(all, f)] == all[f]
            &&& rest[news_count(all, i)] == all[i]
        }),
{
    let n = all.len() as int;
    let rest = news(all, n);
    let keys = entry_keys(all);
    let short = entry_keys(rest);
    lemma_first_position(keys, i);
    let f = first_position(keys, i);
    lemma_first_position_is(keys, f, f);
    lemma_news(all, n);
    assert(is_news(all, f));
    let a = news_count(all, f);
    let b = news_count(all, i);
    if f < i {
        lemma_news_order(all, f, i);
    }
    assert(short[a] == keys[f] && short[b] == keys[i]);
    assert forall|k: int| 0 <= k < a implies short[k] != short[b] by {
        let m = lemma_news_from(all, n, k);
        if m >= f {
            if m > f {
                lemma_news_order(all, f, m);
            }
        }
        assert(m < f);
        assert(keys[m] != keys[i]);
        assert(rest[k] == all[m]);
    }
    lemma_first_position_is(short, b, a);
}

/// What contradicts before contradicts after repetitions are dropped, and the
/// other way round.
proof fn lemma_news_contradicts(all: Seq<EntryView>, i: int)
    requires
        0 <= i < all.len(),
        is_news(all, i),
    ensures
        contradicts(news(all, all.len() as int), news_count(all, i)) == contradicts(all, i),
{
    let n = all.len() as int;
    let rest = news(all, n);
    lemma_news_first(all, i);
    lemma_news(all, n);
    let keys = entry_keys(all);
    let f = first_position(keys, i);
    let b = news_count(all, i);
    if contradicts(all, i) {
        assert forall|k: int| 0 <= k < b && #[trigger] same_path(rest, k, b) implies rest[k].hash
            == all[f].hash by {
            let m = lemma_news_from(all, n, k);
            assert(rest[k] == all[m]);
            if m >= i {
                if m > i {
                    lemma_news_order(all, i, m);
                }
            }
            assert(m < i);
            assert(same_path(all, m, i));
        }
        assert(contradicts(rest, b));
    }
    if contradicts(rest, b) {
        assert forall|k: int| 0 <= k < i && #[trigger] same_path(all, k, i) implies all[k].hash
            == all[f].hash by {
            if all[k].hash != all[f].hash {
                lemma_first_position(keys, i);
                assert(keys[k] == keys[i]);
                assert(first_position(keys, k) == f);
                assert(is_news(all, k));
                lemma_news_order(all, k, i);
                assert(rest[news_count(all, k)] == all[k]);
                assert(same_path(rest, news_count(all, k), b));
            }
        }
    }
}

proof fn lemma_news_counts(all: Seq<EntryView>, i: int)
    requires
        0 <= i < all.len(),
        is_news(all, i),
    ensures
        counts(news(all, all.len() as int), news_count(all, i)) == counts(all, i),
{
    let n = all.len() as int;
    let rest = news(all, n);
    lemma_news_first(all, i);
    lemma_news(all, n);
    let keys = entry_keys(all);
    lemma_first_position(keys, i);
    let f = first_position(keys, i);
    let b = news_count(all, i);
    if f < i {
        lemma_news_order(all, f, i);
    }
    assert((first_position(entry_keys(rest), b) == b) == (f == i));
    if f == i {
        if contradicted(all, i) {
            let j = choose|j: int|
                0 <= j < all.len() && #[trigger] same_path(all, i, j) && contradicts(all, j);
            assert(keys[j] == keys[i]);
            assert(first_position(keys, j) == f);
            assert(is_news(all, j));
            lemma_news_contradicts(all, j);
            assert(rest[news_count(all, j)] == all[j]);
            assert(same_path(rest, b, news_count(all, j)));
        }
        if contradicted(rest, b) {
            let k = choose|k: int|
                0 <= k < rest.len() && #[trigger] same_path(rest, b, k) && contradicts(rest, k);
            let m = lemma_news_from(all, n, k);
            lemma_news_contradicts(all, m);
            assert(rest[k] == all[m]);
            assert(same_path(all, i, m));
        }
    }
}

proof fn lemma_news_actions(all: Seq<EntryView>, n: int, options: PlanOptions, disk: DiskView)
    requires
        0 <= n <= all.len(),
    ensures
        ({
            let rest = news(all, all.len() as int);
            let m = news_count(all, n);
            &&& contradictions(rest, m) == contradictions(all, n)
            &&& contradiction_warnings(rest, m) == contradiction_warnings(all, n)
            &&& entry_actions(rest, m, options, disk) == entry_actions(all, n, options, disk)
        }),
    decreases n,
{
    if n > 0 {
        let i = n - 1;
        lemma_news_actions(all, i, options, disk);
        let rest = news(all, all.len() as int);
        let keys = entry_keys(all);
        lemma_first_position(keys, i);
        if is_news(all, i) {
            lemma_news_first(all, i);
            lemma_news_contradicts(all, i);
            lemma_news_counts(all, i);
            assert(news_count(all, n) == news_count(all, i) + 1);
        } else {
            assert(!contradicts(all, i));
            assert(!counts(all, i));
        }
    }
}

/// Dropping the entries that only repeat others, as is done when several
/// manifests are put together, changes nothing in a plan. In particular every
/// contradiction between manifests is still seen.
pub proof fn law_repetitions_do_not_matter(
    all: Seq<EntryView>,
    options: PlanOptions,
    disk: DiskView,
)
    ensures
        plan(news(all, all.len() as int), options, disk) == plan(all, options, disk),
{
    lemma_news_actions(all, all.len() as int, options, disk);
}

} // verus!
