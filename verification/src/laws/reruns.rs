//! Laws of running again: what a second plan makes of what the first one left.

use vstd::prelude::*;
use crate::disk::{digest_of, DiskView};
use crate::hashfile::{entry_keys, EntryView};
use crate::index::{lemma_first_position_is, lemma_positions, positions_of};
use crate::laws::names::lasting;
use crate::laws::plans::{
    called_for,
    law_entries_of_renamed_files_are_done,
    law_no_more_actions_than_entries,
    law_renamed_files_are_not_renamed_again,
    lemma_rename_targets_len,
    lemma_sources,
    lemma_sources_distinct,
    lemma_sources_increase,
    lemma_statuses,
    lemma_target_place,
    lemma_two_rivals,
    sources,
    target_place,
};
use crate::moves::{lemma_renames_among, renames_among};
use crate::names::lemma_target_platform;
use crate::path::{PathView, Platform};
use crate::plan::{
    action_for,
    contradicted,
    contradictions,
    contradicts,
    counts,
    draft,
    entry_action,
    entry_actions,
    goal,
    key_bytes,
    plan,
    planned_actions,
    reconciled,
    rename_targets,
    rivals,
    same_path,
    ActionView,
    PlanOptions,
};
use crate::text::is_hash_digits;

verus! {

broadcast use vstd::seq_lib::group_seq_properties;

/// Some rename leads to `p`.
pub open spec fn leads_to(actions: Seq<ActionView>, p: PathView) -> bool {
    exists|k: int|
        0 <= k < actions.len() && (#[trigger] actions[k]).is_rename() && actions[k].dst is Some
            && actions[k].dst->0.bytes == p.bytes
}

/// Some rename starts from `p`.
pub open spec fn starts_from(actions: Seq<ActionView>, p: PathView) -> bool {
    exists|k: int|
        0 <= k < actions.len() && (#[trigger] actions[k]).is_rename() && actions[k].src.bytes
            == p.bytes
}

/// Every rename was done and nothing else happened: what exists is what was
/// there and did not leave, and what arrived; what stayed has its content.
pub open spec fn carried_out(
    actions: Seq<ActionView>,
    disk: DiskView,
    later: DiskView,
) -> bool {
    &&& forall|p: PathView| #[trigger]
        later.present(p) <==> leads_to(actions, p) || (disk.present(p) && !starts_from(actions, p))
    &&& forall|p: PathView|
        disk.present(p) && !starts_from(actions, p) ==> #[trigger] digest_of(later.digests, p)
            == digest_of(disk.digests, p)
}

/// No file is where another one is to go.
pub open spec fn targets_apart(all: Seq<EntryView>) -> bool {
    forall|i: int, j: int|
        #![trigger all[i], all[j]]
        0 <= i < all.len() && 0 <= j < all.len() && i != j ==> all[i].path.bytes != goal(
            all[j],
        ).bytes
}

pub open spec fn on_one_platform(all: Seq<EntryView>, platform: Platform) -> bool {
    forall|i: int| 0 <= i < all.len() ==> (#[trigger] all[i]).path.platform == platform
}

/// A plan was carried out and another one is to be made.
pub open spec fn runs_again(
    all: Seq<EntryView>,
    options: PlanOptions,
    disk: DiskView,
    later: DiskView,
    platform: Platform,
) -> bool {
    &&& all.len() <= usize::MAX
    &&& on_one_platform(all, platform)
    &&& targets_apart(all)
    &&& carried_out(planned_actions(all, options, disk), disk, later)
}

/// Before rivals are told apart, a file is to be renamed exactly if its entry
/// counts and calls for it.
pub proof fn lemma_draft(all: Seq<EntryView>, options: PlanOptions, disk: DiskView, k: int)
    requires
        0 <= k < sources(all).len(),
    ensures
        ({
            let i = sources(all)[k];
            let a = draft(all, options, disk)[k];
            &&& 0 <= i < all.len()
            &&& sources(all).len() == draft(all, options, disk).len()
            &&& sources(all).len() == planned_actions(all, options, disk).len()
            &&& planned_actions(all, options, disk)[k] == reconciled(draft(all, options, disk), a)
            &&& a.is_rename() <==> counts(all, i) && called_for(all[i], options, disk)
            &&& a.is_rename() ==> a == action_for(all[i], Some(goal(all[i])), "rename"@, ""@)
        }),
{
    lemma_sources(all, options, disk);
    lemma_statuses();
    let i = sources(all)[k];
    if contradicts(all, i) {
        assert(same_path(all, i, i));
        assert(!counts(all, i));
    }
}

/// What the first plan renames is for an entry that counts, and no other rename
/// goes to its target.
proof fn lemma_renamed(all: Seq<EntryView>, options: PlanOptions, disk: DiskView, k: int)
    requires
        0 <= k < planned_actions(all, options, disk).len(),
        planned_actions(all, options, disk)[k].is_rename(),
    ensures
        ({
            let i = sources(all)[k];
            let d = draft(all, options, disk);
            &&& k < sources(all).len()
            &&& 0 <= i < all.len()
            &&& d[k].is_rename()
            &&& rivals(d, goal(all[i])) <= 1
            &&& planned_actions(all, options, disk)[k] == d[k]
            &&& d[k] == action_for(all[i], Some(goal(all[i])), "rename"@, ""@)
        }),
{
    lemma_sources(all, options, disk);
    lemma_draft(all, options, disk, k);
    lemma_statuses();
}

/// The action whose target has the given place among the targets of renames.
proof fn lemma_place_source(actions: Seq<ActionView>, at: int) -> (i: int)
    requires
        0 <= at < rename_targets(actions).len(),
    ensures
        0 <= i < actions.len(),
        actions[i].is_rename(),
        actions[i].dst is Some,
        target_place(actions, i) == at,
        rename_targets(actions)[at] == key_bytes(actions[i].dst->0),
    decreases actions.len(),
{
    let front = actions.drop_last();
    let n = actions.len() - 1;
    if at < rename_targets(front).len() {
        let i = lemma_place_source(front, at);
        assert(front.take(i) =~= actions.take(i));
        i
    } else {
        assert(actions.take(n) =~= front);
        n
    }
}

/// A rename that has rivals has one.
pub proof fn lemma_rival(actions: Seq<ActionView>, k: int) -> (l: int)
    requires
        actions.len() <= usize::MAX,
        0 <= k < actions.len(),
        actions[k].is_rename(),
        actions[k].dst is Some,
        rivals(actions, actions[k].dst->0) > 1,
    ensures
        0 <= l < actions.len(),
        l != k,
        actions[l].is_rename(),
        actions[l].dst is Some,
        key_bytes(actions[l].dst->0) == key_bytes(actions[k].dst->0),
{
    let key = key_bytes(actions[k].dst->0);
    let t = rename_targets(actions);
    lemma_rename_targets_len(actions);
    lemma_target_place(actions, k);
    lemma_positions(t, key);
    let at = positions_of(t, key);
    assert(at[0] < at[1]);
    let place = if at[0] as int == target_place(actions, k) {
        at[1] as int
    } else {
        at[0] as int
    };
    assert(t[place] == key);
    lemma_place_source(actions, place)
}

/// What the second plan would rename, the first would have, rivals apart.
proof fn lemma_called_for_before(
    all: Seq<EntryView>,
    options: PlanOptions,
    disk: DiskView,
    later: DiskView,
    platform: Platform,
    i: int,
)
    requires
        runs_again(all, options, disk, later, platform),
        0 <= i < all.len(),
        called_for(all[i], options, later),
    ensures
        called_for(all[i], options, disk),
        !starts_from(planned_actions(all, options, disk), all[i].path),
{
    let actions = planned_actions(all, options, disk);
    let e = all[i];
    assert(later.present(e.path) && !later.present(goal(e)));
    assert(!leads_to(actions, e.path)) by {
        if leads_to(actions, e.path) {
            let k = choose|k: int|
                0 <= k < actions.len() && (#[trigger] actions[k]).is_rename() && actions[k].dst
                    is Some && actions[k].dst->0.bytes == e.path.bytes;
            lemma_renamed(all, options, disk, k);
            let j = sources(all)[k];
            assert(all[j].path.bytes == all[j].path.bytes);
            if j == i {
                assert(leads_to(actions, goal(e)));
            }
        }
    }
    assert(!disk.present(goal(e))) by {
        if disk.present(goal(e)) {
            assert(starts_from(actions, goal(e)));
            let k = choose|k: int|
                0 <= k < actions.len() && (#[trigger] actions[k]).is_rename()
                    && actions[k].src.bytes == goal(e).bytes;
            lemma_renamed(all, options, disk, k);
            let j = sources(all)[k];
            assert(actions[k].src == all[j].path);
            assert(all[j].path.bytes == goal(all[i]).bytes);
            if j == i {
                assert(starts_from(actions, e.path));
            }
        }
    }
}

/// A rename that was held back for its rivals is still called for.
proof fn lemma_still_called_for(
    all: Seq<EntryView>,
    options: PlanOptions,
    disk: DiskView,
    later: DiskView,
    platform: Platform,
    k: int,
)
    requires
        runs_again(all, options, disk, later, platform),
        0 <= k < draft(all, options, disk).len(),
        draft(all, options, disk)[k].is_rename(),
        !planned_actions(all, options, disk)[k].is_rename(),
    ensures
        k < sources(all).len(),
        draft(all, options, later)[k].is_rename(),
{
    lemma_sources(all, options, disk);
    lemma_draft(all, options, disk, k);
    lemma_draft(all, options, later, k);
    lemma_statuses();
    law_no_more_actions_than_entries(all, options, disk);
    let actions = planned_actions(all, options, disk);
    let d = draft(all, options, disk);
    let i = sources(all)[k];
    let e = all[i];
    assert(rivals(d, goal(e)) > 1);
    assert(!starts_from(actions, e.path)) by {
        if starts_from(actions, e.path) {
            let m = choose|m: int|
                0 <= m < actions.len() && (#[trigger] actions[m]).is_rename()
                    && actions[m].src.bytes == e.path.bytes;
            lemma_renamed(all, options, disk, m);
            let j = sources(all)[m];
            assert(m != k);
            if m < k {
                lemma_sources_increase(all, m, k);
            } else {
                lemma_sources_increase(all, k, m);
            }
            lemma_draft(all, options, disk, m);
            lemma_sources_distinct(all, i, j);
            assert(all[j].path =~= all[i].path);
            assert(same_path(all, i, j));
        }
    }
    assert(!leads_to(actions, goal(e))) by {
        if leads_to(actions, goal(e)) {
            let m = choose|m: int|
                0 <= m < actions.len() && (#[trigger] actions[m]).is_rename() && actions[m].dst
                    is Some && actions[m].dst->0.bytes == goal(e).bytes;
            lemma_renamed(all, options, disk, m);
            let j = sources(all)[m];
            lemma_target_platform(all[i].path, all[i].hash, "_"@);
            lemma_target_platform(all[j].path, all[j].hash, "_"@);
            assert(goal(all[j]) =~= goal(all[i]));
        }
    }
    assert(called_for(e, options, later));
}

/// Once every rename of a plan was done and nothing else happened, a second plan
/// from the same entries renames nothing, and there is nothing to apply. No file
/// may be where another one was to go.
pub proof fn law_second_runs_rename_nothing(
    all: Seq<EntryView>,
    options: PlanOptions,
    disk: DiskView,
    later: DiskView,
    platform: Platform,
)
    requires
        runs_again(all, options, disk, later, platform),
    ensures
        forall|k: int|
            0 <= k < planned_actions(all, options, later).len() ==> !(#[trigger] planned_actions(
                all,
                options,
                later,
            )[k]).is_rename(),
        renames_among(plan(all, options, later).actions).len() == 0,
{
    let actions = planned_actions(all, options, disk);
    let again = planned_actions(all, options, later);
    let d = draft(all, options, disk);
    lemma_sources(all, options, disk);
    lemma_sources(all, options, later);
    law_no_more_actions_than_entries(all, options, disk);
    law_no_more_actions_than_entries(all, options, later);
    lemma_statuses();
    assert forall|k: int| 0 <= k < again.len() implies !(#[trigger] again[k]).is_rename() by {
        if again[k].is_rename() {
            lemma_renamed(all, options, later, k);
            lemma_draft(all, options, later, k);
            lemma_draft(all, options, disk, k);
            let i = sources(all)[k];
            lemma_called_for_before(all, options, disk, later, platform, i);
            assert(d[k].is_rename());
            if actions[k].is_rename() {
                lemma_renamed(all, options, disk, k);
                assert(starts_from(actions, all[i].path));
            } else {
                let l = lemma_rival(d, k);
                lemma_draft(all, options, disk, l);
                assert(!actions[l].is_rename());
                lemma_still_called_for(all, options, disk, later, platform, l);
                lemma_draft(all, options, later, l);
                let e = draft(all, options, later);
                assert(e[l].dst == d[l].dst && e[k].dst == d[k].dst);
                if k < l {
                    lemma_two_rivals(e, k, l);
                } else {
                    lemma_two_rivals(e, l, k);
                }
            }
            assert(false);
        }
    }
    lemma_renames_among(again);
    let queue = renames_among(again);
    if queue.len() > 0 {
        assert(again[queue[0] as int].is_rename());
    }
}

/// A plan for one entry has one action, and it is the action for that entry.
pub proof fn lemma_one_entry(e: EntryView, options: PlanOptions, disk: DiskView)
    ensures
        planned_actions(seq![e], options, disk) == seq![entry_action(e, options, disk)],
{
    let all = seq![e];
    let keys = entry_keys(all);
    lemma_first_position_is(keys, 0, 0);
    assert(!contradicts(all, 0));
    assert(!contradicted(all, 0));
    assert(counts(all, 0));
    reveal_with_fuel(entry_actions, 2);
    reveal_with_fuel(contradictions, 2);
    let a = entry_action(e, options, disk);
    assert(entry_actions(all, 1, options, disk) =~= seq![a]);
    assert(contradictions(all, 1) =~= Seq::<ActionView>::empty());
    let d = draft(all, options, disk);
    assert(d =~= seq![a]);
    if a.dst is Some {
        lemma_rename_targets_len(d);
        lemma_positions(rename_targets(d), key_bytes(a.dst->0));
        assert(rivals(d, a.dst->0) <= 1);
    }
    assert(planned_actions(all, options, disk) =~= seq![a]);
}

/// Where the only action of a plan for one entry is a rename and it was done, a
/// plan for that entry, and one for an entry of the same hash at the new place,
/// have one action each: the file is done, and it is at the new place.
pub proof fn law_one_renamed_file_is_done(
    e: EntryView,
    options: PlanOptions,
    disk: DiskView,
    later: DiskView,
    again: EntryView,
)
    requires
        lasting(e.path),
        is_hash_digits(e.hash),
        plan(seq![e], options, disk).actions[0].is_rename(),
        !later.present(e.path),
        later.present(goal(e)),
        again.path == goal(e),
        again.hash == e.hash,
    ensures
        plan(seq![e], options, disk).actions.len() == 1,
        plan(seq![e], options, disk).actions[0].dst == Some(goal(e)),
        plan(seq![e], options, later).actions == seq![
            action_for(
                e,
                Some(goal(e)),
                "done"@,
                "source already renamed in a prior run"@,
            ),
        ],
        plan(seq![again], options, later).actions == seq![
            action_for(again, Some(goal(e)), "done"@, "already suffixed"@),
        ],
{
    lemma_one_entry(e, options, disk);
    lemma_one_entry(e, options, later);
    lemma_one_entry(again, options, later);
    lemma_statuses();
    law_entries_of_renamed_files_are_done(e, options, disk, later);
    law_renamed_files_are_not_renamed_again(e, options, disk, later, again);
}

} // verus!
