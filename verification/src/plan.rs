//! Plans: which files are to be renamed to what, and what becomes of the rest.

use vstd::prelude::*;
use vstd::string::*;
use vstd::utf8::*;
use crate::digest::{mismatch_text, verify_hash};
use crate::disk::{
    digest_of,
    find_digest,
    index_digests,
    index_paths,
    option_view,
    walk_views,
    Disk,
    DiskView,
    WalkView,
    WalkedFile,
};
use crate::error::Failure;
use crate::hashfile::{
    entry_keys,
    entry_views,
    keys_of_entries,
    path_key,
    path_key_text,
    EntryView,
    HashEntry,
};
use crate::index::{
    first_position,
    first_positions,
    lemma_first_position,
    lemma_first_position_is,
    positions_of,
    text_views,
    Grouping,
};
use crate::names::{
    already_suffixed,
    default_video_exts,
    is_system_file,
    is_video,
    passes,
    passes_filters,
    suffixed_with,
    system_file,
    target,
    target_for,
    video_extensions,
    video_file,
};
use crate::path::{path_text, path_views, FilePath, PathView};
use crate::text::{decimal, decimal_text, same_text, uppercase};

verus! {

broadcast use vstd::seq_lib::group_seq_properties;

// ---------------------------------------------------------------------------
// Actions and reports
// ---------------------------------------------------------------------------

/// What becomes of one file.
#[derive(Debug)]
pub struct Action {
    pub src: FilePath,
    pub dst: Option<FilePath>,
    pub hash: String,
    /// `rename`, `done`, `missing`, `conflict`, `not-video` or `verify-failed`;
    /// `renamed` or `error` once a rename has been tried.
    pub status: String,
    pub note: String,
}

#[verifier::ext_equal]
pub struct ActionView {
    pub src: PathView,
    pub dst: Option<PathView>,
    pub hash: Seq<char>,
    pub status: Seq<char>,
    pub note: Seq<char>,
}

impl View for Action {
    type V = ActionView;

    open spec fn view(&self) -> ActionView {
        ActionView {
            src: self.src@,
            dst: option_view(self.dst),
            hash: self.hash@,
            status: self.status@,
            note: self.note@,
        }
    }
}

impl Clone for Action {
    fn clone(&self) -> (r: Action)
        ensures
            r@ == self@,
    {
        Action {
            src: self.src.clone(),
            dst: match &self.dst {
                Some(p) => Some(p.clone()),
                None => None,
            },
            hash: self.hash.clone(),
            status: self.status.clone(),
            note: self.note.clone(),
        }
    }
}

pub open spec fn action_views(v: Seq<Action>) -> Seq<ActionView> {
    Seq::new(v.len(), |i: int| v[i]@)
}

#[derive(Debug)]
pub struct Report {
    pub actions: Vec<Action>,
    /// Files that no action is about.
    pub orphans: Vec<FilePath>,
    pub warnings: Vec<String>,
}

#[verifier::ext_equal]
pub struct ReportView {
    pub actions: Seq<ActionView>,
    pub orphans: Seq<PathView>,
    pub warnings: Seq<Seq<char>>,
}

impl View for Report {
    type V = ReportView;

    open spec fn view(&self) -> ReportView {
        ReportView {
            actions: action_views(self.actions@),
            orphans: path_views(self.orphans@),
            warnings: text_views(self.warnings@),
        }
    }
}

impl ActionView {
    pub open spec fn is_rename(self) -> bool {
        self.status == "rename"@
    }
}

/// How a plan is to be made.
#[verifier::ext_equal]
pub struct PlanOptions {
    pub verify: bool,
    pub all_files: bool,
    pub only_dupes: bool,
}

// ---------------------------------------------------------------------------
// Contradictions between manifests
// ---------------------------------------------------------------------------

/// Two entries are for the same path.
pub open spec fn same_path(all: Seq<EntryView>, i: int, j: int) -> bool {
    path_key_text(all[i].path) == path_key_text(all[j].path)
}

/// The entry at `j` is the first whose hash contradicts that of the first entry
/// for its path.
pub open spec fn contradicts(all: Seq<EntryView>, j: int) -> bool {
    let first = first_position(entry_keys(all), j);
    &&& all[j].hash != all[first].hash
    &&& forall|k: int|
        0 <= k < j && #[trigger] same_path(all, k, j) ==> all[k].hash == all[first].hash
}

/// Some entry contradicts the first entry for the path of the entry at `i`.
pub open spec fn contradicted(all: Seq<EntryView>, i: int) -> bool {
    exists|j: int| 0 <= j < all.len() && #[trigger] same_path(all, i, j) && contradicts(all, j)
}

/// The entry at `i` is the one that counts for its path: the first, with no
/// other hash for that path.
pub open spec fn counts(all: Seq<EntryView>, i: int) -> bool {
    first_position(entry_keys(all), i) == i && !contradicted(all, i)
}

pub open spec fn contradiction_warning(first: EntryView, later: EntryView) -> Seq<char> {
    "Warning: "@ + path_text(later.path) + " listed with two different hashes:\n  manifest 1: "@
        + first.hash + " (from "@ + path_text(first.manifest) + ")\n  manifest 2: "@ + later.hash
        + " (from "@ + path_text(later.manifest) + ")"@
}

pub open spec fn contradiction_action(first: EntryView, later: EntryView) -> ActionView {
    ActionView {
        src: later.path,
        dst: None,
        hash: later.hash,
        status: "conflict"@,
        note: "same path listed with two hashes ("@ + first.hash + " vs "@ + later.hash + ")"@,
    }
}

/// An action for each contradiction among the first `n` entries.
pub open spec fn contradictions(all: Seq<EntryView>, n: int) -> Seq<ActionView>
    decreases n,
{
    if n <= 0 {
        Seq::empty()
    } else if contradicts(all, n - 1) {
        contradictions(all, n - 1).push(
            contradiction_action(all[first_position(entry_keys(all), n - 1)], all[n - 1]),
        )
    } else {
        contradictions(all, n - 1)
    }
}

/// A warning for each contradiction among the first `n` entries.
pub open spec fn contradiction_warnings(all: Seq<EntryView>, n: int) -> Seq<Seq<char>>
    decreases n,
{
    if n <= 0 {
        Seq::empty()
    } else if contradicts(all, n - 1) {
        contradiction_warnings(all, n - 1).push(
            contradiction_warning(all[first_position(entry_keys(all), n - 1)], all[n - 1]),
        )
    } else {
        contradiction_warnings(all, n - 1)
    }
}

// ---------------------------------------------------------------------------
// One file
// ---------------------------------------------------------------------------

pub open spec fn action_for(
    e: EntryView,
    dst: Option<PathView>,
    status: Seq<char>,
    note: Seq<char>,
) -> ActionView {
    ActionView { src: e.path, dst, hash: e.hash, status, note }
}

/// Where the file of an entry is to go.
pub open spec fn goal(e: EntryView) -> PathView {
    target(e.path, e.hash, "_"@)
}

/// The name of the file already settles what becomes of it.
pub open spec fn settled_by_name(e: EntryView, all_files: bool) -> Option<ActionView> {
    if system_file(e.path) {
        Some(action_for(e, None, "not-video"@, "system file (excluded)"@))
    } else if !all_files && !video_file(e.path, video_extensions()) {
        Some(action_for(e, None, "not-video"@, "extension not in video allowlist"@))
    } else if suffixed_with(e.path, e.hash) {
        Some(action_for(e, Some(e.path), "done"@, "already suffixed"@))
    } else {
        None
    }
}

/// Which of source and target exist settles what becomes of the file.
pub open spec fn settled_by_disk(e: EntryView, src: bool, dst: bool) -> Option<ActionView> {
    if !src && dst {
        Some(action_for(e, Some(goal(e)), "done"@, "source already renamed in a prior run"@))
    } else if !src {
        Some(
            action_for(
                e,
                None,
                "missing"@,
                "listed in manifest but not found on disk (checked: "@ + path_text(e.path) + ")"@,
            ),
        )
    } else if dst {
        Some(action_for(e, Some(goal(e)), "conflict"@, "target name already exists on disk"@))
    } else {
        None
    }
}

/// What holding the content of the file against its hash gives.
pub open spec fn verification(e: EntryView, digest: Option<Result<Seq<char>, Seq<char>>>) -> Result<
    (),
    Seq<char>,
> {
    match digest {
        None => Err("content was not read"@),
        Some(Err(why)) => Err(why),
        Some(Ok(got)) => if got == uppercase(e.hash) {
            Ok(())
        } else {
            Err(mismatch_text(e.hash, got))
        },
    }
}

/// What becomes of the file of an entry, other files apart.
pub open spec fn entry_action(e: EntryView, options: PlanOptions, disk: DiskView) -> ActionView {
    match settled_by_name(e, options.all_files) {
        Some(a) => a,
        None => match settled_by_disk(e, disk.present(e.path), disk.present(goal(e))) {
            Some(a) => a,
            None => if options.verify && !e.computed {
                match verification(e, digest_of(disk.digests, e.path)) {
                    Err(why) => action_for(e, Some(goal(e)), "verify-failed"@, why),
                    Ok(_) => action_for(e, Some(goal(e)), "rename"@, ""@),
                }
            } else {
                action_for(e, Some(goal(e)), "rename"@, ""@)
            },
        },
    }
}

/// The actions for those of the first `n` entries that count.
pub open spec fn entry_actions(
    all: Seq<EntryView>,
    n: int,
    options: PlanOptions,
    disk: DiskView,
) -> Seq<ActionView>
    decreases n,
{
    if n <= 0 {
        Seq::empty()
    } else if counts(all, n - 1) {
        entry_actions(all, n - 1, options, disk).push(entry_action(all[n - 1], options, disk))
    } else {
        entry_actions(all, n - 1, options, disk)
    }
}

// ---------------------------------------------------------------------------
// Several files with one target
// ---------------------------------------------------------------------------

/// The key of a path as bytes.
pub open spec fn key_bytes(p: PathView) -> Seq<u8> {
    encode_utf8(path_key_text(p))
}

/// The keys of the targets of the renames among the actions.
pub open spec fn rename_targets(actions: Seq<ActionView>) -> Seq<Seq<u8>>
    decreases actions.len(),
{
    if actions.len() == 0 {
        Seq::empty()
    } else {
        let before = rename_targets(actions.drop_last());
        match actions.last().dst {
            Some(dst) if actions.last().is_rename() => before.push(key_bytes(dst)),
            _ => before,
        }
    }
}

/// How many renames go to the target of `dst`.
pub open spec fn rivals(actions: Seq<ActionView>, dst: PathView) -> nat {
    positions_of(rename_targets(actions), key_bytes(dst)).len()
}

/// An action in the light of the others: a rename whose target others want too
/// is a conflict.
pub open spec fn reconciled(actions: Seq<ActionView>, a: ActionView) -> ActionView {
    match a.dst {
        Some(dst) if a.is_rename() && rivals(actions, dst) > 1 => ActionView {
            status: "conflict"@,
            note: decimal_text(rivals(actions, dst))
                + " different files would collide on target name"@,
            ..a
        },
        _ => a,
    }
}

pub open spec fn reconcile(actions: Seq<ActionView>) -> Seq<ActionView> {
    Seq::new(actions.len(), |i: int| reconciled(actions, actions[i]))
}

// ---------------------------------------------------------------------------
// Files that no entry is about
// ---------------------------------------------------------------------------

/// Some action starts from or leads to the path with this key.
pub open spec fn covered(actions: Seq<ActionView>, key: Seq<u8>) -> bool {
    exists|i: int|
        0 <= i < actions.len() && (key_bytes((#[trigger] actions[i]).src) == key || (
        actions[i].dst matches Some(dst) && key_bytes(dst) == key))
}

pub open spec fn is_orphan(w: WalkView, actions: Seq<ActionView>, all_files: bool) -> bool {
    passes(w.path, w.is_file, all_files) && !covered(actions, key_bytes(w.location()))
}

/// Where the files are that pass the filter and that no action is about.
pub open spec fn orphans_of(
    walk: Seq<WalkView>,
    actions: Seq<ActionView>,
    all_files: bool,
) -> Seq<PathView>
    decreases walk.len(),
{
    if walk.len() == 0 {
        Seq::empty()
    } else {
        let before = orphans_of(walk.drop_last(), actions, all_files);
        if is_orphan(walk.last(), actions, all_files) {
            before.push(walk.last().location())
        } else {
            before
        }
    }
}

// ---------------------------------------------------------------------------
// The plan
// ---------------------------------------------------------------------------

/// The actions before those with one target are told apart: contradictions
/// first, then the entries that count.
pub open spec fn draft(all: Seq<EntryView>, options: PlanOptions, disk: DiskView) -> Seq<
    ActionView,
> {
    contradictions(all, all.len() as int) + entry_actions(all, all.len() as int, options, disk)
}

pub open spec fn planned_actions(
    all: Seq<EntryView>,
    options: PlanOptions,
    disk: DiskView,
) -> Seq<ActionView> {
    reconcile(draft(all, options, disk))
}

pub open spec fn plan(all: Seq<EntryView>, options: PlanOptions, disk: DiskView) -> ReportView {
    let actions = planned_actions(all, options, disk);
    ReportView {
        actions,
        orphans: if options.only_dupes {
            Seq::empty()
        } else {
            orphans_of(disk.walk, actions, options.all_files)
        },
        warnings: contradiction_warnings(all, all.len() as int),
    }
}

// ---------------------------------------------------------------------------
// Executable functions
// ---------------------------------------------------------------------------

fn path_key_bytes(p: &FilePath) -> (r: Vec<u8>)
    ensures
        r@ == key_bytes(p@),
{
    vstd::slice::slice_to_vec(path_key(p).as_str().as_bytes())
}

fn make_action(e: &HashEntry, dst: Option<FilePath>, status: &str, note: String) -> (r: Action)
    ensures
        r@ == action_for(e@, option_view(dst), status@, note@),
{
    Action {
        src: e.abs_path.clone(),
        dst,
        hash: e.hash.clone(),
        status: status.to_string(),
        note,
    }
}

pub(crate) fn settle_by_name(e: &HashEntry, all_files: bool) -> (r: Option<Action>)
    ensures
        match r {
            Some(a) => settled_by_name(e@, all_files) == Some(a@),
            None => settled_by_name(e@, all_files) is None,
        },
{
    if is_system_file(&e.abs_path) {
        return Some(make_action(e, None, "not-video", "system file (excluded)".to_string()));
    }
    if !all_files && !is_video(&e.abs_path, default_video_exts().as_slice()) {
        return Some(
            make_action(e, None, "not-video", "extension not in video allowlist".to_string()),
        );
    }
    if already_suffixed(&e.abs_path, e.hash.as_str()) {
        let src = e.abs_path.clone();
        return Some(make_action(e, Some(src), "done", "already suffixed".to_string()));
    }
    None
}

pub(crate) fn settle_by_disk(e: &HashEntry, src: bool, dst: bool) -> (r: Option<Action>)
    ensures
        match r {
            Some(a) => settled_by_disk(e@, src, dst) == Some(a@),
            None => settled_by_disk(e@, src, dst) is None,
        },
{
    let goal = target_for(&e.abs_path, e.hash.as_str(), "_");
    if !src {
        if dst {
            return Some(
                make_action(
                    e,
                    Some(goal),
                    "done",
                    "source already renamed in a prior run".to_string(),
                ),
            );
        }
        let mut note = "listed in manifest but not found on disk (checked: ".to_string();
        note.append(e.abs_path.text().as_str());
        note.append(")");
        return Some(make_action(e, None, "missing", note));
    }
    if dst {
        return Some(
            make_action(
                e,
                Some(goal),
                "conflict",
                "target name already exists on disk".to_string(),
            ),
        );
    }
    None
}

fn verify_entry(e: &HashEntry, digest: Option<Result<String, String>>) -> (r: Result<(), String>)
    ensures
        ({
            let d = match digest {
                Some(outcome) => Some(crate::disk::outcome_view(outcome)),
                None => None,
            };
            match r {
                Ok(_) => verification(e@, d) is Ok,
                Err(why) => verification(e@, d) == Err::<(), Seq<char>>(why@),
            }
        }),
{
    match digest {
        None => Err("content was not read".to_string()),
        Some(Err(why)) => Err(why),
        Some(Ok(got)) => verify_hash(got.as_str(), e.hash.as_str()),
    }
}

/// Which entries are for a path that an entry contradicts, by first position.
pub(crate) fn find_contradictions(entries: &Vec<HashEntry>, first: &Vec<usize>) -> (r: (
    Vec<bool>,
    Vec<bool>,
))
    requires
        first@.len() == entries@.len(),
        forall|k: int|
            0 <= k < entries@.len() ==> #[trigger] first@[k] == first_position(
                entry_keys(entry_views(entries@)),
                k,
            ),
    ensures
        r.0@.len() == entries@.len(),
        r.1@.len() == entries@.len(),
        forall|k: int|
            0 <= k < entries@.len() ==> #[trigger] r.0@[k] == contradicts(
                entry_views(entries@),
                k,
            ),
        forall|k: int|
            0 <= k < entries@.len() ==> #[trigger] r.1@[k] == counts(entry_views(entries@), k),
{
    let ghost all = entry_views(entries@);
    let ghost keys = entry_keys(all);
    let n = entries.len();
    let mut clash: Vec<bool> = Vec::new();
    // For a first position: some entry seen so far contradicts it.
    let mut broken: Vec<bool> = Vec::new();
    let mut i: usize = 0;
    while i < n
        invariant
            n == entries@.len(),
            all == entry_views(entries@),
            keys == entry_keys(all),
            first@.len() == n,
            forall|k: int| 0 <= k < n ==> #[trigger] first@[k] == first_position(keys, k),
            i <= n,
            clash@.len() == i,
            broken@.len() == i,
            forall|k: int| 0 <= k < i ==> #[trigger] clash@[k] == contradicts(all, k),
            forall|k: int|
                0 <= k < i && first@[k] == k ==> (#[trigger] broken@[k] <==> exists|j: int|
                    0 <= j < i && #[trigger] same_path(all, k, j) && contradicts(all, j)),
            forall|k: int|
                0 <= k < i && first@[k] == k ==> (#[trigger] broken@[k] <==> exists|j: int|
                    0 <= j < i && #[trigger] same_path(all, k, j) && all[j].hash != all[k].hash),
        decreases n - i,
    {
        let f = first[i];
        let ghost broken0 = broken@;
        proof {
            lemma_first_position(keys, i as int);
        }
        broken.push(false);
        let differs = entries[f].hash != entries[i].hash;
        let mut c = false;
        if differs {
            proof {
                assert(f != i);
                lemma_first_position(keys, f as int);
                lemma_first_position_is(keys, f as int, f as int);
                assert(keys[f as int] == keys[i as int]);
                assert(same_path(all, f as int, i as int));
            }
            if !broken[f] {
                c = true;
                assert(contradicts(all, i as int)) by {
                    assert forall|k: int|
                        0 <= k < i && #[trigger] same_path(all, k, i as int) implies all[k].hash
                        == all[f as int].hash by {
                        assert(same_path(all, f as int, k));
                    }
                }
                broken.set(f, true);
            } else {
                assert(!contradicts(all, i as int)) by {
                    let j = choose|j: int|
                        0 <= j < i && #[trigger] same_path(all, f as int, j) && all[j].hash
                            != all[f as int].hash;
                    assert(same_path(all, j, i as int));
                }
            }
        }
        clash.push(c);
        proof {
            assert(c == contradicts(all, i as int));
            assert forall|k: int| 0 <= k < i + 1 && first@[k] == k implies (
            #[trigger] broken@[k] <==> exists|j: int|
                0 <= j < i + 1 && #[trigger] same_path(all, k, j) && contradicts(all, j)) by {
                if k < i {
                    if broken0[k] {
                        let j = choose|j: int|
                            0 <= j < i && #[trigger] same_path(all, k, j) && contradicts(all, j);
                        assert(same_path(all, k, j));
                    }
                    if k == f && c {
                        assert(same_path(all, k, i as int));
                    }
                    if !broken@[k] {
                        assert forall|j: int|
                            0 <= j < i + 1 && #[trigger] same_path(all, k, j) implies !contradicts(
                            all,
                            j,
                        ) by {
                            if j == i {
                                lemma_first_position(keys, k);
                                assert(keys[k] == keys[j]);
                                lemma_first_position_is(keys, j, k);
                            }
                        }
                    }
                } else {
                    assert(!broken@[k]);
                    assert forall|j: int|
                        0 <= j < i + 1 && #[trigger] same_path(all, k, j) implies !contradicts(
                        all,
                        j,
                    ) by {
                        if j < i {
                            assert(keys[j] == keys[k]);
                        }
                    }
                }
            }
            assert forall|k: int| 0 <= k < i + 1 && first@[k] == k implies (
            #[trigger] broken@[k] <==> exists|j: int|
                0 <= j < i + 1 && #[trigger] same_path(all, k, j) && all[j].hash
                    != all[k].hash) by {
                if k < i {
                    if broken0[k] {
                        let j = choose|j: int|
                            0 <= j < i && #[trigger] same_path(all, k, j) && all[j].hash
                                != all[k].hash;
                        assert(same_path(all, k, j));
                    }
                    if k == f && c {
                        assert(same_path(all, k, i as int));
                    }
                    if !broken@[k] {
                        assert forall|j: int|
                            0 <= j < i + 1 && #[trigger] same_path(all, k, j) implies all[j].hash
                            == all[k].hash by {
                            if j == i {
                                lemma_first_position(keys, k);
                                assert(keys[k] == keys[j]);
                                lemma_first_position_is(keys, j, k);
                            }
                        }
                    }
                } else {
                    assert(!broken@[k]);
                    assert forall|j: int|
                        0 <= j < i + 1 && #[trigger] same_path(all, k, j) implies all[j].hash
                        == all[k].hash by {
                        if j < i {
                            assert(keys[j] == keys[k]);
                        }
                    }
                }
            }
        }
        i += 1;
    }
    let mut counting: Vec<bool> = Vec::new();
    i = 0;
    while i < n
        invariant
            n == entries@.len(),
            all == entry_views(entries@),
            keys == entry_keys(all),
            first@.len() == n,
            broken@.len() == n,
            forall|k: int| 0 <= k < n ==> #[trigger] first@[k] == first_position(keys, k),
            forall|k: int|
                0 <= k < n && first@[k] == k ==> (#[trigger] broken@[k] <==> contradicted(all, k)),
            i <= n,
            counting@.len() == i,
            forall|k: int| 0 <= k < i ==> #[trigger] counting@[k] == counts(all, k),
        decreases n - i,
    {
        counting.push(first[i] == i && !broken[i]);
        i += 1;
    }
    (clash, counting)
}

fn contradiction(first: &HashEntry, later: &HashEntry) -> (r: (Action, String))
    ensures
        r.0@ == contradiction_action(first@, later@),
        r.1@ == contradiction_warning(first@, later@),
{
    let mut warning = "Warning: ".to_string();
    warning.append(later.abs_path.text().as_str());
    warning.append(" listed with two different hashes:\n  manifest 1: ");
    warning.append(first.hash.as_str());
    warning.append(" (from ");
    warning.append(first.manifest_path.text().as_str());
    warning.append(")\n  manifest 2: ");
    warning.append(later.hash.as_str());
    warning.append(" (from ");
    warning.append(later.manifest_path.text().as_str());
    warning.append(")");
    let mut note = "same path listed with two hashes (".to_string();
    note.append(first.hash.as_str());
    note.append(" vs ");
    note.append(later.hash.as_str());
    note.append(")");
    (make_action(later, None, "conflict", note), warning)
}

/// Tells renames with one target apart.
fn reconcile_actions(actions: Vec<Action>) -> (r: Vec<Action>)
    ensures
        action_views(r@) == reconcile(action_views(actions@)),
{
    let ghost views = action_views(actions@);
    let n = actions.len();
    let mut targets = Grouping::new();
    let mut i: usize = 0;
    assert(views.take(0) =~= Seq::<ActionView>::empty());
    while i < n
        invariant
            n == actions@.len(),
            views == action_views(actions@),
            i <= n,
            targets.wf(),
            targets@ == rename_targets(views.take(i as int)),
            targets@.len() <= i,
        decreases n - i,
    {
        let a = &actions[i];
        proof {
            assert(views.take(i + 1).drop_last() =~= views.take(i as int));
            assert(views.take(i + 1).last() == views[i as int]);
        }
        if let Some(dst) = &a.dst {
            if same_text(a.status.as_str(), "rename") {
                targets.push(path_key_bytes(dst).as_slice());
            }
        }
        i += 1;
    }
    assert(views.take(n as int) =~= views);
    let mut out = actions;
    i = 0;
    while i < n
        invariant
            n == out@.len(),
            n == views.len(),
            i <= n,
            targets.wf(),
            targets@ == rename_targets(views),
            targets@.len() <= n,
            forall|k: int| 0 <= k < i ==> (#[trigger] out@[k])@ == reconciled(views, views[k]),
            forall|k: int| i <= k < n ==> (#[trigger] out@[k])@ == views[k],
        decreases n - i,
    {
        assert(out@[i as int]@ == views[i as int]);
        let mut count: usize = 0;
        if let Some(dst) = &out[i].dst {
            if same_text(out[i].status.as_str(), "rename") {
                count = targets.positions(path_key_bytes(dst).as_slice()).len();
                assert(count == rivals(views, dst@));
            }
        }
        if count > 1 {
            let mut note = decimal(count as u64);
            note.append(" different files would collide on target name");
            let mut a = out.remove(i);
            a.status = "conflict".to_string();
            a.note = note;
            assert(a@ =~= reconciled(views, views[i as int]));
            out.insert(i, a);
        }
        i += 1;
    }
    assert(action_views(out@) =~= reconcile(views));
    out
}

/// The files that no action is about.
fn find_orphans(
    walk: &Vec<WalkedFile>,
    actions: &Vec<Action>,
    all_files: bool,
) -> (r: Vec<FilePath>)
    ensures
        path_views(r@) == orphans_of(walk_views(walk@), action_views(actions@), all_files),
{
    let ghost views = action_views(actions@);
    let mut known = crate::index::KeyIndex::new();
    let mut i: usize = 0;
    while i < actions.len()
        invariant
            i <= actions@.len(),
            views == action_views(actions@),
            known.wf(),
            forall|key: Seq<u8>|
                #[trigger] known@.contains(key) <==> covered(views.take(i as int), key),
        decreases actions@.len() - i,
    {
        let ghost known0 = known@;
        let ghost a = views[i as int];
        let ghost k1 = key_bytes(a.src);
        let src_pos = known.find_or_add(path_key_bytes(&actions[i].src).as_slice());
        let ghost known1 = known@;
        proof {
            lemma_added(known0, known1, k1, src_pos as int);
        }
        if let Some(dst) = &actions[i].dst {
            let dst_pos = known.find_or_add(path_key_bytes(dst).as_slice());
            proof {
                lemma_added(known1, known@, key_bytes(dst@), dst_pos as int);
            }
        }
        proof {
            let now = views.take(i + 1);
            let before = views.take(i as int);
            assert forall|key: Seq<u8>| #[trigger] known@.contains(key) <==> covered(now, key) by {
                if covered(before, key) {
                    let c = choose|c: int|
                        0 <= c < before.len() && (key_bytes((#[trigger] before[c]).src) == key || (
                        before[c].dst matches Some(dst) && key_bytes(dst) == key));
                    assert(now[c] == before[c]);
                }
                if covered(now, key) {
                    let c = choose|c: int|
                        0 <= c < now.len() && (key_bytes((#[trigger] now[c]).src) == key || (
                        now[c].dst matches Some(dst) && key_bytes(dst) == key));
                    if c < i {
                        assert(now[c] == before[c]);
                        assert(covered(before, key));
                    } else {
                        assert(now[c] == a);
                    }
                    assert(known0.contains(key) ==> known1.contains(key));
                }
                if known@.contains(key) && !covered(before, key) {
                    assert(now[i as int] == a);
                }
            }
        }
        i += 1;
    }
    assert(views.take(i as int) =~= views);
    let ghost wv = walk_views(walk@);
    let mut out: Vec<FilePath> = Vec::new();
    i = 0;
    assert(wv.take(0) =~= Seq::<WalkView>::empty());
    assert(path_views(out@) =~= Seq::<PathView>::empty());
    while i < walk.len()
        invariant
            i <= walk@.len(),
            wv == walk_views(walk@),
            known.wf(),
            forall|key: Seq<u8>| #[trigger] known@.contains(key) <==> covered(views, key),
            path_views(out@) == orphans_of(wv.take(i as int), views, all_files),
        decreases walk@.len() - i,
    {
        let w = &walk[i];
        let ghost before = path_views(out@);
        proof {
            assert(wv.take(i + 1).drop_last() =~= wv.take(i as int));
            assert(wv.take(i + 1).last() == w@);
        }
        if passes_filters(&w.path, w.is_file, all_files) {
            let at = w.location();
            let found = known.find(path_key_bytes(&at).as_slice());
            if found.is_none() {
                out.push(at);
                assert(path_views(out@) =~= before.push(w@.location()));
            } else {
                assert(known@.contains(key_bytes(w@.location())));
            }
        }
        i += 1;
    }
    assert(wv.take(i as int) =~= wv);
    out
}

proof fn lemma_added(before: Seq<Seq<u8>>, after: Seq<Seq<u8>>, key: Seq<u8>, at: int)
    requires
        before.contains(key) ==> after == before,
        !before.contains(key) ==> after == before.push(key),
        0 <= at < after.len(),
        after[at] == key,
    ensures
        forall|k: Seq<u8>| #[trigger] after.contains(k) <==> before.contains(k) || k == key,
{
    assert forall|k: Seq<u8>| #[trigger] after.contains(k) <==> before.contains(k) || k == key by {
        if before.contains(k) {
            let c = choose|c: int| 0 <= c < before.len() && before[c] == k;
            assert(after[c] == k);
        }
        if after.contains(k) && k != key {
            let c = choose|c: int| 0 <= c < after.len() && after[c] == k;
            assert(before[c] == k);
        }
    }
}

/// A renaming of the files below a directory.
#[derive(Debug)]
pub struct RenameOperation {
    pub path: FilePath,
    /// The manifest to read; without one, all manifests below the directory.
    pub hashfile: Option<FilePath>,
    /// Check the content of each file against its hash first.
    pub verify: bool,
    /// Change nothing.
    pub dry_run: bool,
    /// Take files of all types, not only videos.
    pub all_files: bool,
    /// Take only files whose name occurs more than once.
    pub only_dupes: bool,
}

impl RenameOperation {
    pub open spec fn options(&self) -> PlanOptions {
        PlanOptions {
            verify: self.verify,
            all_files: self.all_files,
            only_dupes: self.only_dupes,
        }
    }

    /// A renaming below `path`, of which the disk says whether it exists and is
    /// a directory.
    pub fn new(
        path: FilePath,
        hashfile: Option<FilePath>,
        verify: bool,
        dry_run: bool,
        all_files: bool,
        only_dupes: bool,
        present: bool,
        is_dir: bool,
    ) -> (r: Result<RenameOperation, Failure>)
        ensures
            r is Ok <==> present && is_dir,
            r matches Ok(op) ==> op == (RenameOperation {
                path,
                hashfile,
                verify,
                dry_run,
                all_files,
                only_dupes,
            }),
            r matches Err(e) ==> e == Failure::NotADirectory(path),
    {
        if !present || !is_dir {
            return Err(Failure::NotADirectory(path));
        }
        Ok(RenameOperation { path, hashfile, verify, dry_run, all_files, only_dupes })
    }

    /// What becomes of the file of one entry, other files apart.
    fn plan_entry(
        &self,
        e: &HashEntry,
        disk: &Disk,
        existing: &Grouping,
        digests: &Grouping,
    ) -> (r: Action)
        requires
            existing.wf(),
            existing@ == disk@.existing,
            digests.wf(),
            digests@ == crate::disk::digest_paths(disk@.digests),
        ensures
            r@ == entry_action(e@, self.options(), disk@),
    {
        if let Some(a) = settle_by_name(e, self.all_files) {
            return a;
        }
        let goal = target_for(&e.abs_path, e.hash.as_str(), "_");
        let src_exists = existing.has(e.abs_path.bytes.as_slice());
        let dst_exists = existing.has(goal.bytes.as_slice());
        if let Some(a) = settle_by_disk(e, src_exists, dst_exists) {
            return a;
        }
        if self.verify && !e.computed {
            let digest = find_digest(&disk.digests, digests, &e.abs_path);
            if let Err(why) = verify_entry(e, digest) {
                return make_action(e, Some(goal), "verify-failed", why);
            }
        }
        make_action(e, Some(goal), "rename", "".to_string())
    }

    /// Plans what becomes of every file that the entries list.
    pub fn build_plan(&self, entries: &Vec<HashEntry>, disk: &Disk) -> (r: Report)
        ensures
            r@ == plan(entry_views(entries@), self.options(), disk@),
    {
        let ghost all = entry_views(entries@);
        let keys = keys_of_entries(entries);
        let first = first_positions(&keys);
        let (clash, counting) = find_contradictions(entries, &first);
        let mut actions: Vec<Action> = Vec::new();
        let mut warnings: Vec<String> = Vec::new();
        let mut i: usize = 0;
        let n = entries.len();
        assert(action_views(actions@) =~= Seq::<ActionView>::empty());
        assert(text_views(warnings@) =~= Seq::<Seq<char>>::empty());
        while i < n
            invariant
                n == entries@.len(),
                all == entry_views(entries@),
                text_views(keys@) == entry_keys(all),
                first@.len() == n,
                clash@.len() == n,
                forall|k: int|
                    0 <= k < n ==> #[trigger] first@[k] == first_position(entry_keys(all), k),
                forall|k: int| 0 <= k < n ==> #[trigger] clash@[k] == contradicts(all, k),
                i <= n,
                action_views(actions@) == contradictions(all, i as int),
                text_views(warnings@) == contradiction_warnings(all, i as int),
            decreases n - i,
        {
            if clash[i] {
                let ghost actions0 = action_views(actions@);
                let ghost warnings0 = text_views(warnings@);
                proof {
                    lemma_first_position(entry_keys(all), i as int);
                }
                let (a, w) = contradiction(&entries[first[i]], &entries[i]);
                let ghost av = a@;
                let ghost wv = w@;
                actions.push(a);
                warnings.push(w);
                assert(action_views(actions@) =~= actions0.push(av));
                assert(text_views(warnings@) =~= warnings0.push(wv));
            }
            i += 1;
        }
        let existing = index_paths(&disk.existing);
        let digests = index_digests(&disk.digests);
        let ghost head = action_views(actions@);
        i = 0;
        assert(head + entry_actions(all, 0, self.options(), disk@) =~= head);
        while i < n
            invariant
                n == entries@.len(),
                all == entry_views(entries@),
                counting@.len() == n,
                forall|k: int| 0 <= k < n ==> #[trigger] counting@[k] == counts(all, k),
                existing.wf(),
                existing@ == disk@.existing,
                digests.wf(),
                digests@ == crate::disk::digest_paths(disk@.digests),
                i <= n,
                action_views(actions@) == head + entry_actions(
                    all,
                    i as int,
                    self.options(),
                    disk@,
                ),
            decreases n - i,
        {
            if counting[i] {
                let ghost actions0 = action_views(actions@);
                let a = self.plan_entry(&entries[i], disk, &existing, &digests);
                let ghost av = a@;
                actions.push(a);
                assert(action_views(actions@) =~= actions0.push(av));
                assert(head + entry_actions(all, i as int, self.options(), disk@).push(av)
                    =~= actions0.push(av));
            }
            i += 1;
        }
        let actions = reconcile_actions(actions);
        let orphans = if self.only_dupes {
            Vec::new()
        } else {
            find_orphans(&disk.walk, &actions, self.all_files)
        };
        let r = Report { actions, orphans, warnings };
        assert(r@ =~= plan(all, self.options(), disk@));
        r
    }
}

} // verus!
