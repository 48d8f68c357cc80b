//! What a plan has to know of the disk before it is made.

use vstd::prelude::*;
use crate::disk::{digest_of, index_paths, path_bytes, DiskView};
use crate::hashfile::{entry_views, keys_of_entries, EntryView, HashEntry};
use crate::index::first_positions;
use crate::names::target_for;
use crate::path::{path_views, FilePath, PathView};
use crate::plan::{
    counts,
    entry_actions,
    find_contradictions,
    goal,
    plan,
    settle_by_disk,
    settle_by_name,
    settled_by_disk,
    settled_by_name,
    PlanOptions,
    RenameOperation,
};

verus! {

broadcast use vstd::seq_lib::group_seq_properties;

/// What an entry wants to know to exist: its file and the file's target, unless
/// the name alone settles the matter.
pub open spec fn probes_of(e: EntryView, all_files: bool) -> Seq<PathView> {
    if settled_by_name(e, all_files) is None {
        seq![e.path, goal(e)]
    } else {
        Seq::empty()
    }
}

/// What the first `n` entries want to know to exist.
pub open spec fn probes(all: Seq<EntryView>, n: int, all_files: bool) -> Seq<PathView>
    decreases n,
{
    if n <= 0 {
        Seq::empty()
    } else if counts(all, n - 1) {
        probes(all, n - 1, all_files) + probes_of(all[n - 1], all_files)
    } else {
        probes(all, n - 1, all_files)
    }
}

/// The file of the entry has to be hashed: its hash is to be verified, and
/// neither its name nor what exists settles the matter.
pub open spec fn wants_hash(e: EntryView, options: PlanOptions, existing: Seq<Seq<u8>>) -> bool {
    &&& options.verify
    &&& !e.computed
    &&& settled_by_name(e, options.all_files) is None
    &&& settled_by_disk(
        e,
        existing.contains(e.path.bytes),
        existing.contains(goal(e).bytes),
    ) is None
}

/// The files to be hashed for the first `n` entries.
pub open spec fn hash_wishes(
    all: Seq<EntryView>,
    n: int,
    options: PlanOptions,
    existing: Seq<Seq<u8>>,
) -> Seq<PathView>
    decreases n,
{
    if n <= 0 {
        Seq::empty()
    } else if counts(all, n - 1) && wants_hash(all[n - 1], options, existing) {
        hash_wishes(all, n - 1, options, existing).push(all[n - 1].path)
    } else {
        hash_wishes(all, n - 1, options, existing)
    }
}

impl RenameOperation {
    /// The paths of which a plan has to know whether they exist.
    pub fn paths_to_probe(&self, entries: &Vec<HashEntry>) -> (r: Vec<FilePath>)
        ensures
            path_views(r@) == probes(
                entry_views(entries@),
                entries@.len() as int,
                self.all_files,
            ),
    {
        let ghost all = entry_views(entries@);
        let keys = keys_of_entries(entries);
        let first = first_positions(&keys);
        let (_, counting) = find_contradictions(entries, &first);
        let n = entries.len();
        let mut r: Vec<FilePath> = Vec::new();
        let mut i: usize = 0;
        assert(path_views(r@) =~= Seq::<PathView>::empty());
        while i < n
            invariant
                n == entries@.len(),
                all == entry_views(entries@),
                counting@.len() == n,
                forall|k: int| 0 <= k < n ==> #[trigger] counting@[k] == counts(all, k),
                i <= n,
                path_views(r@) == probes(all, i as int, self.all_files),
            decreases n - i,
        {
            if counting[i] {
                let e = &entries[i];
                let ghost before = path_views(r@);
                if settle_by_name(e, self.all_files).is_none() {
                    let goal = target_for(&e.abs_path, e.hash.as_str(), "_");
                    let ghost gv = goal@;
                    r.push(e.abs_path.clone());
                    r.push(goal);
                    assert(path_views(r@) =~= before + seq![e@.path, gv]);
                } else {
                    assert(before + Seq::<PathView>::empty() =~= before);
                }
            }
            i += 1;
        }
        r
    }

    /// The files whose content a plan has to know the hash of, given what exists.
    pub fn paths_to_hash(&self, entries: &Vec<HashEntry>, existing: &Vec<FilePath>) -> (r: Vec<
        FilePath,
    >)
        ensures
            path_views(r@) == hash_wishes(
                entry_views(entries@),
                entries@.len() as int,
                self.options(),
                path_bytes(existing@),
            ),
    {
        let ghost all = entry_views(entries@);
        let ghost there = path_bytes(existing@);
        let keys = keys_of_entries(entries);
        let first = first_positions(&keys);
        let (_, counting) = find_contradictions(entries, &first);
        let index = index_paths(existing);
        let n = entries.len();
        let mut r: Vec<FilePath> = Vec::new();
        let mut i: usize = 0;
        assert(path_views(r@) =~= Seq::<PathView>::empty());
        while i < n
            invariant
                n == entries@.len(),
                all == entry_views(entries@),
                counting@.len() == n,
                forall|k: int| 0 <= k < n ==> #[trigger] counting@[k] == counts(all, k),
                index.wf(),
                index@ == there,
                i <= n,
                path_views(r@) == hash_wishes(all, i as int, self.options(), there),
            decreases n - i,
        {
            let e = &entries[i];
            if counting[i] && self.verify && !e.computed {
                if settle_by_name(e, self.all_files).is_none() {
                    let goal = target_for(&e.abs_path, e.hash.as_str(), "_");
                    let src = index.has(e.abs_path.bytes.as_slice());
                    let dst = index.has(goal.bytes.as_slice());
                    if settle_by_disk(e, src, dst).is_none() {
                        let ghost before = path_views(r@);
                        r.push(e.abs_path.clone());
                        assert(path_views(r@) =~= before.push(e@.path));
                    }
                }
            }
            i += 1;
        }
        r
    }
}

proof fn lemma_entry_actions_agree(
    all: Seq<EntryView>,
    n: int,
    options: PlanOptions,
    a: DiskView,
    b: DiskView,
)
    requires
        0 <= n <= all.len(),
        forall|p: PathView|
            probes(all, n, options.all_files).contains(p) ==> #[trigger] a.present(p) == b.present(
                p,
            ),
        forall|p: PathView|
            hash_wishes(all, n, options, a.existing).contains(p) ==> #[trigger] digest_of(
                a.digests,
                p,
            ) == digest_of(b.digests, p),
    ensures
        entry_actions(all, n, options, a) == entry_actions(all, n, options, b),
    decreases n,
{
    if n > 0 {
        let e = all[n - 1];
        let all_files = options.all_files;
        let now = probes(all, n, all_files);
        let before = probes(all, n - 1, all_files);
        let wishes = hash_wishes(all, n, options, a.existing);
        let earlier = hash_wishes(all, n - 1, options, a.existing);
        assert forall|p: PathView| before.contains(p) implies #[trigger] a.present(p) == b.present(
            p,
        ) by {
            let k = choose|k: int| 0 <= k < before.len() && before[k] == p;
            assert(now[k] == p);
        }
        assert forall|p: PathView| earlier.contains(p) implies #[trigger] digest_of(a.digests, p)
            == digest_of(b.digests, p) by {
            let k = choose|k: int| 0 <= k < earlier.len() && earlier[k] == p;
            assert(wishes[k] == p);
        }
        lemma_entry_actions_agree(all, n - 1, options, a, b);
        if counts(all, n - 1) && settled_by_name(e, all_files) is None {
            assert(now[before.len() as int] == e.path);
            assert(now[before.len() + 1int] == goal(e));
            assert(now.contains(e.path) && now.contains(goal(e)));
            assert(a.present(e.path) == b.present(e.path));
            assert(a.present(goal(e)) == b.present(goal(e)));
            if wants_hash(e, options, a.existing) {
                assert(wishes[earlier.len() as int] == e.path);
                assert(wishes.contains(e.path));
                assert(digest_of(a.digests, e.path) == digest_of(b.digests, e.path));
            }
        }
    }
}

/// A plan needs to know nothing of the disk but which of the probed paths exist,
/// what came of hashing the files that it wants hashed, and the files of a walk:
/// two disks that agree on these get the same plan.
pub proof fn law_plan_needs_only_what_it_asks_for(
    all: Seq<EntryView>,
    options: PlanOptions,
    a: DiskView,
    b: DiskView,
)
    requires
        forall|p: PathView|
            probes(all, all.len() as int, options.all_files).contains(p) ==> #[trigger] a.present(p)
                == b.present(p),
        forall|p: PathView|
            hash_wishes(all, all.len() as int, options, a.existing).contains(p)
                ==> #[trigger] digest_of(a.digests, p) == digest_of(b.digests, p),
        a.walk == b.walk,
    ensures
        plan(all, options, a) == plan(all, options, b),
{
    lemma_entry_actions_agree(all, all.len() as int, options, a, b);
}

} // verus!
