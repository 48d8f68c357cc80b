//! Files that share a name in different directories.

use vstd::prelude::*;
use vstd::string::*;
use vstd::utf8::*;
use crate::disk::{keep_files, kept_files, walk_views, WalkView, WalkedFile};
use crate::hashfile::{name_key, name_key_text};
use crate::index::{distinct, lemma_positions, positions_of, Grouping};
use crate::laws::groups::{law_checks_look_at_all_files, law_one_size};
use crate::names::{has_hash_suffix, hash_suffixed, passes};
use crate::order::{is_sort_order, keys_view, sort_order, sorted_positions, Key};
use crate::path::{
    arranged,
    bytes_key,
    file_name,
    name_sort_key,
    path_order,
    path_views,
    sort_keys,
    FilePath,
    PathView,
};

verus! {

broadcast use vstd::seq_lib::group_seq_properties;

/// Files that share a name.
#[derive(Debug)]
pub struct DupeGroup {
    /// The paths of the files, sorted.
    pub members: Vec<FilePath>,
    /// The size of each member, where it is known.
    pub sizes: Vec<Option<u64>>,
    /// The shared name ends in a hash and all sizes are known and equal, so that
    /// the files count as copies of one another: there is nothing to rename.
    pub benign: bool,
}

#[verifier::ext_equal]
pub struct GroupView {
    pub members: Seq<PathView>,
    pub sizes: Seq<Option<u64>>,
    pub benign: bool,
}

impl View for DupeGroup {
    type V = GroupView;

    open spec fn view(&self) -> GroupView {
        GroupView {
            members: path_views(self.members@),
            sizes: self.sizes@,
            benign: self.benign,
        }
    }
}

pub open spec fn group_views(v: Seq<DupeGroup>) -> Seq<GroupView> {
    Seq::new(v.len(), |i: int| v[i]@)
}

/// All sizes are known, and they are the same.
pub open spec fn one_size(sizes: Seq<Option<u64>>) -> bool {
    sizes.len() > 0 && sizes[0] is Some && forall|i: int|
        0 <= i < sizes.len() ==> #[trigger] sizes[i] == sizes[0]
}

/// The keys by which files share a name.
pub open spec fn name_keys(files: Seq<WalkView>) -> Seq<Seq<u8>> {
    Seq::new(files.len(), |i: int| encode_utf8(name_key_text(files[i].location())))
}

/// The group of the files at the given positions.
pub open spec fn group_at(files: Seq<WalkView>, at: Seq<usize>) -> GroupView {
    let paths = Seq::new(at.len(), |i: int| files[at[i] as int].location());
    let sizes = Seq::new(at.len(), |i: int| files[at[i] as int].size);
    let order = sort_order(sort_keys(paths));
    let members = arranged(paths, order);
    GroupView {
        members,
        sizes: arranged(sizes, order),
        benign: hash_suffixed(members[0]) && one_size(arranged(sizes, order)),
    }
}

/// A group for each of the keys that two or more files share.
pub open spec fn shared_names(files: Seq<WalkView>, keys: Seq<Seq<u8>>) -> Seq<GroupView>
    decreases keys.len(),
{
    if keys.len() == 0 {
        Seq::empty()
    } else {
        let before = shared_names(files, keys.drop_last());
        let at = positions_of(name_keys(files), keys.last());
        if at.len() >= 2 {
            before.push(group_at(files, at))
        } else {
            before
        }
    }
}

/// The name of a group, as its first member has it.
pub open spec fn group_name(g: GroupView) -> Seq<u8> {
    match file_name(g.members[0]) {
        Some(name) => name,
        None => Seq::empty(),
    }
}

pub open spec fn group_keys(groups: Seq<GroupView>) -> Seq<Seq<u16>> {
    Seq::new(groups.len(), |i: int| bytes_key(group_name(groups[i])))
}

/// The groups of files that share a name, sorted by name.
pub open spec fn duplicate_groups(files: Seq<WalkView>) -> Seq<GroupView> {
    let groups = shared_names(files, distinct(name_keys(files)));
    arranged(groups, sort_order(group_keys(groups)))
}

/// The positions of the groups that are benign, or of those that are not.
pub open spec fn groups_that(groups: Seq<GroupView>, benign: bool) -> Seq<usize>
    decreases groups.len(),
{
    if groups.len() == 0 {
        Seq::empty()
    } else {
        let before = groups_that(groups.drop_last(), benign);
        if groups.last().benign == benign {
            before.push((groups.len() - 1) as usize)
        } else {
            before
        }
    }
}

/// Both paths are members of one of the groups.
pub open spec fn share_a_group(groups: Seq<GroupView>, a: PathView, b: PathView) -> bool {
    exists|g: int|
        0 <= g < groups.len() && (#[trigger] groups[g]).members.contains(a)
            && groups[g].members.contains(b)
}

/// Whether all sizes are known and the same.
pub fn all_same_size(sizes: &Vec<Option<u64>>) -> (r: bool)
    ensures
        r == one_size(sizes@),
        r <==> sizes@.len() > 0 && forall|i: int, j: int|
            0 <= i < sizes@.len() && 0 <= j < sizes@.len() ==> #[trigger] sizes@[i] is Some
                && sizes@[i] == #[trigger] sizes@[j],
{
    proof {
        law_one_size(sizes@);
    }
    if sizes.len() == 0 {
        return false;
    }
    let first = match sizes[0] {
        Some(size) => size,
        None => {
            return false;
        },
    };
    let mut i: usize = 0;
    while i < sizes.len()
        invariant
            sizes@.len() > 0,
            sizes@[0] == Some(first),
            i <= sizes@.len(),
            forall|k: int| 0 <= k < i ==> #[trigger] sizes@[k] == sizes@[0],
        decreases sizes@.len() - i,
    {
        match sizes[i] {
            Some(size) if size == first => {},
            _ => {
                assert(sizes@[i as int] != sizes@[0]);
                return false;
            },
        }
        i += 1;
    }
    true
}

/// Puts the files at the given positions in a group.
fn make_group(files: &Vec<WalkedFile>, at: &Vec<usize>) -> (r: DupeGroup)
    requires
        at@.len() > 0,
        forall|i: int| 0 <= i < at@.len() ==> (#[trigger] at@[i]) < files@.len(),
    ensures
        r@ == group_at(walk_views(files@), at@),
        r.members@.len() == at@.len(),
{
    let ghost fv = walk_views(files@);
    let ghost pv = Seq::new(at@.len(), |i: int| fv[at@[i] as int].location());
    let ghost sv = Seq::new(at@.len(), |i: int| fv[at@[i] as int].size);
    let mut paths: Vec<FilePath> = Vec::new();
    let mut i: usize = 0;
    while i < at.len()
        invariant
            forall|k: int| 0 <= k < at@.len() ==> (#[trigger] at@[k]) < files@.len(),
            fv == walk_views(files@),
            pv == Seq::new(at@.len(), |k: int| fv[at@[k] as int].location()),
            i <= at@.len(),
            path_views(paths@) == pv.take(i as int),
        decreases at@.len() - i,
    {
        let ghost before = path_views(paths@);
        paths.push(files[at[i]].location());
        i += 1;
        assert(path_views(paths@) =~= before.push(pv[i - 1]));
        assert(pv.take(i as int) =~= pv.take(i - 1).push(pv[i - 1]));
    }
    assert(pv.take(i as int) =~= pv);
    let order = path_order(&paths);
    assert(paths@.len() == at@.len()) by {
        assert(path_views(paths@).len() == pv.len());
    }
    let mut members: Vec<FilePath> = Vec::new();
    let mut sizes: Vec<Option<u64>> = Vec::new();
    i = 0;
    while i < order.len()
        invariant
            forall|k: int| 0 <= k < at@.len() ==> (#[trigger] at@[k]) < files@.len(),
            fv == walk_views(files@),
            path_views(paths@) == pv,
            pv.len() == at@.len(),
            paths@.len() == at@.len(),
            sv == Seq::new(at@.len(), |k: int| fv[at@[k] as int].size),
            is_sort_order(sort_keys(pv), order@),
            i <= order@.len(),
            members@.len() == i,
            sizes@.len() == i,
            forall|k: int| 0 <= k < i ==> (#[trigger] members@[k])@ == pv[order@[k] as int],
            forall|k: int| 0 <= k < i ==> #[trigger] sizes@[k] == sv[order@[k] as int],
        decreases order@.len() - i,
    {
        let o = order[i];
        assert(o < at@.len());
        assert(paths@[o as int]@ == path_views(paths@)[o as int]);
        members.push(paths[o].clone());
        assert(fv[at@[o as int] as int].size == files@[at@[o as int] as int].size);
        sizes.push(files[at[o]].size);
        i += 1;
    }
    assert(path_views(members@) =~= arranged(pv, order@));
    assert(sizes@ =~= arranged(sv, order@));
    assert(order@.len() == at@.len());
    assert(path_views(members@)[0] == members@[0]@);
    let benign = has_hash_suffix(&members[0]) && all_same_size(&sizes);
    DupeGroup { members, sizes, benign }
}

/// Groups the files of a walk that pass the filter by their names. Returns how
/// many files pass, and the groups of two or more.
pub fn scan_duplicate_groups(walk: &Vec<WalkedFile>, all_files: bool) -> (r: (
    usize,
    Vec<DupeGroup>,
))
    ensures
        r.0 == kept_files(walk_views(walk@), all_files).len(),
        group_views(r.1@) == duplicate_groups(kept_files(walk_views(walk@), all_files)),
        forall|i: int, j: int|
            0 <= i < j < walk@.len() && passes(
                (#[trigger] walk@[i])@.path,
                walk@[i]@.is_file,
                all_files,
            ) && passes((#[trigger] walk@[j])@.path, walk@[j]@.is_file, all_files) && name_key_text(
                walk@[i]@.location(),
            ) == name_key_text(walk@[j]@.location()) ==> share_a_group(
                group_views(r.1@),
                walk@[i]@.location(),
                walk@[j]@.location(),
            ),
{
    let files = keep_files(walk, all_files);
    let ghost fv = walk_views(files@);
    let total = files.len();
    let mut names = Grouping::new();
    let mut i: usize = 0;
    while i < total
        invariant
            total == files@.len(),
            fv == walk_views(files@),
            i <= total,
            names.wf(),
            names@ == name_keys(fv).take(i as int),
        decreases total - i,
    {
        names.push(name_key(&files[i].location()).as_str().as_bytes());
        i += 1;
        assert(name_keys(fv).take(i as int) =~= name_keys(fv).take(i - 1).push(
            name_keys(fv)[i - 1],
        ));
    }
    assert(name_keys(fv).take(i as int) =~= name_keys(fv));
    let ghost keys = distinct(name_keys(fv));
    let mut groups: Vec<DupeGroup> = Vec::new();
    let mut order_keys: Vec<Key> = Vec::new();
    let n = names.group_count();
    let mut g: usize = 0;
    assert(keys.take(0) =~= Seq::<Seq<u8>>::empty());
    assert(group_views(groups@) =~= Seq::<GroupView>::empty());
    assert(keys_view(order_keys@) =~= group_keys(group_views(groups@)));
    while g < n
        invariant
            total == files@.len(),
            fv == walk_views(files@),
            names.wf(),
            names@ == name_keys(fv),
            keys == distinct(names@),
            n == keys.len(),
            g <= n,
            group_views(groups@) == shared_names(fv, keys.take(g as int)),
            keys_view(order_keys@) == group_keys(group_views(groups@)),
        decreases n - g,
    {
        let at = names.group(g);
        proof {
            assert(keys.take(g + 1).drop_last() =~= keys.take(g as int));
            assert(keys.take(g + 1).last() == keys[g as int]);
            lemma_positions(names@, keys[g as int]);
        }
        if at.len() >= 2 {
            let group = make_group(&files, &at);
            let ghost before = group_views(groups@);
            let ghost before_keys = keys_view(order_keys@);
            let ghost gv = group@;
            let name = match group.members[0].file_name() {
                Some(name) => name,
                None => Vec::new(),
            };
            assert(gv.members[0] == group.members@[0]@);
            assert(name@ =~= group_name(gv));
            let key = name_sort_key(&name);
            order_keys.push(key);
            groups.push(group);
            assert(group_views(groups@) =~= before.push(gv));
            assert(keys_view(order_keys@) =~= before_keys.push(bytes_key(group_name(gv))));
            assert(group_keys(before.push(gv)) =~= group_keys(before).push(
                bytes_key(group_name(gv)),
            ));
        }
        g += 1;
    }
    assert(keys.take(g as int) =~= keys);
    let order = sorted_positions(&order_keys);
    let ghost unsorted = group_views(groups@);
    let mut out: Vec<DupeGroup> = Vec::new();
    let mut k: usize = 0;
    while k < order.len()
        invariant
            unsorted == group_views(groups@),
            is_sort_order(group_keys(unsorted), order@),
            k <= order@.len(),
            out@.len() == k,
            forall|m: int| 0 <= m < k ==> (#[trigger] out@[m])@ == unsorted[order@[m] as int],
        decreases order@.len() - k,
    {
        assert(order@[k as int] < groups@.len());
        out.push(groups[order[k]].clone());
        k += 1;
    }
    assert(group_views(out@) =~= duplicate_groups(fv));
    proof {
        let wv = walk_views(walk@);
        assert(wv.len() == walk.len());
        assert forall|i: int, j: int|
            0 <= i < j < walk@.len() && passes(
                (#[trigger] walk@[i])@.path,
                walk@[i]@.is_file,
                all_files,
            ) && passes((#[trigger] walk@[j])@.path, walk@[j]@.is_file, all_files) && name_key_text(
                walk@[i]@.location(),
            ) == name_key_text(walk@[j]@.location()) implies share_a_group(
            group_views(out@),
            walk@[i]@.location(),
            walk@[j]@.location(),
        ) by {
            assert(wv[i] == walk@[i]@ && wv[j] == walk@[j]@);
            law_checks_look_at_all_files(wv, all_files, i, j);
        }
    }
    (total, out)
}

impl Clone for DupeGroup {
    fn clone(&self) -> (r: DupeGroup)
        ensures
            r@ == self@,
    {
        let mut members: Vec<FilePath> = Vec::new();
        let mut i: usize = 0;
        while i < self.members.len()
            invariant
                i <= self.members@.len(),
                members@.len() == i,
                forall|k: int| 0 <= k < i ==> (#[trigger] members@[k])@ == self.members@[k]@,
            decreases self.members@.len() - i,
        {
            members.push(self.members[i].clone());
            i += 1;
        }
        assert(path_views(members@) =~= path_views(self.members@));
        DupeGroup {
            members,
            sizes: vstd::slice::slice_to_vec(self.sizes.as_slice()),
            benign: self.benign,
        }
    }
}

/// What a check of a directory found.
#[derive(Debug)]
pub struct Findings {
    /// How many files were looked at.
    pub total: usize,
    pub groups: Vec<DupeGroup>,
    /// The groups that are ambiguous, by position.
    pub real: Vec<usize>,
    /// The groups that are copies, by position.
    pub benign: Vec<usize>,
}

/// Looks for files that share a name. Only groups that are not benign are real
/// findings.
pub fn check(walk: &Vec<WalkedFile>, all_files: bool) -> (r: Findings)
    ensures
        ({
            let files = kept_files(walk_views(walk@), all_files);
            &&& r.total == files.len()
            &&& group_views(r.groups@) == duplicate_groups(files)
            &&& r.real@ == groups_that(duplicate_groups(files), false)
            &&& r.benign@ == groups_that(duplicate_groups(files), true)
        }),
        forall|i: int, j: int|
            0 <= i < j < walk@.len() && passes(
                (#[trigger] walk@[i])@.path,
                walk@[i]@.is_file,
                all_files,
            ) && passes((#[trigger] walk@[j])@.path, walk@[j]@.is_file, all_files) && name_key_text(
                walk@[i]@.location(),
            ) == name_key_text(walk@[j]@.location()) ==> share_a_group(
                group_views(r.groups@),
                walk@[i]@.location(),
                walk@[j]@.location(),
            ),
{
    let (total, groups) = scan_duplicate_groups(walk, all_files);
    let ghost gv = group_views(groups@);
    let mut found: Vec<usize> = Vec::new();
    let mut benign: Vec<usize> = Vec::new();
    let mut i: usize = 0;
    assert(gv.take(0) =~= Seq::<GroupView>::empty());
    while i < groups.len()
        invariant
            i <= groups@.len(),
            gv == group_views(groups@),
            found@ == groups_that(gv.take(i as int), false),
            benign@ == groups_that(gv.take(i as int), true),
        decreases groups@.len() - i,
    {
        proof {
            assert(gv.take(i + 1).drop_last() =~= gv.take(i as int));
            assert(gv.take(i + 1).last() == groups@[i as int]@);
        }
        if groups[i].benign {
            benign.push(i);
        } else {
            found.push(i);
        }
        i += 1;
    }
    assert(gv.take(i as int) =~= gv);
    Findings { total, groups, real: found, benign }
}

} // verus!
