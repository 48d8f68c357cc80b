//! Where the entries of a renaming come from: manifests, and hashes computed
//! for files that share a name and that no manifest covers.

use vstd::prelude::*;
use vstd::utf8::*;
use crate::check::{group_views, DupeGroup, GroupView};
use crate::disk::{digest_of, digest_views, find_digest, index_digests, DigestView, FileDigest};
use crate::error::Failure;
use crate::hashfile::{
    computed_entry,
    entry_keys,
    entry_views,
    path_key,
    path_key_text,
    EntryView,
    HashEntry,
};
use crate::index::{lemma_positions, positions_of, text_bytes, Grouping};
use crate::laws::sources::law_all_entries_of_duplicates_are_taken;
use crate::path::{path_views, FilePath, PathView};
use crate::plan::{key_bytes, RenameOperation};

verus! {

broadcast use vstd::seq_lib::group_seq_properties;

/// Which manifests a renaming reads.
#[derive(Debug)]
pub enum ManifestSource {
    /// The one that was named.
    Named(FilePath),
    /// All below the directory.
    Search,
}

/// What a renaming comes to once its entries are known.
#[derive(Clone, Copy, Debug, PartialEq, Eq, Structural)]
pub enum Course {
    /// No names occur twice.
    NoDuplicates,
    /// No manifest lists anything.
    NoEntries,
    /// Plan, and only report.
    DryRun,
    /// Plan, and rename.
    Apply,
}

/// How to go on, with or without entries.
pub open spec fn chosen_course(any: bool, only_dupes: bool, dry_run: bool) -> Course {
    if !any {
        if only_dupes {
            Course::NoDuplicates
        } else {
            Course::NoEntries
        }
    } else if dry_run {
        Course::DryRun
    } else {
        Course::Apply
    }
}

/// The members of all groups that are not benign.
pub open spec fn ambiguous_members(groups: Seq<GroupView>) -> Seq<PathView>
    decreases groups.len(),
{
    if groups.len() == 0 {
        Seq::empty()
    } else {
        let before = ambiguous_members(groups.drop_last());
        if groups.last().benign {
            before
        } else {
            before + groups.last().members
        }
    }
}

/// The entries for the path `p`.
pub open spec fn entries_for(manifest: Seq<EntryView>, p: PathView) -> Seq<EntryView> {
    let at = positions_of(text_bytes(entry_keys(manifest)), key_bytes(p));
    Seq::new(at.len(), |i: int| manifest[at[i] as int])
}

/// The paths that no entry is for.
pub open spec fn uncovered(members: Seq<PathView>, manifest: Seq<EntryView>) -> Seq<PathView> {
    members.filter(|p: PathView| entries_for(manifest, p).len() == 0)
}

/// The entries for the members: those of the manifest where it has any, else one
/// with the hash that was computed. A file that could not be read spoils all.
pub open spec fn dupe_entries(
    members: Seq<PathView>,
    manifest: Seq<EntryView>,
    digests: Seq<DigestView>,
) -> Result<Seq<EntryView>, Seq<char>>
    decreases members.len(),
{
    if members.len() == 0 {
        Ok(Seq::empty())
    } else {
        let p = members.last();
        match dupe_entries(members.drop_last(), manifest, digests) {
            Err(why) => Err(why),
            Ok(before) => if entries_for(manifest, p).len() > 0 {
                Ok(before + entries_for(manifest, p))
            } else {
                match digest_of(digests, p) {
                    Some(Ok(hash)) => Ok(before.push(computed_entry(p, hash))),
                    Some(Err(why)) => Err(why),
                    None => Err("content was not read"@),
                }
            },
        }
    }
}

fn gather_members(groups: &Vec<DupeGroup>) -> (r: Vec<FilePath>)
    ensures
        path_views(r@) == ambiguous_members(group_views(groups@)),
{
    let ghost gv = group_views(groups@);
    let mut r: Vec<FilePath> = Vec::new();
    let mut i: usize = 0;
    assert(gv.take(0) =~= Seq::<GroupView>::empty());
    assert(path_views(r@) =~= Seq::<PathView>::empty());
    while i < groups.len()
        invariant
            i <= groups@.len(),
            gv == group_views(groups@),
            path_views(r@) == ambiguous_members(gv.take(i as int)),
        decreases groups@.len() - i,
    {
        proof {
            assert(gv.take(i + 1).drop_last() =~= gv.take(i as int));
            assert(gv.take(i + 1).last() == groups@[i as int]@);
        }
        if !groups[i].benign {
            let members = &groups[i].members;
            let ghost before = path_views(r@);
            let ghost mv = path_views(members@);
            let mut k: usize = 0;
            assert(before + mv.take(0) =~= before);
            while k < members.len()
                invariant
                    k <= members@.len(),
                    mv == path_views(members@),
                    path_views(r@) == before + mv.take(k as int),
                decreases members@.len() - k,
            {
                let ghost sofar = path_views(r@);
                r.push(members[k].clone());
                k += 1;
                assert(path_views(r@) =~= sofar.push(mv[k - 1]));
                assert(mv.take(k as int) =~= mv.take(k - 1).push(mv[k - 1]));
            }
            assert(mv.take(k as int) =~= mv);
        }
        i += 1;
    }
    assert(gv.take(i as int) =~= gv);
    r
}

fn index_entries(manifest: &Vec<HashEntry>) -> (r: Grouping)
    ensures
        r.wf(),
        r@ == text_bytes(entry_keys(entry_views(manifest@))),
{
    let ghost keys = text_bytes(entry_keys(entry_views(manifest@)));
    let mut r = Grouping::new();
    let mut i: usize = 0;
    while i < manifest.len()
        invariant
            i <= manifest@.len(),
            keys == text_bytes(entry_keys(entry_views(manifest@))),
            r.wf(),
            r@ == keys.take(i as int),
        decreases manifest@.len() - i,
    {
        r.push(path_key(&manifest[i].abs_path).as_str().as_bytes());
        i += 1;
        assert(keys.take(i as int) =~= keys.take(i - 1).push(keys[i - 1]));
    }
    assert(keys.take(i as int) =~= keys);
    r
}

impl RenameOperation {
    /// How to go on with the entries. Without entries nothing is planned, and
    /// unless it was asked for nothing is renamed.
    pub fn course(&self, entries: &Vec<HashEntry>) -> (r: Course)
        ensures
            r == chosen_course(entries@.len() > 0, self.only_dupes, self.dry_run),
            r == if entries@.len() == 0 {
                if self.only_dupes {
                    Course::NoDuplicates
                } else {
                    Course::NoEntries
                }
            } else if self.dry_run {
                Course::DryRun
            } else {
                Course::Apply
            },
    {
        if entries.len() == 0 {
            if self.only_dupes {
                Course::NoDuplicates
            } else {
                Course::NoEntries
            }
        } else if self.dry_run {
            Course::DryRun
        } else {
            Course::Apply
        }
    }

    /// Which manifests to read. A manifest that was named must exist.
    pub fn manifest_source(&self, hashfile_exists: bool) -> (r: Result<ManifestSource, Failure>)
        ensures
            match self.hashfile {
                None => r is Ok && r->Ok_0 is Search,
                Some(p) => if hashfile_exists {
                    r matches Ok(ManifestSource::Named(q)) && q@ == p@
                } else {
                    r matches Err(Failure::HashfileNotFound(q)) && q@ == p@
                },
            },
    {
        match &self.hashfile {
            None => Ok(ManifestSource::Search),
            Some(p) => {
                if hashfile_exists {
                    Ok(ManifestSource::Named(p.clone()))
                } else {
                    Err(Failure::HashfileNotFound(p.clone()))
                }
            },
        }
    }

    /// The files whose hashes have to be computed: members of ambiguous groups
    /// that no manifest covers.
    pub fn only_dupes_to_hash(
        &self,
        groups: &Vec<DupeGroup>,
        manifest: &Vec<HashEntry>,
    ) -> (r: Vec<FilePath>)
        ensures
            path_views(r@) == uncovered(
                ambiguous_members(group_views(groups@)),
                entry_views(manifest@),
            ),
    {
        let members = gather_members(groups);
        let index = index_entries(manifest);
        let ghost mv = path_views(members@);
        let ghost ev = entry_views(manifest@);
        let mut r: Vec<FilePath> = Vec::new();
        let mut i: usize = 0;
        assert(path_views(r@) =~= uncovered(mv.take(0), ev)) by {
            reveal(Seq::filter);
        }
        while i < members.len()
            invariant
                i <= members@.len(),
                mv == path_views(members@),
                index.wf(),
                index@ == text_bytes(entry_keys(ev)),
                path_views(r@) == uncovered(mv.take(i as int), ev),
            decreases members@.len() - i,
        {
            let ghost before = path_views(r@);
            let at = index.positions(path_key(&members[i]).as_str().as_bytes());
            if at.len() == 0 {
                r.push(members[i].clone());
                assert(path_views(r@) =~= before.push(mv[i as int]));
            }
            i += 1;
            proof {
                reveal(Seq::filter);
                assert(mv.take(i as int).drop_last() =~= mv.take(i - 1));
                assert(mv.take(i as int).last() == mv[i - 1]);
            }
        }
        assert(mv.take(i as int) =~= mv);
        r
    }

    /// The entries for the members of the groups that are not benign.
    pub fn load_only_dupes_entries(
        &self,
        groups: &Vec<DupeGroup>,
        manifest: &Vec<HashEntry>,
        digests: &Vec<FileDigest>,
    ) -> (r: Result<Vec<HashEntry>, String>)
        ensures
            ({
                let expected = dupe_entries(
                    ambiguous_members(group_views(groups@)),
                    entry_views(manifest@),
                    digest_views(digests@),
                );
                match r {
                    Ok(v) => expected == Ok::<Seq<EntryView>, Seq<char>>(entry_views(v@)),
                    Err(why) => expected == Err::<Seq<EntryView>, Seq<char>>(why@),
                }
            }),
            r matches Ok(v) ==> forall|p: PathView, i: int|
                #![trigger ambiguous_members(group_views(groups@)).contains(p), manifest@[i]]
                ambiguous_members(group_views(groups@)).contains(p) && 0 <= i < manifest@.len()
                    && path_key_text(manifest@[i]@.path) == path_key_text(p) ==> entry_views(
                    v@,
                ).contains(manifest@[i]@),
    {
        let members = gather_members(groups);
        let index = index_entries(manifest);
        let digest_index = index_digests(digests);
        let ghost mv = path_views(members@);
        let ghost ev = entry_views(manifest@);
        let ghost dv = digest_views(digests@);
        let mut r: Vec<HashEntry> = Vec::new();
        let mut failed: Option<String> = None;
        let mut i: usize = 0;
        assert(mv.take(0) =~= Seq::<PathView>::empty());
        assert(entry_views(r@) =~= Seq::<EntryView>::empty());
        while i < members.len()
            invariant
                i <= members@.len(),
                mv == path_views(members@),
                ev == entry_views(manifest@),
                dv == digest_views(digests@),
                index.wf(),
                index@ == text_bytes(entry_keys(ev)),
                digest_index.wf(),
                digest_index@ == crate::disk::digest_paths(dv),
                match failed {
                    Some(why) => dupe_entries(mv.take(i as int), ev, dv) == Err::<
                        Seq<EntryView>,
                        Seq<char>,
                    >(why@),
                    None => dupe_entries(mv.take(i as int), ev, dv) == Ok::<
                        Seq<EntryView>,
                        Seq<char>,
                    >(entry_views(r@)),
                },
            decreases members@.len() - i,
        {
            let p = &members[i];
            proof {
                assert(mv.take(i + 1).drop_last() =~= mv.take(i as int));
                assert(mv.take(i + 1).last() == p@);
            }
            if failed.is_none() {
                let at = index.positions(path_key(p).as_str().as_bytes());
                let ghost hits = entries_for(ev, p@);
                let ghost before = entry_views(r@);
                let n = manifest.len();
                proof {
                    lemma_positions(index@, key_bytes(p@));
                }
                if at.len() > 0 {
                    let mut k: usize = 0;
                    assert(before + hits.take(0) =~= before);
                    while k < at.len()
                        invariant
                            k <= at@.len(),
                            ev == entry_views(manifest@),
                            forall|m: int|
                                0 <= m < at@.len() ==> (#[trigger] at@[m]) < manifest@.len(),
                            hits == Seq::new(at@.len(), |m: int| ev[at@[m] as int]),
                            entry_views(r@) == before + hits.take(k as int),
                        decreases at@.len() - k,
                    {
                        let ghost sofar = entry_views(r@);
                        r.push(manifest[at[k]].clone());
                        k += 1;
                        assert(entry_views(r@) =~= sofar.push(hits[k - 1]));
                        assert(hits.take(k as int) =~= hits.take(k - 1).push(hits[k - 1]));
                    }
                    assert(hits.take(k as int) =~= hits);
                } else {
                    match find_digest(digests, &digest_index, p) {
                        Some(Ok(hash)) => {
                            let e = HashEntry::from_computed(p, hash);
                            let ghost view = e@;
                            r.push(e);
                            assert(entry_views(r@) =~= before.push(view));
                        },
                        Some(Err(why)) => {
                            failed = Some(why);
                        },
                        None => {
                            failed = Some("content was not read".to_string());
                        },
                    }
                }
            }
            i += 1;
        }
        assert(mv.take(i as int) =~= mv);
        match failed {
            Some(why) => Err(why),
            None => {
                proof {
                    let found = entry_views(r@);
                    assert(ev.len() == manifest.len());
                    assert forall|p: PathView, i: int|
                        #![trigger mv.contains(p), manifest@[i]]
                        mv.contains(p) && 0 <= i < manifest@.len() && path_key_text(
                            manifest@[i]@.path,
                        ) == path_key_text(p) implies found.contains(manifest@[i]@) by {
                        let m = choose|m: int| 0 <= m < mv.len() && mv[m] == p;
                        law_all_entries_of_duplicates_are_taken(mv, ev, dv, found, m, i);
                    }
                }
                Ok(r)
            },
        }
    }
}

} // verus!
