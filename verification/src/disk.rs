//! What is known of the disk: which paths exist, which files a walk of a
//! directory met, and what came of hashing some of them.

use vstd::prelude::*;
use crate::index::{lemma_positions, positions_of, Grouping};
use crate::names::{passes, passes_filters};
use crate::path::{FilePath, PathView};

verus! {

broadcast use vstd::seq_lib::group_seq_properties;

/// A path that a walk of a directory met.
#[derive(Debug)]
pub struct WalkedFile {
    /// The path as the walk gave it.
    pub path: FilePath,
    pub is_file: bool,
    /// The path made absolute, where that was possible.
    pub absolute: Option<FilePath>,
    /// The size of the file, where it is known.
    pub size: Option<u64>,
}

#[verifier::ext_equal]
pub struct WalkView {
    pub path: PathView,
    pub is_file: bool,
    pub absolute: Option<PathView>,
    pub size: Option<u64>,
}

pub open spec fn option_view(p: Option<FilePath>) -> Option<PathView> {
    match p {
        Some(q) => Some(q@),
        None => None,
    }
}

impl View for WalkedFile {
    type V = WalkView;

    open spec fn view(&self) -> WalkView {
        WalkView {
            path: self.path@,
            is_file: self.is_file,
            absolute: option_view(self.absolute),
            size: self.size,
        }
    }
}

pub open spec fn walk_views(v: Seq<WalkedFile>) -> Seq<WalkView> {
    Seq::new(v.len(), |i: int| v[i]@)
}

impl WalkView {
    /// Where the file is: its absolute path, or else its path.
    pub open spec fn location(self) -> PathView {
        match self.absolute {
            Some(p) => p,
            None => self.path,
        }
    }
}

/// The files of a walk that are to be looked at.
pub open spec fn kept_files(walk: Seq<WalkView>, all_files: bool) -> Seq<WalkView> {
    walk.filter(|w: WalkView| passes(w.path, w.is_file, all_files))
}

impl Clone for WalkedFile {
    fn clone(&self) -> (r: WalkedFile)
        ensures
            r@ == self@,
    {
        WalkedFile {
            path: self.path.clone(),
            is_file: self.is_file,
            absolute: match &self.absolute {
                Some(p) => Some(p.clone()),
                None => None,
            },
            size: self.size,
        }
    }
}

impl WalkedFile {
    pub fn location(&self) -> (r: FilePath)
        ensures
            r@ == self@.location(),
    {
        match &self.absolute {
            Some(p) => p.clone(),
            None => self.path.clone(),
        }
    }
}

pub fn keep_files(walk: &Vec<WalkedFile>, all_files: bool) -> (r: Vec<WalkedFile>)
    ensures
        walk_views(r@) == kept_files(walk_views(walk@), all_files),
{
    let ghost views = walk_views(walk@);
    let mut r: Vec<WalkedFile> = Vec::new();
    let mut i: usize = 0;
    assert(walk_views(r@) =~= kept_files(views.take(0), all_files)) by {
        reveal(Seq::filter);
    }
    while i < walk.len()
        invariant
            i <= walk@.len(),
            views == walk_views(walk@),
            walk_views(r@) == kept_files(views.take(i as int), all_files),
        decreases walk@.len() - i,
    {
        let ghost before = walk_views(r@);
        if passes_filters(&walk[i].path, walk[i].is_file, all_files) {
            r.push(walk[i].clone());
            assert(walk_views(r@) =~= before.push(views[i as int]));
        }
        i += 1;
        proof {
            reveal(Seq::filter);
            assert(views.take(i as int).drop_last() =~= views.take(i - 1));
            assert(views.take(i as int).last() == views[i - 1]);
        }
    }
    assert(views.take(i as int) =~= views);
    r
}

/// What came of hashing a file: its hash, or why it could not be read.
#[derive(Debug)]
pub struct FileDigest {
    pub path: FilePath,
    pub outcome: Result<String, String>,
}

#[verifier::ext_equal]
pub struct DigestView {
    pub path: Seq<u8>,
    pub outcome: Result<Seq<char>, Seq<char>>,
}

pub open spec fn outcome_view(r: Result<String, String>) -> Result<Seq<char>, Seq<char>> {
    match r {
        Ok(s) => Ok(s@),
        Err(e) => Err(e@),
    }
}

impl View for FileDigest {
    type V = DigestView;

    open spec fn view(&self) -> DigestView {
        DigestView { path: self.path@.bytes, outcome: outcome_view(self.outcome) }
    }
}

pub open spec fn digest_views(v: Seq<FileDigest>) -> Seq<DigestView> {
    Seq::new(v.len(), |i: int| v[i]@)
}

pub open spec fn digest_paths(v: Seq<DigestView>) -> Seq<Seq<u8>> {
    Seq::new(v.len(), |i: int| v[i].path)
}

/// What came of hashing the file at `p`; nothing where it was not tried.
pub open spec fn digest_of(v: Seq<DigestView>, p: PathView) -> Option<
    Result<Seq<char>, Seq<char>>,
> {
    let at = positions_of(digest_paths(v), p.bytes);
    if at.len() == 0 {
        None
    } else {
        Some(v[at[0] as int].outcome)
    }
}

/// What a plan needs to know of the disk.
#[derive(Debug)]
pub struct Disk {
    /// Paths at which something exists.
    pub existing: Vec<FilePath>,
    pub digests: Vec<FileDigest>,
    pub walk: Vec<WalkedFile>,
}

#[verifier::ext_equal]
pub struct DiskView {
    pub existing: Seq<Seq<u8>>,
    pub digests: Seq<DigestView>,
    pub walk: Seq<WalkView>,
}

pub open spec fn path_bytes(v: Seq<FilePath>) -> Seq<Seq<u8>> {
    Seq::new(v.len(), |i: int| v[i]@.bytes)
}

impl View for Disk {
    type V = DiskView;

    open spec fn view(&self) -> DiskView {
        DiskView {
            existing: path_bytes(self.existing@),
            digests: digest_views(self.digests@),
            walk: walk_views(self.walk@),
        }
    }
}

impl DiskView {
    /// Something exists at `p`.
    pub open spec fn present(self, p: PathView) -> bool {
        self.existing.contains(p.bytes)
    }
}

/// Makes a list of paths searchable.
pub fn index_paths(v: &Vec<FilePath>) -> (r: Grouping)
    ensures
        r.wf(),
        r@ == path_bytes(v@),
{
    let mut r = Grouping::new();
    let mut i: usize = 0;
    while i < v.len()
        invariant
            i <= v@.len(),
            r.wf(),
            r@ == path_bytes(v@).take(i as int),
        decreases v@.len() - i,
    {
        r.push(v[i].bytes.as_slice());
        i += 1;
        assert(path_bytes(v@).take(i as int) =~= path_bytes(v@).take(i - 1).push(
            v@[i - 1]@.bytes,
        ));
    }
    assert(path_bytes(v@).take(i as int) =~= path_bytes(v@));
    r
}

/// Makes a list of digests searchable.
pub fn index_digests(v: &Vec<FileDigest>) -> (r: Grouping)
    ensures
        r.wf(),
        r@ == digest_paths(digest_views(v@)),
{
    let ghost paths = digest_paths(digest_views(v@));
    let mut r = Grouping::new();
    let mut i: usize = 0;
    while i < v.len()
        invariant
            i <= v@.len(),
            paths == digest_paths(digest_views(v@)),
            r.wf(),
            r@ == paths.take(i as int),
        decreases v@.len() - i,
    {
        r.push(v[i].path.bytes.as_slice());
        i += 1;
        assert(paths.take(i as int) =~= paths.take(i - 1).push(v@[i - 1]@.path));
    }
    assert(paths.take(i as int) =~= paths);
    r
}

/// Looks up what came of hashing the file at `p`.
pub fn find_digest(v: &Vec<FileDigest>, index: &Grouping, p: &FilePath) -> (r: Option<
    Result<String, String>,
>)
    requires
        index.wf(),
        index@ == digest_paths(digest_views(v@)),
    ensures
        match r {
            Some(outcome) => digest_of(digest_views(v@), p@) == Some(outcome_view(outcome)),
            None => digest_of(digest_views(v@), p@) is None,
        },
{
    let at = index.positions(p.bytes.as_slice());
    if at.len() == 0 {
        return None;
    }
    let n = v.len();
    proof {
        lemma_positions(index@, p@.bytes);
    }
    match &v[at[0]].outcome {
        Ok(s) => Some(Ok(s.clone())),
        Err(e) => Some(Err(e.clone())),
    }
}

} // verus!
