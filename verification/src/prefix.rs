//! What a Windows path can start with: a drive, a network share, a device, or one
//! of the marks that have the rest of the path taken as it stands.

use vstd::prelude::*;

verus! {

broadcast use vstd::seq_lib::group_seq_properties;

/// The bytes that part the components of a path.
#[derive(Clone, Copy, Debug, PartialEq, Eq, Structural)]
pub enum Separators {
    Slash,
    Backslash,
    Either,
}

impl Separators {
    pub open spec fn part(self, b: u8) -> bool {
        match self {
            Separators::Slash => b == 0x2f,
            Separators::Backslash => b == 0x5c,
            Separators::Either => b == 0x2f || b == 0x5c,
        }
    }

    pub fn parts(self, b: u8) -> (r: bool)
        ensures
            r == self.part(b),
    {
        match self {
            Separators::Slash => b == 0x2f,
            Separators::Backslash => b == 0x5c,
            Separators::Either => b == 0x2f || b == 0x5c,
        }
    }
}

/// The end of the run of non-separators that starts at `i`.
pub open spec fn segment_end(b: Seq<u8>, i: int, by: Separators) -> int
    decreases b.len() - i,
{
    if i < 0 || i >= b.len() || by.part(b[i]) {
        i
    } else {
        segment_end(b, i + 1, by)
    }
}

/// The kinds of prefixes, in the order in which they sort.
#[derive(Clone, Copy, Debug, PartialEq, Eq, Structural)]
pub enum PrefixKind {
    /// `\\?\name`
    Verbatim,
    /// `\\?\UNC\server\share`
    VerbatimUnc,
    /// `\\?\C:`
    VerbatimDisk,
    /// `\\.\name`
    Device,
    /// `\\server\share`
    Unc,
    /// `C:`
    Disk,
}

impl PrefixKind {
    /// What follows the prefix is taken as it stands: only a backslash parts it,
    /// and a lone dot is a component.
    pub open spec fn is_verbatim(self) -> bool {
        self is Verbatim || self is VerbatimUnc || self is VerbatimDisk
    }

    pub open spec fn names_drive(self) -> bool {
        self is VerbatimDisk || self is Disk
    }
}

/// A prefix: what it is, where its one or two names stand, and how long it is.
#[derive(Clone, Copy, Debug)]
pub struct Prefix {
    pub kind: PrefixKind,
    pub start: usize,
    pub mid: usize,
    pub second: usize,
    pub end: usize,
    pub len: usize,
}

#[verifier::ext_equal]
pub struct PrefixView {
    pub kind: PrefixKind,
    pub start: int,
    pub mid: int,
    pub second: int,
    pub end: int,
    pub len: int,
}

impl View for Prefix {
    type V = PrefixView;

    open spec fn view(&self) -> PrefixView {
        PrefixView {
            kind: self.kind,
            start: self.start as int,
            mid: self.mid as int,
            second: self.second as int,
            end: self.end as int,
            len: self.len as int,
        }
    }
}

pub open spec fn slash(b: u8) -> bool {
    Separators::Either.part(b)
}

/// A drive letter and its colon stand at `i`.
pub open spec fn drive_at(b: Seq<u8>, i: int) -> bool {
    i + 2 <= b.len() && (0x41 <= b[i] <= 0x5a || 0x61 <= b[i] <= 0x7a) && b[i + 1] == 0x3a
}

pub open spec fn drive_prefix(kind: PrefixKind, start: int) -> PrefixView {
    PrefixView {
        kind,
        start,
        mid: start + 1,
        second: start + 2,
        end: start + 2,
        len: start + 2,
    }
}

pub open spec fn one_name(b: Seq<u8>, kind: PrefixKind, start: int, by: Separators) -> PrefixView {
    let mid = segment_end(b, start, by);
    PrefixView { kind, start, mid, second: mid, end: mid, len: mid }
}

/// Two names with one separator between them; the separator belongs to the
/// prefix only where the second name is not empty.
pub open spec fn two_names(b: Seq<u8>, kind: PrefixKind, start: int, by: Separators) -> PrefixView {
    let mid = segment_end(b, start, by);
    let second = if mid < b.len() {
        mid + 1
    } else {
        mid
    };
    let end = segment_end(b, second, by);
    PrefixView {
        kind,
        start,
        mid,
        second,
        end,
        len: if second < end {
            end
        } else {
            mid
        },
    }
}

/// The path starts with `\\?\`, in backslashes.
pub open spec fn starts_verbatim(b: Seq<u8>) -> bool {
    b.len() >= 4 && b[0] == 0x5c && b[1] == 0x5c && b[2] == 0x3f && b[3] == 0x5c
}

/// `UNC` and a separator stand behind the verbatim mark.
pub open spec fn names_share(b: Seq<u8>) -> bool {
    b.len() >= 8 && b[4] == 0x55 && b[5] == 0x4e && b[6] == 0x43 && slash(b[7])
}

/// The prefix of a Windows path, if it has one.
#[verifier::opaque]
pub open spec fn windows_prefix(b: Seq<u8>) -> Option<PrefixView> {
    if b.len() >= 2 && slash(b[0]) && slash(b[1]) {
        if starts_verbatim(b) {
            if names_share(b) {
                Some(two_names(b, PrefixKind::VerbatimUnc, 8, Separators::Backslash))
            } else if drive_at(b, 4) && (b.len() == 6 || slash(b[6])) {
                Some(drive_prefix(PrefixKind::VerbatimDisk, 4))
            } else {
                Some(one_name(b, PrefixKind::Verbatim, 4, Separators::Backslash))
            }
        } else if b.len() >= 4 && b[2] == 0x2e && slash(b[3]) {
            Some(one_name(b, PrefixKind::Device, 4, Separators::Either))
        } else {
            let x = two_names(b, PrefixKind::Unc, 2, Separators::Either);
            if x.start < x.mid && x.second < x.end {
                Some(x)
            } else {
                None
            }
        }
    } else if drive_at(b, 0) {
        Some(drive_prefix(PrefixKind::Disk, 0))
    } else {
        None
    }
}

pub open spec fn upper_letter(b: u8) -> u8 {
    if 0x61 <= b <= 0x7a {
        (b - 0x20) as u8
    } else {
        b
    }
}

/// The first name of a prefix; a drive is named by its letter, in upper case.
pub open spec fn first_name(b: Seq<u8>, x: PrefixView) -> Seq<u8> {
    if x.kind.names_drive() {
        seq![upper_letter(b[x.start])]
    } else {
        b.subrange(x.start, x.mid)
    }
}

pub open spec fn second_name(b: Seq<u8>, x: PrefixView) -> Seq<u8> {
    b.subrange(x.second, x.end)
}

/// What is put behind the path does not become part of its prefix: a path that
/// starts with two separators has a prefix, one that names a server names a
/// share, and one that names a device does so with a name.
pub open spec fn settled_prefix(b: Seq<u8>) -> bool {
    match windows_prefix(b) {
        Some(x) => (x.kind is VerbatimUnc ==> x.second < x.end) && (x.kind is Device ==> x.start
            < x.mid) && (x.kind is Verbatim ==> b.subrange(x.start, x.mid) != seq![
            0x55u8,
            0x4e,
            0x43,
        ]),
        None => !(b.len() >= 2 && slash(b[0]) && slash(b[1])),
    }
}

// ---------------------------------------------------------------------------
// Facts
// ---------------------------------------------------------------------------

pub proof fn lemma_segment_end(b: Seq<u8>, i: int, by: Separators)
    requires
        0 <= i <= b.len(),
    ensures
        i <= segment_end(b, i, by) <= b.len(),
        i < b.len() && !by.part(b[i]) ==> segment_end(b, i, by) > i,
        forall|k: int| i <= k < segment_end(b, i, by) ==> !by.part(#[trigger] b[k]),
        segment_end(b, i, by) < b.len() ==> by.part(b[segment_end(b, i, by)]),
    decreases b.len() - i,
{
    if i < b.len() && !by.part(b[i]) {
        lemma_segment_end(b, i + 1, by);
    }
}

pub proof fn lemma_segment_end_is(b: Seq<u8>, i: int, by: Separators, end: int)
    requires
        0 <= i <= end <= b.len(),
        forall|k: int| i <= k < end ==> !by.part(#[trigger] b[k]),
        end < b.len() ==> by.part(b[end]),
    ensures
        segment_end(b, i, by) == end,
    decreases end - i,
{
    if i < end {
        lemma_segment_end_is(b, i + 1, by, end);
    }
}

/// A prefix and its names lie within the path.
pub proof fn lemma_prefix(b: Seq<u8>)
    ensures
        windows_prefix(b) matches Some(x) ==> {
            &&& 0 <= x.start <= x.mid <= x.second <= x.end <= b.len()
            &&& 2 <= x.len <= b.len()
            &&& x.mid <= x.len
            &&& x.kind.names_drive() ==> x.start < x.mid
            &&& x.second < x.end || !(x.kind is VerbatimUnc) ==> x.end <= x.len
            &&& !(x.kind is Disk) ==> x.len >= 4 && (x.len < b.len() ==> slash(b[x.len]))
            &&& x.kind is Verbatim || x.kind is VerbatimUnc ==> x.len < b.len() ==> b[x.len] == 0x5c
            &&& x.kind.is_verbatim() ==> starts_verbatim(b)
        },
{
    reveal(windows_prefix);
    if b.len() >= 2 {
        lemma_segment_end(b, 2, Separators::Either);
        let mid = segment_end(b, 2, Separators::Either);
        if mid < b.len() {
            lemma_segment_end(b, mid + 1, Separators::Either);
        }
    }
    if b.len() >= 4 {
        lemma_segment_end(b, 4, Separators::Either);
        lemma_segment_end(b, 4, Separators::Backslash);
    }
    if b.len() >= 8 {
        lemma_segment_end(b, 8, Separators::Backslash);
        let mid = segment_end(b, 8, Separators::Backslash);
        if mid < b.len() {
            lemma_segment_end(b, mid + 1, Separators::Backslash);
        }
    }
}

/// Another path that starts with the same bytes, up to the end of a settled
/// prefix and the separator behind it, has the same prefix.
pub proof fn lemma_prefix_kept(b: Seq<u8>, c: Seq<u8>)
    requires
        windows_prefix(b) is Some,
        settled_prefix(b),
        windows_prefix(b)->0.len <= c.len(),
        forall|k: int| 0 <= k < windows_prefix(b)->0.len ==> #[trigger] c[k] == b[k],
        ({
            let n = windows_prefix(b)->0.len;
            ||| windows_prefix(b)->0.kind is Disk
            ||| c.len() == n
            ||| c[n] == 0x5c
            ||| n < b.len() && c[n] == b[n]
        }),
    ensures
        windows_prefix(c) == windows_prefix(b),
{
    reveal(windows_prefix);
    lemma_prefix(b);
    let x = windows_prefix(b)->0;
    let n = x.len;
    assert(c[0] == b[0] && c[1] == b[1]);
    if !(x.kind is Disk) {
        assert(c[2] == b[2] && c[3] == b[3]);
        assert(n < c.len() ==> slash(c[n]));
        let by = if x.kind.is_verbatim() {
            Separators::Backslash
        } else {
            Separators::Either
        };
        if x.kind is VerbatimDisk {
            assert(c[4] == b[4] && c[5] == b[5]);
        } else {
            lemma_segment_end(b, x.start, by);
            assert(forall|k: int| x.start <= k < x.mid ==> #[trigger] c[k] == b[k]);
            if x.kind is Unc || x.kind is VerbatimUnc {
                lemma_segment_end(b, x.second, by);
                assert(c[x.mid] == b[x.mid]);
                assert(forall|k: int| x.second <= k < x.end ==> #[trigger] c[k] == b[k]);
                lemma_segment_end_is(c, x.second, by, x.end);
                if x.kind is VerbatimUnc {
                    assert(c[4] == b[4] && c[5] == b[5] && c[6] == b[6] && c[7] == b[7]);
                }
            }
            lemma_segment_end_is(c, x.start, by, x.mid);
            if x.kind is Verbatim {
                lemma_verbatim_kept(b, c);
            }
        }
    }
}

/// Under the same verbatim name stands neither a share nor a drive.
proof fn lemma_verbatim_kept(b: Seq<u8>, c: Seq<u8>)
    requires
        windows_prefix(b) is Some,
        windows_prefix(b)->0.kind is Verbatim,
        settled_prefix(b),
        windows_prefix(b)->0.len <= c.len(),
        starts_verbatim(c),
        forall|k: int| 0 <= k < windows_prefix(b)->0.len ==> #[trigger] c[k] == b[k],
        windows_prefix(b)->0.len < c.len() ==> c[windows_prefix(b)->0.len] == 0x5c,
    ensures
        !names_share(c),
        !(drive_at(c, 4) && (c.len() == 6 || slash(c[6]))),
{
    reveal(windows_prefix);
    lemma_prefix(b);
    lemma_segment_end(b, 4, Separators::Backslash);
    let n = windows_prefix(b)->0.len;
    if names_share(c) {
        if n > 7 {
            assert(c[4] == b[4] && c[5] == b[5] && c[6] == b[6] && c[7] == b[7]);
        } else if n == 7 {
            assert(c[4] == b[4] && c[5] == b[5] && c[6] == b[6]);
            assert(b.subrange(4, 7) =~= seq![0x55u8, 0x4e, 0x43]);
        } else {
            assert(c[n] == 0x5c);
        }
        assert(false);
    }
    if drive_at(c, 4) && (c.len() == 6 || slash(c[6])) {
        if n > 6 {
            assert(c[4] == b[4] && c[5] == b[5] && c[6] == b[6]);
        } else if n == 6 {
            assert(c[4] == b[4] && c[5] == b[5]);
        } else {
            assert(c[n] == 0x5c);
        }
        assert(false);
    }
}

// ---------------------------------------------------------------------------
// Executable functions
// ---------------------------------------------------------------------------

pub fn end_of_segment(b: &Vec<u8>, from: usize, by: Separators) -> (r: usize)
    requires
        from <= b@.len(),
    ensures
        r == segment_end(b@, from as int, by),
        from <= r <= b@.len(),
{
    let mut i: usize = from;
    while i < b.len() && !by.parts(b[i])
        invariant
            from <= i <= b@.len(),
            segment_end(b@, from as int, by) == segment_end(b@, i as int, by),
        decreases b@.len() - i,
    {
        i += 1;
    }
    i
}

fn is_slash(b: u8) -> (r: bool)
    ensures
        r == slash(b),
{
    b == 0x2f || b == 0x5c
}

fn is_drive_at(b: &Vec<u8>, i: usize) -> (r: bool)
    requires
        i <= 4,
    ensures
        r == drive_at(b@, i as int),
{
    if i + 2 > b.len() {
        return false;
    }
    let letter = b[i];
    ((0x41 <= letter && letter <= 0x5a) || (0x61 <= letter && letter <= 0x7a)) && b[i + 1] == 0x3a
}

fn find_one_name(b: &Vec<u8>, kind: PrefixKind, start: usize, by: Separators) -> (r: Prefix)
    requires
        start <= b@.len(),
    ensures
        r@ == one_name(b@, kind, start as int, by),
{
    let mid = end_of_segment(b, start, by);
    Prefix { kind, start, mid, second: mid, end: mid, len: mid }
}

fn find_two_names(b: &Vec<u8>, kind: PrefixKind, start: usize, by: Separators) -> (r: Prefix)
    requires
        start <= b@.len(),
    ensures
        r@ == two_names(b@, kind, start as int, by),
{
    let mid = end_of_segment(b, start, by);
    let second = if mid < b.len() {
        mid + 1
    } else {
        mid
    };
    let end = end_of_segment(b, second, by);
    Prefix {
        kind,
        start,
        mid,
        second,
        end,
        len: if second < end {
            end
        } else {
            mid
        },
    }
}

/// The prefix of a Windows path, if it has one.
pub fn find_prefix(b: &Vec<u8>) -> (r: Option<Prefix>)
    ensures
        match r {
            Some(x) => windows_prefix(b@) == Some(x@),
            None => windows_prefix(b@) is None,
        },
{
    proof {
        reveal(windows_prefix);
    }
    let n = b.len();
    if n >= 2 && is_slash(b[0]) && is_slash(b[1]) {
        if n >= 4 && b[0] == 0x5c && b[1] == 0x5c && b[2] == 0x3f && b[3] == 0x5c {
            if n >= 8 && b[4] == 0x55 && b[5] == 0x4e && b[6] == 0x43 && is_slash(b[7]) {
                Some(find_two_names(b, PrefixKind::VerbatimUnc, 8, Separators::Backslash))
            } else if is_drive_at(b, 4) && (n == 6 || is_slash(b[6])) {
                Some(
                    Prefix {
                        kind: PrefixKind::VerbatimDisk,
                        start: 4,
                        mid: 5,
                        second: 6,
                        end: 6,
                        len: 6,
                    },
                )
            } else {
                Some(find_one_name(b, PrefixKind::Verbatim, 4, Separators::Backslash))
            }
        } else if n >= 4 && b[2] == 0x2e && is_slash(b[3]) {
            Some(find_one_name(b, PrefixKind::Device, 4, Separators::Either))
        } else {
            let x = find_two_names(b, PrefixKind::Unc, 2, Separators::Either);
            if x.start < x.mid && x.second < x.end {
                Some(x)
            } else {
                None
            }
        }
    } else if is_drive_at(b, 0) {
        Some(Prefix { kind: PrefixKind::Disk, start: 0, mid: 1, second: 2, end: 2, len: 2 })
    } else {
        None
    }
}

} // verus!
