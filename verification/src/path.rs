//! Paths as byte strings, read by the conventions of a platform: their
//! components, file names, parents and joins, and the order in which paths sort.

use vstd::prelude::*;
use crate::order::{is_sort_order, keys_view, sort_order, sorted_positions, Key};
use crate::path_facts::{
    lemma_body_from,
    lemma_last_position,
    lemma_last_position_is,
    lemma_lead,
    lemma_named_path_has_parent,
    lemma_parts,
};
use crate::prefix::{
    end_of_segment,
    find_prefix,
    first_name,
    lemma_prefix,
    lemma_segment_end,
    second_name,
    segment_end,
    upper_letter,
    windows_prefix,
    Prefix,
    PrefixKind,
    PrefixView,
    Separators,
};
use crate::text::{
    copy_range,
    from_utf8_lossy,
    lossy_text,
    push_bytes,
    repaired_text,
    same_bytes,
    utf8_text,
};

verus! {

broadcast use vstd::seq_lib::group_seq_properties;

/// The conventions that a path follows.
#[derive(Clone, Copy, Debug, PartialEq, Eq, Structural)]
pub enum Platform {
    Windows,
    MacOs,
    Other,
}

impl Platform {
    /// Names that differ only in case name the same file.
    pub open spec fn ignores_case(self) -> bool {
        self is Windows || self is MacOs
    }

    pub open spec fn separators(self) -> Separators {
        if self is Windows {
            Separators::Either
        } else {
            Separators::Slash
        }
    }

    pub open spec fn is_separator(self, b: u8) -> bool {
        self.separators().part(b)
    }

    /// The separator that a join puts in.
    pub open spec fn main_separator(self) -> u8 {
        if self is Windows {
            0x5c
        } else {
            0x2f
        }
    }

    pub fn case_insensitive(self) -> (r: bool)
        ensures
            r == self.ignores_case(),
    {
        match self {
            Platform::Windows => true,
            Platform::MacOs => true,
            Platform::Other => false,
        }
    }

    fn windows(self) -> (r: bool)
        ensures
            r == (self is Windows),
    {
        match self {
            Platform::Windows => true,
            _ => false,
        }
    }

    fn separates(self, b: u8) -> (r: bool)
        ensures
            r == self.is_separator(b),
    {
        b == 0x2f || (self.windows() && b == 0x5c)
    }
}

/// A path: the bytes that the operating system encodes it in, and the platform
/// whose conventions they follow.
#[derive(Debug, PartialEq, Eq)]
pub struct FilePath {
    pub bytes: Vec<u8>,
    pub platform: Platform,
}

/// A path as a mathematical value.
#[verifier::ext_equal]
pub struct PathView {
    pub bytes: Seq<u8>,
    pub platform: Platform,
}

impl View for FilePath {
    type V = PathView;

    open spec fn view(&self) -> PathView {
        PathView { bytes: self.bytes@, platform: self.platform }
    }
}

impl Clone for FilePath {
    fn clone(&self) -> (r: FilePath)
        ensures
            r@ == self@,
    {
        FilePath {
            bytes: vstd::slice::slice_to_vec(self.bytes.as_slice()),
            platform: self.platform,
        }
    }
}

/// The views of a list of paths.
pub open spec fn path_views(v: Seq<FilePath>) -> Seq<PathView> {
    Seq::new(v.len(), |i: int| v[i]@)
}

#[derive(Clone, Copy, Debug, PartialEq, Eq, Structural)]
pub enum PartKind {
    Prefix,
    Root,
    Current,
    Parent,
    Normal,
}

/// A component of a path: what it is, and where in the path it stands.
#[derive(Clone, Copy, Debug)]
pub struct Part {
    pub kind: PartKind,
    pub start: usize,
    pub end: usize,
}

#[verifier::ext_equal]
pub struct Span {
    pub kind: PartKind,
    pub start: int,
    pub end: int,
}

impl View for Part {
    type V = Span;

    open spec fn view(&self) -> Span {
        Span { kind: self.kind, start: self.start as int, end: self.end as int }
    }
}

pub open spec fn spans(v: Seq<Part>) -> Seq<Span> {
    Seq::new(v.len(), |i: int| v[i]@)
}

pub open spec fn segment_kind(segment: Seq<u8>) -> PartKind {
    if segment == seq![0x2eu8] {
        PartKind::Current
    } else if segment == seq![0x2eu8, 0x2eu8] {
        PartKind::Parent
    } else {
        PartKind::Normal
    }
}

/// The prefix of the path; only on Windows do paths have one.
pub open spec fn prefix(p: PathView) -> Option<PrefixView> {
    if p.platform is Windows {
        windows_prefix(p.bytes)
    } else {
        None
    }
}

pub open spec fn prefix_len(p: PathView) -> int {
    match prefix(p) {
        Some(x) => x.len,
        None => 0,
    }
}

/// The path is taken as it stands behind its prefix.
pub open spec fn is_verbatim(p: PathView) -> bool {
    prefix(p) is Some && prefix(p)->0.kind.is_verbatim()
}

pub open spec fn is_drive(p: PathView) -> bool {
    prefix(p) is Some && prefix(p)->0.kind is Disk
}

/// What parts the components behind the prefix and the root.
pub open spec fn separators(p: PathView) -> Separators {
    if is_verbatim(p) {
        Separators::Backslash
    } else {
        p.platform.separators()
    }
}

/// A separator stands right behind the prefix.
pub open spec fn starts_at_root(p: PathView) -> bool {
    prefix_len(p) < p.bytes.len() && p.platform.is_separator(p.bytes[prefix_len(p)])
}

/// The path starts at a root; every prefix but a drive brings one.
pub open spec fn has_root(p: PathView) -> bool {
    starts_at_root(p) || (prefix(p) is Some && !is_drive(p))
}

/// The path has no root and a lone dot comes first.
pub open spec fn starts_with_dot(p: PathView) -> bool {
    let n = prefix_len(p);
    &&& !has_root(p)
    &&& n < p.bytes.len()
    &&& p.bytes[n] == 0x2e
    &&& n + 1 == p.bytes.len() || separators(p).part(p.bytes[n + 1])
}

/// How much of the path comes before its names.
pub open spec fn lead_len(p: PathView) -> int {
    if starts_at_root(p) || starts_with_dot(p) {
        prefix_len(p) + 1
    } else {
        prefix_len(p)
    }
}

/// What a path starts with: its prefix, if any, and its root or first dot.
pub open spec fn leading_parts(p: PathView) -> Seq<Span> {
    let n = prefix_len(p);
    let head = if prefix(p) is Some {
        seq![Span { kind: PartKind::Prefix, start: 0, end: n }]
    } else {
        Seq::empty()
    };
    if starts_at_root(p) {
        head.push(Span { kind: PartKind::Root, start: n, end: n + 1 })
    } else if prefix(p) is Some {
        if is_drive(p) || is_verbatim(p) {
            head
        } else {
            head.push(Span { kind: PartKind::Root, start: n, end: n })
        }
    } else if starts_with_dot(p) {
        head.push(Span { kind: PartKind::Current, start: n, end: n + 1 })
    } else {
        head
    }
}

/// The components from position `i` on. Repeated separators count as one, and a
/// lone dot is a component only where the path is taken as it stands, which is
/// where only a backslash parts components.
pub open spec fn body_from(b: Seq<u8>, i: int, by: Separators) -> Seq<Span>
    decreases b.len() - i,
{
    if i < 0 || i >= b.len() {
        Seq::empty()
    } else if by.part(b[i]) {
        body_from(b, i + 1, by)
    } else {
        proof {
            lemma_segment_end(b, i, by);
        }
        let end = segment_end(b, i, by);
        let kind = segment_kind(b.subrange(i, end));
        if kind is Current && !(by is Backslash) {
            body_from(b, end, by)
        } else {
            seq![Span { kind, start: i, end }] + body_from(b, end, by)
        }
    }
}

pub open spec fn body(p: PathView) -> Seq<Span> {
    body_from(p.bytes, lead_len(p), separators(p))
}

/// The components of a path.
pub open spec fn parts(p: PathView) -> Seq<Span> {
    leading_parts(p) + body(p)
}

/// Where the path ends, apart from separators and dots behind its last component.
pub open spec fn path_end(p: PathView) -> int {
    if body(p).len() > 0 {
        body(p).last().end
    } else {
        lead_len(p)
    }
}

/// The last component of a path, if it is a name.
pub open spec fn file_name(p: PathView) -> Option<Seq<u8>> {
    let all = parts(p);
    if all.len() > 0 && all.last().kind is Normal {
        Some(p.bytes.subrange(all.last().start, all.last().end))
    } else {
        None
    }
}

pub open spec fn cut(p: PathView, end: int) -> PathView {
    PathView { bytes: p.bytes.subrange(0, end), platform: p.platform }
}

/// The path without its last component; none for the empty path and for one
/// that ends in its root or prefix.
pub open spec fn parent(p: PathView) -> Option<PathView> {
    let names = body(p);
    if names.len() >= 2 {
        Some(cut(p, names[names.len() - 2].end))
    } else if names.len() == 1 {
        Some(cut(p, lead_len(p)))
    } else if prefix(p) is None && starts_with_dot(p) {
        Some(cut(p, 0))
    } else {
        None
    }
}

/// A component as text to put into another path.
#[verifier::ext_equal]
pub struct PieceView {
    pub kind: PartKind,
    pub bytes: Seq<u8>,
}

pub open spec fn piece(p: PathView, s: Span) -> PieceView {
    PieceView {
        kind: s.kind,
        bytes: if s.kind is Root {
            seq![0x5cu8]
        } else {
            p.bytes.subrange(s.start, s.end)
        },
    }
}

pub open spec fn pieces(p: PathView) -> Seq<PieceView> {
    Seq::new(parts(p).len(), |i: int| piece(p, parts(p)[i]))
}

/// The components after one more step: a root leads back behind the prefix, a
/// dot stays, two dots leave a name.
pub open spec fn stepped(at: Seq<PieceView>, step: PieceView) -> Seq<PieceView> {
    match step.kind {
        PartKind::Root => (if at.len() > 0 {
            at.take(1)
        } else {
            at
        }).push(step),
        PartKind::Current => at,
        PartKind::Parent => if at.len() > 0 && at.last().kind is Normal {
            at.drop_last()
        } else {
            at
        },
        _ => at.push(step),
    }
}

pub open spec fn walked(at: Seq<PieceView>, steps: Seq<PieceView>) -> Seq<PieceView>
    decreases steps.len(),
{
    if steps.len() == 0 {
        at
    } else {
        stepped(walked(at, steps.drop_last()), steps.last())
    }
}

/// The components written out, with a backslash between any two of them neither
/// of which is the root.
pub open spec fn written(all: Seq<PieceView>) -> Seq<u8>
    decreases all.len(),
{
    if all.len() == 0 {
        Seq::empty()
    } else {
        let front = all.drop_last();
        let before = if front.len() > 0 && !(front.last().kind is Root) && !(all.last().kind
            is Root) {
            written(front).push(0x5c)
        } else {
            written(front)
        };
        before + all.last().bytes
    }
}

/// `base` with `tail` below it. A `tail` with a prefix replaces the path, one
/// that starts at a root all but the prefix. Where `base` is taken as it stands,
/// the steps of `tail` are taken on its components.
#[verifier::opaque]
pub open spec fn join(base: PathView, tail: Seq<u8>) -> PathView {
    let t = PathView { bytes: tail, platform: base.platform };
    let bytes = if prefix(t) is Some {
        tail
    } else if is_verbatim(base) && tail.len() > 0 {
        written(walked(pieces(base), pieces(t)))
    } else if has_root(t) {
        base.bytes.take(prefix_len(base)) + tail
    } else if base.bytes.len() == 0 || base.platform.is_separator(base.bytes.last()) || (is_drive(
        base,
    ) && base.bytes.len() == prefix_len(base)) {
        base.bytes + tail
    } else {
        base.bytes.push(base.platform.main_separator()) + tail
    };
    PathView { bytes, platform: base.platform }
}

/// What is joined to a path follows the conventions of that path.
pub proof fn lemma_join_platform(base: PathView, tail: Seq<u8>)
    ensures
        join(base, tail).platform == base.platform,
{
    reveal(join);
}

/// The path with its file name, if it has one, replaced by `name`.
pub open spec fn with_file_name(p: PathView, name: Seq<u8>) -> PathView {
    if file_name(p) is Some {
        join(parent(p)->0, name)
    } else {
        join(p, name)
    }
}

/// Prefixes are the same by kind and names, a drive in either case.
pub open spec fn same_prefix(p: PathView, q: PathView) -> bool {
    &&& prefix(p) is Some
    &&& prefix(q) is Some
    &&& prefix(p)->0.kind == prefix(q)->0.kind
    &&& first_name(p.bytes, prefix(p)->0) == first_name(q.bytes, prefix(q)->0)
    &&& second_name(p.bytes, prefix(p)->0) == second_name(q.bytes, prefix(q)->0)
}

/// Two components are the same: of one kind and, where they are names, with the
/// same bytes.
pub open spec fn same_part(p: PathView, a: Span, q: PathView, b: Span) -> bool {
    &&& a.kind == b.kind
    &&& a.kind is Normal ==> p.bytes.subrange(a.start, a.end) == q.bytes.subrange(b.start, b.end)
    &&& a.kind is Prefix ==> same_prefix(p, q)
}

/// The components of `base` are the first components of `p`.
pub open spec fn lies_below(p: PathView, base: PathView) -> bool {
    parts(base).len() <= parts(p).len() && forall|i: int|
        0 <= i < parts(base).len() ==> same_part(p, #[trigger] parts(p)[i], base, parts(base)[i])
}

/// Two paths are the same, component by component.
pub open spec fn equal_paths(p: PathView, q: PathView) -> bool {
    parts(p).len() == parts(q).len() && lies_below(p, q)
}

/// What of `p` comes after the components of `base`; all of `p` where it does not
/// lie below `base`.
pub open spec fn relative(p: PathView, base: PathView) -> PathView {
    let n = parts(base).len();
    let behind_prefix = n == 1 && prefix(p) is Some;
    if !lies_below(p, base) {
        p
    } else if parts(p).len() == n && !behind_prefix {
        PathView { bytes: Seq::empty(), platform: p.platform }
    } else {
        let start = if n == 0 {
            0
        } else if behind_prefix {
            prefix_len(p)
        } else {
            parts(p)[n as int].start
        };
        PathView { bytes: p.bytes.subrange(start, path_end(p)), platform: p.platform }
    }
}

/// The last position at which `b` stands in `s`, or -1.
pub open spec fn last_position(s: Seq<u8>, b: u8) -> int
    decreases s.len(),
{
    if s.len() == 0 {
        -1
    } else if s.last() == b {
        s.len() - 1
    } else {
        last_position(s.drop_last(), b)
    }
}

/// A file name up to its last dot; all of it where no dot stands after the
/// first character.
pub open spec fn stem_of(name: Seq<u8>) -> Seq<u8> {
    let dot = last_position(name, 0x2e);
    if dot > 0 {
        name.take(dot)
    } else {
        name
    }
}

/// A file name after its last dot, where one stands after the first character.
pub open spec fn extension_of(name: Seq<u8>) -> Option<Seq<u8>> {
    let dot = last_position(name, 0x2e);
    if dot > 0 {
        Some(name.skip(dot + 1))
    } else {
        None
    }
}

pub open spec fn file_stem(p: PathView) -> Option<Seq<u8>> {
    match file_name(p) {
        Some(name) => Some(stem_of(name)),
        None => None,
    }
}

pub open spec fn extension(p: PathView) -> Option<Seq<u8>> {
    match file_name(p) {
        Some(name) => extension_of(name),
        None => None,
    }
}

/// The bytes with every lone surrogate, which Windows lets a name hold, replaced
/// by a replacement character.
pub open spec fn mended(b: Seq<u8>) -> Seq<u8>
    decreases b.len(),
{
    if b.len() == 0 {
        Seq::empty()
    } else if surrogate_at(b, 0) {
        seq![0xefu8, 0xbf, 0xbd] + mended(b.skip(3))
    } else {
        seq![b[0]] + mended(b.skip(1))
    }
}

/// The three bytes that a lone surrogate is encoded in stand at `i`.
pub open spec fn surrogate_at(b: Seq<u8>, i: int) -> bool {
    i + 3 <= b.len() && b[i] == 0xed && 0xa0 <= b[i + 1] <= 0xbf && 0x80 <= b[i + 2] <= 0xbf
}

/// A path or a name as text, with a replacement character for each part that is
/// no text.
pub open spec fn shown(b: Seq<u8>, platform: Platform) -> Seq<char> {
    if vstd::utf8::valid_utf8(b) {
        vstd::utf8::decode_utf8(b)
    } else if platform is Windows {
        lossy_text(mended(b))
    } else {
        repaired_text(b)
    }
}

pub open spec fn path_text(p: PathView) -> Seq<char> {
    shown(p.bytes, p.platform)
}

// ---------------------------------------------------------------------------
// Order
// ---------------------------------------------------------------------------

/// A byte string as a key: byte by byte, so that it sorts as the bytes do.
pub open spec fn bytes_key(b: Seq<u8>) -> Seq<u16> {
    Seq::new(b.len(), |i: int| (b[i] + 1) as u16)
}

/// Components of different kinds sort by kind.
pub open spec fn kind_rank(kind: PartKind) -> u16 {
    match kind {
        PartKind::Prefix => 0,
        PartKind::Root => 1,
        PartKind::Current => 2,
        PartKind::Parent => 3,
        PartKind::Normal => 4,
    }
}

/// Prefixes of different kinds sort by kind.
pub open spec fn prefix_rank(kind: PrefixKind) -> u16 {
    match kind {
        PrefixKind::Verbatim => 0,
        PrefixKind::VerbatimUnc => 1,
        PrefixKind::VerbatimDisk => 2,
        PrefixKind::Device => 3,
        PrefixKind::Unc => 4,
        PrefixKind::Disk => 5,
    }
}

pub open spec fn prefix_key(b: Seq<u8>, x: PrefixView) -> Seq<u16> {
    (seq![prefix_rank(x.kind)] + bytes_key(first_name(b, x))).push(0) + bytes_key(second_name(b, x))
}

pub open spec fn span_key(p: PathView, s: Span) -> Seq<u16> {
    let name = match s.kind {
        PartKind::Normal => bytes_key(p.bytes.subrange(s.start, s.end)),
        PartKind::Prefix => prefix_key(p.bytes, prefix(p)->0),
        _ => Seq::empty(),
    };
    (seq![kind_rank(s.kind)] + name).push(0)
}

pub open spec fn spans_key(p: PathView, all: Seq<Span>) -> Seq<u16>
    decreases all.len(),
{
    if all.len() == 0 {
        Seq::empty()
    } else {
        spans_key(p, all.drop_last()) + span_key(p, all.last())
    }
}

/// The key by which a path sorts: component by component, each by its kind and
/// then by its bytes, a path before what lies below it. A name is closed by a
/// zero, which no byte of a name stands for, so that a shorter name is smaller.
pub open spec fn sort_key(p: PathView) -> Seq<u16> {
    spans_key(p, parts(p))
}

/// The items of `s` in the given order.
pub open spec fn arranged<T>(s: Seq<T>, order: Seq<usize>) -> Seq<T> {
    Seq::new(order.len(), |i: int| s[order[i] as int])
}

pub open spec fn sort_keys(s: Seq<PathView>) -> Seq<Seq<u16>> {
    Seq::new(s.len(), |i: int| sort_key(s[i]))
}

/// The paths in the order in which paths sort.
pub open spec fn sorted_paths(s: Seq<PathView>) -> Seq<PathView> {
    arranged(s, sort_order(sort_keys(s)))
}
// ---------------------------------------------------------------------------
// Executable functions
// ---------------------------------------------------------------------------

fn last_position_of(s: &Vec<u8>, b: u8) -> (r: Option<usize>)
    ensures
        match r {
            Some(i) => i == last_position(s@, b),
            None => last_position(s@, b) == -1,
        },
{
    let mut i: usize = s.len();
    while i > 0
        invariant
            i <= s@.len(),
            forall|k: int| i <= k < s@.len() ==> #[trigger] s@[k] != b,
        decreases i,
    {
        if s[i - 1] == b {
            proof {
                lemma_last_position_is(s@, b, i - 1);
            }
            return Some(i - 1);
        }
        i -= 1;
    }
    proof {
        lemma_last_position_is(s@, b, -1);
    }
    None
}

/// The stem and the extension of a file name.
pub fn split_name(name: &Vec<u8>) -> (r: (Vec<u8>, Option<Vec<u8>>))
    ensures
        r.0@ == stem_of(name@),
        match r.1 {
            Some(e) => extension_of(name@) == Some(e@),
            None => extension_of(name@) is None,
        },
{
    match last_position_of(name, 0x2e) {
        Some(dot) if dot > 0 => {
            proof {
                lemma_last_position(name@, 0x2e);
            }
            assert(dot < name.len());
            let stem = copy_range(name, 0, dot);
            let ext = copy_range(name, dot + 1, name.len());
            assert(stem@ =~= name@.take(dot as int));
            assert(ext@ =~= name@.skip(dot + 1));
            (stem, Some(ext))
        },
        _ => {
            let all = copy_range(name, 0, name.len());
            assert(all@ =~= name@);
            (all, None)
        },
    }
}

fn push_bytes_key(key: &mut Key, b: &Vec<u8>)
    ensures
        final(key)@ == old(key)@ + bytes_key(b@),
{
    let mut i: usize = 0;
    while i < b.len()
        invariant
            i <= b@.len(),
            key@ == old(key)@ + bytes_key(b@).take(i as int),
        decreases b@.len() - i,
    {
        key.push(b[i] as u16 + 1);
        i += 1;
        assert(bytes_key(b@).take(i as int) =~= bytes_key(b@).take(i - 1).push(
            (b@[i - 1] + 1) as u16,
        ));
    }
    assert(bytes_key(b@).take(i as int) =~= bytes_key(b@));
}

fn push_prefix_key(key: &mut Key, b: &Vec<u8>, x: &Prefix)
    requires
        windows_prefix(b@) == Some(x@),
    ensures
        final(key)@ == old(key)@ + prefix_key(b@, x@),
{
    let ghost before = key@;
    key.push(
        match x.kind {
            PrefixKind::Verbatim => 0,
            PrefixKind::VerbatimUnc => 1,
            PrefixKind::VerbatimDisk => 2,
            PrefixKind::Device => 3,
            PrefixKind::Unc => 4,
            PrefixKind::Disk => 5,
        },
    );
    let names = prefix_names(b, x);
    push_bytes_key(key, &names.0);
    key.push(0);
    push_bytes_key(key, &names.1);
    assert(key@ =~= before + prefix_key(b@, x@));
}

/// The positions of the paths in sorted order.
pub fn path_order(v: &Vec<FilePath>) -> (r: Vec<usize>)
    ensures
        r@ == sort_order(sort_keys(path_views(v@))),
        is_sort_order(sort_keys(path_views(v@)), r@),
{
    let mut keys: Vec<Key> = Vec::new();
    let mut i: usize = 0;
    while i < v.len()
        invariant
            i <= v@.len(),
            keys@.len() == i,
            forall|k: int| 0 <= k < i ==> (#[trigger] keys@[k])@ == sort_key(v@[k]@),
        decreases v@.len() - i,
    {
        keys.push(v[i].sort_key());
        i += 1;
    }
    assert(keys_view(keys@) =~= sort_keys(path_views(v@)));
    sorted_positions(&keys)
}

pub fn sort_paths(v: &Vec<FilePath>) -> (r: Vec<FilePath>)
    ensures
        path_views(r@) == sorted_paths(path_views(v@)),
{
    let order = path_order(v);
    let mut r: Vec<FilePath> = Vec::new();
    let mut i: usize = 0;
    while i < order.len()
        invariant
            i <= order@.len(),
            is_sort_order(sort_keys(path_views(v@)), order@),
            r@.len() == i,
            forall|k: int| 0 <= k < i ==> (#[trigger] r@[k])@ == v@[order@[k] as int]@,
        decreases order@.len() - i,
    {
        assert(order@[i as int] < v@.len());
        r.push(v[order[i]].clone());
        i += 1;
    }
    assert(path_views(r@) =~= sorted_paths(path_views(v@)));
    r
}

/// The key by which a name sorts.
pub fn name_sort_key(b: &Vec<u8>) -> (r: Key)
    ensures
        r@ == bytes_key(b@),
{
    let mut key: Key = Vec::new();
    push_bytes_key(&mut key, b);
    key
}
/// A component as text to put into another path.
struct Piece {
    kind: PartKind,
    bytes: Vec<u8>,
}

impl View for Piece {
    type V = PieceView;

    closed spec fn view(&self) -> PieceView {
        PieceView { kind: self.kind, bytes: self.bytes@ }
    }
}

spec fn piece_views(v: Seq<Piece>) -> Seq<PieceView> {
    Seq::new(v.len(), |i: int| v[i]@)
}

fn take_step(at: &mut Vec<Piece>, step: Piece)
    ensures
        piece_views(final(at)@) == stepped(piece_views(old(at)@), step@),
{
    let ghost before = piece_views(at@);
    let n = at.len();
    match step.kind {
        PartKind::Root => {
            if n > 0 {
                at.truncate(1);
                assert(piece_views(at@) =~= before.take(1));
            }
            at.push(step);
        },
        PartKind::Current => {},
        PartKind::Parent => {
            if n > 0 {
                assert(before.last() == at@[n - 1]@);
                if at[n - 1].kind == PartKind::Normal {
                    at.pop();
                    assert(piece_views(at@) =~= before.drop_last());
                }
            }
        },
        _ => {
            at.push(step);
        },
    }
    assert(piece_views(at@) =~= stepped(before, step@));
}

fn write_pieces(all: &Vec<Piece>) -> (r: Vec<u8>)
    ensures
        r@ == written(piece_views(all@)),
{
    let ghost views = piece_views(all@);
    let mut r: Vec<u8> = Vec::new();
    let mut i: usize = 0;
    assert(views.take(0) =~= Seq::<PieceView>::empty());
    while i < all.len()
        invariant
            i <= all@.len(),
            views == piece_views(all@),
            r@ == written(views.take(i as int)),
        decreases all@.len() - i,
    {
        let ghost upto = views.take(i + 1);
        assert(upto.drop_last() =~= views.take(i as int));
        assert(upto.last() == all@[i as int]@);
        if i > 0 {
            assert(views.take(i as int).last() == all@[i - 1]@);
            if all[i - 1].kind != PartKind::Root && all[i].kind != PartKind::Root {
                r.push(0x5c);
            }
        }
        push_bytes(&mut r, all[i].bytes.as_slice());
        assert(r@ == written(upto));
        i += 1;
    }
    assert(views.take(i as int) =~= views);
    r
}

/// One step of replacing lone surrogates, behind what was done before.
proof fn lemma_mended(b: Seq<u8>, i: int, done: Seq<u8>)
    requires
        0 <= i < b.len(),
    ensures
        surrogate_at(b, i) ==> done.push(0xef).push(0xbf).push(0xbd) + mended(b.skip(i + 3)) == done
            + mended(b.skip(i)),
        !surrogate_at(b, i) ==> done.push(b[i]) + mended(b.skip(i + 1)) == done + mended(
            b.skip(i),
        ),
{
    let rest = b.skip(i);
    if surrogate_at(b, i) {
        assert(surrogate_at(rest, 0));
        assert(rest.skip(3) =~= b.skip(i + 3));
        let mark = seq![0xefu8, 0xbf, 0xbd];
        assert(mended(rest) == mark + mended(rest.skip(3)));
        assert(done.push(0xef).push(0xbf).push(0xbd) =~= done + mark);
        assert(done + mark + mended(rest.skip(3)) =~= done + (mark + mended(rest.skip(3))));
    } else {
        assert(!surrogate_at(rest, 0));
        assert(rest.skip(1) =~= b.skip(i + 1));
        assert(mended(rest) == seq![b[i]] + mended(rest.skip(1)));
        assert(done.push(b[i]) =~= done + seq![b[i]]);
        assert(done + seq![b[i]] + mended(rest.skip(1)) =~= done + (seq![b[i]] + mended(
            rest.skip(1),
        )));
    }
}

/// The bytes with every lone surrogate replaced.
fn mend(b: &Vec<u8>) -> (r: Vec<u8>)
    ensures
        r@ == mended(b@),
{
    let mut r: Vec<u8> = Vec::new();
    let n = b.len();
    let mut i: usize = 0;
    assert(b@.skip(0) =~= b@);
    assert(r@ + mended(b@.skip(0)) =~= mended(b@));
    while i < n
        invariant
            n == b@.len(),
            i <= n,
            r@ + mended(b@.skip(i as int)) == mended(b@),
        decreases n - i,
    {
        proof {
            lemma_mended(b@, i as int, r@);
        }
        if n - i >= 3 && b[i] == 0xed && 0xa0 <= b[i + 1] && b[i + 1] <= 0xbf && 0x80 <= b[i + 2]
            && b[i + 2] <= 0xbf {
            r.push(0xef);
            r.push(0xbf);
            r.push(0xbd);
            i += 3;
        } else {
            r.push(b[i]);
            i += 1;
        }
    }
    assert(mended(b@.skip(i as int)) =~= Seq::<u8>::empty());
    assert(r@ =~= mended(b@));
    r
}

/// A path or a name as text.
pub fn show(b: &Vec<u8>, platform: Platform) -> (r: String)
    ensures
        r@ == shown(b@, platform),
{
    match utf8_text(b.as_slice()) {
        Some(s) => s,
        None => if platform.windows() {
            from_utf8_lossy(mend(b).as_slice())
        } else {
            from_utf8_lossy(b.as_slice())
        },
    }
}

fn letter_in_upper_case(b: u8) -> (r: u8)
    ensures
        r == upper_letter(b),
{
    if 0x61 <= b && b <= 0x7a {
        b - 0x20
    } else {
        b
    }
}

/// The two names of a prefix.
fn prefix_names(b: &Vec<u8>, x: &Prefix) -> (r: (Vec<u8>, Vec<u8>))
    requires
        windows_prefix(b@) == Some(x@),
    ensures
        r.0@ == first_name(b@, x@),
        r.1@ == second_name(b@, x@),
{
    proof {
        lemma_prefix(b@);
    }
    let first = match x.kind {
        PrefixKind::VerbatimDisk | PrefixKind::Disk => {
            let mut v: Vec<u8> = Vec::new();
            v.push(letter_in_upper_case(b[x.start]));
            assert(v@ =~= seq![upper_letter(b@[x.start as int])]);
            v
        },
        _ => copy_range(b, x.start, x.mid),
    };
    (first, copy_range(b, x.second, x.end))
}

fn kind_of(b: &Vec<u8>, start: usize, end: usize) -> (r: PartKind)
    requires
        start <= end <= b@.len(),
    ensures
        r == segment_kind(b@.subrange(start as int, end as int)),
{
    let ghost segment = b@.subrange(start as int, end as int);
    if end - start == 1 && b[start] == 0x2e {
        assert(segment =~= seq![0x2eu8]);
        PartKind::Current
    } else if end - start == 2 && b[start] == 0x2e && b[start + 1] == 0x2e {
        assert(segment =~= seq![0x2eu8, 0x2eu8]);
        assert(segment.len() == 2);
        PartKind::Parent
    } else {
        assert(segment.len() == end - start);
        assert(segment.len() == 1 ==> segment[0] == b@[start as int]);
        assert(segment.len() == 2 ==> segment[0] == b@[start as int] && segment[1] == b@[start
            + 1]);
        PartKind::Normal
    }
}

/// How a path starts.
struct Lead {
    prefix: Option<Prefix>,
    prefix_len: usize,
    at_root: bool,
    dot: bool,
    len: usize,
    by: Separators,
}

spec fn same_prefix_view(x: Option<Prefix>, p: PathView) -> bool {
    match x {
        Some(x) => prefix(p) == Some(x@),
        None => prefix(p) is None,
    }
}

impl Lead {
    spec fn describes(self, p: PathView) -> bool {
        &&& same_prefix_view(self.prefix, p)
        &&& self.prefix_len == prefix_len(p)
        &&& self.at_root == starts_at_root(p)
        &&& self.dot == starts_with_dot(p)
        &&& self.len == lead_len(p)
        &&& self.by == separators(p)
    }

    /// The prefix is one that has the rest taken as it stands.
    fn verbatim(&self) -> (r: bool)
        ensures
            r == (self.prefix is Some && self.prefix->0.kind.is_verbatim()),
    {
        match &self.prefix {
            Some(x) => match x.kind {
                PrefixKind::Verbatim | PrefixKind::VerbatimUnc | PrefixKind::VerbatimDisk => true,
                _ => false,
            },
            None => false,
        }
    }

    fn drive(&self) -> (r: bool)
        ensures
            r == (self.prefix is Some && self.prefix->0.kind is Disk),
    {
        match &self.prefix {
            Some(x) => x.kind == PrefixKind::Disk,
            None => false,
        }
    }
}

impl FilePath {
    pub fn new(bytes: Vec<u8>, platform: Platform) -> (r: FilePath)
        ensures
            r@ == (PathView { bytes: bytes@, platform }),
    {
        FilePath { bytes, platform }
    }

    /// A path from text.
    pub fn from_text(text: &str, platform: Platform) -> (r: FilePath)
        ensures
            r@ == (PathView { bytes: vstd::utf8::encode_utf8(text@), platform }),
    {
        FilePath { bytes: vstd::slice::slice_to_vec(text.as_bytes()), platform }
    }

    /// The path as text.
    pub fn text(&self) -> (r: String)
        ensures
            r@ == path_text(self@),
    {
        show(&self.bytes, self.platform)
    }

    fn lead(&self) -> (r: Lead)
        ensures
            r.describes(self@),
    {
        proof {
            lemma_lead(self@);
        }
        let prefix = if self.platform.windows() {
            find_prefix(&self.bytes)
        } else {
            None
        };
        let n: usize = match &prefix {
            Some(x) => x.len,
            None => 0,
        };
        let len = self.bytes.len();
        let mut lead = Lead {
            prefix,
            prefix_len: n,
            at_root: n < len && self.platform.separates(self.bytes[n]),
            dot: false,
            len: n,
            by: Separators::Slash,
        };
        if lead.verbatim() {
            lead.by = Separators::Backslash;
        } else if self.platform.windows() {
            lead.by = Separators::Either;
        }
        let rooted = lead.at_root || (lead.prefix.is_some() && !lead.drive());
        lead.dot = !rooted && n < len && self.bytes[n] == 0x2e && (n + 1 == len || lead.by.parts(
            self.bytes[n + 1],
        ));
        if lead.at_root || lead.dot {
            lead.len = n + 1;
        }
        lead
    }

    fn leading_components(&self, lead: &Lead) -> (r: Vec<Part>)
        requires
            lead.describes(self@),
        ensures
            spans(r@) == leading_parts(self@),
    {
        proof {
            lemma_lead(self@);
        }
        let n = lead.prefix_len;
        let mut out: Vec<Part> = Vec::new();
        if lead.prefix.is_some() {
            out.push(Part { kind: PartKind::Prefix, start: 0, end: n });
        }
        if lead.at_root {
            out.push(Part { kind: PartKind::Root, start: n, end: n + 1 });
        } else if lead.prefix.is_some() {
            if !lead.drive() && !lead.verbatim() {
                out.push(Part { kind: PartKind::Root, start: n, end: n });
            }
        } else if lead.dot {
            out.push(Part { kind: PartKind::Current, start: n, end: n + 1 });
        }
        assert(spans(out@) =~= leading_parts(self@));
        out
    }

    /// The components behind the prefix and the root.
    fn names(&self, lead: &Lead) -> (r: Vec<Part>)
        requires
            lead.describes(self@),
        ensures
            spans(r@) == body(self@),
    {
        proof {
            lemma_lead(self@);
        }
        let by = lead.by;
        let b = &self.bytes;
        let mut out: Vec<Part> = Vec::new();
        let mut i: usize = lead.len;
        assert(spans(out@) + body_from(b@, i as int, by) =~= body(self@));
        while i < b.len()
            invariant
                b == self.bytes,
                i <= b@.len(),
                spans(out@) + body_from(b@, i as int, by) == body(self@),
            decreases b@.len() - i,
        {
            proof {
                lemma_segment_end(b@, i as int, by);
            }
            if by.parts(b[i]) {
                i += 1;
            } else {
                let end = end_of_segment(b, i, by);
                let kind = kind_of(b, i, end);
                let ghost before = spans(out@);
                if kind == PartKind::Current && by != Separators::Backslash {
                } else {
                    let part = Part { kind, start: i, end };
                    out.push(part);
                    assert(spans(out@) =~= before.push(part@));
                    assert(before + (seq![part@] + body_from(b@, end as int, by)) =~= spans(out@)
                        + body_from(b@, end as int, by));
                }
                i = end;
            }
        }
        assert(spans(out@) =~= body(self@));
        out
    }

    /// The components of the path.
    pub fn components(&self) -> (r: Vec<Part>)
        ensures
            spans(r@) == parts(self@),
    {
        let lead = self.lead();
        let mut out = self.leading_components(&lead);
        let ghost first = spans(out@);
        let mut rest = self.names(&lead);
        let ghost names = spans(rest@);
        out.append(&mut rest);
        assert(spans(out@) =~= first + names);
        out
    }

    pub fn file_name(&self) -> (r: Option<Vec<u8>>)
        ensures
            match r {
                Some(name) => file_name(self@) == Some(name@),
                None => file_name(self@) is None,
            },
    {
        let all = self.components();
        proof {
            lemma_parts(self@);
        }
        let n = all.len();
        assert(spans(all@).len() == n);
        if n == 0 {
            return None;
        }
        assert(spans(all@)[n - 1] == all@[n - 1]@);
        let last = all[n - 1];
        if last.kind == PartKind::Normal {
            Some(copy_range(&self.bytes, last.start, last.end))
        } else {
            None
        }
    }

    pub fn parent(&self) -> (r: Option<FilePath>)
        ensures
            match r {
                Some(p) => parent(self@) == Some(p@),
                None => parent(self@) is None,
            },
    {
        let lead = self.lead();
        let names = self.names(&lead);
        proof {
            lemma_lead(self@);
            lemma_body_from(self@.bytes, lead_len(self@), separators(self@));
        }
        let n = names.len();
        assert(spans(names@).len() == n);
        let end = if n >= 2 {
            assert(spans(names@)[n - 2] == names@[n - 2]@);
            names[n - 2].end
        } else if n == 1 {
            lead.len
        } else if lead.prefix.is_none() && lead.dot {
            0
        } else {
            return None;
        };
        Some(FilePath { bytes: copy_range(&self.bytes, 0, end), platform: self.platform })
    }

    fn pieces(&self) -> (r: Vec<Piece>)
        ensures
            piece_views(r@) == pieces(self@),
    {
        let all = self.components();
        let ghost sv = parts(self@);
        proof {
            lemma_parts(self@);
        }
        let mut r: Vec<Piece> = Vec::new();
        let mut i: usize = 0;
        while i < all.len()
            invariant
                i <= all@.len(),
                sv == spans(all@),
                sv == parts(self@),
                forall|k: int|
                    0 <= k < sv.len() ==> 0 <= (#[trigger] sv[k]).start <= sv[k].end
                        <= self@.bytes.len(),
                r@.len() == i,
                forall|k: int| 0 <= k < i ==> (#[trigger] r@[k])@ == piece(self@, sv[k]),
            decreases all@.len() - i,
        {
            let part = all[i];
            assert(sv[i as int] == part@);
            let bytes = if part.kind == PartKind::Root {
                let mut v: Vec<u8> = Vec::new();
                v.push(0x5c);
                assert(v@ =~= seq![0x5cu8]);
                v
            } else {
                copy_range(&self.bytes, part.start, part.end)
            };
            r.push(Piece { kind: part.kind, bytes });
            i += 1;
        }
        assert(piece_views(r@) =~= pieces(self@));
        r
    }

    /// The path after the steps of another one.
    fn walk(&self, steps: &FilePath) -> (r: Vec<u8>)
        ensures
            r@ == written(walked(pieces(self@), pieces(steps@))),
    {
        let mut at = self.pieces();
        let ghost start = piece_views(at@);
        let mut rest = steps.pieces();
        let ghost all = piece_views(rest@);
        let mut i: usize = 0;
        let n = rest.len();
        assert(all.take(0) =~= Seq::<PieceView>::empty());
        assert(piece_views(rest@) =~= all.skip(0));
        while i < n
            invariant
                i <= n,
                n == all.len(),
                piece_views(rest@) == all.skip(i as int),
                piece_views(at@) == walked(start, all.take(i as int)),
            decreases n - i,
        {
            assert(piece_views(rest@).len() == rest@.len());
            let ghost before = rest@;
            let step = rest.remove(0);
            assert(step@ == piece_views(before)[0]);
            assert(step@ == all[i as int]);
            take_step(&mut at, step);
            assert(all.take(i + 1).drop_last() =~= all.take(i as int));
            assert(piece_views(rest@) =~= all.skip(i + 1)) by {
                assert forall|k: int| 0 <= k < rest@.len() implies #[trigger] rest@[k]@ == all[i + 1
                    + k] by {
                    assert(rest@[k] == before[k + 1]);
                    assert(before[k + 1]@ == piece_views(before)[k + 1]);
                }
            }
            i += 1;
        }
        assert(all.take(i as int) =~= all);
        write_pieces(&at)
    }

    pub fn join(&self, tail: &[u8]) -> (r: FilePath)
        ensures
            r@ == join(self@, tail@),
    {
        let t = FilePath { bytes: vstd::slice::slice_to_vec(tail), platform: self.platform };
        let lead = self.lead();
        let tail_lead = t.lead();
        let n = lead.prefix_len;
        let len = self.bytes.len();
        proof {
            reveal(join);
            lemma_lead(self@);
        }
        if tail_lead.prefix.is_none() && lead.verbatim() && tail.len() > 0 {
            return FilePath { bytes: self.walk(&t), platform: self.platform };
        }
        let mut bytes: Vec<u8> = if tail_lead.prefix.is_some() {
            Vec::new()
        } else if tail_lead.at_root {
            copy_range(&self.bytes, 0, n)
        } else {
            let mut base = copy_range(&self.bytes, 0, len);
            assert(base@ =~= self.bytes@);
            if !(len == 0 || self.platform.separates(self.bytes[len - 1]) || (lead.drive() && len
                == n)) {
                base.push(
                    if self.platform.windows() {
                        0x5c
                    } else {
                        0x2f
                    },
                );
            }
            base
        };
        push_bytes(&mut bytes, tail);
        let r = FilePath { bytes, platform: self.platform };
        assert(r@.bytes =~= join(self@, tail@).bytes);
        r
    }

    /// The key by which the path sorts.
    pub fn sort_key(&self) -> (r: Key)
        ensures
            r@ == sort_key(self@),
    {
        let lead = self.lead();
        let all = self.components();
        let ghost sv = spans(all@);
        proof {
            lemma_parts(self@);
        }
        let mut key: Key = Vec::new();
        let mut i: usize = 0;
        assert(sv.take(0) =~= Seq::<Span>::empty());
        while i < all.len()
            invariant
                i <= all@.len(),
                lead.describes(self@),
                sv == spans(all@),
                sv == parts(self@),
                forall|k: int|
                    0 <= k < sv.len() ==> 0 <= (#[trigger] sv[k]).start <= sv[k].end
                        <= self@.bytes.len() && (sv[k].kind is Prefix ==> prefix(self@) is Some),
                key@ == spans_key(self@, sv.take(i as int)),
            decreases all@.len() - i,
        {
            let part = all[i];
            assert(sv[i as int] == part@);
            let ghost before = key@;
            key.push(
                match part.kind {
                    PartKind::Prefix => 0,
                    PartKind::Root => 1,
                    PartKind::Current => 2,
                    PartKind::Parent => 3,
                    PartKind::Normal => 4,
                },
            );
            if part.kind == PartKind::Normal {
                let name = copy_range(&self.bytes, part.start, part.end);
                push_bytes_key(&mut key, &name);
            } else if part.kind == PartKind::Prefix {
                match &lead.prefix {
                    Some(x) => push_prefix_key(&mut key, &self.bytes, x),
                    None => {},
                }
            }
            key.push(0);
            assert(key@ =~= before + span_key(self@, part@));
            i += 1;
            assert(sv.take(i as int).drop_last() =~= sv.take(i - 1));
        }
        assert(sv.take(i as int) =~= sv);
        key
    }

    /// The prefixes of two paths are the same.
    fn shares_prefix(&self, other: &FilePath) -> (r: bool)
        ensures
            r == same_prefix(self@, other@),
    {
        match (self.lead().prefix, other.lead().prefix) {
            (Some(x), Some(y)) => {
                let mine = prefix_names(&self.bytes, &x);
                let theirs = prefix_names(&other.bytes, &y);
                x.kind == y.kind && same_bytes(mine.0.as_slice(), theirs.0.as_slice())
                    && same_bytes(mine.1.as_slice(), theirs.1.as_slice())
            },
            _ => false,
        }
    }

    /// The components of `base` are the first components of the path.
    fn is_below(&self, base: &FilePath) -> (r: bool)
        ensures
            r == lies_below(self@, base@),
    {
        let mine = self.components();
        let theirs = base.components();
        let n = theirs.len();
        let ghost pv = parts(self@);
        let ghost bv = parts(base@);
        proof {
            lemma_parts(self@);
            lemma_parts(base@);
            assert(spans(mine@).len() == mine@.len());
            assert(spans(theirs@).len() == n);
        }
        if mine.len() < n {
            return false;
        }
        let mut i: usize = 0;
        while i < n
            invariant
                spans(mine@) == pv,
                spans(theirs@) == bv,
                pv == parts(self@),
                bv == parts(base@),
                n == theirs@.len(),
                n == bv.len(),
                n <= mine@.len(),
                mine@.len() == pv.len(),
                forall|k: int|
                    0 <= k < pv.len() ==> 0 <= (#[trigger] pv[k]).start <= pv[k].end
                        <= self@.bytes.len(),
                forall|k: int|
                    0 <= k < bv.len() ==> 0 <= (#[trigger] bv[k]).start <= bv[k].end
                        <= base@.bytes.len(),
                i <= n,
                forall|k: int|
                    0 <= k < i ==> same_part(self@, #[trigger] pv[k], base@, bv[k]),
            decreases n - i,
        {
            let a = mine[i];
            let b = theirs[i];
            assert(pv[i as int] == a@ && bv[i as int] == b@);
            let mut same = a.kind == b.kind;
            if same && a.kind == PartKind::Normal {
                let x = copy_range(&self.bytes, a.start, a.end);
                let y = copy_range(&base.bytes, b.start, b.end);
                same = same_bytes(x.as_slice(), y.as_slice());
            } else if same && a.kind == PartKind::Prefix {
                same = self.shares_prefix(base);
            }
            assert(same == same_part(self@, pv[i as int], base@, bv[i as int]));
            if !same {
                return false;
            }
            i += 1;
        }
        true
    }

    /// The path as seen from `base`.
    pub fn relative_to(&self, base: &FilePath) -> (r: FilePath)
        ensures
            r@ == relative(self@, base@),
    {
        if !self.is_below(base) {
            return self.clone();
        }
        let lead = self.lead();
        let names = self.names(&lead);
        let mine = self.components();
        let n = base.components().len();
        let ghost pv = parts(self@);
        proof {
            lemma_parts(self@);
            assert(spans(mine@).len() == mine@.len());
            assert(spans(names@).len() == names@.len());
        }
        let behind_prefix = n == 1 && lead.prefix.is_some();
        if mine.len() == n && !behind_prefix {
            return FilePath { bytes: Vec::new(), platform: self.platform };
        }
        let start = if n == 0 {
            0
        } else if behind_prefix {
            lead.prefix_len
        } else {
            assert(pv[n as int] == mine@[n as int]@);
            mine[n].start
        };
        let end = if names.len() > 0 {
            assert(body(self@).last() == names@[names@.len() - 1]@);
            names[names.len() - 1].end
        } else {
            lead.len
        };
        FilePath { bytes: copy_range(&self.bytes, start, end), platform: self.platform }
    }

    pub fn with_file_name(&self, name: &[u8]) -> (r: FilePath)
        ensures
            r@ == with_file_name(self@, name@),
    {
        match (self.file_name(), self.parent()) {
            (Some(_), Some(p)) => p.join(name),
            _ => {
                proof {
                    lemma_named_path_has_parent(self@);
                }
                self.join(name)
            },
        }
    }
}

} // verus!
