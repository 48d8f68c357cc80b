//! Manifests: files that list hashes and the files they belong to, one line
//! `HASH *RELATIVE\PATH` each.

use vstd::prelude::*;
use vstd::string::*;
use vstd::utf8::*;
use crate::error::Failure;
use crate::index::{first_position, first_positions, lemma_first_position, text_views};
use crate::laws::listings::{called_as_manifest, law_manifests_are_found};
use crate::path::{
    file_name,
    join,
    parent,
    path_text,
    path_views,
    show,
    shown,
    sort_paths,
    sorted_paths,
    FilePath,
    PathView,
    Platform,
};
use crate::text::{
    ascii_upper,
    chars_of,
    contains_bytes,
    copy_chars,
    ends_with,
    has_infix,
    has_suffix,
    hex_char,
    is_hex_char,
    lowercase,
    replace_char,
    replaced,
    string_from_chars,
    to_lowercase,
    to_uppercase,
    utf8_text,
};

verus! {

broadcast use vstd::seq_lib::group_seq_properties;

// ---------------------------------------------------------------------------
// Keys
// ---------------------------------------------------------------------------

/// A text as a key: in lower case where the platform's file names ignore case.
pub open spec fn folded(s: Seq<char>, platform: Platform) -> Seq<char> {
    if platform.ignores_case() {
        lowercase(s)
    } else {
        s
    }
}

/// What two paths to the same file have in common.
pub open spec fn path_key_text(p: PathView) -> Seq<char> {
    folded(path_text(p), p.platform)
}

/// What two files of the same name have in common, whatever their directories.
pub open spec fn name_key_text(p: PathView) -> Seq<char> {
    let name = match file_name(p) {
        Some(n) => shown(n, p.platform),
        None => Seq::empty(),
    };
    folded(name, p.platform)
}

pub fn path_key(p: &FilePath) -> (r: String)
    ensures
        r@ == path_key_text(p@),
{
    let s = p.text();
    if p.platform.case_insensitive() {
        to_lowercase(s.as_str())
    } else {
        s
    }
}

pub fn name_key(p: &FilePath) -> (r: String)
    ensures
        r@ == name_key_text(p@),
{
    let s = match p.file_name() {
        Some(n) => show(&n, p.platform),
        None => String::new(),
    };
    if p.platform.case_insensitive() {
        to_lowercase(s.as_str())
    } else {
        s
    }
}

// ---------------------------------------------------------------------------
// Entries
// ---------------------------------------------------------------------------

/// A file and its hash.
#[derive(Debug)]
pub struct HashEntry {
    pub hash: String,
    pub abs_path: FilePath,
    pub manifest_path: FilePath,
    /// The hash was computed from the file just now rather than read from a
    /// manifest, and is not verified again.
    pub computed: bool,
}

#[verifier::ext_equal]
pub struct EntryView {
    pub hash: Seq<char>,
    pub path: PathView,
    pub manifest: PathView,
    pub computed: bool,
}

impl View for HashEntry {
    type V = EntryView;

    open spec fn view(&self) -> EntryView {
        EntryView {
            hash: self.hash@,
            path: self.abs_path@,
            manifest: self.manifest_path@,
            computed: self.computed,
        }
    }
}

pub open spec fn entry_views(v: Seq<HashEntry>) -> Seq<EntryView> {
    Seq::new(v.len(), |i: int| v[i]@)
}

pub open spec fn entry_keys(v: Seq<EntryView>) -> Seq<Seq<char>> {
    Seq::new(v.len(), |i: int| path_key_text(v[i].path))
}

impl HashEntry {
    /// An entry for a file that no manifest covers, with its hash as computed.
    pub fn from_computed(path: &FilePath, hash: String) -> (r: HashEntry)
        ensures
            r@ == computed_entry(path@, hash@),
    {
        HashEntry {
            hash,
            abs_path: path.clone(),
            manifest_path: FilePath::from_text("<computed>", path.platform),
            computed: true,
        }
    }
}

impl Clone for HashEntry {
    fn clone(&self) -> (r: HashEntry)
        ensures
            r@ == self@,
    {
        HashEntry {
            hash: self.hash.clone(),
            abs_path: self.abs_path.clone(),
            manifest_path: self.manifest_path.clone(),
            computed: self.computed,
        }
    }
}

pub open spec fn computed_entry(path: PathView, hash: Seq<char>) -> EntryView {
    EntryView {
        hash,
        path,
        manifest: PathView { bytes: encode_utf8("<computed>"@), platform: path.platform },
        computed: true,
    }
}

pub fn keys_of_entries(v: &Vec<HashEntry>) -> (r: Vec<String>)
    ensures
        text_views(r@) == entry_keys(entry_views(v@)),
        r@.len() == v@.len(),
{
    let mut r: Vec<String> = Vec::new();
    let mut i: usize = 0;
    while i < v.len()
        invariant
            i <= v@.len(),
            r@.len() == i,
            forall|k: int| 0 <= k < i ==> (#[trigger] r@[k])@ == path_key_text(v@[k]@.path),
        decreases v@.len() - i,
    {
        r.push(path_key(&v[i].abs_path));
        i += 1;
    }
    assert(text_views(r@) =~= entry_keys(entry_views(v@)));
    r
}

// ---------------------------------------------------------------------------
// Reading manifests
// ---------------------------------------------------------------------------

/// A line of a manifest, read: a hash and the path it is for.
#[verifier::ext_equal]
pub struct LineView {
    pub hash: Seq<char>,
    pub path: Seq<char>,
}

/// A line without the carriage returns at its end.
pub open spec fn trim_returns(line: Seq<char>) -> Seq<char>
    decreases line.len(),
{
    if line.len() > 0 && line.last() == '\r' {
        trim_returns(line.drop_last())
    } else {
        line
    }
}

/// Sixteen hexadecimal digits, a space, a star or another space, and a path of
/// at least one character.
pub open spec fn is_entry_line(line: Seq<char>) -> bool {
    &&& line.len() >= 19
    &&& forall|i: int| 0 <= i < 16 ==> is_hex_char(#[trigger] line[i])
    &&& line[16] == ' '
    &&& line[17] == '*' || line[17] == ' '
}

/// What a line says; nothing for blank lines, comments and whatever else does
/// not have the form of an entry.
pub open spec fn read_line(line: Seq<char>) -> Option<LineView> {
    let l = trim_returns(line);
    if is_entry_line(l) {
        Some(LineView { hash: ascii_upper(l.take(16)), path: l.skip(18) })
    } else {
        None
    }
}

/// The length of the first line.
pub open spec fn line_len(s: Seq<char>) -> int
    decreases s.len(),
{
    if s.len() == 0 || s[0] == '\n' {
        0
    } else {
        1 + line_len(s.drop_first())
    }
}

/// The entries of a manifest, line by line.
pub open spec fn read_lines(s: Seq<char>) -> Seq<LineView>
    decreases s.len(),
{
    let n = line_len(s);
    let rest = if 0 <= n < s.len() {
        read_lines(s.skip(n + 1))
    } else {
        Seq::empty()
    };
    match read_line(s.take(n)) {
        Some(line) => seq![line] + rest,
        None => rest,
    }
}

/// A text without the byte order mark at its start.
pub open spec fn without_mark(s: Seq<char>) -> Seq<char> {
    if s.len() > 0 && s[0] == '\u{feff}' {
        s.drop_first()
    } else {
        s
    }
}

/// A path from a manifest, where backslashes separate, as the platform has it.
pub open spec fn native_path(s: Seq<char>, platform: Platform) -> Seq<char> {
    if platform is Windows {
        s
    } else {
        replaced(s, '\\', '/')
    }
}

/// An entry as it stands in a manifest, its path taken from the directory of
/// the manifest.
#[derive(Debug)]
pub struct LocatedLine {
    pub hash: String,
    pub path: FilePath,
}

#[verifier::ext_equal]
pub struct LocatedView {
    pub hash: Seq<char>,
    pub path: PathView,
}

impl View for LocatedLine {
    type V = LocatedView;

    open spec fn view(&self) -> LocatedView {
        LocatedView { hash: self.hash@, path: self.path@ }
    }
}

pub open spec fn located_views(v: Seq<LocatedLine>) -> Seq<LocatedView> {
    Seq::new(v.len(), |i: int| v[i]@)
}

pub open spec fn locate(line: LineView, base: PathView) -> LocatedView {
    LocatedView {
        hash: line.hash,
        path: join(base, encode_utf8(native_path(line.path, base.platform))),
    }
}

pub open spec fn locate_all(lines: Seq<LineView>, base: PathView) -> Seq<LocatedView> {
    Seq::new(lines.len(), |i: int| locate(lines[i], base))
}

impl LocatedLine {
    /// The entry of the line. `absolute` is the path made absolute; where that
    /// was not possible the path stays as it is.
    pub fn into_entry(self, absolute: Option<FilePath>, manifest: &FilePath) -> (r: HashEntry)
        ensures
            r@ == (EntryView {
                hash: self@.hash,
                path: match absolute {
                    Some(p) => p@,
                    None => self@.path,
                },
                manifest: manifest@,
                computed: false,
            }),
    {
        HashEntry {
            hash: self.hash,
            abs_path: match absolute {
                Some(p) => p,
                None => self.path,
            },
            manifest_path: manifest.clone(),
            computed: false,
        }
    }
}

/// The first line ends at the first line feed.
pub proof fn lemma_line_len(s: Seq<char>)
    ensures
        0 <= line_len(s) <= s.len(),
        forall|k: int| 0 <= k < line_len(s) ==> #[trigger] s[k] != '\n',
        line_len(s) < s.len() ==> s[line_len(s)] == '\n',
    decreases s.len(),
{
    if s.len() > 0 && s[0] != '\n' {
        let rest = s.drop_first();
        lemma_line_len(rest);
        assert forall|k: int| 0 <= k < line_len(s) implies #[trigger] s[k] != '\n' by {
            if k > 0 {
                assert(s[k] == rest[k - 1]);
            }
        }
    }
}

pub proof fn lemma_line_len_is(s: Seq<char>, n: int)
    requires
        0 <= n <= s.len(),
        forall|k: int| 0 <= k < n ==> #[trigger] s[k] != '\n',
        n < s.len() ==> s[n] == '\n',
    ensures
        line_len(s) == n,
{
    lemma_line_len(s);
    let m = line_len(s);
    if m < n {
        assert(s[m] != '\n');
    } else if n < m {
        assert(s[n] != '\n');
    }
}

/// Reads one line of a manifest.
fn parse_line(line: &Vec<char>) -> (r: Option<(String, String)>)
    ensures
        match r {
            Some((hash, path)) => read_line(line@) == Some(
                LineView { hash: hash@, path: path@ },
            ),
            None => read_line(line@) is None,
        },
{
    let mut n: usize = line.len();
    assert(line@.take(n as int) =~= line@);
    while n > 0 && line[n - 1] == '\r'
        invariant
            n <= line@.len(),
            trim_returns(line@) == trim_returns(line@.take(n as int)),
        decreases n,
    {
        assert(line@.take(n as int).drop_last() =~= line@.take(n - 1));
        n -= 1;
    }
    let ghost l = line@.take(n as int);
    assert(trim_returns(line@) == l);
    if n < 19 {
        return None;
    }
    let mut i: usize = 0;
    while i < 16
        invariant
            19 <= n <= line@.len(),
            l == line@.take(n as int),
            trim_returns(line@) == l,
            i <= 16,
            forall|k: int| 0 <= k < i ==> is_hex_char(#[trigger] l[k]),
        decreases 16 - i,
    {
        if !hex_char(line[i]) {
            assert(!is_hex_char(l[i as int]));
            return None;
        }
        i += 1;
    }
    if line[16] != ' ' || (line[17] != '*' && line[17] != ' ') {
        return None;
    }
    let digits = string_from_chars(&copy_chars(line, 0, 16));
    assert(digits@ =~= l.take(16));
    assert(is_ascii_chars(digits@)) by {
        assert forall|k: int| 0 <= k < 16 implies is_hex_char(#[trigger] digits@[k]) by {
            assert(digits@[k] == l[k]);
        }
    }
    let hash = to_uppercase(digits.as_str());
    let path = string_from_chars(&copy_chars(line, 18, n));
    assert(path@ =~= l.skip(18));
    Some((hash, path))
}

// ---------------------------------------------------------------------------
// Finding manifests
// ---------------------------------------------------------------------------

/// A manifest by its name, of the kind that `pattern` ends in. A name that says
/// the files were renamed is passed over.
pub open spec fn is_manifest_name(p: PathView, pattern: Seq<char>) -> bool {
    file_name(p) matches Some(name) && {
        let wanted = encode_utf8(pattern);
        let long = encode_utf8(".xxh3"@);
        let short = encode_utf8(".xxh"@);
        &&& valid_utf8(name)
        &&& !has_infix(name, encode_utf8("_renamed"@))
        &&& (has_suffix(wanted, long) && has_suffix(name, long)) || (has_suffix(wanted, short)
            && has_suffix(name, short) && !has_suffix(name, long))
    }
}

pub open spec fn manifests_among(walked: Seq<PathView>, pattern: Seq<char>) -> Seq<PathView> {
    walked.filter(|p: PathView| is_manifest_name(p, pattern))
}

fn names_manifest(p: &FilePath, pattern: &str) -> (r: bool)
    ensures
        r == is_manifest_name(p@, pattern@),
{
    match p.file_name() {
        Some(name) => {
            if utf8_text(name.as_slice()).is_none() {
                return false;
            }
            let n = name.as_slice();
            if contains_bytes(n, "_renamed".as_bytes()) {
                return false;
            }
            let wanted = pattern.as_bytes();
            (ends_with(wanted, ".xxh3".as_bytes()) && ends_with(n, ".xxh3".as_bytes())) || (
            ends_with(wanted, ".xxh".as_bytes()) && ends_with(n, ".xxh".as_bytes()) && !ends_with(
                n,
                ".xxh3".as_bytes(),
            ))
        },
        None => false,
    }
}

/// Reads one line of a manifest that stands in the directory `base`.
fn locate_line(line: &Vec<char>, base: &FilePath) -> (r: Option<LocatedLine>)
    ensures
        match r {
            Some(found) => read_line(line@) is Some && found@ == locate(
                read_line(line@)->0,
                base@,
            ),
            None => read_line(line@) is None,
        },
{
    match parse_line(line) {
        Some((hash, rel)) => {
            let native = match base.platform {
                Platform::Windows => rel,
                _ => replace_char(rel.as_str(), '\\', '/'),
            };
            Some(LocatedLine { hash, path: base.join(native.as_str().as_bytes()) })
        },
        None => None,
    }
}

/// One more line is one more entry.
proof fn lemma_locate_step(
    before: Seq<LocatedView>,
    line: LineView,
    tail: Seq<LineView>,
    base: PathView,
)
    ensures
        before + locate_all(seq![line] + tail, base) == before.push(locate(line, base))
            + locate_all(tail, base),
{
    assert(before + locate_all(seq![line] + tail, base) =~= before.push(locate(line, base))
        + locate_all(tail, base));
}

// ---------------------------------------------------------------------------
// Several manifests
// ---------------------------------------------------------------------------

/// The entry at `i` says something new: it is the first for its path, or its
/// hash differs from that of the first.
pub open spec fn is_news(all: Seq<EntryView>, i: int) -> bool {
    let first = first_position(entry_keys(all), i);
    first == i || all[first].hash != all[i].hash
}

/// The entries among the first `n` that say something new.
pub open spec fn news(all: Seq<EntryView>, n: int) -> Seq<EntryView>
    decreases n,
{
    if n <= 0 {
        Seq::empty()
    } else if is_news(all, n - 1) {
        news(all, n - 1).push(all[n - 1])
    } else {
        news(all, n - 1)
    }
}

/// All entries of all manifests, in order.
pub open spec fn all_entries(manifests: Seq<Vec<HashEntry>>) -> Seq<EntryView>
    decreases manifests.len(),
{
    if manifests.len() == 0 {
        Seq::empty()
    } else {
        all_entries(manifests.drop_last()) + entry_views(manifests.last()@)
    }
}

pub struct HashFile;

impl HashFile {
    /// The manifests among the paths that a walk of a directory met, sorted.
    pub fn find_in_dir(walked: &Vec<FilePath>, pattern: &str) -> (r: Vec<FilePath>)
        ensures
            path_views(r@) == sorted_paths(manifests_among(path_views(walked@), pattern@)),
            forall|p: PathView| #[trigger]
                path_views(r@).contains(p) <==> path_views(walked@).contains(p)
                    && called_as_manifest(p, pattern@),
    {
        let mut found: Vec<FilePath> = Vec::new();
        let ghost views = path_views(walked@);
        let ghost pred = |p: PathView| is_manifest_name(p, pattern@);
        let mut i: usize = 0;
        assert(views.take(0) =~= Seq::<PathView>::empty());
        assert(path_views(found@) =~= manifests_among(views.take(0), pattern@)) by {
            reveal(Seq::filter);
        }
        while i < walked.len()
            invariant
                i <= walked@.len(),
                views == path_views(walked@),
                path_views(found@) == manifests_among(views.take(i as int), pattern@),
            decreases walked@.len() - i,
        {
            let ghost before = found@;
            if names_manifest(&walked[i], pattern) {
                found.push(walked[i].clone());
                assert(path_views(found@) =~= path_views(before).push(views[i as int]));
            }
            proof {
                reveal(Seq::filter);
                assert(views.take(i + 1).drop_last() =~= views.take(i as int));
                assert(views.take(i + 1).last() == views[i as int]);
            }
            i += 1;
        }
        assert(views.take(i as int) =~= views);
        proof {
            assert forall|p: PathView| #[trigger]
                sorted_paths(path_views(found@)).contains(p) <==> views.contains(p)
                    && called_as_manifest(p, pattern@) by {
                law_manifests_are_found(views, pattern@, p);
            }
        }
        sort_paths(&found)
    }

    /// Reads the text of a manifest. Each path is taken from the directory of
    /// the manifest; lines that are no entries are passed over.
    pub fn parse(content: &str, manifest_path: &FilePath) -> (r: Result<Vec<LocatedLine>, Failure>)
        ensures
            r is Ok <==> parent(manifest_path@) is Some,
            r matches Ok(lines) ==> located_views(lines@) == locate_all(
                read_lines(without_mark(content@)),
                parent(manifest_path@)->0,
            ),
            r matches Err(e) ==> e is NoParentDir,
    {
        let base = match manifest_path.parent() {
            Some(p) => p,
            None => {
                return Err(Failure::NoParentDir);
            },
        };
        let chars = chars_of(content);
        let ghost text = without_mark(content@);
        let mut at: usize = 0;
        if chars.len() > 0 && chars[0] == '\u{feff}' {
            at = 1;
        }
        assert(chars@.skip(at as int) =~= text);
        let mut out: Vec<LocatedLine> = Vec::new();
        let mut more = true;
        assert(located_views(out@) + locate_all(read_lines(chars@.skip(at as int)), base@)
            =~= locate_all(read_lines(text), base@));
        while more
            invariant
                at <= chars@.len(),
                more ==> located_views(out@) + locate_all(
                    read_lines(chars@.skip(at as int)),
                    base@,
                ) == locate_all(read_lines(text), base@),
                !more ==> located_views(out@) == locate_all(read_lines(text), base@),
            decreases
                chars@.len() - at,
                if more {
                    1int
                } else {
                    0int
                },
        {
            let ghost rest = chars@.skip(at as int);
            let mut end: usize = at;
            while end < chars.len() && chars[end] != '\n'
                invariant
                    at <= end <= chars@.len(),
                    forall|k: int| at <= k < end ==> #[trigger] chars@[k] != '\n',
                decreases chars@.len() - end,
            {
                end += 1;
            }
            proof {
                assert forall|k: int| 0 <= k < end - at implies #[trigger] rest[k] != '\n' by {
                    assert(rest[k] == chars@[at + k]);
                }
                lemma_line_len_is(rest, end - at);
            }
            let line = copy_chars(&chars, at, end);
            assert(line@ =~= rest.take(line_len(rest)));
            let ghost before = located_views(out@);
            let ghost tail = if end < chars@.len() {
                read_lines(chars@.skip(end + 1))
            } else {
                Seq::empty()
            };
            assert(end < chars@.len() ==> rest.skip(line_len(rest) + 1) =~= chars@.skip(end + 1));
            match locate_line(&line, &base) {
                Some(found) => {
                    proof {
                        let read = read_line(line@)->0;
                        assert(read_lines(rest) == seq![read] + tail);
                        lemma_locate_step(before, read, tail, base@);
                    }
                    out.push(found);
                    assert(located_views(out@) =~= before.push(found@));
                },
                None => {
                    assert(read_lines(rest) == tail);
                },
            }
            if end < chars.len() {
                at = end + 1;
            } else {
                assert(located_views(out@) + locate_all(tail, base@) =~= located_views(out@));
                more = false;
            }
        }
        Ok(out)
    }

    /// Puts the entries of several manifests together. What a later one only
    /// repeats is dropped; a different hash for a known path is kept, so that
    /// the contradiction stays visible.
    pub fn load_all(manifests: &Vec<Vec<HashEntry>>) -> (r: Vec<HashEntry>)
        ensures
            entry_views(r@) == news(
                all_entries(manifests@),
                all_entries(manifests@).len() as int,
            ),
    {
        let mut all: Vec<HashEntry> = Vec::new();
        let mut m: usize = 0;
        assert(manifests@.take(0) =~= Seq::<Vec<HashEntry>>::empty());
        assert(entry_views(all@) =~= Seq::<EntryView>::empty());
        while m < manifests.len()
            invariant
                m <= manifests@.len(),
                entry_views(all@) == all_entries(manifests@.take(m as int)),
            decreases manifests@.len() - m,
        {
            let list = &manifests[m];
            let ghost before = entry_views(all@);
            let mut k: usize = 0;
            while k < list.len()
                invariant
                    k <= list@.len(),
                    entry_views(all@) == before + entry_views(list@).take(k as int),
                decreases list@.len() - k,
            {
                let ghost sofar = entry_views(all@);
                all.push(list[k].clone());
                k += 1;
                assert(entry_views(all@) =~= sofar.push(list@[k - 1]@));
                assert(entry_views(list@).take(k as int) =~= entry_views(list@).take(k - 1).push(
                    list@[k - 1]@,
                ));
            }
            assert(entry_views(list@).take(k as int) =~= entry_views(list@));
            m += 1;
            assert(manifests@.take(m as int).drop_last() =~= manifests@.take(m - 1));
        }
        assert(manifests@.take(m as int) =~= manifests@);
        let ghost views = entry_views(all@);
        let keys = keys_of_entries(&all);
        let first = first_positions(&keys);
        let mut r: Vec<HashEntry> = Vec::new();
        let mut i: usize = 0;
        assert(entry_views(r@) =~= Seq::<EntryView>::empty());
        while i < all.len()
            invariant
                i <= all@.len(),
                views == entry_views(all@),
                keys@.len() == all@.len(),
                text_views(keys@) == entry_keys(views),
                first@.len() == keys@.len(),
                forall|k: int|
                    0 <= k < keys@.len() ==> #[trigger] first@[k] == first_position(
                        text_views(keys@),
                        k,
                    ),
                entry_views(r@) == news(views, i as int),
            decreases all@.len() - i,
        {
            proof {
                lemma_first_position(text_views(keys@), i as int);
            }
            let f = first[i];
            if f == i || all[f].hash != all[i].hash {
                let ghost before = entry_views(r@);
                r.push(all[i].clone());
                assert(entry_views(r@) =~= before.push(views[i as int]));
            }
            i += 1;
        }
        r
    }
}

} // verus!
