//! Laws of lines: which lines of a manifest are entries, what becomes of the entries
//! of several manifests, and which paths count as the same.

use vstd::prelude::*;
use vstd::utf8::*;
use crate::disk::WalkView;
use crate::generate::{manifest_path_text, manifest_text};
use crate::hashfile::{
    all_entries,
    computed_entry,
    entry_keys,
    entry_views,
    is_entry_line,
    is_news,
    lemma_line_len_is,
    locate_all,
    name_key_text,
    native_path,
    news,
    path_key_text,
    read_line,
    read_lines,
    trim_returns,
    without_mark,
    EntryView,
    HashEntry,
    LineView,
};
use crate::index::{first_position, lemma_first_position, lemma_first_position_is};
use crate::path::{file_name, join, path_text, relative, PathView};
use crate::text::{is_hex_char, lowercase, uppercase};

verus! {

broadcast use vstd::seq_lib::group_seq_properties;

// ---------------------------------------------------------------------------
// One line
// ---------------------------------------------------------------------------

/// A hexadecimal digit, letters in either case.
pub open spec fn is_digit(c: char) -> bool {
    ||| '0' <= c && c <= '9'
    ||| 'A' <= c && c <= 'F'
    ||| 'a' <= c && c <= 'f'
}

/// Sixteen hexadecimal digits, a space, a star or a second space, and a path of at
/// least one character that does not end in a carriage return.
pub open spec fn is_entry_of(
    line: Seq<char>,
    hash: Seq<char>,
    mark: char,
    path: Seq<char>,
) -> bool {
    &&& line == hash + seq![' ', mark] + path
    &&& hash.len() == 16
    &&& forall|i: int| 0 <= i < 16 ==> is_digit(#[trigger] hash[i])
    &&& mark == '*' || mark == ' '
    &&& path.len() > 0
    &&& path.last() != '\r'
}

/// So many carriage returns.
pub open spec fn carriage_returns(n: nat) -> Seq<char> {
    Seq::new(n, |i: int| '\r')
}

proof fn lemma_trimmed(line: Seq<char>) -> (n: nat)
    ensures
        line == trim_returns(line) + carriage_returns(n),
        trim_returns(line).len() > 0 ==> trim_returns(line).last() != '\r',
    decreases line.len(),
{
    if line.len() > 0 && line.last() == '\r' {
        let front = line.drop_last();
        let n = lemma_trimmed(front);
        let body = trim_returns(front);
        assert(trim_returns(line) == body);
        assert(front == body + carriage_returns(n));
        assert(line =~= front.push('\r'));
        assert(carriage_returns(n + 1) =~= carriage_returns(n).push('\r'));
        assert(line =~= body + carriage_returns(n + 1));
        n + 1
    } else {
        assert(line =~= line + carriage_returns(0));
        0
    }
}

proof fn lemma_trim(body: Seq<char>, n: nat)
    requires
        body.len() > 0,
        body.last() != '\r',
    ensures
        trim_returns(body + carriage_returns(n)) == body,
    decreases n,
{
    let line = body + carriage_returns(n);
    if n == 0 {
        assert(line =~= body);
    } else {
        assert(line.last() == '\r');
        assert(line.drop_last() =~= body + carriage_returns((n - 1) as nat));
        lemma_trim(body, (n - 1) as nat);
    }
}

/// A line that has the form of an entry is one, with the hash in upper case and
/// the path as it stands, whatever carriage returns come after it.
pub proof fn law_entry_lines_are_read(
    line: Seq<char>,
    hash: Seq<char>,
    mark: char,
    path: Seq<char>,
    n: nat,
)
    requires
        is_entry_of(line, hash, mark, path),
    ensures
        read_line(line + carriage_returns(n)) == Some(LineView { hash: uppercase(hash), path }),
        !path.contains('\n') ==> read_lines(line + carriage_returns(n)) == seq![
            LineView { hash: uppercase(hash), path },
        ],
{
    assert(line.last() == path.last());
    lemma_trim(line, n);
    assert(line.take(16) =~= hash);
    assert(line.skip(18) =~= path);
    assert forall|i: int| 0 <= i < 16 implies is_hex_char(#[trigger] line[i]) by {
        assert(line[i] == hash[i]);
        assert(is_digit(hash[i]));
    }
    assert(is_ascii_chars(hash)) by {
        assert forall|i: int| 0 <= i < hash.len() implies '\0' <= #[trigger] hash[i]
            <= '\u{7f}' by {
            assert(is_digit(hash[i]));
        }
    }
    if !path.contains('\n') {
        let whole = line + carriage_returns(n);
        assert forall|k: int| 0 <= k < whole.len() implies #[trigger] whole[k] != '\n' by {
            if k < 16 {
                assert(whole[k] == hash[k]);
                assert(is_digit(hash[k]));
            } else if k >= 18 && k < line.len() {
                assert(whole[k] == path[k - 18]);
            }
        }
        lemma_line_len_is(whole, whole.len() as int);
        assert(whole.take(whole.len() as int) =~= whole);
        let one = seq![LineView { hash: uppercase(hash), path }];
        assert(one + Seq::<LineView>::empty() =~= one);
    }
}

/// A line that is read as an entry has the form of one.
pub proof fn law_only_entry_lines_are_read(line: Seq<char>) -> (r: (
    Seq<char>,
    Seq<char>,
    char,
    Seq<char>,
    nat,
))
    requires
        read_line(line) is Some,
    ensures
        is_entry_of(r.0, r.1, r.2, r.3),
        line == r.0 + carriage_returns(r.4),
        read_line(line) == Some(LineView { hash: uppercase(r.1), path: r.3 }),
{
    let n = lemma_trimmed(line);
    let l = trim_returns(line);
    let hash = l.take(16);
    let path = l.skip(18);
    let mark = l[17];
    assert(is_entry_line(l));
    assert forall|i: int| 0 <= i < 16 implies is_digit(#[trigger] hash[i]) by {
        assert(hash[i] == l[i]);
        assert(is_hex_char(l[i]));
    }
    assert(l =~= hash + seq![' ', mark] + path);
    assert(path.last() == l.last());
    law_entry_lines_are_read(l, hash, mark, path, n);
    (l, hash, mark, path, n)
}

/// A line that does not start with sixteen hexadecimal digits, such as a comment
/// or a blank line, is passed over.
pub proof fn law_other_lines_are_passed_over(line: Seq<char>, i: int)
    requires
        0 <= i < 16,
        line.len() <= i || !is_digit(line[i]),
    ensures
        read_line(line) is None,
{
    if read_line(line) is Some {
        let r = law_only_entry_lines_are_read(line);
        assert(line[i] == r.1[i]);
        assert(is_digit(r.1[i]));
    }
}

/// The path of an entry is taken from the directory of the manifest, with slashes
/// for backslashes but on Windows.
pub proof fn law_entries_are_located(lines: Seq<LineView>, base: PathView, i: int)
    requires
        0 <= i < lines.len(),
    ensures
        locate_all(lines, base).len() == lines.len(),
        locate_all(lines, base)[i].hash == lines[i].hash,
        locate_all(lines, base)[i].path == join(
            base,
            encode_utf8(native_path(lines[i].path, base.platform)),
        ),
        native_path(lines[i].path, base.platform).len() == lines[i].path.len(),
        base.platform is Windows ==> native_path(lines[i].path, base.platform) == lines[i].path,
        !(base.platform is Windows) ==> forall|k: int|
            0 <= k < lines[i].path.len() ==> #[trigger] native_path(lines[i].path, base.platform)[k]
                == (if lines[i].path[k] == '\\' {
                '/'
            } else {
                lines[i].path[k]
            }),
{
}

/// A byte order mark counts as such only at the very start, and only one of them.
pub proof fn law_one_mark_is_dropped(s: Seq<char>)
    ensures
        without_mark(seq!['\u{feff}'] + s) == s,
        s.len() == 0 || s[0] != '\u{feff}' ==> without_mark(s) == s,
{
    assert((seq!['\u{feff}'] + s).drop_first() =~= s);
}

/// A manifest has a line for each file that could be hashed, in order: the hash, a
/// space and a star, the path as seen from the base, with backslashes for slashes
/// but on Windows, and a line feed. A file that could not be hashed has none.
pub proof fn law_manifests_have_a_line_for_each_file(
    files: Seq<WalkView>,
    outcomes: Seq<Result<String, String>>,
    base: PathView,
    w: WalkView,
    outcome: Result<String, String>,
)
    requires
        files.len() == outcomes.len(),
    ensures
        manifest_text(Seq::empty(), Seq::empty(), base).len() == 0,
        ({
            let before = manifest_text(files, outcomes, base);
            let now = manifest_text(files.push(w), outcomes.push(outcome), base);
            let text = path_text(relative(w.path, base));
            let listed = if w.path.platform is Windows {
                text
            } else {
                text.map_values(
                    |c: char|
                        if c == '/' {
                            '\\'
                        } else {
                            c
                        },
                )
            };
            match outcome {
                Ok(hash) => now == before + hash@ + seq![' ', '*'] + listed + seq!['\n'],
                Err(_) => now == before,
            }
        }),
{
    assert(files.push(w).drop_last() =~= files);
    assert(outcomes.push(outcome).drop_last() =~= outcomes);
    reveal_strlit(" *");
    reveal_strlit("\n");
    let rel = relative(w.path, base);
    assert(rel.platform == w.path.platform);
    let text = path_text(rel);
    let shown = manifest_path_text(rel);
    if !(w.path.platform is Windows) {
        assert(shown =~= text.map_values(
            |c: char|
                if c == '/' {
                    '\\'
                } else {
                    c
                },
        ));
    }
    match outcome {
        Ok(hash) => {
            let before = manifest_text(files, outcomes, base);
            assert(manifest_text(files.push(w), outcomes.push(outcome), base) =~= before + hash@
                + seq![' ', '*'] + shown + seq!['\n']);
        },
        Err(_) => {},
    }
}

// ---------------------------------------------------------------------------
// Several manifests
// ---------------------------------------------------------------------------

/// The entries of several manifests are those of the first, then those of the
/// next, and so on.
pub proof fn law_manifests_are_joined(
    a: Seq<Vec<HashEntry>>,
    b: Seq<Vec<HashEntry>>,
    m: Vec<HashEntry>,
)
    ensures
        all_entries(Seq::empty()).len() == 0,
        all_entries(seq![m]) == entry_views(m@),
        all_entries(a + b) == all_entries(a) + all_entries(b),
    decreases b.len(),
{
    assert(seq![m].drop_last() =~= Seq::<Vec<HashEntry>>::empty());
    assert(Seq::<EntryView>::empty() + entry_views(m@) =~= entry_views(m@));
    if b.len() == 0 {
        assert(a + b =~= a);
        assert(all_entries(a) + all_entries(b) =~= all_entries(a));
    } else {
        law_manifests_are_joined(a, b.drop_last(), m);
        assert((a + b).drop_last() =~= a + b.drop_last());
        assert((a + b).last() == b.last());
        assert(all_entries(a + b) =~= all_entries(a) + all_entries(b));
    }
}

/// An entry is kept where no earlier one is for its path, and where the first for
/// its path, at `f`, has another hash; it is dropped where that has the same one.
pub proof fn law_what_is_news(all: Seq<EntryView>, i: int, f: int)
    requires
        0 <= f <= i < all.len(),
        path_key_text(all[f].path) == path_key_text(all[i].path),
        forall|j: int|
            0 <= j < f ==> path_key_text((#[trigger] all[j]).path) != path_key_text(all[i].path),
    ensures
        news(all, 0).len() == 0,
        f == i || all[f].hash != all[i].hash ==> news(all, i + 1) == news(all, i).push(all[i]),
        f < i && all[f].hash == all[i].hash ==> news(all, i + 1) == news(all, i),
{
    let keys = entry_keys(all);
    assert forall|j: int| 0 <= j < f implies keys[j] != keys[i] by {
        assert(path_key_text(all[j].path) != path_key_text(all[i].path));
    }
    lemma_first_position_is(keys, i, f);
}

/// Nothing is lost: for every entry there is a kept one for the same path with the
/// same hash.
pub proof fn law_nothing_is_lost(all: Seq<EntryView>, n: int, i: int)
    requires
        0 <= i < n <= all.len(),
    ensures
        exists|k: int|
            0 <= k < news(all, n).len() && path_key_text((#[trigger] news(all, n)[k]).path)
                == path_key_text(all[i].path) && news(all, n)[k].hash == all[i].hash,
    decreases n,
{
    let before = news(all, n - 1);
    let now = news(all, n);
    if i < n - 1 {
        law_nothing_is_lost(all, n - 1, i);
        let k = choose|k: int|
            0 <= k < before.len() && path_key_text((#[trigger] before[k]).path) == path_key_text(
                all[i].path,
            ) && before[k].hash == all[i].hash;
        assert(now[k] == before[k]);
    } else if is_news(all, i) {
        assert(now[before.len() as int] == all[i]);
    } else {
        let keys = entry_keys(all);
        lemma_first_position(keys, i);
        let f = first_position(keys, i);
        assert(keys[f] == keys[i]);
        law_nothing_is_lost(all, n - 1, f);
        let k = choose|k: int|
            0 <= k < before.len() && path_key_text((#[trigger] before[k]).path) == path_key_text(
                all[f].path,
            ) && before[k].hash == all[f].hash;
        assert(now[k] == before[k]);
    }
}

/// Nothing is made up: every entry that is kept is one of those there were.
pub proof fn law_nothing_is_made_up(all: Seq<EntryView>, n: int, k: int)
    requires
        0 <= n <= all.len(),
        0 <= k < news(all, n).len(),
    ensures
        all.contains(news(all, n)[k]),
    decreases n,
{
    if k < news(all, n - 1).len() {
        law_nothing_is_made_up(all, n - 1, k);
    } else {
        assert(all[n - 1] == news(all, n)[k]);
    }
}

/// An entry with a hash that was computed says so, and is for the file as it was
/// given.
pub proof fn law_computed_entries(p: PathView, hash: Seq<char>)
    ensures
        computed_entry(p, hash).path == p,
        computed_entry(p, hash).hash == hash,
        computed_entry(p, hash).computed,
        computed_entry(p, hash).manifest.bytes == encode_utf8("<computed>"@),
{
}

// ---------------------------------------------------------------------------
// Keys
// ---------------------------------------------------------------------------

/// Two texts are the same but for the case of the letters from `A` to `Z`.
pub open spec fn same_letters(a: Seq<char>, b: Seq<char>) -> bool {
    a.len() == b.len() && forall|i: int|
        0 <= i < a.len() ==> {
            ||| #[trigger] a[i] == b[i]
            ||| 'A' <= a[i] && a[i] <= 'Z' && b[i] as int == a[i] as int + 32
            ||| 'A' <= b[i] && b[i] <= 'Z' && a[i] as int == b[i] as int + 32
        }
}

proof fn lemma_same_letters(a: Seq<char>, b: Seq<char>)
    requires
        is_ascii_chars(a),
        is_ascii_chars(b),
    ensures
        lowercase(a) == lowercase(b) <==> same_letters(a, b),
{
    if lowercase(a) == lowercase(b) {
        assert(lowercase(a).len() == a.len() && lowercase(b).len() == b.len());
        assert forall|i: int| 0 <= i < a.len() implies {
            ||| #[trigger] a[i] == b[i]
            ||| 'A' <= a[i] && a[i] <= 'Z' && b[i] as int == a[i] as int + 32
            ||| 'A' <= b[i] && b[i] <= 'Z' && a[i] as int == b[i] as int + 32
        } by {
            assert(lowercase(a)[i] == lowercase(b)[i]);
            crate::laws::texts::law_ascii_case(a, i);
            crate::laws::texts::law_ascii_case(b, i);
        }
    }
    if same_letters(a, b) {
        assert forall|i: int| 0 <= i < a.len() implies lowercase(a)[i] == lowercase(b)[i] by {
            assert(a[i] == b[i] || a[i] != b[i]);
            crate::laws::texts::law_ascii_case(a, i);
            crate::laws::texts::law_ascii_case(b, i);
        }
        assert(lowercase(a) =~= lowercase(b));
    }
}

/// But on Windows and on macOS, paths are the same only if their texts are. There
/// the case of letters makes no difference.
pub proof fn law_keys_of_paths(p: PathView, q: PathView)
    requires
        p.platform == q.platform,
    ensures
        p.platform is Other ==> (path_key_text(p) == path_key_text(q) <==> path_text(p)
            == path_text(q)),
        !(p.platform is Other) && is_ascii_chars(path_text(p)) && is_ascii_chars(path_text(q)) ==> (
        path_key_text(p) == path_key_text(q) <==> same_letters(path_text(p), path_text(q))),
        !(p.platform is Other) ==> path_key_text(p) == lowercase(path_text(p)),
{
    if is_ascii_chars(path_text(p)) && is_ascii_chars(path_text(q)) {
        lemma_same_letters(path_text(p), path_text(q));
    }
}

/// But on Windows and on macOS, files whose names are text share a name only if
/// their names are the same. There the case of letters makes no difference.
pub proof fn law_keys_of_names(p: PathView, q: PathView)
    requires
        p.platform == q.platform,
        file_name(p) is Some,
        file_name(q) is Some,
        valid_utf8(file_name(p)->0),
        valid_utf8(file_name(q)->0),
    ensures
        p.platform is Other ==> (name_key_text(p) == name_key_text(q) <==> file_name(p)
            == file_name(q)),
        ({
            let a = decode_utf8(file_name(p)->0);
            let b = decode_utf8(file_name(q)->0);
            &&& !(p.platform is Other) && is_ascii_chars(a) && is_ascii_chars(b) ==> (name_key_text(
                p,
            ) == name_key_text(q) <==> same_letters(a, b))
            &&& !(p.platform is Other) ==> name_key_text(p) == lowercase(a)
        }),
{
    let a = decode_utf8(file_name(p)->0);
    let b = decode_utf8(file_name(q)->0);
    decode_utf8_encode_utf8(file_name(p)->0);
    decode_utf8_encode_utf8(file_name(q)->0);
    if is_ascii_chars(a) && is_ascii_chars(b) {
        lemma_same_letters(a, b);
    }
}

/// The text of a path whose bytes are text is that text.
pub proof fn law_text_of_paths(p: PathView)
    requires
        valid_utf8(p.bytes),
    ensures
        encode_utf8(path_text(p)) == p.bytes,
{
    decode_utf8_encode_utf8(p.bytes);
}

} // verus!
