//! Laws of manifests: what is written is read back.

use vstd::prelude::*;
use vstd::utf8::*;
use crate::disk::WalkView;
use crate::generate::{manifest_line, manifest_path_text, manifest_text};
use crate::hashfile::{
    is_entry_line,
    lemma_line_len,
    lemma_line_len_is,
    line_len,
    locate,
    locate_all,
    read_line,
    read_lines,
    trim_returns,
    without_mark,
    LineView,
    LocatedView,
};
use crate::laws::paths::{
    bare_prefix,
    joined,
    joint,
    law_names_lead_to_the_same_file,
    law_relative_paths_lead_back,
    lemma_bare_directory_parts,
    lemma_directory_of_joined,
    lemma_join_listed,
    lemma_joined_bytes,
    lemma_listed,
    lemma_root_makes_no_difference,
    listed,
    plain_directory,
    plain_names,
};
use crate::path::{equal_paths, join, parent, path_text, relative, PathView, Platform};
use crate::path_facts::plain_name;
use crate::text::{ascii_upper, is_hash_text, is_hex_char, is_upper_hex_char, replaced};

verus! {

broadcast use vstd::seq_lib::group_seq_properties;

/// What a manifest is to say: the hash and the path of each file that could be
/// hashed.
pub open spec fn manifest_items(
    files: Seq<WalkView>,
    outcomes: Seq<Result<String, String>>,
    base: PathView,
) -> Seq<LineView>
    decreases files.len(),
{
    if files.len() == 0 {
        Seq::empty()
    } else {
        let before = manifest_items(files.drop_last(), outcomes.drop_last(), base);
        match outcomes.last() {
            Ok(hash) => before.push(
                LineView {
                    hash: hash@,
                    path: manifest_path_text(relative(files.last().path, base)),
                },
            ),
            Err(_) => before,
        }
    }
}

/// A line that can be read back: its hash is one, and its path neither is empty
/// nor breaks the line.
pub open spec fn writable(item: LineView) -> bool {
    &&& is_hash_text(item.hash)
    &&& item.path.len() > 0
    &&& !item.path.contains('\n')
    &&& item.path.last() != '\r'
}

/// Whole lines are read on their own, whatever follows.
proof fn lemma_read_lines_append(a: Seq<char>, b: Seq<char>)
    requires
        a.len() > 0 ==> a.last() == '\n',
    ensures
        read_lines(a + b) == read_lines(a) + read_lines(b),
    decreases a.len(),
{
    if a.len() == 0 {
        assert(a + b =~= b);
        assert(trim_returns(a.take(0)) =~= a.take(0));
        assert(read_lines(a) =~= Seq::<LineView>::empty());
    } else {
        lemma_line_len(a);
        let n = line_len(a);
        assert(n < a.len()) by {
            assert(a[a.len() - 1] == '\n');
        }
        let s = a + b;
        assert forall|k: int| 0 <= k < n implies #[trigger] s[k] != '\n' by {
            assert(s[k] == a[k]);
        }
        assert(s[n] == a[n]);
        lemma_line_len_is(s, n);
        let rest = a.skip(n + 1);
        assert(s.skip(n + 1) =~= rest + b);
        assert(s.take(n) =~= a.take(n));
        if rest.len() > 0 {
            assert(rest.last() == a.last());
        }
        lemma_read_lines_append(rest, b);
        match read_line(a.take(n)) {
            Some(line) => {
                assert(seq![line] + (read_lines(rest) + read_lines(b)) =~= (seq![line] + read_lines(
                    rest,
                )) + read_lines(b));
            },
            None => {},
        }
    }
}

/// A line that was written is read back.
proof fn lemma_line_reads_back(item: LineView)
    requires
        writable(item),
    ensures
        read_lines(item.hash + " *"@ + item.path + "\n"@) == seq![item],
        (item.hash + " *"@ + item.path + "\n"@).last() == '\n',
        (item.hash + " *"@ + item.path + "\n"@)[0] != '\u{feff}',
{
    reveal_strlit(" *");
    reveal_strlit("\n");
    let line = item.hash + " *"@ + item.path;
    let s = line + "\n"@;
    let n = line.len() as int;
    assert forall|k: int| 0 <= k < n implies #[trigger] s[k] != '\n' by {
        if k < 16 {
            assert(s[k] == item.hash[k]);
            assert(is_upper_hex_char(item.hash[k]));
        } else if k < 18 {
            assert(s[k] == " *"@[k - 16]);
        } else {
            assert(s[k] == item.path[k - 18]);
            assert(item.path.contains(item.path[k - 18]));
        }
    }
    assert(s[n] == '\n');
    lemma_line_len_is(s, n);
    assert(s.take(n) =~= line);
    assert(s.skip(n + 1) =~= Seq::<char>::empty());
    assert(read_lines(Seq::<char>::empty()) =~= Seq::<LineView>::empty()) by {
        let e = Seq::<char>::empty();
        assert(e.take(0) =~= e);
        assert(trim_returns(e) == e);
    }
    assert(line.last() == item.path.last());
    assert(trim_returns(line) == line);
    assert(is_entry_line(line)) by {
        assert forall|i: int| 0 <= i < 16 implies is_hex_char(#[trigger] line[i]) by {
            assert(line[i] == item.hash[i]);
            assert(is_upper_hex_char(item.hash[i]));
        }
        assert(line[16] == " *"@[0] && line[17] == " *"@[1]);
    }
    assert(line.take(16) =~= item.hash);
    assert(line.skip(18) =~= item.path);
    assert(ascii_upper(item.hash) =~= item.hash) by {
        assert forall|i: int| 0 <= i < 16 implies crate::text::ascii_upper_char(
            #[trigger] item.hash[i],
        ) == item.hash[i] by {
            assert(is_upper_hex_char(item.hash[i]));
        }
    }
    assert(read_line(line) == Some(LineView { hash: item.hash, path: item.path }));
    assert(read_lines(s) =~= seq![item]);
    assert(s[0] == item.hash[0]);
    assert(is_upper_hex_char(item.hash[0]));
}

proof fn lemma_manifest_reads_back(
    files: Seq<WalkView>,
    outcomes: Seq<Result<String, String>>,
    base: PathView,
)
    requires
        files.len() == outcomes.len(),
        forall|i: int|
            0 <= i < manifest_items(files, outcomes, base).len() ==> writable(
                #[trigger] manifest_items(files, outcomes, base)[i],
            ),
    ensures
        read_lines(manifest_text(files, outcomes, base)) == manifest_items(files, outcomes, base),
        ({
            let text = manifest_text(files, outcomes, base);
            text.len() > 0 ==> text.last() == '\n' && text[0] != '\u{feff}'
        }),
    decreases files.len(),
{
    if files.len() == 0 {
        let e = Seq::<char>::empty();
        assert(e.take(0) =~= e);
        assert(trim_returns(e) == e);
        assert(read_lines(e) =~= Seq::<LineView>::empty());
    } else {
        let items = manifest_items(files, outcomes, base);
        let before = manifest_items(files.drop_last(), outcomes.drop_last(), base);
        assert forall|i: int| 0 <= i < before.len() implies writable(#[trigger] before[i]) by {
            assert(items[i] == before[i]);
        }
        lemma_manifest_reads_back(files.drop_last(), outcomes.drop_last(), base);
        let head = manifest_text(files.drop_last(), outcomes.drop_last(), base);
        match outcomes.last() {
            Ok(hash) => {
                let item = LineView {
                    hash: hash@,
                    path: manifest_path_text(relative(files.last().path, base)),
                };
                assert(items[before.len() as int] == item);
                let line = manifest_line(files.last().path, base, hash@);
                lemma_line_reads_back(item);
                lemma_read_lines_append(head, line);
                let text = head + line;
                assert(text.last() == line.last());
                if head.len() > 0 {
                    assert(text[0] == head[0]);
                } else {
                    assert(text =~= line);
                }
                assert(before + seq![item] =~= items);
            },
            Err(_) => {},
        }
    }
}

/// A manifest that was generated is read back: it has an entry for each file that
/// could be hashed, in the same order, with the hash of the file and its path.
pub proof fn law_generated_manifest_reads_back(
    files: Seq<WalkView>,
    outcomes: Seq<Result<String, String>>,
    base: PathView,
)
    requires
        files.len() == outcomes.len(),
        forall|i: int|
            0 <= i < manifest_items(files, outcomes, base).len() ==> writable(
                #[trigger] manifest_items(files, outcomes, base)[i],
            ),
    ensures
        read_lines(without_mark(manifest_text(files, outcomes, base))) == manifest_items(
            files,
            outcomes,
            base,
        ),
{
    lemma_manifest_reads_back(files, outcomes, base);
}

/// A path that was written into a manifest is found again from the directory of
/// the manifest, where the characters of the path do not take backslashes for
/// anything but separators.
pub proof fn law_manifest_paths_are_found_again(p: PathView, hash: Seq<char>, dir: PathView)
    requires
        p.platform == dir.platform,
        !(p.platform is Windows) ==> !path_text(p).contains('\\'),
    ensures
        locate((LineView { hash, path: manifest_path_text(p) }), dir) == (LocatedView {
            hash,
            path: join(dir, encode_utf8(path_text(p))),
        }),
{
    if !(p.platform is Windows) {
        let t = path_text(p);
        assert(replaced(replaced(t, '/', '\\'), '\\', '/') =~= t) by {
            assert forall|i: int| 0 <= i < t.len() implies t[i] != '\\' by {
                assert(t.contains(t[i]));
            }
        }
    }
}

/// A plain character in a text is among the bytes of the text.
proof fn lemma_encoded_char(s: Seq<char>, k: int) -> (j: int)
    requires
        0 <= k < s.len(),
        '\0' <= s[k] <= '\u{7f}',
    ensures
        0 <= j < encode_utf8(s).len(),
        encode_utf8(s)[j] == s[k] as u8,
    decreases s.len(),
{
    let rest = s.drop_first();
    let first = seq![s[0]];
    assert(first.drop_first() =~= Seq::<char>::empty());
    let head = encode_scalar(s[0] as u32);
    assert(encode_utf8(s) == head + encode_utf8(rest));
    if k == 0 {
        reveal_with_fuel(encode_utf8, 2);
        assert forall|i: int| 0 <= i < first.len() implies '\0' <= #[trigger] first[i]
            <= '\u{7f}' by {
            assert(first[i] == s[0]);
        }
        is_ascii_chars_encode_utf8(first);
        assert(encode_utf8(first) =~= head);
        assert(head[0] == first[0] as u8);
        0
    } else {
        assert(rest[k - 1] == s[k]);
        let j = lemma_encoded_char(rest, k - 1);
        head.len() as int + j
    }
}

/// A character that stands for no byte of a text is not in it.
proof fn lemma_no_such_char(b: Seq<u8>, c: char)
    requires
        valid_utf8(b),
        c <= '\u{7f}',
        !b.contains(c as u8),
    ensures
        !decode_utf8(b).contains(c),
{
    let s = decode_utf8(b);
    decode_utf8_encode_utf8(b);
    if s.contains(c) {
        let k = choose|k: int| 0 <= k < s.len() && s[k] == c;
        let j = lemma_encoded_char(s, k);
        assert(b[j] == c as u8);
    }
}

/// A name that can be written into a manifest: text, without what ends a line,
/// and without a backslash where it does not separate.
pub open spec fn listable_name(name: Seq<u8>, platform: Platform) -> bool {
    &&& valid_utf8(name)
    &&& !name.contains(0x0a)
    &&& !name.contains(0x0d)
    &&& platform is Windows || !name.contains(0x5c)
}

/// Names with separators between them are text again, and hold no other
/// characters.
proof fn lemma_listed_text(names: Seq<Seq<u8>>, platform: Platform)
    requires
        names.len() > 0,
        forall|i: int| 0 <= i < names.len() ==> listable_name(#[trigger] names[i], platform),
    ensures
        listable_name(listed(names, platform), platform),
    decreases names.len(),
{
    let all = listed(names, platform);
    let last = names.last();
    assert(last == names[names.len() - 1]);
    if names.len() == 1 {
        assert(names[0] == last);
    } else {
        let front = names.drop_last();
        assert forall|i: int| 0 <= i < front.len() implies listable_name(
            #[trigger] front[i],
            platform,
        ) by {
            assert(front[i] == names[i]);
        }
        lemma_listed_text(front, platform);
        let head = listed(front, platform);
        let sep = platform.main_separator();
        let mark = seq![sep as char];
        assert(is_ascii_chars(mark));
        is_ascii_chars_encode_utf8(mark);
        encode_utf8_valid_utf8(mark);
        assert(encode_utf8(mark) =~= seq![sep]) by {
            assert(encode_utf8(mark)[0] == mark[0] as u8);
        }
        valid_utf8_concat(head, seq![sep]);
        valid_utf8_concat(head + seq![sep], last);
        assert(all =~= head + seq![sep] + last);
        assert forall|b: u8| all.contains(b) implies head.contains(b) || b == sep || last.contains(
            b,
        ) by {
            let k = choose|k: int| 0 <= k < all.len() && all[k] == b;
            if k < head.len() {
                assert(head[k] == b);
            } else if k > head.len() {
                assert(last[k - head.len() - 1] == b);
            }
        }
    }
}

/// A file below the directory of a manifest that the manifest can list.
pub open spec fn listable(file: PathView, names: Seq<Seq<u8>>, base: PathView) -> bool {
    &&& plain_names(names, base.platform)
    &&& forall|i: int| 0 <= i < names.len() ==> listable_name(#[trigger] names[i], base.platform)
    &&& file == joined(base, names)
}

/// A text and a root in front of it are a text.
proof fn lemma_rooted_text(b: Seq<u8>)
    requires
        listable_name(b, Platform::Windows),
    ensures
        listable_name(seq![0x5cu8] + b, Platform::Windows),
{
    let mark = seq!['\\'];
    assert(is_ascii_chars(mark));
    is_ascii_chars_encode_utf8(mark);
    encode_utf8_valid_utf8(mark);
    assert(encode_utf8(mark) =~= seq![0x5cu8]) by {
        assert(encode_utf8(mark)[0] == mark[0] as u8);
    }
    valid_utf8_concat(seq![0x5cu8], b);
    let all = seq![0x5cu8] + b;
    assert forall|c: u8| all.contains(c) implies c == 0x5c || b.contains(c) by {
        let k = choose|k: int| 0 <= k < all.len() && all[k] == c;
        if k > 0 {
            assert(b[k - 1] == c);
        }
    }
}

/// The line of a file below `base` leads from `dir` where the names do.
proof fn lemma_line_leads_to_file(
    file: PathView,
    names: Seq<Seq<u8>>,
    base: PathView,
    manifest: Seq<u8>,
    hash: Seq<char>,
)
    requires
        plain_directory(base),
        plain_name(manifest, base.platform),
        listable(file, names, base),
        is_hash_text(hash),
    ensures
        ({
            let dir = parent(join(base, manifest))->0;
            let item = LineView { hash, path: manifest_path_text(relative(file, base)) };
            &&& writable(item)
            &&& locate(item, dir) == (LocatedView { hash, path: joined(dir, names) })
        }),
{
    let platform = base.platform;
    let dir = parent(join(base, manifest))->0;
    lemma_directory_of_joined(base, manifest);
    law_relative_paths_lead_back(base, names);
    lemma_listed_text(names, platform);
    lemma_listed(names, platform);
    lemma_join_listed(dir, names);
    lemma_joined_bytes(dir, names);
    let short = relative(file, base);
    let b = short.bytes;
    if bare_prefix(base) {
        lemma_rooted_text(listed(names, platform));
        lemma_bare_directory_parts(base);
        lemma_root_makes_no_difference(dir, names);
    }
    let text = path_text(short);
    assert(text == decode_utf8(b));
    decode_utf8_encode_utf8(b);
    lemma_no_such_char(b, '\n');
    lemma_no_such_char(b, '\r');
    if !(platform is Windows) {
        lemma_no_such_char(b, '\\');
    }
    law_manifest_paths_are_found_again(short, hash, dir);
    assert(text.len() > 0) by {
        if text.len() == 0 {
            assert(encode_utf8(text).len() == 0);
        }
    }
    let item = LineView { hash, path: manifest_path_text(short) };
    assert(item.path.len() == text.len());
    assert forall|k: int| 0 <= k < item.path.len() implies #[trigger] item.path[k] != '\n'
        && item.path[k] != '\r' by {
        assert(text.contains(text[k]));
    }
    assert(join(dir, b) =~= joined(dir, names));
}

/// The files that could be hashed, with their hashes.
pub open spec fn hashed_files(
    files: Seq<WalkView>,
    outcomes: Seq<Result<String, String>>,
) -> Seq<LocatedView>
    decreases files.len(),
{
    if files.len() == 0 {
        Seq::empty()
    } else {
        let before = hashed_files(files.drop_last(), outcomes.drop_last());
        match outcomes.last() {
            Ok(hash) => before.push(LocatedView { hash: hash@, path: files.last().path }),
            Err(_) => before,
        }
    }
}

/// The located line is that of the file: it has its hash, and its path is the
/// same path.
pub open spec fn finds(located: LocatedView, file: LocatedView) -> bool {
    located.hash == file.hash && equal_paths(located.path, file.path)
}

proof fn lemma_items_lead_to_files(
    files: Seq<WalkView>,
    outcomes: Seq<Result<String, String>>,
    names: Seq<Seq<Seq<u8>>>,
    base: PathView,
    manifest: Seq<u8>,
)
    requires
        files.len() == outcomes.len(),
        files.len() == names.len(),
        plain_directory(base),
        plain_name(manifest, base.platform),
        forall|i: int|
            0 <= i < files.len() && (#[trigger] outcomes[i]) is Ok ==> is_hash_text(
                outcomes[i]->Ok_0@,
            ) && listable(files[i].path, names[i], base),
    ensures
        ({
            let dir = parent(join(base, manifest))->0;
            let items = manifest_items(files, outcomes, base);
            let found = hashed_files(files, outcomes);
            &&& items.len() == found.len()
            &&& forall|i: int| 0 <= i < items.len() ==> writable(#[trigger] items[i])
            &&& forall|i: int|
                0 <= i < items.len() ==> finds(locate(#[trigger] items[i], dir), found[i])
            &&& joint(dir) == joint(base) ==> forall|i: int|
                0 <= i < items.len() ==> locate(#[trigger] items[i], dir) == found[i]
        }),
    decreases files.len(),
{
    if files.len() > 0 {
        let n = files.len() - 1;
        let less = files.drop_last();
        let fewer = outcomes.drop_last();
        let dir = parent(join(base, manifest))->0;
        assert forall|i: int|
            0 <= i < less.len() && (#[trigger] fewer[i]) is Ok implies is_hash_text(
            fewer[i]->Ok_0@,
        ) && listable(less[i].path, names.drop_last()[i], base) by {
            assert(fewer[i] == outcomes[i]);
        }
        lemma_items_lead_to_files(less, fewer, names.drop_last(), base, manifest);
        let before = manifest_items(less, fewer, base);
        let items = manifest_items(files, outcomes, base);
        let found = hashed_files(files, outcomes);
        match outcomes.last() {
            Ok(hash) => {
                assert(outcomes[n] is Ok);
                lemma_line_leads_to_file(files[n].path, names[n], base, manifest, hash@);
                law_names_lead_to_the_same_file(base, manifest, names[n]);
                lemma_directory_of_joined(base, manifest);
                lemma_joined_bytes(dir, names[n]);
                lemma_joined_bytes(base, names[n]);
                assert(joint(dir) == joint(base) ==> joined(dir, names[n]) =~= files[n].path);
                assert forall|i: int| 0 <= i < items.len() implies writable(#[trigger] items[i])
                    && finds(locate(items[i], dir), found[i]) && (joint(dir) == joint(base)
                    ==> locate(items[i], dir) == found[i]) by {
                    if i < before.len() {
                        assert(items[i] == before[i]);
                        assert(found[i] == hashed_files(less, fewer)[i]);
                    }
                }
            },
            Err(_) => {},
        }
    }
}

/// A manifest that was generated for a directory and put there leads back to the
/// files: what is read from it is, in the same order, the hash of each file that
/// could be hashed and its path, in the same words unless the directory was given
/// with more behind its last component than one separator. `names` are the names
/// that lead from the directory to each file.
pub proof fn law_generated_manifest_finds_the_files(
    files: Seq<WalkView>,
    outcomes: Seq<Result<String, String>>,
    names: Seq<Seq<Seq<u8>>>,
    base: PathView,
    manifest: Seq<u8>,
)
    requires
        files.len() == outcomes.len(),
        files.len() == names.len(),
        plain_directory(base),
        plain_name(manifest, base.platform),
        forall|i: int|
            0 <= i < files.len() && (#[trigger] outcomes[i]) is Ok ==> is_hash_text(
                outcomes[i]->Ok_0@,
            ) && listable(files[i].path, names[i], base),
    ensures
        parent(join(base, manifest)) is Some,
        ({
            let dir = parent(join(base, manifest))->0;
            let found = locate_all(
                read_lines(without_mark(manifest_text(files, outcomes, base))),
                dir,
            );
            let expected = hashed_files(files, outcomes);
            &&& found.len() == expected.len()
            &&& forall|i: int| 0 <= i < found.len() ==> finds(#[trigger] found[i], expected[i])
            &&& joint(dir) == joint(base) ==> found == expected
        }),
{
    lemma_items_lead_to_files(files, outcomes, names, base, manifest);
    law_generated_manifest_reads_back(files, outcomes, base);
    lemma_directory_of_joined(base, manifest);
    let dir = parent(join(base, manifest))->0;
    let items = manifest_items(files, outcomes, base);
    let found = locate_all(items, dir);
    let expected = hashed_files(files, outcomes);
    assert forall|i: int| 0 <= i < found.len() implies finds(#[trigger] found[i], expected[i]) by {
        assert(found[i] == locate(items[i], dir));
    }
    if joint(dir) == joint(base) {
        assert(found =~= expected);
    }
}

/// The line feed at the end of a text makes no difference.
proof fn lemma_read_lines_ended(a: Seq<char>)
    ensures
        read_lines(a.push('\n')) == read_lines(a),
    decreases a.len(),
{
    let s = a.push('\n');
    lemma_line_len(a);
    let n = line_len(a);
    assert forall|k: int| 0 <= k < n implies #[trigger] s[k] != '\n' by {
        assert(s[k] == a[k]);
    }
    assert(s[n] == '\n') by {
        if n < a.len() {
            assert(s[n] == a[n]);
        }
    }
    lemma_line_len_is(s, n);
    assert(s.take(n) =~= a.take(n));
    if n < a.len() {
        assert(s.skip(n + 1) =~= a.skip(n + 1).push('\n'));
        lemma_read_lines_ended(a.skip(n + 1));
    } else {
        let e = Seq::<char>::empty();
        assert(s.skip(n + 1) =~= e);
        assert(e.take(0) =~= e);
        assert(trim_returns(e) == e);
        assert(read_lines(e) =~= Seq::<LineView>::empty());
    }
}

/// Lines are read one by one: of two texts, one after the other, a manifest has
/// the entries of the first and then those of the second.
pub proof fn law_lines_are_read_one_by_one(a: Seq<char>, b: Seq<char>)
    ensures
        read_lines(a.push('\n') + b) == read_lines(a) + read_lines(b),
        without_mark(a) == a && without_mark(b) == b ==> read_lines(
            without_mark(a.push('\n') + b),
        ) == read_lines(without_mark(a)) + read_lines(without_mark(b)),
{
    lemma_read_lines_append(a.push('\n'), b);
    lemma_read_lines_ended(a);
    let s = a.push('\n') + b;
    if a.len() > 0 {
        assert(s[0] == a[0]);
        if a[0] == '\u{feff}' {
            assert(a.drop_first().len() != a.len());
        }
    } else {
        assert(s[0] == '\n');
    }
}

/// The text with a carriage return before every line feed.
pub open spec fn with_returns(s: Seq<char>) -> Seq<char>
    decreases s.len(),
{
    if s.len() == 0 {
        s
    } else if s[0] == '\n' {
        seq!['\r', '\n'] + with_returns(s.drop_first())
    } else {
        seq![s[0]] + with_returns(s.drop_first())
    }
}

/// What becomes of the first line and of the rest.
proof fn lemma_with_returns(s: Seq<char>)
    ensures
        ({
            let n = line_len(s);
            with_returns(s) == if n < s.len() {
                s.take(n) + seq!['\r', '\n'] + with_returns(s.skip(n + 1))
            } else {
                s
            }
        }),
    decreases s.len(),
{
    lemma_line_len(s);
    let n = line_len(s);
    if s.len() > 0 {
        let rest = s.drop_first();
        if s[0] == '\n' {
            assert(s.skip(1) =~= rest);
            assert(s.take(0) + seq!['\r', '\n'] =~= seq!['\r', '\n']);
        } else {
            lemma_with_returns(rest);
            lemma_line_len(rest);
            if n < s.len() {
                assert(rest.skip(n) =~= s.skip(n + 1));
                assert(seq![s[0]] + (rest.take(n - 1) + seq!['\r', '\n'] + with_returns(
                    rest.skip(n),
                )) =~= s.take(n) + seq!['\r', '\n'] + with_returns(s.skip(n + 1)));
            } else {
                assert(seq![s[0]] + rest =~= s);
            }
        }
    }
}

proof fn lemma_returns_make_no_difference(s: Seq<char>)
    ensures
        read_lines(with_returns(s)) == read_lines(s),
    decreases s.len(),
{
    lemma_with_returns(s);
    lemma_line_len(s);
    let n = line_len(s);
    if n < s.len() {
        let t = with_returns(s);
        let line = s.take(n);
        let rest = s.skip(n + 1);
        assert(t[n] == '\r' && t[n + 1] == '\n');
        assert forall|k: int| 0 <= k < n + 1 implies #[trigger] t[k] != '\n' by {
            if k < n {
                assert(t[k] == s[k]);
            }
        }
        lemma_line_len_is(t, n + 1);
        assert(t.take(n + 1) =~= line.push('\r'));
        assert(line.push('\r').drop_last() =~= line);
        assert(trim_returns(line.push('\r')) == trim_returns(line));
        assert(t.skip(n + 2) =~= with_returns(rest));
        lemma_returns_make_no_difference(rest);
    }
}

/// Whether lines end in a line feed or in a carriage return and a line feed makes
/// no difference.
pub proof fn law_returns_make_no_difference(s: Seq<char>)
    ensures
        read_lines(with_returns(s)) == read_lines(s),
        read_lines(without_mark(with_returns(s))) == read_lines(without_mark(s)),
{
    lemma_returns_make_no_difference(s);
    if s.len() > 0 {
        let rest = s.drop_first();
        lemma_returns_make_no_difference(rest);
        if s[0] == '\n' {
            assert(with_returns(s)[0] == '\r');
        } else {
            assert(with_returns(s)[0] == s[0]);
            assert(with_returns(s).drop_first() =~= with_returns(rest));
        }
    }
}

/// Whatever a manifest holds, every hash that is read from it is sixteen
/// upper-case hexadecimal digits.
pub proof fn law_read_hashes_are_hashes(s: Seq<char>, i: int)
    requires
        0 <= i < read_lines(s).len(),
    ensures
        is_hash_text(read_lines(s)[i].hash),
    decreases s.len(),
{
    lemma_line_len(s);
    let n = line_len(s);
    let line = s.take(n);
    let rest = if n < s.len() {
        read_lines(s.skip(n + 1))
    } else {
        Seq::empty()
    };
    match read_line(line) {
        Some(first) => {
            if i == 0 {
                let digits = trim_returns(line).take(16);
                assert forall|k: int| 0 <= k < 16 implies is_upper_hex_char(
                    #[trigger] first.hash[k],
                ) by {
                    assert(digits[k] == trim_returns(line)[k]);
                    assert(is_hex_char(digits[k]));
                }
            } else {
                assert(read_lines(s)[i] == rest[i - 1]);
                law_read_hashes_are_hashes(s.skip(n + 1), i - 1);
            }
        },
        None => {
            law_read_hashes_are_hashes(s.skip(n + 1), i);
        },
    }
}

/// A byte order mark at the start of a manifest makes no difference.
pub proof fn law_byte_order_mark_makes_no_difference(s: Seq<char>)
    requires
        s.len() == 0 || s[0] != '\u{feff}',
    ensures
        read_lines(without_mark(seq!['\u{feff}'] + s)) == read_lines(without_mark(s)),
{
    assert((seq!['\u{feff}'] + s).drop_first() =~= s);
}

} // verus!
