//! Logs of renames: CSV with one row for each thing that was done or tried.

use vstd::prelude::*;
use vstd::string::*;
use vstd::utf8::*;
use crate::error::{message, Failure};
use crate::index::{lemma_positions, Grouping};
use crate::text::{chars_of, contains_char, same_text, string_from_chars};

verus! {

broadcast use vstd::seq_lib::group_seq_properties;

// ---------------------------------------------------------------------------
// Fields
// ---------------------------------------------------------------------------

/// A field that cannot stand in a row as it is.
pub open spec fn needs_quotes(s: Seq<char>) -> bool {
    s.contains(',') || s.contains('"') || s.contains('\n')
}

/// A text with every quote doubled.
pub open spec fn quotes_doubled(s: Seq<char>) -> Seq<char>
    decreases s.len(),
{
    if s.len() == 0 {
        Seq::empty()
    } else {
        let before = quotes_doubled(s.drop_last());
        if s.last() == '"' {
            before.push('"').push('"')
        } else {
            before.push(s.last())
        }
    }
}

/// A field as it stands in a row.
pub open spec fn escaped(s: Seq<char>) -> Seq<char> {
    if needs_quotes(s) {
        seq!['"'] + quotes_doubled(s) + seq!['"']
    } else {
        s
    }
}

/// Prepares a field for a row.
pub fn escape_csv(s: &str) -> (r: String)
    ensures
        r@ == escaped(s@),
{
    let v = chars_of(s);
    if !(contains_char(&v, ',') || contains_char(&v, '"') || contains_char(&v, '\n')) {
        return s.to_string();
    }
    let mut out: Vec<char> = Vec::new();
    out.push('"');
    let mut i: usize = 0;
    assert(v@.take(0) =~= Seq::<char>::empty());
    assert(out@ =~= seq!['"'] + quotes_doubled(v@.take(0)));
    while i < v.len()
        invariant
            i <= v@.len(),
            out@ == seq!['"'] + quotes_doubled(v@.take(i as int)),
        decreases v@.len() - i,
    {
        let ghost before = out@;
        let ghost so_far = quotes_doubled(v@.take(i as int));
        let c = v[i];
        if c == '"' {
            out.push('"');
        }
        out.push(c);
        i += 1;
        proof {
            assert(v@.take(i as int).drop_last() =~= v@.take(i - 1));
            if c == '"' {
                assert(out@ =~= seq!['"'] + so_far.push('"').push('"'));
            } else {
                assert(out@ =~= seq!['"'] + so_far.push(c));
            }
        }
    }
    assert(v@.take(i as int) =~= v@);
    out.push('"');
    assert(out@ =~= escaped(s@));
    string_from_chars(&out)
}

// ---------------------------------------------------------------------------
// Rows
// ---------------------------------------------------------------------------

/// A row of a log.
#[verifier::ext_equal]
pub struct RowView {
    pub time: Seq<char>,
    pub status: Seq<char>,
    pub hash: Seq<char>,
    pub old: Seq<char>,
    pub new: Seq<char>,
    pub note: Seq<char>,
}

impl RowView {
    pub open spec fn fields(self) -> Seq<Seq<char>> {
        seq![self.time, self.status, self.hash, self.old, self.new, self.note]
    }
}

/// The line of a row. Time and status stand as they are.
pub open spec fn row_line(row: RowView) -> Seq<char> {
    row.time + ","@ + row.status + ","@ + escaped(row.hash) + ","@ + escaped(row.old) + ","@
        + escaped(row.new) + ","@ + escaped(row.note) + "\n"@
}

pub open spec fn row_lines(rows: Seq<RowView>) -> Seq<char>
    decreases rows.len(),
{
    if rows.len() == 0 {
        Seq::empty()
    } else {
        row_lines(rows.drop_last()) + row_line(rows.last())
    }
}

/// What a log starts with: a byte order mark and the names of the columns.
pub open spec fn log_start() -> Seq<char> {
    "\u{feff}timestamp,status,hash,old_path,new_path,note\n"@
}

/// The text of a log with these rows.
pub open spec fn log_text(rows: Seq<RowView>) -> Seq<char> {
    log_start() + row_lines(rows)
}

/// The line of a row.
pub fn log_line(now: &str, status: &str, hash: &str, old: &str, new: &str, note: &str) -> (r:
    String)
    ensures
        r@ == row_line(
            (RowView {
                time: now@,
                status: status@,
                hash: hash@,
                old: old@,
                new: new@,
                note: note@,
            }),
        ),
{
    let mut line = now.to_string();
    line.append(",");
    line.append(status);
    line.append(",");
    line.append(escape_csv(hash).as_str());
    line.append(",");
    line.append(escape_csv(old).as_str());
    line.append(",");
    line.append(escape_csv(new).as_str());
    line.append(",");
    line.append(escape_csv(note).as_str());
    line.append("\n");
    line
}

/// A log that is being written. It keeps the text that has yet to reach the
/// file; whoever owns the file takes that text and writes it.
pub struct Journal {
    unwritten: String,
    headed: bool,
    rows: Ghost<Seq<RowView>>,
    written: Ghost<Seq<char>>,
}

impl Journal {
    /// The rows recorded so far.
    pub closed spec fn rows(&self) -> Seq<RowView> {
        self.rows@
    }

    /// The text that has been taken.
    pub closed spec fn written(&self) -> Seq<char> {
        self.written@
    }

    /// The text that has yet to be taken.
    pub closed spec fn unwritten(&self) -> Seq<char> {
        self.unwritten@
    }

    /// The journal started its file, rather than going on with one.
    pub closed spec fn headed(&self) -> bool {
        self.headed
    }

    /// What has been and what has yet to be written are the rows, after the
    /// start of a log where the journal started the file.
    pub open spec fn wf(&self) -> bool {
        self.written() + self.unwritten() == if self.headed() {
            log_text(self.rows())
        } else {
            row_lines(self.rows())
        }
    }

    /// A journal for a new file.
    pub fn new() -> (r: Journal)
        ensures
            r.wf(),
            r.headed(),
            r.rows() == Seq::<RowView>::empty(),
            r.written() == Seq::<char>::empty(),
            r.unwritten() == log_start(),
    {
        let r = Journal {
            unwritten: "\u{feff}timestamp,status,hash,old_path,new_path,note\n".to_string(),
            headed: true,
            rows: Ghost(Seq::empty()),
            written: Ghost(Seq::empty()),
        };
        assert(r.written() + r.unwritten() =~= log_text(r.rows()));
        r
    }

    /// A journal that goes on with a file.
    pub fn append() -> (r: Journal)
        ensures
            r.wf(),
            !r.headed(),
            r.rows() == Seq::<RowView>::empty(),
            r.written() == Seq::<char>::empty(),
            r.unwritten() == Seq::<char>::empty(),
    {
        let r = Journal {
            unwritten: String::new(),
            headed: false,
            rows: Ghost(Seq::empty()),
            written: Ghost(Seq::empty()),
        };
        assert(r.written() + r.unwritten() =~= row_lines(r.rows()));
        r
    }

    /// Adds a row.
    pub fn record(
        &mut self,
        now: &str,
        status: &str,
        hash: &str,
        old_path: &str,
        new_path: &str,
        note: &str,
    )
        requires
            old(self).wf(),
        ensures
            final(self).wf(),
            final(self).headed() == old(self).headed(),
            final(self).written() == old(self).written(),
            ({
                let row = RowView {
                    time: now@,
                    status: status@,
                    hash: hash@,
                    old: old_path@,
                    new: new_path@,
                    note: note@,
                };
                &&& final(self).rows() == old(self).rows().push(row)
                &&& final(self).unwritten() == old(self).unwritten() + row_line(row)
            }),
    {
        let ghost row = RowView {
            time: now@,
            status: status@,
            hash: hash@,
            old: old_path@,
            new: new_path@,
            note: note@,
        };
        let ghost before = *self;
        let line = log_line(now, status, hash, old_path, new_path, note);
        self.unwritten.append(line.as_str());
        self.rows = Ghost(self.rows@.push(row));
        proof {
            let rows = self.rows();
            assert(rows.drop_last() =~= before.rows());
            assert(self.written() + self.unwritten() =~= before.written() + before.unwritten()
                + row_line(row));
            assert(log_start() + (row_lines(before.rows()) + row_line(row)) =~= log_start()
                + row_lines(before.rows()) + row_line(row));
        }
    }

    /// Takes the text that has yet to be written.
    pub fn take(&mut self) -> (r: String)
        requires
            old(self).wf(),
        ensures
            final(self).wf(),
            r@ == old(self).unwritten(),
            final(self).unwritten() == Seq::<char>::empty(),
            final(self).written() == old(self).written() + r@,
            final(self).headed() == old(self).headed(),
            final(self).rows() == old(self).rows(),
    {
        let r = self.unwritten.clone();
        self.unwritten = String::new();
        self.written = Ghost(self.written@ + r@);
        assert(self.written() + self.unwritten() =~= old(self).written() + old(self).unwritten());
        r
    }
}

// ---------------------------------------------------------------------------
// Reading logs
// ---------------------------------------------------------------------------

/// The fields of one row, separated by commas.
pub open spec fn csv_line(fields: Seq<Seq<char>>) -> Seq<char>
    decreases fields.len(),
{
    if fields.len() == 0 {
        Seq::empty()
    } else if fields.len() == 1 {
        escaped(fields[0])
    } else {
        csv_line(fields.drop_last()) + seq![','] + escaped(fields.last())
    }
}

pub open spec fn csv_text(table: Seq<Seq<Seq<char>>>) -> Seq<char>
    decreases table.len(),
{
    if table.len() == 0 {
        Seq::empty()
    } else {
        csv_text(table.drop_last()) + csv_line(table.last()) + seq!['\n']
    }
}

/// A field that means the same to every reader of CSV: one with a carriage
/// return is quoted for another reason.
pub open spec fn readable(field: Seq<char>) -> bool {
    field.contains('\r') ==> needs_quotes(field)
}

/// Rows of one length, which is at least two, with fields that can be read back.
pub open spec fn is_table(table: Seq<Seq<Seq<char>>>) -> bool {
    &&& table.len() > 0
    &&& table[0].len() >= 2
    &&& forall|i: int| 0 <= i < table.len() ==> (#[trigger] table[i]).len() == table[0].len()
    &&& forall|i: int, k: int|
        0 <= i < table.len() && 0 <= k < table[i].len() ==> readable(#[trigger] table[i][k])
}

pub open spec fn fields_view(row: Vec<String>) -> Seq<Seq<char>> {
    Seq::new(row@.len(), |i: int| row@[i]@)
}

pub open spec fn table_view(rows: Seq<Vec<String>>) -> Seq<Seq<Seq<char>>> {
    Seq::new(rows.len(), |i: int| fields_view(rows[i]))
}

/// The rows that the `csv` crate reads from `data` below its first row or, where
/// it finds an error, what that error says.
pub uninterp spec fn csv_records(data: Seq<u8>) -> Result<Seq<Seq<Seq<char>>>, Seq<char>>;

/// Calls `csv::Reader::from_reader` and `csv::Reader::records`, with the settings
/// that `csv` has by default, and takes the text of the error where there is one.
/// Believed of it: what is read, and the text of the error, depend on the data
/// alone; and from a table in UTF-8, each row closed by a line feed and each
/// field quoted where it needs to be, with or without a byte order mark in
/// front, it reads the rows of the table but for the first, which it takes for
/// the names of the columns. What it reads from data of another form has a name
/// and is not described further.
#[verifier::external_body]
fn read_csv(data: &[u8]) -> (r: Result<Vec<Vec<String>>, String>)
    ensures
        match r {
            Ok(rows) => csv_records(data@) == Ok::<Seq<Seq<Seq<char>>>, Seq<char>>(
                table_view(rows@),
            ),
            Err(text) => csv_records(data@) == Err::<Seq<Seq<Seq<char>>>, Seq<char>>(text@),
        },
        forall|table: Seq<Seq<Seq<char>>>|
            is_table(table) && (data@ == encode_utf8(#[trigger] csv_text(table)) || data@
                == encode_utf8(seq!['\u{feff}'] + csv_text(table))) ==> r is Ok && table_view(
                r->Ok_0@,
            ) == table.skip(1),
{
    csv::Reader::from_reader(data)
        .records()
        .map(|record| record.map(|fields| fields.iter().map(String::from).collect()))
        .collect::<Result<Vec<Vec<String>>, csv::Error>>()
        .map_err(|e| e.to_string())
}

// ---------------------------------------------------------------------------
// What to undo
// ---------------------------------------------------------------------------

/// A rename: from the old path to the new one.
#[derive(Debug)]
pub struct UndoPair {
    pub old: String,
    pub new: String,
}

#[verifier::ext_equal]
pub struct PairView {
    pub old: Seq<char>,
    pub new: Seq<char>,
}

impl View for UndoPair {
    type V = PairView;

    open spec fn view(&self) -> PairView {
        PairView { old: self.old@, new: self.new@ }
    }
}

pub open spec fn pair_views(v: Seq<UndoPair>) -> Seq<PairView> {
    Seq::new(v.len(), |i: int| v[i]@)
}

/// The row at `i` is about a rename: it has all columns and both paths.
pub open spec fn about_rename(rows: Seq<Seq<Seq<char>>>, i: int) -> bool {
    rows[i].len() >= 6 && rows[i][3].len() > 0 && rows[i][4].len() > 0
}

pub open spec fn pair_at(rows: Seq<Seq<Seq<char>>>, i: int) -> PairView {
    PairView { old: rows[i][3], new: rows[i][4] }
}

/// Some row says how the rename of the row at `i` ended.
pub open spec fn concluded(rows: Seq<Seq<Seq<char>>>, i: int) -> bool {
    exists|k: int|
        0 <= k < rows.len() && #[trigger] about_rename(rows, k) && pair_at(rows, k) == pair_at(
            rows,
            i,
        ) && (rows[k][1] == "renamed"@ || rows[k][1] == "error"@)
}

/// The row at `i` speaks of a rename that was done, or that was announced and of
/// whose end nothing is known.
pub open spec fn calls_for_undo(rows: Seq<Seq<Seq<char>>>, i: int) -> bool {
    about_rename(rows, i) && (rows[i][1] == "renamed"@ || (rows[i][1] == "pending"@ && !concluded(
        rows,
        i,
    )))
}

/// The row at `i` is the first that calls for the undoing of its rename.
pub open spec fn first_call(rows: Seq<Seq<Seq<char>>>, i: int) -> bool {
    calls_for_undo(rows, i) && forall|k: int|
        0 <= k < i && #[trigger] calls_for_undo(rows, k) ==> pair_at(rows, k) != pair_at(rows, i)
}

/// The renames to undo, by the first `n` rows.
pub open spec fn undo_pairs(rows: Seq<Seq<Seq<char>>>, n: int) -> Seq<PairView>
    decreases n,
{
    if n <= 0 {
        Seq::empty()
    } else if first_call(rows, n - 1) {
        undo_pairs(rows, n - 1).push(pair_at(rows, n - 1))
    } else {
        undo_pairs(rows, n - 1)
    }
}

/// Whether a row has all columns and both paths.
fn complete(row: &Vec<String>) -> (r: bool)
    ensures
        r == (fields_view(*row).len() >= 6 && fields_view(*row)[3].len() > 0 && fields_view(
            *row,
        )[4].len() > 0),
{
    if row.len() < 6 {
        return false;
    }
    proof {
        reveal_strlit("");
        assert(fields_view(*row)[3] == row@[3]@);
        assert(fields_view(*row)[4] == row@[4]@);
        assert(row@[3]@.len() == 0 ==> row@[3]@ =~= ""@);
        assert(row@[4]@.len() == 0 ==> row@[4]@ =~= ""@);
    }
    !same_text(row[3].as_str(), "") && !same_text(row[4].as_str(), "")
}

/// The key under which a row is found again by its old path.
spec fn old_key(rows: Seq<Seq<Seq<char>>>, i: int) -> Seq<u8> {
    if about_rename(rows, i) {
        encode_utf8(rows[i][3])
    } else {
        Seq::empty()
    }
}

/// The renames that a log calls to undo, in the order of the log and each once.
pub fn renames_to_undo(rows: &Vec<Vec<String>>) -> (r: Vec<UndoPair>)
    ensures
        pair_views(r@) == undo_pairs(table_view(rows@), rows@.len() as int),
{
    let ghost table = table_view(rows@);
    let n = rows.len();
    let mut olds = Grouping::new();
    let mut i: usize = 0;
    while i < n
        invariant
            n == rows@.len(),
            table == table_view(rows@),
            i <= n,
            olds.wf(),
            olds@.len() == i,
            forall|k: int| 0 <= k < i ==> #[trigger] olds@[k] == old_key(table, k),
        decreases n - i,
    {
        let row = &rows[i];
        assert(table[i as int] == fields_view(*row));
        if complete(row) {
            assert(table[i as int][3] == row@[3]@);
            olds.push(row[3].as_str().as_bytes());
        } else {
            let none: Vec<u8> = Vec::new();
            olds.push(none.as_slice());
        }
        i += 1;
    }
    let mut calls: Vec<bool> = Vec::new();
    let mut out: Vec<UndoPair> = Vec::new();
    i = 0;
    assert(pair_views(out@) =~= Seq::<PairView>::empty());
    while i < n
        invariant
            n == rows@.len(),
            table == table_view(rows@),
            olds.wf(),
            olds@.len() == n,
            forall|k: int| 0 <= k < n ==> #[trigger] olds@[k] == old_key(table, k),
            i <= n,
            calls@.len() == i,
            forall|k: int| 0 <= k < i ==> #[trigger] calls@[k] == calls_for_undo(table, k),
            pair_views(out@) == undo_pairs(table, i as int),
        decreases n - i,
    {
        let row = &rows[i];
        assert(table[i as int] == fields_view(*row));
        if !complete(row) {
            calls.push(false);
        } else {
            assert(table[i as int][3] == row@[3]@);
            assert(table[i as int][4] == row@[4]@);
            assert(table[i as int][1] == row@[1]@);
            let ghost key = encode_utf8(table[i as int][3]);
            let at = olds.positions(row[3].as_str().as_bytes());
            proof {
                lemma_positions(olds@, key);
            }
            let mut ended = false;
            let mut earlier = false;
            let mut m: usize = 0;
            while m < at.len()
                invariant
                    n == rows@.len(),
                    table == table_view(rows@),
                    i < n,
                    row == rows@[i as int],
                    row@.len() >= 6,
                    table[i as int] == fields_view(*row),
                    olds@.len() == n,
                    forall|k: int| 0 <= k < n ==> #[trigger] olds@[k] == old_key(table, k),
                    forall|k: int| 0 <= k < at@.len() ==> (#[trigger] at@[k]) < n,
                    calls@.len() == i,
                    forall|k: int| 0 <= k < i ==> #[trigger] calls@[k] == calls_for_undo(table, k),
                    m <= at@.len(),
                    ended <==> exists|k: int|
                        0 <= k < m && #[trigger] about_rename(table, at@[k] as int) && pair_at(
                            table,
                            at@[k] as int,
                        ) == pair_at(table, i as int) && (table[at@[k] as int][1] == "renamed"@
                            || table[at@[k] as int][1] == "error"@),
                    earlier <==> exists|k: int|
                        0 <= k < m && at@[k] < i && #[trigger] calls_for_undo(table, at@[k] as int)
                            && pair_at(table, at@[k] as int) == pair_at(table, i as int),
                decreases at@.len() - m,
            {
                let k = at[m];
                let other = &rows[k];
                assert(table[k as int] == fields_view(*other));
                let ghost ended0 = ended;
                let ghost earlier0 = earlier;
                if complete(other) {
                    proof {
                        assert(table[k as int][3] == other@[3]@);
                        assert(table[k as int][4] == other@[4]@);
                        assert(table[k as int][1] == other@[1]@);
                        assert(table[i as int][3] == row@[3]@);
                        assert(table[i as int][4] == row@[4]@);
                    }
                    if same_text(other[3].as_str(), row[3].as_str()) && same_text(
                        other[4].as_str(),
                        row[4].as_str(),
                    ) {
                        assert(pair_at(table, k as int) == pair_at(table, i as int));
                        if same_text(other[1].as_str(), "renamed") || same_text(
                            other[1].as_str(),
                            "error",
                        ) {
                            ended = true;
                            assert(about_rename(table, at@[m as int] as int));
                        }
                        if k < i && calls[k] {
                            earlier = true;
                            assert(calls_for_undo(table, at@[m as int] as int));
                        }
                    } else {
                        assert(pair_at(table, k as int) != pair_at(table, i as int));
                    }
                }
                m += 1;
            }
            let status = row[1].as_str();
            let call = same_text(status, "renamed") || (same_text(status, "pending") && !ended);
            proof {
                if concluded(table, i as int) {
                    let k = choose|k: int|
                        0 <= k < table.len() && #[trigger] about_rename(table, k) && pair_at(
                            table,
                            k,
                        ) == pair_at(table, i as int) && (table[k][1] == "renamed"@ || table[k][1]
                            == "error"@);
                    assert(olds@[k] == key);
                    assert(k < n && (k as usize) as int == k);
                    assert(at@.contains(k as usize));
                    let c = choose|c: int| 0 <= c < at@.len() && at@[c] == k as usize;
                    assert(about_rename(table, at@[c] as int));
                }
                if ended {
                    let c = choose|c: int|
                        0 <= c < at@.len() && #[trigger] about_rename(table, at@[c] as int)
                            && pair_at(table, at@[c] as int) == pair_at(table, i as int) && (
                        table[at@[c] as int][1] == "renamed"@ || table[at@[c] as int][1]
                            == "error"@);
                    assert(about_rename(table, at@[c] as int));
                }
                assert(ended == concluded(table, i as int));
                assert(call == calls_for_undo(table, i as int));
                if call && earlier {
                    let c = choose|c: int|
                        0 <= c < at@.len() && at@[c] < i && #[trigger] calls_for_undo(
                            table,
                            at@[c] as int,
                        ) && pair_at(table, at@[c] as int) == pair_at(table, i as int);
                    assert(calls_for_undo(table, at@[c] as int));
                    assert(!first_call(table, i as int));
                }
                if call && !first_call(table, i as int) {
                    let k = choose|k: int|
                        0 <= k < i && #[trigger] calls_for_undo(table, k) && pair_at(table, k)
                            == pair_at(table, i as int);
                    assert(olds@[k] == key);
                    assert(k < n && (k as usize) as int == k);
                    assert(at@.contains(k as usize));
                    let c = choose|c: int| 0 <= c < at@.len() && at@[c] == k as usize;
                    assert(calls_for_undo(table, at@[c] as int));
                }
            }
            if call && !earlier {
                let ghost before = pair_views(out@);
                out.push(UndoPair { old: row[3].clone(), new: row[4].clone() });
                assert(pair_views(out@) =~= before.push(pair_at(table, i as int)));
            }
            calls.push(call);
        }
        i += 1;
    }
    out
}

/// The renames that the log with this content calls to undo. Where the `csv`
/// crate finds an error in the log, what that error says comes back.
pub fn read_undo_pairs(data: &[u8]) -> (r: Result<Vec<UndoPair>, Failure>)
    ensures
        match csv_records(data@) {
            Ok(rows) => r matches Ok(pairs) && pair_views(pairs@) == undo_pairs(
                rows,
                rows.len() as int,
            ),
            Err(text) => r matches Err(e) && e is MalformedLog && message(e) == text,
        },
        forall|table: Seq<Seq<Seq<char>>>|
            is_table(table) && (data@ == encode_utf8(#[trigger] csv_text(table)) || data@
                == encode_utf8(seq!['\u{feff}'] + csv_text(table))) ==> r is Ok && pair_views(
                r->Ok_0@,
            ) == undo_pairs(table.skip(1), table.len() - 1),
{
    match read_csv(data) {
        Ok(rows) => {
            assert(table_view(rows@).len() == rows@.len());
            Ok(renames_to_undo(&rows))
        },
        Err(text) => Err(Failure::MalformedLog(text)),
    }
}

} // verus!
