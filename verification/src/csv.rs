//! The price file format: UTF-8 text of `date,price` lines under a one-line
//! header.
//!
//! Lines are separated by `'\n'`; a final line ending is optional. The first
//! line is a header and is skipped, as is every line that is empty once
//! white space is trimmed. Each other line is split at `','`: its first
//! field, trimmed, is the date and its second field, trimmed, is the price
//! text; any further fields are ignored. A line without a second field has no
//! price, and reading stops at the first such line.
//!
//! A `'\r'` before a line ending, like any white space around a field, is
//! removed by the trimming.

use vstd::prelude::*;

verus! {

/// Whether `c` has the Unicode `White_Space` property: the code points
/// U+0009 to U+000D, U+0020, U+0085, U+00A0, U+1680, U+2000 to U+200A,
/// U+2028, U+2029, U+202F, U+205F and U+3000. This is the set that
/// `char::is_whitespace` and `str::trim` go by.
pub open spec fn is_white_space(c: char) -> bool {
    let n = c as u32;
    ||| 0x9 <= n <= 0xd
    ||| n == 0x20
    ||| n == 0x85
    ||| n == 0xa0
    ||| n == 0x1680
    ||| 0x2000 <= n <= 0x200a
    ||| n == 0x2028
    ||| n == 0x2029
    ||| n == 0x202f
    ||| n == 0x205f
    ||| n == 0x3000
}

/// Whether `c` is white space.
pub fn char_is_white_space(c: char) -> (ws: bool)
    ensures
        ws == is_white_space(c),
{
    let n = c as u32;
    (0x9 <= n && n <= 0xd) || n == 0x20 || n == 0x85 || n == 0xa0 || n == 0x1680 || (0x2000
        <= n && n <= 0x200a) || n == 0x2028 || n == 0x2029 || n == 0x202f || n == 0x205f || n
        == 0x3000
}

/// The characters of `text`, in order.
fn chars_of(text: &str) -> (chars: Vec<char>)
    ensures
        chars@ == text@,
{
    let mut chars: Vec<char> = Vec::new();
    for c in it: text.chars()
        invariant
            it.seq() == text@,
            chars@ == it.seq().take(it.index() as int),
    {
        chars.push(c);
    }
    chars
}

/// The pieces of `s` between occurrences of `sep`, as `str::split` yields
/// them: one more piece than there are separators, some possibly empty.
pub open spec fn split_at_char(s: Seq<char>, sep: char) -> Seq<Seq<char>>
    decreases s.len(),
{
    if s.len() == 0 {
        seq![Seq::empty()]
    } else {
        let init = split_at_char(s.drop_last(), sep);
        if s.last() == sep {
            init.push(Seq::empty())
        } else {
            init.update(init.len() - 1, init.last().push(s.last()))
        }
    }
}

/// Splitting always yields at least one piece.
pub proof fn lemma_split_nonempty(s: Seq<char>, sep: char)
    ensures
        split_at_char(s, sep).len() >= 1,
    decreases s.len(),
{
    if s.len() > 0 {
        lemma_split_nonempty(s.drop_last(), sep);
    }
}

/// The character sequences held by a sequence of character vectors.
pub open spec fn char_views(v: Seq<Vec<char>>) -> Seq<Seq<char>> {
    v.map_values(|p: Vec<char>| p@)
}

/// The pieces of `s` between occurrences of `sep`.
fn split_chars(s: &[char], sep: char) -> (pieces: Vec<Vec<char>>)
    ensures
        char_views(pieces@) == split_at_char(s@, sep),
{
    let mut pieces: Vec<Vec<char>> = Vec::new();
    let mut current: Vec<char> = Vec::new();
    let mut i: usize = 0;
    while i < s.len()
        invariant
            i <= s@.len(),
            char_views(pieces@).push(current@) == split_at_char(s@.take(i as int), sep),
        decreases s@.len() - i,
    {
        let ghost prefix = s@.take(i as int);
        assert(s@.take((i + 1) as int).drop_last() =~= prefix);
        proof {
            lemma_split_nonempty(prefix, sep);
        }
        let c = s[i];
        let ghost before = char_views(pieces@);
        if c == sep {
            let mut done: Vec<char> = Vec::new();
            std::mem::swap(&mut done, &mut current);
            pieces.push(done);
            assert(char_views(pieces@) =~= before.push(done@));
        } else {
            current.push(c);
        }
        assert(char_views(pieces@).push(current@) =~= split_at_char(s@.take((i + 1) as int), sep));
        i = i + 1;
    }
    assert(s@.take(s@.len() as int) =~= s@);
    let ghost before = char_views(pieces@);
    pieces.push(current);
    assert(char_views(pieces@) =~= before.push(current@));
    pieces
}


/// `s` without its leading white space.
pub open spec fn trim_start(s: Seq<char>) -> Seq<char>
    decreases s.len(),
{
    if s.len() > 0 && is_white_space(s[0]) {
        trim_start(s.drop_first())
    } else {
        s
    }
}

/// `s` without its trailing white space.
pub open spec fn trim_end(s: Seq<char>) -> Seq<char>
    decreases s.len(),
{
    if s.len() > 0 && is_white_space(s.last()) {
        trim_end(s.drop_last())
    } else {
        s
    }
}

/// `s` without leading or trailing white space, as `str::trim` gives it.
pub open spec fn trim(s: Seq<char>) -> Seq<char> {
    trim_end(trim_start(s))
}

/// The characters of `s` without leading or trailing white space.
fn trim_chars(s: &[char]) -> (t: Vec<char>)
    ensures
        t@ == trim(s@),
{
    let len = s.len();
    let mut a: usize = 0;
    assert(s@.subrange(0, len as int) =~= s@);
    while a < len && char_is_white_space(s[a])
        invariant
            len == s@.len(),
            a <= len,
            trim_start(s@) == trim_start(s@.subrange(a as int, len as int)),
        decreases len - a,
    {
        assert(s@.subrange(a as int, len as int).drop_first() =~= s@.subrange(
            (a + 1) as int,
            len as int,
        ));
        a = a + 1;
    }
    let ghost rest = s@.subrange(a as int, len as int);
    assert(trim_start(s@) == rest);
    let mut b: usize = len;
    while b > a && char_is_white_space(s[b - 1])
        invariant
            len == s@.len(),
            a <= b <= len,
            rest == s@.subrange(a as int, len as int),
            trim_end(rest) == trim_end(s@.subrange(a as int, b as int)),
        decreases b - a,
    {
        assert(s@.subrange(a as int, b as int).drop_last() =~= s@.subrange(
            a as int,
            (b - 1) as int,
        ));
        b = b - 1;
    }
    let mut t: Vec<char> = Vec::new();
    let mut k: usize = a;
    while k < b
        invariant
            len == s@.len(),
            a <= k <= b <= len,
            t@ == s@.subrange(a as int, k as int),
        decreases b - k,
    {
        t.push(s[k]);
        assert(t@ =~= s@.subrange(a as int, (k + 1) as int));
        k = k + 1;
    }
    t
}


/// The lines of `text`: the pieces between `'\n'` characters, without the
/// empty piece after a final `'\n'` (and none at all for empty text).
/// `str::lines` also drops a `'\r'` just before each `'\n'`; here it stays
/// in the line, and the trimming of every field that is read removes it.
pub open spec fn text_lines(text: Seq<char>) -> Seq<Seq<char>> {
    let pieces = split_at_char(text, '\n');
    if pieces.last().len() == 0 {
        pieces.drop_last()
    } else {
        pieces
    }
}

/// Line `i` (counted from 0) holds data: it is not the header and not blank.
pub open spec fn is_data_line(lines: Seq<Seq<char>>, i: int) -> bool {
    i > 0 && trim(lines[i]).len() > 0
}

/// Line `i` holds data but has no price field.
pub open spec fn lacks_price(lines: Seq<Seq<char>>, i: int) -> bool {
    is_data_line(lines, i) && split_at_char(lines[i], ',').len() < 2
}

/// The record read from data line `i`: its 1-based line number, its trimmed
/// first field (the date) and its trimmed second field (the price text).
pub open spec fn row_of(lines: Seq<Seq<char>>, i: int) -> (nat, Seq<char>, Seq<char>) {
    let fields = split_at_char(lines[i], ',');
    ((i + 1) as nat, trim(fields[0]), trim(fields[1]))
}

/// The records of the data lines among the first `k` lines, in file order.
pub open spec fn rows_before(lines: Seq<Seq<char>>, k: int) -> Seq<(nat, Seq<char>, Seq<char>)>
    decreases k,
{
    if k <= 0 {
        seq![]
    } else if is_data_line(lines, k - 1) {
        rows_before(lines, k - 1).push(row_of(lines, k - 1))
    } else {
        rows_before(lines, k - 1)
    }
}

/// One record of the price file.
#[derive(Debug, PartialEq, Eq)]
pub struct PriceRow {
    /// 1-based number of the line it was read from.
    pub line: usize,
    /// The date field, trimmed.
    pub date: Vec<char>,
    /// The price field, trimmed, still as text.
    pub price: Vec<char>,
}

impl PriceRow {
    /// The row as its line number, date and price text.
    pub open spec fn view_row(&self) -> (nat, Seq<char>, Seq<char>) {
        (self.line as nat, self.date@, self.price@)
    }
}

/// The records of a price file, read up to its first line without a price.
#[derive(Debug, PartialEq, Eq)]
pub struct PriceTable {
    /// The records before the first line without a price, in file order.
    pub rows: Vec<PriceRow>,
    /// The 1-based number of the first data line without a price field.
    pub missing_price_line: Option<usize>,
}

/// The rows as line numbers, dates and price texts.
pub open spec fn rows_view(rows: Seq<PriceRow>) -> Seq<(nat, Seq<char>, Seq<char>)> {
    rows.map_values(|r: PriceRow| r.view_row())
}

/// `table` is what reading `text` gives: the records of all data lines
/// before the first one that lacks a price, and that line's number if any.
pub open spec fn reads_as(text: Seq<char>, table: PriceTable) -> bool {
    let lines = text_lines(text);
    match table.missing_price_line {
        Some(m) => {
            &&& 1 <= m <= lines.len()
            &&& lacks_price(lines, m - 1)
            &&& forall|i: int| 0 <= i < m - 1 ==> !#[trigger] lacks_price(lines, i)
            &&& rows_view(table.rows@) == rows_before(lines, m - 1)
        },
        None => {
            &&& forall|i: int| 0 <= i < lines.len() ==> !#[trigger] lacks_price(lines, i)
            &&& rows_view(table.rows@) == rows_before(lines, lines.len() as int)
        },
    }
}

/// The lines of `text`.
fn split_lines(text: &str) -> (lines: Vec<Vec<char>>)
    ensures
        char_views(lines@) == text_lines(text@),
{
    let chars = chars_of(text);
    let mut lines = split_chars(chars.as_slice(), '\n');
    proof {
        lemma_split_nonempty(text@, '\n');
    }
    let last = lines.len() - 1;
    if lines[last].len() == 0 {
        let ghost before = char_views(lines@);
        lines.pop();
        assert(char_views(lines@) =~= before.drop_last());
    }
    lines
}

/// Reads the records of a `date,price` price file (see the module
/// documentation for the format).
pub fn parse_price_table(text: &str) -> (table: PriceTable)
    ensures
        reads_as(text@, table),
{
    let lines = split_lines(text);
    let ghost lv = text_lines(text@);
    let mut rows: Vec<PriceRow> = Vec::new();
    let mut i: usize = 0;
    while i < lines.len()
        invariant
            char_views(lines@) == lv,
            lv == text_lines(text@),
            i <= lines@.len(),
            forall|k: int| 0 <= k < i ==> !#[trigger] lacks_price(lv, k),
            rows_view(rows@) == rows_before(lv, i as int),
        decreases lines@.len() - i,
    {
        assert(lines@[i as int]@ == lv[i as int]);
        let ghost before = rows_view(rows@);
        if i > 0 {
            let trimmed = trim_chars(lines[i].as_slice());
            if trimmed.len() > 0 {
                let fields = split_chars(lines[i].as_slice(), ',');
                if fields.len() < 2 {
                    return PriceTable { rows, missing_price_line: Some(i + 1) };
                }
                assert(fields@[0]@ == char_views(fields@)[0]);
                assert(fields@[1]@ == char_views(fields@)[1]);
                let date = trim_chars(fields[0].as_slice());
                let price = trim_chars(fields[1].as_slice());
                rows.push(PriceRow { line: i + 1, date, price });
                assert(rows_view(rows@) =~= before.push(row_of(lv, i as int)));
            }
        }
        i = i + 1;
    }
    PriceTable { rows, missing_price_line: None }
}


/// Why a price file cannot be used.
#[derive(Debug, PartialEq, Eq, Structural)]
pub enum ReadError {
    /// The price text of the record from this (1-based) line is not a number.
    BadPrice { line: usize },
    /// A data line has no price field.
    MissingPrice,
}

/// The error, if any, of reading `table` when `price_parsed[i]` tells whether
/// the price text of `rows[i]` parsed as a number: records are taken in file
/// order, so the first unparsable price wins over a later line without a
/// price.
pub fn first_read_error(table: &PriceTable, price_parsed: &[bool]) -> (err: Option<ReadError>)
    requires
        price_parsed@.len() == table.rows@.len(),
    ensures
        match err {
            Some(ReadError::BadPrice { line }) => exists|i: int|
                0 <= i < price_parsed@.len() && !price_parsed@[i] && (forall|k: int|
                    0 <= k < i ==> #[trigger] price_parsed@[k]) && line == table.rows@[i].line,
            Some(ReadError::MissingPrice) => (forall|i: int|
                0 <= i < price_parsed@.len() ==> #[trigger] price_parsed@[i])
                && table.missing_price_line is Some,
            None => (forall|i: int| 0 <= i < price_parsed@.len() ==> #[trigger] price_parsed@[i])
                && table.missing_price_line is None,
        },
{
    let mut i: usize = 0;
    while i < price_parsed.len()
        invariant
            i <= price_parsed@.len(),
            price_parsed@.len() == table.rows@.len(),
            forall|k: int| 0 <= k < i ==> #[trigger] price_parsed@[k],
        decreases price_parsed@.len() - i,
    {
        if !price_parsed[i] {
            return Some(ReadError::BadPrice { line: table.rows[i].line });
        }
        i = i + 1;
    }
    match table.missing_price_line {
        Some(_) => Some(ReadError::MissingPrice),
        None => None,
    }
}

/// The header is never read as a record, and records come in file order:
/// their line numbers are at least 2, at most the number of lines read, and
/// strictly increasing.
pub proof fn lemma_rows_in_file_order(lines: Seq<Seq<char>>, k: int)
    ensures
        forall|a: int|
            0 <= a < rows_before(lines, k).len() ==> 2 <= (#[trigger] rows_before(lines, k)[a]).0
                <= k,
        forall|a: int, b: int|
            0 <= a < b < rows_before(lines, k).len() ==> (#[trigger] rows_before(lines, k)[a]).0
                < (#[trigger] rows_before(lines, k)[b]).0,
    decreases k,
{
    if k > 0 {
        lemma_rows_in_file_order(lines, k - 1);
        let prev = rows_before(lines, k - 1);
        let rows = rows_before(lines, k);
        assert forall|a: int| 0 <= a < prev.len() implies rows[a] == prev[a] by {
            if is_data_line(lines, k - 1) {
                assert(rows == prev.push(row_of(lines, k - 1)));
            }
        }
        if is_data_line(lines, k - 1) {
            assert(rows[prev.len() as int].0 == k);
        }
    }
}

proof fn lemma_trim_start_suffix(s: Seq<char>)
    ensures
        trim_start(s).len() <= s.len(),
        trim_start(s) == s.subrange(s.len() - trim_start(s).len(), s.len() as int),
        trim_start(s).len() > 0 ==> !is_white_space(trim_start(s)[0]),
        forall|k: int| 0 <= k < s.len() - trim_start(s).len() ==> is_white_space(#[trigger] s[k]),
    decreases s.len(),
{
    if s.len() > 0 && is_white_space(s[0]) {
        lemma_trim_start_suffix(s.drop_first());
        assert forall|k: int| 0 <= k < s.len() - trim_start(s).len() implies is_white_space(
            #[trigger] s[k],
        ) by {
            if k > 0 {
                assert(s[k] == s.drop_first()[k - 1]);
            }
        }
        assert(s.drop_first().subrange(
            s.drop_first().len() - trim_start(s).len(),
            s.drop_first().len() as int,
        ) =~= s.subrange(s.len() - trim_start(s).len(), s.len() as int));
    } else {
        assert(s.subrange(0, s.len() as int) =~= s);
    }
}

proof fn lemma_trim_end_prefix(s: Seq<char>)
    ensures
        trim_end(s).len() <= s.len(),
        trim_end(s) == s.subrange(0, trim_end(s).len() as int),
        trim_end(s).len() > 0 ==> !is_white_space(trim_end(s).last()),
        forall|k: int| trim_end(s).len() <= k < s.len() ==> is_white_space(#[trigger] s[k]),
    decreases s.len(),
{
    if s.len() > 0 && is_white_space(s.last()) {
        lemma_trim_end_prefix(s.drop_last());
        assert forall|k: int| trim_end(s).len() <= k < s.len() implies is_white_space(
            #[trigger] s[k],
        ) by {
            if k < s.len() - 1 {
                assert(s[k] == s.drop_last()[k]);
            }
        }
        assert(s.drop_last().subrange(0, trim_end(s).len() as int) =~= s.subrange(
            0,
            trim_end(s).len() as int,
        ));
    } else {
        assert(s.subrange(0, s.len() as int) =~= s);
    }
}

/// `t` is `field` with white space removed at its ends and nowhere else: a
/// contiguous piece of `field`, all of `field` around it white space, and
/// itself neither starting nor ending with white space.
pub open spec fn is_trimmed_piece(field: Seq<char>, t: Seq<char>) -> bool {
    exists|a: int, b: int|
        0 <= a <= b <= field.len() && t == #[trigger] field.subrange(a, b) && (forall|k: int|
            0 <= k < a ==> is_white_space(#[trigger] field[k])) && (forall|k: int|
            b <= k < field.len() ==> is_white_space(#[trigger] field[k])) && (t.len() > 0
            ==> !is_white_space(t[0]) && !is_white_space(t.last()))
}

/// Trimming removes white space at the ends of a field and nothing else.
pub proof fn lemma_trim_removes_only_end_white_space(s: Seq<char>)
    ensures
        is_trimmed_piece(s, trim(s)),
{
    lemma_trim_start_suffix(s);
    let ts = trim_start(s);
    lemma_trim_end_prefix(ts);
    let t = trim(s);
    let a = s.len() - ts.len();
    let b = a + t.len();
    assert(t =~= s.subrange(a, b));
    assert forall|k: int| b <= k < s.len() implies is_white_space(#[trigger] s[k]) by {
        assert(s[k] == ts[k - a]);
    }
    if t.len() > 0 {
        assert(t[0] == ts[0]);
    }
}

/// A trimmed field neither starts nor ends with white space.
pub proof fn lemma_trim_bare(s: Seq<char>)
    ensures
        trim(s).len() > 0 ==> !is_white_space(trim(s)[0]) && !is_white_space(trim(s).last()),
{
    lemma_trim_start_suffix(s);
    lemma_trim_end_prefix(trim_start(s));
    let t = trim(s);
    if t.len() > 0 {
        assert(t[0] == trim_start(s)[0]);
    }
}

/// Trimming is idempotent: a field read from the file is unchanged by
/// trimming it again.
pub proof fn lemma_trim_idempotent(s: Seq<char>)
    ensures
        trim(trim(s)) == trim(s),
{
    lemma_trim_bare(s);
    let t = trim(s);
    assert(trim_start(t) == t);
    assert(trim_end(t) == t);
}

/// A final line ending does not change what is read: text that is not
/// empty and does not already end in `'\n'` reads the same with one added.
pub proof fn lemma_final_newline_optional(text: Seq<char>)
    requires
        text.len() > 0,
        text.last() != '\n',
    ensures
        text_lines(text.push('\n')) == text_lines(text),
{
    let pieces = split_at_char(text, '\n');
    lemma_split_nonempty(text.drop_last(), '\n');
    assert(text.push('\n').drop_last() =~= text);
    assert(pieces.last().len() > 0);
    assert(split_at_char(text.push('\n'), '\n') == pieces.push(Seq::empty()));
    assert(pieces.push(Seq::<char>::empty()).drop_last() =~= pieces);
}


/// `pieces` joined with `sep` between each two of them.
pub open spec fn join_with(pieces: Seq<Seq<char>>, sep: char) -> Seq<char>
    decreases pieces.len(),
{
    if pieces.len() == 0 {
        Seq::empty()
    } else if pieces.len() == 1 {
        pieces[0]
    } else {
        join_with(pieces.drop_last(), sep).push(sep) + pieces.last()
    }
}

/// Splitting loses and adds nothing: no piece holds the separator, and the
/// pieces joined with it give back the text.
pub proof fn lemma_split_rejoins(s: Seq<char>, sep: char)
    ensures
        join_with(split_at_char(s, sep), sep) == s,
        forall|i: int, k: int|
            0 <= i < split_at_char(s, sep).len() && 0 <= k < split_at_char(s, sep)[i].len()
                ==> #[trigger] split_at_char(s, sep)[i][k] != sep,
    decreases s.len(),
{
    if s.len() > 0 {
        let init = s.drop_last();
        lemma_split_rejoins(init, sep);
        lemma_split_nonempty(init, sep);
        let p = split_at_char(init, sep);
        let q = split_at_char(s, sep);
        if s.last() == sep {
            assert(q == p.push(Seq::empty()));
            assert(q.drop_last() =~= p);
            assert(join_with(q, sep) =~= init.push(sep));
            assert(init.push(sep) =~= s);
            assert forall|i: int, k: int| 0 <= i < q.len() && 0 <= k < q[i].len() implies #[trigger] q[i][k]
                != sep by {
                assert(q[i] == p[i]);
            }
        } else {
            let n = p.len();
            assert(q == p.update(n - 1, p.last().push(s.last())));
            if n == 1 {
                assert(join_with(q, sep) =~= p.last().push(s.last()));
            } else {
                assert(q.drop_last() =~= p.drop_last());
                assert(join_with(q, sep) =~= join_with(p.drop_last(), sep).push(sep) + p.last().push(
                    s.last(),
                ));
            }
            assert(init.push(s.last()) =~= s);
            assert forall|i: int, k: int| 0 <= i < q.len() && 0 <= k < q[i].len() implies #[trigger] q[i][k]
                != sep by {
                if i < n - 1 {
                    assert(q[i] == p[i]);
                } else if k < p.last().len() {
                    assert(q[i][k] == p[n - 1][k]);
                }
            }
        }
    }
}

/// The lines are the text cut at its line endings: no line holds a `'\n'`,
/// and joined with `'\n'` they give back the text, less its final `'\n'`
/// if it has one.
pub proof fn lemma_lines_rejoin(text: Seq<char>)
    ensures
        forall|i: int, k: int|
            0 <= i < text_lines(text).len() && 0 <= k < text_lines(text)[i].len()
                ==> #[trigger] text_lines(text)[i][k] != '\n',
        text.len() > 0 && text.last() == '\n' ==> join_with(text_lines(text), '\n').push('\n')
            == text,
        !(text.len() > 0 && text.last() == '\n') ==> join_with(text_lines(text), '\n') == text,
{
    let p = split_at_char(text, '\n');
    lemma_split_rejoins(text, '\n');
    lemma_split_nonempty(text, '\n');
    let lines = text_lines(text);
    assert forall|i: int, k: int| 0 <= i < lines.len() && 0 <= k < lines[i].len() implies #[trigger] lines[i][k]
        != '\n' by {
        assert(lines[i] == p[i]);
    }
    if text.len() == 0 {
        assert(lines =~= Seq::<Seq<char>>::empty());
    } else {
        let init = text.drop_last();
        lemma_split_rejoins(init, '\n');
        lemma_split_nonempty(init, '\n');
        if text.last() == '\n' {
            assert(p == split_at_char(init, '\n').push(Seq::empty()));
            assert(lines =~= split_at_char(init, '\n'));
            assert(init.push('\n') =~= text);
        } else {
            let pi = split_at_char(init, '\n');
            assert(p == pi.update(pi.len() - 1, pi.last().push(text.last())));
            assert(p.last().len() > 0);
        }
    }
}


/// `line` holds a character that is not white space.
pub open spec fn has_content(line: Seq<char>) -> bool {
    exists|c: int| 0 <= c < line.len() && !is_white_space(#[trigger] line[c])
}

/// A line is blank after trimming exactly when it holds only white space.
proof fn lemma_blank_iff_no_content(line: Seq<char>)
    ensures
        trim(line).len() > 0 <==> has_content(line),
{
    lemma_trim_removes_only_end_white_space(line);
    let t = trim(line);
    let (a, b) = choose|a: int, b: int|
        0 <= a <= b <= line.len() && t == #[trigger] line.subrange(a, b) && (forall|k: int|
            0 <= k < a ==> is_white_space(#[trigger] line[k])) && (forall|k: int|
            b <= k < line.len() ==> is_white_space(#[trigger] line[k])) && (t.len() > 0
            ==> !is_white_space(t[0]) && !is_white_space(t.last()));
    if t.len() > 0 {
        assert(t[0] == line[a]);
    } else {
        assert forall|c: int| 0 <= c < line.len() implies is_white_space(#[trigger] line[c]) by {
            if c >= a {
                assert(c >= b);
            }
        }
    }
}

/// `row` was read from line `row.line` of `lines`: a line after the header
/// with some non-white-space character and at least two comma-separated
/// fields, whose first field with end white space removed is the date and
/// whose second is the price text.
pub open spec fn read_from_line(lines: Seq<Seq<char>>, row: PriceRow) -> bool {
    let line = lines[row.line - 1];
    let fields = split_at_char(line, ',');
    &&& 2 <= row.line <= lines.len()
    &&& has_content(line)
    &&& fields.len() >= 2
    &&& is_trimmed_piece(fields[0], row.date@)
    &&& is_trimmed_piece(fields[1], row.price@)
}

proof fn lemma_rows_before_members(lines: Seq<Seq<char>>, k: int)
    requires
        k <= lines.len(),
    ensures
        forall|a: int|
            0 <= a < rows_before(lines, k).len() ==> {
                let r = #[trigger] rows_before(lines, k)[a];
                &&& 2 <= r.0 <= k
                &&& is_data_line(lines, r.0 - 1)
                &&& r == row_of(lines, r.0 - 1)
            },
        forall|i: int|
            0 <= i < k && is_data_line(lines, i) ==> exists|a: int|
                0 <= a < rows_before(lines, k).len() && (#[trigger] rows_before(lines, k)[a]).0 == i
                    + 1,
    decreases k,
{
    if k > 0 {
        lemma_rows_before_members(lines, k - 1);
        let prev = rows_before(lines, k - 1);
        let rows = rows_before(lines, k);
        if is_data_line(lines, k - 1) {
            assert(rows == prev.push(row_of(lines, k - 1)));
            assert forall|a: int| 0 <= a < prev.len() implies rows[a] == prev[a] by {}
            assert(rows[prev.len() as int].0 == k);
            assert forall|i: int| 0 <= i < k && is_data_line(lines, i) implies exists|a: int|
                0 <= a < rows.len() && (#[trigger] rows[a]).0 == i + 1 by {
                if i < k - 1 {
                    let a = choose|a: int| 0 <= a < prev.len() && (#[trigger] prev[a]).0 == i + 1;
                    assert(rows[a] == prev[a]);
                } else {
                    assert(rows[prev.len() as int].0 == i + 1);
                }
            }
        }
    }
}

/// What reading a price file gives, stated on the text: every record comes
/// from a line after the header that holds more than white space, with its
/// date and price text that line's first two comma fields with end white
/// space removed; every such line before the one where reading stopped gives
/// a record; and the line where reading stopped holds more than white space
/// but no comma at all.
pub proof fn lemma_table_reads_fields(text: Seq<char>, table: PriceTable)
    requires
        reads_as(text, table),
    ensures
        forall|k: int|
            0 <= k < table.rows@.len() ==> read_from_line(text_lines(text), #[trigger] table.rows@[k]),
        forall|i: int|
            1 <= i < (match table.missing_price_line {
                Some(m) => m - 1,
                None => text_lines(text).len() as int,
            }) && has_content(text_lines(text)[i]) ==> exists|k: int|
                0 <= k < table.rows@.len() && (#[trigger] table.rows@[k]).line == i + 1,
        table.missing_price_line matches Some(m) ==> {
            &&& 2 <= m <= text_lines(text).len()
            &&& has_content(text_lines(text)[m - 1])
            &&& forall|c: int|
                0 <= c < text_lines(text)[m - 1].len() ==> #[trigger] text_lines(text)[m - 1][c]
                    != ','
        },
{
    let lines = text_lines(text);
    let cutoff = match table.missing_price_line {
        Some(m) => m - 1,
        None => lines.len() as int,
    };
    lemma_rows_before_members(lines, cutoff);
    let rv = rows_view(table.rows@);
    assert(rv == rows_before(lines, cutoff));
    assert forall|k: int| 0 <= k < table.rows@.len() implies read_from_line(
        lines,
        #[trigger] table.rows@[k],
    ) by {
        let r = table.rows@[k];
        assert(rv[k] == r.view_row());
        let rb = rows_before(lines, cutoff);
        assert(rb[k] == rv[k]);
        assert(2 <= rb[k].0 <= cutoff);
        assert(is_data_line(lines, r.line - 1));
        assert(!lacks_price(lines, r.line - 1));
        assert(rb[k] == row_of(lines, r.line - 1));
        let line = lines[r.line - 1];
        lemma_blank_iff_no_content(line);
        let fields = split_at_char(line, ',');
        lemma_trim_removes_only_end_white_space(fields[0]);
        lemma_trim_removes_only_end_white_space(fields[1]);
    }
    assert forall|i: int|
        1 <= i < cutoff && has_content(lines[i]) implies exists|k: int|
        0 <= k < table.rows@.len() && (#[trigger] table.rows@[k]).line == i + 1 by {
        lemma_blank_iff_no_content(lines[i]);
        assert(is_data_line(lines, i));
        let a = choose|a: int| 0 <= a < rv.len() && (#[trigger] rv[a]).0 == i + 1;
        assert(rv[a] == table.rows@[a].view_row());
    }
    if let Some(m) = table.missing_price_line {
        let line = lines[m - 1];
        lemma_blank_iff_no_content(line);
        lemma_split_rejoins(line, ',');
        lemma_split_nonempty(line, ',');
        assert(join_with(split_at_char(line, ','), ',') == split_at_char(line, ',')[0]);
        assert forall|c: int| 0 <= c < line.len() implies #[trigger] line[c] != ',' by {
            assert(line[c] == split_at_char(line, ',')[0][c]);
        }
    }
}

} // verus!
