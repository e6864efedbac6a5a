//! Layout of multi-line code blocks on the paper.
//!
//! A code block is printed inside a frame: a blank line of full width above
//! and below, every line of code indented by two spaces, and lines broken once
//! the running column reaches the usable width.

use vstd::prelude::*;
use vstd::utf8::*;
use crate::text::{chars_of, lemma_encode_utf8_push, push_spaces, spaces, string_from_chars};

verus! {

broadcast use vstd::utf8::group_utf8_lib;

/// Characters that fit on one printed line.
pub const CHARS_PER_LINE: u8 = 48;

/// Column at which a code line is broken (the line width less the frame).
pub open spec fn wrap_column() -> int {
    CHARS_PER_LINE - 4
}

/// Number of bytes in the UTF-8 encoding of `s`.
pub open spec fn utf8_len(s: Seq<char>) -> int {
    encode_utf8(s).len() as int
}

/// The lines of `s` split at every `'\n'`, as `str::split("\n")` gives them
/// (so there is one more line than there are newlines).
pub open spec fn lines_of(s: Seq<char>) -> Seq<Seq<char>>
    decreases s.len(),
{
    if s.len() == 0 {
        seq![Seq::empty()]
    } else {
        let prev = lines_of(s.drop_last());
        if s.last() == '\n' {
            prev.push(Seq::empty())
        } else {
            prev.update(prev.len() - 1, prev.last().push(s.last()))
        }
    }
}

/// State of the layout while a line is printed.
pub struct LineState {
    /// The running column, carried over from line to line.
    pub column: int,
    /// Characters of the current line printed so far.
    pub printed: int,
    /// Text produced for the current line so far.
    pub text: Seq<char>,
    /// The running column never went past what a byte can count.
    pub in_range: bool,
}

/// Text inserted where a code line is broken.
pub open spec fn line_break() -> Seq<char> {
    seq![' ', ' ', '\n', ' ', ' ']
}

/// Prints the characters of one line, starting at `column`.  A line is broken
/// after a character once the column reaches [`wrap_column`], unless the
/// number of characters printed has reached `byte_len` (the line's length in
/// bytes); the column then starts again at zero.
pub open spec fn line_state(column: int, byte_len: int, chars: Seq<char>) -> LineState
    decreases chars.len(),
{
    if chars.len() == 0 {
        LineState { column, printed: 0, text: Seq::empty(), in_range: true }
    } else {
        let prev = line_state(column, byte_len, chars.drop_last());
        let col = prev.column + 1;
        let printed = prev.printed + 1;
        let wrap = col >= wrap_column() && printed < byte_len;
        LineState {
            column: if wrap { 0 } else { col },
            printed,
            text: prev.text + seq![chars.last()] + (if wrap { line_break() } else { Seq::empty() }),
            in_range: prev.in_range && col <= 255,
        }
    }
}

/// State of the layout after a number of whole lines.
pub struct BlockState {
    pub column: int,
    pub text: Seq<char>,
    pub in_range: bool,
}

/// Lays out whole lines one after the other: each line is introduced by a
/// newline and two spaces of indent and closed by two spaces.
pub open spec fn block_state(lines: Seq<Seq<char>>) -> BlockState
    decreases lines.len(),
{
    if lines.len() == 0 {
        BlockState { column: 0, text: Seq::empty(), in_range: true }
    } else {
        let prev = block_state(lines.drop_last());
        let line = lines.last();
        let ls = line_state(prev.column, utf8_len(line), line);
        BlockState {
            column: ls.column,
            text: prev.text + seq!['\n', ' ', ' '] + ls.text + seq![' ', ' '],
            in_range: prev.in_range && ls.in_range,
        }
    }
}

/// True when the code can be laid out: the running column stays within a
/// byte and ends at most at [`wrap_column`], so that the closing padding
/// `CHARS_PER_LINE - column - 4` is not negative.
pub open spec fn block_fits(code: Seq<char>) -> bool {
    let b = block_state(lines_of(code));
    b.in_range && b.column <= wrap_column()
}

/// The framed text of a code block.
pub open spec fn code_block(code: Seq<char>) -> Seq<char> {
    let b = block_state(lines_of(code));
    seq!['\n'] + spaces(48) + b.text + spaces((wrap_column() - b.column) as nat) + seq!['\n']
        + spaces(48) + seq!['\n']
}

/// Number of bytes in the UTF-8 encoding of `c` (`char::len_utf8`).
pub fn utf8_width(c: char) -> (w: usize)
    ensures
        w == encode_scalar(c as u32).len(),
        1 <= w <= 4,
{
    let u = c as u32;
    proof {
        char_is_scalar(c);
    }
    if u < 0x80 {
        1
    } else if u < 0x800 {
        2
    } else if u < 0x10000 {
        3
    } else {
        4
    }
}

proof fn lemma_line_in_range_prefix(column: int, byte_len: int, chars: Seq<char>, k: int)
    requires
        0 <= k <= chars.len(),
        line_state(column, byte_len, chars).in_range,
    ensures
        line_state(column, byte_len, chars.take(k)).in_range,
    decreases chars.len(),
{
    if k == chars.len() {
        assert(chars.take(k) =~= chars);
    } else {
        lemma_line_in_range_prefix(column, byte_len, chars.drop_last(), k);
        assert(chars.drop_last().take(k) =~= chars.take(k));
    }
}

proof fn lemma_block_in_range_prefix(lines: Seq<Seq<char>>, k: int)
    requires
        0 <= k <= lines.len(),
        block_state(lines).in_range,
    ensures
        block_state(lines.take(k)).in_range,
    decreases lines.len(),
{
    if k == lines.len() {
        assert(lines.take(k) =~= lines);
    } else {
        lemma_block_in_range_prefix(lines.drop_last(), k);
        assert(lines.drop_last().take(k) =~= lines.take(k));
    }
}

/// Splits `chars` into lines, and gives the byte length of each.
fn split_lines(chars: &Vec<char>) -> (res: (Vec<Vec<char>>, Vec<u128>))
    ensures
        res.0@.map_values(|l: Vec<char>| l@) == lines_of(chars@),
        res.1@.len() == res.0@.len(),
        forall|i: int| 0 <= i < res.0@.len() ==> #[trigger] res.1@[i] == utf8_len(res.0@[i]@),
{
    let mut lines: Vec<Vec<char>> = Vec::new();
    let mut lens: Vec<u128> = Vec::new();
    let mut cur: Vec<char> = Vec::new();
    let mut cur_len: u128 = 0;
    let mut k: usize = 0;
    while k < chars.len()
        invariant
            k <= chars@.len(),
            lines@.map_values(|l: Vec<char>| l@).push(cur@) == lines_of(chars@.take(k as int)),
            lens@.len() == lines@.len(),
            forall|i: int| 0 <= i < lines@.len() ==> #[trigger] lens@[i] == utf8_len(lines@[i]@),
            cur_len == utf8_len(cur@),
            cur_len <= 4 * k,
        decreases chars@.len() - k,
    {
        let c = chars[k];
        proof {
            assert(chars@.take(k + 1).drop_last() =~= chars@.take(k as int));
        }
        if c == '\n' {
            let ghost prev = lines@.map_values(|l: Vec<char>| l@);
            lines.push(cur);
            lens.push(cur_len);
            cur = Vec::new();
            cur_len = 0;
            proof {
                assert(lines@.map_values(|l: Vec<char>| l@) =~= prev.push(lines@.last()@));
                assert(utf8_len(Seq::<char>::empty()) == 0);
            }
        } else {
            let ghost old_cur = cur@;
            let w = utf8_width(c);
            proof {
                lemma_encode_utf8_push(old_cur, c);
            }
            cur.push(c);
            cur_len = cur_len + w as u128;
            proof {
                let m = lines@.map_values(|l: Vec<char>| l@);
                assert(m.push(cur@) =~= m.push(old_cur).update(m.len() as int, old_cur.push(c)));
            }
        }
        k = k + 1;
    }
    lines.push(cur);
    lens.push(cur_len);
    proof {
        assert(chars@.take(chars@.len() as int) =~= chars@);
    }
    (lines, lens)
}

/// Lays out `code`; `None` exactly when it does not fit (see [`block_fits`]).
fn layout(code: &str) -> (r: Option<Vec<char>>)
    ensures
        r is Some <==> block_fits(code@),
        r matches Some(t) ==> t@ == code_block(code@),
{
    let chars = chars_of(code);
    let (lines, lens) = split_lines(&chars);
    let ghost all = lines@.map_values(|l: Vec<char>| l@);
    let mut out: Vec<char> = Vec::new();
    out.push('\n');
    push_spaces(&mut out, 48);
    let ghost head = seq!['\n'] + spaces(48);
    assert(all.take(0) =~= Seq::<Seq<char>>::empty());
    let mut column: u64 = 0;
    let mut li: usize = 0;
    while li < lines.len()
        invariant
            li <= lines@.len(),
            all == lines@.map_values(|l: Vec<char>| l@),
            all == lines_of(code@),
            lens@.len() == lines@.len(),
            forall|i: int| 0 <= i < lines@.len() ==> #[trigger] lens@[i] == utf8_len(lines@[i]@),
            column == block_state(all.take(li as int)).column,
            block_state(all.take(li as int)).in_range,
            out@ == head + block_state(all.take(li as int)).text,
            column <= 255,
        decreases lines@.len() - li,
    {
        let line = &lines[li];
        let byte_len = lens[li];
        let ghost start = column as int;
        let ghost prefix = block_state(all.take(li as int));
        assert(all[li as int] == line@);
        out.push('\n');
        out.push(' ');
        out.push(' ');
        let ghost base = head + prefix.text + seq!['\n', ' ', ' '];
        assert(line@.take(0) =~= Seq::<char>::empty());
        assert(out@ =~= base + line_state(start, byte_len as int, line@.take(0)).text);
        let mut printed: usize = 0;
        let mut j: usize = 0;
        while j < line.len()
            invariant
                j <= line@.len(),
                li < lines@.len(),
                all == lines@.map_values(|l: Vec<char>| l@),
                all[li as int] == line@,
                prefix == block_state(all.take(li as int)),
                prefix.in_range,
                prefix.column == start,
                all == lines_of(code@),
                byte_len == utf8_len(line@),
                column == line_state(start, byte_len as int, line@.take(j as int)).column,
                printed == line_state(start, byte_len as int, line@.take(j as int)).printed,
                line_state(start, byte_len as int, line@.take(j as int)).in_range,
                out@ == base + line_state(start, byte_len as int, line@.take(j as int)).text,
                printed == j,
                column <= 255,
            decreases line@.len() - j,
        {
            proof {
                assert(line@.take(j + 1).drop_last() =~= line@.take(j as int));
                assert(line@.take(j + 1).last() == line@[j as int]);
            }
            let col = column + 1;
            if col > 255 {
                proof {
                    assert(!line_state(start, byte_len as int, line@.take(j + 1)).in_range);
                    if line_state(start, byte_len as int, line@).in_range {
                        lemma_line_in_range_prefix(start, byte_len as int, line@, j + 1);
                    }
                    assert(all.take(li + 1).drop_last() =~= all.take(li as int));
                    assert(all.take(li + 1).last() == line@);
                    assert(prefix.column == start);
                    assert(!block_state(all.take(li + 1)).in_range);
                    if block_state(all).in_range {
                        lemma_block_in_range_prefix(all, li + 1);
                    }
                }
                return None;
            }
            let c = line[j];
            out.push(c);
            printed = printed + 1;
            if col >= 44 && (printed as u128) < byte_len {
                column = 0;
                out.push(' ');
                out.push(' ');
                out.push('\n');
                out.push(' ');
                out.push(' ');
            } else {
                column = col;
            }
            j = j + 1;
            proof {
                let ls = line_state(start, byte_len as int, line@.take(j as int));
                assert(out@ =~= base + ls.text);
            }
        }
        out.push(' ');
        out.push(' ');
        li = li + 1;
        proof {
            assert(line@.take(line@.len() as int) =~= line@);
            assert(all.take(li as int).drop_last() =~= all.take(li - 1));
            assert(all.take(li as int).last() == line@);
            assert(out@ =~= head + block_state(all.take(li as int)).text);
        }
    }
    proof {
        assert(all.take(lines@.len() as int) =~= all);
        assert(block_state(all).column == column);
        assert(block_state(all).in_range);
    }
    if column > 44 {
        return None;
    }
    push_spaces(&mut out, (44 - column) as usize);
    out.push('\n');
    push_spaces(&mut out, 48);
    out.push('\n');
    assert(out@ =~= code_block(code@));
    Some(out)
}

/// Whether `code` can be laid out as a code block (see [`block_fits`]).
pub fn code_block_fits(code: &str) -> (fits: bool)
    ensures
        fits == block_fits(code@),
{
    layout(code).is_some()
}

/// The framed text of the code block `code` (see [`code_block`]).
pub fn code_block_text(code: &str) -> (text: String)
    requires
        block_fits(code@),
    ensures
        text@ == code_block(code@),
{
    match layout(code) {
        Some(chars) => string_from_chars(chars.as_slice()),
        None => String::new(),
    }
}

proof fn lemma_lines_without_newline(s: Seq<char>)
    requires
        !s.contains('\n'),
    ensures
        lines_of(s) == seq![s],
    decreases s.len(),
{
    if s.len() > 0 {
        let p = s.drop_last();
        assert(!p.contains('\n')) by {
            if p.contains('\n') {
                let i = choose|i: int| 0 <= i < p.len() && p[i] == '\n';
                assert(s[i] == '\n');
            }
        }
        lemma_lines_without_newline(p);
        assert(s[s.len() - 1] != '\n');
        assert(p.push(s.last()) =~= s);
        assert(lines_of(s) =~= seq![s]);
    } else {
        assert(s =~= Seq::<char>::empty());
    }
}

proof fn lemma_short_line_state(line: Seq<char>, j: int)
    requires
        line.len() <= wrap_column(),
        0 <= j <= line.len(),
    ensures
        line_state(0, line.len() as int, line.take(j)) == (LineState {
            column: j,
            printed: j,
            text: line.take(j),
            in_range: true,
        }),
    decreases j,
{
    if j == 0 {
        assert(line.take(0) =~= Seq::<char>::empty());
    } else {
        lemma_short_line_state(line, j - 1);
        assert(line.take(j).drop_last() =~= line.take(j - 1));
        assert(line.take(j).last() == line[j - 1]);
        assert(line.take(j - 1) + seq![line[j - 1]] =~= line.take(j));
    }
}

/// A single line of at most [`wrap_column`] ASCII characters always fits, and
/// is printed as it is: indented by two spaces and padded to the full width,
/// between two blank lines of full width.
pub proof fn short_line_printed_as_is(line: Seq<char>)
    requires
        is_ascii_chars(line),
        line.len() <= wrap_column(),
        !line.contains('\n'),
    ensures
        block_fits(line),
        code_block(line) == seq!['\n'] + spaces(48) + seq!['\n', ' ', ' '] + line + seq![' ', ' ']
            + spaces((wrap_column() - line.len()) as nat) + seq!['\n'] + spaces(48) + seq!['\n'],
{
    lemma_lines_without_newline(line);
    assert(utf8_len(line) == line.len());
    lemma_short_line_state(line, line.len() as int);
    assert(line.take(line.len() as int) =~= line);
    let lines = seq![line];
    assert(lines.drop_last() =~= Seq::<Seq<char>>::empty());
    assert(lines.last() == line);
    let e = block_state(Seq::<Seq<char>>::empty());
    assert(e.column == 0 && e.text.len() == 0 && e.in_range);
    assert(line_state(0, utf8_len(line), line) == line_state(
        0,
        line.len() as int,
        line.take(line.len() as int),
    ));
    let b = block_state(lines);
    assert(b.column == line.len());
    assert(b.text =~= seq!['\n', ' ', ' '] + line + seq![' ', ' ']);
    assert(code_block(line) =~= seq!['\n'] + spaces(48) + seq!['\n', ' ', ' '] + line + seq![' ', ' ']
        + spaces((wrap_column() - line.len()) as nat) + seq!['\n'] + spaces(48) + seq!['\n']);
}

/// A line cut into rows of 44 characters, with a row break (see
/// [`line_break`]) between consecutive rows.
pub open spec fn rows_body(line: Seq<char>) -> Seq<char>
    decreases line.len(),
{
    if line.len() <= 44 {
        line
    } else {
        line.take(44) + line_break() + rows_body(line.skip(44))
    }
}

/// Number of characters on the last row of a line of `n` characters.
pub open spec fn last_row_len(n: int) -> int {
    if n <= 0 {
        0
    } else {
        (n - 1) % 44 + 1
    }
}

/// The first `j` characters of a line of `n` characters, with a row break
/// after every 44th character that is not the line's last.
spec fn broken_prefix(line: Seq<char>, n: int, j: int) -> Seq<char>
    decreases j,
{
    if j <= 0 {
        Seq::empty()
    } else {
        broken_prefix(line, n, j - 1) + seq![line[j - 1]] + if j % 44 == 0 && j < n {
            line_break()
        } else {
            Seq::empty()
        }
    }
}

/// The running column after `j` of the `n` characters of a line that
/// started at column zero.
spec fn column_after(j: int, n: int) -> int {
    if j < n {
        j % 44
    } else {
        last_row_len(j)
    }
}

proof fn lemma_ascii_line_state(line: Seq<char>, j: int)
    requires
        0 <= j <= line.len(),
    ensures
        line_state(0, line.len() as int, line.take(j)) == (LineState {
            column: column_after(j, line.len() as int),
            printed: j,
            text: broken_prefix(line, line.len() as int, j),
            in_range: true,
        }),
    decreases j,
{
    let n = line.len() as int;
    if j == 0 {
        assert(line.take(0) =~= Seq::<char>::empty());
    } else {
        lemma_ascii_line_state(line, j - 1);
        assert(line.take(j).drop_last() =~= line.take(j - 1));
        assert(line.take(j).last() == line[j - 1]);
        let col = (j - 1) % 44 + 1;
        assert(col >= 44 <==> j % 44 == 0);
        assert(j % 44 != 0 ==> col == j % 44);
    }
}

proof fn lemma_broken_prefix_short(line: Seq<char>, n: int, k: int)
    requires
        0 <= k <= line.len(),
        k < 44 || n <= 44,
        k <= 44,
    ensures
        broken_prefix(line, n, k) == line.take(k),
    decreases k,
{
    if k == 0 {
        assert(line.take(0) =~= Seq::<char>::empty());
    } else {
        lemma_broken_prefix_short(line, n, k - 1);
        assert(line.take(k - 1) + seq![line[k - 1]] =~= line.take(k));
    }
}

proof fn lemma_broken_prefix_shift(line: Seq<char>, m: int)
    requires
        line.len() > 44,
        0 <= m <= line.len() - 44,
    ensures
        broken_prefix(line, line.len() as int, 44 + m) == line.take(44) + line_break()
            + broken_prefix(line.skip(44), line.len() - 44, m),
    decreases m,
{
    let n = line.len() as int;
    if m == 0 {
        lemma_broken_prefix_short(line, n, 43);
        assert(line.take(43) + seq![line[43]] =~= line.take(44));
        assert(broken_prefix(line.skip(44), n - 44, 0) =~= Seq::<char>::empty());
        assert(broken_prefix(line, n, 44) =~= line.take(44) + line_break());
    } else {
        lemma_broken_prefix_shift(line, m - 1);
        assert(line.skip(44)[m - 1] == line[43 + m]);
        assert((44 + m) % 44 == m % 44);
        assert(broken_prefix(line, n, 44 + m) =~= line.take(44) + line_break()
            + broken_prefix(line.skip(44), n - 44, m));
    }
}

proof fn lemma_broken_line_rows(line: Seq<char>)
    ensures
        broken_prefix(line, line.len() as int, line.len() as int) == rows_body(line),
    decreases line.len(),
{
    let n = line.len() as int;
    if n <= 44 {
        lemma_broken_prefix_short(line, n, n);
        assert(line.take(n) =~= line);
    } else {
        lemma_broken_prefix_shift(line, n - 44);
        lemma_broken_line_rows(line.skip(44));
    }
}

/// A single line of ASCII characters of any length always fits, and is cut
/// into rows of 44 characters.  Every row is indented by two spaces and
/// closed by two spaces, and the last row is padded with spaces to the full
/// width of 48, between two blank lines of full width.
pub proof fn line_cut_into_rows(line: Seq<char>)
    requires
        is_ascii_chars(line),
        !line.contains('\n'),
    ensures
        block_fits(line),
        code_block(line) == seq!['\n'] + spaces(48) + seq!['\n', ' ', ' '] + rows_body(line)
            + seq![' ', ' '] + spaces((44 - last_row_len(line.len() as int)) as nat) + seq!['\n']
            + spaces(48) + seq!['\n'],
{
    let n = line.len() as int;
    lemma_lines_without_newline(line);
    assert(utf8_len(line) == n);
    lemma_ascii_line_state(line, n);
    lemma_broken_line_rows(line);
    assert(line.take(n) =~= line);
    let lines = seq![line];
    assert(lines.drop_last() =~= Seq::<Seq<char>>::empty());
    assert(lines.last() == line);
    let e = block_state(Seq::<Seq<char>>::empty());
    assert(e.column == 0 && e.text.len() == 0 && e.in_range);
    let b = block_state(lines);
    assert(b.column == last_row_len(n));
    assert(b.text =~= seq!['\n', ' ', ' '] + rows_body(line) + seq![' ', ' ']);
    assert(code_block(line) =~= seq!['\n'] + spaces(48) + seq!['\n', ' ', ' '] + rows_body(line)
        + seq![' ', ' '] + spaces((44 - last_row_len(n)) as nat) + seq!['\n'] + spaces(48)
        + seq!['\n']);
}

/// Number of characters printed on the first row of a line that starts at
/// the running column `column`: up to the wrap column, and at least one.
pub open spec fn first_row_len(column: int) -> int {
    if column < wrap_column() {
        wrap_column() - column
    } else {
        1
    }
}

proof fn lemma_first_row_state(c: int, line: Seq<char>, j: int)
    requires
        0 <= j <= line.len(),
        j <= first_row_len(c),
    ensures
        ({
            let n = line.len() as int;
            let wrap = j == first_row_len(c) && j < n;
            line_state(c, n, line.take(j)) == (LineState {
                column: if wrap { 0 } else { c + j },
                printed: j,
                text: line.take(j) + if wrap { line_break() } else { Seq::empty() },
                in_range: j == 0 || c + j <= 255,
            })
        }),
    decreases j,
{
    if j == 0 {
        assert(line.take(0) =~= Seq::<char>::empty());
        assert(line.take(0) + Seq::<char>::empty() =~= Seq::<char>::empty());
    } else {
        lemma_first_row_state(c, line, j - 1);
        assert(line.take(j).drop_last() =~= line.take(j - 1));
        assert(line.take(j).last() == line[j - 1]);
        assert(line.take(j - 1) + Seq::<char>::empty() =~= line.take(j - 1));
        assert(line.take(j - 1) + seq![line[j - 1]] =~= line.take(j));
        assert(line.take(j) + Seq::<char>::empty() =~= line.take(j));
    }
}

proof fn lemma_rest_rows_state(c: int, line: Seq<char>, j: int)
    requires
        first_row_len(c) < line.len(),
        first_row_len(c) <= j <= line.len(),
    ensures
        ({
            let n = line.len() as int;
            let f = first_row_len(c);
            let rest = line.skip(f);
            let inner = line_state(0, n - f, rest.take(j - f));
            line_state(c, n, line.take(j)) == (LineState {
                column: inner.column,
                printed: f + inner.printed,
                text: line.take(f) + line_break() + inner.text,
                in_range: c + f <= 255 && inner.in_range,
            })
        }),
    decreases j,
{
    let n = line.len() as int;
    let f = first_row_len(c);
    let rest = line.skip(f);
    if j == f {
        lemma_first_row_state(c, line, f);
        assert(rest.take(0) =~= Seq::<char>::empty());
        let inner = line_state(0, n - f, rest.take(0));
        assert(inner == line_state(0, n - f, Seq::<char>::empty()));
        assert(inner.column == 0 && inner.printed == 0 && inner.in_range);
        assert(inner.text =~= Seq::<char>::empty());
        assert(line.take(f) + line_break() + inner.text =~= line.take(f) + line_break());
        assert(f >= 1);
    } else {
        lemma_rest_rows_state(c, line, j - 1);
        assert(line.take(j).drop_last() =~= line.take(j - 1));
        assert(line.take(j).last() == line[j - 1]);
        assert(rest.take(j - f).drop_last() =~= rest.take(j - 1 - f));
        assert(rest.take(j - f).last() == line[j - 1]);
        let a = line_state(0, n - f, rest.take(j - 1 - f));
        let wrap = a.column + 1 >= wrap_column() && a.printed + 1 < n - f;
        let tail = seq![line[j - 1]] + if wrap { line_break() } else { Seq::<char>::empty() };
        assert(line.take(f) + line_break() + a.text + tail =~= line.take(f) + line_break() + (
        a.text + tail));
        let b = line_state(0, n - f, rest.take(j - f));
        assert(b.column == if wrap { 0 } else { a.column + 1 });
        assert(b.printed == a.printed + 1);
        assert(b.text == a.text + tail);
        let whole = line_state(c, n, line.take(j));
        assert(whole.column == b.column);
        assert(whole.printed == f + b.printed);
        assert(whole.text =~= line.take(f) + line_break() + b.text);
        assert(whole.in_range == (c + f <= 255 && b.in_range));
    }
}

proof fn lemma_lines_after_newline(s: Seq<char>, line: Seq<char>)
    requires
        !line.contains('\n'),
    ensures
        lines_of(s + seq!['\n'] + line) == lines_of(s).push(line),
    decreases line.len(),
{
    let t = s + seq!['\n'] + line;
    if line.len() == 0 {
        assert(t =~= s.push('\n'));
        assert(t.drop_last() =~= s);
        assert(line =~= Seq::<char>::empty());
    } else {
        let p = line.drop_last();
        assert(!p.contains('\n')) by {
            if p.contains('\n') {
                let i = choose|i: int| 0 <= i < p.len() && p[i] == '\n';
                assert(line[i] == '\n');
            }
        }
        lemma_lines_after_newline(s, p);
        assert(t.drop_last() =~= s + seq!['\n'] + p);
        assert(t.last() == line[line.len() - 1]);
        assert(p.push(line.last()) =~= line);
        assert(lines_of(t) =~= lines_of(s).push(line));
    }
}

/// The running column carries over from one line of a code block to the
/// next.  A line of ASCII characters that follows the code `code` fills the
/// current row up to the wrap column (at least one character), and what is
/// left of it is cut into rows of 44 characters; a line that fits on the
/// current row is printed as it is.  Each line is introduced by a newline and
/// two spaces and closed by two spaces.
pub proof fn line_continues_at_running_column(code: Seq<char>, line: Seq<char>)
    requires
        is_ascii_chars(line),
        !line.contains('\n'),
    ensures
        ({
            let prev = block_state(lines_of(code));
            let next = block_state(lines_of(code + seq!['\n'] + line));
            let n = line.len() as int;
            let f = first_row_len(prev.column);
            if n <= f {
                next == (BlockState {
                    column: prev.column + n,
                    text: prev.text + seq!['\n', ' ', ' '] + line + seq![' ', ' '],
                    in_range: prev.in_range && (n == 0 || prev.column + n <= 255),
                })
            } else {
                next == (BlockState {
                    column: last_row_len(n - f),
                    text: prev.text + seq!['\n', ' ', ' '] + line.take(f) + line_break()
                        + rows_body(line.skip(f)) + seq![' ', ' '],
                    in_range: prev.in_range && prev.column + f <= 255,
                })
            }
        }),
{
    let lines = lines_of(code);
    lemma_lines_after_newline(code, line);
    let all = lines.push(line);
    assert(all.drop_last() =~= lines);
    assert(all.last() == line);
    let prev = block_state(lines);
    let c = prev.column;
    let n = line.len() as int;
    let f = first_row_len(c);
    assert(utf8_len(line) == n);
    assert(line.take(n) =~= line);
    if n <= f {
        lemma_first_row_state(c, line, n);
        assert(line + Seq::<char>::empty() =~= line);
    } else {
        lemma_rest_rows_state(c, line, n);
        let rest = line.skip(f);
        lemma_ascii_line_state(rest, n - f);
        assert(rest.take(n - f) =~= rest);
        lemma_broken_line_rows(rest);
        assert(column_after(n - f, n - f) == last_row_len(n - f));
        let next = block_state(all);
        assert(next.text =~= prev.text + seq!['\n', ' ', ' '] + line.take(f) + line_break()
            + rows_body(rest) + seq![' ', ' ']);
    }
}

} // verus!
