//! The row renderer: an extended chunk is cut into rows of fixed width, and
//! each row shows a label, the bytes as numerals and the bytes as
//! characters, every byte tinted by whether it is printable and whether a
//! pattern match covers it.

use crate::chunk::{
    lemma_tiles_select, selected, smaller, tiles, ChunkedReader, ReadWindow, ReaderState,
};
use crate::colors::{BOLD, GRAY, PURPLE, RED, RESET, SKYBLUE};
use crate::numeral::{push_radix, radix_text};
use crate::pattern::{regex_search, search_spans};
use crate::text::{push_repeated, repeated, texts};
use regex::Regex;
use vstd::prelude::*;
use vstd::string::*;

verus! {

/// Bytes in a row of binary numerals.
pub const BIN_WIDTH: u8 = 6;

/// Bytes in a row of hexadecimal numerals.
pub const HEX_WIDTH: u8 = 16;

/// What the character column shows in place of an unprintable byte.
pub const PLACEHOLDER: char = '.';

/// The number of bytes in a full row.
pub open spec fn row_width(binaryfmt: bool) -> nat {
    if binaryfmt {
        BIN_WIDTH as nat
    } else {
        HEX_WIDTH as nat
    }
}

/// The number of columns that one byte takes in the numeral column: its
/// digits and the space after them.
pub open spec fn unit_width(binaryfmt: bool) -> nat {
    if binaryfmt {
        9
    } else {
        3
    }
}

/// A character is printable when it lies in the visible range of ASCII.
pub open spec fn is_printable(c: char) -> bool {
    0x20 <= c as u32 <= 0x7E
}

/// Some span covers the index. A span covers the indices from its first
/// number up to, and without, its second.
pub open spec fn in_match(spans: Seq<(usize, usize)>, index: int) -> bool {
    exists|k: int| 0 <= k < spans.len() && (#[trigger] spans[k]).0 <= index < spans[k].1
}

/// The numeral of a byte: eight binary digits or two hexadecimal digits.
pub open spec fn byte_digits(byte: u8, binaryfmt: bool) -> Seq<char> {
    if binaryfmt {
        radix_text(byte as nat, 2, 8)
    } else {
        radix_text(byte as nat, 16, 2)
    }
}

/// One byte in the numeral column: its numeral and a space. The numeral is
/// tinted unless the byte is printable and outside every match.
pub open spec fn numeric_cell(byte: u8, matched: bool, binaryfmt: bool) -> Seq<char> {
    let digits = byte_digits(byte, binaryfmt);
    let plain = is_printable(byte as char);
    if matched && plain {
        SKYBLUE@ + digits + RESET@ + seq![' ']
    } else if matched {
        PURPLE@ + digits + RESET@ + seq![' ']
    } else if !plain {
        RED@ + digits + RESET@ + seq![' ']
    } else {
        digits + seq![' ']
    }
}

/// One byte in the character column: the byte's character, or the
/// placeholder for an unprintable byte, tinted like its numeral and in
/// bold wherever it is tinted.
pub open spec fn ascii_cell(byte: u8, matched: bool) -> Seq<char> {
    let plain = is_printable(byte as char);
    if matched && plain {
        BOLD@ + SKYBLUE@ + seq![byte as char] + RESET@
    } else if matched {
        BOLD@ + PURPLE@ + seq![PLACEHOLDER] + RESET@
    } else if !plain {
        RED@ + BOLD@ + seq![PLACEHOLDER] + RESET@
    } else {
        seq![byte as char]
    }
}

/// The numeral cells of the bytes from `from` up to, and without, `to`.
pub open spec fn numeric_cells(
    bytes: Seq<u8>,
    spans: Seq<(usize, usize)>,
    binaryfmt: bool,
    from: int,
    to: int,
) -> Seq<char>
    decreases to - from,
{
    if to <= from {
        Seq::empty()
    } else {
        numeric_cells(bytes, spans, binaryfmt, from, to - 1) + numeric_cell(
            bytes[to - 1],
            in_match(spans, to - 1),
            binaryfmt,
        )
    }
}

/// The character cells of the bytes from `from` up to, and without, `to`.
pub open spec fn ascii_cells(bytes: Seq<u8>, spans: Seq<(usize, usize)>, from: int, to: int) -> Seq<
    char,
>
    decreases to - from,
{
    if to <= from {
        Seq::empty()
    } else {
        ascii_cells(bytes, spans, from, to - 1) + ascii_cell(bytes[to - 1], in_match(spans, to - 1))
    }
}

/// The number of rows that a chunk of `len` bytes takes at `width` bytes a
/// row: `len / width`, rounded up.
pub open spec fn row_count(len: nat, width: nat) -> nat {
    if width == 0 {
        0
    } else if len % width == 0 {
        len / width
    } else {
        len / width + 1
    }
}

/// The number of bytes in row `row` of a chunk of `len` bytes: a full row,
/// or what is left of the chunk.
pub open spec fn row_len(len: nat, width: nat, row: nat) -> nat {
    if row * width >= len {
        0
    } else {
        smaller(width, (len - row * width) as nat)
    }
}

/// The text of row `row` of a chunk. Between the bars of a three-column
/// frame stand the label in eight or more hexadecimal digits, the numeral
/// cells and the character cells. A row with fewer bytes than a full row
/// is padded, in the numeral column with the columns of the missing cells
/// and in the character column with one space for each missing byte.
pub open spec fn row_text(
    bytes: Seq<u8>,
    spans: Seq<(usize, usize)>,
    binaryfmt: bool,
    row: nat,
    label: nat,
) -> Seq<char> {
    let width = row_width(binaryfmt);
    let from = row * width;
    let to = from + row_len(bytes.len(), width, row);
    let missing = (width - (to - from)) as nat;
    "│ "@ + GRAY@ + radix_text(label, 16, 8) + RESET@ + " │ "@ + numeric_cells(
        bytes,
        spans,
        binaryfmt,
        from as int,
        to as int,
    ) + repeated(' ', missing * unit_width(binaryfmt)) + "│ "@ + ascii_cells(
        bytes,
        spans,
        from as int,
        to as int,
    ) + repeated(' ', missing) + " │"@
}

/// The rows of a chunk. Rows are counted from one through the whole run,
/// and a row's label is its number times the row width: after
/// `rows_before` earlier rows, row `r` of this chunk has the label
/// `(rows_before + r + 1) * width`.
pub open spec fn chunk_rows(
    bytes: Seq<u8>,
    spans: Seq<(usize, usize)>,
    binaryfmt: bool,
    rows_before: nat,
) -> Seq<Seq<char>> {
    Seq::new(
        row_count(bytes.len(), row_width(binaryfmt)),
        |r: int|
            row_text(
                bytes,
                spans,
                binaryfmt,
                r as nat,
                (rows_before + r + 1) as nat * row_width(binaryfmt),
            ),
    )
}

/// The number of bytes in a full row.
pub fn format_count(binaryfmt: bool) -> (width: usize)
    ensures
        width == row_width(binaryfmt),
{
    if binaryfmt {
        BIN_WIDTH as usize
    } else {
        HEX_WIDTH as usize
    }
}

/// The number of columns that one byte takes in the numeral column.
pub fn cell_width(binaryfmt: bool) -> (columns: usize)
    ensures
        columns == unit_width(binaryfmt),
{
    if binaryfmt {
        9
    } else {
        3
    }
}

/// Whether a character is printable: whether it lies between the space and
/// the tilde, both included.
pub fn printable(character: char) -> (plain: bool)
    ensures
        plain == is_printable(character),
{
    let code: u32 = character as u32;
    0x20 <= code && code <= 0x7E
}

/// Whether some span covers the index.
pub fn covered(spans: &Vec<(usize, usize)>, index: usize) -> (matched: bool)
    ensures
        matched == in_match(spans@, index as int),
{
    let mut k: usize = 0;
    while k < spans.len()
        invariant
            k <= spans.len(),
            forall|j: int| 0 <= j < k ==> !((#[trigger] spans@[j]).0 <= index < spans@[j].1),
        decreases spans.len() - k,
    {
        if spans[k].0 <= index && index < spans[k].1 {
            return true;
        }
        k += 1;
    }
    false
}

/// Appends the numeral cell of a byte.
fn push_numeric_cell(out: &mut String, byte: u8, matched: bool, binaryfmt: bool)
    ensures
        final(out)@ == old(out)@ + numeric_cell(byte, matched, binaryfmt),
{
    let plain = printable(byte as char);
    if matched && plain {
        out.append(SKYBLUE);
    } else if matched {
        out.append(PURPLE);
    } else if !plain {
        out.append(RED);
    }
    if binaryfmt {
        push_radix(out, byte as u128, 2, 8);
    } else {
        push_radix(out, byte as u128, 16, 2);
    }
    if matched || !plain {
        out.append(RESET);
    }
    out.push(' ');
    assert(out@ =~= old(out)@ + numeric_cell(byte, matched, binaryfmt));
}

/// Appends the character cell of a byte.
fn push_ascii_cell(out: &mut String, byte: u8, matched: bool)
    ensures
        final(out)@ == old(out)@ + ascii_cell(byte, matched),
{
    let plain = printable(byte as char);
    if matched && plain {
        out.append(BOLD);
        out.append(SKYBLUE);
        out.push(byte as char);
        out.append(RESET);
    } else if matched {
        out.append(BOLD);
        out.append(PURPLE);
        out.push(PLACEHOLDER);
        out.append(RESET);
    } else if !plain {
        out.append(RED);
        out.append(BOLD);
        out.push(PLACEHOLDER);
        out.append(RESET);
    } else {
        out.push(byte as char);
    }
    assert(out@ =~= old(out)@ + ascii_cell(byte, matched));
}

/// The number of rows that a chunk of `len` bytes takes.
pub fn count_rows(len: usize, binaryfmt: bool) -> (rows: usize)
    ensures
        rows == row_count(len as nat, row_width(binaryfmt)),
{
    let width = format_count(binaryfmt);
    if len % width == 0 {
        len / width
    } else {
        len / width + 1
    }
}

/// Renders row `row` of a chunk, with the given label.
pub fn render_row(
    bytes: &Vec<u8>,
    spans: &Vec<(usize, usize)>,
    binaryfmt: bool,
    row: usize,
    label: u128,
) -> (text: String)
    requires
        row < row_count(bytes@.len(), row_width(binaryfmt)),
    ensures
        text@ == row_text(bytes@, spans@, binaryfmt, row as nat, label as nat),
{
    let width = format_count(binaryfmt);
    let unit = cell_width(binaryfmt);
    let len = bytes.len();
    proof {
        lemma_row_count_is_ceiling(bytes@.len(), width as nat);
        assert(row * width < bytes@.len()) by (nonlinear_arith)
            requires
                row + 1 <= row_count(bytes@.len(), width as nat),
                (row_count(bytes@.len(), width as nat) - 1) * width < bytes@.len(),
                width > 0,
        ;
    }
    let from: usize = row * width;
    let to: usize = if len - from < width {
        len
    } else {
        from + width
    };
    let missing: usize = width - (to - from);
    assert(to - from == row_len(bytes@.len(), width as nat, row as nat));

    let mut text = String::new();
    text.append("│ ");
    text.append(GRAY);
    push_radix(&mut text, label, 16, 8);
    text.append(RESET);
    text.append(" │ ");
    let ghost head = text@;
    let mut i: usize = from;
    while i < to
        invariant
            from <= i <= to <= bytes.len(),
            text@ == head + numeric_cells(bytes@, spans@, binaryfmt, from as int, i as int),
        decreases to - i,
    {
        let matched = covered(spans, i);
        push_numeric_cell(&mut text, bytes[i], matched, binaryfmt);
        i += 1;
        assert(text@ =~= head + numeric_cells(bytes@, spans@, binaryfmt, from as int, i as int));
    }
    assert(missing * unit <= 16 * 9) by (nonlinear_arith)
        requires
            missing <= 16,
            unit <= 9,
    ;
    push_repeated(&mut text, ' ', missing * unit);
    text.append("│ ");
    let ghost middle = text@;
    let mut i: usize = from;
    while i < to
        invariant
            from <= i <= to <= bytes.len(),
            text@ == middle + ascii_cells(bytes@, spans@, from as int, i as int),
        decreases to - i,
    {
        let matched = covered(spans, i);
        push_ascii_cell(&mut text, bytes[i], matched);
        i += 1;
        assert(text@ =~= middle + ascii_cells(bytes@, spans@, from as int, i as int));
    }
    push_repeated(&mut text, ' ', missing);
    text.append(" │");
    assert(text@ =~= row_text(bytes@, spans@, binaryfmt, row as nat, label as nat));
    text
}

/// The row count is the chunk's length divided by the row width, rounded
/// up: the rows hold the chunk, and one row fewer would not.
pub proof fn lemma_row_count_is_ceiling(len: nat, width: nat)
    requires
        width > 0,
    ensures
        row_count(len, width) * width >= len,
        len > 0 ==> (row_count(len, width) - 1) * width < len,
        len == 0 ==> row_count(len, width) == 0,
{
    assert(len == width * (len / width) + len % width && 0 <= len % width < width) by {
        vstd::arithmetic::div_mod::lemma_fundamental_div_mod(len as int, width as int);
        vstd::arithmetic::div_mod::lemma_mod_bound(len as int, width as int);
    }
    let q = len / width;
    assert((q + 1) * width == q * width + width) by (nonlinear_arith);
    assert((q - 1) * width == q * width - width) by (nonlinear_arith);
    assert(q * width == width * q) by (nonlinear_arith);
    if len == 0 {
        assert(q == 0) by (nonlinear_arith)
            requires
                0 == width * q + len % width,
                0 <= len % width,
                width > 0,
                q >= 0,
        ;
    }
}

/// Renders the rows of an extended chunk, given the spans of its matches.
/// `count` is the number of rows rendered before this chunk in the run:
/// the rows of this chunk carry the numbers that follow it.
pub fn render_chunk(
    bytes: &Vec<u8>,
    spans: &Vec<(usize, usize)>,
    binaryfmt: bool,
    count: usize,
) -> (rows: Vec<String>)
    ensures
        rows@.len() == row_count(bytes@.len(), row_width(binaryfmt)),
        texts(rows@) == chunk_rows(bytes@, spans@, binaryfmt, count as nat),
{
    let total = count_rows(bytes.len(), binaryfmt);
    let width = format_count(binaryfmt);
    let mut rows: Vec<String> = Vec::new();
    let mut row: usize = 0;
    while row < total
        invariant
            row <= total,
            total == row_count(bytes@.len(), row_width(binaryfmt)),
            width == row_width(binaryfmt),
            rows@.len() == row,
            forall|r: int|
                0 <= r < row ==> (#[trigger] rows@[r])@ == row_text(
                    bytes@,
                    spans@,
                    binaryfmt,
                    r as nat,
                    (count + r + 1) as nat * row_width(binaryfmt),
                ),
        decreases total - row,
    {
        let number: u128 = count as u128 + row as u128 + 1;
        assert(number * width <= u128::MAX) by (nonlinear_arith)
            requires
                number <= 0x2_0000_0000_0000_0000,
                width <= 16,
        ;
        let label: u128 = number * (width as u128);
        let text = render_row(bytes, spans, binaryfmt, row, label);
        rows.push(text);
        row += 1;
    }
    assert(texts(rows@) =~= chunk_rows(bytes@, spans@, binaryfmt, count as nat));
    rows
}

/// The spans of the matches in a chunk: those that a search for the pattern
/// finds, and none without a pattern.
pub open spec fn chunk_matches(regex: Option<Regex>, bytes: Seq<u8>) -> Seq<(usize, usize)> {
    match regex {
        Some(re) => search_spans(re, bytes),
        None => Seq::empty(),
    }
}

/// Renders the rows of an extended chunk: searches the chunk for the
/// pattern, if there is one, and renders the rows with the matches it
/// found. The pattern sees this chunk alone, so a match that lies across
/// the chunk's end is not found. `count` is the number of rows rendered
/// before this chunk in the run: the rows of this chunk carry the numbers
/// that follow it.
pub fn display_chunks(
    bytevec: &Vec<u8>,
    regex: &Option<Regex>,
    binaryfmt: bool,
    count: usize,
) -> (rows: Vec<String>)
    ensures
        rows@.len() == row_count(bytevec@.len(), row_width(binaryfmt)),
        texts(rows@) == chunk_rows(
            bytevec@,
            chunk_matches(*regex, bytevec@),
            binaryfmt,
            count as nat,
        ),
{
    let indices: Vec<(usize, usize)> = match regex {
        Some(re) => regex_search(bytevec, re),
        None => Vec::new(),
    };
    render_chunk(bytevec, &indices, binaryfmt, count)
}

/// The number of bytes to borrow from beyond a chunk of `chunk_len` bytes
/// so that its last row becomes full: the row width less what the chunk
/// has beyond its last full row. A chunk that ends on a row boundary
/// borrows one whole row.
pub open spec fn overflow_len(chunk_len: nat, width: nat) -> nat {
    if width == 0 {
        0
    } else {
        (width - chunk_len % width) as nat
    }
}

/// The window of the next extended chunk: the next regular chunk together
/// with the bytes borrowed after it, which follow it in the source. None
/// at the end of the source.
pub open spec fn extended_window(state: ReaderState, width: nat) -> Option<ReadWindow> {
    match state.window(state.chunk_size) {
        None => None,
        Some(chunk) => match state.after_read(state.chunk_size).window(
            overflow_len(chunk.len as nat, width),
        ) {
            None => Some(chunk),
            Some(borrowed) => Some(
                ReadWindow { offset: chunk.offset, len: (chunk.len + borrowed.len) as usize },
            ),
        },
    }
}

/// The state of the chunk source after it has handed out the next extended
/// chunk.
pub open spec fn after_extended(state: ReaderState, width: nat) -> ReaderState {
    state.after_read(state.chunk_size).after_read(
        overflow_len(state.granted(state.chunk_size), width),
    )
}

/// The windows of all extended chunks of a run that starts in `state`.
pub open spec fn extended_windows(state: ReaderState, width: nat) -> Seq<ReadWindow>
    decreases state.remaining(),
{
    if state.cursor >= state.source_len || width == 0 {
        Seq::empty()
    } else {
        seq![extended_window(state, width).unwrap()] + extended_windows(
            after_extended(state, width),
            width,
        )
    }
}

/// The number of rows that chunks of the given windows take together.
pub open spec fn total_rows(windows: Seq<ReadWindow>, width: nat) -> nat
    decreases windows.len(),
{
    if windows.len() == 0 {
        0
    } else {
        row_count(windows[0].len as nat, width) + total_rows(windows.drop_first(), width)
    }
}

/// The number of bytes to borrow after a chunk of `chunk_len` bytes.
pub fn overflow(chunk_len: usize, binaryfmt: bool) -> (extra: usize)
    ensures
        extra == overflow_len(chunk_len as nat, row_width(binaryfmt)),
        1 <= extra <= row_width(binaryfmt),
{
    let width = format_count(binaryfmt);
    width - chunk_len % width
}

/// Plans the next extended chunk: takes the next regular chunk from the
/// chunk source and, by a look ahead that consumes, the bytes needed to
/// fill its last row. Returns the window that holds both, and `None` at the
/// end of the source.
pub fn next_extended_chunk(reader: &mut ChunkedReader, binaryfmt: bool) -> (window: Option<
    ReadWindow,
>)
    ensures
        old(reader)@.well_formed(),
        window == extended_window(old(reader)@, row_width(binaryfmt)),
        final(reader)@ == after_extended(old(reader)@, row_width(binaryfmt)),
{
    match reader.read_next_chunk() {
        None => None,
        Some(chunk) => {
            let extra = overflow(chunk.len, binaryfmt);
            match reader.peek_next_n_bytes(extra) {
                None => Some(chunk),
                Some(borrowed) => Some(
                    ReadWindow { offset: chunk.offset, len: chunk.len + borrowed.len },
                ),
            }
        },
    }
}

/// An extended chunk starts at the cursor, is not empty, and moves the
/// cursor to its end. It ends on a row boundary or at the end of the
/// source: a short row can only be the last row of the last chunk.
pub proof fn lemma_extended_chunk_aligned(state: ReaderState, width: nat)
    requires
        state.well_formed(),
        width > 0,
    ensures
        extended_window(state, width) is None <==> state.cursor == state.source_len,
        extended_window(state, width) is None ==> after_extended(state, width) == state,
        after_extended(state, width).well_formed(),
        extended_window(state, width) matches Some(window) ==> {
            &&& window.offset == state.cursor
            &&& window.len > 0
            &&& after_extended(state, width).cursor == state.cursor + window.len
            &&& (window.len as nat % width == 0 || after_extended(state, width).cursor
                == state.source_len)
        },
{
    if state.cursor < state.source_len {
        let chunk = state.granted(state.chunk_size);
        let rest = state.after_read(state.chunk_size);
        let extra = rest.granted(overflow_len(chunk, width));
        assert(0 <= chunk % width < width) by {
            vstd::arithmetic::div_mod::lemma_mod_bound(chunk as int, width as int);
        }
        if extra == overflow_len(chunk, width) {
            assert((chunk + extra) % width == 0) by {
                vstd::arithmetic::div_mod::lemma_fundamental_div_mod(chunk as int, width as int);
                let q = chunk as int / width as int;
                assert(chunk + extra == (q + 1) * width) by (nonlinear_arith)
                    requires
                        chunk == width * q + chunk % width,
                        extra == width - chunk % width,
                ;
                vstd::arithmetic::div_mod::lemma_mod_multiples_basic(q + 1, width as int);
            }
        }
    }
}

/// Within a chunk only the last row can be short. Every row before the last
/// is full. The last row is full when the chunk's length is a multiple of
/// the row width, and else holds the bytes beyond the last full row.
pub proof fn lemma_only_last_row_short(len: nat, width: nat, row: nat)
    requires
        width > 0,
        row < row_count(len, width),
    ensures
        row + 1 < row_count(len, width) ==> row_len(len, width, row) == width,
        row + 1 == row_count(len, width) && len % width == 0 ==> row_len(len, width, row)
            == width,
        row + 1 == row_count(len, width) && len % width != 0 ==> row_len(len, width, row) == len
            % width,
{
    vstd::arithmetic::div_mod::lemma_fundamental_div_mod(len as int, width as int);
    vstd::arithmetic::div_mod::lemma_mod_bound(len as int, width as int);
    let q = len / width;
    assert(width * q == q * width) by (nonlinear_arith);
    assert((row + 1) * width == row * width + width) by (nonlinear_arith);
    if row + 1 <= q {
        assert((row + 1) * width <= q * width) by (nonlinear_arith)
            requires
                row + 1 <= q,
        ;
    } else {
        assert(row == q);
    }
}

/// A chunk whose length is a multiple of the row width adds its rows to
/// those of what follows it.
proof fn lemma_row_count_adds(a: nat, b: nat, width: nat)
    requires
        width > 0,
        a % width == 0,
    ensures
        row_count(a + b, width) == row_count(a, width) + row_count(b, width),
{
    vstd::arithmetic::div_mod::lemma_fundamental_div_mod(a as int, width as int);
    vstd::arithmetic::div_mod::lemma_fundamental_div_mod(b as int, width as int);
    vstd::arithmetic::div_mod::lemma_mod_bound(b as int, width as int);
    let qa = a as int / width as int;
    let qb = b as int / width as int;
    assert(a + b == (qa + qb) * width + b % width) by (nonlinear_arith)
        requires
            a == width * qa,
            b == width * qb + b % width,
    ;
    vstd::arithmetic::div_mod::lemma_fundamental_div_mod_converse(
        (a + b) as int,
        width as int,
        qa + qb,
        (b % width) as int,
    );
}

/// Over a whole run the extended chunks follow one another from the cursor
/// to the end of the source with no gap and no overlap, so every byte is
/// rendered once. Every extended chunk but the last ends on a row
/// boundary, so only the last row of the run can be short. Together the
/// chunks take as many rows as the rest of the source would take as one
/// chunk: its length divided by the row width, rounded up.
pub proof fn lemma_run_rows(state: ReaderState, width: nat)
    requires
        state.well_formed(),
        width > 0,
    ensures
        tiles(extended_windows(state, width), state.cursor as int, state.source_len as int),
        forall|i: int|
            0 <= i < extended_windows(state, width).len() - 1 ==> (#[trigger] extended_windows(
                state,
                width,
            )[i]).len as nat % width == 0,
        total_rows(extended_windows(state, width), width) == row_count(state.remaining(), width),
    decreases state.remaining(),
{
    let windows = extended_windows(state, width);
    lemma_extended_chunk_aligned(state, width);
    if state.cursor < state.source_len {
        let first = extended_window(state, width).unwrap();
        let next = after_extended(state, width);
        let rest = extended_windows(next, width);
        lemma_run_rows(next, width);
        assert(windows.drop_first() =~= rest);
        assert forall|i: int| 0 <= i < windows.len() - 1 implies (#[trigger] windows[i]).len as nat
            % width == 0 by {
            if i > 0 {
                assert(windows[i] == rest[i - 1]);
            }
        }
        lemma_row_count_is_ceiling(0, width);
        assert(state.remaining() == first.len + next.remaining());
        if first.len as nat % width == 0 {
            lemma_row_count_adds(first.len as nat, next.remaining(), width);
        }
        assert(total_rows(windows, width) == row_count(first.len as nat, width) + total_rows(
            rest,
            width,
        ));
    } else {
        lemma_row_count_is_ceiling(0, width);
    }
}

/// Over a whole run every byte of the source is rendered once: the bytes
/// that the extended chunks select, joined in order, are the source's
/// bytes from the cursor on, which for a fresh chunk source is the whole
/// content.
pub proof fn lemma_run_covers_source(state: ReaderState, width: nat, content: Seq<u8>)
    requires
        state.well_formed(),
        width > 0,
        content.len() == state.source_len,
    ensures
        selected(content, extended_windows(state, width)) == content.subrange(
            state.cursor as int,
            state.source_len as int,
        ),
        state.cursor == 0 ==> selected(content, extended_windows(state, width)) == content,
{
    lemma_run_rows(state, width);
    lemma_tiles_select(
        content,
        extended_windows(state, width),
        state.cursor as int,
        state.source_len as int,
    );
    if state.cursor == 0 {
        assert(content.subrange(0, state.source_len as int) =~= content);
    }
}

/// The bytes that a window selects from the content of the source.
pub open spec fn window_bytes(content: Seq<u8>, window: ReadWindow) -> Seq<u8> {
    content.subrange(window.offset as int, window.offset + window.len)
}

/// The rows that `display_chunks` renders for the bytes that a window
/// selects from the content, after `rows_before` earlier rows.
#[verifier::opaque]
pub open spec fn window_rows(
    content: Seq<u8>,
    regex: Option<Regex>,
    binaryfmt: bool,
    window: ReadWindow,
    rows_before: nat,
) -> Seq<Seq<char>> {
    chunk_rows(
        window_bytes(content, window),
        chunk_matches(regex, window_bytes(content, window)),
        binaryfmt,
        rows_before,
    )
}

/// A window within the content takes the rows of a chunk of its length.
pub proof fn lemma_window_rows_len(
    content: Seq<u8>,
    regex: Option<Regex>,
    binaryfmt: bool,
    window: ReadWindow,
    rows_before: nat,
)
    requires
        window.offset + window.len <= content.len(),
    ensures
        window_rows(content, regex, binaryfmt, window, rows_before).len() == row_count(
            window.len as nat,
            row_width(binaryfmt),
        ),
{
    reveal(window_rows);
}

/// The rows of a whole run over a source with the given content, from
/// `state` on and after `rows_before` earlier rows: the rows of each
/// extended chunk in turn, with the rows counted through.
pub open spec fn run_rows(
    state: ReaderState,
    content: Seq<u8>,
    regex: Option<Regex>,
    binaryfmt: bool,
    rows_before: nat,
) -> Seq<Seq<char>>
    decreases state.remaining(),
{
    let width = row_width(binaryfmt);
    if state.cursor >= state.source_len {
        Seq::empty()
    } else {
        let rows = window_rows(
            content,
            regex,
            binaryfmt,
            extended_window(state, width).unwrap(),
            rows_before,
        );
        rows + run_rows(
            after_extended(state, width),
            content,
            regex,
            binaryfmt,
            rows_before + rows.len(),
        )
    }
}

/// A whole run renders as many rows as the rest of the source would take
/// as one chunk: its length divided by the row width, rounded up.
pub proof fn lemma_run_row_count(
    state: ReaderState,
    content: Seq<u8>,
    regex: Option<Regex>,
    binaryfmt: bool,
    rows_before: nat,
)
    requires
        state.well_formed(),
        content.len() == state.source_len,
    ensures
        run_rows(state, content, regex, binaryfmt, rows_before).len() == row_count(
            state.remaining(),
            row_width(binaryfmt),
        ),
    decreases state.remaining(),
{
    let width = row_width(binaryfmt);
    lemma_extended_chunk_aligned(state, width);
    lemma_row_count_is_ceiling(0, width);
    if state.cursor < state.source_len {
        let first = extended_window(state, width).unwrap();
        let next = after_extended(state, width);
        let rows = window_rows(content, regex, binaryfmt, first, rows_before);
        lemma_window_rows_len(content, regex, binaryfmt, first, rows_before);
        lemma_run_row_count(next, content, regex, binaryfmt, rows_before + rows.len());
        assert(state.remaining() == first.len + next.remaining());
        if first.len as nat % width == 0 {
            lemma_row_count_adds(first.len as nat, next.remaining(), width);
        }
    }
}

/// The number of rows that the extended chunks before chunk `i` of a run
/// take together.
pub open spec fn rows_ahead(state: ReaderState, width: nat, i: int) -> nat {
    total_rows(extended_windows(state, width).take(i), width)
}

/// No rows come before the first extended chunk of a run. Every chunk
/// that another follows ends on a row boundary, and the rows before a
/// later chunk are the rows of the first chunk and the rows before that
/// chunk in the run that starts after the first.
proof fn lemma_rows_ahead_step(state: ReaderState, width: nat, i: int)
    requires
        state.well_formed(),
        width > 0,
        0 <= i < extended_windows(state, width).len(),
    ensures
        state.cursor < state.source_len,
        extended_windows(state, width)[0] == extended_window(state, width).unwrap(),
        rows_ahead(state, width, 0) == 0,
        i > 0 ==> {
            let first = extended_window(state, width).unwrap();
            let next = after_extended(state, width);
            &&& i - 1 < extended_windows(next, width).len()
            &&& extended_windows(state, width)[i] == extended_windows(next, width)[i - 1]
            &&& rows_ahead(state, width, i) == row_count(first.len as nat, width) + rows_ahead(
                next,
                width,
                i - 1,
            )
            &&& row_count(first.len as nat, width) * width == first.len
        },
{
    let windows = extended_windows(state, width);
    lemma_extended_chunk_aligned(state, width);
    let first = extended_window(state, width).unwrap();
    let next = after_extended(state, width);
    let rest = extended_windows(next, width);
    assert(windows =~= seq![first] + rest);
    assert(windows.take(0) =~= Seq::<ReadWindow>::empty());
    if i > 0 {
        assert(windows[i] == rest[i - 1]);
        assert(windows.take(i).drop_first() =~= rest.take(i - 1));
        assert(windows.take(i)[0] == first);
        assert(first.len as nat % width == 0);
        vstd::arithmetic::div_mod::lemma_fundamental_div_mod(first.len as int, width as int);
        let full = row_count(first.len as nat, width);
        assert(full * width == first.len) by (nonlinear_arith)
            requires
                first.len == width * (first.len as int / width as int),
                full == first.len as int / width as int,
        ;
    }
}

/// Shifting a chunk by whole rows shifts its rows: row `row` of `len`
/// bytes holds as many bytes as row `rows + row` of a chunk that has
/// `rows` full rows in front of those bytes.
proof fn lemma_row_len_shift(len: nat, width: nat, rows: nat, row: nat)
    ensures
        row_len(rows * width + len, width, rows + row) == row_len(len, width, row),
        (rows + row) * width == rows * width + row * width,
{
    assert((rows + row) * width == rows * width + row * width) by (nonlinear_arith);
}

/// A row that is not the last of a chunk whose length is a multiple of the
/// row width, or any row of such a chunk, is full also when more bytes
/// follow the chunk.
proof fn lemma_row_len_within(len: nat, more: nat, width: nat, row: nat)
    requires
        width > 0,
        len % width == 0,
        row < row_count(len, width),
    ensures
        row_len(len, width, row) == width,
        row_len(len + more, width, row) == width,
{
    lemma_only_last_row_short(len, width, row);
    vstd::arithmetic::div_mod::lemma_fundamental_div_mod(len as int, width as int);
    let full = row_count(len, width);
    assert(full * width == len) by (nonlinear_arith)
        requires
            len == width * (len as int / width as int),
            full == len as int / width as int,
    ;
    assert(row * width + width <= full * width) by (nonlinear_arith)
        requires
            row + 1 <= full,
    ;
}

/// Where each row of a whole run lies in the source. Row `r` of the
/// extended chunk `i` is row `j` of the run, where `j` counts the rows of
/// the chunks before it and `r`. It starts `j` row widths after the cursor,
/// and it holds as many bytes as row `j` of the rest of the source taken as
/// one chunk, which by `lemma_only_last_row_short` is a full row unless `j`
/// is the last row of the run.
pub proof fn lemma_run_row_place(state: ReaderState, width: nat, i: int, r: nat)
    requires
        state.well_formed(),
        width > 0,
        0 <= i < extended_windows(state, width).len(),
        r < row_count(extended_windows(state, width)[i].len as nat, width),
    ensures
        rows_ahead(state, width, i) + r < row_count(state.remaining(), width),
        extended_windows(state, width)[i].offset + r * width == state.cursor + (rows_ahead(
            state,
            width,
            i,
        ) + r) * width,
        row_len(extended_windows(state, width)[i].len as nat, width, r) == row_len(
            state.remaining(),
            width,
            rows_ahead(state, width, i) + r,
        ),
    decreases i,
{
    lemma_rows_ahead_step(state, width, i);
    lemma_extended_chunk_aligned(state, width);
    let first = extended_window(state, width).unwrap();
    let next = after_extended(state, width);
    let full = row_count(first.len as nat, width);
    assert(state.remaining() == first.len + next.remaining());
    if i == 0 {
        if first.len as nat % width == 0 {
            lemma_row_count_adds(first.len as nat, next.remaining(), width);
            lemma_row_len_within(first.len as nat, next.remaining(), width, r);
        }
    } else {
        lemma_run_row_place(next, width, i - 1, r);
        let ahead = rows_ahead(next, width, i - 1);
        lemma_row_count_adds(first.len as nat, next.remaining(), width);
        lemma_row_len_shift(next.remaining(), width, full, ahead + r);
    }
}

/// Over a whole run every row but the very last holds a full row of
/// bytes, and the last holds what the rows before it leave of the source:
/// at least one byte and at most a full row.
pub proof fn lemma_run_row_len(state: ReaderState, width: nat, i: int, r: nat)
    requires
        state.well_formed(),
        width > 0,
        0 <= i < extended_windows(state, width).len(),
        r < row_count(extended_windows(state, width)[i].len as nat, width),
    ensures
        rows_ahead(state, width, i) + r + 1 < row_count(state.remaining(), width) ==> row_len(
            extended_windows(state, width)[i].len as nat,
            width,
            r,
        ) == width,
        rows_ahead(state, width, i) + r + 1 == row_count(state.remaining(), width) ==> {
            &&& row_len(extended_windows(state, width)[i].len as nat, width, r)
                == state.remaining() - (row_count(state.remaining(), width) - 1) * width
            &&& 1 <= row_len(extended_windows(state, width)[i].len as nat, width, r) <= width
        },
{
    let row = rows_ahead(state, width, i) + r;
    lemma_run_row_place(state, width, i, r);
    lemma_only_last_row_short(state.remaining(), width, row);
    lemma_row_count_is_ceiling(state.remaining(), width);
    let total = row_count(state.remaining(), width);
    assert(total * width == (total - 1) * width + width) by (nonlinear_arith);
}

/// The rows of a whole run are the rows of its extended chunks, with the
/// count running through: row `r` of chunk `i` is the row of the run that
/// follows the rows of the chunks before it, and it is rendered from the
/// bytes that the chunk's window selects, after the rows before the run
/// and the rows of those chunks.
pub proof fn lemma_run_row_text(
    state: ReaderState,
    content: Seq<u8>,
    regex: Option<Regex>,
    binaryfmt: bool,
    rows_before: nat,
    i: int,
    r: nat,
)
    requires
        state.well_formed(),
        content.len() == state.source_len,
        0 <= i < extended_windows(state, row_width(binaryfmt)).len(),
        r < row_count(
            extended_windows(state, row_width(binaryfmt))[i].len as nat,
            row_width(binaryfmt),
        ),
    ensures
        rows_ahead(state, row_width(binaryfmt), i) + r < run_rows(
            state,
            content,
            regex,
            binaryfmt,
            rows_before,
        ).len(),
        run_rows(state, content, regex, binaryfmt, rows_before)[(rows_ahead(
            state,
            row_width(binaryfmt),
            i,
        ) + r) as int] == window_rows(
            content,
            regex,
            binaryfmt,
            extended_windows(state, row_width(binaryfmt))[i],
            rows_before + rows_ahead(state, row_width(binaryfmt), i),
        )[r as int],
    decreases i,
{
    let width = row_width(binaryfmt);
    lemma_rows_ahead_step(state, width, i);
    lemma_extended_chunk_aligned(state, width);
    let first = extended_window(state, width).unwrap();
    let next = after_extended(state, width);
    let rows = window_rows(content, regex, binaryfmt, first, rows_before);
    lemma_window_rows_len(content, regex, binaryfmt, first, rows_before);
    let later = run_rows(next, content, regex, binaryfmt, rows_before + rows.len());
    assert(run_rows(state, content, regex, binaryfmt, rows_before) == rows + later);
    if i > 0 {
        lemma_run_row_text(next, content, regex, binaryfmt, rows_before + rows.len(), i - 1, r);
    }
}

} // verus!
