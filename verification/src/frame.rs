//! The frame decorator: the caption above the rows, with the name of the
//! file and its size, and the border lines that join the caption to the
//! rows and close the frame below them.

use crate::numeral::{decimal_text, lemma_radix_text_len, push_radix, radix_limit};
use crate::render::{cell_width, format_count, row_width, unit_width};
use crate::text::{push_repeated, repeated, texts};
use vstd::prelude::*;
use vstd::string::*;

verus! {

/// The longest name that the caption shows in full.
pub const MAX_NAME_LEN: usize = 30;

/// What stands for the part of a name that was cut off.
pub const ELISION: &'static str = "[...]";

/// The column of the bar between the labels and the numerals, counted from
/// zero: the bar at the left edge, a space, eight digits and a space come
/// before it.
pub const LABEL_BAR: usize = 11;

/// The text cut to its last `length` characters, with the elision mark in
/// place of what was cut off in front. A text of `length` characters or
/// fewer stays as it is.
pub open spec fn truncated(text: Seq<char>, length: nat) -> Seq<char> {
    if text.len() <= length {
        text
    } else {
        ELISION@ + text.subrange(text.len() - length, text.len() as int)
    }
}

/// A size in the largest unit of which it holds at least one: the number of
/// whole units, a dot and the unit. The units are powers of 1000. A size
/// below one kilobyte, zero too, is given in bytes.
pub open spec fn byte_count_text(bytes: nat) -> Seq<char> {
    if bytes >= 1_000_000_000_000 {
        decimal_text(bytes / 1_000_000_000_000) + ".TB"@
    } else if bytes >= 1_000_000_000 {
        decimal_text(bytes / 1_000_000_000) + ".GB"@
    } else if bytes >= 1_000_000 {
        decimal_text(bytes / 1_000_000) + ".MB"@
    } else if bytes >= 1_000 {
        decimal_text(bytes / 1_000) + ".KB"@
    } else {
        decimal_text(bytes) + ".B"@
    }
}

/// The column of the bar between the numerals and the characters.
pub open spec fn content_width(binaryfmt: bool) -> nat {
    row_width(binaryfmt) * unit_width(binaryfmt) + 13
}

/// The number of columns of a row, and of every border line under the
/// caption.
pub open spec fn frame_width(binaryfmt: bool) -> nat {
    content_width(binaryfmt) + row_width(binaryfmt) + 4
}

/// The border above the caption: a box with one cell for the name and one
/// for the size, each as wide as its text and a space on either side.
pub open spec fn top_border(name_len: nat, size_len: nat) -> Seq<char> {
    seq!['┌'] + repeated('─', name_len + 2) + seq!['┬'] + repeated('─', size_len + 2) + seq!['┐']
}

/// The caption: the name and the size between bars.
pub open spec fn caption(name: Seq<char>, size: Seq<char>) -> Seq<char> {
    "│ "@ + name + " │ "@ + size + " │"@
}

/// The glyph at one column of the border between the caption and the rows.
/// The line starts at the left edge and ends in a corner at the right
/// edge. A bar of the caption ends in it from above, at the right of the
/// name's cell and of the size's cell. A bar of the rows starts in it
/// downwards, after the labels and after the numerals. Where both meet the
/// glyph is a cross.
pub open spec fn junction_glyph(column: nat, name_len: nat, size_len: nat, binaryfmt: bool) -> char {
    let from_above = column == name_len + 3 || column == name_len + size_len + 6;
    let to_below = column == LABEL_BAR || column == content_width(binaryfmt);
    if column == 0 {
        '├'
    } else if column + 1 == frame_width(binaryfmt) {
        '┐'
    } else if from_above && to_below {
        '┼'
    } else if from_above {
        '┴'
    } else if to_below {
        '┬'
    } else {
        '─'
    }
}

/// The border between the caption and the rows, as wide as a row.
pub open spec fn junction_border(name_len: nat, size_len: nat, binaryfmt: bool) -> Seq<char> {
    Seq::new(
        frame_width(binaryfmt),
        |column: int| junction_glyph(column as nat, name_len, size_len, binaryfmt),
    )
}

/// The border below the rows, as wide as a row, with the rows' bars ending
/// in it.
pub open spec fn footer_text(binaryfmt: bool) -> Seq<char> {
    seq!['└'] + repeated('─', (LABEL_BAR - 1) as nat) + seq!['┴'] + repeated(
        '─',
        row_width(binaryfmt) * unit_width(binaryfmt) + 1,
    ) + seq!['┴'] + repeated('─', row_width(binaryfmt) + 2) + seq!['┘']
}

/// The three lines of the title for a file of the given name and size.
pub open spec fn title_lines(binaryfmt: bool, filename: Seq<char>, filesize: nat) -> Seq<
    Seq<char>,
> {
    let name = truncated(filename, MAX_NAME_LEN as nat);
    let size = byte_count_text(filesize);
    seq![
        top_border(name.len(), size.len()),
        caption(name, size),
        junction_border(name.len(), size.len(), binaryfmt),
    ]
}

/// A truncated text is no longer than the length it was cut to and the
/// elision mark together.
pub proof fn lemma_truncated_len(text: Seq<char>, length: nat)
    ensures
        truncated(text, length).len() <= length + 5,
        text.len() <= length ==> truncated(text, length).len() == text.len(),
{
    reveal_strlit("[...]");
}

/// The text of a size that fits in 64 bits has between three and eleven
/// characters.
pub proof fn lemma_byte_count_text_len(bytes: nat)
    requires
        bytes <= u64::MAX,
    ensures
        3 <= byte_count_text(bytes).len() <= 11,
{
    reveal_strlit(".TB");
    reveal_strlit(".GB");
    reveal_strlit(".MB");
    reveal_strlit(".KB");
    reveal_strlit(".B");
    reveal_with_fuel(radix_limit, 9);
    assert(radix_limit(10, 8) == 100_000_000);
    assert(radix_limit(10, 3) == 1_000);
    if bytes >= 1_000_000_000_000 {
        lemma_radix_text_len(bytes / 1_000_000_000_000, 10, 1, 8);
    } else if bytes >= 1_000_000_000 {
        lemma_radix_text_len(bytes / 1_000_000_000, 10, 1, 3);
    } else if bytes >= 1_000_000 {
        lemma_radix_text_len(bytes / 1_000_000, 10, 1, 3);
    } else if bytes >= 1_000 {
        lemma_radix_text_len(bytes / 1_000, 10, 1, 3);
    } else {
        lemma_radix_text_len(bytes, 10, 1, 3);
    }
}

/// The caption of a title is narrower than the numeral column's right bar:
/// the bars that end the name's cell and the size's cell both stand left of
/// it, and right of the left edge.
pub proof fn lemma_caption_fits(binaryfmt: bool, filename: Seq<char>, filesize: nat)
    requires
        filesize <= u64::MAX,
    ensures
        0 < truncated(filename, MAX_NAME_LEN as nat).len() + 3 < truncated(
            filename,
            MAX_NAME_LEN as nat,
        ).len() + byte_count_text(filesize).len() + 6 < content_width(binaryfmt),
{
    lemma_truncated_len(filename, MAX_NAME_LEN as nat);
    lemma_byte_count_text_len(filesize);
}

/// The lines of the frame match. The border above the caption is as wide
/// as the caption, and the border under the caption and the footer are
/// both as wide as a row.
pub proof fn lemma_frame_widths(binaryfmt: bool, filename: Seq<char>, filesize: nat)
    ensures
        title_lines(binaryfmt, filename, filesize)[0].len() == title_lines(
            binaryfmt,
            filename,
            filesize,
        )[1].len(),
        title_lines(binaryfmt, filename, filesize)[2].len() == frame_width(binaryfmt),
        footer_text(binaryfmt).len() == frame_width(binaryfmt),
{
    reveal_strlit("│ ");
    reveal_strlit(" │ ");
    reveal_strlit(" │");
}

/// Cuts a text to its last `length` characters and puts the elision mark
/// in front; a text of `length` characters or fewer comes back unchanged.
pub fn truncate_text(s: &str, length: usize) -> (short: String)
    ensures
        short@ == truncated(s@, length as nat),
{
    let total = s.unicode_len();
    if total <= length {
        return String::from_str(s);
    }
    let mut short = String::from_str(ELISION);
    short.append(s.substring_char(total - length, total));
    short
}

/// A line of `length` dashes.
pub fn dashes(length: usize) -> (line: String)
    ensures
        line@ == repeated('─', length as nat),
{
    let mut line = String::new();
    push_repeated(&mut line, '─', length);
    assert(line@ =~= repeated('─', length as nat));
    line
}

/// The size of a file for a reader: the number of whole units of the
/// largest unit that the size reaches, a dot and the unit's name.
pub fn format_byte_count(bytes: usize) -> (text: String)
    ensures
        text@ == byte_count_text(bytes as nat),
{
    let size: u128 = bytes as u128;
    let mut text = String::new();
    if size >= 1_000_000_000_000 {
        push_radix(&mut text, size / 1_000_000_000_000, 10, 1);
        text.append(".TB");
    } else if size >= 1_000_000_000 {
        push_radix(&mut text, size / 1_000_000_000, 10, 1);
        text.append(".GB");
    } else if size >= 1_000_000 {
        push_radix(&mut text, size / 1_000_000, 10, 1);
        text.append(".MB");
    } else if size >= 1_000 {
        push_radix(&mut text, size / 1_000, 10, 1);
        text.append(".KB");
    } else {
        push_radix(&mut text, size, 10, 1);
        text.append(".B");
    }
    assert(text@ =~= byte_count_text(bytes as nat));
    text
}

/// The column of the bar between the numerals and the characters.
pub fn numerals_end(binaryfmt: bool) -> (column: usize)
    ensures
        column == content_width(binaryfmt),
{
    format_count(binaryfmt) * cell_width(binaryfmt) + 13
}

/// The glyph at one column of the border between the caption and the rows.
fn junction(column: usize, name_len: usize, size_len: usize, binaryfmt: bool) -> (glyph: char)
    requires
        name_len + size_len + 6 <= usize::MAX,
        column < frame_width(binaryfmt),
    ensures
        glyph == junction_glyph(column as nat, name_len as nat, size_len as nat, binaryfmt),
{
    let width = format_count(binaryfmt);
    let numerals_bar = numerals_end(binaryfmt);
    let from_above = column == name_len + 3 || column == name_len + size_len + 6;
    let to_below = column == LABEL_BAR || column == numerals_bar;
    if column == 0 {
        '├'
    } else if column + 1 == numerals_bar + width + 4 {
        '┐'
    } else if from_above && to_below {
        '┼'
    } else if from_above {
        '┴'
    } else if to_below {
        '┬'
    } else {
        '─'
    }
}

/// The title: the border above the caption, the caption with the name of
/// the file and its size, and the border that joins the caption to the
/// rows. A name of more than thirty characters is cut to its last thirty.
pub fn display_title(binaryfmt: bool, filename: String, filesize: usize) -> (lines: Vec<String>)
    ensures
        texts(lines@) == title_lines(binaryfmt, filename@, filesize as nat),
{
    let name = truncate_text(filename.as_str(), MAX_NAME_LEN);
    let size = format_byte_count(filesize);
    let name_len = name.as_str().unicode_len();
    let size_len = size.as_str().unicode_len();
    proof {
        lemma_truncated_len(filename@, MAX_NAME_LEN as nat);
        lemma_byte_count_text_len(filesize as nat);
    }

    let mut top = String::new();
    top.push('┌');
    top.append(dashes(name_len + 2).as_str());
    top.push('┬');
    top.append(dashes(size_len + 2).as_str());
    top.push('┐');
    assert(top@ =~= top_border(name_len as nat, size_len as nat));

    let mut middle = String::from_str("│ ");
    middle.append(name.as_str());
    middle.append(" │ ");
    middle.append(size.as_str());
    middle.append(" │");
    assert(middle@ =~= caption(name@, size@));

    let columns: usize = numerals_end(binaryfmt) + format_count(binaryfmt) + 4;
    let mut joint = String::new();
    let mut column: usize = 0;
    while column < columns
        invariant
            column <= columns,
            columns == frame_width(binaryfmt),
            name_len + size_len + 6 <= usize::MAX,
            joint@ == junction_border(name_len as nat, size_len as nat, binaryfmt).take(
                column as int,
            ),
        decreases columns - column,
    {
        joint.push(junction(column, name_len, size_len, binaryfmt));
        column += 1;
        assert(joint@ =~= junction_border(name_len as nat, size_len as nat, binaryfmt).take(
            column as int,
        ));
    }
    assert(joint@ =~= junction_border(name_len as nat, size_len as nat, binaryfmt));

    let mut lines: Vec<String> = Vec::new();
    lines.push(top);
    lines.push(middle);
    lines.push(joint);
    assert(texts(lines@) =~= title_lines(binaryfmt, filename@, filesize as nat));
    lines
}

/// The footer: the border that closes the frame below the rows.
pub fn display_footer(binaryfmt: bool) -> (line: String)
    ensures
        line@ == footer_text(binaryfmt),
{
    let width = format_count(binaryfmt);
    let mut line = String::new();
    line.push('└');
    line.append(dashes(LABEL_BAR - 1).as_str());
    line.push('┴');
    line.append(dashes(width * cell_width(binaryfmt) + 1).as_str());
    line.push('┴');
    line.append(dashes(width + 2).as_str());
    line.push('┘');
    assert(line@ =~= footer_text(binaryfmt));
    line
}

} // verus!
