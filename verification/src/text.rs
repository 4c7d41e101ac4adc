//! Text building blocks: decimal numbers, column alignment, terminal colours and
//! grapheme clusters.

use unicode_segmentation::UnicodeSegmentation;
use vstd::prelude::*;
use vstd::string::*;

verus! {

/// A foreground colour for text written to a terminal.
#[derive(Clone, Copy, Debug, PartialEq, Eq, Structural)]
pub enum TextColor {
    /// The standard green.
    Green,
    /// One of the 256 indexed colours.
    Fixed(u8),
}

/// The character of one decimal digit.
pub open spec fn digit_char(d: nat) -> char {
    if d == 0 {
        '0'
    } else if d == 1 {
        '1'
    } else if d == 2 {
        '2'
    } else if d == 3 {
        '3'
    } else if d == 4 {
        '4'
    } else if d == 5 {
        '5'
    } else if d == 6 {
        '6'
    } else if d == 7 {
        '7'
    } else if d == 8 {
        '8'
    } else {
        '9'
    }
}

/// The decimal notation of `n`, without leading zeros.
pub open spec fn decimal(n: nat) -> Seq<char>
    decreases n,
{
    if n < 10 {
        seq![digit_char(n)]
    } else {
        decimal(n / 10).push(digit_char(n % 10))
    }
}

/// `text` moved to the right edge of a column `width` characters wide. Text that is
/// wider than the column is kept whole.
pub open spec fn right_aligned(text: Seq<char>, width: nat) -> Seq<char> {
    Seq::new(
        if width > text.len() {
            (width - text.len()) as nat
        } else {
            0
        },
        |i: int| ' ',
    ) + text
}

/// The digits that select `color` as the foreground in an escape sequence.
pub open spec fn foreground_code(color: TextColor) -> Seq<char> {
    match color {
        TextColor::Green => seq!['3', '2'],
        TextColor::Fixed(n) => seq!['3', '8', ';', '5', ';'] + decimal(n as nat),
    }
}

/// `text` wrapped into the escape sequences that switch `color` on before it and
/// everything off after it. Without a colour the text stays as it is.
pub open spec fn painted(color: Option<TextColor>, text: Seq<char>) -> Seq<char> {
    match color {
        None => text,
        Some(c) => seq!['\x1B', '['] + foreground_code(c) + seq!['m'] + text + seq![
            '\x1B',
            '[',
            '0',
            'm',
        ],
    }
}

/// The extended grapheme clusters of a text, in order, as the Unicode text
/// segmentation rules divide it.
pub uninterp spec fn grapheme_clusters(text: Seq<char>) -> Seq<Seq<char>>;

/// The views of a list of strings.
pub open spec fn views(strings: Seq<String>) -> Seq<Seq<char>> {
    strings.map_values(|s: String| s@)
}

/// All of `parts` in a row.
pub open spec fn joined(parts: Seq<Seq<char>>) -> Seq<char>
    decreases parts.len(),
{
    if parts.len() == 0 {
        Seq::empty()
    } else {
        joined(parts.drop_last()) + parts.last()
    }
}

/// `String::push` of the standard library: the string grows by exactly the one
/// character at its end.
#[verifier::external_body]
pub(crate) fn push_char(s: &mut String, c: char)
    ensures
        final(s)@ == old(s)@.push(c),
{
    s.push(c)
}

/// `Style::paint` of `ansi_term`, written out as a string. A style that holds nothing
/// but a foreground colour puts `ESC [ <code> m` before the text and the reset
/// sequence `ESC [ 0 m` after it; the empty style adds nothing.
#[verifier::external_body]
pub(crate) fn paint(color: Option<TextColor>, text: &str) -> (res: String)
    ensures
        res@ == painted(color, text@),
{
    let style = match color {
        None => ansi_term::Style::new(),
        Some(TextColor::Green) => ansi_term::Style::new().fg(ansi_term::Colour::Green),
        Some(TextColor::Fixed(n)) => ansi_term::Style::new().fg(ansi_term::Colour::Fixed(n)),
    };
    style.paint(text).to_string()
}

/// `UnicodeSegmentation::graphemes` of `unicode_segmentation` for extended clusters,
/// each cluster copied into a string of its own.
#[verifier::external_body]
pub(crate) fn graphemes(text: &str) -> (res: Vec<String>)
    ensures
        views(res@) == grapheme_clusters(text@),
{
    UnicodeSegmentation::graphemes(text, true).map(|g| g.to_string()).collect()
}

fn digit(d: u64) -> (c: char)
    requires
        d < 10,
    ensures
        c == digit_char(d as nat),
{
    if d == 0 {
        '0'
    } else if d == 1 {
        '1'
    } else if d == 2 {
        '2'
    } else if d == 3 {
        '3'
    } else if d == 4 {
        '4'
    } else if d == 5 {
        '5'
    } else if d == 6 {
        '6'
    } else if d == 7 {
        '7'
    } else if d == 8 {
        '8'
    } else {
        '9'
    }
}

/// Appends the decimal notation of `n` to `out`.
pub fn push_decimal(out: &mut String, n: u64)
    ensures
        final(out)@ == old(out)@ + decimal(n as nat),
    decreases n,
{
    if n >= 10 {
        push_decimal(out, n / 10);
    }
    push_char(out, digit(n % 10));
}

/// Appends `count` spaces to `out`.
pub fn push_spaces(out: &mut String, count: usize)
    ensures
        final(out)@ == old(out)@ + Seq::new(count as nat, |i: int| ' '),
{
    let mut done: usize = 0;
    while done < count
        invariant
            done <= count,
            out@ == old(out)@ + Seq::new(done as nat, |i: int| ' '),
        decreases count - done,
    {
        push_char(out, ' ');
        done += 1;
    }
}

/// Right-aligns `text` in a column of `width` characters.
pub fn pad_left(text: &str, width: usize) -> (res: String)
    ensures
        res@ == right_aligned(text@, width as nat),
{
    let len = text.unicode_len();
    let mut res = String::new();
    if width > len {
        push_spaces(&mut res, width - len);
    }
    res.append(text);
    res
}

} // verus!
