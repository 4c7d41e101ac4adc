//! Keys, cursor movement and fitting text into a width.

use crate::text::{grapheme_clusters, graphemes, joined, push_char, views};
use vstd::prelude::*;
use vstd::string::*;

verus! {

/// A key as the terminal reports it. The Enter key is `Char('\n')`.
#[derive(Clone, Copy, Debug, PartialEq, Eq, Structural)]
pub enum Key {
    /// A character key.
    Char(char),
    /// A character key with Ctrl held down.
    Ctrl(char),
    /// A character key with Alt held down.
    Alt(char),
    /// The up arrow.
    Up,
    /// The down arrow.
    Down,
    /// The left arrow.
    Left,
    /// The right arrow.
    Right,
    /// Page up.
    PageUp,
    /// Page down.
    PageDown,
    /// Backspace.
    Backspace,
    /// Escape.
    Esc,
    /// Any key that has no meaning here.
    Other,
}

/// The ways to move a selection.
#[derive(Clone, Copy, Debug, PartialEq, Eq, Structural)]
pub enum CursorDirection {
    /// Down by a page.
    PageDown,
    /// Down by one.
    Down,
    /// Up by one.
    Up,
    /// Up by a page.
    PageUp,
}

/// The number of entries that a page holds.
pub const PAGE_SIZE: usize = 10;

impl CursorDirection {
    /// Where a cursor at `n` stands after the move, in a list without end. Moves
    /// stop at zero and at the largest number there is.
    pub open spec fn moved(self, n: usize) -> usize {
        match self {
            CursorDirection::Down => if n < usize::MAX {
                (n + 1) as usize
            } else {
                n
            },
            CursorDirection::Up => if n > 0 {
                (n - 1) as usize
            } else {
                n
            },
            CursorDirection::PageDown => if n <= usize::MAX - PAGE_SIZE {
                (n + PAGE_SIZE) as usize
            } else {
                usize::MAX
            },
            CursorDirection::PageUp => if n >= PAGE_SIZE {
                (n - PAGE_SIZE) as usize
            } else {
                0
            },
        }
    }

    /// Moves a cursor that stands at `n`.
    pub fn move_cursor(&self, n: usize) -> (to: usize)
        ensures
            to == self.moved(n),
    {
        match self {
            CursorDirection::Down => n.saturating_add(1),
            CursorDirection::Up => n.saturating_sub(1),
            CursorDirection::PageDown => n.saturating_add(PAGE_SIZE),
            CursorDirection::PageUp => n.saturating_sub(PAGE_SIZE),
        }
    }
}

/// How many of its clusters a text keeps when it is cut down to `desired` clusters:
/// one place goes to the ellipsis.
pub open spec fn kept_clusters(desired: nat) -> nat {
    if desired >= 1 {
        (desired - 1) as nat
    } else {
        0
    }
}

/// `text`, which consists of `clusters`, fitted into `desired` clusters. A text that
/// is short enough stays as it is. A longer one loses its beginning: an ellipsis
/// stands for what was cut, and the last clusters follow it.
pub open spec fn fitted_text(text: Seq<char>, clusters: Seq<Seq<char>>, desired: nat) -> Seq<char> {
    if clusters.len() <= desired {
        text
    } else {
        seq!['…'] + joined(clusters.skip(clusters.len() - kept_clusters(desired)))
    }
}

/// The number of clusters of [`fitted_text`].
pub open spec fn fitted_len(clusters: Seq<Seq<char>>, desired: nat) -> nat {
    if clusters.len() <= desired {
        clusters.len()
    } else {
        1 + kept_clusters(desired)
    }
}

/// Fits `text`, whose grapheme clusters are `clusters`, into `desired` clusters and
/// says how many clusters the result has.
pub fn fit_graphemes_with_ellipsis(text: String, clusters: &Vec<String>, desired: usize) -> (res: (
    String,
    usize,
))
    ensures
        res.0@ == fitted_text(text@, views(clusters@), desired as nat),
        res.1 == fitted_len(views(clusters@), desired as nat),
{
    let count = clusters.len();
    if count <= desired {
        return (text, count);
    }
    let kept: usize = if desired >= 1 {
        desired - 1
    } else {
        0
    };
    let first = count - kept;
    let mut buf = String::new();
    push_char(&mut buf, '…');
    let mut i: usize = first;
    let ghost tail = views(clusters@).skip(first as int);
    while i < count
        invariant
            first <= i <= count,
            count == clusters.len(),
            tail == views(clusters@).skip(first as int),
            buf@ == seq!['…'] + joined(tail.take(i - first)),
        decreases count - i,
    {
        proof {
            assert(tail.take(i + 1 - first).drop_last() =~= tail.take(i - first));
            assert(tail.take(i + 1 - first).last() == clusters@[i as int]@);
        }
        buf.append(clusters[i].as_str());
        i += 1;
    }
    proof {
        assert(tail.take(count - first) =~= tail);
    }
    (buf, 1 + kept)
}

/// Fits `text` into `desired` grapheme clusters, cutting at its beginning, and says
/// how many clusters the result has.
pub fn fit_string_graphemes_with_ellipsis(text: String, desired: usize) -> (res: (String, usize))
    ensures
        res.0@ == fitted_text(text@, grapheme_clusters(text@), desired as nat),
        res.1 == fitted_len(grapheme_clusters(text@), desired as nat),
{
    let clusters = graphemes(text.as_str());
    fit_graphemes_with_ellipsis(text, &clusters, desired)
}

} // verus!
