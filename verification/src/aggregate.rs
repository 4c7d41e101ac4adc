//! Totals per root: what each entry of a walk contributes, the statistics of a
//! walk, and the lines that report the result.

use crate::common::{Color, Inode, Metadata, WalkItem, WalkOptions, WalkResult};
use crate::inodefilter::InodeFilter;
use crate::sorting::{arranged, is_stable_order, stable_order, SortKey};
use crate::text::{decimal, pad_left, paint, painted, push_char, push_decimal, right_aligned, TextColor};
use vstd::prelude::*;
use vstd::string::*;

verus! {

/// Statistics obtained during a filesystem walk
#[derive(Clone, Copy, Debug, PartialEq, Eq, Structural)]
pub struct Statistics {
    /// The amount of entries we have seen during filesystem traversal
    pub entries_traversed: u64,
    /// The size of the smallest file encountered in bytes
    pub smallest_file_in_bytes: u64,
    /// The size of the largest file encountered in bytes
    pub largest_file_in_bytes: u64,
}

impl Default for Statistics {
    fn default() -> (stats: Statistics)
        ensures
            stats == (Statistics {
                entries_traversed: 0,
                smallest_file_in_bytes: 0,
                largest_file_in_bytes: 0,
            }),
    {
        Statistics { entries_traversed: 0, smallest_file_in_bytes: 0, largest_file_in_bytes: 0 }
    }
}

/// A root together with everything that walking it yielded, in the order of the walk.
#[derive(Clone, Debug)]
pub struct RootWalk {
    /// The root as the user gave it.
    pub path: String,
    /// Whether the root is a plain file.
    pub is_file: bool,
    /// What the walk yielded.
    pub items: Vec<WalkItem>,
}

/// The totals of one path.
#[derive(Clone, Debug, PartialEq, Eq)]
pub struct PathTotal {
    /// The path the totals belong to.
    pub path: String,
    /// Whether the path is a plain file.
    pub is_file: bool,
    /// The bytes counted below the path.
    pub num_bytes: u64,
    /// The entries below the path that could not be read or measured.
    pub num_errors: u64,
}

/// The totals of one path, as mathematical values.
pub struct PathTotalView {
    pub path: Seq<char>,
    pub is_file: bool,
    pub num_bytes: nat,
    pub num_errors: nat,
}

impl View for PathTotal {
    type V = PathTotalView;

    open spec fn view(&self) -> PathTotalView {
        PathTotalView {
            path: self.path@,
            is_file: self.is_file,
            num_bytes: self.num_bytes as nat,
            num_errors: self.num_errors as nat,
        }
    }
}

/// The views of a list of totals.
pub open spec fn total_views(totals: Seq<PathTotal>) -> Seq<PathTotalView> {
    totals.map_values(|t: PathTotal| t@)
}

/// What a walk has counted so far.
pub struct Tally {
    /// The files seen, for counting hard links once.
    pub seen: Set<Inode>,
    /// The entries traversed, over all roots.
    pub entries: nat,
    /// The smallest size of an entry, over all roots; 0 while there is no entry.
    pub smallest: nat,
    /// The largest size of an entry, over all roots.
    pub largest: nat,
    /// The bytes counted for the current root.
    pub num_bytes: nat,
    /// The errors counted for the current root.
    pub num_errors: nat,
}

impl Tally {
    /// Nothing seen, nothing counted.
    pub open spec fn start() -> Tally {
        Tally {
            seen: Set::empty(),
            entries: 0,
            smallest: 0,
            largest: 0,
            num_bytes: 0,
            num_errors: 0,
        }
    }

    /// The same tally at the start of the next root: the counts of the root begin at
    /// zero, the files seen and the statistics are kept.
    pub open spec fn next_root(self) -> Tally {
        Tally { num_bytes: 0, num_errors: 0, ..self }
    }

    /// Whether the smallest size is at most the largest once there is an entry.
    pub open spec fn is_ordered(self) -> bool {
        self.entries > 0 ==> self.smallest <= self.largest
    }
}

/// Whether a file with `metadata` is counted, given the files `seen` before it.
/// Directories are never counted; a file that was seen before is counted again only
/// if hard links count.
pub open spec fn is_counted(options: WalkOptions, seen: Set<Inode>, metadata: Metadata) -> bool {
    !metadata.is_dir && (options.count_hard_links || InodeFilter::is_new(seen, metadata))
}

/// The bytes that `item` contributes, given the files `seen` before it.
pub open spec fn size_of(options: WalkOptions, seen: Set<Inode>, item: WalkItem) -> nat {
    match item.metadata() {
        Some(metadata) => if is_counted(options, seen, metadata) {
            if options.apparent_size {
                metadata.len as nat
            } else {
                match metadata.size_on_disk {
                    Some(size) => size as nat,
                    None => 0,
                }
            }
        } else {
            0
        },
        None => 0,
    }
}

/// Whether `item` counts as an error: it could not be read, it has no metadata, or
/// the space it occupies on disk was asked for and could not be found out.
pub open spec fn is_error(options: WalkOptions, seen: Set<Inode>, item: WalkItem) -> bool {
    match item.metadata() {
        Some(metadata) => is_counted(options, seen, metadata) && !options.apparent_size
            && metadata.size_on_disk is None,
        None => true,
    }
}

/// The files seen after `item`. Only files are recorded, and only while hard links
/// are counted once.
pub open spec fn seen_with(options: WalkOptions, seen: Set<Inode>, item: WalkItem) -> Set<Inode> {
    match item.metadata() {
        Some(metadata) => if !metadata.is_dir && !options.count_hard_links {
            InodeFilter::seen_after(seen, metadata)
        } else {
            seen
        },
        None => seen,
    }
}

/// The tally after one more item.
pub open spec fn step(options: WalkOptions, tally: Tally, item: WalkItem) -> Tally {
    let size = size_of(options, tally.seen, item);
    Tally {
        seen: seen_with(options, tally.seen, item),
        entries: tally.entries + 1,
        smallest: if tally.entries == 0 || size < tally.smallest {
            size
        } else {
            tally.smallest
        },
        largest: if size > tally.largest {
            size
        } else {
            tally.largest
        },
        num_bytes: tally.num_bytes + size,
        num_errors: tally.num_errors + if is_error(options, tally.seen, item) {
            1nat
        } else {
            0nat
        },
    }
}

/// The tally after all of `items`, in their order.
pub open spec fn walked(options: WalkOptions, tally: Tally, items: Seq<WalkItem>) -> Tally
    decreases items.len(),
{
    if items.len() == 0 {
        tally
    } else {
        step(options, walked(options, tally, items.drop_last()), items.last())
    }
}

/// What walking a list of roots amounts to.
pub struct Summary {
    /// The tally after the last root.
    pub tally: Tally,
    /// The totals of each root, in the order of the roots.
    pub totals: Seq<PathTotalView>,
    /// The bytes of all roots together.
    pub total_bytes: nat,
    /// The errors of all roots together.
    pub total_errors: nat,
}

impl Summary {
    /// Whether every count can be held in 64 bits.
    pub open spec fn fits(self) -> bool {
        &&& self.total_bytes <= u64::MAX
        &&& self.total_errors <= u64::MAX
        &&& self.tally.entries <= u64::MAX
    }

    /// The statistics of the walk.
    pub open spec fn statistics(self) -> (nat, nat, nat) {
        (self.tally.entries, self.tally.smallest, self.tally.largest)
    }
}

/// The summary of walking `roots` one after the other. Files seen below one root
/// stay seen below the next.
pub open spec fn summarized(options: WalkOptions, roots: Seq<RootWalk>) -> Summary
    decreases roots.len(),
{
    if roots.len() == 0 {
        Summary { tally: Tally::start(), totals: Seq::empty(), total_bytes: 0, total_errors: 0 }
    } else {
        let before = summarized(options, roots.drop_last());
        let root = roots.last();
        let tally = walked(options, before.tally.next_root(), root.items@);
        Summary {
            tally,
            totals: before.totals.push(
                PathTotalView {
                    path: root.path@,
                    is_file: root.is_file,
                    num_bytes: tally.num_bytes,
                    num_errors: tally.num_errors,
                },
            ),
            total_bytes: before.total_bytes + tally.num_bytes,
            total_errors: before.total_errors + tally.num_errors,
        }
    }
}

/// The byte counts of a list of totals.
pub open spec fn byte_counts(totals: Seq<PathTotalView>) -> Seq<u64> {
    totals.map_values(|t: PathTotalView| t.num_bytes as u64)
}

/// Whether `lines` are `totals` sorted by ascending byte count, with totals of equal
/// byte count in the order they had.
pub open spec fn is_ascending_arrangement(lines: Seq<PathTotalView>, totals: Seq<PathTotalView>) -> bool {
    exists|order: Seq<usize>|
        is_stable_order(order, byte_counts(totals)) && lines == arranged(totals, order)
}

/// The line that sums up all roots.
pub open spec fn total_line(summary: Summary) -> PathTotalView {
    PathTotalView {
        path: "total"@,
        is_file: false,
        num_bytes: summary.total_bytes,
        num_errors: summary.total_errors,
    }
}

/// Whether `lines` report the walk of `roots`: one line per root, in the order of the
/// roots or sorted by size, and after them the total line if it was asked for and
/// there is more than one root.
pub open spec fn is_report(
    lines: Seq<PathTotalView>,
    options: WalkOptions,
    compute_total: bool,
    sort_by_size_in_bytes: bool,
    roots: Seq<RootWalk>,
) -> bool {
    let summary = summarized(options, roots);
    let with_total = roots.len() > 1 && compute_total;
    &&& lines.len() == roots.len() + if with_total {
        1nat
    } else {
        0nat
    }
    &&& if sort_by_size_in_bytes {
        is_ascending_arrangement(lines.take(roots.len() as int), summary.totals)
    } else {
        lines.take(roots.len() as int) == summary.totals
    }
    &&& with_total ==> lines[roots.len() as int] == total_line(summary)
}

/// The result of an aggregation.
#[derive(Clone, Debug)]
pub struct Report {
    /// The lines to print, in their order.
    pub lines: Vec<PathTotal>,
    /// The errors of all roots together.
    pub result: WalkResult,
    /// The statistics of the walk.
    pub stats: Statistics,
}

/// The aggregation counted more than 64 bits can hold.
#[derive(Clone, Copy, Debug, PartialEq, Eq, Structural)]
pub struct TooLarge;

/// Measures one item: the bytes it contributes and whether it counts as an error.
/// Files are recorded in `filter` while hard links are counted once.
pub fn measure(options: &WalkOptions, filter: &mut InodeFilter, item: &WalkItem) -> (res: (
    u64,
    bool,
))
    ensures
        res.0 == size_of(*options, old(filter)@, *item),
        res.1 == is_error(*options, old(filter)@, *item),
        final(filter)@ == seen_with(*options, old(filter)@, *item),
{
    match item {
        WalkItem::Failed => (0, true),
        WalkItem::Found(entry) => match &entry.metadata {
            None => (0, true),
            Some(metadata) => {
                if metadata.is_dir {
                    return (0, false);
                }
                let counted = if options.count_hard_links {
                    true
                } else {
                    filter.add(metadata)
                };
                if !counted {
                    (0, false)
                } else if options.apparent_size {
                    (metadata.len, false)
                } else {
                    match metadata.size_on_disk {
                        Some(size) => (size, false),
                        None => (0, true),
                    }
                }
            },
        },
    }
}

fn duplicate(total: &PathTotal) -> (copy: PathTotal)
    ensures
        copy@ == total@,
{
    PathTotal {
        path: total.path.clone(),
        is_file: total.is_file,
        num_bytes: total.num_bytes,
        num_errors: total.num_errors,
    }
}

/// Aggregates what walking `roots` yielded: the totals of each root, the statistics
/// of the whole walk, and the lines that report them.
///
/// If `sort_by_size_in_bytes` is set, the lines of the roots are sorted by ascending
/// size. If `compute_total` is set and there is more than one root, a line with the
/// totals of all roots follows them.
pub fn aggregate(
    options: &WalkOptions,
    compute_total: bool,
    sort_by_size_in_bytes: bool,
    roots: &Vec<RootWalk>,
) -> (res: Result<Report, TooLarge>)
    ensures
        res is Ok <==> summarized(*options, roots@).fits(),
        res matches Ok(report) ==> {
            let summary = summarized(*options, roots@);
            &&& is_report(
                total_views(report.lines@),
                *options,
                compute_total,
                sort_by_size_in_bytes,
                roots@,
            )
            &&& report.result.num_errors == summary.total_errors
            &&& report.stats.entries_traversed == summary.tally.entries
            &&& report.stats.smallest_file_in_bytes == summary.tally.smallest
            &&& report.stats.largest_file_in_bytes == summary.tally.largest
            &&& report.stats.entries_traversed > 0 ==> report.stats.smallest_file_in_bytes
                <= report.stats.largest_file_in_bytes
        },
{
    let mut filter = InodeFilter::new();
    let mut stats = Statistics::default();
    let mut totals: Vec<PathTotal> = Vec::new();
    let mut total: u64 = 0;
    let mut total_errors: u64 = 0;
    let mut over = false;
    let mut r: usize = 0;
    while r < roots.len()
        invariant
            r <= roots.len(),
            totals.len() == r,
            filter@ == summarized(*options, roots@.take(r as int)).tally.seen,
            summarized(*options, roots@.take(r as int)).tally.is_ordered(),
            over <==> !summarized(*options, roots@.take(r as int)).fits(),
            !over ==> {
                let s = summarized(*options, roots@.take(r as int));
                &&& total == s.total_bytes
                &&& total_errors == s.total_errors
                &&& stats.entries_traversed == s.tally.entries
                &&& stats.smallest_file_in_bytes == s.tally.smallest
                &&& stats.largest_file_in_bytes == s.tally.largest
                &&& total_views(totals@) == s.totals
            },
        decreases roots.len() - r,
    {
        let root = &roots[r];
        let ghost before = summarized(*options, roots@.take(r as int));
        let ghost start = before.tally.next_root();
        let ghost over_before = over;
        let mut num_bytes: u64 = 0;
        let mut num_errors: u64 = 0;
        let mut k: usize = 0;
        while k < root.items.len()
            invariant
                k <= root.items.len(),
                filter@ == walked(*options, start, root.items@.take(k as int)).seen,
                walked(*options, start, root.items@.take(k as int)).is_ordered(),
                walked(*options, start, root.items@.take(k as int)).entries >= start.entries,
                over <==> over_before || {
                    let t = walked(*options, start, root.items@.take(k as int));
                    t.num_bytes > u64::MAX || t.num_errors > u64::MAX || t.entries > u64::MAX
                },
                !over ==> {
                    let t = walked(*options, start, root.items@.take(k as int));
                    &&& num_bytes == t.num_bytes
                    &&& num_errors == t.num_errors
                    &&& stats.entries_traversed == t.entries
                    &&& stats.smallest_file_in_bytes == t.smallest
                    &&& stats.largest_file_in_bytes == t.largest
                },
            decreases root.items.len() - k,
        {
            proof {
                assert(root.items@.take(k + 1).drop_last() =~= root.items@.take(k as int));
            }
            let (size, failed) = measure(options, &mut filter, &root.items[k]);
            if stats.entries_traversed == 0 || size < stats.smallest_file_in_bytes {
                stats.smallest_file_in_bytes = size;
            }
            if size > stats.largest_file_in_bytes {
                stats.largest_file_in_bytes = size;
            }
            match stats.entries_traversed.checked_add(1) {
                Some(n) => {
                    stats.entries_traversed = n;
                },
                None => {
                    over = true;
                },
            }
            match num_bytes.checked_add(size) {
                Some(n) => {
                    num_bytes = n;
                },
                None => {
                    over = true;
                },
            }
            if failed {
                match num_errors.checked_add(1) {
                    Some(n) => {
                        num_errors = n;
                    },
                    None => {
                        over = true;
                    },
                }
            }
            k += 1;
        }
        proof {
            assert(root.items@.take(k as int) =~= root.items@);
            assert(roots@.take(r + 1).drop_last() =~= roots@.take(r as int));
        }
        let ghost old_totals = totals@;
        totals.push(
            PathTotal { path: root.path.clone(), is_file: root.is_file, num_bytes, num_errors },
        );
        proof {
            if !over {
                let s = summarized(*options, roots@.take(r + 1));
                assert(total_views(totals@) =~= total_views(old_totals).push(totals@.last()@));
                assert(total_views(totals@) =~= s.totals);
            }
        }
        match total.checked_add(num_bytes) {
            Some(n) => {
                total = n;
            },
            None => {
                over = true;
            },
        }
        match total_errors.checked_add(num_errors) {
            Some(n) => {
                total_errors = n;
            },
            None => {
                over = true;
            },
        }
        r += 1;
    }
    proof {
        assert(roots@.take(r as int) =~= roots@);
    }
    if over {
        return Err(TooLarge);
    }
    let ghost summary = summarized(*options, roots@);
    let mut lines: Vec<PathTotal> = Vec::new();
    if sort_by_size_in_bytes {
        let mut keys: Vec<u64> = Vec::new();
        let mut i: usize = 0;
        while i < totals.len()
            invariant
                i <= totals.len(),
                keys.len() == i,
                forall|j: int| 0 <= j < i ==> keys[j] == totals[j].num_bytes,
            decreases totals.len() - i,
        {
            keys.push(totals[i].num_bytes);
            i += 1;
        }
        proof {
            assert(keys@ =~= byte_counts(summary.totals));
        }
        let order = stable_order(&keys);
        let mut i: usize = 0;
        while i < order.len()
            invariant
                i <= order.len(),
                lines.len() == i,
                order.len() == totals.len(),
                is_stable_order(order@, keys@),
                forall|j: int| 0 <= j < i ==> lines[j]@ == totals[order[j] as int]@,
            decreases order.len() - i,
        {
            lines.push(duplicate(&totals[order[i]]));
            i += 1;
        }
        proof {
            assert(total_views(lines@) =~= arranged(summary.totals, order@));
            assert(total_views(lines@).take(roots.len() as int) =~= total_views(lines@));
        }
    } else {
        lines = totals;
        proof {
            assert(total_views(lines@).take(roots.len() as int) =~= total_views(lines@));
        }
    }
    if roots.len() > 1 && compute_total {
        let ghost root_lines = total_views(lines@);
        lines.push(
            PathTotal {
                path: String::from_str("total"),
                is_file: false,
                num_bytes: total,
                num_errors: total_errors,
            },
        );
        proof {
            assert(total_views(lines@).take(roots.len() as int) =~= root_lines);
        }
    }
    Ok(Report { lines, result: WalkResult { num_errors: total_errors }, stats })
}

/// The colour in which a path is written: plain files are dimmed, everything else
/// keeps the colour of the terminal.
pub fn path_color(is_file: bool) -> (color: Option<TextColor>)
    ensures
        color == if is_file {
            Some(TextColor::Fixed(8))
        } else {
            None
        },
{
    if is_file {
        Some(TextColor::Fixed(8))
    } else {
        None
    }
}

/// What a line says about errors: nothing if there are none, else their number.
pub open spec fn error_suffix(num_errors: nat) -> Seq<char> {
    if num_errors == 0 {
        Seq::empty()
    } else {
        "  <"@ + decimal(num_errors) + " IO Error"@ + if num_errors > 1 {
            "s"@
        } else {
            Seq::empty()
        } + ">"@
    }
}

/// The line that reports one path: the byte count right-aligned in its column, a
/// space, the path, and the errors if there are any. With colours switched on the
/// byte count is green and the path has the colour given.
pub open spec fn path_line(
    options: WalkOptions,
    bytes_text: Seq<char>,
    byte_column_width: nat,
    path: Seq<char>,
    num_errors: nat,
    path_color: Option<TextColor>,
) -> Seq<char> {
    let colored = options.color == Color::Terminal;
    painted(
        if colored {
            Some(TextColor::Green)
        } else {
            None
        },
        right_aligned(bytes_text, byte_column_width),
    ) + seq![' '] + painted(
        if colored {
            path_color
        } else {
            None
        },
        path,
    ) + error_suffix(num_errors)
}

/// Appends the line that reports one path to `out`, with a line feed after it.
/// `bytes_text` is the byte count as it is to be shown.
pub fn write_path(
    out: &mut String,
    options: &WalkOptions,
    bytes_text: &str,
    byte_column_width: usize,
    path: &str,
    num_errors: u64,
    path_color: Option<TextColor>,
)
    ensures
        final(out)@ == old(out)@ + path_line(
            *options,
            bytes_text@,
            byte_column_width as nat,
            path@,
            num_errors as nat,
            path_color,
        ) + seq!['\n'],
{
    let colored = match options.color {
        Color::Terminal => true,
        Color::Off => false,
    };
    let aligned = pad_left(bytes_text, byte_column_width);
    let bytes_string = paint(
        if colored {
            Some(TextColor::Green)
        } else {
            None
        },
        aligned.as_str(),
    );
    let path_string = paint(
        if colored {
            path_color
        } else {
            None
        },
        path,
    );
    out.append(bytes_string.as_str());
    push_char(out, ' ');
    out.append(path_string.as_str());
    let ghost head = out@;
    if num_errors > 0 {
        out.append("  <");
        push_decimal(out, num_errors);
        out.append(" IO Error");
        if num_errors > 1 {
            out.append("s");
        }
        out.append(">");
    }
    proof {
        assert(out@ =~= head + error_suffix(num_errors as nat));
    }
    push_char(out, '\n');
    proof {
        assert(out@ =~= old(out)@ + path_line(
            *options,
            bytes_text@,
            byte_column_width as nat,
            path@,
            num_errors as nat,
            path_color,
        ) + seq!['\n']);
    }
}

/// Once an entry was traversed, the smallest size is at most the largest.
pub proof fn lemma_walk_keeps_sizes_ordered(options: WalkOptions, tally: Tally, items: Seq<WalkItem>)
    requires
        tally.is_ordered(),
    ensures
        walked(options, tally, items).is_ordered(),
    decreases items.len(),
{
    if items.len() > 0 {
        lemma_walk_keeps_sizes_ordered(options, tally, items.drop_last());
    }
}

/// The statistics of any walk are ordered: with at least one entry traversed, the
/// smallest size is at most the largest.
pub proof fn lemma_statistics_are_ordered(options: WalkOptions, roots: Seq<RootWalk>)
    ensures
        summarized(options, roots).tally.is_ordered(),
    decreases roots.len(),
{
    if roots.len() > 0 {
        lemma_statistics_are_ordered(options, roots.drop_last());
        lemma_walk_keeps_sizes_ordered(
            options,
            summarized(options, roots.drop_last()).tally.next_root(),
            roots.last().items@,
        );
    }
}

/// Whether two items say the same of a file if both are links to it.
pub open spec fn links_agree(a: WalkItem, b: WalkItem) -> bool {
    match (a.metadata(), b.metadata()) {
        (Some(m), Some(n)) => !m.is_dir && !n.is_dir && m.inode is Some && m.inode == n.inode
            ==> m == n,
        _ => true,
    }
}

/// Whether all links to one file among `items` say the same of it.
pub open spec fn is_consistent(items: Seq<WalkItem>) -> bool {
    forall|i: int, j: int|
        0 <= i < items.len() && 0 <= j < items.len() ==> links_agree(
            #[trigger] items[i],
            #[trigger] items[j],
        )
}

/// Walking two lists one after the other is walking them in a row.
pub proof fn lemma_walk_in_parts(options: WalkOptions, tally: Tally, a: Seq<WalkItem>, b: Seq<WalkItem>)
    ensures
        walked(options, tally, a + b) == walked(options, walked(options, tally, a), b),
    decreases b.len(),
{
    if b.len() == 0 {
        assert(a + b =~= a);
    } else {
        lemma_walk_in_parts(options, tally, a, b.drop_last());
        assert((a + b).drop_last() =~= a + b.drop_last());
    }
}

/// Two items that follow each other may change places.
pub proof fn lemma_steps_commute(options: WalkOptions, tally: Tally, x: WalkItem, y: WalkItem)
    requires
        links_agree(x, y),
        links_agree(y, x),
    ensures
        step(options, step(options, tally, x), y) == step(options, step(options, tally, y), x),
{
    let xy = step(options, step(options, tally, x), y);
    let yx = step(options, step(options, tally, y), x);
    assert(xy.seen =~= yx.seen);
    assert(xy.num_bytes == yx.num_bytes);
    assert(xy.num_errors == yx.num_errors);
    assert(xy.smallest == yx.smallest);
    assert(xy.largest == yx.largest);
}

/// An item may be moved to the end of the walk.
pub proof fn lemma_item_moves_to_end(options: WalkOptions, tally: Tally, items: Seq<WalkItem>, k: int)
    requires
        is_consistent(items),
        0 <= k < items.len(),
    ensures
        walked(options, tally, items) == walked(options, tally, items.remove(k).push(items[k])),
    decreases items.len(),
{
    if k == items.len() - 1 {
        assert(items.remove(k).push(items[k]) =~= items);
    } else {
        let front = items.drop_last();
        let last = items.last();
        assert(is_consistent(front)) by {
            assert forall|i: int, j: int|
                0 <= i < front.len() && 0 <= j < front.len() implies links_agree(
                #[trigger] front[i],
                #[trigger] front[j],
            ) by {
                assert(links_agree(items[i], items[j]));
            }
        }
        lemma_item_moves_to_end(options, tally, front, k);
        let rest = front.remove(k);
        let moved = items[k];
        let base = walked(options, tally, rest);
        assert(walked(options, tally, items) == step(options, walked(options, tally, front), last));
        assert(walked(options, tally, front) == step(options, base, moved)) by {
            assert(rest.push(front[k]).drop_last() =~= rest);
            assert(rest.push(front[k]).last() == moved);
        }
        assert(links_agree(items[k], items[items.len() - 1]));
        assert(links_agree(items[items.len() - 1], items[k]));
        lemma_steps_commute(options, base, moved, last);
        assert(walked(options, tally, items.remove(k)) == step(options, base, last)) by {
            assert(items.remove(k) =~= rest.push(last));
            assert(rest.push(last).drop_last() =~= rest);
            assert(rest.push(last).last() == last);
        }
        assert(walked(options, tally, items.remove(k).push(moved)) == step(
            options,
            walked(options, tally, items.remove(k)),
            moved,
        )) by {
            assert(items.remove(k).push(moved).drop_last() =~= items.remove(k));
            assert(items.remove(k).push(moved).last() == moved);
        }
    }
}

/// The order of the items of a walk does not matter: two walks that yield the same
/// items, each as often as the other, count the same, as long as all links to one
/// file say the same of it.
pub proof fn lemma_walk_order_is_irrelevant(
    options: WalkOptions,
    tally: Tally,
    a: Seq<WalkItem>,
    b: Seq<WalkItem>,
)
    requires
        a.to_multiset() == b.to_multiset(),
        is_consistent(a),
    ensures
        walked(options, tally, a) == walked(options, tally, b),
    decreases b.len(),
{
    vstd::seq_lib::to_multiset_len(a);
    vstd::seq_lib::to_multiset_len(b);
    if b.len() > 0 {
        let x = b.last();
        let front = b.drop_last();
        assert(b =~= front.push(x));
        vstd::seq_lib::to_multiset_build(front, x);
        vstd::seq_lib::to_multiset_contains(a, x);
        assert(a.to_multiset().count(x) > 0);
        let k = a.index_of(x);
        let rest = a.remove(k);
        vstd::seq_lib::to_multiset_remove(a, k);
        assert(rest.to_multiset() =~= front.to_multiset());
        assert(is_consistent(rest)) by {
            assert forall|i: int, j: int|
                0 <= i < rest.len() && 0 <= j < rest.len() implies links_agree(
                #[trigger] rest[i],
                #[trigger] rest[j],
            ) by {
                let ai = if i < k { i } else { i + 1 };
                let aj = if j < k { j } else { j + 1 };
                assert(links_agree(a[ai], a[aj]));
            }
        }
        lemma_item_moves_to_end(options, tally, a, k);
        lemma_walk_order_is_irrelevant(options, tally, rest, front);
        assert(rest.push(x).drop_last() =~= rest);
    }
}

/// Whether two lists of roots differ at most in the order in which the walk of each
/// root yielded its items.
pub open spec fn differ_in_order_only(a: Seq<RootWalk>, b: Seq<RootWalk>) -> bool {
    &&& a.len() == b.len()
    &&& forall|r: int|
        #![trigger a[r]]
        #![trigger b[r]]
        0 <= r < a.len() ==> {
            &&& a[r].path@ == b[r].path@
            &&& a[r].is_file == b[r].is_file
            &&& a[r].items@.to_multiset() == b[r].items@.to_multiset()
            &&& is_consistent(a[r].items@)
        }
}

/// The totals of every root, the totals of all roots and the statistics do not
/// depend on the order in which siblings are visited.
pub proof fn lemma_sibling_order_is_irrelevant(options: WalkOptions, a: Seq<RootWalk>, b: Seq<RootWalk>)
    requires
        differ_in_order_only(a, b),
    ensures
        summarized(options, a) == summarized(options, b),
    decreases a.len(),
{
    if a.len() > 0 {
        assert(differ_in_order_only(a.drop_last(), b.drop_last())) by {
            assert forall|r: int| 0 <= r < a.drop_last().len() implies {
                &&& (#[trigger] a.drop_last()[r]).path@ == b.drop_last()[r].path@
                &&& a.drop_last()[r].is_file == b.drop_last()[r].is_file
                &&& a.drop_last()[r].items@.to_multiset() == b.drop_last()[r].items@.to_multiset()
                &&& is_consistent(a.drop_last()[r].items@)
            } by {
                assert(a[r].path@ == b[r].path@);
            }
        }
        lemma_sibling_order_is_irrelevant(options, a.drop_last(), b.drop_last());
        let last = a.len() - 1;
        assert(a[last].path@ == b[last].path@);
        lemma_walk_order_is_irrelevant(
            options,
            summarized(options, a.drop_last()).tally.next_root(),
            a.last().items@,
            b.last().items@,
        );
    }
}

/// Lines that are sorted by size never descend, and lines of equal size stand in the
/// order of the roots they belong to.
pub proof fn lemma_sorted_lines_ascend(
    lines: Seq<PathTotalView>,
    totals: Seq<PathTotalView>,
    i: int,
    j: int,
)
    requires
        is_ascending_arrangement(lines, totals),
        forall|r: int| 0 <= r < totals.len() ==> (#[trigger] totals[r]).num_bytes <= u64::MAX,
        0 <= i < j < lines.len(),
    ensures
        lines[i].num_bytes <= lines[j].num_bytes,
        lines[i].num_bytes == lines[j].num_bytes ==> exists|p: int, q: int|
            0 <= p < q < totals.len() && #[trigger] totals[p] == lines[i] && #[trigger] totals[q]
                == lines[j],
{
    let order = choose|order: Seq<usize>|
        is_stable_order(order, byte_counts(totals)) && lines == arranged(totals, order);
    let keys = byte_counts(totals);
    let p = order[i] as int;
    let q = order[j] as int;
    assert(keys[p].precedes(&keys[q]));
    assert(lines[i] == totals[p]);
    assert(lines[j] == totals[q]);
    if lines[i].num_bytes == lines[j].num_bytes {
        assert(keys[q].precedes(&keys[p]));
        assert(p < q);
    }
}

} // verus!
