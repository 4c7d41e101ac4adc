use dua::aggregate::{aggregate, path_color, write_path, PathTotal, RootWalk, Statistics, TooLarge};
use dua::common::{
    ByteFormat, Color, Entry, Inode, Metadata, TraversalSorting, WalkItem, WalkOptions,
};
use dua::inodefilter::InodeFilter;
use dua::text::{pad_left, push_decimal, TextColor};

fn options() -> WalkOptions {
    WalkOptions {
        threads: 0,
        byte_format: ByteFormat::Metric,
        color: Color::Off,
        apparent_size: false,
        count_hard_links: false,
        sorting: TraversalSorting::Unsorted,
    }
}

fn dir(name: &str, depth: usize) -> WalkItem {
    WalkItem::Found(Entry {
        name: name.to_string(),
        depth,
        metadata: Some(Metadata { is_dir: true, len: 4096, inode: None, size_on_disk: Some(4096) }),
    })
}

fn file(name: &str, depth: usize, len: u64, on_disk: Option<u64>, inode: Option<(u64, u64)>) -> WalkItem {
    WalkItem::Found(Entry {
        name: name.to_string(),
        depth,
        metadata: Some(Metadata {
            is_dir: false,
            len,
            inode: inode.map(|(device, number)| Inode { device, number }),
            size_on_disk: on_disk,
        }),
    })
}

fn root(path: &str, items: Vec<WalkItem>) -> RootWalk {
    RootWalk { path: path.to_string(), is_file: false, items }
}

fn line(path: &str, num_bytes: u64, num_errors: u64) -> PathTotal {
    PathTotal { path: path.to_string(), is_file: false, num_bytes, num_errors }
}

#[test]
fn hard_links_are_counted_once_by_default() {
    let roots = vec![root(
        "/tmp/a",
        vec![
            dir("a", 0),
            file("file", 1, 1000, Some(1000), Some((1, 7))),
            file("link", 1, 1000, Some(1000), Some((1, 7))),
        ],
    )];
    let report = aggregate(&options(), true, true, &roots).unwrap();
    assert_eq!(report.lines, vec![line("/tmp/a", 1000, 0)]);
    let mut counting = options();
    counting.count_hard_links = true;
    let report = aggregate(&counting, true, true, &roots).unwrap();
    assert_eq!(report.lines, vec![line("/tmp/a", 2000, 0)]);
}

#[test]
fn same_inode_on_another_device_is_another_file() {
    let roots = vec![root(
        "r",
        vec![
            file("a", 1, 10, Some(10), Some((1, 7))),
            file("b", 1, 20, Some(20), Some((2, 7))),
            file("c", 1, 40, Some(40), Some((1, 8))),
        ],
    )];
    let report = aggregate(&options(), false, false, &roots).unwrap();
    assert_eq!(report.lines, vec![line("r", 70, 0)]);
}

#[test]
fn files_seen_below_one_root_stay_seen_below_the_next() {
    let roots = vec![
        root("one", vec![file("a", 1, 10, Some(10), Some((1, 7)))]),
        root("two", vec![file("b", 1, 10, Some(10), Some((1, 7)))]),
    ];
    let report = aggregate(&options(), true, false, &roots).unwrap();
    assert_eq!(report.lines, vec![line("one", 10, 0), line("two", 0, 0), line("total", 10, 0)]);
}

#[test]
fn roots_are_sorted_by_size_and_the_total_comes_last() {
    let roots = vec![
        root("dirA", vec![dir("dirA", 0), file("x", 1, 150, Some(150), None)]),
        root("dirB", vec![dir("dirB", 0), file("y", 1, 50, Some(50), None)]),
    ];
    let report = aggregate(&options(), true, true, &roots).unwrap();
    assert_eq!(
        report.lines,
        vec![line("dirB", 50, 0), line("dirA", 150, 0), line("total", 200, 0)]
    );
    let unsorted = aggregate(&options(), true, false, &roots).unwrap();
    assert_eq!(
        unsorted.lines,
        vec![line("dirA", 150, 0), line("dirB", 50, 0), line("total", 200, 0)]
    );
    let without_total = aggregate(&options(), false, true, &roots).unwrap();
    assert_eq!(without_total.lines, vec![line("dirB", 50, 0), line("dirA", 150, 0)]);
}

#[test]
fn a_single_root_gets_no_total() {
    let roots = vec![root("only", vec![file("x", 1, 5, Some(5), None)])];
    let report = aggregate(&options(), true, true, &roots).unwrap();
    assert_eq!(report.lines, vec![line("only", 5, 0)]);
}

#[test]
fn roots_of_equal_size_keep_their_order() {
    let roots = vec![
        root("c", vec![file("x", 1, 7, Some(7), None)]),
        root("a", vec![file("x", 1, 3, Some(3), None)]),
        root("b", vec![file("x", 1, 7, Some(7), None)]),
        root("d", vec![file("x", 1, 3, Some(3), None)]),
    ];
    let report = aggregate(&options(), false, true, &roots).unwrap();
    assert_eq!(
        report.lines,
        vec![line("a", 3, 0), line("d", 3, 0), line("c", 7, 0), line("b", 7, 0)]
    );
    for pair in report.lines.windows(2) {
        assert!(pair[0].num_bytes <= pair[1].num_bytes);
    }
}

#[test]
fn size_on_disk_is_counted_unless_apparent_size_is_asked_for() {
    let roots = vec![root("f", vec![file("f", 0, 1, Some(4096), Some((1, 1)))])];
    let report = aggregate(&options(), true, true, &roots).unwrap();
    assert_eq!(report.lines, vec![line("f", 4096, 0)]);
    let mut apparent = options();
    apparent.apparent_size = true;
    let report = aggregate(&apparent, true, true, &roots).unwrap();
    assert_eq!(report.lines, vec![line("f", 1, 0)]);
}

#[test]
fn errors_are_counted_and_shown() {
    let roots = vec![root(
        "dir",
        vec![dir("dir", 0), WalkItem::Failed, file("f", 1, 100, Some(100), None)],
    )];
    let report = aggregate(&options(), true, true, &roots).unwrap();
    assert_eq!(report.lines, vec![line("dir", 100, 1)]);
    assert_eq!(report.result.num_errors, 1);
    assert_eq!(dua::program::exit_code(report.result.num_errors), 1);
    let mut out = String::new();
    write_path(&mut out, &options(), "100", 5, "dir", 1, None);
    assert_eq!(out, "  100 dir  <1 IO Error>\n");
}

#[test]
fn missing_metadata_and_unknown_size_on_disk_are_errors() {
    let missing = WalkItem::Found(Entry { name: "m".to_string(), depth: 1, metadata: None });
    let roots = vec![root(
        "r",
        vec![missing, file("u", 1, 9, None, None), file("ok", 1, 9, Some(16), None)],
    )];
    let report = aggregate(&options(), true, true, &roots).unwrap();
    assert_eq!(report.lines, vec![line("r", 16, 2)]);
    assert_eq!(
        report.stats,
        Statistics { entries_traversed: 3, smallest_file_in_bytes: 0, largest_file_in_bytes: 16 }
    );
    let mut apparent = options();
    apparent.apparent_size = true;
    let report = aggregate(&apparent, true, true, &roots).unwrap();
    assert_eq!(report.lines, vec![line("r", 18, 1)]);
}

#[test]
fn a_second_link_whose_size_is_unknown_is_no_error() {
    let roots = vec![root(
        "r",
        vec![file("a", 1, 9, Some(16), Some((1, 1))), file("b", 1, 9, None, Some((1, 1)))],
    )];
    let report = aggregate(&options(), true, true, &roots).unwrap();
    assert_eq!(report.lines, vec![line("r", 16, 0)]);
}

#[test]
fn no_roots_give_empty_statistics() {
    let report = aggregate(&options(), true, true, &Vec::new()).unwrap();
    assert!(report.lines.is_empty());
    assert_eq!(report.result.num_errors, 0);
    assert_eq!(
        report.stats,
        Statistics { entries_traversed: 0, smallest_file_in_bytes: 0, largest_file_in_bytes: 0 }
    );
    assert_eq!(report.stats, Statistics::default());
    assert_eq!(dua::program::exit_code(report.result.num_errors), 0);
}

#[test]
fn statistics_hold_the_smallest_and_the_largest_size() {
    let roots = vec![
        root("a", vec![file("x", 1, 0, Some(30), None), file("y", 1, 0, Some(20), None)]),
        root("b", vec![file("z", 1, 0, Some(50), None)]),
    ];
    let report = aggregate(&options(), true, true, &roots).unwrap();
    assert_eq!(
        report.stats,
        Statistics { entries_traversed: 3, smallest_file_in_bytes: 20, largest_file_in_bytes: 50 }
    );
    assert!(report.stats.smallest_file_in_bytes <= report.stats.largest_file_in_bytes);
}

#[test]
fn statistics_are_ordered_when_everything_failed() {
    let roots = vec![root("a", vec![WalkItem::Failed, WalkItem::Failed])];
    let report = aggregate(&options(), true, true, &roots).unwrap();
    assert_eq!(report.result.num_errors, 2);
    assert_eq!(
        report.stats,
        Statistics { entries_traversed: 2, smallest_file_in_bytes: 0, largest_file_in_bytes: 0 }
    );
}

#[test]
fn the_order_of_siblings_does_not_change_the_totals() {
    let items = vec![
        dir("r", 0),
        file("a", 1, 10, Some(512), Some((1, 1))),
        file("b", 1, 10, Some(512), Some((1, 1))),
        WalkItem::Failed,
        file("c", 1, 30, Some(1024), Some((1, 2))),
        file("d", 1, 5, None, Some((1, 3))),
    ];
    let mut shuffled = items.clone();
    shuffled.reverse();
    shuffled.swap(1, 3);
    let one = aggregate(&options(), true, true, &vec![root("r", items)]).unwrap();
    let other = aggregate(&options(), true, true, &vec![root("r", shuffled)]).unwrap();
    assert_eq!(one.lines, vec![line("r", 1536, 2)]);
    assert_eq!(one.lines, other.lines);
    assert_eq!(one.stats, other.stats);
    assert_eq!(one.result, other.result);
}

#[test]
fn counts_beyond_64_bits_are_refused() {
    let roots = vec![
        root("a", vec![file("x", 1, 0, Some(u64::MAX), None)]),
        root("b", vec![file("y", 1, 0, Some(1), None)]),
    ];
    assert_eq!(aggregate(&options(), true, true, &roots).err(), Some(TooLarge));
    let within_one_root =
        vec![root("a", vec![file("x", 1, 0, Some(u64::MAX), None), file("y", 1, 0, Some(1), None)])];
    assert!(aggregate(&options(), false, false, &within_one_root).is_err());
    let fits = vec![root("a", vec![file("x", 1, 0, Some(u64::MAX), None)])];
    assert_eq!(aggregate(&options(), true, true, &fits).unwrap().lines, vec![line("a", u64::MAX, 0)]);
}

#[test]
fn the_filter_knows_a_file_after_its_first_sighting() {
    let mut filter = InodeFilter::new();
    let meta = Metadata {
        is_dir: false,
        len: 1,
        inode: Some(Inode { device: 3, number: 9 }),
        size_on_disk: Some(1),
    };
    let other = Metadata { inode: Some(Inode { device: 9, number: 3 }), ..meta };
    assert!(filter.add(&meta));
    assert!(!filter.add(&meta));
    assert!(filter.add(&other));
    assert!(!filter.add(&meta));
    assert!(!filter.add(&other));
}

#[test]
fn the_filter_lets_files_without_identity_pass() {
    let mut filter = InodeFilter::default();
    let meta = Metadata { is_dir: false, len: 1, inode: None, size_on_disk: Some(1) };
    assert!(filter.add(&meta));
    assert!(filter.add(&meta));
}

#[test]
fn the_filter_tells_large_numbers_apart() {
    let mut filter = InodeFilter::new();
    let at = |device, number| Metadata {
        is_dir: false,
        len: 0,
        inode: Some(Inode { device, number }),
        size_on_disk: None,
    };
    assert!(filter.add(&at(u64::MAX, 0)));
    assert!(filter.add(&at(0, u64::MAX)));
    assert!(filter.add(&at(u64::MAX, u64::MAX)));
    assert!(filter.add(&at(1, 0)));
    assert!(filter.add(&at(0, 1)));
    assert!(!filter.add(&at(u64::MAX, u64::MAX)));
}

#[test]
fn lines_are_plain_without_colours() {
    let mut out = String::new();
    write_path(&mut out, &options(), "1.50 KB", 10, "some/dir", 0, path_color(true));
    assert_eq!(out, "   1.50 KB some/dir\n");
    write_path(&mut out, &options(), "2 B", 4, "x", 3, None);
    assert_eq!(out, "   1.50 KB some/dir\n 2 B x  <3 IO Errors>\n");
}

#[test]
fn lines_are_coloured_on_a_terminal() {
    let mut coloured = options();
    coloured.color = Color::Terminal;
    let mut out = String::new();
    write_path(&mut out, &coloured, "7 B", 5, "file", 0, path_color(true));
    assert_eq!(out, "\x1b[32m  7 B\x1b[0m \x1b[38;5;8mfile\x1b[0m\n");
    let mut out = String::new();
    write_path(&mut out, &coloured, "7 B", 2, "dir", 12, path_color(false));
    assert_eq!(out, "\x1b[32m7 B\x1b[0m dir  <12 IO Errors>\n");
}

#[test]
fn files_are_dimmed_and_directories_are_not() {
    assert_eq!(path_color(true), Some(TextColor::Fixed(8)));
    assert_eq!(path_color(false), None);
}

#[test]
fn numbers_are_written_in_decimal() {
    let mut out = String::from("n=");
    push_decimal(&mut out, 0);
    out.push(' ');
    push_decimal(&mut out, 9);
    out.push(' ');
    push_decimal(&mut out, 10);
    out.push(' ');
    push_decimal(&mut out, 1203);
    out.push(' ');
    push_decimal(&mut out, u64::MAX);
    assert_eq!(out, "n=0 9 10 1203 18446744073709551615");
}

#[test]
fn text_is_aligned_to_the_right() {
    assert_eq!(pad_left("ab", 5), "   ab");
    assert_eq!(pad_left("ab", 2), "ab");
    assert_eq!(pad_left("abc", 1), "abc");
    assert_eq!(pad_left("", 3), "   ");
    assert_eq!(pad_left("äö", 4), "  äö");
}
