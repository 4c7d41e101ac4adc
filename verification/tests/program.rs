use dua::common::{ByteFormat, Color, TraversalSorting};
use dua::program::{
    aggregate_settings, cwd_dirlist, exit_code, paths_from, walk_options, AggregateSettings,
    Command, EXIT_SETUP_FAILED,
};
use dua::sorting::stable_order;

fn strings(items: &[&str]) -> Vec<String> {
    items.iter().map(|s| s.to_string()).collect()
}

#[test]
fn given_paths_are_the_roots() {
    let paths = strings(&["b", "a"]);
    assert_eq!(paths_from(paths.clone(), &strings(&["./x"])), paths);
}

#[test]
fn without_paths_the_current_directory_is_listed() {
    let listing = strings(&["./src", "./Cargo.toml", "./a b", "./README.md", "./.git"]);
    assert_eq!(
        paths_from(Vec::new(), &listing),
        strings(&[".git", "Cargo.toml", "README.md", "a b", "src"])
    );
    assert_eq!(paths_from(Vec::new(), &Vec::new()), Vec::<String>::new());
}

#[test]
fn the_listing_is_stripped_and_sorted() {
    let listing = strings(&["./b", "elsewhere", "./a", "./", ".", "./ä", "./Z", "./b"]);
    assert_eq!(cwd_dirlist(&listing), strings(&["", "Z", "a", "b", "b", "ä"]));
}

#[test]
fn names_are_sorted_as_bytes() {
    let names = strings(&["b", "", "ab", "a", "B", "abc", "é", "z"]);
    assert_eq!(stable_order(&names), vec![1, 4, 3, 2, 5, 0, 7, 6]);
}

#[test]
fn numbers_are_sorted_and_ties_keep_their_order() {
    assert_eq!(stable_order(&vec![3u64, 1, 3, 0, 1]), vec![3, 1, 4, 0, 2]);
    assert_eq!(stable_order(&Vec::<u64>::new()), Vec::<usize>::new());
}

#[test]
fn the_exit_code_tells_of_errors() {
    assert_eq!(exit_code(0), 0);
    assert_eq!(exit_code(1), 1);
    assert_eq!(exit_code(u64::MAX), 1);
    assert_eq!(EXIT_SETUP_FAILED, 2);
}

#[test]
fn the_default_is_to_aggregate_sorted_with_a_total() {
    assert_eq!(
        aggregate_settings(None),
        Some(AggregateSettings { compute_total: true, sort_by_size_in_bytes: true, statistics: false })
    );
    assert_eq!(
        aggregate_settings(Some(Command::Aggregate {
            no_total: true,
            no_sort: false,
            statistics: true
        })),
        Some(AggregateSettings { compute_total: false, sort_by_size_in_bytes: true, statistics: true })
    );
    assert_eq!(
        aggregate_settings(Some(Command::Aggregate {
            no_total: false,
            no_sort: true,
            statistics: false
        })),
        Some(AggregateSettings { compute_total: true, sort_by_size_in_bytes: false, statistics: false })
    );
    assert_eq!(aggregate_settings(Some(Command::Interactive)), None);
}

#[test]
fn options_take_defaults_and_colours_need_a_terminal() {
    let options = walk_options(None, None, false, false, true);
    assert_eq!(options.threads, 0);
    assert_eq!(options.byte_format, ByteFormat::Metric);
    assert_eq!(options.color, Color::Off);
    assert!(!options.apparent_size);
    assert!(options.count_hard_links);
    assert_eq!(options.sorting, TraversalSorting::Unsorted);
    let options = walk_options(Some(4), Some(ByteFormat::GiB), true, true, false);
    assert_eq!(options.threads, 4);
    assert_eq!(options.byte_format, ByteFormat::GiB);
    assert_eq!(options.color, Color::Terminal);
    assert!(options.apparent_size);
    assert!(!options.count_hard_links);
}
