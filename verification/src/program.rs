//! What the program decides before and after a walk: its settings, its roots and
//! its exit code.

use crate::common::{ByteFormat, Color, TraversalSorting, WalkOptions};
use crate::sorting::{arranged, is_stable_order, stable_order};
use crate::text::views;
use vstd::prelude::*;
use vstd::string::*;

verus! {

/// What the program is asked to do.
#[derive(Clone, Copy, Debug, PartialEq, Eq, Structural)]
pub enum Command {
    /// Explore the roots interactively.
    Interactive,
    /// Print the totals of the roots.
    Aggregate {
        /// Leave out the line with the total of all roots.
        no_total: bool,
        /// Leave the roots in the order given.
        no_sort: bool,
        /// Print the statistics of the walk when it is done.
        statistics: bool,
    },
}

/// How an aggregation is to be reported.
#[derive(Clone, Copy, Debug, PartialEq, Eq, Structural)]
pub struct AggregateSettings {
    /// Whether a line with the total of all roots is printed.
    pub compute_total: bool,
    /// Whether the roots are sorted by size.
    pub sort_by_size_in_bytes: bool,
    /// Whether the statistics of the walk are printed.
    pub statistics: bool,
}

/// The settings of the aggregation that `command` asks for, if it asks for one.
/// Without a command the program aggregates, with the total and sorted by size.
pub fn aggregate_settings(command: Option<Command>) -> (settings: Option<AggregateSettings>)
    ensures
        settings == match command {
            None => Some(
                AggregateSettings {
                    compute_total: true,
                    sort_by_size_in_bytes: true,
                    statistics: false,
                },
            ),
            Some(Command::Aggregate { no_total, no_sort, statistics }) => Some(
                AggregateSettings {
                    compute_total: !no_total,
                    sort_by_size_in_bytes: !no_sort,
                    statistics,
                },
            ),
            Some(Command::Interactive) => None,
        },
{
    match command {
        None => Some(
            AggregateSettings { compute_total: true, sort_by_size_in_bytes: true, statistics: false },
        ),
        Some(Command::Aggregate { no_total, no_sort, statistics }) => Some(
            AggregateSettings {
                compute_total: !no_total,
                sort_by_size_in_bytes: !no_sort,
                statistics,
            },
        ),
        Some(Command::Interactive) => None,
    }
}

/// The options of a walk: what was not asked for gets its default, and colours are
/// used only on a terminal.
pub fn walk_options(
    threads: Option<usize>,
    format: Option<ByteFormat>,
    stdout_is_terminal: bool,
    apparent_size: bool,
    count_hard_links: bool,
) -> (options: WalkOptions)
    ensures
        options.threads == match threads {
            Some(n) => n,
            None => 0,
        },
        options.byte_format == match format {
            Some(f) => f,
            None => ByteFormat::Metric,
        },
        options.color == if stdout_is_terminal {
            Color::Terminal
        } else {
            Color::Off
        },
        options.apparent_size == apparent_size,
        options.count_hard_links == count_hard_links,
        options.sorting == TraversalSorting::Unsorted,
{
    WalkOptions {
        threads: match threads {
            Some(n) => n,
            None => 0,
        },
        byte_format: match format {
            Some(f) => f,
            None => ByteFormat::Metric,
        },
        color: if stdout_is_terminal {
            Color::Terminal
        } else {
            Color::Off
        },
        apparent_size,
        count_hard_links,
        sorting: TraversalSorting::Unsorted,
    }
}

/// The exit code after a walk: 1 if any error was counted, else 0.
pub fn exit_code(num_errors: u64) -> (code: i32)
    ensures
        code == if num_errors > 0 {
            1i32
        } else {
            0i32
        },
{
    if num_errors > 0 {
        1
    } else {
        0
    }
}

/// The exit code when the arguments or the terminal could not be set up.
pub const EXIT_SETUP_FAILED: i32 = 2;

/// Whether `entry` names something in the current directory: it begins with `./`.
pub open spec fn is_below_current(entry: Seq<char>) -> bool {
    entry.len() >= 2 && entry[0] == '.' && entry[1] == '/'
}

/// The names of the entries of the current directory: of each entry that begins with
/// `./` what follows, in the order of the entries.
pub open spec fn stripped_names(entries: Seq<Seq<char>>) -> Seq<Seq<char>>
    decreases entries.len(),
{
    if entries.len() == 0 {
        Seq::empty()
    } else if is_below_current(entries.last()) {
        stripped_names(entries.drop_last()).push(entries.last().skip(2))
    } else {
        stripped_names(entries.drop_last())
    }
}

/// Whether `sorted` holds the texts `names`, each once, sorted as byte strings;
/// equal names keep their order.
pub open spec fn is_sorted_list_of(sorted: Seq<String>, names: Seq<Seq<char>>) -> bool {
    exists|unsorted: Seq<String>, order: Seq<usize>|
        views(unsorted) == names && is_stable_order(order, unsorted) && sorted == arranged(
            unsorted,
            order,
        )
}

/// The roots to use when none was given: the entries of the current directory by
/// name, sorted. `entries` is the listing of `.`, each entry beginning with `./`.
pub fn cwd_dirlist(entries: &Vec<String>) -> (roots: Vec<String>)
    ensures
        is_sorted_list_of(roots@, stripped_names(views(entries@))),
{
    let mut names: Vec<String> = Vec::new();
    let mut i: usize = 0;
    while i < entries.len()
        invariant
            i <= entries.len(),
            views(names@) == stripped_names(views(entries@).take(i as int)),
        decreases entries.len() - i,
    {
        proof {
            assert(views(entries@).take(i + 1).drop_last() =~= views(entries@).take(i as int));
        }
        let entry = entries[i].as_str();
        let len = entry.unicode_len();
        if len >= 2 && entry.get_char(0) == '.' && entry.get_char(1) == '/' {
            let ghost before = views(names@);
            names.push(entry.substring_char(2, len).to_owned());
            proof {
                assert(entry@.subrange(2, len as int) =~= entry@.skip(2));
                assert(views(names@) =~= before.push(entry@.skip(2)));
            }
        }
        i += 1;
    }
    proof {
        assert(views(entries@).take(i as int) =~= views(entries@));
    }
    let order = stable_order(&names);
    let mut roots: Vec<String> = Vec::new();
    let mut k: usize = 0;
    while k < order.len()
        invariant
            k <= order.len(),
            roots.len() == k,
            is_stable_order(order@, names@),
            forall|j: int| 0 <= j < k ==> roots@[j] == names@[order@[j] as int],
        decreases order.len() - k,
    {
        roots.push(names[order[k]].clone());
        k += 1;
    }
    proof {
        assert(roots@ =~= arranged(names@, order@));
    }
    roots
}

/// The roots of the walk: the paths given, or, if none was given, the entries of the
/// current directory, whose listing is `cwd_entries`.
pub fn paths_from(paths: Vec<String>, cwd_entries: &Vec<String>) -> (roots: Vec<String>)
    ensures
        paths@.len() > 0 ==> roots == paths,
        paths@.len() == 0 ==> is_sorted_list_of(roots@, stripped_names(views(cwd_entries@))),
{
    if paths.is_empty() {
        cwd_dirlist(cwd_entries)
    } else {
        paths
    }
}

} // verus!
