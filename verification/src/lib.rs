//! A disk-space analyser: it scans a directory, adds up the sizes of what it
//! holds, and lists the entries in the order asked for.
//!
//! The library decides; the program around it reads the disk and the terminal.
//! A scan goes directory by directory: the program lists a directory, reports
//! each entry as a [`ScannedEntry`], and [`create_dir_tree_from_path`] makes the
//! node of the directory from those reports.
pub mod config;
pub mod sorting;
pub mod text;
pub mod tools;
pub mod tui;


use vstd::prelude::*;

use config::{Config, SortDirection, SortType};
use sorting::{lemma_sorted_listing_order, sort_nodes, sorted_by, stably_sorted};
use text::{chars_of, replace_chars, replaced, starts_with_chars, string_of};
use tools::{unselected, FileNode, FileSize};

verus! {

/// What the program found for one entry of a directory.
pub enum ScannedEntry {
    /// A file whose directory entry reports `size` bytes. `node` is the node
    /// made for it, or `None` where reading it again failed.
    File { size: u64, node: Option<FileNode> },
    /// A directory and its scanned tree, or `None` where scanning it failed.
    Directory { node: Option<FileNode> },
    /// An entry that could not be read at all; it is left out.
    Unreadable,
    /// An entry whose metadata could not be read; the scan stops with an error.
    MetadataFailed { message: String },
}

/// Why a directory could not be scanned.
#[derive(Debug)]
pub enum ScanError {
    /// The metadata of an entry could not be read.
    Metadata { message: String },
}

/// What to scan for a listing.
pub enum ListingPlan {
    /// The path is a file: its own node is listed.
    File { path: String },
    /// The path is a directory: its tree is scanned and its entries are sorted.
    Directory { path: String, sort_type: SortType },
}

/// The bytes an entry adds to the size of its directory.
pub open spec fn counted_bytes(e: ScannedEntry) -> int {
    match e {
        ScannedEntry::File { size, .. } => size as int,
        ScannedEntry::Directory { node: Some(n) } => n.size@ as int,
        _ => 0,
    }
}

/// The bytes all entries add to the size of their directory.
pub open spec fn total_bytes(es: Seq<ScannedEntry>) -> int
    decreases es.len(),
{
    if es.len() == 0 {
        0
    } else {
        total_bytes(es.drop_last()) + counted_bytes(es.last())
    }
}

/// The nodes that the entries contribute to their directory, in order.
pub open spec fn kept_nodes(es: Seq<ScannedEntry>) -> Seq<FileNode>
    decreases es.len(),
{
    if es.len() == 0 {
        seq![]
    } else {
        let rest = kept_nodes(es.drop_last());
        match es.last() {
            ScannedEntry::File { node: Some(n), .. } => rest.push(n),
            ScannedEntry::Directory { node: Some(n) } => rest.push(n),
            _ => rest,
        }
    }
}

/// Some entry is a directory.
pub open spec fn has_directory(es: Seq<ScannedEntry>) -> bool {
    exists|k: int| 0 <= k < es.len() && es[k] is Directory
}

/// No entry before `k` failed to give its metadata.
pub open spec fn clean_before(es: Seq<ScannedEntry>, k: int) -> bool {
    forall|j: int| 0 <= j < k ==> !(es[j] is MetadataFailed)
}

/// The byte count never exceeds `u64::MAX` while the scan goes on.
pub open spec fn fits_in_u64(es: Seq<ScannedEntry>) -> bool {
    forall|k: int| 0 <= k <= es.len() && clean_before(es, k) ==> total_bytes(es.take(k)) <= u64::MAX
}

/// The pseudo file system under `/proc` is not scanned.
pub open spec fn is_skipped(name: Seq<char>) -> bool {
    "/proc"@.is_prefix_of(name)
}

/// The path of a directory listing: `~` stands for `/home/vovobot`.
pub open spec fn directory_path(path: Seq<char>) -> Seq<char> {
    replaced(path, "~"@, "/home/vovobot"@)
}

/// Exactly the paths whose first five characters are `/proc` are left
/// unscanned; every other directory is scanned.
pub proof fn lemma_only_proc_skipped(name: Seq<char>)
    ensures
        is_skipped(name) <==> (name.len() >= 5 && name.subrange(0, 5) == seq!['/', 'p', 'r', 'o', 'c']),
{
    reveal_strlit("/proc");
    assert("/proc"@ =~= seq!['/', 'p', 'r', 'o', 'c']);
    if name.len() >= 5 && name.subrange(0, 5) == seq!['/', 'p', 'r', 'o', 'c'] {
        assert forall|i: int| 0 <= i < 5 implies "/proc"@[i] == name[i] by {
            assert(name.subrange(0, 5)[i] == name[i]);
        }
    }
    if is_skipped(name) {
        assert(name.subrange(0, 5) =~= seq!['/', 'p', 'r', 'o', 'c']);
    }
}

/// Whether the tree below `name` is left unscanned: paths that begin with
/// `/proc` are.
pub fn skips_listing(name: &str) -> (b: bool)
    ensures
        b == is_skipped(name@),
        b == (name@.len() >= 5 && name@.subrange(0, 5) == seq!['/', 'p', 'r', 'o', 'c']),
{
    proof {
        lemma_only_proc_skipped(name@);
    }
    starts_with_chars(&chars_of(name), &chars_of("/proc"))
}

/// The node of a file of `size` bytes, last modified at `modified`.
pub fn create_file_node_from_path(name: String, size: u64, modified: u64) -> (res: FileNode)
    ensures
        res.size@ == size,
        res.name == name,
        !res.is_dir,
        res.modified == modified,
        res.children@.len() == 0,
        res.state == unselected(),
{
    FileNode::new(FileSize::bytes_to_size_metric(size), name, false, modified, Vec::new())
}

/// The node of the directory `name`, last modified at `modified`, from what
/// the program found in it: `listing` is `None` where the directory could not
/// be read.
///
/// A path under `/proc` gives an empty node marked as a directory. An
/// unreadable directory gives an empty node. Otherwise the node's size is the
/// sum of the sizes the entries report, it is marked as a directory when some
/// entry is one, and its children are the nodes of the entries that have one,
/// in order; the first entry whose metadata failed ends the scan with an error.
pub fn create_dir_tree_from_path(
    name: String,
    modified: u64,
    listing: Option<Vec<ScannedEntry>>,
) -> (res: Result<FileNode, ScanError>)
    requires
        !is_skipped(name@) && listing is Some ==> fits_in_u64(listing->Some_0@),
    ensures
        res is Ok ==> res->Ok_0.modified == modified,
        is_skipped(name@) ==> res is Ok && res->Ok_0.size@ == 0 && res->Ok_0.name == name
            && res->Ok_0.is_dir && res->Ok_0.children@.len() == 0 && res->Ok_0.state
            == unselected(),
        !is_skipped(name@) && listing is None ==> res is Ok && res->Ok_0.size@ == 0
            && res->Ok_0.name == name && !res->Ok_0.is_dir && res->Ok_0.children@.len() == 0
            && res->Ok_0.state == unselected(),
        !is_skipped(name@) && listing is Some ==> ({
            let es = listing->Some_0@;
            &&& (res is Err <==> exists|k: int| 0 <= k < es.len() && es[k] is MetadataFailed)
            &&& res is Err ==> exists|k: int|
                0 <= k < es.len() && clean_before(es, k) && es[k] is MetadataFailed
                    && res->Err_0->Metadata_message == es[k]->MetadataFailed_message
            &&& res is Ok ==> {
                &&& res->Ok_0.size@ == total_bytes(es)
                &&& res->Ok_0.name == name
                &&& res->Ok_0.is_dir == has_directory(es)
                &&& res->Ok_0.children@ == kept_nodes(es)
                &&& res->Ok_0.state == unselected()
            }
        }),
        !(name@.len() >= 5 && name@.subrange(0, 5) == seq!['/', 'p', 'r', 'o', 'c'])
            && listing is Some && (forall|k: int|
            0 <= k < listing->Some_0@.len() ==> !(#[trigger] listing->Some_0@[k] is MetadataFailed))
            ==> res is Ok && res->Ok_0.size@ == total_bytes(listing->Some_0@),
{
    proof {
        lemma_only_proc_skipped(name@);
    }
    if skips_listing(name.as_str()) {
        return Ok(FileNode::new(FileSize::bytes_to_size_metric(0), name, true, modified, Vec::new()));
    }
    let ghost given = listing;
    let entries = match listing {
        None => {
            return Ok(FileNode::new(FileSize::bytes_to_size_metric(0), name, false, modified, Vec::new()));
        },
        Some(entries) => entries,
    };
    let ghost es = entries@;
    let mut bytes_count: u64 = 0;
    let mut children: Vec<FileNode> = Vec::new();
    let mut is_dir = false;
    assert(es.take(0) =~= Seq::<ScannedEntry>::empty());
    for entry in it: entries
        invariant
            it.seq() == es,
            given == listing,
            given is Some,
            given->Some_0@ == es,
            !is_skipped(name@),
            fits_in_u64(es),
            clean_before(es, it.index() as int),
            bytes_count == total_bytes(es.take(it.index() as int)),
            children@ == kept_nodes(es.take(it.index() as int)),
            is_dir == exists|k: int| 0 <= k < it.index() && es[k] is Directory,
    {
        let ghost i = it.index() as int;
        proof {
            assert(es.take(i + 1).drop_last() =~= es.take(i));
            assert(es.take(i + 1).last() == entry);
            assert(clean_before(es, i + 1) ==> total_bytes(es.take(i + 1)) <= u64::MAX);
        }
        match entry {
            ScannedEntry::File { size, node } => {
                bytes_count = bytes_count + size;
                if let Some(n) = node {
                    children.push(n);
                }
            },
            ScannedEntry::Directory { node } => {
                is_dir = true;
                if let Some(n) = node {
                    bytes_count = bytes_count + n.size.size_metric_to_bytes();
                    children.push(n);
                }
            },
            ScannedEntry::Unreadable => {},
            ScannedEntry::MetadataFailed { message } => {
                return Err(ScanError::Metadata { message });
            },
        }
    }
    assert(es.take(es.len() as int) =~= es);
    Ok(FileNode::new(FileSize::bytes_to_size_metric(bytes_count), name, is_dir, modified, children))
}

/// Sorts the entries of `file_tree` stably by `sort_type`: by size, by name or
/// by the time last modified; nothing else of the node changes. Natural order
/// leaves the entries as they are.
pub fn sort_file_tree(file_tree: &mut FileNode, sort_type: &SortType)
    ensures
        stably_sorted(*sort_type, old(file_tree).children@, final(file_tree).children@),
        sorted_by(*sort_type, old(file_tree).children@) ==> final(file_tree).children@ == old(
            file_tree,
        ).children@,
        final(file_tree).size == old(file_tree).size,
        final(file_tree).name == old(file_tree).name,
        final(file_tree).is_dir == old(file_tree).is_dir,
        final(file_tree).modified == old(file_tree).modified,
        final(file_tree).state == old(file_tree).state,
        sort_type is Natural ==> final(file_tree).children@ == old(file_tree).children@,
        *sort_type == SortType::Size(SortDirection::Up) ==> forall|i: int, j: int|
            #![auto]
            0 <= i < j < final(file_tree).children@.len() ==> final(file_tree).children@[i].size@
                <= final(file_tree).children@[j].size@,
        *sort_type == SortType::Size(SortDirection::Down) ==> forall|i: int, j: int|
            #![auto]
            0 <= i < j < final(file_tree).children@.len() ==> final(file_tree).children@[i].size@
                >= final(file_tree).children@[j].size@,
        *sort_type == SortType::Modification(SortDirection::Up) ==> forall|i: int, j: int|
            #![auto]
            0 <= i < j < final(file_tree).children@.len() ==> final(file_tree).children@[i].modified
                <= final(file_tree).children@[j].modified,
        *sort_type == SortType::Modification(SortDirection::Down) ==> forall|i: int, j: int|
            #![auto]
            0 <= i < j < final(file_tree).children@.len() ==> final(file_tree).children@[i].modified
                >= final(file_tree).children@[j].modified,
{
    sort_nodes(&mut file_tree.children, sort_type);
    proof {
        lemma_sorted_listing_order(*sort_type, file_tree.children@);
    }
}

/// What to scan for the settings: the path itself when it is a file, or else
/// the directory it names (with `~` standing for `/home/vovobot`), to be
/// sorted by the configured order.
pub fn run(config: &Config, path_is_file: bool) -> (plan: ListingPlan)
    ensures
        path_is_file ==> plan is File && plan->File_path@ == config.path@,
        !path_is_file ==> plan is Directory && plan->Directory_path@ == directory_path(
            config.path@,
        ) && plan->Directory_sort_type == config.sort_type,
{
    if path_is_file {
        ListingPlan::File { path: string_of(&chars_of(config.path.as_str())) }
    } else {
        let expanded = replace_chars(
            &chars_of(config.path.as_str()),
            &chars_of("~"),
            &chars_of("/home/vovobot"),
        );
        ListingPlan::Directory { path: string_of(&expanded), sort_type: config.sort_type }
    }
}

/// The listing that `plan` asked for, from the node that was scanned for it:
/// a file's node as it is, a directory's node with its entries sorted.
pub fn list_directory_items(plan: &ListingPlan, scanned: FileNode) -> (res: FileNode)
    ensures
        plan is File ==> res == scanned,
        plan is Directory ==> {
            &&& stably_sorted(plan->Directory_sort_type, scanned.children@, res.children@)
            &&& res.size == scanned.size
            &&& res.name == scanned.name
            &&& res.is_dir == scanned.is_dir
            &&& res.modified == scanned.modified
            &&& res.state == scanned.state
        },
{
    match plan {
        ListingPlan::File { .. } => scanned,
        ListingPlan::Directory { sort_type, .. } => {
            let mut tree = scanned;
            sort_file_tree(&mut tree, sort_type);
            tree
        },
    }
}

} // verus!
