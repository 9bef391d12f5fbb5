//! The file tree: sizes with their display unit, nodes, and the selection
//! state of a node's listing.
use vstd::prelude::*;

verus! {

/// The unit in which a size is shown.
#[derive(Clone, Copy, Debug, PartialEq, Eq, Structural)]
pub enum SizeMetric {
    B,
    KB,
    MB,
    GB,
    TB,
    PB,
}

/// The unit chosen for a size of `bytes` bytes.
pub open spec fn metric_for(bytes: u64) -> SizeMetric {
    if bytes < 100 {
        SizeMetric::B
    } else if bytes < 400_000 {
        SizeMetric::KB
    } else if bytes < 1_000_000_000 {
        SizeMetric::MB
    } else if bytes < 1_000_000_000_000 {
        SizeMetric::GB
    } else if bytes < 1_000_000_000_000_000 {
        SizeMetric::TB
    } else if bytes < 1_000_000_000_000_000_000 {
        SizeMetric::PB
    } else {
        SizeMetric::B
    }
}

/// How many bytes one unit stands for.
pub open spec fn unit_bytes(m: SizeMetric) -> u64 {
    match m {
        SizeMetric::B => 1,
        SizeMetric::KB => 1_000,
        SizeMetric::MB => 1_000_000,
        SizeMetric::GB => 1_000_000_000,
        SizeMetric::TB => 1_000_000_000_000,
        SizeMetric::PB => 1_000_000_000_000_000,
    }
}

impl SizeMetric {
    /// How many bytes one unit stands for (`KB` is a thousand bytes).
    pub fn bytes_per_unit(&self) -> (n: u64)
        ensures
            n == unit_bytes(*self),
    {
        match self {
            SizeMetric::B => 1,
            SizeMetric::KB => 1_000,
            SizeMetric::MB => 1_000_000,
            SizeMetric::GB => 1_000_000_000,
            SizeMetric::TB => 1_000_000_000_000,
            SizeMetric::PB => 1_000_000_000_000_000,
        }
    }
}

/// A size in bytes together with the unit it is shown in.
#[derive(Debug)]
pub struct FileSize {
    bytes: u64,
    metric: SizeMetric,
}

impl View for FileSize {
    type V = u64;

    closed spec fn view(&self) -> u64 {
        self.bytes
    }
}

impl FileSize {
    /// The unit this size is shown in.
    pub closed spec fn unit(self) -> SizeMetric {
        self.metric
    }

    #[verifier::type_invariant]
    spec fn unit_fits(self) -> bool {
        self.metric == metric_for(self.bytes)
    }

    /// The size of `size` bytes, with the unit that fits it: bytes below 100,
    /// kilobytes below 400 000, then megabytes, gigabytes, terabytes and
    /// petabytes below 10^9, 10^12, 10^15 and 10^18, and bytes again above.
    pub fn bytes_to_size_metric(size: u64) -> (res: FileSize)
        ensures
            res@ == size,
            res.unit() == metric_for(size),
    {
        let metric = if size < 100 {
            SizeMetric::B
        } else if size < 400_000 {
            SizeMetric::KB
        } else if size < 1_000_000_000 {
            SizeMetric::MB
        } else if size < 1_000_000_000_000 {
            SizeMetric::GB
        } else if size < 1_000_000_000_000_000 {
            SizeMetric::TB
        } else if size < 1_000_000_000_000_000_000 {
            SizeMetric::PB
        } else {
            SizeMetric::B
        };
        FileSize { bytes: size, metric }
    }

    /// The size in bytes.
    pub fn size_metric_to_bytes(&self) -> (n: u64)
        ensures
            n == self@,
    {
        self.bytes
    }

    /// The unit this size is shown in.
    pub fn metric(&self) -> (m: SizeMetric)
        ensures
            m == self.unit(),
            m == metric_for(self@),
    {
        proof {
            use_type_invariant(self);
        }
        self.metric
    }
}

impl Default for FileSize {
    /// Zero bytes.
    fn default() -> (res: FileSize)
        ensures
            res@ == 0,
            res.unit() == SizeMetric::B,
    {
        FileSize { bytes: 0, metric: SizeMetric::B }
    }
}

/// Which entry of a listing is selected, and the first entry shown.
#[derive(Clone, Copy, Debug, PartialEq, Eq, Structural)]
pub struct ListSelection {
    pub offset: usize,
    pub selected: Option<usize>,
}

/// Nothing selected, listing shown from its first entry.
pub open spec fn unselected() -> ListSelection {
    ListSelection { offset: 0, selected: None }
}

/// `sel` after selecting `index`; clearing the selection also scrolls back
/// to the first entry.
pub open spec fn selecting(sel: ListSelection, index: Option<usize>) -> ListSelection {
    ListSelection {
        offset: if index is None {
            0
        } else {
            sel.offset
        },
        selected: index,
    }
}

/// The entry after the selected one, or the first when none is selected.
pub open spec fn next_index(sel: ListSelection) -> usize {
    match sel.selected {
        None => 0,
        Some(i) => if i == usize::MAX {
            i
        } else {
            (i + 1) as usize
        },
    }
}

/// The entry before the selected one, or the last when none is selected.
pub open spec fn previous_index(sel: ListSelection) -> usize {
    match sel.selected {
        None => usize::MAX,
        Some(i) => if i == 0 {
            0
        } else {
            (i - 1) as usize
        },
    }
}

impl Default for ListSelection {
    fn default() -> (res: ListSelection)
        ensures
            res == unselected(),
    {
        ListSelection { offset: 0, selected: None }
    }
}

/// Calls `ratatui::widgets::ListState::select` on a list state built from `sel`
/// (`with_offset`, `with_selected`) and reads it back (`offset`, `selected`).
/// Trusted to do what ratatui's source shows: the selection becomes `index`, and
/// the offset becomes 0 when `index` is `None`.
#[verifier::external_body]
pub(crate) fn list_select(sel: ListSelection, index: Option<usize>) -> (res: ListSelection)
    ensures
        res == selecting(sel, index),
{
    let mut state = ratatui::widgets::ListState::default().with_offset(sel.offset).with_selected(
        sel.selected,
    );
    state.select(index);
    ListSelection { offset: state.offset(), selected: state.selected() }
}

/// Calls `ratatui::widgets::ListState::select_next` on a list state built from `sel`
/// and reads it back. Trusted to do what ratatui's source shows: selects the entry after the
/// selected one (saturating at `usize::MAX`), or entry 0 when none is selected.
#[verifier::external_body]
pub(crate) fn list_select_next(sel: ListSelection) -> (res: ListSelection)
    ensures
        res == selecting(sel, Some(next_index(sel))),
{
    let mut state = ratatui::widgets::ListState::default().with_offset(sel.offset).with_selected(
        sel.selected,
    );
    state.select_next();
    ListSelection { offset: state.offset(), selected: state.selected() }
}

/// Calls `ratatui::widgets::ListState::select_previous` on a list state built from `sel`
/// and reads it back. Trusted to do what ratatui's source shows: selects the entry before
/// the selected one (saturating at 0), or entry `usize::MAX` when none is
/// selected; rendering later brings it back into the list.
#[verifier::external_body]
pub(crate) fn list_select_previous(sel: ListSelection) -> (res: ListSelection)
    ensures
        res == selecting(sel, Some(previous_index(sel))),
{
    let mut state = ratatui::widgets::ListState::default().with_offset(sel.offset).with_selected(
        sel.selected,
    );
    state.select_previous();
    ListSelection { offset: state.offset(), selected: state.selected() }
}

/// Calls `ratatui::widgets::ListState::select_first` on a list state built from `sel`
/// and reads it back. Trusted to do what ratatui's source shows: selects entry 0.
#[verifier::external_body]
pub(crate) fn list_select_first(sel: ListSelection) -> (res: ListSelection)
    ensures
        res == selecting(sel, Some(0)),
{
    let mut state = ratatui::widgets::ListState::default().with_offset(sel.offset).with_selected(
        sel.selected,
    );
    state.select_first();
    ListSelection { offset: state.offset(), selected: state.selected() }
}

/// Calls `ratatui::widgets::ListState::select_last` on a list state built from `sel`
/// and reads it back. Trusted to do what ratatui's source shows: selects entry `usize::MAX`,
/// which rendering later brings back to the last entry.
#[verifier::external_body]
pub(crate) fn list_select_last(sel: ListSelection) -> (res: ListSelection)
    ensures
        res == selecting(sel, Some(usize::MAX)),
{
    let mut state = ratatui::widgets::ListState::default().with_offset(sel.offset).with_selected(
        sel.selected,
    );
    state.select_last();
    ListSelection { offset: state.offset(), selected: state.selected() }
}

/// A file or directory of the analysed tree.
///
/// `size` is the space it takes, `name` its path, `is_dir` whether the scan
/// found a directory below it, `modified` when it was last modified (in
/// nanoseconds since the Unix epoch), `children` the entries found in it, and
/// `state` the selection in its listing.
#[derive(Debug)]
pub struct FileNode {
    pub size: FileSize,
    pub name: String,
    pub is_dir: bool,
    pub modified: u64,
    pub children: Vec<FileNode>,
    pub state: ListSelection,
}

impl FileNode {
    /// A node with nothing selected in its listing.
    pub fn new(
        size: FileSize,
        name: String,
        is_dir: bool,
        modified: u64,
        children: Vec<FileNode>,
    ) -> (res: FileNode)
        ensures
            res.size == size,
            res.name == name,
            res.is_dir == is_dir,
            res.modified == modified,
            res.children == children,
            res.state == unselected(),
    {
        FileNode { size, name, is_dir, modified, children, state: ListSelection::default() }
    }
}

impl Default for FileNode {
    /// An empty placeholder node, `DEFAULT_PLACEHOLDER`, of zero bytes, with
    /// modification time 0.
    fn default() -> (res: FileNode)
        ensures
            res.size@ == 0,
            res.name@ == "DEFAULT_PLACEHOLDER"@,
            !res.is_dir,
            res.modified == 0,
            res.children@.len() == 0,
            res.state == unselected(),
    {
        FileNode {
            size: FileSize::default(),
            name: String::from_str("DEFAULT_PLACEHOLDER"),
            is_dir: false,
            modified: 0,
            children: Vec::new(),
            state: ListSelection::default(),
        }
    }
}

} // verus!
