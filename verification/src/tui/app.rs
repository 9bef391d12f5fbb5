//! The state of the interactive browser: the scanned tree, the way from its
//! root to the directory on screen, and what each key press does to them.
use vstd::prelude::*;

use crate::config::{Config, SortType};
use crate::sort_file_tree;
use crate::sorting::{lemma_stable_sort_settled, stably_sorted};
use crate::text::{
    chars_of, contains_seq, lemma_contains_char, lemma_replaced_absent, lemma_replaced_empty,
    lemma_replaced_prefix, push_chars, replace_chars, replaced,
};
use crate::tools::{
    list_select, list_select_first, list_select_last, list_select_next, list_select_previous,
    next_index, previous_index, selecting, unselected, FileNode, ListSelection,
};

verus! {

/// `p` leads from `t` down to a node: each step names an existing child.
pub open spec fn valid_path(t: FileNode, p: Seq<usize>) -> bool
    decreases p.len(),
{
    p.len() == 0 || (p[0] < t.children@.len() && valid_path(t.children@[p[0] as int], p.drop_first()))
}

/// The node that `p` leads to from `t`.
pub open spec fn node_at(t: FileNode, p: Seq<usize>) -> FileNode
    decreases p.len(),
{
    if p.len() == 0 {
        t
    } else {
        node_at(t.children@[p[0] as int], p.drop_first())
    }
}

/// A change made to one node of the tree.
#[derive(Clone, Copy)]
pub enum NodeChange {
    /// The node's listing gets this selection.
    Select(ListSelection),
    /// The node's entries are sorted.
    Sort(SortType),
}

/// `b` is `a` after `c`.
pub open spec fn changed(a: FileNode, b: FileNode, c: NodeChange) -> bool {
    &&& b.size == a.size
    &&& b.name == a.name
    &&& b.is_dir == a.is_dir
    &&& b.modified == a.modified
    &&& match c {
        NodeChange::Select(s) => b.state == s && b.children == a.children,
        NodeChange::Sort(st) => b.state == a.state && stably_sorted(st, a.children@, b.children@),
    }
}

/// `new` is `old` with `c` made to the node that `p` leads to, and nothing
/// else changed.
pub open spec fn altered_at(old: FileNode, new: FileNode, p: Seq<usize>, c: NodeChange) -> bool
    decreases p.len(),
{
    if p.len() == 0 {
        changed(old, new, c)
    } else {
        &&& new.size == old.size
        &&& new.name == old.name
        &&& new.is_dir == old.is_dir
        &&& new.modified == old.modified
        &&& new.state == old.state
        &&& new.children@.len() == old.children@.len()
        &&& p[0] < old.children@.len()
        &&& forall|j: int|
            0 <= j < old.children@.len() && j != p[0] ==> #[trigger] new.children@[j]
                == old.children@[j]
        &&& altered_at(
            old.children@[p[0] as int],
            new.children@[p[0] as int],
            p.drop_first(),
            c,
        )
    }
}

/// A step down to child `i` stays on the tree when the child exists.
pub proof fn lemma_path_push(t: FileNode, p: Seq<usize>, i: usize)
    requires
        valid_path(t, p),
        i < node_at(t, p).children@.len(),
    ensures
        valid_path(t, p.push(i)),
        node_at(t, p.push(i)) == node_at(t, p).children@[i as int],
    decreases p.len(),
{
    if p.len() > 0 {
        assert(p.push(i).drop_first() =~= p.drop_first().push(i));
        assert(p.push(i)[0] == p[0]);
        lemma_path_push(t.children@[p[0] as int], p.drop_first(), i);
    } else {
        let q = p.push(i);
        assert(q.drop_first() =~= Seq::<usize>::empty());
        assert(q[0] == i);
        assert(valid_path(t.children@[i as int], q.drop_first()));
        assert(node_at(t.children@[i as int], q.drop_first()) == t.children@[i as int]);
    }
}

/// A step back up stays on the tree.
pub proof fn lemma_path_pop(t: FileNode, p: Seq<usize>)
    requires
        valid_path(t, p),
        p.len() > 0,
    ensures
        valid_path(t, p.drop_last()),
    decreases p.len(),
{
    if p.len() > 1 {
        assert(p.drop_last().drop_first() =~= p.drop_first().drop_last());
        lemma_path_pop(t.children@[p[0] as int], p.drop_first());
    }
}

/// Changing one node keeps every way down the tree that passes through it,
/// and the node reached is the changed one.
pub proof fn lemma_altered_path(old: FileNode, new: FileNode, p: Seq<usize>, c: NodeChange)
    requires
        altered_at(old, new, p, c),
    ensures
        valid_path(old, p),
        valid_path(new, p),
        changed(node_at(old, p), node_at(new, p), c),
    decreases p.len(),
{
    if p.len() > 0 {
        lemma_altered_path(
            old.children@[p[0] as int],
            new.children@[p[0] as int],
            p.drop_first(),
            c,
        );
    }
}

/// Changing the node at the end of `p` keeps every shorter way down the
/// tree that `p` starts with.
pub proof fn lemma_altered_prefix(
    old: FileNode,
    new: FileNode,
    p: Seq<usize>,
    c: NodeChange,
    n: int,
)
    requires
        altered_at(old, new, p, c),
        0 <= n <= p.len(),
    ensures
        valid_path(new, p.take(n)),
    decreases p.len(),
{
    if n > 0 {
        assert(p.take(n).drop_first() =~= p.drop_first().take(n - 1));
        lemma_altered_prefix(
            old.children@[p[0] as int],
            new.children@[p[0] as int],
            p.drop_first(),
            c,
            n - 1,
        );
    }
}

/// Makes `c` to the node that `path[k..]` leads to from `node`.
fn alter_at(node: &mut FileNode, path: &Vec<usize>, k: usize, c: &NodeChange)
    requires
        k <= path.len(),
        valid_path(*old(node), path@.skip(k as int)),
    ensures
        altered_at(*old(node), *final(node), path@.skip(k as int), *c),
    decreases path.len() - k,
{
    let ghost p = path@.skip(k as int);
    if k == path.len() {
        match c {
            NodeChange::Select(s) => {
                node.state = *s;
            },
            NodeChange::Sort(st) => {
                sort_file_tree(node, st);
            },
        }
    } else {
        let i = path[k];
        assert(p[0] == i);
        assert(p.drop_first() =~= path@.skip(k + 1));
        alter_at(&mut node.children[i], path, k + 1, c);
    }
}

/// How an entry is named in its directory's listing: its path with the
/// directory's path and every `/` taken out, then `/` for a directory or a
/// space for a file.
pub open spec fn label_of(entry: FileNode, parent: FileNode) -> Seq<char> {
    replaced(replaced(entry.name@, parent.name@, ""@), "/"@, ""@) + if entry.is_dir {
        "/"@
    } else {
        " "@
    }
}

/// The name of `entry` in the listing of `parent`.
pub fn entry_label(entry: &FileNode, parent: &FileNode) -> (s: String)
    ensures
        s@ == label_of(*entry, *parent),
{
    let own = replace_chars(&chars_of(entry.name.as_str()), &chars_of(parent.name.as_str()), &chars_of(""));
    let bare = replace_chars(&own, &chars_of("/"), &chars_of(""));
    let mut s = String::new();
    push_chars(&mut s, &bare);
    if entry.is_dir {
        push_chars(&mut s, &chars_of("/"));
    } else {
        push_chars(&mut s, &chars_of(" "));
    }
    s
}

/// Changing a child of the node at `p` leaves that node's selection and
/// number of entries as they were.
proof fn lemma_altered_parent(old: FileNode, new: FileNode, p: Seq<usize>, i: usize, c: NodeChange)
    requires
        altered_at(old, new, p.push(i), c),
    ensures
        valid_path(old, p),
        node_at(new, p).state == node_at(old, p).state,
        node_at(new, p).children@.len() == node_at(old, p).children@.len(),
        i < node_at(old, p).children@.len(),
        node_at(new, p.push(i)) == node_at(new, p).children@[i as int],
        node_at(old, p.push(i)) == node_at(old, p).children@[i as int],
    decreases p.len(),
{
    let q = p.push(i);
    if p.len() > 0 {
        assert(q.drop_first() =~= p.drop_first().push(i));
        assert(q[0] == p[0]);
        lemma_altered_parent(
            old.children@[p[0] as int],
            new.children@[p[0] as int],
            p.drop_first(),
            i,
            c,
        );
    } else {
        assert(q.drop_first() =~= Seq::<usize>::empty());
        assert(q[0] == i);
        assert(node_at(new.children@[i as int], q.drop_first()) == new.children@[i as int]);
        assert(node_at(old.children@[i as int], q.drop_first()) == old.children@[i as int]);
    }
}

/// An entry named `parent/n` is labelled by `n` as written, every character
/// kept, then `/` for a directory or a space for a file; this holds when `n`
/// holds no `/` and the parent's path does not reappear in `/n`.
pub proof fn lemma_label_is_own_name(entry: FileNode, parent: FileNode, n: Seq<char>)
    requires
        entry.name@ == parent.name@ + seq!['/'] + n,
        forall|k: int| 0 <= k < n.len() ==> n[k] != '/',
        !contains_seq(seq!['/'] + n, parent.name@),
    ensures
        label_of(entry, parent) == n + if entry.is_dir {
            seq!['/']
        } else {
            seq![' ']
        },
{
    reveal_strlit("");
    reveal_strlit("/");
    reveal_strlit(" ");
    assert(""@ =~= Seq::<char>::empty());
    assert("/"@ =~= seq!['/']);
    assert(" "@ =~= seq![' ']);
    let p = parent.name@;
    let rest = seq!['/'] + n;
    assert(entry.name@ =~= p + rest);
    let none = Seq::<char>::empty();
    assert(""@ == none);
    if p.len() > 0 {
        lemma_replaced_prefix(p, rest, none);
        lemma_replaced_absent(rest, p, none);
        assert(none + rest =~= rest);
        assert(replaced(p + rest, p, none) == rest);
    } else {
        assert(p + rest =~= rest);
        lemma_replaced_empty(rest);
        assert(p == none);
        assert(replaced(p + rest, p, none) == rest);
    }
    assert(replaced(entry.name@, p, ""@) == rest);
    lemma_replaced_prefix(seq!['/'], n, seq![]);
    lemma_contains_char(n, '/');
    lemma_replaced_absent(n, seq!['/'], seq![]);
    assert(Seq::<char>::empty() + n =~= n);
    assert(replaced(rest, "/"@, ""@) == n);
}

/// Enter can be handled whenever the tree is installed and the selection is
/// empty or names an entry of the directory on screen, whatever that entry
/// is; it cannot be handled otherwise.
pub proof fn lemma_enter_accepted(app: App, control: bool)
    ensures
        app.accepts(KeyPress { code: KeyCode::Enter, control }) <==> (app.installed() && match app.current().state.selected {
            None => true,
            Some(i) => i < app.current().children@.len(),
        }),
        app.accepts(KeyPress { code: KeyCode::Char('l'), control }) <==> (app.installed() && match app.current().state.selected {
            None => true,
            Some(i) => i < app.current().children@.len(),
        }),
{
}

/// A key as the browser sees it.
#[derive(Clone, Copy, Debug, PartialEq, Eq, Structural)]
pub enum KeyCode {
    Char(char),
    Up,
    Down,
    Left,
    Esc,
    Enter,
    Backspace,
    /// Any other key.
    Other,
}

/// A key press: the key, and whether Control was held.
#[derive(Clone, Copy, Debug, PartialEq, Eq, Structural)]
pub struct KeyPress {
    pub code: KeyCode,
    pub control: bool,
}

/// What a key press asks for.
#[derive(Clone, Copy, Debug, PartialEq, Eq, Structural)]
pub enum Action {
    Quit,
    MoveUp,
    MoveDown,
    SelectNone,
    Enter,
    Back,
    First,
    Last,
    Ignore,
}

/// The action of a key: `q`/`Q` quits, Up/`k` and Down/`j` move the
/// selection, Left/Esc clears it, Enter/`l` opens the selected entry,
/// Backspace/`h` and Control-`o` go back, `g`/`G` select the first/last entry.
pub open spec fn action_of(key: KeyPress) -> Action {
    match key.code {
        KeyCode::Char('q') | KeyCode::Char('Q') => Action::Quit,
        KeyCode::Up | KeyCode::Char('k') => Action::MoveUp,
        KeyCode::Down | KeyCode::Char('j') => Action::MoveDown,
        KeyCode::Left | KeyCode::Esc => Action::SelectNone,
        KeyCode::Enter | KeyCode::Char('l') => Action::Enter,
        KeyCode::Backspace | KeyCode::Char('h') => Action::Back,
        KeyCode::Char('o') => if key.control {
            Action::Back
        } else {
            Action::Ignore
        },
        KeyCode::Char('g') => Action::First,
        KeyCode::Char('G') => Action::Last,
        _ => Action::Ignore,
    }
}

/// The action that a key press asks for.
pub fn key_action(key: &KeyPress) -> (a: Action)
    ensures
        a == action_of(*key),
{
    match key.code {
        KeyCode::Char('q') | KeyCode::Char('Q') => Action::Quit,
        KeyCode::Up | KeyCode::Char('k') => Action::MoveUp,
        KeyCode::Down | KeyCode::Char('j') => Action::MoveDown,
        KeyCode::Left | KeyCode::Esc => Action::SelectNone,
        KeyCode::Enter | KeyCode::Char('l') => Action::Enter,
        KeyCode::Backspace | KeyCode::Char('h') => Action::Back,
        KeyCode::Char('o') => if key.control {
            Action::Back
        } else {
            Action::Ignore
        },
        KeyCode::Char('g') => Action::First,
        KeyCode::Char('G') => Action::Last,
        _ => Action::Ignore,
    }
}

/// What the screen shows next.
#[derive(Clone, Copy, Debug, PartialEq, Eq, Structural)]
pub enum RenderStage {
    /// The loading screen, before anything is scanned.
    Loading,
    /// The tree is to be scanned and handed over before drawing.
    Initialize,
    /// The listing of the current directory.
    Ready,
}

/// What happened in the terminal loop.
#[derive(Clone, Copy, Debug, PartialEq, Eq, Structural)]
pub enum LoopEvent {
    /// The loop is starting.
    Start,
    /// A frame was drawn.
    Drawn,
    /// A key was pressed.
    Key(KeyPress),
    /// An event other than a key press was read.
    OtherEvent,
}

/// What the terminal loop does next.
#[derive(Clone, Copy, Debug, PartialEq, Eq, Structural)]
pub enum LoopAction {
    Draw,
    ReadEvent,
    Stop,
}

/// How a row of a listing is shaded.
#[derive(Clone, Copy, Debug, PartialEq, Eq, Structural)]
pub enum RowShade {
    Normal,
    Alternate,
}

/// Even rows are shaded normally, odd rows alternately.
pub fn alternate_colors(i: usize) -> (s: RowShade)
    ensures
        s == (if i % 2 == 0 {
            RowShade::Normal
        } else {
            RowShade::Alternate
        }),
{
    if i % 2 == 0 {
        RowShade::Normal
    } else {
        RowShade::Alternate
    }
}

/// The browser. Once the tree is installed, the directory on screen is the
/// node that the history of opened entries leads to from the root; before
/// that the history is empty.
pub struct App {
    file_tree: FileNode,
    nodes_history: Vec<usize>,
    config: Config,
    should_exit: bool,
    file_tree_initialized: bool,
    loading_screen_initialize: bool,
}

impl App {
    #[verifier::type_invariant]
    spec fn history_on_tree(self) -> bool {
        &&& valid_path(self.file_tree, self.nodes_history@)
        &&& !self.file_tree_initialized ==> self.nodes_history@.len() == 0
    }

    /// The scanned tree.
    pub closed spec fn tree(self) -> FileNode {
        self.file_tree
    }

    /// The entries opened, from the root down to the current directory.
    pub closed spec fn path(self) -> Seq<usize> {
        self.nodes_history@
    }

    /// The settings the browser was started with.
    pub closed spec fn settings(self) -> Config {
        self.config
    }

    /// The browser is to stop.
    pub closed spec fn exiting(self) -> bool {
        self.should_exit
    }

    /// The tree has been scanned and installed.
    pub closed spec fn installed(self) -> bool {
        self.file_tree_initialized
    }

    /// The loading screen has been drawn.
    pub closed spec fn loading_drawn(self) -> bool {
        self.loading_screen_initialize
    }

    /// The directory on screen.
    pub open spec fn current(self) -> FileNode {
        node_at(self.tree(), self.path())
    }

    /// `new` is `old` with only the tree changed, by `c` made to the node at `p`.
    pub open spec fn tree_altered(old: App, new: App, p: Seq<usize>, c: NodeChange) -> bool {
        &&& altered_at(old.tree(), new.tree(), p, c)
        &&& new.settings() == old.settings()
        &&& new.exiting() == old.exiting()
        &&& new.installed() == old.installed()
        &&& new.loading_drawn() == old.loading_drawn()
    }

    /// `new` is `old` with the current directory's selection set to `s`.
    pub open spec fn selection_set(old: App, new: App, s: ListSelection) -> bool {
        &&& App::tree_altered(old, new, old.path(), NodeChange::Select(s))
        &&& new.path() == old.path()
    }

    /// `new` is `old` after opening the selected entry, if there is one: the
    /// entry becomes the current directory and its entries are sorted.
    pub open spec fn entered(old: App, new: App) -> bool {
        match old.current().state.selected {
            None => new == old,
            Some(i) => {
                &&& new.path() == old.path().push(i)
                &&& App::tree_altered(
                    old,
                    new,
                    old.path().push(i),
                    NodeChange::Sort(old.settings().sort_type),
                )
            },
        }
    }

    /// `new` is `old` after going back to the parent directory; at the root
    /// nothing changes.
    pub open spec fn went_back(old: App, new: App) -> bool {
        if old.path().len() > 0 {
            &&& new.path() == old.path().drop_last()
            &&& new.tree() == old.tree()
            &&& new.settings() == old.settings()
            &&& new.exiting() == old.exiting()
            &&& new.installed() == old.installed()
            &&& new.loading_drawn() == old.loading_drawn()
        } else {
            new == old
        }
    }

    /// The key press can be handled: a key that works on the current
    /// directory needs an installed tree, and opening an entry needs the
    /// selection to name an existing entry.
    pub open spec fn accepts(self, key: KeyPress) -> bool {
        match action_of(key) {
            Action::Quit | Action::Ignore | Action::Back => true,
            Action::Enter => self.installed() && match self.current().state.selected {
                None => true,
                Some(i) => i < self.current().children@.len(),
            },
            _ => self.installed(),
        }
    }

    /// `new` is `old` after the action `a`.
    pub open spec fn acted(old: App, new: App, a: Action) -> bool {
        let sel = old.current().state;
        match a {
            Action::Quit => {
                &&& new.exiting()
                &&& new.tree() == old.tree()
                &&& new.path() == old.path()
                &&& new.settings() == old.settings()
                &&& new.installed() == old.installed()
                &&& new.loading_drawn() == old.loading_drawn()
            },
            Action::MoveUp => App::selection_set(
                old,
                new,
                selecting(sel, Some(previous_index(sel))),
            ),
            Action::MoveDown => App::selection_set(old, new, selecting(sel, Some(next_index(sel)))),
            Action::SelectNone => App::selection_set(old, new, selecting(sel, None)),
            Action::First => App::selection_set(old, new, selecting(sel, Some(0))),
            Action::Last => App::selection_set(old, new, selecting(sel, Some(usize::MAX))),
            Action::Enter => App::entered(old, new),
            Action::Back => App::went_back(old, new),
            Action::Ignore => new == old,
        }
    }

    /// A browser for the given settings, before anything is scanned: a
    /// placeholder tree, an empty history, and nothing drawn yet.
    pub fn new(cfg: Config) -> (app: App)
        ensures
            app.tree().name@ == "DEFAULT_PLACEHOLDER"@,
            app.tree().size@ == 0,
            app.tree().children@.len() == 0,
            !app.tree().is_dir,
            app.tree().modified == 0,
            app.tree().state == unselected(),
            app.path().len() == 0,
            app.settings() == cfg,
            !app.exiting(),
            !app.installed(),
            !app.loading_drawn(),
    {
        App {
            file_tree: FileNode::default(),
            nodes_history: Vec::new(),
            config: cfg,
            should_exit: false,
            file_tree_initialized: false,
            loading_screen_initialize: false,
        }
    }

    /// Whether the browser is to stop.
    pub fn is_exiting(&self) -> (b: bool)
        ensures
            b == self.exiting(),
    {
        self.should_exit
    }

    /// Whether the tree has been installed.
    pub fn is_installed(&self) -> (b: bool)
        ensures
            b == self.installed(),
    {
        self.file_tree_initialized
    }

    /// The settings the browser was started with.
    pub fn config(&self) -> (c: &Config)
        ensures
            *c == self.settings(),
    {
        &self.config
    }

    /// The directory on screen.
    pub fn curent_file_node(&self) -> (node: &FileNode)
        requires
            self.installed(),
        ensures
            *node == self.current(),
            valid_path(self.tree(), self.path()),
    {
        proof {
            use_type_invariant(self);
        }
        let mut node = &self.file_tree;
        let mut k: usize = 0;
        assert(self.nodes_history@.skip(0) == self.nodes_history@);
        while k < self.nodes_history.len()
            invariant
                k <= self.nodes_history.len(),
                valid_path(*node, self.nodes_history@.skip(k as int)),
                node_at(self.file_tree, self.nodes_history@) == node_at(
                    *node,
                    self.nodes_history@.skip(k as int),
                ),
            decreases self.nodes_history.len() - k,
        {
            let ghost p = self.nodes_history@.skip(k as int);
            assert(p.drop_first() =~= self.nodes_history@.skip(k + 1));
            node = &node.children[self.nodes_history[k]];
            k = k + 1;
        }
        node
    }

    /// The directory on screen; the browser is borrowed for changing, as the
    /// listing's selection changes when it is drawn.
    pub fn curent_file_node_mut(&mut self) -> (node: &FileNode)
        requires
            old(self).installed(),
        ensures
            *node == old(self).current(),
            *final(self) == *old(self),
    {
        self.curent_file_node()
    }

    /// What the screen shows next: the loading screen first, then the tree is
    /// scanned, then the listing.
    pub fn render_stage(&self) -> (s: RenderStage)
        ensures
            s == (if self.installed() {
                RenderStage::Ready
            } else if self.loading_drawn() {
                RenderStage::Initialize
            } else {
                RenderStage::Loading
            }),
    {
        if self.file_tree_initialized {
            RenderStage::Ready
        } else if self.loading_screen_initialize {
            RenderStage::Initialize
        } else {
            RenderStage::Loading
        }
    }

    /// Installs the scanned tree: its root, with its entries sorted, becomes
    /// the directory on screen.
    pub fn install_tree(&mut self, tree: FileNode)
        requires
            !old(self).installed(),
        ensures
            final(self).installed(),
            final(self).path().len() == 0,
            final(self).tree().size == tree.size,
            final(self).tree().name == tree.name,
            final(self).tree().is_dir == tree.is_dir,
            final(self).tree().modified == tree.modified,
            final(self).tree().state == tree.state,
            stably_sorted(old(self).settings().sort_type, tree.children@, final(self).tree().children@),
            final(self).settings() == old(self).settings(),
            final(self).exiting() == old(self).exiting(),
            final(self).loading_drawn() == old(self).loading_drawn(),
    {
        proof {
            use_type_invariant(&*self);
        }
        let mut tree = tree;
        sort_file_tree(&mut tree, &self.config.sort_type);
        self.file_tree = tree;
        self.file_tree_initialized = true;
    }

    /// What the terminal loop does next: stop once the browser is to stop,
    /// and draw a frame otherwise.
    pub open spec fn next_step(self) -> LoopAction {
        if self.exiting() {
            LoopAction::Stop
        } else {
            LoopAction::Draw
        }
    }

    /// One turn of the terminal loop: takes what just happened and says what
    /// to do next. The loop starts by drawing unless the browser is to stop.
    /// After the first frame (the loading screen) it draws again at once;
    /// after later frames it reads an event. A key press is handled, other
    /// events are ignored, and then the next frame is drawn.
    pub fn run(&mut self, event: LoopEvent) -> (action: LoopAction)
        requires
            event matches LoopEvent::Key(k) ==> old(self).accepts(k),
        ensures
            match event {
                LoopEvent::Drawn => if old(self).loading_drawn() {
                    &&& *final(self) == *old(self)
                    &&& action == LoopAction::ReadEvent
                } else {
                    &&& final(self).loading_drawn()
                    &&& final(self).tree() == old(self).tree()
                    &&& final(self).path() == old(self).path()
                    &&& final(self).settings() == old(self).settings()
                    &&& final(self).exiting() == old(self).exiting()
                    &&& final(self).installed() == old(self).installed()
                    &&& action == final(self).next_step()
                },
                LoopEvent::Key(k) => {
                    &&& App::acted(*old(self), *final(self), action_of(k))
                    &&& action == final(self).next_step()
                },
                _ => {
                    &&& *final(self) == *old(self)
                    &&& action == old(self).next_step()
                },
            },
    {
        proof {
            use_type_invariant(&*self);
        }
        match event {
            LoopEvent::Drawn => {
                if self.loading_screen_initialize {
                    return LoopAction::ReadEvent;
                }
                self.loading_screen_initialize = true;
            },
            LoopEvent::Key(k) => self.handle_key(k),
            _ => {},
        }
        if self.should_exit {
            LoopAction::Stop
        } else {
            LoopAction::Draw
        }
    }

    /// Sets the selection of the directory on screen, as drawing its listing
    /// left it.
    pub fn set_current_selection(&mut self, sel: ListSelection)
        requires
            old(self).installed(),
        ensures
            App::selection_set(*old(self), *final(self), sel),
    {
        self.change_current(NodeChange::Select(sel));
    }

    fn change_current(&mut self, c: NodeChange)
        requires
            old(self).installed(),
            c is Select,
        ensures
            App::selection_set(*old(self), *final(self), c->Select_0),
    {
        proof {
            use_type_invariant(&*self);
        }
        let mut hist: Vec<usize> = Vec::new();
        std::mem::swap(&mut hist, &mut self.nodes_history);
        let mut tree = FileNode::default();
        std::mem::swap(&mut tree, &mut self.file_tree);
        let ghost before = tree;
        assert(hist@.skip(0) == hist@);
        alter_at(&mut tree, &hist, 0, &c);
        proof {
            lemma_altered_path(before, tree, hist@, c);
        }
        self.file_tree = tree;
        self.nodes_history = hist;
    }

    /// Clears the selection of the directory on screen.
    pub fn select_none(&mut self)
        requires
            old(self).installed(),
        ensures
            App::acted(*old(self), *final(self), Action::SelectNone),
    {
        let sel = self.curent_file_node().state;
        self.change_current(NodeChange::Select(list_select(sel, None)));
    }

    /// Selects the entry above the selected one.
    pub fn move_up(&mut self)
        requires
            old(self).installed(),
        ensures
            App::acted(*old(self), *final(self), Action::MoveUp),
    {
        let sel = self.curent_file_node().state;
        self.change_current(NodeChange::Select(list_select_previous(sel)));
    }

    /// Selects the entry below the selected one.
    pub fn move_down(&mut self)
        requires
            old(self).installed(),
        ensures
            App::acted(*old(self), *final(self), Action::MoveDown),
    {
        let sel = self.curent_file_node().state;
        self.change_current(NodeChange::Select(list_select_next(sel)));
    }

    /// Selects the first entry.
    pub fn move_to_first(&mut self)
        requires
            old(self).installed(),
        ensures
            App::acted(*old(self), *final(self), Action::First),
    {
        let sel = self.curent_file_node().state;
        self.change_current(NodeChange::Select(list_select_first(sel)));
    }

    /// Selects the last entry.
    pub fn move_to_last(&mut self)
        requires
            old(self).installed(),
        ensures
            App::acted(*old(self), *final(self), Action::Last),
    {
        let sel = self.curent_file_node().state;
        self.change_current(NodeChange::Select(list_select_last(sel)));
    }

    /// Goes back to the parent directory; at the root nothing happens.
    pub fn change_to_previous_path(&mut self)
        ensures
            App::went_back(*old(self), *final(self)),
    {
        proof {
            use_type_invariant(&*self);
        }
        if self.nodes_history.len() > 0 {
            proof {
                lemma_path_pop(self.file_tree, self.nodes_history@);
            }
            let mut hist: Vec<usize> = Vec::new();
            std::mem::swap(&mut hist, &mut self.nodes_history);
            hist.pop();
            self.nodes_history = hist;
        }
    }

    /// Opens the selected entry, if one is selected: it becomes the directory
    /// on screen, and its entries are sorted by the configured order.
    pub fn change_curent_path_into_selected(&mut self)
        requires
            old(self).installed(),
            old(self).current().state.selected matches Some(i) ==> i < old(
                self,
            ).current().children@.len(),
        ensures
            App::entered(*old(self), *final(self)),
    {
        proof {
            use_type_invariant(&*self);
        }
        let selected = self.curent_file_node().state.selected;
        if let Some(i) = selected {
            let mut hist: Vec<usize> = Vec::new();
            std::mem::swap(&mut hist, &mut self.nodes_history);
            let mut tree = FileNode::default();
            std::mem::swap(&mut tree, &mut self.file_tree);
            let ghost before = tree;
            proof {
                lemma_path_push(tree, hist@, i);
            }
            hist.push(i);
            let c = NodeChange::Sort(self.config.sort_type);
            assert(hist@.skip(0) == hist@);
            alter_at(&mut tree, &hist, 0, &c);
            proof {
                lemma_altered_path(before, tree, hist@, c);
            }
            self.file_tree = tree;
            self.nodes_history = hist;
        }
    }

    /// Whether `key` can be handled now (see [`App::accepts`]).
    pub fn accepts_key(&self, key: &KeyPress) -> (b: bool)
        ensures
            b == self.accepts(*key),
    {
        match key_action(key) {
            Action::Quit | Action::Ignore | Action::Back => true,
            Action::Enter => {
                if !self.file_tree_initialized {
                    false
                } else {
                    let node = self.curent_file_node();
                    match node.state.selected {
                        None => true,
                        Some(i) => i < node.children.len(),
                    }
                }
            },
            _ => self.file_tree_initialized,
        }
    }

    /// Does what the key press asks for.
    pub fn handle_key(&mut self, key: KeyPress)
        requires
            old(self).accepts(key),
        ensures
            App::acted(*old(self), *final(self), action_of(key)),
    {
        proof {
            use_type_invariant(&*self);
        }
        match key_action(&key) {
            Action::Quit => {
                self.should_exit = true;
            },
            Action::MoveUp => self.move_up(),
            Action::MoveDown => self.move_down(),
            Action::SelectNone => self.select_none(),
            Action::Enter => self.change_curent_path_into_selected(),
            Action::Back => self.change_to_previous_path(),
            Action::First => self.move_to_first(),
            Action::Last => self.move_to_last(),
            Action::Ignore => {},
        }
    }
}

/// Going back after opening an entry returns to the directory the entry was
/// opened from; the tree differs only in the opened directory's sorted entries.
pub proof fn lemma_back_undoes_enter(a: App, b: App, c: App)
    requires
        App::entered(a, b),
        App::went_back(b, c),
        a.current().state.selected is Some,
    ensures
        c.path() == a.path(),
        App::tree_altered(
            a,
            c,
            a.path().push(a.current().state.selected->Some_0),
            NodeChange::Sort(a.settings().sort_type),
        ),
{
    assert(b.path().drop_last() =~= a.path());
}

/// Opening the same entry again, after going back from it, shows its entries
/// in the order they were shown the first time: sorting a listing that is
/// already sorted leaves it as it is.
pub proof fn lemma_reopen_same_order(a: App, b: App, c: App, d: App)
    requires
        App::entered(a, b),
        App::went_back(b, c),
        App::entered(c, d),
        a.current().state.selected is Some,
    ensures
        c.current().state.selected == a.current().state.selected,
        d.path() == b.path(),
        d.current().children@ == b.current().children@,
{
    let i = a.current().state.selected->Some_0;
    let p = a.path();
    let st = a.settings().sort_type;
    lemma_back_undoes_enter(a, b, c);
    lemma_altered_parent(a.tree(), c.tree(), p, i, NodeChange::Sort(st));
    lemma_altered_path(a.tree(), c.tree(), p.push(i), NodeChange::Sort(st));
    assert(c.current() == node_at(c.tree(), p));
    assert(c.current().state.selected == Some(i));
    lemma_altered_path(c.tree(), d.tree(), p.push(i), NodeChange::Sort(st));
    let first = node_at(c.tree(), p.push(i));
    let again = node_at(d.tree(), p.push(i));
    let original = node_at(a.tree(), p.push(i));
    assert(stably_sorted(st, original.children@, first.children@));
    assert(stably_sorted(st, first.children@, again.children@));
    lemma_stable_sort_settled(st, original.children@, first.children@);
    assert(b.tree() == c.tree());
    assert(b.current() == first);
    assert(d.current() == again);
}

} // verus!
