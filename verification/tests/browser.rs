use file_flier::config::{ChartType, Config, SortDirection, SortType};
use file_flier::create_file_node_from_path;
use file_flier::tools::{FileNode, FileSize, ListSelection};
use file_flier::tui::app::{
    alternate_colors, entry_label, key_action, Action, App, KeyCode, KeyPress, LoopAction,
    LoopEvent, RenderStage, RowShade,
};

fn file(name: &str, size: u64) -> FileNode {
    create_file_node_from_path(name.to_string(), size, 0)
}

fn dir(name: &str, children: Vec<FileNode>) -> FileNode {
    FileNode::new(FileSize::bytes_to_size_metric(0), name.to_string(), true, 0, children)
}

fn key(c: char) -> KeyPress {
    KeyPress { code: KeyCode::Char(c), control: false }
}

fn names(nodes: &[FileNode]) -> Vec<String> {
    nodes.iter().map(|n| n.name.clone()).collect()
}

fn tree() -> FileNode {
    dir(
        "./r",
        vec![
            file("./r/small", 1),
            dir("./r/sub", vec![file("./r/sub/b", 2), file("./r/sub/a", 30)]),
            file("./r/big", 1_000),
        ],
    )
}

fn ready_app(sort_type: SortType) -> App {
    let mut app = App::new(Config { path: "./r".to_string(), chart_type: ChartType::Pie, sort_type });
    assert_eq!(app.run(LoopEvent::Start), LoopAction::Draw);
    assert_eq!(app.render_stage(), RenderStage::Loading);
    assert_eq!(app.run(LoopEvent::Drawn), LoopAction::Draw);
    assert_eq!(app.render_stage(), RenderStage::Initialize);
    app.install_tree(tree());
    assert_eq!(app.render_stage(), RenderStage::Ready);
    assert_eq!(app.run(LoopEvent::Drawn), LoopAction::ReadEvent);
    assert_eq!(app.run(LoopEvent::OtherEvent), LoopAction::Draw);
    app
}

fn press(app: &mut App, k: KeyPress) {
    assert!(app.accepts_key(&k));
    app.handle_key(k);
}

#[test]
fn new_browser_starts_unscanned() {
    let app = App::new(Config {
        path: "./".to_string(),
        chart_type: ChartType::Pie,
        sort_type: SortType::Natural(SortDirection::Up),
    });
    assert!(!app.is_exiting());
    assert!(!app.is_installed());
    assert_eq!(app.config().path, "./");
    assert!(!app.accepts_key(&KeyPress { code: KeyCode::Down, control: false }));
    assert!(app.accepts_key(&key('q')));
    assert!(app.accepts_key(&KeyPress { code: KeyCode::Backspace, control: false }));
}

#[test]
fn installed_root_is_sorted() {
    let app = ready_app(SortType::Size(SortDirection::Down));
    assert_eq!(names(&app.curent_file_node().children), vec!["./r/big", "./r/small", "./r/sub"]);
    assert_eq!(app.curent_file_node().name, "./r");
}

#[test]
fn keys_move_the_selection() {
    let mut app = ready_app(SortType::Natural(SortDirection::Up));
    press(&mut app, KeyPress { code: KeyCode::Down, control: false });
    assert_eq!(app.curent_file_node().state.selected, Some(0));
    press(&mut app, key('j'));
    assert_eq!(app.curent_file_node().state.selected, Some(1));
    press(&mut app, key('k'));
    assert_eq!(app.curent_file_node().state.selected, Some(0));
    press(&mut app, KeyPress { code: KeyCode::Up, control: false });
    assert_eq!(app.curent_file_node().state.selected, Some(0));
    press(&mut app, key('G'));
    assert_eq!(app.curent_file_node().state.selected, Some(usize::MAX));
    press(&mut app, key('g'));
    assert_eq!(app.curent_file_node().state.selected, Some(0));
    press(&mut app, KeyPress { code: KeyCode::Esc, control: false });
    assert_eq!(app.curent_file_node().state, ListSelection { offset: 0, selected: None });
    press(&mut app, key('k'));
    assert_eq!(app.curent_file_node().state.selected, Some(usize::MAX));
}

#[test]
fn clearing_the_selection_scrolls_back() {
    let mut app = ready_app(SortType::Natural(SortDirection::Up));
    app.set_current_selection(ListSelection { offset: 2, selected: Some(2) });
    press(&mut app, key('j'));
    assert_eq!(app.curent_file_node().state, ListSelection { offset: 2, selected: Some(3) });
    press(&mut app, KeyPress { code: KeyCode::Left, control: false });
    assert_eq!(app.curent_file_node().state, ListSelection { offset: 0, selected: None });
}

#[test]
fn enter_opens_and_sorts_the_selected_directory() {
    let mut app = ready_app(SortType::Alphabetical(SortDirection::Up));
    assert_eq!(names(&app.curent_file_node().children), vec!["./r/big", "./r/small", "./r/sub"]);
    press(&mut app, key('G'));
    assert!(!app.accepts_key(&KeyPress { code: KeyCode::Enter, control: false }));
    app.set_current_selection(ListSelection { offset: 0, selected: Some(2) });
    press(&mut app, KeyPress { code: KeyCode::Enter, control: false });
    assert_eq!(app.curent_file_node().name, "./r/sub");
    assert_eq!(names(&app.curent_file_node().children), vec!["./r/sub/a", "./r/sub/b"]);
    press(&mut app, KeyPress { code: KeyCode::Backspace, control: false });
    assert_eq!(app.curent_file_node().name, "./r");
    assert_eq!(app.curent_file_node().state.selected, Some(2));
}

#[test]
fn enter_without_a_selection_does_nothing() {
    let mut app = ready_app(SortType::Natural(SortDirection::Up));
    press(&mut app, key('l'));
    assert_eq!(app.curent_file_node().name, "./r");
}

#[test]
fn going_back_at_the_root_does_nothing() {
    let mut app = ready_app(SortType::Natural(SortDirection::Up));
    press(&mut app, key('h'));
    assert_eq!(app.curent_file_node().name, "./r");
    press(&mut app, KeyPress { code: KeyCode::Char('o'), control: true });
    assert_eq!(app.curent_file_node().name, "./r");
}

#[test]
fn control_o_goes_back_and_plain_o_is_ignored() {
    let mut app = ready_app(SortType::Natural(SortDirection::Up));
    app.set_current_selection(ListSelection { offset: 0, selected: Some(1) });
    press(&mut app, KeyPress { code: KeyCode::Enter, control: false });
    assert_eq!(app.curent_file_node().name, "./r/sub");
    press(&mut app, key('o'));
    assert_eq!(app.curent_file_node().name, "./r/sub");
    press(&mut app, KeyPress { code: KeyCode::Char('o'), control: true });
    assert_eq!(app.curent_file_node().name, "./r");
}

#[test]
fn reopening_shows_the_same_order() {
    let mut app = ready_app(SortType::Size(SortDirection::Up));
    let sub_index = app
        .curent_file_node()
        .children
        .iter()
        .position(|n| n.name == "./r/sub")
        .unwrap();
    app.set_current_selection(ListSelection { offset: 0, selected: Some(sub_index) });
    press(&mut app, key('l'));
    let first = names(&app.curent_file_node().children);
    press(&mut app, key('h'));
    press(&mut app, key('l'));
    assert_eq!(names(&app.curent_file_node().children), first);
    assert_eq!(first, vec!["./r/sub/b", "./r/sub/a"]);
}

#[test]
fn quit_keys_stop_the_browser() {
    let mut app = ready_app(SortType::Natural(SortDirection::Up));
    press(&mut app, key('x'));
    assert!(!app.is_exiting());
    assert_eq!(app.run(LoopEvent::Key(key('Q'))), LoopAction::Stop);
    assert!(app.is_exiting());
    assert_eq!(app.run(LoopEvent::Start), LoopAction::Stop);
}

#[test]
fn key_table() {
    let plain = |code| KeyPress { code, control: false };
    assert_eq!(key_action(&key('q')), Action::Quit);
    assert_eq!(key_action(&key('Q')), Action::Quit);
    assert_eq!(key_action(&plain(KeyCode::Up)), Action::MoveUp);
    assert_eq!(key_action(&key('k')), Action::MoveUp);
    assert_eq!(key_action(&plain(KeyCode::Down)), Action::MoveDown);
    assert_eq!(key_action(&key('j')), Action::MoveDown);
    assert_eq!(key_action(&plain(KeyCode::Left)), Action::SelectNone);
    assert_eq!(key_action(&plain(KeyCode::Esc)), Action::SelectNone);
    assert_eq!(key_action(&plain(KeyCode::Enter)), Action::Enter);
    assert_eq!(key_action(&key('l')), Action::Enter);
    assert_eq!(key_action(&plain(KeyCode::Backspace)), Action::Back);
    assert_eq!(key_action(&key('h')), Action::Back);
    assert_eq!(key_action(&KeyPress { code: KeyCode::Char('o'), control: true }), Action::Back);
    assert_eq!(key_action(&key('o')), Action::Ignore);
    assert_eq!(key_action(&key('g')), Action::First);
    assert_eq!(key_action(&key('G')), Action::Last);
    assert_eq!(key_action(&plain(KeyCode::Other)), Action::Ignore);
    assert_eq!(key_action(&KeyPress { code: KeyCode::Char('q'), control: true }), Action::Quit);
}

#[test]
fn labels_drop_the_parent_path() {
    let parent = dir("./r", vec![]);
    assert_eq!(entry_label(&file("./r/notes.txt", 3), &parent), "notes.txt ");
    assert_eq!(entry_label(&dir("./r/sub", vec![]), &parent), "sub/");
    assert_eq!(entry_label(&file("/x/./r/y", 3), &parent), "xy ");
}

#[test]
fn rows_alternate() {
    assert_eq!(alternate_colors(0), RowShade::Normal);
    assert_eq!(alternate_colors(1), RowShade::Alternate);
    assert_eq!(alternate_colors(10), RowShade::Normal);
    assert_eq!(alternate_colors(usize::MAX), RowShade::Alternate);
}

