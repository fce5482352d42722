use ssh_hosts::app::App;
use ssh_hosts::event_handler::{handle_key, handle_mouse, Key, KeyInput, MouseInput, MouseKind};
use ssh_hosts::render::{footer_text, row_labels};

const CONFIG: &str = "#: Group prod\nHost web\n  HostName 10.0.0.1\nHost db\n  HostName 10.0.0.2\nHost lone\n";

fn press(key: Key) -> KeyInput {
    KeyInput { key, control: false, is_press: true }
}

fn ctrl(key: Key) -> KeyInput {
    KeyInput { key, control: true, is_press: true }
}

fn type_text(app: &mut App, text: &str) {
    for c in text.chars() {
        handle_key(app, press(Key::Char(c)));
    }
}

fn down(row: u16) -> MouseInput {
    MouseInput { kind: MouseKind::Down, row }
}

#[test]
fn new_session_is_idle() {
    let app = App::new(CONFIG);
    assert!(!app.should_exit);
    assert!(!app.has_selected);
    assert!(!app.is_searching);
    assert_eq!(app.search_query, "");
    assert_eq!(app.last_click_time, None);
    assert_eq!(app.last_click_row, None);
    assert_eq!(app.server_list.items().len(), 4);
    assert_eq!(app.server_list.selected_index(), Some(0));
    assert!(app.login_target().is_none());
}

#[test]
fn releases_and_repeats_are_ignored() {
    let mut app = App::new(CONFIG);
    handle_key(&mut app, KeyInput { key: Key::Char('q'), control: false, is_press: false });
    assert!(!app.should_exit);
    handle_key(&mut app, KeyInput { key: Key::Down, control: false, is_press: false });
    assert_eq!(app.server_list.selected_index(), Some(0));
}

#[test]
fn q_quits_without_a_choice() {
    let mut app = App::new(CONFIG);
    handle_key(&mut app, press(Key::Char('q')));
    assert!(app.should_exit);
    assert!(!app.has_selected);
    assert!(app.login_target().is_none());
}

#[test]
fn browse_keys_move_the_cursor() {
    let mut app = App::new(CONFIG);
    handle_key(&mut app, press(Key::Char('j')));
    assert_eq!(app.server_list.selected_index(), Some(1));
    handle_key(&mut app, press(Key::Down));
    assert_eq!(app.server_list.selected_index(), Some(2));
    handle_key(&mut app, press(Key::Char('k')));
    assert_eq!(app.server_list.selected_index(), Some(1));
    handle_key(&mut app, press(Key::Up));
    assert_eq!(app.server_list.selected_index(), Some(0));
    handle_key(&mut app, press(Key::Char('G')));
    assert_eq!(app.server_list.selected_index(), Some(3));
    handle_key(&mut app, press(Key::Char('g')));
    assert_eq!(app.server_list.selected_index(), Some(0));
    handle_key(&mut app, press(Key::End));
    assert_eq!(app.server_list.selected_index(), Some(3));
    handle_key(&mut app, press(Key::Home));
    assert_eq!(app.server_list.selected_index(), Some(0));
    handle_key(&mut app, press(Key::Other));
    handle_key(&mut app, press(Key::Esc));
    handle_key(&mut app, press(Key::Backspace));
    handle_key(&mut app, press(Key::Char('x')));
    assert_eq!(app.server_list.selected_index(), Some(0));
    assert!(!app.should_exit);
    assert!(!app.is_searching);
}

#[test]
fn enter_on_a_header_toggles_it() {
    let mut app = App::new(CONFIG);
    handle_key(&mut app, press(Key::Enter));
    assert!(!app.should_exit);
    assert!(!app.server_list.is_group_expanded("prod"));
    assert_eq!(app.server_list.visible_items().len(), 1);
    handle_key(&mut app, press(Key::Enter));
    assert!(app.server_list.is_group_expanded("prod"));
    assert_eq!(app.server_list.visible_items().len(), 4);
}

#[test]
fn enter_on_a_host_chooses_it() {
    let mut app = App::new(CONFIG);
    handle_key(&mut app, press(Key::Down));
    handle_key(&mut app, press(Key::Enter));
    assert!(app.should_exit);
    assert!(app.has_selected);
    assert_eq!(app.login_target().unwrap().host, "web");
    assert_eq!(app.login_target().unwrap().ip, "10.0.0.1");
}

#[test]
fn z_toggles_all_groups() {
    let mut app = App::new(CONFIG);
    handle_key(&mut app, press(Key::Char('z')));
    assert!(!app.server_list.is_group_expanded("prod"));
    handle_key(&mut app, press(Key::Char('z')));
    assert!(app.server_list.is_group_expanded("prod"));
}

#[test]
fn slash_and_f_start_a_search() {
    for key in ['/', 'f'] {
        let mut app = App::new(CONFIG);
        app.search_query.push_str("old");
        handle_key(&mut app, press(Key::Char(key)));
        assert!(app.is_searching);
        assert_eq!(app.search_query, "");
        assert_eq!(app.server_list.visible_items().len(), 4);
    }
}

#[test]
fn typing_filters_the_list() {
    let mut app = App::new(CONFIG);
    handle_key(&mut app, press(Key::Char('/')));
    type_text(&mut app, "we");
    assert_eq!(app.search_query, "we");
    assert_eq!(app.server_list.visible_items().len(), 1);
    assert_eq!(app.server_list.selected().unwrap().host, "web");
    type_text(&mut app, "q");
    assert!(app.is_searching);
    assert!(!app.should_exit);
    assert!(app.server_list.visible_items().is_empty());
    handle_key(&mut app, press(Key::Backspace));
    assert_eq!(app.search_query, "we");
    assert_eq!(app.server_list.visible_items().len(), 1);
    handle_key(&mut app, press(Key::Backspace));
    handle_key(&mut app, press(Key::Backspace));
    assert_eq!(app.search_query, "");
    assert_eq!(app.server_list.visible_items().len(), 4);
    handle_key(&mut app, press(Key::Backspace));
    assert_eq!(app.search_query, "");
    assert_eq!(app.server_list.visible_items().len(), 4);
}

#[test]
fn search_keys_move_the_cursor() {
    let mut app = App::new("Host ab\nHost abc\nHost abd\n");
    handle_key(&mut app, press(Key::Char('f')));
    type_text(&mut app, "ab");
    assert_eq!(app.server_list.selected_index(), Some(0));
    handle_key(&mut app, ctrl(Key::Char('j')));
    assert_eq!(app.server_list.selected_index(), Some(1));
    handle_key(&mut app, press(Key::Down));
    assert_eq!(app.server_list.selected_index(), Some(2));
    handle_key(&mut app, ctrl(Key::Char('k')));
    assert_eq!(app.server_list.selected_index(), Some(1));
    handle_key(&mut app, press(Key::Up));
    assert_eq!(app.server_list.selected_index(), Some(0));
    assert_eq!(app.search_query, "ab");
    handle_key(&mut app, press(Key::Char('j')));
    assert_eq!(app.search_query, "abj");
    handle_key(&mut app, ctrl(Key::Char('x')));
    assert_eq!(app.search_query, "abjx");
    handle_key(&mut app, press(Key::Home));
    handle_key(&mut app, press(Key::Other));
    assert_eq!(app.search_query, "abjx");
    assert!(app.is_searching);
}

#[test]
fn escape_cancels_the_search() {
    let mut app = App::new(CONFIG);
    handle_key(&mut app, press(Key::Char('/')));
    type_text(&mut app, "db");
    handle_key(&mut app, press(Key::Esc));
    assert!(!app.is_searching);
    assert_eq!(app.search_query, "");
    assert_eq!(app.server_list.visible_items().len(), 4);
    assert_eq!(app.server_list.selected_index(), Some(0));
}

#[test]
fn enter_in_a_search_chooses_the_host() {
    let mut app = App::new(CONFIG);
    handle_key(&mut app, press(Key::Char('/')));
    type_text(&mut app, "db");
    handle_key(&mut app, press(Key::Enter));
    assert!(!app.is_searching);
    assert!(app.should_exit);
    assert!(app.has_selected);
    assert_eq!(app.search_query, "db");
    assert_eq!(app.login_target().unwrap().host, "db");
}

#[test]
fn enter_in_a_fruitless_search_only_ends_the_search() {
    let mut app = App::new(CONFIG);
    handle_key(&mut app, press(Key::Char('/')));
    type_text(&mut app, "zzz");
    handle_key(&mut app, press(Key::Enter));
    assert!(!app.is_searching);
    assert!(!app.should_exit);
    assert!(!app.has_selected);
    assert!(app.login_target().is_none());
}

#[test]
fn wheel_moves_the_cursor() {
    let mut app = App::new(CONFIG);
    handle_mouse(&mut app, MouseInput { kind: MouseKind::ScrollDown, row: 9 }, 10);
    assert_eq!(app.server_list.selected_index(), Some(1));
    handle_mouse(&mut app, MouseInput { kind: MouseKind::ScrollUp, row: 9 }, 20);
    assert_eq!(app.server_list.selected_index(), Some(0));
    handle_mouse(&mut app, MouseInput { kind: MouseKind::Other, row: 2 }, 30);
    assert_eq!(app.server_list.selected_index(), Some(0));
    assert_eq!(app.last_click_time, None);
}

#[test]
fn press_selects_the_row() {
    let mut app = App::new(CONFIG);
    handle_mouse(&mut app, down(2), 1000);
    assert_eq!(app.server_list.selected_index(), Some(2));
    assert_eq!(app.last_click_time, Some(1000));
    assert!(!app.should_exit);
    assert_eq!(app.last_click_row, Some(2));
    handle_mouse(&mut app, down(7), 1100);
    assert_eq!(app.server_list.selected_index(), Some(2));
    assert_eq!(app.last_click_time, Some(1000));
    assert_eq!(app.last_click_row, Some(2));
}

#[test]
fn quick_presses_on_different_rows_only_select() {
    let mut app = App::new(CONFIG);
    handle_mouse(&mut app, down(1), 1000);
    handle_mouse(&mut app, down(2), 1010);
    assert!(!app.should_exit);
    assert_eq!(app.server_list.selected_index(), Some(2));
    handle_mouse(&mut app, down(2), 1020);
    assert!(app.should_exit);
    assert_eq!(app.login_target().unwrap().host, "db");
}

#[test]
fn clock_that_runs_backwards_counts_as_no_time() {
    let mut app = App::new(CONFIG);
    handle_mouse(&mut app, down(1), 5000);
    handle_mouse(&mut app, down(1), 100);
    assert!(app.should_exit);
    assert_eq!(app.last_click_time, Some(100));
}

#[test]
fn double_press_confirms_a_host() {
    let mut app = App::new(CONFIG);
    handle_mouse(&mut app, down(2), 1000);
    handle_mouse(&mut app, down(2), 1299);
    assert!(app.should_exit);
    assert!(app.has_selected);
    assert_eq!(app.last_click_time, Some(1299));
    assert_eq!(app.login_target().unwrap().host, "db");
}

#[test]
fn slow_second_press_only_selects() {
    let mut app = App::new(CONFIG);
    handle_mouse(&mut app, down(2), 1000);
    handle_mouse(&mut app, down(2), 1300);
    assert!(!app.should_exit);
    assert_eq!(app.last_click_time, Some(1300));
    handle_mouse(&mut app, down(2), 1400);
    assert!(app.should_exit);
    assert_eq!(app.login_target().unwrap().host, "db");
}

#[test]
fn double_press_toggles_a_header() {
    let mut app = App::new(CONFIG);
    handle_mouse(&mut app, down(0), 5);
    handle_mouse(&mut app, down(0), 6);
    assert!(!app.should_exit);
    assert!(!app.server_list.is_group_expanded("prod"));
    assert_eq!(app.server_list.visible_items().len(), 1);
}

#[test]
fn footer_shows_help_or_the_query() {
    let mut app = App::new(CONFIG);
    assert_eq!(
        footer_text(&app),
        "j/↓: down | k/↑: up | g/Home: top | G/End: bottom | / or f: search | Enter: login"
    );
    handle_key(&mut app, press(Key::Char('/')));
    type_text(&mut app, "we");
    assert_eq!(footer_text(&app), "Search: we (Press Esc to cancel, Ctrl+j/k or ↑/↓ to navigate)");
    assert_eq!(row_labels(&app), vec!["  web  10.0.0.1"]);
}
