//! What each key and pointer event does to the session.

use crate::app::{App, AppModel};
use vstd::prelude::*;

verus! {

/// Two presses on the same row that are less than this many milliseconds apart
/// confirm the row.
pub const DOUBLE_CLICK_MS: u64 = 300;

/// A key of the keyboard, as far as the session tells keys apart.
#[derive(Clone, Copy, Debug)]
pub enum Key {
    Char(char),
    Esc,
    Backspace,
    Enter,
    Up,
    Down,
    Home,
    End,
    Other,
}

/// A keyboard event: the key, whether Control was held, and whether the key was
/// pressed (and not released or repeated).
#[derive(Clone, Copy, Debug)]
pub struct KeyInput {
    pub key: Key,
    pub control: bool,
    pub is_press: bool,
}

/// What a pointer did.
#[derive(Clone, Copy, Debug)]
pub enum MouseKind {
    Down,
    ScrollUp,
    ScrollDown,
    Other,
}

/// A pointer event: what the pointer did, and in which screen row.
#[derive(Clone, Copy, Debug)]
pub struct MouseInput {
    pub kind: MouseKind,
    pub row: u16,
}

/// Whether a press on `row` at the time `now` confirms the row: the press before
/// it was on the same row, and less than the double-click time ago. A clock that
/// ran backwards counts as no time passed.
pub open spec fn is_double_click(
    last: Option<u64>,
    last_row: Option<usize>,
    now: u64,
    row: usize,
) -> bool {
    match last {
        Some(then) => now < then + DOUBLE_CLICK_MS && last_row == Some(row),
        None => false,
    }
}

impl AppModel {
    /// The state with the cursor of the list moved one row down.
    pub open spec fn next(self) -> AppModel {
        AppModel { list: self.list.select_next(), ..self }
    }

    /// The state with the cursor of the list moved one row up.
    pub open spec fn previous(self) -> AppModel {
        AppModel { list: self.list.select_previous(), ..self }
    }

    /// The state after a key press while a search is in progress.
    pub open spec fn on_search_key(self, key: KeyInput) -> AppModel {
        match key.key {
            Key::Esc => AppModel {
                is_searching: false,
                query: Seq::empty(),
                list: self.list.reset_filter(),
                ..self
            },
            Key::Backspace => (AppModel {
                query: if self.query.len() > 0 {
                    self.query.drop_last()
                } else {
                    self.query
                },
                ..self
            }).update_search(),
            Key::Char(c) => if key.control && c == 'j' {
                self.next()
            } else if key.control && c == 'k' {
                self.previous()
            } else {
                (AppModel { query: self.query.push(c), ..self }).update_search()
            },
            Key::Down => self.next(),
            Key::Up => self.previous(),
            Key::Enter => (AppModel { is_searching: false, ..self }).confirm(),
            _ => self,
        }
    }

    /// The state after a key press while no search is in progress.
    pub open spec fn on_browse_key(self, key: KeyInput) -> AppModel {
        match key.key {
            Key::Char(c) => if c == 'q' {
                AppModel { should_exit: true, ..self }
            } else if c == 'j' {
                self.next()
            } else if c == 'k' {
                self.previous()
            } else if c == 'g' {
                AppModel { list: self.list.select_first(), ..self }
            } else if c == 'G' {
                AppModel { list: self.list.select_last(), ..self }
            } else if c == '/' || c == 'f' {
                AppModel { is_searching: true, query: Seq::empty(), ..self }
            } else if c == 'z' {
                AppModel { list: self.list.toggle_all(), ..self }
            } else {
                self
            },
            Key::Down => self.next(),
            Key::Up => self.previous(),
            Key::Home => AppModel { list: self.list.select_first(), ..self },
            Key::End => AppModel { list: self.list.select_last(), ..self },
            Key::Enter => self.confirm(),
            _ => self,
        }
    }

    /// The state after the keyboard event `key`. Only presses count.
    pub open spec fn on_key(self, key: KeyInput) -> AppModel {
        if !key.is_press {
            self
        } else if self.is_searching {
            self.on_search_key(key)
        } else {
            self.on_browse_key(key)
        }
    }

    /// The state after the pointer event `mouse` at the time `now`. A press on a
    /// row selects it, and confirms it if it closely follows another press on that
    /// row; a press below the rows does nothing. The wheel moves the cursor.
    pub open spec fn on_mouse(self, mouse: MouseInput, now: u64) -> AppModel {
        match mouse.kind {
            MouseKind::Down => match self.list.row_at(mouse.row as usize) {
                Some(row) => {
                    let picked = AppModel { list: self.list.with_position(row), ..self };
                    let acted = if is_double_click(self.last_click, self.last_click_row, now, row) {
                        picked.confirm()
                    } else {
                        picked
                    };
                    AppModel { last_click: Some(now), last_click_row: Some(row), ..acted }
                },
                None => self,
            },
            MouseKind::ScrollUp => self.previous(),
            MouseKind::ScrollDown => self.next(),
            MouseKind::Other => self,
        }
    }
}

/// Applies a keyboard event to the session.
pub fn handle_key(app: &mut App, key: KeyInput)
    requires
        old(app).wf(),
    ensures
        final(app).wf(),
        final(app)@ == old(app)@.on_key(key),
{
    if !key.is_press {
        return ;
    }
    if app.is_searching {
        match key.key {
            Key::Esc => {
                app.is_searching = false;
                app.search_query.clear();
                app.server_list.reset_filter();
            },
            Key::Backspace => {
                app.search_query.pop();
                app.update_search();
            },
            Key::Char(c) => {
                if key.control && c == 'j' {
                    app.server_list.select_next();
                } else if key.control && c == 'k' {
                    app.server_list.select_previous();
                } else {
                    app.search_query.push(c);
                    app.update_search();
                }
            },
            Key::Down => app.server_list.select_next(),
            Key::Up => app.server_list.select_previous(),
            Key::Enter => {
                app.is_searching = false;
                app.confirm();
            },
            _ => {},
        }
        return ;
    }
    match key.key {
        Key::Char(c) => {
            if c == 'q' {
                app.should_exit = true;
            } else if c == 'j' {
                app.server_list.select_next();
            } else if c == 'k' {
                app.server_list.select_previous();
            } else if c == 'g' {
                app.server_list.select_first();
            } else if c == 'G' {
                app.server_list.select_last();
            } else if c == '/' || c == 'f' {
                app.is_searching = true;
                app.search_query.clear();
            } else if c == 'z' {
                app.server_list.toggle_all_groups();
            }
        },
        Key::Down => app.server_list.select_next(),
        Key::Up => app.server_list.select_previous(),
        Key::Home => app.server_list.select_first(),
        Key::End => app.server_list.select_last(),
        Key::Enter => app.confirm(),
        _ => {},
    }
}

/// Applies a pointer event to the session. `now` is the time of the event in
/// milliseconds on the caller's clock.
pub fn handle_mouse(app: &mut App, mouse: MouseInput, now: u64)
    requires
        old(app).wf(),
    ensures
        final(app).wf(),
        final(app)@ == old(app)@.on_mouse(mouse, now),
{
    match mouse.kind {
        MouseKind::Down => {
            if let Some(selected_index) = app.server_list.get_index_at_y(mouse.row as usize) {
                app.server_list.select(selected_index);
                let same_row = match app.last_click_row {
                    Some(row) => row == selected_index,
                    None => false,
                };
                if let Some(last_click) = app.last_click_time {
                    if same_row && (now < last_click || now - last_click < DOUBLE_CLICK_MS) {
                        app.confirm();
                    }
                }
                app.last_click_time = Some(now);
                app.last_click_row = Some(selected_index);
            }
        },
        MouseKind::ScrollUp => {
            app.server_list.select_previous();
        },
        MouseKind::ScrollDown => {
            app.server_list.select_next();
        },
        MouseKind::Other => {},
    }
}

} // verus!
