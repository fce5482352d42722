//! The state of the interactive session around the server list.

use crate::item::{ItemView, ServerItem};
use crate::model::ListModel;
use crate::parser::entries_of;
use crate::server::{filtered_by, opt_item_view, ServerList};
use vstd::prelude::*;

verus! {

/// The state of the session: the server list, the search in progress, and what
/// the user has decided.
#[derive(Debug)]
pub struct App {
    pub should_exit: bool,
    pub has_selected: bool,
    pub search_query: String,
    pub is_searching: bool,
    pub server_list: ServerList,
    /// Time of the last pointer press on a row, in milliseconds on the caller's
    /// clock.
    pub last_click_time: Option<u64>,
    /// The row of the last pointer press on a row.
    pub last_click_row: Option<usize>,
}

/// The mathematical value of an `App`.
pub ghost struct AppModel {
    pub should_exit: bool,
    pub has_selected: bool,
    pub query: Seq<char>,
    pub is_searching: bool,
    pub list: ListModel,
    pub last_click: Option<u64>,
    pub last_click_row: Option<usize>,
}

impl AppModel {
    /// The state at the start of a session over `list`.
    pub open spec fn start(list: ListModel) -> AppModel {
        AppModel {
            should_exit: false,
            has_selected: false,
            query: Seq::empty(),
            is_searching: false,
            list,
            last_click: None,
            last_click_row: None,
        }
    }

    /// The state after the list was filtered with the query.
    pub open spec fn update_search(self) -> AppModel {
        AppModel { list: filtered_by(self.list, self.query), ..self }
    }

    /// The state after the user confirmed the selected row: a header is toggled,
    /// a host ends the session as the choice of the user. With no row selected
    /// nothing happens.
    pub open spec fn confirm(self) -> AppModel {
        match self.list.selected_entry() {
            Some(entry) => if entry.is_group {
                AppModel { list: self.list.toggle_group(), ..self }
            } else {
                AppModel { should_exit: true, has_selected: true, ..self }
            },
            None => self,
        }
    }

    /// The host to log in to when the session has ended: the entry of the selected
    /// row, if the user chose one and it is a host.
    pub open spec fn login_target(self) -> Option<ItemView> {
        match self.list.selected_entry() {
            Some(entry) => if self.has_selected && !entry.is_group {
                Some(entry)
            } else {
                None
            },
            None => None,
        }
    }
}

impl View for App {
    type V = AppModel;

    open spec fn view(&self) -> AppModel {
        AppModel {
            should_exit: self.should_exit,
            has_selected: self.has_selected,
            query: self.search_query@,
            is_searching: self.is_searching,
            list: self.server_list@,
            last_click: self.last_click_time,
            last_click_row: self.last_click_row,
        }
    }
}

impl App {
    /// The invariant of a session: its server list is well-formed.
    pub open spec fn wf(&self) -> bool {
        self.server_list.wf()
    }

    /// A session over the entries that the configuration text `content` declares.
    pub fn new(content: &str) -> (app: Self)
        ensures
            app.wf(),
            app@ == AppModel::start(ListModel::load(entries_of(content@))),
    {
        Self::with_list(ServerList::from_ssh_config(content))
    }

    /// A session over the list `server_list`.
    pub fn with_list(server_list: ServerList) -> (app: Self)
        requires
            server_list.wf(),
        ensures
            app.wf(),
            app@ == AppModel::start(server_list@),
    {
        Self {
            should_exit: false,
            has_selected: false,
            search_query: String::new(),
            is_searching: false,
            server_list,
            last_click_time: None,
            last_click_row: None,
        }
    }

    /// Filters the list with the search query.
    pub fn update_search(&mut self)
        requires
            old(self).wf(),
        ensures
            final(self).wf(),
            final(self)@ == old(self)@.update_search(),
    {
        self.server_list.filter_items(self.search_query.as_str());
    }

    /// Acts on the selected row as the user confirmed it: toggles a header, or
    /// ends the session with a host as the choice.
    pub fn confirm(&mut self)
        requires
            old(self).wf(),
        ensures
            final(self).wf(),
            final(self)@ == old(self)@.confirm(),
    {
        let is_group = match self.server_list.selected() {
            Some(server) => Some(server.is_group),
            None => None,
        };
        match is_group {
            Some(true) => {
                self.server_list.toggle_group();
            },
            Some(false) => {
                self.should_exit = true;
                self.has_selected = true;
            },
            None => {},
        }
    }

    /// The host to log in to when the session has ended, if the user chose one. A
    /// group header is never returned.
    pub fn login_target(&self) -> (target: Option<&ServerItem>)
        requires
            self.wf(),
        ensures
            opt_item_view(target) == self@.login_target(),
            target matches Some(server) ==> !server.is_group,
    {
        if !self.has_selected {
            return None;
        }
        match self.server_list.selected() {
            Some(server) => if server.is_group {
                None
            } else {
                Some(server)
            },
            None => None,
        }
    }
}

} // verus!
