//! The text that the screen shows: the rows of the list and the footer line.

use crate::app::{App, AppModel};
use crate::server::{row_texts, string_views};
use vstd::prelude::*;

verus! {

/// What stands before the query in the footer while a search is in progress.
pub const SEARCH_PREFIX: &'static str = "Search: ";

/// What stands after the query in the footer while a search is in progress.
pub const SEARCH_HINT: &'static str = " (Press Esc to cancel, Ctrl+j/k or ↑/↓ to navigate)";

/// The footer while no search is in progress.
pub const KEY_HELP: &'static str =
    "j/↓: down | k/↑: up | g/Home: top | G/End: bottom | / or f: search | Enter: login";

impl AppModel {
    /// The footer line: the query with a hint while a search is in progress, else
    /// the keys that the session understands.
    pub open spec fn footer(self) -> Seq<char> {
        if self.is_searching {
            SEARCH_PREFIX@ + self.query + SEARCH_HINT@
        } else {
            KEY_HELP@
        }
    }
}

/// The footer line of the session.
pub fn footer_text(app: &App) -> (text: String)
    ensures
        text@ == app@.footer(),
{
    if app.is_searching {
        let mut text = SEARCH_PREFIX.to_owned();
        text.append(app.search_query.as_str());
        text.append(SEARCH_HINT);
        text
    } else {
        KEY_HELP.to_owned()
    }
}

/// The text of each visible row of the list of the session, from top to bottom.
pub fn row_labels(app: &App) -> (labels: Vec<String>)
    requires
        app.wf(),
    ensures
        string_views(labels@) == row_texts(app@.list),
{
    app.server_list.visible_labels()
}

} // verus!
