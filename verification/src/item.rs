//! One entry of the server list: a group header or a host.

use crate::text::{chars_of, spells};
use crate::width::{display_width, str_width};
use vstd::prelude::*;

verus! {

/// Name of the group that holds every host declared before the first group header.
pub const OTHER_GROUP: &'static str = "other";

/// An entry of the list. A group header carries only its `group` name; a host
/// carries the name of the group it belongs to and its connection data.
#[derive(Debug)]
pub struct ServerItem {
    pub group: String,
    pub is_group: bool,
    pub host: String,
    pub ip: String,
    pub username: String,
    pub port: u32,
    pub private_key: String,
    pub password: Option<String>,
}

/// The mathematical value of a `ServerItem`.
pub ghost struct ItemView {
    pub group: Seq<char>,
    pub is_group: bool,
    pub host: Seq<char>,
    pub ip: Seq<char>,
    pub username: Seq<char>,
    pub port: u32,
    pub private_key: Seq<char>,
    pub password: Option<Seq<char>>,
}

/// The characters of an optional string.
pub open spec fn opt_view(o: Option<String>) -> Option<Seq<char>> {
    match o {
        Some(s) => Some(s@),
        None => None,
    }
}

/// The values of a sequence of entries.
pub open spec fn items_view(items: Seq<ServerItem>) -> Seq<ItemView> {
    Seq::new(items.len(), |i: int| items[i]@)
}

impl View for ServerItem {
    type V = ItemView;

    open spec fn view(&self) -> ItemView {
        ItemView {
            group: self.group@,
            is_group: self.is_group,
            host: self.host@,
            ip: self.ip@,
            username: self.username@,
            port: self.port,
            private_key: self.private_key@,
            password: opt_view(self.password),
        }
    }
}

/// `n` blanks.
pub open spec fn blanks(n: nat) -> Seq<char> {
    Seq::new(n, |i: int| ' ')
}

impl ItemView {
    /// The header entry of the group `name`.
    pub open spec fn header(name: Seq<char>) -> ItemView {
        ItemView {
            group: name,
            is_group: true,
            host: Seq::empty(),
            ip: Seq::empty(),
            username: Seq::empty(),
            port: 0,
            private_key: Seq::empty(),
            password: None,
        }
    }

    /// Whether two entries have the same group, host label and kind. Rows are
    /// traced back to entries by this key.
    pub open spec fn same_key(self, other: ItemView) -> bool {
        self.group == other.group && self.host == other.host && self.is_group == other.is_group
    }

    /// The text that the filter matches a query against.
    pub open spec fn label(self) -> Seq<char> {
        self.host
    }

    /// The row text of the entry, with `padding` blanks between the host label and
    /// the address. A header shows a marker for its expansion state and its name;
    /// a host inside a named group is indented by two blanks.
    pub open spec fn aligned(self, padding: nat, is_expanded: bool) -> Seq<char> {
        if self.is_group {
            seq![if is_expanded { '\u{25BC}' } else { '\u{25B6}' }, ' '] + self.group
        } else if self.group == OTHER_GROUP@ {
            self.host + blanks(padding) + seq![' '] + self.ip
        } else {
            seq![' ', ' '] + self.host + blanks(padding) + seq![' '] + self.ip
        }
    }
}

impl ServerItem {
    /// An entry with the given fields.
    pub fn new(
        group: &str,
        is_group: bool,
        host: &str,
        ip: &str,
        username: &str,
        port: u32,
        private_key: &str,
        password: Option<String>,
    ) -> (item: Self)
        ensures
            item@ == (ItemView {
                group: group@,
                is_group,
                host: host@,
                ip: ip@,
                username: username@,
                port,
                private_key: private_key@,
                password: opt_view(password),
            }),
    {
        Self {
            group: group.to_owned(),
            is_group,
            host: host.to_owned(),
            ip: ip.to_owned(),
            username: username.to_owned(),
            port,
            private_key: private_key.to_owned(),
            password,
        }
    }

    /// The header entry of the group `name`.
    pub fn group_header(name: String) -> (item: Self)
        ensures
            item@ == ItemView::header(name@),
    {
        Self {
            group: name,
            is_group: true,
            host: String::new(),
            ip: String::new(),
            username: String::new(),
            port: 0,
            private_key: String::new(),
            password: None,
        }
    }

    /// The text that the filter matches a query against: the host label.
    pub fn to_string(&self) -> (s: String)
        ensures
            s@ == self@.label(),
    {
        self.host.clone()
    }

    /// The row text of the entry as `to_string_aligned` gives it, if the host label
    /// is at most `max_host_len` columns wide; `None` if it is wider.
    pub fn to_string_fitted(&self, max_host_len: usize, is_expanded: bool) -> (fitted: Option<
        String,
    >)
        ensures
            match fitted {
                Some(s) => display_width(self.host@) <= max_host_len && s@ == self@.aligned(
                    (max_host_len - display_width(self.host@)) as nat,
                    is_expanded,
                ),
                None => display_width(self.host@) > max_host_len,
            },
    {
        if str_width(self.host.as_str()) <= max_host_len {
            Some(self.to_string_aligned(max_host_len, is_expanded))
        } else {
            None
        }
    }

    /// The row text of the entry, with the host label padded with blanks to
    /// `max_host_len` columns.
    pub fn to_string_aligned(&self, max_host_len: usize, is_expanded: bool) -> (s: String)
        requires
            display_width(self.host@) <= max_host_len,
        ensures
            s@ == self@.aligned((max_host_len - display_width(self.host@)) as nat, is_expanded),
    {
        let host_width = str_width(self.host.as_str());
        let padding = max_host_len - host_width;
        let mut s = String::new();
        if self.is_group {
            s.push(if is_expanded { '\u{25BC}' } else { '\u{25B6}' });
            s.push(' ');
            s.append(self.group.as_str());
        } else {
            if !spells(&chars_of(self.group.as_str()), OTHER_GROUP) {
                s.push(' ');
                s.push(' ');
            }
            s.append(self.host.as_str());
            let mut i: usize = 0;
            while i < padding
                invariant
                    i <= padding,
                    s@ == (if self.group@ == OTHER_GROUP@ {
                        Seq::<char>::empty()
                    } else {
                        seq![' ', ' ']
                    }) + self.host@ + blanks(i as nat),
                decreases padding - i,
            {
                s.push(' ');
                proof {
                    assert(blanks((i + 1) as nat) =~= blanks(i as nat).push(' '));
                }
                i += 1;
            }
            s.push(' ');
            s.append(self.ip.as_str());
        }
        s
    }
}

} // verus!
