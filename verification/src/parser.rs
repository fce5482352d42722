//! The line-oriented parser of SSH client configuration text.
//!
//! Besides the directives `Host`, `HostName`, `User`, `Port` and `IdentityFile`
//! the parser reads two comment directives: `#: Group <name>` opens a group, and
//! `#: Password <text>` gives the host that is being read a password.

use crate::item::{items_view, opt_view, ItemView, ServerItem, OTHER_GROUP};
use crate::text::{
    chars_of, decimal_u32, find_line_end, join_from, join_words, line_len, parse_u32, spells,
    split_words, starts_with, string_of, subvec, trim, trimmed, word_views, words,
};
use vstd::prelude::*;

verus! {

/// Comment prefix that opens a group.
pub const GROUP_TAG: &'static str = "#: Group";

/// Comment prefix that gives the host being read a password.
pub const PASSWORD_TAG: &'static str = "#: Password";

/// Address and identity file of a host that declares none.
pub const UNKNOWN: &'static str = "unknown";

/// Login name of a host that declares none, unless the parser was made with
/// another.
pub const DEFAULT_USER: &'static str = "root";

/// Port of a host that declares none, or none that can be used.
pub const DEFAULT_PORT: u32 = 22;

/// The port that the text of a `Port` directive stands for: its value where it is
/// a positive decimal number that fits 32 bits, else the default port.
pub open spec fn port_of(s: Seq<char>) -> u32 {
    match decimal_u32(s) {
        Some(p) => if p > 0 { p } else { DEFAULT_PORT },
        None => DEFAULT_PORT,
    }
}

/// The state of the parser between two lines: the login name for hosts that
/// declare none, the group in force, the host that is being read with the
/// attributes seen for it, and the entries finished so far.
pub ghost struct ParserModel {
    pub default_user: Seq<char>,
    pub group: Option<Seq<char>>,
    pub host: Option<Seq<char>>,
    pub ip: Option<Seq<char>>,
    pub user: Option<Seq<char>>,
    pub port: u32,
    pub private_key: Option<Seq<char>>,
    pub password: Option<Seq<char>>,
    pub items: Seq<ItemView>,
}

/// `o`'s content, or `default` where it has none.
pub open spec fn or_default(o: Option<Seq<char>>, default: Seq<char>) -> Seq<char> {
    match o {
        Some(s) => s,
        None => default,
    }
}

impl ParserModel {
    /// The state before the first line, with `default_user` as the login name of
    /// hosts that declare none.
    pub open spec fn initial(default_user: Seq<char>) -> ParserModel {
        ParserModel {
            default_user,
            group: None,
            host: None,
            ip: None,
            user: None,
            port: DEFAULT_PORT,
            private_key: None,
            password: None,
            items: Seq::empty(),
        }
    }

    /// The entry that the host `host` becomes with the attributes seen so far.
    pub open spec fn pending_entry(self, host: Seq<char>) -> ItemView {
        ItemView {
            group: or_default(self.group, OTHER_GROUP@),
            is_group: false,
            host,
            ip: or_default(self.ip, UNKNOWN@),
            username: or_default(self.user, self.default_user),
            port: self.port,
            private_key: or_default(self.private_key, UNKNOWN@),
            password: self.password,
        }
    }

    /// Moves the host that is being read, if there is one, to the entries, and
    /// forgets its password.
    pub open spec fn flush(self) -> ParserModel {
        match self.host {
            Some(host) => ParserModel {
                host: None,
                password: None,
                items: self.items.push(self.pending_entry(host)),
                ..self
            },
            None => self,
        }
    }

    /// Forgets the attributes seen so far.
    pub open spec fn reset_values(self) -> ParserModel {
        ParserModel {
            ip: None,
            user: None,
            port: DEFAULT_PORT,
            private_key: None,
            password: None,
            ..self
        }
    }

    /// The state after a group directive that names `name`.
    pub open spec fn open_group(self, name: Seq<char>) -> ParserModel {
        let flushed = self.flush();
        ParserModel {
            group: Some(name),
            items: flushed.items.push(ItemView::header(name)),
            ..flushed
        }
    }

    /// The state after a directive made of the words `parts`.
    pub open spec fn directive(self, parts: Seq<Seq<char>>) -> ParserModel {
        if parts.len() < 2 {
            self
        } else if parts[0] == "Host"@ {
            let flushed = self.flush();
            if parts[1] == "*"@ {
                flushed
            } else {
                (ParserModel { host: Some(join_words(parts.skip(1))), ..flushed }).reset_values()
            }
        } else if parts[0] == "HostName"@ {
            ParserModel { ip: Some(parts[1]), ..self }
        } else if parts[0] == "User"@ {
            ParserModel { user: Some(parts[1]), ..self }
        } else if parts[0] == "Port"@ {
            ParserModel { port: port_of(parts[1]), ..self }
        } else if parts[0] == "IdentityFile"@ {
            ParserModel { private_key: Some(parts[1]), ..self }
        } else {
            self
        }
    }

    /// The state after the line `line`.
    pub open spec fn parse_line(self, line: Seq<char>) -> ParserModel {
        let t = trim(line);
        if GROUP_TAG@.is_prefix_of(t) {
            self.open_group(trim(t.skip(GROUP_TAG@.len() as int)))
        } else if PASSWORD_TAG@.is_prefix_of(t) {
            ParserModel { password: Some(trim(t.skip(PASSWORD_TAG@.len() as int))), ..self }
        } else {
            self.directive(words(t))
        }
    }

    /// The state after the lines of `text`, which line feeds separate.
    pub open spec fn feed(self, text: Seq<char>) -> ParserModel
        decreases text.len(),
    {
        let n = line_len(text);
        let next = self.parse_line(text.take(n as int));
        if n < text.len() {
            next.feed(text.skip(n as int + 1))
        } else {
            next
        }
    }
}

/// The entries that the configuration text `text` declares, in the order of their
/// declaration, with `default_user` as the login name of hosts that declare none.
pub open spec fn entries_with(text: Seq<char>, default_user: Seq<char>) -> Seq<ItemView> {
    ParserModel::initial(default_user).feed(text).flush().items
}

/// The entries that the configuration text `text` declares, in the order of their
/// declaration.
pub open spec fn entries_of(text: Seq<char>) -> Seq<ItemView> {
    entries_with(text, DEFAULT_USER@)
}

/// A parser of configuration text, fed line by line. Its value is the state that
/// `ParserModel` describes.
pub struct SshConfigParser {
    default_user: String,
    current_group: Option<String>,
    current_host: Option<String>,
    current_ip: Option<String>,
    current_user: Option<String>,
    current_port: u32,
    current_private_key: Option<String>,
    current_password: Option<String>,
    items: Vec<ServerItem>,
}

impl View for SshConfigParser {
    type V = ParserModel;

    closed spec fn view(&self) -> ParserModel {
        ParserModel {
            default_user: self.default_user@,
            group: opt_view(self.current_group),
            host: opt_view(self.current_host),
            ip: opt_view(self.current_ip),
            user: opt_view(self.current_user),
            port: self.current_port,
            private_key: opt_view(self.current_private_key),
            password: opt_view(self.current_password),
            items: items_view(self.items@),
        }
    }
}

/// The text of `o`, or `default` where it has none.
fn str_or<'a>(o: &'a Option<String>, default: &'a str) -> (s: &'a str)
    ensures
        s@ == or_default(opt_view(*o), default@),
{
    match o {
        Some(s) => s.as_str(),
        None => default,
    }
}

impl SshConfigParser {
    /// A parser before its first line.
    pub fn new() -> (parser: Self)
        ensures
            parser@ == ParserModel::initial(DEFAULT_USER@),
    {
        Self::with_default_user(DEFAULT_USER)
    }

    /// A parser that gives hosts without a login name the name `user`.
    pub fn with_default_user(user: &str) -> (parser: Self)
        ensures
            parser@ == ParserModel::initial(user@),
    {
        let parser = Self {
            default_user: user.to_owned(),
            current_group: None,
            current_host: None,
            current_ip: None,
            current_user: None,
            current_port: DEFAULT_PORT,
            current_private_key: None,
            current_password: None,
            items: Vec::new(),
        };
        proof {
            assert(items_view(parser.items@) =~= Seq::empty());
        }
        parser
    }

    /// Reads one line of configuration text.
    pub fn parse_line(&mut self, line: &str)
        ensures
            final(self)@ == old(self)@.parse_line(line@),
    {
        let chars = chars_of(line);
        self.parse_chars(&chars);
    }

    /// Reads one line, given as its characters.
    pub fn parse_chars(&mut self, line: &Vec<char>)
        ensures
            final(self)@ == old(self)@.parse_line(line@),
    {
        let t = trimmed(line);
        let group_tag = chars_of(GROUP_TAG);
        if starts_with(&t, &group_tag) {
            self.flush_current_host();
            let name = string_of(&trimmed(&subvec(&t, group_tag.len(), t.len())));
            let ghost before = self.items@;
            self.items.push(ServerItem::group_header(name.clone()));
            self.current_group = Some(name);
            proof {
                assert(items_view(self.items@) =~= items_view(before).push(
                    ItemView::header(name@),
                ));
            }
            return ;
        }
        let password_tag = chars_of(PASSWORD_TAG);
        if starts_with(&t, &password_tag) {
            let password = string_of(&trimmed(&subvec(&t, password_tag.len(), t.len())));
            self.current_password = Some(password);
            return ;
        }
        let parts = split_words(&t);
        if parts.len() < 2 {
            return ;
        }
        proof {
            assert(word_views(parts@)[0] == parts@[0]@);
            assert(word_views(parts@)[1] == parts@[1]@);
        }
        let key = &parts[0];
        if spells(key, "Host") {
            self.flush_current_host();
            if !spells(&parts[1], "*") {
                let host_name = string_of(&join_from(&parts, 1));
                self.current_host = Some(host_name);
                self.reset_current_values();
            }
        } else if spells(key, "HostName") {
            self.current_ip = Some(string_of(&parts[1]));
        } else if spells(key, "User") {
            self.current_user = Some(string_of(&parts[1]));
        } else if spells(key, "Port") {
            self.current_port = match parse_u32(&parts[1]) {
                Some(p) => if p > 0 { p } else { DEFAULT_PORT },
                None => DEFAULT_PORT,
            };
        } else if spells(key, "IdentityFile") {
            self.current_private_key = Some(string_of(&parts[1]));
        }
    }

    /// Moves the host that is being read, if there is one, to the entries.
    pub fn flush_current_host(&mut self)
        ensures
            final(self)@ == old(self)@.flush(),
    {
        let pending = self.current_host.take();
        if let Some(host) = pending {
            let password = self.current_password.take();
            let item = ServerItem::new(
                str_or(&self.current_group, OTHER_GROUP),
                false,
                host.as_str(),
                str_or(&self.current_ip, UNKNOWN),
                str_or(&self.current_user, self.default_user.as_str()),
                self.current_port,
                str_or(&self.current_private_key, UNKNOWN),
                password,
            );
            let ghost before = self.items@;
            self.items.push(item);
            proof {
                assert(items_view(self.items@) =~= items_view(before).push(item@));
            }
        }
    }

    /// Forgets the attributes seen so far.
    pub fn reset_current_values(&mut self)
        ensures
            final(self)@ == old(self)@.reset_values(),
    {
        self.current_ip = None;
        self.current_user = None;
        self.current_port = DEFAULT_PORT;
        self.current_private_key = None;
        self.current_password = None;
    }

    /// The entries finished so far.
    pub fn into_items(self) -> (items: Vec<ServerItem>)
        ensures
            items_view(items@) == self@.items,
    {
        self.items
    }
}

/// Reads a whole configuration text and returns the entries it declares.
pub fn parse_config(content: &str) -> (items: Vec<ServerItem>)
    ensures
        items_view(items@) == entries_of(content@),
{
    parse_config_with(content, DEFAULT_USER)
}

/// Reads a whole configuration text and returns the entries it declares, with
/// `default_user` as the login name of hosts that declare none.
pub fn parse_config_with(content: &str, default_user: &str) -> (items: Vec<ServerItem>)
    ensures
        items_view(items@) == entries_with(content@, default_user@),
{
    let chars = chars_of(content);
    let n = chars.len();
    let mut parser = SshConfigParser::with_default_user(default_user);
    let mut p: usize = 0;
    let mut done = false;
    proof {
        assert(chars@.skip(0) =~= chars@);
    }
    while !done
        invariant
            n == chars.len(),
            chars@ == content@,
            p <= n,
            !done ==> parser@.feed(chars@.skip(p as int)) == ParserModel::initial(
                default_user@,
            ).feed(chars@),
            done ==> p == n && parser@ == ParserModel::initial(default_user@).feed(chars@),
        decreases n - p + (if done { 0int } else { 1int }),
    {
        let ghost rest = chars@.skip(p as int);
        let end = find_line_end(&chars, p);
        let line = subvec(&chars, p, end);
        proof {
            assert(rest.take(end - p) =~= line@);
        }
        parser.parse_chars(&line);
        if end < n {
            proof {
                assert(rest.skip(end - p + 1) =~= chars@.skip(end + 1));
            }
            p = end + 1;
        } else {
            p = n;
            done = true;
        }
    }
    parser.flush_current_host();
    parser.into_items()
}

} // verus!
