use ssh_hosts::item::ServerItem;
use ssh_hosts::parser::{parse_config, parse_config_with, SshConfigParser};
use ssh_hosts::server::ServerList;

fn host_labels(items: &[ServerItem]) -> Vec<String> {
    items.iter().map(|item| item.host.clone()).collect()
}

#[test]
fn test() {
    let list = ServerList::from_ssh_config("#: Group prod\nHost web\n  HostName 10.0.0.1\n");
    let mut items = Vec::new();
    for item in list.items() {
        let mut entry = serde_json::Map::new();
        entry.insert("group".to_string(), serde_json::Value::from(item.group.clone()));
        entry.insert("is_group".to_string(), serde_json::Value::from(item.is_group));
        entry.insert("host".to_string(), serde_json::Value::from(item.host.clone()));
        entry.insert("ip".to_string(), serde_json::Value::from(item.ip.clone()));
        entry.insert("username".to_string(), serde_json::Value::from(item.username.clone()));
        entry.insert("port".to_string(), serde_json::Value::from(item.port));
        entry.insert("private_key".to_string(), serde_json::Value::from(item.private_key.clone()));
        entry.insert("password".to_string(), serde_json::Value::from(item.password.clone()));
        items.push(serde_json::Value::Object(entry));
    }
    let mut root = serde_json::Map::new();
    root.insert("items".to_string(), serde_json::Value::Array(items));
    root.insert(
        "filtered_items".to_string(),
        serde_json::Value::from(list.filtered_items().clone()),
    );
    println!("{}", serde_json::to_string(&serde_json::Value::Object(root)).unwrap());
}

#[test]
fn empty_text_has_no_entries() {
    assert!(parse_config("").is_empty());
    assert!(parse_config("\n\n   \n").is_empty());
}

#[test]
fn host_without_attributes_gets_defaults() {
    let items = parse_config("Host a");
    assert_eq!(items.len(), 1);
    let a = &items[0];
    assert_eq!(a.group, "other");
    assert!(!a.is_group);
    assert_eq!(a.host, "a");
    assert_eq!(a.ip, "unknown");
    assert_eq!(a.username, "root");
    assert_eq!(a.port, 22);
    assert_eq!(a.private_key, "unknown");
    assert_eq!(a.password, None);
}

#[test]
fn default_login_name_can_be_configured() {
    let items = parse_config_with("Host a\nHost b\nUser bob\n", "alice");
    assert_eq!(items[0].username, "alice");
    assert_eq!(items[1].username, "bob");
    let mut parser = SshConfigParser::with_default_user("carol");
    parser.parse_line("Host c");
    parser.flush_current_host();
    assert_eq!(parser.into_items()[0].username, "carol");
}

#[test]
fn host_with_every_attribute() {
    let text = "Host web\n    HostName 10.1.2.3\n    User deploy\n    Port 2222\n    IdentityFile ~/.ssh/id_ed25519\n    #: Password s3cret\n";
    let items = parse_config(text);
    assert_eq!(items.len(), 1);
    let web = &items[0];
    assert_eq!(web.host, "web");
    assert_eq!(web.ip, "10.1.2.3");
    assert_eq!(web.username, "deploy");
    assert_eq!(web.port, 2222);
    assert_eq!(web.private_key, "~/.ssh/id_ed25519");
    assert_eq!(web.password, Some("s3cret".to_string()));
}

#[test]
fn last_host_is_flushed_at_end_of_text() {
    let items = parse_config("Host a\nHostName 10.0.0.1\nHost b\nHostName 10.0.0.2");
    assert_eq!(host_labels(&items), vec!["a", "b"]);
    assert_eq!(items[1].ip, "10.0.0.2");
}

#[test]
fn wildcard_host_is_never_an_entry() {
    let items = parse_config("Host *\n  User root\n  Port 2200\nHost a\n");
    assert_eq!(host_labels(&items), vec!["a"]);
    assert_eq!(items[0].username, "root");
    assert_eq!(items[0].port, 22);
}

#[test]
fn wildcard_host_flushes_the_host_before_it() {
    let items = parse_config("Host a\n  User alice\nHost *\n  User root\n");
    assert_eq!(items.len(), 1);
    assert_eq!(items[0].host, "a");
    assert_eq!(items[0].username, "alice");
}

#[test]
fn wildcard_with_more_patterns_is_still_a_wildcard() {
    assert!(parse_config("Host * other\n").is_empty());
    let items = parse_config("Host other *\n");
    assert_eq!(host_labels(&items), vec!["other *"]);
}

#[test]
fn host_patterns_are_joined_by_one_blank() {
    let items = parse_config("Host   a    b\tc  \n");
    assert_eq!(host_labels(&items), vec!["a b c"]);
}

#[test]
fn group_header_opens_a_group() {
    let items = parse_config("Host lone\n#: Group prod\nHost web\nHost db\n#: Group   staging  \nHost st\n");
    assert_eq!(items.len(), 6);
    assert_eq!(items[0].host, "lone");
    assert_eq!(items[0].group, "other");
    assert!(items[1].is_group);
    assert_eq!(items[1].group, "prod");
    assert_eq!(items[1].host, "");
    assert_eq!(items[1].ip, "");
    assert_eq!(items[1].username, "");
    assert_eq!(items[1].port, 0);
    assert_eq!(items[1].private_key, "");
    assert_eq!(items[1].password, None);
    assert_eq!(items[2].group, "prod");
    assert_eq!(items[3].group, "prod");
    assert!(items[4].is_group);
    assert_eq!(items[4].group, "staging");
    assert_eq!(items[5].group, "staging");
    assert!(!items[5].is_group);
}

#[test]
fn group_header_flushes_the_host_before_it() {
    let items = parse_config("Host a\n  HostName 1.1.1.1\n#: Group g\n");
    assert_eq!(items.len(), 2);
    assert_eq!(items[0].host, "a");
    assert_eq!(items[0].ip, "1.1.1.1");
    assert_eq!(items[0].group, "other");
    assert!(items[1].is_group);
}

#[test]
fn group_tag_is_a_prefix() {
    let items = parse_config("#: Groupies\n#: Group\n");
    assert_eq!(items.len(), 2);
    assert_eq!(items[0].group, "ies");
    assert_eq!(items[1].group, "");
}

#[test]
fn password_belongs_to_the_host_being_read() {
    let items = parse_config("#: Password early\nHost a\nHost b\n#: Password   pw b  \nHost c\n");
    assert_eq!(items.len(), 3);
    assert_eq!(items[0].password, None);
    assert_eq!(items[1].password, Some("pw b".to_string()));
    assert_eq!(items[2].password, None);
}

#[test]
fn malformed_port_falls_back_to_default() {
    for bad in ["abc", "22x", "-1", "", "+", "4294967296", "99999999999999999999", "2 2x", "٢٢", "0"] {
        let text = format!("Host a\nPort {}\n", bad);
        let items = parse_config(&text);
        assert_eq!(items.len(), 1);
        if bad == "2 2x" {
            assert_eq!(items[0].port, 2);
        } else {
            assert_eq!(items[0].port, 22, "port text {:?}", bad);
        }
    }
}

#[test]
fn well_formed_port_is_read() {
    for (text, port) in [("1", 1u32), ("+8022", 8022), ("0022", 22), ("65535", 65535), ("4294967295", 4294967295)] {
        let items = parse_config(&format!("Host a\nPort {}\n", text));
        assert_eq!(items[0].port, port);
    }
}

#[test]
fn unknown_directives_and_short_lines_are_ignored() {
    let items = parse_config("Host a\nForwardAgent yes\nHostName\nUser\n# a comment\nhost b\nHOSTNAME x\n");
    assert_eq!(items.len(), 1);
    assert_eq!(items[0].host, "a");
    assert_eq!(items[0].ip, "unknown");
    assert_eq!(items[0].username, "root");
}

#[test]
fn host_line_without_a_name_is_ignored() {
    let items = parse_config("Host a\nHost\nHostName 1.2.3.4\n");
    assert_eq!(items.len(), 1);
    assert_eq!(items[0].ip, "1.2.3.4");
}

#[test]
fn attribute_takes_its_first_value_word() {
    let items = parse_config("Host a\nHostName 1.1.1.1 2.2.2.2\nUser u v\nIdentityFile k l\n");
    assert_eq!(items[0].ip, "1.1.1.1");
    assert_eq!(items[0].username, "u");
    assert_eq!(items[0].private_key, "k");
}

#[test]
fn later_attribute_replaces_earlier() {
    let items = parse_config("Host a\nUser u\nUser v\nPort 1\nPort 2\n");
    assert_eq!(items[0].username, "v");
    assert_eq!(items[0].port, 2);
}

#[test]
fn attributes_do_not_leak_into_the_next_host() {
    let items = parse_config("Host a\nUser u\nPort 2200\nIdentityFile k\nHostName h\nHost b\n");
    assert_eq!(items[1].username, "root");
    assert_eq!(items[1].port, 22);
    assert_eq!(items[1].private_key, "unknown");
    assert_eq!(items[1].ip, "unknown");
}

#[test]
fn carriage_returns_and_unicode_blanks_are_trimmed() {
    let items = parse_config("Host a\r\n\u{3000}HostName\u{a0}1.2.3.4\u{2003}\r\n");
    assert_eq!(items.len(), 1);
    assert_eq!(items[0].host, "a");
    assert_eq!(items[0].ip, "1.2.3.4");
}

#[test]
fn parser_steps_can_be_driven_by_hand() {
    let mut parser = SshConfigParser::new();
    parser.parse_line("  Host a ");
    parser.parse_line("User me");
    parser.flush_current_host();
    parser.flush_current_host();
    parser.parse_line("Port 1234");
    parser.parse_line("Host b");
    parser.reset_current_values();
    parser.flush_current_host();
    let items = parser.into_items();
    assert_eq!(items.len(), 2);
    assert_eq!(items[0].username, "me");
    assert_eq!(items[1].host, "b");
    assert_eq!(items[1].port, 22);
}

#[test]
fn reset_forgets_the_attributes_but_not_the_host() {
    let mut parser = SshConfigParser::new();
    parser.parse_line("Host a");
    parser.parse_line("User me");
    parser.parse_line("Port 99");
    parser.parse_line("#: Password pw");
    parser.reset_current_values();
    parser.flush_current_host();
    let items = parser.into_items();
    assert_eq!(items.len(), 1);
    assert_eq!(items[0].host, "a");
    assert_eq!(items[0].username, "root");
    assert_eq!(items[0].port, 22);
    assert_eq!(items[0].password, None);
}

#[test]
fn every_parsed_host_has_a_positive_port_and_its_group() {
    let text = "Host x\nPort 0\n#: Group g1\nHost a\nPort 7\nHost *\nPort 5\n#: Group g2\nHost b\nPort -3\nHost c\n";
    let items = parse_config(text);
    let mut group = "other".to_string();
    for item in &items {
        if item.is_group {
            group = item.group.clone();
        } else {
            assert!(item.port >= 1);
            assert_ne!(item.host, "*");
            assert_eq!(item.group, group);
        }
    }
    assert_eq!(host_labels(&items), vec!["x", "", "a", "", "b", "c"]);
}

#[test]
fn item_constructor_keeps_its_arguments() {
    let item = ServerItem::new("g", false, "h", "1.2.3.4", "u", 2022, "key", Some("pw".to_string()));
    assert_eq!(item.group, "g");
    assert!(!item.is_group);
    assert_eq!(item.host, "h");
    assert_eq!(item.ip, "1.2.3.4");
    assert_eq!(item.username, "u");
    assert_eq!(item.port, 2022);
    assert_eq!(item.private_key, "key");
    assert_eq!(item.password, Some("pw".to_string()));
    assert_eq!(item.to_string(), "h");
}
