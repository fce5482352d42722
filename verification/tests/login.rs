use ssh_hosts::item::ServerItem;
use ssh_hosts::ssh_login::login_command;

#[test]
fn key_login_uses_ssh() {
    let server = ServerItem::new("prod", false, "web", "10.0.0.1", "deploy", 2222, "~/.ssh/id", None);
    let command = login_command(&server);
    assert_eq!(command.program, "ssh");
    assert_eq!(command.args, vec!["deploy@10.0.0.1", "-p", "2222", "-i", "~/.ssh/id"]);
    assert_eq!(command.display, "ssh deploy@10.0.0.1 -p 2222 -i ~/.ssh/id");
}

#[test]
fn password_login_uses_sshpass_and_hides_the_password() {
    let server = ServerItem::new(
        "other",
        false,
        "db",
        "db.example",
        "root",
        22,
        "unknown",
        Some("pä55".to_string()),
    );
    let command = login_command(&server);
    assert_eq!(command.program, "sshpass");
    assert_eq!(command.args, vec!["-p", "pä55", "ssh", "root@db.example", "-p", "22"]);
    assert_eq!(command.display, "sshpass -p '*****' ssh root@db.example -p 22");
}

#[test]
fn empty_password_is_still_a_password() {
    let server = ServerItem::new("other", false, "db", "h", "u", 1, "k", Some(String::new()));
    let command = login_command(&server);
    assert_eq!(command.program, "sshpass");
    assert_eq!(command.display, "sshpass -p '' ssh u@h -p 1");
}
