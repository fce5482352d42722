//! The command that logs in to a host.

use crate::item::{ItemView, ServerItem};
use vstd::prelude::*;
use vstd::utf8::encode_utf8;

verus! {

/// A command to run: the program, its arguments, and the line that announces it.
/// The announcement shows a password as asterisks.
#[derive(Debug)]
pub struct LoginCommand {
    pub program: String,
    pub args: Vec<String>,
    pub display: String,
}

/// The mathematical value of a `LoginCommand`.
pub ghost struct CommandView {
    pub program: Seq<char>,
    pub args: Seq<Seq<char>>,
    pub display: Seq<char>,
}

impl View for LoginCommand {
    type V = CommandView;

    open spec fn view(&self) -> CommandView {
        CommandView {
            program: self.program@,
            args: Seq::new(self.args@.len(), |i: int| self.args@[i]@),
            display: self.display@,
        }
    }
}

/// The decimal digits of `n`, without leading zeros.
pub open spec fn decimal_digits(n: nat) -> Seq<char>
    decreases n,
{
    if n < 10 {
        seq![((n + 0x30) as u8) as char]
    } else {
        decimal_digits(n / 10).push((((n % 10) + 0x30) as u8) as char)
    }
}

/// The length of the text `s` in bytes of UTF-8, as a string reports it.
pub open spec fn byte_len(s: Seq<char>) -> usize {
    encode_utf8(s).len() as usize
}

/// `n` asterisks.
pub open spec fn stars(n: nat) -> Seq<char> {
    Seq::new(n, |i: int| '*')
}

/// The login name and the address of a host, as `ssh` takes them.
pub open spec fn destination(server: ItemView) -> Seq<char> {
    server.username + seq!['@'] + server.ip
}

/// The command that logs in to `server`: `sshpass` around `ssh` where the host has a
/// password, else `ssh` with the identity file of the host.
pub open spec fn login_command_of(server: ItemView) -> CommandView {
    let port = decimal_digits(server.port as nat);
    match server.password {
        Some(password) => CommandView {
            program: "sshpass"@,
            args: seq!["-p"@, password, "ssh"@, destination(server), "-p"@, port],
            display: "sshpass -p '"@ + stars(byte_len(password) as nat) + "' ssh "@ + destination(
                server,
            ) + " -p "@ + port,
        },
        None => CommandView {
            program: "ssh"@,
            args: seq![destination(server), "-p"@, port, "-i"@, server.private_key],
            display: "ssh "@ + destination(server) + " -p "@ + port + " -i "@ + server.private_key,
        },
    }
}

/// The decimal digits of `n`, without leading zeros.
pub fn decimal_string(n: u32) -> (s: String)
    ensures
        s@ == decimal_digits(n as nat),
{
    let mut reversed: Vec<char> = Vec::new();
    let mut rest: u32 = n;
    while rest >= 10
        invariant
            forall|tail: Seq<char>| #[trigger]
                (decimal_digits(rest as nat) + reversed@.reverse() + tail) =~= decimal_digits(
                    n as nat,
                ) + tail,
        decreases rest,
    {
        let digit = ((rest % 10) as u8 + 0x30) as char;
        let ghost before = reversed@;
        let ghost whole = rest;
        reversed.push(digit);
        rest = rest / 10;
        proof {
            assert(decimal_digits(whole as nat) == decimal_digits(rest as nat).push(digit));
            assert(reversed@.reverse() =~= seq![digit] + before.reverse());
            assert forall|tail: Seq<char>| #[trigger]
                (decimal_digits(rest as nat) + reversed@.reverse() + tail) =~= decimal_digits(
                    n as nat,
                ) + tail by {
                assert(decimal_digits(rest as nat) + reversed@.reverse() + tail =~= decimal_digits(
                    whole as nat,
                ) + before.reverse() + tail);
            }
        }
    }
    let mut s = String::new();
    s.push((rest as u8 + 0x30) as char);
    let mut i: usize = reversed.len();
    while i > 0
        invariant
            i <= reversed.len(),
            rest < 10,
            s@ == decimal_digits(rest as nat) + reversed@.reverse().take(reversed.len() - i),
        decreases i,
    {
        i -= 1;
        s.push(reversed[i]);
        proof {
            let r = reversed@.reverse();
            assert(r.take(reversed.len() - i) =~= r.take(reversed.len() - i - 1).push(reversed@[i as int]));
        }
    }
    proof {
        let r = reversed@.reverse();
        assert(r.take(reversed.len() as int) =~= r);
        assert(decimal_digits(rest as nat) + r + Seq::<char>::empty() =~= decimal_digits(
            rest as nat,
        ) + r);
        assert(decimal_digits(n as nat) + Seq::<char>::empty() =~= decimal_digits(n as nat));
    }
    s
}

/// The login name and the address of a host, as `ssh` takes them.
fn destination_of(server: &ServerItem) -> (s: String)
    ensures
        s@ == destination(server@),
{
    let mut s = server.username.clone();
    s.push('@');
    s.append(server.ip.as_str());
    s
}

/// The command that logs in to `server`.
pub fn login_command(server: &ServerItem) -> (command: LoginCommand)
    ensures
        command@ == login_command_of(server@),
{
    let port = decimal_string(server.port);
    let target = destination_of(server);
    let mut args: Vec<String> = Vec::new();
    match &server.password {
        Some(password) => {
            let mut display = "sshpass -p '".to_owned();
            let hidden = password.as_str().len();
            let mut i: usize = 0;
            while i < hidden
                invariant
                    i <= hidden,
                    display@ == "sshpass -p '"@ + stars(i as nat),
                decreases hidden - i,
            {
                display.push('*');
                proof {
                    assert(stars((i + 1) as nat) =~= stars(i as nat).push('*'));
                }
                i += 1;
            }
            display.append("' ssh ");
            display.append(target.as_str());
            display.append(" -p ");
            display.append(port.as_str());
            args.push("-p".to_owned());
            args.push(password.clone());
            args.push("ssh".to_owned());
            args.push(target);
            args.push("-p".to_owned());
            args.push(port);
            let command = LoginCommand { program: "sshpass".to_owned(), args, display };
            proof {
                assert(server@.password == Some(password@));
                assert(command@.args =~= login_command_of(server@).args);
            }
            command
        },
        None => {
            let mut display = "ssh ".to_owned();
            display.append(target.as_str());
            display.append(" -p ");
            display.append(port.as_str());
            display.append(" -i ");
            display.append(server.private_key.as_str());
            args.push(target);
            args.push("-p".to_owned());
            args.push(port);
            args.push("-i".to_owned());
            args.push(server.private_key.clone());
            let command = LoginCommand { program: "ssh".to_owned(), args, display };
            proof {
                assert(server@.password is None);
                assert(command@.args =~= login_command_of(server@).args);
            }
            command
        },
    }
}

} // verus!
