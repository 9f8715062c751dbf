//! The one-byte control protocol between the client and the daemon, and
//! where its socket lives.

use vstd::prelude::*;

use crate::text::{chars_of, decimal, decimal_string, join, join_path, string_of_all};

verus! {

pub const CMD_SHOW: u8 = 0x01;
pub const CMD_HIDE: u8 = 0x02;
pub const CMD_RELOAD: u8 = 0x03;
pub const CMD_KILL: u8 = 0x04;

pub const RESP_OK: u8 = 0x00;
pub const RESP_ERR: u8 = 0x01;

/// A request from the client to the daemon.
#[derive(Debug, Clone, Copy, PartialEq, Eq, Structural)]
pub enum Command {
    Show,
    Hide,
    Reload,
    Kill,
}

/// The byte that carries `c`.
pub open spec fn byte_of(c: Command) -> u8 {
    match c {
        Command::Show => CMD_SHOW,
        Command::Hide => CMD_HIDE,
        Command::Reload => CMD_RELOAD,
        Command::Kill => CMD_KILL,
    }
}

/// Whether the daemon's answer byte reports success.
pub open spec fn reply_ok_spec(b: u8) -> bool {
    b == RESP_OK
}

/// Whether the daemon's answer byte reports success, as the client reads it.
pub fn reply_ok(b: u8) -> (r: bool)
    ensures
        r == reply_ok_spec(b),
{
    b == RESP_OK
}

/// The command a byte carries, if any.
pub open spec fn command_of(b: u8) -> Option<Command> {
    if b == CMD_SHOW {
        Some(Command::Show)
    } else if b == CMD_HIDE {
        Some(Command::Hide)
    } else if b == CMD_RELOAD {
        Some(Command::Reload)
    } else if b == CMD_KILL {
        Some(Command::Kill)
    } else {
        None
    }
}

impl Command {
    pub fn to_byte(self) -> (r: u8)
        ensures
            r == byte_of(self),
    {
        match self {
            Command::Show => CMD_SHOW,
            Command::Hide => CMD_HIDE,
            Command::Reload => CMD_RELOAD,
            Command::Kill => CMD_KILL,
        }
    }

    pub fn from_byte(b: u8) -> (r: Option<Self>)
        ensures
            r == command_of(b),
    {
        if b == CMD_SHOW {
            Some(Command::Show)
        } else if b == CMD_HIDE {
            Some(Command::Hide)
        } else if b == CMD_RELOAD {
            Some(Command::Reload)
        } else if b == CMD_KILL {
            Some(Command::Kill)
        } else {
            None
        }
    }
}

/// Decoding the byte of a command gives the command back.
pub proof fn lemma_command_byte_roundtrip(c: Command)
    ensures
        command_of(byte_of(c)) == Some(c),
{
}

/// Different commands travel as different bytes.
pub proof fn lemma_command_bytes_distinct(a: Command, b: Command)
    requires
        a != b,
    ensures
        byte_of(a) != byte_of(b),
{
}

/// A byte that decodes to a command is that command's byte; every other
/// byte decodes to nothing.
pub proof fn lemma_decoded_byte_is_the_command_byte(b: u8)
    ensures
        match command_of(b) {
            Some(c) => byte_of(c) == b,
            None => forall|c: Command| byte_of(c) != b,
        },
{
}

/// The daemon's runtime directory: `XDG_RUNTIME_DIR` when set, otherwise
/// `/run/user/<uid>`.
pub open spec fn runtime_dir_of(xdg_runtime_dir: Option<Seq<char>>, uid: u32) -> Seq<char> {
    match xdg_runtime_dir {
        Some(d) => d,
        None => "/run/user/"@ + decimal(uid as nat),
    }
}

/// The runtime directory, from the value of `XDG_RUNTIME_DIR` (`None` when
/// unset) and the user id.
pub fn runtime_dir(xdg_runtime_dir: Option<&str>, uid: u32) -> (r: String)
    ensures
        r@ == runtime_dir_of(crate::plugins::opt_str(xdg_runtime_dir), uid),
{
    match xdg_runtime_dir {
        Some(d) => String::from_str(d),
        None => {
            let mut s = String::from_str("/run/user/");
            s.append(string_of_all(&decimal_string(uid)).as_str());
            s
        },
    }
}

/// The daemon's socket, `slaunch.sock` in the runtime directory.
pub fn socket_path(runtime_dir: &str) -> (r: String)
    ensures
        r@ == join_path(runtime_dir@, "slaunch.sock"@),
{
    string_of_all(&join(&chars_of(runtime_dir), &chars_of("slaunch.sock")))
}

/// The daemon's single-instance lock, `slaunch.lock` beside the socket.
/// Separate from the socket because the socket file's existence says nothing
/// about whether a daemon is live, whereas an flock is released on exit.
pub fn lock_path(runtime_dir: &str) -> (r: String)
    ensures
        r@ == join_path(runtime_dir@, "slaunch.lock"@),
{
    string_of_all(&join(&chars_of(runtime_dir), &chars_of("slaunch.lock")))
}

} // verus!
