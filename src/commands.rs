//! A reduced form of the commands, for callers that need no more: a USER line carries
//! only its user name, and a PING only its presence. They come from the one grammar of
//! `client_commands`.
use crate::client_commands::{
    parse_command as parse_client_command, ClientCommand, CommandParseError, CommandView,
    parse_line, reports_failure, strings_view, keys_view,
};
use vstd::prelude::*;

verus! {

#[derive(Debug, PartialEq, Eq)]
pub enum Command {
    Cap(String),
    Join(Vec<String>, Option<Vec<String>>),
    Nick(String, u32),
    Ping,
    Quit(Quit),
    User(String),
}

#[derive(Debug, PartialEq, Eq)]
pub struct Quit {
    msg: String,
}

impl Quit {
    pub closed spec fn msg_view(&self) -> Seq<char> {
        self.msg@
    }

    pub fn new(msg: String) -> (r: Quit)
        ensures
            r.msg_view() == msg@,
    {
        Quit { msg }
    }

    pub fn get_msg(&self) -> (r: &str)
        ensures
            r@ == self.msg_view(),
    {
        self.msg.as_str()
    }
}

/// Whether `c` is the command that the grammar's result `v` reduces to.
pub open spec fn reduces_to(v: CommandView, c: Command) -> bool {
    match (v, c) {
        (CommandView::Cap(a), Command::Cap(b)) => b@ == a,
        (CommandView::Join(ch, k), Command::Join(ch2, k2)) => strings_view(ch2) == ch && keys_view(
            k2,
        ) == k,
        (CommandView::Nick(n, h), Command::Nick(n2, h2)) => n2@ == n && h2 == h,
        (CommandView::Ping(_), Command::Ping) => true,
        (CommandView::Quit(m), Command::Quit(q)) => q.msg_view() == m,
        (CommandView::User(u, _, _), Command::User(u2)) => u2@ == u,
        _ => false,
    }
}

/// Parses one line with the command grammar and keeps the reduced form of its command.
pub fn parse_command(input: String) -> (r: Result<Command, CommandParseError>)
    ensures
        match r {
            Ok(c) => parse_line(input@) matches Ok(v) && reduces_to(v, c),
            Err(e) => reports_failure(input@, e),
        },
{
    match parse_client_command(input) {
        Err(e) => Err(e),
        Ok(c) => Ok(
            match c {
                ClientCommand::Cap(a) => Command::Cap(a),
                ClientCommand::Join(ch, k) => Command::Join(ch, k),
                ClientCommand::Nick(n, h) => Command::Nick(n, h),
                ClientCommand::Ping(_) => Command::Ping,
                ClientCommand::Quit(q) => Command::Quit(Quit { msg: q.into_msg() }),
                ClientCommand::User(u) => Command::User(u.user),
            },
        ),
    }
}

} // verus!
