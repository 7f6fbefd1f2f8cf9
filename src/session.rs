//! One connection's ingestion: bytes in, lines framed, each line parsed, and the
//! registration handshake folded from the NICK and USER commands.
use crate::client_commands::{
    parse_command, parse_line, reports_failure, ClientCommand, CommandParseError, CommandView,
    Failure, Verb,
};
use crate::framer::{complete_lines, partial_line, LineFramer};
use vstd::prelude::*;
use vstd::utf8::{decode_utf8, valid_utf8};

verus! {

/// The identity of a registered connection.
pub struct User {
    pub nickname: String,
    pub username: String,
    pub hostname: String,
}

impl User {
    /// `nickname!username@hostname`.
    pub fn host_mask(&self) -> (r: String)
        ensures
            r@ == self.nickname@ + seq!['!'] + self.username@ + seq!['@'] + self.hostname@,
    {
        proof {
            reveal_strlit("!");
            reveal_strlit("@");
        }
        let r = String::from_str(self.nickname.as_str());
        let r = r.concat("!");
        let r = r.concat(self.username.as_str());
        let r = r.concat("@");
        r.concat(self.hostname.as_str())
    }
}

/// What the handshake has seen so far.
pub struct Progress {
    pub nick: Option<Seq<char>>,
    pub user: Option<Seq<char>>,
    pub registered: bool,
}

pub open spec fn fresh() -> Progress {
    Progress { nick: None, user: None, registered: false }
}

/// The handshake after one more command: before registration a NICK or USER records its
/// value, and registration happens once both are known; nothing changes afterwards.
pub open spec fn advance(h: Progress, c: ClientCommand) -> Progress {
    if h.registered {
        h
    } else {
        let nick = match c {
            ClientCommand::Nick(n, _) => Some(n@),
            _ => h.nick,
        };
        let user = match c {
            ClientCommand::User(u) => Some(u.user@),
            _ => h.user,
        };
        Progress { nick, user, registered: nick is Some && user is Some }
    }
}

pub open spec fn string_opt_view(o: Option<String>) -> Option<Seq<char>> {
    match o {
        Some(s) => Some(s@),
        None => None,
    }
}

/// The registration handshake of one connection.
pub struct Handshake {
    nickname: Option<String>,
    username: Option<String>,
    hostname: String,
    registered: bool,
}

fn copy_string(s: &String) -> (r: String)
    ensures
        r@ == s@,
{
    String::from_str(s.as_str())
}

impl Handshake {
    pub closed spec fn progress(&self) -> Progress {
        Progress {
            nick: string_opt_view(self.nickname),
            user: string_opt_view(self.username),
            registered: self.registered,
        }
    }

    /// The peer's host, bound when the connection starts.
    pub closed spec fn host(&self) -> Seq<char> {
        self.hostname@
    }

    pub fn new(hostname: String) -> (r: Handshake)
        ensures
            r.progress() == fresh(),
            r.host() == hostname@,
    {
        Handshake { nickname: None, username: None, hostname, registered: false }
    }

    pub fn is_registered(&self) -> (r: bool)
        ensures
            r == self.progress().registered,
    {
        self.registered
    }

    /// Folds one command into the handshake; returns the identity exactly when this
    /// command completes the registration.
    pub fn apply(&mut self, cmd: &ClientCommand) -> (r: Option<User>)
        ensures
            final(self).progress() == advance(old(self).progress(), *cmd),
            final(self).host() == old(self).host(),
            r is Some <==> !old(self).progress().registered && final(self).progress().registered,
            r matches Some(u) ==> final(self).progress().nick == Some(u.nickname@)
                && final(self).progress().user == Some(u.username@) && u.hostname@ == old(
                self,
            ).host(),
    {
        if self.registered {
            return None;
        }
        match cmd {
            ClientCommand::Nick(n, _) => {
                self.nickname = Some(copy_string(n));
            },
            ClientCommand::User(u) => {
                self.username = Some(copy_string(&u.user));
            },
            _ => {},
        }
        match (&self.nickname, &self.username) {
            (Some(n), Some(u)) => {
                self.registered = true;
                Some(
                    User {
                        nickname: copy_string(n),
                        username: copy_string(u),
                        hostname: copy_string(&self.hostname),
                    },
                )
            },
            _ => None,
        }
    }
}

/// Relies on `String::from_utf8`: it succeeds exactly on valid UTF-8, with the text the
/// bytes encode.
#[verifier::external_body]
fn decode_line(b: &Vec<u8>) -> (r: Option<String>)
    ensures
        match r {
            Some(s) => valid_utf8(b@) && s@ == decode_utf8(b@),
            None => !valid_utf8(b@),
        },
{
    String::from_utf8(b.clone()).ok()
}

/// What became of one line.
pub enum LineOutcome {
    /// The line is a command.
    Parsed(ClientCommand),
    /// The line is text but no command.
    Malformed(CommandParseError),
    /// The line is not UTF-8 text.
    NotText,
}

/// Whether `o` is what the line `line` comes to; it depends on that line alone.
pub open spec fn outcome_of(line: Seq<u8>, o: LineOutcome) -> bool {
    match o {
        LineOutcome::NotText => !valid_utf8(line),
        LineOutcome::Parsed(c) => valid_utf8(line) && parse_line(decode_utf8(line)) == Ok::<
            CommandView,
            (Option<Verb>, int, Failure),
        >(c@),
        LineOutcome::Malformed(e) => valid_utf8(line) && reports_failure(decode_utf8(line), e),
    }
}

pub open spec fn advance_outcome(h: Progress, o: LineOutcome) -> Progress {
    match o {
        LineOutcome::Parsed(c) => advance(h, c),
        _ => h,
    }
}

/// The handshake after a run of outcomes, and how many times it registered on the way.
pub open spec fn run(h: Progress, os: Seq<LineOutcome>) -> (Progress, nat)
    decreases os.len(),
{
    if os.len() == 0 {
        (h, 0)
    } else {
        let (hp, n) = run(h, os.drop_last());
        let h1 = advance_outcome(hp, os.last());
        (h1, if !hp.registered && h1.registered {
            n + 1
        } else {
            n
        })
    }
}

pub open spec fn has_nick(os: Seq<LineOutcome>) -> bool {
    exists|i: int| 0 <= i < os.len() && #[trigger] os[i] matches LineOutcome::Parsed(ClientCommand::Nick(_, _))
}

pub open spec fn has_user(os: Seq<LineOutcome>) -> bool {
    exists|i: int| 0 <= i < os.len() && #[trigger] os[i] matches LineOutcome::Parsed(ClientCommand::User(_))
}

/// A connection registers exactly once when both a NICK and a USER command arrive, in
/// either order, and never otherwise; once registered it stays so.
pub proof fn lemma_registers_once(os: Seq<LineOutcome>)
    ensures
        run(fresh(), os).1 == (if has_nick(os) && has_user(os) {
            1nat
        } else {
            0nat
        }),
        run(fresh(), os).0.registered == (has_nick(os) && has_user(os)),
        run(fresh(), os).0.nick is Some == has_nick(os),
        run(fresh(), os).0.user is Some == has_user(os),
    decreases os.len(),
{
    if os.len() > 0 {
        let prev = os.drop_last();
        let o = os.last();
        lemma_registers_once(prev);
        assert(os[os.len() - 1] == o);
        if has_nick(prev) {
            let i = choose|i: int| 0 <= i < prev.len() && #[trigger] prev[i] matches LineOutcome::Parsed(ClientCommand::Nick(_, _));
            assert(os[i] == prev[i]);
        }
        if has_user(prev) {
            let i = choose|i: int| 0 <= i < prev.len() && #[trigger] prev[i] matches LineOutcome::Parsed(ClientCommand::User(_));
            assert(os[i] == prev[i]);
        }
        if has_nick(os) && !(o matches LineOutcome::Parsed(ClientCommand::Nick(_, _))) {
            let i = choose|i: int| 0 <= i < os.len() && #[trigger] os[i] matches LineOutcome::Parsed(ClientCommand::Nick(_, _));
            assert(prev[i] == os[i]);
        }
        if has_user(os) && !(o matches LineOutcome::Parsed(ClientCommand::User(_))) {
            let i = choose|i: int| 0 <= i < os.len() && #[trigger] os[i] matches LineOutcome::Parsed(ClientCommand::User(_));
            assert(prev[i] == os[i]);
        }
    }
}

/// A line that is not a command changes nothing: the commands around it are folded as
/// if it were not there.
pub proof fn lemma_malformed_line_ignored(
    h: Progress,
    before: Seq<LineOutcome>,
    bad: LineOutcome,
    after: Seq<LineOutcome>,
)
    requires
        !(bad is Parsed),
    ensures
        run(h, before.push(bad) + after) == run(h, before + after),
    decreases after.len(),
{
    if after.len() == 0 {
        assert(before.push(bad) + after =~= before.push(bad));
        assert(before + after =~= before);
        assert(before.push(bad).drop_last() =~= before);
    } else {
        lemma_malformed_line_ignored(h, before, bad, after.drop_last());
        assert((before.push(bad) + after).drop_last() =~= before.push(bad) + after.drop_last());
        assert((before + after).drop_last() =~= before + after.drop_last());
    }
}

/// Folding the outcomes of one chunk after those of another is folding them all at once,
/// so what holds of a run of outcomes holds across the chunks of a connection.
pub proof fn lemma_run_append(h: Progress, a: Seq<LineOutcome>, b: Seq<LineOutcome>)
    ensures
        run(h, a + b) == (run(run(h, a).0, b).0, run(h, a).1 + run(run(h, a).0, b).1),
    decreases b.len(),
{
    if b.len() == 0 {
        assert(a + b =~= a);
    } else {
        lemma_run_append(h, a, b.drop_last());
        assert((a + b).drop_last() =~= a + b.drop_last());
        assert((a + b).last() == b.last());
    }
}

/// Why a connection must end.
#[derive(Clone, Copy, Debug, PartialEq, Eq, Structural)]
pub enum SessionError {
    /// More unterminated bytes are buffered than the session allows.
    LineTooLong,
    /// The peer closed the connection before registering.
    HandshakeIncomplete,
}

/// What one chunk of input came to: one outcome per complete line, in order, and the
/// identity if these lines completed the registration.
pub struct Received {
    pub outcomes: Vec<LineOutcome>,
    pub registered: Option<User>,
}

/// The ingestion state of one connection: its framer and its handshake.
pub struct Session {
    framer: LineFramer,
    handshake: Handshake,
    limit: usize,
}

impl Session {
    pub closed spec fn pending(&self) -> Seq<u8> {
        self.framer.pending()
    }

    pub closed spec fn progress(&self) -> Progress {
        self.handshake.progress()
    }

    pub closed spec fn host(&self) -> Seq<char> {
        self.handshake.host()
    }

    /// The most unterminated bytes the session buffers.
    pub closed spec fn limit(&self) -> nat {
        self.limit as nat
    }

    pub fn new(hostname: String, limit: usize) -> (r: Session)
        ensures
            r.pending() == Seq::<u8>::empty(),
            r.progress() == fresh(),
            r.host() == hostname@,
            r.limit() == limit,
    {
        Session { framer: LineFramer::new(), handshake: Handshake::new(hostname), limit }
    }

    pub fn is_registered(&self) -> (r: bool)
        ensures
            r == self.progress().registered,
    {
        self.handshake.is_registered()
    }

    pub fn pending_len(&self) -> (r: usize)
        ensures
            r == self.pending().len(),
    {
        self.framer.pending_len()
    }

    /// Takes a chunk as read from the peer: frames its complete lines, parses each, and
    /// folds the commands into the handshake. A line that is no command is reported and
    /// the lines after it are handled all the same. Fails when the unterminated rest
    /// exceeds the limit.
    pub fn receive(&mut self, chunk: &[u8]) -> (r: Result<Received, SessionError>)
        requires
            old(self).pending().len() + chunk@.len() <= isize::MAX,
        ensures
            final(self).host() == old(self).host(),
            final(self).limit() == old(self).limit(),
            match r {
                Err(e) => e == SessionError::LineTooLong && partial_line(
                    old(self).pending() + chunk@,
                ).len() > old(self).limit(),
                Ok(rec) => {
                    &&& partial_line(old(self).pending() + chunk@).len() <= old(self).limit()
                    &&& final(self).pending() == partial_line(old(self).pending() + chunk@)
                    &&& rec.outcomes@.len() == complete_lines(old(self).pending() + chunk@).len()
                    &&& forall|j: int|
                        0 <= j < rec.outcomes@.len() ==> outcome_of(
                            #[trigger] complete_lines(old(self).pending() + chunk@)[j],
                            rec.outcomes@[j],
                        )
                    &&& final(self).progress() == run(old(self).progress(), rec.outcomes@).0
                    &&& rec.registered is Some <==> run(old(self).progress(), rec.outcomes@).1
                        == 1
                    &&& rec.registered matches Some(u) ==> final(self).progress().nick == Some(
                        u.nickname@,
                    ) && final(self).progress().user == Some(u.username@) && u.hostname@
                        == old(self).host()
                },
            },
    {
        self.framer.feed(chunk);
        let lines = self.framer.take_lines();
        if self.framer.pending_len() > self.limit {
            return Err(SessionError::LineTooLong);
        }
        let ghost h0 = self.handshake.progress();
        let ghost all = complete_lines(old(self).pending() + chunk@);
        assert(all.len() == lines@.len());
        let mut outcomes: Vec<LineOutcome> = Vec::new();
        let mut registered: Option<User> = None;
        let mut i: usize = 0;
        while i < lines.len()
            invariant
                i <= lines@.len(),
                all == lines@.map_values(|l: Vec<u8>| l@),
                outcomes@.len() == i,
                forall|j: int| 0 <= j < i ==> outcome_of(#[trigger] all[j], outcomes@[j]),
                self.handshake.progress() == run(h0, outcomes@).0,
                self.handshake.host() == old(self).host(),
                run(h0, outcomes@).1 == (if registered is Some {
                    1nat
                } else {
                    0nat
                }),
                registered is Some ==> self.handshake.progress().registered,
                h0.registered ==> registered is None && self.handshake.progress().registered,
                self.limit == old(self).limit,
                self.framer.pending() == partial_line(old(self).pending() + chunk@),
                self.framer.pending().len() <= self.limit,
                registered matches Some(u) ==> self.handshake.progress().nick == Some(
                    u.nickname@,
                ) && self.handshake.progress().user == Some(u.username@) && u.hostname@
                    == old(self).host(),
            decreases lines@.len() - i,
        {
            let ghost before = outcomes@;
            let ghost hp = self.handshake.progress();
            assert(all[i as int] == lines@[i as int]@);
            let outcome = match decode_line(&lines[i]) {
                None => LineOutcome::NotText,
                Some(text) => match parse_command(text) {
                    Ok(cmd) => {
                        if let Some(u) = self.handshake.apply(&cmd) {
                            registered = Some(u);
                        }
                        LineOutcome::Parsed(cmd)
                    },
                    Err(e) => LineOutcome::Malformed(e),
                },
            };
            outcomes.push(outcome);
            assert(outcomes@.drop_last() =~= before);
            i = i + 1;
        }
        Ok(Received { outcomes, registered })
    }

    /// The peer closed the connection: fine once registered, an error before.
    pub fn close(&self) -> (r: Result<(), SessionError>)
        ensures
            r is Ok <==> self.progress().registered,
            r matches Err(e) ==> e == SessionError::HandshakeIncomplete,
    {
        if self.handshake.is_registered() {
            Ok(())
        } else {
            Err(SessionError::HandshakeIncomplete)
        }
    }
}

} // verus!
