//! The command grammar: one line of text to one structured command.
use vstd::prelude::*;
use vstd::utf8::encode_utf8;

verus! {

/// Classes of characters the grammar distinguishes.
#[derive(Clone, Copy, PartialEq, Eq)]
pub enum CharClass {
    /// ASCII letters and digits.
    Alnum,
    /// ASCII decimal digits.
    Digit,
    /// A space or a tab.
    Space,
    /// Anything but a space, a tab, CR or LF.
    Token,
    /// Anything but whitespace.
    Word,
    /// Anything but whitespace and a comma.
    KeyChar,
}

pub open spec fn is_alnum(c: char) -> bool {
    ('a' <= c && c <= 'z') || ('A' <= c && c <= 'Z') || ('0' <= c && c <= '9')
}

pub open spec fn is_digit(c: char) -> bool {
    '0' <= c && c <= '9'
}

pub open spec fn is_space(c: char) -> bool {
    c == ' ' || c == '\t'
}

/// Unicode whitespace (the `White_Space` property).
pub open spec fn is_whitespace(c: char) -> bool {
    ('\t' <= c && c <= '\r') || c == ' ' || c == '\u{85}' || c == '\u{a0}' || c == '\u{1680}'
        || ('\u{2000}' <= c && c <= '\u{200a}') || c == '\u{2028}' || c == '\u{2029}'
        || c == '\u{202f}' || c == '\u{205f}' || c == '\u{3000}'
}

impl CharClass {
    pub open spec fn has(self, c: char) -> bool {
        match self {
            CharClass::Alnum => is_alnum(c),
            CharClass::Digit => is_digit(c),
            CharClass::Space => is_space(c),
            CharClass::Token => !(c == ' ' || c == '\t' || c == '\r' || c == '\n'),
            CharClass::Word => !is_whitespace(c),
            CharClass::KeyChar => !is_whitespace(c) && c != ',',
        }
    }

    pub fn contains(self, c: char) -> (r: bool)
        ensures
            r == self.has(c),
    {
        match self {
            CharClass::Alnum => ('a' <= c && c <= 'z') || ('A' <= c && c <= 'Z') || ('0' <= c
                && c <= '9'),
            CharClass::Digit => '0' <= c && c <= '9',
            CharClass::Space => c == ' ' || c == '\t',
            CharClass::Token => !(c == ' ' || c == '\t' || c == '\r' || c == '\n'),
            CharClass::Word => !is_whitespace_exec(c),
            CharClass::KeyChar => !is_whitespace_exec(c) && c != ',',
        }
    }
}

fn is_whitespace_exec(c: char) -> (r: bool)
    ensures
        r == is_whitespace(c),
{
    ('\t' <= c && c <= '\r') || c == ' ' || c == '\u{85}' || c == '\u{a0}' || c == '\u{1680}'
        || ('\u{2000}' <= c && c <= '\u{200a}') || c == '\u{2028}' || c == '\u{2029}'
        || c == '\u{202f}' || c == '\u{205f}' || c == '\u{3000}'
}

/// The end of the longest run of characters of class `k` that starts at `i`.
pub open spec fn run_end(s: Seq<char>, i: int, k: CharClass) -> int
    decreases s.len() - i,
{
    if 0 <= i < s.len() && k.has(s[i]) {
        run_end(s, i + 1, k)
    } else {
        i
    }
}

pub proof fn lemma_run_end(s: Seq<char>, i: int, k: CharClass)
    requires
        0 <= i <= s.len(),
    ensures
        i <= run_end(s, i, k) <= s.len(),
        forall|j: int| i <= j < run_end(s, i, k) ==> k.has(#[trigger] s[j]),
        run_end(s, i, k) < s.len() ==> !k.has(s[run_end(s, i, k)]),
    decreases s.len() - i,
{
    if i < s.len() && k.has(s[i]) {
        lemma_run_end(s, i + 1, k);
    }
}

fn scan_run(s: &str, len: usize, i: usize, k: CharClass) -> (r: usize)
    requires
        len == s@.len(),
        i <= len,
    ensures
        r == run_end(s@, i as int, k),
        i <= r <= len,
{
    let mut j: usize = i;
    while j < len && k.contains(s.get_char(j))
        invariant
            len == s@.len(),
            i <= j <= len,
            run_end(s@, j as int, k) == run_end(s@, i as int, k),
        decreases len - j,
    {
        j = j + 1;
    }
    j
}

/// Whether a line terminator (`"\n"` or `"\r\n"`) starts at `j`.
pub open spec fn terminator_at(s: Seq<char>, j: int) -> bool {
    0 <= j < s.len() && (s[j] == '\n' || (s[j] == '\r' && j + 1 < s.len() && s[j + 1] == '\n'))
}

/// The first position at or after `i` where a line terminator starts, or the end of `s`.
pub open spec fn line_end(s: Seq<char>, i: int) -> int
    decreases s.len() - i,
{
    if 0 <= i < s.len() && !terminator_at(s, i) {
        line_end(s, i + 1)
    } else {
        i
    }
}

/// The end of the run of whitespace at `i` that stops before a line terminator: the
/// separator that introduces an optional parameter.
pub open spec fn separator_end(s: Seq<char>, i: int) -> int
    decreases s.len() - i,
{
    if 0 <= i < s.len() && is_whitespace(s[i]) && !terminator_at(s, i) {
        separator_end(s, i + 1)
    } else {
        i
    }
}

/// Whether what is left of `s` from `e` on is empty or one line terminator.
pub open spec fn ends_line(s: Seq<char>, e: int) -> bool {
    e == s.len() || (e + 1 == s.len() && s[e] == '\n') || (e + 2 == s.len() && s[e] == '\r'
        && s[e + 1] == '\n')
}

/// The value of a run of decimal digits.
pub open spec fn digits_value(d: Seq<char>) -> nat
    decreases d.len(),
{
    if d.len() == 0 {
        0
    } else {
        10 * digits_value(d.drop_last()) + ((d.last() as u32 - '0' as u32) as nat)
    }
}

/// The number that the digits in `[i, j)` spell, when it fits in a `u32`.
pub open spec fn number_in(s: Seq<char>, i: int, j: int) -> Option<u32> {
    if i < j && digits_value(s.subrange(i, j)) <= u32::MAX {
        Some(digits_value(s.subrange(i, j)) as u32)
    } else {
        None
    }
}

/// The two kinds of comma-separated items.
#[derive(Clone, Copy, PartialEq, Eq)]
pub enum ItemKind {
    /// `#` or `&` and one or more letters or digits.
    Channel,
    /// One or more characters that are neither whitespace nor a comma.
    Key,
}

/// The end of an item of kind `k` that starts at `i`, if one does.
pub open spec fn item_end(s: Seq<char>, i: int, k: ItemKind) -> Option<int> {
    match k {
        ItemKind::Channel => if 0 <= i < s.len() && (s[i] == '#' || s[i] == '&') && run_end(
            s,
            i + 1,
            CharClass::Alnum,
        ) > i + 1 {
            Some(run_end(s, i + 1, CharClass::Alnum))
        } else {
            None
        },
        ItemKind::Key => if 0 <= i && run_end(s, i, CharClass::KeyChar) > i {
            Some(run_end(s, i, CharClass::KeyChar))
        } else {
            None
        },
    }
}

/// The items of a comma-separated list that starts with an item at `i`, and the end of
/// the list: the list stops before a comma that no item follows.
pub open spec fn item_list(s: Seq<char>, i: int, k: ItemKind) -> (Seq<Seq<char>>, int)
    decreases s.len() - i,
{
    match item_end(s, i, k) {
        None => (seq![], i),
        Some(e) => if i < e < s.len() && s[e] == ',' && item_end(s, e + 1, k) is Some {
            let (rest, f) = item_list(s, e + 1, k);
            (seq![s.subrange(i, e)] + rest, f)
        } else {
            (seq![s.subrange(i, e)], e)
        },
    }
}

/// The verbs the grammar recognizes.
#[derive(Clone, Copy, Debug, PartialEq, Eq, Structural)]
pub enum Verb {
    Cap,
    Ping,
    Join,
    Nick,
    User,
    Quit,
}

/// Why a line failed to parse.
#[derive(Clone, Copy, Debug, PartialEq, Eq, Structural)]
pub enum Failure {
    /// The line does not start with a known verb.
    UnknownVerb,
    /// A space or tab was required here.
    ExpectedSpace,
    /// A name of letters and digits was required here.
    ExpectedName,
    /// A channel name was required here.
    ExpectedChannel,
    /// An unsigned number that fits in 32 bits was required here.
    ExpectedNumber,
    /// A token of non-whitespace characters was required here.
    ExpectedToken,
    /// A `:` introducing a trailing parameter was required here.
    ExpectedColon,
    /// The command is complete, but more than a line terminator follows it.
    TrailingInput,
}

/// A line that is not a well-formed command: the verb, when one was recognized, the
/// byte offset at which the grammar failed, and why.
#[derive(Clone, Copy, Debug, PartialEq, Eq, Structural)]
pub struct CommandParseError {
    pub verb: Option<Verb>,
    pub position: usize,
    pub reason: Failure,
}

#[derive(Debug, PartialEq, Eq)]
pub struct User {
    pub user: String,
    pub mode: u32,
    pub real_name: String,
}

#[derive(Debug, PartialEq, Eq)]
pub struct Quit {
    msg: String,
}

impl Quit {
    pub closed spec fn msg_view(&self) -> Seq<char> {
        self.msg@
    }

    pub fn new(msg: String) -> (r: Quit)
        ensures
            r.msg_view() == msg@,
    {
        Quit { msg }
    }

    pub fn get_msg(&self) -> (r: &str)
        ensures
            r@ == self.msg_view(),
    {
        self.msg.as_str()
    }

    pub fn into_msg(self) -> (r: String)
        ensures
            r@ == self.msg_view(),
    {
        self.msg
    }
}

#[derive(Debug, PartialEq, Eq)]
pub enum ClientCommand {
    Cap(String),
    Join(Vec<String>, Option<Vec<String>>),
    Nick(String, u32),
    Ping(String),
    Quit(Quit),
    User(User),
}

/// The mathematical content of a command.
pub enum CommandView {
    Cap(Seq<char>),
    Join(Seq<Seq<char>>, Option<Seq<Seq<char>>>),
    Nick(Seq<char>, u32),
    Ping(Seq<char>),
    Quit(Seq<char>),
    User(Seq<char>, u32, Seq<char>),
}

pub open spec fn strings_view(v: Vec<String>) -> Seq<Seq<char>> {
    v@.map_values(|x: String| x@)
}

pub open spec fn keys_view(k: Option<Vec<String>>) -> Option<Seq<Seq<char>>> {
    match k {
        Some(k) => Some(strings_view(k)),
        None => None,
    }
}

impl View for ClientCommand {
    type V = CommandView;

    open spec fn view(&self) -> CommandView {
        match self {
            ClientCommand::Cap(a) => CommandView::Cap(a@),
            ClientCommand::Join(c, k) => CommandView::Join(strings_view(*c), keys_view(*k)),
            ClientCommand::Nick(n, h) => CommandView::Nick(n@, *h),
            ClientCommand::Ping(t) => CommandView::Ping(t@),
            ClientCommand::Quit(q) => CommandView::Quit(q.msg_view()),
            ClientCommand::User(u) => CommandView::User(u.user@, u.mode, u.real_name@),
        }
    }
}

/// How many characters an optional leading line terminator takes.
pub open spec fn lead_len(s: Seq<char>) -> int {
    if s.len() >= 1 && s[0] == '\n' {
        1
    } else if s.len() >= 2 && s[0] == '\r' && s[1] == '\n' {
        2
    } else {
        0
    }
}

pub open spec fn word_at(s: Seq<char>, i: int, w: Seq<char>) -> bool {
    0 <= i && i + w.len() <= s.len() && s.subrange(i, i + w.len()) == w
}

/// The verb spelled at `i`, and where it ends.
pub open spec fn verb_at(s: Seq<char>, i: int) -> Option<(Verb, int)> {
    if word_at(s, i, seq!['C', 'A', 'P']) {
        Some((Verb::Cap, i + 3))
    } else if word_at(s, i, seq!['P', 'I', 'N', 'G']) {
        Some((Verb::Ping, i + 4))
    } else if word_at(s, i, seq!['J', 'O', 'I', 'N']) {
        Some((Verb::Join, i + 4))
    } else if word_at(s, i, seq!['N', 'I', 'C', 'K']) {
        Some((Verb::Nick, i + 4))
    } else if word_at(s, i, seq!['U', 'S', 'E', 'R']) {
        Some((Verb::User, i + 4))
    } else if word_at(s, i, seq!['Q', 'U', 'I', 'T']) {
        Some((Verb::Quit, i + 4))
    } else {
        None
    }
}

/// The optional key list of a JOIN that follows the channels ending at `c`.
pub open spec fn join_keys(s: Seq<char>, c: int) -> (Option<Seq<Seq<char>>>, int) {
    let sp = separator_end(s, c);
    if sp == c {
        (None, c)
    } else {
        let (ks, e) = item_list(s, sp, ItemKind::Key);
        (Some(ks), e)
    }
}

pub open spec fn join_body(s: Seq<char>, k: int) -> Result<(CommandView, int), (int, Failure)> {
    if item_end(s, k, ItemKind::Channel) is None {
        Err((k, Failure::ExpectedChannel))
    } else {
        let (chans, c) = item_list(s, k, ItemKind::Channel);
        let (keys, e) = join_keys(s, c);
        Ok((CommandView::Join(chans, keys), e))
    }
}

pub open spec fn nick_body(s: Seq<char>, k: int) -> Result<(CommandView, int), (int, Failure)> {
    let e = run_end(s, k, CharClass::Alnum);
    if e == k {
        Err((k, Failure::ExpectedName))
    } else {
        let sp = separator_end(s, e);
        let d = run_end(s, sp, CharClass::Digit);
        match number_in(s, sp, d) {
            Some(h) if sp > e => Ok((CommandView::Nick(s.subrange(k, e), h), d)),
            _ => Ok((CommandView::Nick(s.subrange(k, e), 0), e)),
        }
    }
}

pub open spec fn user_body(s: Seq<char>, k: int) -> Result<(CommandView, int), (int, Failure)> {
    let e1 = run_end(s, k, CharClass::Alnum);
    let s1 = run_end(s, e1, CharClass::Space);
    let d = run_end(s, s1, CharClass::Digit);
    let s2 = run_end(s, d, CharClass::Space);
    let w = run_end(s, s2, CharClass::Word);
    let s3 = run_end(s, w, CharClass::Space);
    if e1 == k {
        Err((k, Failure::ExpectedName))
    } else if s1 == e1 {
        Err((e1, Failure::ExpectedSpace))
    } else if number_in(s, s1, d) is None {
        Err((s1, Failure::ExpectedNumber))
    } else if s2 == d {
        Err((d, Failure::ExpectedSpace))
    } else if w == s2 {
        Err((s2, Failure::ExpectedToken))
    } else if s3 == w {
        Err((w, Failure::ExpectedSpace))
    } else if !(s3 < s.len() && s[s3] == ':') {
        Err((s3, Failure::ExpectedColon))
    } else {
        let e = line_end(s, s3 + 1);
        Ok(
            (
                CommandView::User(
                    s.subrange(k, e1),
                    number_in(s, s1, d)->Some_0,
                    s.subrange(s3 + 1, e),
                ),
                e,
            ),
        )
    }
}

/// The command a verb's body at `k` spells, and where it ends; or where and why it fails.
pub open spec fn parse_body(s: Seq<char>, v: Verb, k: int) -> Result<
    (CommandView, int),
    (int, Failure),
> {
    match v {
        Verb::Cap => Ok((CommandView::Cap(s.subrange(k, line_end(s, k))), line_end(s, k))),
        Verb::Ping => {
            let e = run_end(s, k, CharClass::Token);
            if e == k {
                Err((k, Failure::ExpectedToken))
            } else {
                Ok((CommandView::Ping(s.subrange(k, e)), e))
            }
        },
        Verb::Join => join_body(s, k),
        Verb::Nick => nick_body(s, k),
        Verb::User => user_body(s, k),
        Verb::Quit => if k < s.len() && s[k] == ':' {
            Ok((CommandView::Quit(s.subrange(k + 1, line_end(s, k + 1))), line_end(s, k + 1)))
        } else {
            Err((k, Failure::ExpectedColon))
        },
    }
}

/// What a line parses to: a command, or the verb, position and reason of the failure.
pub open spec fn parse_line(s: Seq<char>) -> Result<CommandView, (Option<Verb>, int, Failure)> {
    let i = lead_len(s);
    match verb_at(s, i) {
        None => Err((None, i, Failure::UnknownVerb)),
        Some((v, j)) => {
            let k = run_end(s, j, CharClass::Space);
            if k == j {
                Err((Some(v), j, Failure::ExpectedSpace))
            } else {
                match parse_body(s, v, k) {
                    Err((p, f)) => Err((Some(v), p, f)),
                    Ok((c, e)) => if ends_line(s, e) {
                        Ok(c)
                    } else {
                        Err((Some(v), e, Failure::TrailingInput))
                    },
                }
            }
        },
    }
}

fn find_line_end(s: &str, len: usize, i: usize) -> (r: usize)
    requires
        len == s@.len(),
        i <= len,
    ensures
        r == line_end(s@, i as int),
        i <= r <= len,
{
    let mut j: usize = i;
    while j < len
        invariant
            len == s@.len(),
            i <= j <= len,
            line_end(s@, j as int) == line_end(s@, i as int),
        decreases len - j,
    {
        let c = s.get_char(j);
        if c == '\n' || (c == '\r' && j + 1 < len && s.get_char(j + 1) == '\n') {
            return j;
        }
        j = j + 1;
    }
    j
}

fn scan_separator(s: &str, len: usize, i: usize) -> (r: usize)
    requires
        len == s@.len(),
        i <= len,
    ensures
        r == separator_end(s@, i as int),
        i <= r <= len,
{
    let mut j: usize = i;
    while j < len
        invariant
            len == s@.len(),
            i <= j <= len,
            separator_end(s@, j as int) == separator_end(s@, i as int),
        decreases len - j,
    {
        let c = s.get_char(j);
        if !is_whitespace_exec(c) || c == '\n' || (c == '\r' && j + 1 < len && s.get_char(j + 1)
            == '\n') {
            return j;
        }
        j = j + 1;
    }
    j
}

fn ends_line_exec(s: &str, len: usize, e: usize) -> (r: bool)
    requires
        len == s@.len(),
        e <= len,
    ensures
        r == ends_line(s@, e as int),
{
    e == len || (len - e == 1 && s.get_char(e) == '\n') || (len - e == 2 && s.get_char(e) == '\r'
        && s.get_char(e + 1) == '\n')
}

proof fn lemma_digits_prefix(d: Seq<char>, n: int)
    requires
        0 <= n <= d.len(),
    ensures
        digits_value(d) >= digits_value(d.subrange(0, n)),
    decreases d.len(),
{
    if n == d.len() {
        assert(d.subrange(0, n) =~= d);
    } else {
        lemma_digits_prefix(d.drop_last(), n);
        assert(d.drop_last().subrange(0, n) =~= d.subrange(0, n));
    }
}

fn read_number(s: &str, len: usize, i: usize, j: usize) -> (r: Option<u32>)
    requires
        len == s@.len(),
        i <= j <= len,
        forall|p: int| i <= p < j ==> is_digit(#[trigger] s@[p]),
    ensures
        r == number_in(s@, i as int, j as int),
{
    if i == j {
        return None;
    }
    let mut acc: u64 = 0;
    let mut p: usize = i;
    while p < j
        invariant
            len == s@.len(),
            i <= p <= j <= len,
            forall|q: int| i <= q < j ==> is_digit(#[trigger] s@[q]),
            acc == digits_value(s@.subrange(i as int, p as int)),
            acc <= u32::MAX,
        decreases j - p,
    {
        let c = s.get_char(p);
        assert(is_digit(s@[p as int]));
        let next: u64 = acc * 10 + (c as u32 - '0' as u32) as u64;
        assert(s@.subrange(i as int, p + 1).drop_last() =~= s@.subrange(i as int, p as int));
        if next > u32::MAX as u64 {
            proof {
                lemma_digits_prefix(s@.subrange(i as int, j as int), p + 1 - i);
                assert(s@.subrange(i as int, j as int).subrange(0, p + 1 - i) =~= s@.subrange(
                    i as int,
                    p + 1,
                ));
            }
            return None;
        }
        acc = next;
        p = p + 1;
    }
    assert(i < j);
    Some(acc as u32)
}

fn find_item_end(s: &str, len: usize, i: usize, k: ItemKind) -> (r: Option<usize>)
    requires
        len == s@.len(),
        i <= len,
    ensures
        r is None <==> item_end(s@, i as int, k) is None,
        r matches Some(e) ==> item_end(s@, i as int, k) == Some(e as int) && i < e <= len,
{
    match k {
        ItemKind::Channel => {
            if i < len {
                let c = s.get_char(i);
                if c == '#' || c == '&' {
                    let e = scan_run(s, len, i + 1, CharClass::Alnum);
                    proof {
                        lemma_run_end(s@, i + 1, CharClass::Alnum);
                    }
                    if e > i + 1 {
                        return Some(e);
                    }
                }
            }
            None
        },
        ItemKind::Key => {
            let e = scan_run(s, len, i, CharClass::KeyChar);
            proof {
                lemma_run_end(s@, i as int, CharClass::KeyChar);
            }
            if e > i {
                Some(e)
            } else {
                None
            }
        },
    }
}

fn substring(s: &str, from: usize, to: usize) -> (r: String)
    requires
        from <= to <= s@.len(),
    ensures
        r@ == s@.subrange(from as int, to as int),
{
    String::from_str(s.substring_char(from, to))
}

fn read_item_list(s: &str, len: usize, i: usize, k: ItemKind) -> (r: (Vec<String>, usize))
    requires
        len == s@.len(),
        i <= len,
    ensures
        strings_view(r.0) == item_list(s@, i as int, k).0,
        r.1 == item_list(s@, i as int, k).1,
        i <= r.1 <= len,
{
    let mut items: Vec<String> = Vec::new();
    let mut p: usize = i;
    let ghost whole = item_list(s@, i as int, k);
    if find_item_end(s, len, i, k).is_none() {
        assert(strings_view(items) =~= seq![]);
        return (items, i);
    }
    loop
        invariant
            len == s@.len(),
            i <= p <= len,
            item_end(s@, p as int, k) is Some,
            whole == item_list(s@, i as int, k),
            strings_view(items) + item_list(s@, p as int, k).0 == whole.0,
            item_list(s@, p as int, k).1 == whole.1,
        decreases len - p,
    {
        let e = match find_item_end(s, len, p, k) {
            Some(e) => e,
            None => { return (items, p); },
        };
        let ghost before = strings_view(items);
        let piece = substring(s, p, e);
        items.push(piece);
        assert(strings_view(items) =~= before.push(s@.subrange(p as int, e as int)));
        let more = e < len && s.get_char(e) == ',' && find_item_end(s, len, e + 1, k).is_some();
        if more {
            assert(item_list(s@, p as int, k).0 =~= seq![s@.subrange(p as int, e as int)]
                + item_list(s@, e + 1, k).0);
            assert(strings_view(items) + item_list(s@, e + 1, k).0 =~= whole.0);
            p = e + 1;
        } else {
            assert(item_list(s@, p as int, k).0 =~= seq![s@.subrange(p as int, e as int)]);
            assert(item_list(s@, p as int, k).1 == e);
            assert(strings_view(items) =~= whole.0);
            return (items, e);
        }
    }
}

fn word_at3(s: &str, len: usize, i: usize, a: char, b: char, c: char) -> (r: bool)
    requires
        len == s@.len(),
        i <= len,
    ensures
        r == word_at(s@, i as int, seq![a, b, c]),
{
    let r = len - i >= 3 && s.get_char(i) == a && s.get_char(i + 1) == b && s.get_char(i + 2) == c;
    proof {
        let w = seq![a, b, c];
        if r {
            assert(s@.subrange(i as int, i + 3) =~= w);
        } else if len - i >= 3 && s@.subrange(i as int, i + 3) == w {
            assert(s@.subrange(i as int, i + 3)[0] == w[0]);
            assert(s@.subrange(i as int, i + 3)[1] == w[1]);
            assert(s@.subrange(i as int, i + 3)[2] == w[2]);
        }
    }
    r
}

fn word_at4(s: &str, len: usize, i: usize, a: char, b: char, c: char, d: char) -> (r: bool)
    requires
        len == s@.len(),
        i <= len,
    ensures
        r == word_at(s@, i as int, seq![a, b, c, d]),
{
    let r = len - i >= 4 && s.get_char(i) == a && s.get_char(i + 1) == b && s.get_char(i + 2) == c
        && s.get_char(i + 3) == d;
    proof {
        let w = seq![a, b, c, d];
        if r {
            assert(s@.subrange(i as int, i + 4) =~= w);
        } else if len - i >= 4 && s@.subrange(i as int, i + 4) == w {
            assert(s@.subrange(i as int, i + 4)[0] == w[0]);
            assert(s@.subrange(i as int, i + 4)[1] == w[1]);
            assert(s@.subrange(i as int, i + 4)[2] == w[2]);
            assert(s@.subrange(i as int, i + 4)[3] == w[3]);
        }
    }
    r
}

fn read_verb(s: &str, len: usize, i: usize) -> (r: Option<(Verb, usize)>)
    requires
        len == s@.len(),
        i <= len,
    ensures
        r matches Some((v, j)) ==> verb_at(s@, i as int) == Some((v, j as int)) && j <= len,
        r is None ==> verb_at(s@, i as int) is None,
{
    if word_at3(s, len, i, 'C', 'A', 'P') {
        Some((Verb::Cap, i + 3))
    } else if word_at4(s, len, i, 'P', 'I', 'N', 'G') {
        Some((Verb::Ping, i + 4))
    } else if word_at4(s, len, i, 'J', 'O', 'I', 'N') {
        Some((Verb::Join, i + 4))
    } else if word_at4(s, len, i, 'N', 'I', 'C', 'K') {
        Some((Verb::Nick, i + 4))
    } else if word_at4(s, len, i, 'U', 'S', 'E', 'R') {
        Some((Verb::User, i + 4))
    } else if word_at4(s, len, i, 'Q', 'U', 'I', 'T') {
        Some((Verb::Quit, i + 4))
    } else {
        None
    }
}

/// Whether an executable body result is the one the grammar prescribes.
pub open spec fn body_agrees(
    r: Result<(ClientCommand, usize), (usize, Failure)>,
    g: Result<(CommandView, int), (int, Failure)>,
) -> bool {
    match r {
        Ok((c, e)) => g == Ok::<(CommandView, int), (int, Failure)>((c@, e as int)),
        Err((p, f)) => g == Err::<(CommandView, int), (int, Failure)>((p as int, f)),
    }
}

pub open spec fn body_in_bounds(r: Result<(ClientCommand, usize), (usize, Failure)>, len: usize) -> bool {
    match r {
        Ok((_, e)) => e <= len,
        Err((p, _)) => p <= len,
    }
}

fn parse_cap(s: &str, len: usize, k: usize) -> (r: Result<(ClientCommand, usize), (usize, Failure)>)
    requires
        len == s@.len(),
        k <= len,
    ensures
        body_agrees(r, parse_body(s@, Verb::Cap, k as int)),
        body_in_bounds(r, len),
{
    let e = find_line_end(s, len, k);
    Ok((ClientCommand::Cap(substring(s, k, e)), e))
}

fn parse_ping(s: &str, len: usize, k: usize) -> (r: Result<(ClientCommand, usize), (usize, Failure)>)
    requires
        len == s@.len(),
        k <= len,
    ensures
        body_agrees(r, parse_body(s@, Verb::Ping, k as int)),
        body_in_bounds(r, len),
{
    let e = scan_run(s, len, k, CharClass::Token);
    if e == k {
        Err((k, Failure::ExpectedToken))
    } else {
        Ok((ClientCommand::Ping(substring(s, k, e)), e))
    }
}

fn parse_quit(s: &str, len: usize, k: usize) -> (r: Result<(ClientCommand, usize), (usize, Failure)>)
    requires
        len == s@.len(),
        k <= len,
    ensures
        body_agrees(r, parse_body(s@, Verb::Quit, k as int)),
        body_in_bounds(r, len),
{
    if k < len && s.get_char(k) == ':' {
        let e = find_line_end(s, len, k + 1);
        let msg = substring(s, k + 1, e);
        Ok((ClientCommand::Quit(Quit { msg }), e))
    } else {
        Err((k, Failure::ExpectedColon))
    }
}

fn parse_join_keys(s: &str, len: usize, c: usize) -> (r: (Option<Vec<String>>, usize))
    requires
        len == s@.len(),
        c <= len,
    ensures
        keys_view(r.0) == join_keys(s@, c as int).0,
        r.1 == join_keys(s@, c as int).1,
        r.1 <= len,
{
    let sp = scan_separator(s, len, c);
    if sp == c {
        (None, c)
    } else {
        let (ks, e) = read_item_list(s, len, sp, ItemKind::Key);
        (Some(ks), e)
    }
}

fn parse_join(s: &str, len: usize, k: usize) -> (r: Result<(ClientCommand, usize), (usize, Failure)>)
    requires
        len == s@.len(),
        k <= len,
    ensures
        body_agrees(r, parse_body(s@, Verb::Join, k as int)),
        body_in_bounds(r, len),
{
    if find_item_end(s, len, k, ItemKind::Channel).is_none() {
        return Err((k, Failure::ExpectedChannel));
    }
    let (chans, c) = read_item_list(s, len, k, ItemKind::Channel);
    let (keys, e) = parse_join_keys(s, len, c);
    Ok((ClientCommand::Join(chans, keys), e))
}

fn parse_nick(s: &str, len: usize, k: usize) -> (r: Result<(ClientCommand, usize), (usize, Failure)>)
    requires
        len == s@.len(),
        k <= len,
    ensures
        body_agrees(r, parse_body(s@, Verb::Nick, k as int)),
        body_in_bounds(r, len),
{
    let e = scan_run(s, len, k, CharClass::Alnum);
    if e == k {
        return Err((k, Failure::ExpectedName));
    }
    let name = substring(s, k, e);
    let sp = scan_separator(s, len, e);
    let d = scan_run(s, len, sp, CharClass::Digit);
    proof {
        lemma_run_end(s@, sp as int, CharClass::Digit);
    }
    if sp > e {
        if let Some(h) = read_number(s, len, sp, d) {
            return Ok((ClientCommand::Nick(name, h), d));
        }
    }
    Ok((ClientCommand::Nick(name, 0), e))
}

fn parse_user(s: &str, len: usize, k: usize) -> (r: Result<(ClientCommand, usize), (usize, Failure)>)
    requires
        len == s@.len(),
        k <= len,
    ensures
        body_agrees(r, parse_body(s@, Verb::User, k as int)),
        body_in_bounds(r, len),
{
    let e1 = scan_run(s, len, k, CharClass::Alnum);
    if e1 == k {
        return Err((k, Failure::ExpectedName));
    }
    let s1 = scan_run(s, len, e1, CharClass::Space);
    if s1 == e1 {
        return Err((e1, Failure::ExpectedSpace));
    }
    let d = scan_run(s, len, s1, CharClass::Digit);
    proof {
        lemma_run_end(s@, s1 as int, CharClass::Digit);
    }
    let mode = match read_number(s, len, s1, d) {
        Some(m) => m,
        None => { return Err((s1, Failure::ExpectedNumber)); },
    };
    let s2 = scan_run(s, len, d, CharClass::Space);
    if s2 == d {
        return Err((d, Failure::ExpectedSpace));
    }
    let w = scan_run(s, len, s2, CharClass::Word);
    if w == s2 {
        return Err((s2, Failure::ExpectedToken));
    }
    let s3 = scan_run(s, len, w, CharClass::Space);
    if s3 == w {
        return Err((w, Failure::ExpectedSpace));
    }
    if !(s3 < len && s.get_char(s3) == ':') {
        return Err((s3, Failure::ExpectedColon));
    }
    let e = find_line_end(s, len, s3 + 1);
    let user = User { user: substring(s, k, e1), mode, real_name: substring(s, s3 + 1, e) };
    Ok((ClientCommand::User(user), e))
}

/// The offset, in bytes of the UTF-8 encoding of `s`, of the character at `p`.
pub open spec fn byte_offset(s: Seq<char>, p: int) -> int {
    encode_utf8(s.subrange(0, p)).len() as int
}

/// Whether `e` reports the failure of the grammar on `s`, its position counted in bytes.
pub open spec fn reports_failure(s: Seq<char>, e: CommandParseError) -> bool {
    parse_line(s) matches Err((v, p, f)) && e.verb == v && e.reason == f && e.position == byte_offset(
        s,
        p,
    ) as usize
}

fn byte_position(s: &str, p: usize) -> (r: usize)
    requires
        p <= s@.len(),
    ensures
        r == byte_offset(s@, p as int) as usize,
{
    s.substring_char(0, p).len()
}

fn parse_chars(s: &str, len: usize) -> (r: Result<ClientCommand, (Option<Verb>, usize, Failure)>)
    requires
        len == s@.len(),
    ensures
        match r {
            Ok(c) => parse_line(s@) == Ok::<CommandView, (Option<Verb>, int, Failure)>(c@),
            Err((v, p, f)) => parse_line(s@) == Err::<CommandView, (Option<Verb>, int, Failure)>(
                (v, p as int, f),
            ) && p <= len,
        },
{
    let i: usize = if len >= 1 && s.get_char(0) == '\n' {
        1
    } else if len >= 2 && s.get_char(0) == '\r' && s.get_char(1) == '\n' {
        2
    } else {
        0
    };
    let (v, j) = match read_verb(s, len, i) {
        Some(x) => x,
        None => {
            return Err((None, i, Failure::UnknownVerb));
        },
    };
    let k = scan_run(s, len, j, CharClass::Space);
    if k == j {
        return Err((Some(v), j, Failure::ExpectedSpace));
    }
    let body = match v {
        Verb::Cap => parse_cap(s, len, k),
        Verb::Ping => parse_ping(s, len, k),
        Verb::Join => parse_join(s, len, k),
        Verb::Nick => parse_nick(s, len, k),
        Verb::User => parse_user(s, len, k),
        Verb::Quit => parse_quit(s, len, k),
    };
    match body {
        Err((p, f)) => Err((Some(v), p, f)),
        Ok((c, e)) => if ends_line_exec(s, len, e) {
            Ok(c)
        } else {
            Err((Some(v), e, Failure::TrailingInput))
        },
    }
}

/// Parses one line into a command. An optional leading line terminator is skipped; after
/// the verb's grammar only a line terminator may follow. A failure reports the byte
/// offset at which the grammar failed.
pub fn parse_command(input: String) -> (r: Result<ClientCommand, CommandParseError>)
    ensures
        match r {
            Ok(c) => parse_line(input@) == Ok::<CommandView, (Option<Verb>, int, Failure)>(c@),
            Err(e) => reports_failure(input@, e),
        },
{
    let s = input.as_str();
    let len = s.unicode_len();
    match parse_chars(s, len) {
        Ok(c) => Ok(c),
        Err((verb, p, reason)) => Err(
            CommandParseError { verb, position: byte_position(s, p), reason },
        ),
    }
}

/// A QUIT whose message does not start with `:` is no command.
pub proof fn lemma_quit_needs_colon(s: Seq<char>)
    requires
        verb_at(s, lead_len(s)) matches Some((Verb::Quit, j)) && ({
            let k = run_end(s, j, CharClass::Space);
            !(k < s.len() && s[k] == ':')
        }),
    ensures
        parse_line(s) is Err,
{
}

} // verus!
