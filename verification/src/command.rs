//! The command interpreter: a pure function from one line of raw text to a
//! typed command or a categorized parse error. The grammar splits the line
//! on single spaces (consecutive separators yield empty tokens), selects the
//! command by the first token, and rejects anything beyond what the grammar
//! consumes.

use crate::store::MailId;
use vstd::prelude::*;

verus! {

/// A parsed command. `ReplyToMail` parses but is not actionable by the
/// store; it stays distinct so "not parseable" and "not yet implemented"
/// remain observable as different outcomes.
#[derive(Debug, PartialEq, Eq)]
pub enum Command {
    Logout,
    ListMails,
    ListUnreadMails,
    ReadMail(MailId),
    WriteMail,
    ReplyToMail(MailId),
    Help,
    CommandHelp(String),
}

/// Why a line failed to parse; the payload is the offending token.
#[derive(Debug, PartialEq, Eq)]
pub enum ParseError {
    EmptyInput,
    UnrecognizedCommand(String),
    InvalidMailId(String),
    TrailingToken(String),
    MissingArgument,
}

/// The mathematical value of a `Command`.
pub enum SpecCommand {
    Logout,
    ListMails,
    ListUnreadMails,
    ReadMail(int),
    WriteMail,
    ReplyToMail(int),
    Help,
    CommandHelp(Seq<char>),
}

/// The mathematical value of a `ParseError`.
pub enum SpecParseError {
    EmptyInput,
    UnrecognizedCommand(Seq<char>),
    InvalidMailId(Seq<char>),
    TrailingToken(Seq<char>),
    MissingArgument,
}

impl View for Command {
    type V = SpecCommand;

    open spec fn view(&self) -> SpecCommand {
        match self {
            Command::Logout => SpecCommand::Logout,
            Command::ListMails => SpecCommand::ListMails,
            Command::ListUnreadMails => SpecCommand::ListUnreadMails,
            Command::ReadMail(id) => SpecCommand::ReadMail(*id as int),
            Command::WriteMail => SpecCommand::WriteMail,
            Command::ReplyToMail(id) => SpecCommand::ReplyToMail(*id as int),
            Command::Help => SpecCommand::Help,
            Command::CommandHelp(name) => SpecCommand::CommandHelp(name@),
        }
    }
}

impl View for ParseError {
    type V = SpecParseError;

    open spec fn view(&self) -> SpecParseError {
        match self {
            ParseError::EmptyInput => SpecParseError::EmptyInput,
            ParseError::UnrecognizedCommand(t) => SpecParseError::UnrecognizedCommand(t@),
            ParseError::InvalidMailId(t) => SpecParseError::InvalidMailId(t@),
            ParseError::TrailingToken(t) => SpecParseError::TrailingToken(t@),
            ParseError::MissingArgument => SpecParseError::MissingArgument,
        }
    }
}

/// The result of `Command::parse`, as a mathematical value.
pub open spec fn parse_result_view(r: Result<Command, ParseError>) -> Result<
    SpecCommand,
    SpecParseError,
> {
    match r {
        Ok(c) => Ok(c@),
        Err(e) => Err(e@),
    }
}

/// Splits a line on single spaces; consecutive separators are not collapsed,
/// so an empty token between two spaces is preserved.
pub open spec fn split_tokens(s: Seq<char>) -> Seq<Seq<char>>
    decreases s.len(),
{
    if s.len() == 0 {
        seq![Seq::<char>::empty()]
    } else if s.last() == ' ' {
        split_tokens(s.drop_last()).push(Seq::<char>::empty())
    } else {
        let rest = split_tokens(s.drop_last());
        rest.update(rest.len() - 1, rest.last().push(s.last()))
    }
}

/// The token list of a raw line: no tokens at all for an empty line, else
/// the line split on spaces.
pub open spec fn tokens_of(s: Seq<char>) -> Seq<Seq<char>> {
    if s.len() == 0 {
        Seq::empty()
    } else {
        split_tokens(s)
    }
}

/// The views of a sequence of string slices.
pub open spec fn views_of(tokens: Seq<&str>) -> Seq<Seq<char>> {
    tokens.map_values(|t: &str| t@)
}

proof fn lemma_split_tokens_len(s: Seq<char>)
    ensures
        split_tokens(s).len() >= 1,
    decreases s.len(),
{
    if s.len() > 0 {
        lemma_split_tokens_len(s.drop_last());
    }
}

/// `c` is a decimal digit.
pub open spec fn is_digit_char(c: char) -> bool {
    '0' as u32 <= c as u32 && c as u32 <= '9' as u32
}

/// The numeric value of the digit `c`.
pub open spec fn digit_val(c: char) -> int {
    c as u32 - '0' as u32
}

/// `t` is one or more decimal digits and nothing else.
pub open spec fn all_digits(t: Seq<char>) -> bool {
    t.len() > 0 && forall|i: int| 0 <= i < t.len() ==> is_digit_char(#[trigger] t[i])
}

/// The value of a digit string, most significant digit first.
pub open spec fn digits_val(t: Seq<char>) -> int
    decreases t.len(),
{
    if t.len() == 0 {
        0
    } else {
        digits_val(t.drop_last()) * 10 + digit_val(t.last())
    }
}

/// `t` without its leading sign, if it carries one.
pub open spec fn unsigned_part(t: Seq<char>) -> Seq<char> {
    if t.len() > 0 && (t[0] == '+' || t[0] == '-') {
        t.skip(1)
    } else {
        t
    }
}

/// The signed value of an integer literal.
pub open spec fn int_token_val(t: Seq<char>) -> int {
    if t.len() > 0 && t[0] == '-' {
        -digits_val(unsigned_part(t))
    } else {
        digits_val(unsigned_part(t))
    }
}

/// `t` is a mail id literal: an optional sign, then digits, with a value
/// that fits the mail id type.
pub open spec fn valid_mail_id_token(t: Seq<char>) -> bool {
    all_digits(unsigned_part(t)) && i32::MIN <= int_token_val(t) <= i32::MAX
}

proof fn lemma_digits_val_nonneg(t: Seq<char>)
    requires
        forall|i: int| 0 <= i < t.len() ==> is_digit_char(#[trigger] t[i]),
    ensures
        digits_val(t) >= 0,
    decreases t.len(),
{
    if t.len() > 0 {
        lemma_digits_val_nonneg(t.drop_last());
    }
}

proof fn lemma_digits_val_prefix_le(t: Seq<char>, n: int)
    requires
        0 <= n <= t.len(),
        forall|i: int| 0 <= i < t.len() ==> is_digit_char(#[trigger] t[i]),
    ensures
        digits_val(t.subrange(0, n)) <= digits_val(t),
    decreases t.len() - n,
{
    if n == t.len() {
        assert(t.subrange(0, n) =~= t);
    } else {
        assert(t.subrange(0, n + 1).drop_last() =~= t.subrange(0, n));
        lemma_digits_val_nonneg(t.subrange(0, n));
        lemma_digits_val_prefix_le(t, n + 1);
    }
}

#[verifier::loop_isolation(false)]
fn parse_mail_id(t: &str) -> (r: Option<i32>)
    ensures
        r is Some <==> valid_mail_id_token(t@),
        match r {
            Some(v) => v as int == int_token_val(t@),
            None => true,
        },
{
    let len = t.unicode_len();
    if len == 0 {
        return None;
    }
    let c0 = t.get_char(0);
    let neg = c0 == '-';
    let signed = neg || c0 == '+';
    let start: usize = if signed {
        1
    } else {
        0
    };
    let ghost up = unsigned_part(t@);
    proof {
        assert(up =~= t@.skip(start as int));
    }
    if start == len {
        return None;
    }
    let mut i: usize = start;
    while i < len
        invariant
            start <= i <= len,
            len == t@.len(),
            forall|k: int| start <= k < i ==> is_digit_char(#[trigger] t@[k]),
        decreases len - i,
    {
        let c = t.get_char(i);
        if (c as u32) < ('0' as u32) || (c as u32) > ('9' as u32) {
            proof {
                assert(up[(i - start) as int] == t@[i as int]);
                assert(!all_digits(up));
            }
            return None;
        }
        i += 1;
    }
    proof {
        assert forall|k: int| 0 <= k < up.len() implies is_digit_char(#[trigger] up[k]) by {
            assert(up[k] == t@[k + start as int]);
        }
        assert(all_digits(up));
    }
    let limit: u64 = if neg {
        2147483648
    } else {
        2147483647
    };
    let mut acc: u64 = 0;
    let mut i: usize = start;
    proof {
        assert(t@.subrange(start as int, start as int) =~= Seq::<char>::empty());
    }
    while i < len
        invariant
            start <= i <= len,
            len == t@.len(),
            acc <= limit,
            acc as int == digits_val(t@.subrange(start as int, i as int)),
        decreases len - i,
    {
        let c = t.get_char(i);
        let d: u64 = ((c as u32) - ('0' as u32)) as u64;
        let next: u64 = acc * 10 + d;
        proof {
            assert(t@.subrange(start as int, i as int + 1).drop_last() =~= t@.subrange(
                start as int,
                i as int,
            ));
            assert(t@.subrange(start as int, i as int + 1).last() == t@[i as int]);
        }
        if next > limit {
            proof {
                assert(up.subrange(0, i - start as int + 1) =~= t@.subrange(
                    start as int,
                    i as int + 1,
                ));
                lemma_digits_val_prefix_le(up, i - start as int + 1);
            }
            return None;
        }
        acc = next;
        i += 1;
    }
    proof {
        assert(t@.subrange(start as int, len as int) =~= up);
    }
    if neg {
        if acc == 2147483648 {
            Some(i32::MIN)
        } else {
            Some(-(acc as i32))
        }
    } else {
        Some(acc as i32)
    }
}

proof fn lemma_views_push(tokens: Seq<&str>, t: &str)
    ensures
        views_of(tokens.push(t)) == views_of(tokens).push(t@),
{
    assert(views_of(tokens.push(t)) =~~= views_of(tokens).push(t@));
}

#[verifier::loop_isolation(false)]
fn tokenize<'a>(text: &'a str) -> (tokens: Vec<&'a str>)
    ensures
        views_of(tokens@) == tokens_of(text@),
{
    let len = text.unicode_len();
    let mut tokens: Vec<&'a str> = Vec::new();
    if len == 0 {
        proof {
            assert(views_of(tokens@) =~~= tokens_of(text@));
        }
        return tokens;
    }
    let mut start: usize = 0;
    let mut i: usize = 0;
    proof {
        assert(text@.subrange(0, 0) =~= Seq::<char>::empty());
        assert(views_of(tokens@).push(text@.subrange(0, 0)) =~~= split_tokens(
            text@.subrange(0, 0),
        ));
    }
    while i < len
        invariant
            start <= i <= len,
            views_of(tokens@).push(text@.subrange(start as int, i as int)) == split_tokens(
                text@.subrange(0, i as int),
            ),
        decreases len - i,
    {
        let ghost pre_tokens = tokens@;
        let ghost s_i = text@.subrange(0, i as int);
        let ghost s_i1 = text@.subrange(0, i as int + 1);
        proof {
            assert(s_i1.drop_last() =~= s_i);
            assert(s_i1.last() == text@[i as int]);
        }
        let c = text.get_char(i);
        if c == ' ' {
            let tok = text.substring_char(start, i);
            tokens.push(tok);
            proof {
                lemma_views_push(pre_tokens, tok);
                assert(text@.subrange(i as int + 1, i as int + 1) =~= Seq::<char>::empty());
                assert(views_of(tokens@).push(text@.subrange(i as int + 1, i as int + 1))
                    =~~= split_tokens(s_i1));
            }
            start = i + 1;
        } else {
            proof {
                let r = split_tokens(s_i);
                lemma_split_tokens_len(s_i);
                assert(r.last() == text@.subrange(start as int, i as int));
                assert(text@.subrange(start as int, i as int).push(text@[i as int]) =~= text@
                    .subrange(start as int, i as int + 1));
                assert(r.update(r.len() - 1, r.last().push(text@[i as int])) =~~= views_of(
                    tokens@,
                ).push(text@.subrange(start as int, i as int + 1)));
            }
        }
        i += 1;
    }
    let ghost pre_tokens = tokens@;
    let tok = text.substring_char(start, len);
    tokens.push(tok);
    proof {
        lemma_views_push(pre_tokens, tok);
        assert(text@.subrange(0, len as int) =~= text@);
    }
    tokens
}

/// `name` is one of the six command words.
pub open spec fn spec_is_command_name(t: Seq<char>) -> bool {
    ||| t == "logout"@
    ||| t == "list"@
    ||| t == "read"@
    ||| t == "write"@
    ||| t == "reply"@
    ||| t == "help"@
}

fn is_command_name(t: &str) -> (r: bool)
    ensures
        r == spec_is_command_name(t@),
{
    str_eq(t, "logout") || str_eq(t, "list") || str_eq(t, "read") || str_eq(t, "write") || str_eq(
        t,
        "reply",
    ) || str_eq(t, "help")
}

/// The command `c` if the grammar consumed the whole line (`n` tokens);
/// else the first unconsumed token is a trailing-token error.
pub open spec fn spec_expect_end(c: SpecCommand, toks: Seq<Seq<char>>, n: int) -> Result<
    SpecCommand,
    SpecParseError,
> {
    if toks.len() > n {
        Err(SpecParseError::TrailingToken(toks[n]))
    } else {
        Ok(c)
    }
}

/// A `read` or `reply` line after its first token: a mail id must follow
/// and nothing may follow the id.
pub open spec fn spec_id_command(toks: Seq<Seq<char>>, reply: bool) -> Result<
    SpecCommand,
    SpecParseError,
> {
    if toks.len() == 1 {
        Err(SpecParseError::MissingArgument)
    } else if !valid_mail_id_token(toks[1]) {
        Err(SpecParseError::InvalidMailId(toks[1]))
    } else if toks.len() > 2 {
        Err(SpecParseError::TrailingToken(toks[2]))
    } else if reply {
        Ok(SpecCommand::ReplyToMail(int_token_val(toks[1])))
    } else {
        Ok(SpecCommand::ReadMail(int_token_val(toks[1])))
    }
}

/// The grammar: the first token selects the command, each command accepts
/// a fixed set of following tokens, and a bare `list` means `list unread`.
pub open spec fn spec_parse(s: Seq<char>) -> Result<SpecCommand, SpecParseError> {
    let toks = tokens_of(s);
    if toks.len() == 0 {
        Err(SpecParseError::EmptyInput)
    } else if toks[0] == "logout"@ {
        spec_expect_end(SpecCommand::Logout, toks, 1)
    } else if toks[0] == "list"@ {
        if toks.len() == 1 {
            Ok(SpecCommand::ListUnreadMails)
        } else if toks[1] == "mails"@ {
            spec_expect_end(SpecCommand::ListMails, toks, 2)
        } else if toks[1] == "unread"@ {
            spec_expect_end(SpecCommand::ListUnreadMails, toks, 2)
        } else {
            Err(SpecParseError::TrailingToken(toks[1]))
        }
    } else if toks[0] == "read"@ {
        spec_id_command(toks, false)
    } else if toks[0] == "write"@ {
        spec_expect_end(SpecCommand::WriteMail, toks, 1)
    } else if toks[0] == "reply"@ {
        spec_id_command(toks, true)
    } else if toks[0] == "help"@ {
        if toks.len() == 1 {
            Ok(SpecCommand::Help)
        } else if spec_is_command_name(toks[1]) {
            spec_expect_end(SpecCommand::CommandHelp(toks[1]), toks, 2)
        } else {
            Err(SpecParseError::TrailingToken(toks[1]))
        }
    } else {
        Err(SpecParseError::UnrecognizedCommand(toks[0]))
    }
}

impl Command {
    fn expect_end(c: Command, tokens: &Vec<&str>, n: usize) -> (r: Result<Command, ParseError>)
        ensures
            parse_result_view(r) == spec_expect_end(c@, views_of(tokens@), n as int),
    {
        if tokens.len() > n {
            Err(ParseError::TrailingToken(tokens[n].to_owned()))
        } else {
            Ok(c)
        }
    }

    fn id_command(tokens: &Vec<&str>, reply: bool) -> (r: Result<Command, ParseError>)
        requires
            tokens@.len() >= 1,
        ensures
            parse_result_view(r) == spec_id_command(views_of(tokens@), reply),
    {
        if tokens.len() == 1 {
            return Err(ParseError::MissingArgument);
        }
        let t1 = tokens[1];
        match parse_mail_id(t1) {
            None => Err(ParseError::InvalidMailId(t1.to_owned())),
            Some(v) => {
                if tokens.len() > 2 {
                    Err(ParseError::TrailingToken(tokens[2].to_owned()))
                } else if reply {
                    Ok(Command::ReplyToMail(v))
                } else {
                    Ok(Command::ReadMail(v))
                }
            },
        }
    }

    /// Parses one raw line into a command, or says exactly why it is not
    /// one. Pure: no state, no side effects.
    pub fn parse(line: &str) -> (r: Result<Command, ParseError>)
        ensures
            parse_result_view(r) == spec_parse(line@),
    {
        let tokens = tokenize(line);
        if tokens.len() == 0 {
            return Err(ParseError::EmptyInput);
        }
        let t0 = tokens[0];
        if str_eq(t0, "logout") {
            Self::expect_end(Command::Logout, &tokens, 1)
        } else if str_eq(t0, "list") {
            if tokens.len() == 1 {
                Ok(Command::ListUnreadMails)
            } else {
                let t1 = tokens[1];
                if str_eq(t1, "mails") {
                    Self::expect_end(Command::ListMails, &tokens, 2)
                } else if str_eq(t1, "unread") {
                    Self::expect_end(Command::ListUnreadMails, &tokens, 2)
                } else {
                    Err(ParseError::TrailingToken(t1.to_owned()))
                }
            }
        } else if str_eq(t0, "read") {
            Self::id_command(&tokens, false)
        } else if str_eq(t0, "write") {
            Self::expect_end(Command::WriteMail, &tokens, 1)
        } else if str_eq(t0, "reply") {
            Self::id_command(&tokens, true)
        } else if str_eq(t0, "help") {
            if tokens.len() == 1 {
                Ok(Command::Help)
            } else {
                let t1 = tokens[1];
                if is_command_name(t1) {
                    Self::expect_end(Command::CommandHelp(t1.to_owned()), &tokens, 2)
                } else {
                    Err(ParseError::TrailingToken(t1.to_owned()))
                }
            }
        } else {
            Err(ParseError::UnrecognizedCommand(t0.to_owned()))
        }
    }
}

fn str_eq(a: &str, b: &str) -> (r: bool)
    ensures
        r == (a@ == b@),
{
    let la = a.unicode_len();
    let lb = b.unicode_len();
    if la != lb {
        return false;
    }
    let mut i: usize = 0;
    while i < la
        invariant
            i <= la,
            la == a@.len(),
            la == b@.len(),
            forall|k: int| 0 <= k < i ==> a@[k] == b@[k],
        decreases la - i,
    {
        if a.get_char(i) != b.get_char(i) {
            return false;
        }
        i += 1;
    }
    proof {
        assert(a@ =~= b@);
    }
    true
}

} // verus!
