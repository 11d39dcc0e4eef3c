//! The command language of the command-line tool: `create(...)`, `get(...)`,
//! `delete(...)`, `update(...)`, `find(...)` with a JSON payload, and `dump()`.
use vstd::prelude::*;

use crate::bytes::same_text;
use crate::error::message;

verus! {

/// A parsed command; the payload is the JSON text between the parentheses.
pub enum Command<'a> {
    Create(&'a str),
    Get(&'a str),
    Delete(&'a str),
    Update(&'a str),
    Find(&'a str),
    Dump,
}

/// A command with its payload as characters.
pub enum CommandView {
    Create(Seq<char>),
    Get(Seq<char>),
    Delete(Seq<char>),
    Update(Seq<char>),
    Find(Seq<char>),
    Dump,
}

impl<'a> View for Command<'a> {
    type V = CommandView;

    open spec fn view(&self) -> CommandView {
        match self {
            Command::Create(p) => CommandView::Create(p@),
            Command::Get(p) => CommandView::Get(p@),
            Command::Delete(p) => CommandView::Delete(p@),
            Command::Update(p) => CommandView::Update(p@),
            Command::Find(p) => CommandView::Find(p@),
            Command::Dump => CommandView::Dump,
        }
    }
}

/// The characters with the Unicode property White_Space.
pub open spec fn is_white_space(c: char) -> bool {
    let n = c as u32;
    (0x09 <= n <= 0x0d) || n == 0x20 || n == 0x85 || n == 0xa0 || n == 0x1680 || (0x2000 <= n
        <= 0x200a) || n == 0x2028 || n == 0x2029 || n == 0x202f || n == 0x205f || n == 0x3000
}

/// `s` without its leading white space.
pub open spec fn trim_start(s: Seq<char>) -> Seq<char>
    decreases s.len(),
{
    if s.len() > 0 && is_white_space(s[0]) {
        trim_start(s.drop_first())
    } else {
        s
    }
}

/// `s` without its trailing white space.
pub open spec fn trim_end(s: Seq<char>) -> Seq<char>
    decreases s.len(),
{
    if s.len() > 0 && is_white_space(s.last()) {
        trim_end(s.drop_last())
    } else {
        s
    }
}

/// `s` without leading and trailing white space.
pub open spec fn trimmed(s: Seq<char>) -> Seq<char> {
    trim_end(trim_start(s))
}

/// The payload of `input` for a command that starts with `prefix`: `None`
/// when `input` does not start with it, an error when the closing
/// parenthesis is missing or the payload is blank.
pub open spec fn payload_of(input: Seq<char>, prefix: Seq<char>) -> Result<
    Option<Seq<char>>,
    Seq<char>,
> {
    if !prefix.is_prefix_of(input) {
        Ok(None)
    } else {
        let rest = input.skip(prefix.len() as int);
        if rest.len() == 0 || rest.last() != ')' {
            Err("command must end with ')'"@)
        } else if trimmed(rest.drop_last()).len() == 0 {
            Err("command payload must not be empty"@)
        } else {
            Ok(Some(trimmed(rest.drop_last())))
        }
    }
}

/// The command that `input` reads as, after trimming: `dump()`, or the first
/// of the prefixes `create(`, `get(`, `delete(`, `update(`, `find(` that it
/// starts with.
pub open spec fn command_of(input: Seq<char>) -> Result<CommandView, Seq<char>> {
    let t = trimmed(input);
    if t == "dump()"@ {
        Ok(CommandView::Dump)
    } else {
        match payload_of(t, "create("@) {
            Err(e) => Err(e),
            Ok(Some(p)) => Ok(CommandView::Create(p)),
            Ok(None) => match payload_of(t, "get("@) {
                Err(e) => Err(e),
                Ok(Some(p)) => Ok(CommandView::Get(p)),
                Ok(None) => match payload_of(t, "delete("@) {
                    Err(e) => Err(e),
                    Ok(Some(p)) => Ok(CommandView::Delete(p)),
                    Ok(None) => match payload_of(t, "update("@) {
                        Err(e) => Err(e),
                        Ok(Some(p)) => Ok(CommandView::Update(p)),
                        Ok(None) => match payload_of(t, "find("@) {
                            Err(e) => Err(e),
                            Ok(Some(p)) => Ok(CommandView::Find(p)),
                            Ok(None) => Err("unknown command"@),
                        },
                    },
                },
            },
        }
    }
}

/// Calls `str::trim`, which removes the leading and trailing characters with
/// the Unicode property White_Space.
#[verifier::external_body]
fn trim_str<'a>(s: &'a str) -> (r: &'a str)
    ensures
        r@ == trimmed(s@),
{
    s.trim()
}

/// Calls `str::strip_prefix`: the rest of `s` after `prefix` when `s`
/// starts with it, `None` otherwise.
#[verifier::external_body]
fn strip_prefix_str<'a>(s: &'a str, prefix: &str) -> (r: Option<&'a str>)
    ensures
        match r {
            Some(rest) => s@ == prefix@ + rest@,
            None => !prefix@.is_prefix_of(s@),
        },
{
    s.strip_prefix(prefix)
}

/// Calls `str::strip_suffix` with a character: what comes before `suffix`
/// when `s` ends with it, `None` otherwise.
#[verifier::external_body]
fn strip_suffix_char<'a>(s: &'a str, suffix: char) -> (r: Option<&'a str>)
    ensures
        match r {
            Some(rest) => s@ == rest@.push(suffix),
            None => s@.len() == 0 || s@.last() != suffix,
        },
{
    s.strip_suffix(suffix)
}

/// The payload of a command that starts with `prefix`, trimmed; `None` when
/// `input` does not start with `prefix`.
pub fn parse_payload<'a>(input: &'a str, prefix: &str) -> (r: Result<Option<&'a str>, String>)
    ensures
        match r {
            Ok(Some(p)) => payload_of(input@, prefix@) == Ok::<Option<Seq<char>>, Seq<char>>(
                Some(p@),
            ),
            Ok(None) => payload_of(input@, prefix@) == Ok::<Option<Seq<char>>, Seq<char>>(None),
            Err(e) => payload_of(input@, prefix@) == Err::<Option<Seq<char>>, Seq<char>>(e@),
        },
{
    let rest = match strip_prefix_str(input, prefix) {
        Some(rest) => rest,
        None => {
            return Ok(None);
        },
    };
    proof {
        assert(prefix@.is_prefix_of(input@));
        assert(input@.skip(prefix@.len() as int) =~= rest@);
    }
    let inner = match strip_suffix_char(rest, ')') {
        Some(inner) => inner,
        None => {
            return Err(message("command must end with ')'"));
        },
    };
    proof {
        assert(rest@.drop_last() =~= inner@);
    }
    let payload = trim_str(inner);
    if payload.is_empty() {
        return Err(message("command payload must not be empty"));
    }
    Ok(Some(payload))
}

/// Reads a command: `input` is trimmed, then read as `dump()` or as one of
/// the commands with a payload.
pub fn parse_command<'a>(input: &'a str) -> (r: Result<Command<'a>, String>)
    ensures
        match r {
            Ok(c) => command_of(input@) == Ok::<CommandView, Seq<char>>(c@),
            Err(e) => command_of(input@) == Err::<CommandView, Seq<char>>(e@),
        },
{
    let input = trim_str(input);
    if same_text(input, "dump()") {
        return Ok(Command::Dump);
    }
    match parse_payload(input, "create(") {
        Err(e) => {
            return Err(e);
        },
        Ok(Some(p)) => {
            return Ok(Command::Create(p));
        },
        Ok(None) => {},
    }
    match parse_payload(input, "get(") {
        Err(e) => {
            return Err(e);
        },
        Ok(Some(p)) => {
            return Ok(Command::Get(p));
        },
        Ok(None) => {},
    }
    match parse_payload(input, "delete(") {
        Err(e) => {
            return Err(e);
        },
        Ok(Some(p)) => {
            return Ok(Command::Delete(p));
        },
        Ok(None) => {},
    }
    match parse_payload(input, "update(") {
        Err(e) => {
            return Err(e);
        },
        Ok(Some(p)) => {
            return Ok(Command::Update(p));
        },
        Ok(None) => {},
    }
    match parse_payload(input, "find(") {
        Err(e) => {
            return Err(e);
        },
        Ok(Some(p)) => {
            return Ok(Command::Find(p));
        },
        Ok(None) => {},
    }
    Err(message("unknown command"))
}

} // verus!
