//! Editor commands: the command forms an event argument can carry, and
//! the parser that reads an address plus a command letter from a line.

use vstd::prelude::*;

use crate::addr::addr_spec;
use crate::addr::parse_address;
use crate::addr::Address;
use crate::addr::AddrParseError;
use vstd::string::StrSliceExecFns;

verus! {

/// A fully formed editing command.
#[derive(Clone, Debug, PartialEq, Eq)]
pub enum CommandKind {
    Append(Vec<String>),
    Change(Vec<String>),
    Delete,
    Insert(Vec<String>),
    Substitute { pat: String, repl: String },
}

#[derive(Clone, Debug, PartialEq, Eq)]
pub enum Command {
    Normal { addr: Address, kind: CommandKind },
}

/// What the user asked for, before any input lines are read.
#[derive(Clone, Copy, Debug, PartialEq, Eq, Structural)]
pub enum InpCommandKind {
    Print,
    Append,
    Change,
    Delete,
    Insert,
    Substitute,
}

#[derive(Clone, Copy, Debug, PartialEq, Eq, Structural)]
pub enum CommandParseError {
    Addr(AddrParseError),
    UnknownCommand(char),
}

/// The command a letter selects.
pub open spec fn kind_of_char(c: char) -> Option<InpCommandKind> {
    if c == 'a' {
        Some(InpCommandKind::Append)
    } else if c == 'c' {
        Some(InpCommandKind::Change)
    } else if c == 'd' {
        Some(InpCommandKind::Delete)
    } else if c == 'i' {
        Some(InpCommandKind::Insert)
    } else if c == 's' {
        Some(InpCommandKind::Substitute)
    } else {
        None
    }
}

/// Parses an address followed by a command letter; a bare address prints.
pub fn parse_command(s: &str) -> (r: Result<(Address, InpCommandKind), CommandParseError>)
    ensures
        match r {
            Ok(pr) => addr_spec(s@) matches Some(ar) && pr.0@ == ar.0 && (if ar.1.len() == 0 {
                pr.1 == InpCommandKind::Print
            } else {
                kind_of_char(ar.1[0]) == Some(pr.1)
            }),
            Err(CommandParseError::Addr(_)) => addr_spec(s@) is None,
            Err(CommandParseError::UnknownCommand(c)) => addr_spec(s@) matches Some(ar)
                && ar.1.len() > 0 && ar.1[0] == c && kind_of_char(c) is None,
        },
{
    let (addr, rest) = match parse_address(s) {
        Ok(pr) => pr,
        Err(e) => {
            return Err(CommandParseError::Addr(e));
        },
    };
    let rn = rest.as_str().unicode_len();
    if rn == 0 {
        return Ok((addr, InpCommandKind::Print));
    }
    let c = rest.as_str().get_char(0);
    let kind = if c == 'a' {
        InpCommandKind::Append
    } else if c == 'c' {
        InpCommandKind::Change
    } else if c == 'd' {
        InpCommandKind::Delete
    } else if c == 'i' {
        InpCommandKind::Insert
    } else if c == 's' {
        InpCommandKind::Substitute
    } else {
        return Err(CommandParseError::UnknownCommand(c));
    };
    Ok((addr, kind))
}

} // verus!
