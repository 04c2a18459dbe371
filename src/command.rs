//! The command protocol: one line of space-separated tokens per command.

use vstd::prelude::*;
use vstd::string::StringSliceAdditionalSpecFns;
use crate::text::{decode_literal, literal_value, number_value, parse_digits, parse_number, radix_value, within_u64};

verus! {

/// ASCII space, the token separator.
pub const SPACE: u8 = 32;

/// Whitespace that is trimmed from both ends of a line.
pub open spec fn is_blank(c: u8) -> bool {
    c == SPACE || (9 <= c <= 13)
}

pub open spec fn trim_start(s: Seq<u8>) -> Seq<u8>
    decreases s.len(),
{
    if s.len() > 0 && is_blank(s[0]) {
        trim_start(s.drop_first())
    } else {
        s
    }
}

pub open spec fn trim_end(s: Seq<u8>) -> Seq<u8>
    decreases s.len(),
{
    if s.len() > 0 && is_blank(s.last()) {
        trim_end(s.drop_last())
    } else {
        s
    }
}

/// The pieces of `s` between single spaces; always at least one piece.
pub open spec fn split_spaces(s: Seq<u8>) -> Seq<Seq<u8>>
    decreases s.len(),
{
    if s.len() == 0 {
        seq![Seq::empty()]
    } else {
        let init = split_spaces(s.drop_last());
        if s.last() == SPACE {
            init.push(Seq::empty())
        } else {
            init.update(init.len() - 1, init.last().push(s.last()))
        }
    }
}

/// The tokens of a line: the line without surrounding whitespace, split on
/// single spaces.
pub open spec fn tokens_of(line: Seq<u8>) -> Seq<Seq<u8>> {
    split_spaces(trim_end(trim_start(line)))
}

pub open spec fn views(v: Seq<Vec<u8>>) -> Seq<Seq<u8>> {
    v.map_values(|x: Vec<u8>| x@)
}

fn is_blank_exec(c: u8) -> (r: bool)
    ensures
        r == is_blank(c),
{
    c == SPACE || (9 <= c && c <= 13)
}

/// Splits a line into its tokens.
pub fn split_tokens(b: &[u8]) -> (r: Vec<Vec<u8>>)
    ensures
        views(r@) == tokens_of(b@),
        r@.len() >= 1,
{
    let n = b.len();
    let mut lo: usize = 0;
    assert(b@.subrange(0, n as int) =~= b@);
    while lo < n && is_blank_exec(b[lo])
        invariant
            lo <= n == b@.len(),
            trim_start(b@.subrange(lo as int, n as int)) == trim_start(b@),
        decreases n - lo,
    {
        assert(b@.subrange(lo as int, n as int).drop_first() =~= b@.subrange(lo + 1, n as int));
        lo = lo + 1;
    }
    let mut hi: usize = n;
    while hi > lo && is_blank_exec(b[hi - 1])
        invariant
            lo <= hi <= n == b@.len(),
            trim_start(b@) == b@.subrange(lo as int, n as int),
            trim_end(b@.subrange(lo as int, hi as int)) == trim_end(b@.subrange(lo as int, n as int)),
        decreases hi - lo,
    {
        assert(b@.subrange(lo as int, hi as int).drop_last() =~= b@.subrange(lo as int, hi - 1));
        hi = hi - 1;
    }
    assert(trim_end(b@.subrange(lo as int, hi as int)) == b@.subrange(lo as int, hi as int));
    let mut done: Vec<Vec<u8>> = Vec::new();
    let mut cur: Vec<u8> = Vec::new();
    let mut i: usize = lo;
    assert(b@.subrange(lo as int, lo as int) =~= Seq::<u8>::empty());
    assert(views(done@).push(cur@) =~= seq![Seq::<u8>::empty()]);
    while i < hi
        invariant
            lo <= i <= hi <= n == b@.len(),
            split_spaces(b@.subrange(lo as int, i as int)) == views(done@).push(cur@),
        decreases hi - i,
    {
        let c = b[i];
        let ghost prev = b@.subrange(lo as int, i as int);
        let ghost next = b@.subrange(lo as int, i + 1);
        assert(next.drop_last() =~= prev);
        assert(next.last() == c);
        let ghost before = views(done@);
        if c == SPACE {
            done.push(cur);
            cur = Vec::new();
            assert(views(done@) =~= before.push(split_spaces(prev).last()));
            assert(split_spaces(next) =~= views(done@).push(cur@));
        } else {
            cur.push(c);
            assert(split_spaces(next) =~= views(done@).push(cur@));
        }
        i = i + 1;
    }
    let ghost before = views(done@);
    done.push(cur);
    assert(views(done@) =~= before.push(cur@));
    done
}

/// The error that a line which is no command yields.
#[derive(PartialEq, Eq, Structural, Clone, Copy, Debug)]
pub enum ParseError {
    /// The first token names no command.
    Unrecognized,
    /// The command lacks one of its tokens.
    MissingArgument,
    /// A number is malformed or out of range.
    BadNumber,
    /// A write literal is not a run of `\xHH` groups.
    BadLiteral,
}

/// A command as the operator typed it.
#[derive(Clone, Debug)]
pub enum Command {
    /// `P <pid>`: attach to a process.
    Attach(u32),
    /// `R <address> <length>`: read `length` bytes at `address`.
    Read { address: u64, length: usize },
    /// `W <address> <literal>`: write the literal's bytes at `address`.
    Write { address: u64, bytes: Vec<u8> },
}

pub enum CommandView {
    Attach(u32),
    Read(u64, usize),
    Write(u64, Seq<u8>),
}

impl View for Command {
    type V = CommandView;

    open spec fn view(&self) -> CommandView {
        match self {
            Command::Attach(pid) => CommandView::Attach(*pid),
            Command::Read { address, length } => CommandView::Read(*address, *length),
            Command::Write { address, bytes } => CommandView::Write(*address, bytes@),
        }
    }
}

pub open spec fn within_u32(v: Option<nat>) -> Option<u32> {
    match v {
        Some(n) => if n <= u32::MAX {
            Some(n as u32)
        } else {
            None
        },
        None => None,
    }
}

pub open spec fn within_usize(v: Option<nat>) -> Option<usize> {
    match v {
        Some(n) => if n <= usize::MAX {
            Some(n as usize)
        } else {
            None
        },
        None => None,
    }
}

/// ASCII `P`, `R` and `W`, the command letters.
pub const LETTER_P: u8 = 80;

pub const LETTER_R: u8 = 82;

pub const LETTER_W: u8 = 87;

/// The command that a line denotes.
pub open spec fn command_of(line: Seq<u8>) -> Result<CommandView, ParseError> {
    let t = tokens_of(line);
    if t[0] == seq![LETTER_P] {
        if t.len() < 2 {
            Err(ParseError::MissingArgument)
        } else {
            match within_u32(radix_value(t[1], 10)) {
                Some(pid) => Ok(CommandView::Attach(pid)),
                None => Err(ParseError::BadNumber),
            }
        }
    } else if t[0] == seq![LETTER_R] {
        if t.len() < 3 {
            Err(ParseError::MissingArgument)
        } else {
            match (within_u64(number_value(t[1])), within_usize(radix_value(t[2], 10))) {
                (Some(a), Some(n)) => Ok(CommandView::Read(a, n)),
                _ => Err(ParseError::BadNumber),
            }
        }
    } else if t[0] == seq![LETTER_W] {
        if t.len() < 3 {
            Err(ParseError::MissingArgument)
        } else {
            match within_u64(number_value(t[1])) {
                None => Err(ParseError::BadNumber),
                Some(a) => match literal_value(t[2]) {
                    Some(bytes) => Ok(CommandView::Write(a, bytes)),
                    None => Err(ParseError::BadLiteral),
                },
            }
        }
    } else {
        Err(ParseError::Unrecognized)
    }
}

pub open spec fn parsed_view(r: Result<Command, ParseError>) -> Result<CommandView, ParseError> {
    match r {
        Ok(c) => Ok(c@),
        Err(e) => Err(e),
    }
}

fn is_letter_token(t: &Vec<u8>, letter: u8) -> (r: bool)
    ensures
        r == (t@ == seq![letter]),
{
    if t.len() == 1 && t[0] == letter {
        assert(t@ =~= seq![letter]);
        true
    } else {
        false
    }
}

/// Parses one line of the command protocol, given as its bytes.
pub fn parse_command_bytes(b: &[u8]) -> (r: Result<Command, ParseError>)
    ensures
        parsed_view(r) == command_of(b@),
{
    let t = split_tokens(b);
    let ghost tv = tokens_of(b@);
    assert(t@[0]@ == tv[0]);
    if is_letter_token(&t[0], LETTER_P) {
        if t.len() < 2 {
            return Err(ParseError::MissingArgument);
        }
        let tok = t[1].as_slice();
        assert(tok@ == tv[1]);
        assert(tok@.subrange(0, tok@.len() as int) =~= tok@);
        match parse_digits(tok, 0, 10) {
            Some(v) => if v <= 0xffff_ffff {
                Ok(Command::Attach(v as u32))
            } else {
                Err(ParseError::BadNumber)
            },
            None => Err(ParseError::BadNumber),
        }
    } else if is_letter_token(&t[0], LETTER_R) {
        if t.len() < 3 {
            return Err(ParseError::MissingArgument);
        }
        let tok1 = t[1].as_slice();
        let tok2 = t[2].as_slice();
        assert(tok1@ == tv[1]);
        assert(tok2@ == tv[2]);
        assert(tok2@.subrange(0, tok2@.len() as int) =~= tok2@);
        let address = parse_number(tok1);
        let length = parse_digits(tok2, 0, 10);
        match (address, length) {
            (Some(a), Some(n)) => if n <= usize::MAX as u64 {
                Ok(Command::Read { address: a, length: n as usize })
            } else {
                Err(ParseError::BadNumber)
            },
            _ => Err(ParseError::BadNumber),
        }
    } else if is_letter_token(&t[0], LETTER_W) {
        if t.len() < 3 {
            return Err(ParseError::MissingArgument);
        }
        let tok1 = t[1].as_slice();
        let tok2 = t[2].as_slice();
        assert(tok1@ == tv[1]);
        assert(tok2@ == tv[2]);
        match parse_number(tok1) {
            None => Err(ParseError::BadNumber),
            Some(a) => match decode_literal(tok2) {
                Some(bytes) => Ok(Command::Write { address: a, bytes }),
                None => Err(ParseError::BadLiteral),
            },
        }
    } else {
        Err(ParseError::Unrecognized)
    }
}

/// Parses one line of the command protocol.
pub fn parse_command(line: &str) -> (r: Result<Command, ParseError>)
    ensures
        parsed_view(r) == command_of(line.spec_bytes()),
{
    parse_command_bytes(line.as_bytes())
}

} // verus!
