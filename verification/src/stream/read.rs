//! Reading the stream.
//!
//! Strict, in the way historica's own parsers are strict: a stream this accepts
//! is one git wrote, and anything else is refused with the line it went wrong
//! on and what would have been right. A converter that guessed at a line it did
//! not understand would produce a history nobody asked for, and the person
//! holding it would have no way to tell.
//!
//! Every function here is proved to read exactly what the grammar in
//! [`super::grammar`] says, line number of every refusal included.

use vstd::prelude::*;

use super::grammar;
use super::grammar::{measure, piece, state_ok, State};
use super::quote::{unquote, Unquoted};
use super::text::{
    all_hex, begins, digit, end_without_spaces, starts_with, find, hex_digit, read_i64, read_u64, read_usize,
    rfind, same, slice, start_without_spaces, trimmed, word,
};
use super::write::lit;
use super::{
    option_text, option_view, Blob, Change, ChangeView, Command, CommandView, Commit, Content,
    DataRef, DataRefView, Mark, Mode, Person, Reset, Signature, Tag,
};
use crate::bytes::{ascii, chars_of, copy, extend, text_of};

verus! {


// ---------------------------------------------------------------------------
// What a refusal says
// ---------------------------------------------------------------------------

/// A command a frontend sends to git, which cannot come out of `git
/// fast-export`.
#[derive(Debug, Clone, Copy, PartialEq, Eq, Structural)]
pub enum Asked {
    /// `checkpoint`.
    Checkpoint,
    /// `get-mark`.
    GetMark,
    /// `cat-blob`.
    CatBlob,
    /// `ls`.
    Ls,
    /// `alias`.
    Alias,
}

/// Which kind of change line a refusal is about.
#[derive(Debug, Clone, Copy, PartialEq, Eq, Structural)]
pub enum Which {
    /// `M`.
    M,
    /// `N`.
    N,
    /// `R`.
    R,
    /// `C`.
    C,
}

/// What was wrong with a `Name <email> <seconds> <offset>`.
#[derive(Debug, Clone, Copy, PartialEq, Eq, Structural)]
pub enum Malformed {
    /// No `>` closing an address.
    NoClose,
    /// No `<` opening an address.
    NoOpen,
    /// The time states no offset.
    NoOffset,
    /// The seconds are not a number.
    Seconds,
    /// The offset is not `+HHMM` or `-HHMM`.
    NotHhmm,
    /// The offset has no sign.
    NoSign,
}

/// Why a stream was refused.
#[derive(Debug, Clone, PartialEq, Eq)]
pub enum Fault {
    /// A command a frontend sends to git.
    Frontend(Asked),
    /// A first word that is no command: the word.
    UnknownCommand(Vec<u8>),
    /// A commit with no `committer`.
    NoCommitter,
    /// A tag with no `from`.
    TagWithoutFrom,
    /// The stream ended where a `data` was expected.
    NoData,
    /// Something other than `data` where it was expected: its first word.
    ExpectedData(Vec<u8>),
    /// The stream ended before a delimited `data`'s delimiter: the delimiter.
    Undelimited(Vec<u8>),
    /// A `data` whose count is not a number: what it said.
    NotACount(Vec<u8>),
    /// The stream ended short of the count a `data` promised: the count.
    Short(usize),
    /// A `mark` naming an object ID: the ID.
    NotAMark(String),
    /// A `:` followed by no mark number: what followed.
    NotAMarkNumber(Vec<u8>),
    /// A reference that is neither a mark nor hex: what it said.
    NamesNothing(Vec<u8>),
    /// A mode git does not state.
    NotAMode(Vec<u8>),
    /// A quoted path that does not read.
    Quoting(Unquoted),
    /// A rename or copy with one path.
    OnePath(Which),
    /// A change line that ended early: which, and the text left.
    EndedEarly(Which, Vec<u8>),
    /// A person and a time that is not one: the text, and what was wrong.
    NotAPerson(Vec<u8>, Malformed),
}

/// A [`Fault`], as a contract speaks of it.
pub enum FaultView {
    Frontend(Asked),
    UnknownCommand(Seq<u8>),
    NoCommitter,
    TagWithoutFrom,
    NoData,
    ExpectedData(Seq<u8>),
    Undelimited(Seq<u8>),
    NotACount(Seq<u8>),
    Short(usize),
    NotAMark(Seq<char>),
    NotAMarkNumber(Seq<u8>),
    NamesNothing(Seq<u8>),
    NotAMode(Seq<u8>),
    Quoting(Unquoted),
    OnePath(Which),
    EndedEarly(Which, Seq<u8>),
    NotAPerson(Seq<u8>, Malformed),
}

impl View for Fault {
    type V = FaultView;

    open spec fn view(&self) -> FaultView {
        match self {
            Fault::Frontend(asked) => FaultView::Frontend(*asked),
            Fault::UnknownCommand(word) => FaultView::UnknownCommand(word@),
            Fault::NoCommitter => FaultView::NoCommitter,
            Fault::TagWithoutFrom => FaultView::TagWithoutFrom,
            Fault::NoData => FaultView::NoData,
            Fault::ExpectedData(word) => FaultView::ExpectedData(word@),
            Fault::Undelimited(delimiter) => FaultView::Undelimited(delimiter@),
            Fault::NotACount(text) => FaultView::NotACount(text@),
            Fault::Short(count) => FaultView::Short(*count),
            Fault::NotAMark(oid) => FaultView::NotAMark(oid@),
            Fault::NotAMarkNumber(text) => FaultView::NotAMarkNumber(text@),
            Fault::NamesNothing(text) => FaultView::NamesNothing(text@),
            Fault::NotAMode(text) => FaultView::NotAMode(text@),
            Fault::Quoting(why) => FaultView::Quoting(*why),
            Fault::OnePath(which) => FaultView::OnePath(*which),
            Fault::EndedEarly(which, text) => FaultView::EndedEarly(*which, text@),
            Fault::NotAPerson(text, why) => FaultView::NotAPerson(text@, *why),
        }
    }
}

/// A stream this reader would not read.
#[derive(Debug)]
pub struct Error {
    /// The line the trouble is on, counting from one.
    pub line: usize,
    /// What was wrong.
    pub fault: Fault,
}

/// A refusal, as a contract speaks of it: the line and the fault.
pub type Refusal = (usize, FaultView);

impl View for Error {
    type V = Refusal;

    open spec fn view(&self) -> Refusal {
        (self.line, self.fault@)
    }
}



/// Whether an executed result is the one the grammar states: the same value,
/// taken by `view`, and the same place after; or the same refusal.
pub open spec fn agrees<A, B>(
    r: Result<(A, State), Error>,
    t: Result<(B, State), Refusal>,
    view: spec_fn(A) -> B,
) -> bool {
    match r {
        Ok((a, s1)) => t == Ok::<(B, State), Refusal>((view(a), s1)),
        Err(e) => t == Err::<(B, State), Refusal>(e@),
    }
}

// ---------------------------------------------------------------------------
// Lines
// ---------------------------------------------------------------------------

/// The next line: the one put back, or the bytes up to the next newline.
fn take_line(input: &[u8], s: State) -> (r: (Option<(usize, usize)>, State))
    requires
        state_ok(input@, s),
    ensures
        r == grammar::take_line(input@, s),
{
    match s.pending {
        Some(span) => (Some(span), State { at: s.at, line: s.line, pending: None }),
        None => {
            if s.at >= input.len() {
                (None, s)
            } else {
                let end = find(input, s.at, 0x0a);
                let at = if end < input.len() {
                    end + 1
                } else {
                    input.len()
                };
                (Some((s.at, end)), State { at, line: s.line + 1, pending: None })
            }
        },
    }
}

/// The next line if it starts with `prefix` — the span of what follows the
/// prefix — and nothing taken if it does not.
fn optional_field(input: &[u8], s: State, prefix: &[u8]) -> (r: (Option<(usize, usize)>, State))
    requires
        state_ok(input@, s),
    ensures
        r == grammar::optional_field(input@, s, prefix@),
{
    let (taken, s1) = take_line(input, s);
    proof {
        grammar::lemma_take_line(input@, s);
    }
    match taken {
        None => (None, s1),
        Some(span) => {
            let line = slice(input, span.0, span.1);
            if begins(&line, prefix) {
                (Some((span.0 + prefix.len(), span.1)), s1)
            } else {
                (None, State { at: s1.at, line: s1.line, pending: Some(span) })
            }
        },
    }
}

/// The newline git writes after a data block, taken if it is there.
fn skip_newline(input: &[u8], s: State) -> (s1: State)
    requires
        input@.len() <= usize::MAX,
        s.line <= s.at <= input@.len(),
    ensures
        s1 == grammar::skip_newline(input@, s),
{
    if s.at < input.len() && input[s.at] == 0x0a {
        State { at: s.at + 1, line: s.line + 1, pending: None }
    } else {
        s
    }
}

/// How many newlines `bytes` holds.
fn count_newlines(bytes: &[u8]) -> (n: usize)
    ensures
        n == grammar::newlines(bytes@),
{
    let mut n: usize = 0;
    let mut at: usize = 0;
    while at < bytes.len()
        invariant
            at <= bytes@.len(),
            n == grammar::newlines(bytes@.subrange(0, at as int)),
            n <= at,
        decreases bytes@.len() - at,
    {
        assert(bytes@.subrange(0, at + 1).drop_last() == bytes@.subrange(0, at as int));
        if bytes[at] == 0x0a {
            n = n + 1;
        }
        at = at + 1;
    }
    assert(bytes@.subrange(0, bytes@.len() as int) == bytes@);
    n
}

/// The lines up to `delimiter`, each with its newline.
fn delimited(input: &[u8], s: State, delimiter: &[u8]) -> (r: Result<(Vec<u8>, State), Error>)
    requires
        state_ok(input@, s),
        s.pending is None,
    ensures
        agrees(r, grammar::delimited(input@, s, delimiter@, Seq::empty()), |v: Vec<u8>| v@),
{
    let mut out: Vec<u8> = Vec::new();
    let mut here = s;
    loop
        invariant
            state_ok(input@, here),
            here.pending is None,
            grammar::delimited(input@, here, delimiter@, out@) == grammar::delimited(
                input@,
                s,
                delimiter@,
                Seq::empty(),
            ),
        decreases input@.len() - here.at,
    {
        let (taken, s1) = take_line(input, here);
        proof {
            grammar::lemma_take_line(input@, here);
        }
        match taken {
            None => {
                return Err(Error { line: s1.line, fault: Fault::Undelimited(copy(delimiter)) });
            },
            Some(span) => {
                let line = slice(input, span.0, span.1);
                if same(&line, delimiter) {
                    return Ok((out, s1));
                }
                let ghost before = out@;
                extend(&mut out, &line);
                out.push(0x0a);
                assert(out@ == before + piece(input@, span) + seq![0x0au8]);
                here = s1;
            },
        }
    }
}

/// `data <n>` and the bytes after it, or `data <<DELIM` and the lines up to
/// the delimiter.
///
/// The counted form is what git writes and the only one that can carry
/// arbitrary bytes; the delimited form is accepted because the format has it
/// and a stream written by hand is likely to use it.
fn data(input: &[u8], s: State) -> (r: Result<(Vec<u8>, State), Error>)
    requires
        state_ok(input@, s),
    ensures
        agrees(r, grammar::data(input@, s), |v: Vec<u8>| v@),
{
    let (taken, s1) = take_line(input, s);
    proof {
        grammar::lemma_take_line(input@, s);
    }
    match taken {
        None => Err(Error { line: s1.line, fault: Fault::NoData }),
        Some(span) => {
            let line = slice(input, span.0, span.1);
            let prefix = "data ".as_bytes();
            if !begins(&line, prefix) {
                return Err(Error { line: s1.line, fault: Fault::ExpectedData(word(&line)) });
            }
            let rest = slice(&line, prefix.len(), line.len());
            let open = "<<".as_bytes();
            if begins(&rest, open) {
                let delimiter = slice(&rest, open.len(), rest.len());
                return delimited(input, s1, &delimiter);
            }
            assert(rest@.subrange(0, rest@.len() as int) == rest@);
            match read_usize(&rest, 0, rest.len()) {
                None => Err(Error { line: s1.line, fault: Fault::NotACount(rest) }),
                Some(count) => {
                    if count > input.len() - s1.at {
                        Err(Error { line: s1.line, fault: Fault::Short(count) })
                    } else {
                        let bytes = slice(input, s1.at, s1.at + count);
                        let n = count_newlines(&bytes);
                        proof {
                            grammar::lemma_newlines_bounded(bytes@);
                        }
                        let s2 = State { at: s1.at + count, line: s1.line + n, pending: None };
                        Ok((bytes, skip_newline(input, s2)))
                    }
                },
            }
        },
    }
}


/// Whether an executed piece is the one the grammar states, as [`agrees`] is
/// for whole steps.
pub open spec fn settles<A, B>(
    r: Result<A, Fault>,
    t: Result<B, FaultView>,
    view: spec_fn(A) -> B,
) -> bool {
    match r {
        Ok(a) => t == Ok::<B, FaultView>(view(a)),
        Err(f) => t == Err::<B, FaultView>(f@),
    }
}

// ---------------------------------------------------------------------------
// The pieces a command is made of
// ---------------------------------------------------------------------------

/// Whether every byte of `text` is a hexadecimal digit.
fn hex_only(text: &[u8]) -> (all: bool)
    ensures
        all == all_hex(text@),
{
    let mut at: usize = 0;
    while at < text.len()
        invariant
            at <= text@.len(),
            forall|i: int| 0 <= i < at ==> hex_digit(#[trigger] text@[i]),
        decreases text@.len() - at,
    {
        let byte = text[at];
        if !((0x30 <= byte && byte <= 0x39) || (0x61 <= byte && byte <= 0x66) || (0x41 <= byte
            && byte <= 0x46)) {
            assert(!hex_digit(text@[at as int]));
            return false;
        }
        at = at + 1;
    }
    true
}

/// `:7`, or a hex object ID.
fn data_ref(text: &[u8]) -> (r: Result<DataRef, Fault>)
    ensures
        settles(r, grammar::data_ref(text@), |d: DataRef| d@),
{
    let colon = ":".as_bytes();
    if begins(text, colon) {
        let number = slice(text, colon.len(), text.len());
        assert(number@.subrange(0, number@.len() as int) == number@);
        return match read_u64(&number, 0, number.len()) {
            Some(n) => Ok(DataRef::Mark(Mark(n))),
            None => Err(Fault::NotAMarkNumber(number)),
        };
    }
    assert(text@.subrange(0, text@.len() as int) == text@);
    let (head, tail) = trimmed(text, 0, text.len());
    let kept = slice(text, head, tail);
    if kept.len() > 0 && hex_only(&kept) {
        proof {
            assert forall|i: int| 0 <= i < kept@.len() implies #[trigger] kept@[i] < 128 by {
                assert(hex_digit(kept@[i]));
            }
        }
        Ok(DataRef::Oid(text_of(&kept)))
    } else {
        Err(Fault::NamesNothing(kept))
    }
}

/// The mode a line states.
fn mode_of(text: &[u8]) -> (mode: Option<Mode>)
    ensures
        mode == grammar::mode_of(text@),
{
    if same(text, "100644".as_bytes()) || same(text, "644".as_bytes()) {
        Some(Mode::File)
    } else if same(text, "100755".as_bytes()) || same(text, "755".as_bytes()) {
        Some(Mode::Executable)
    } else if same(text, "120000".as_bytes()) {
        Some(Mode::Symlink)
    } else if same(text, "160000".as_bytes()) {
        Some(Mode::Gitlink)
    } else if same(text, "040000".as_bytes()) {
        Some(Mode::Directory)
    } else {
        None
    }
}

/// A path, raw or quoted, and the offset just past it.
fn path(text: &[u8], stop_at_space: bool) -> (r: Result<(Vec<u8>, usize), Fault>)
    ensures
        settles(r, grammar::path(text@, stop_at_space), |p: (Vec<u8>, usize)| (p.0@, p.1 as int)),
{
    if text.len() > 0 && text[0] == 0x22 {
        return match unquote(text) {
            Ok((bytes, end)) => Ok((bytes, end)),
            Err(why) => Err(Fault::Quoting(why)),
        };
    }
    if stop_at_space {
        let end = find(text, 0, 0x20);
        Ok((slice(text, 0, end), end))
    } else {
        Ok((copy(text), text.len()))
    }
}

/// A source and a destination, the source quoted if it holds a space.
fn two_paths(text: &[u8], which: Which) -> (r: Result<(Vec<u8>, Vec<u8>), Fault>)
    ensures
        settles(r, grammar::two_paths(text@, which), |p: (Vec<u8>, Vec<u8>)| (p.0@, p.1@)),
{
    let (source, past) = match path(text, true) {
        Ok(found) => found,
        Err(fault) => return Err(fault),
    };
    let rest = if past <= text.len() {
        slice(text, past, text.len())
    } else {
        Vec::new()
    };
    let space = " ".as_bytes();
    if !begins(&rest, space) {
        return Err(Fault::OnePath(which));
    }
    let tail = slice(&rest, space.len(), rest.len());
    match path(&tail, false) {
        Ok((destination, _)) => Ok((source, destination)),
        Err(fault) => Err(fault),
    }
}

/// The text before the first space and after it.
fn split_once(text: &[u8], which: Which) -> (r: Result<(Vec<u8>, Vec<u8>), Fault>)
    ensures
        settles(r, grammar::split_once(text@, which), |p: (Vec<u8>, Vec<u8>)| (p.0@, p.1@)),
{
    let at = find(text, 0, 0x20);
    if at < text.len() {
        Ok((slice(text, 0, at), slice(text, at + 1, text.len())))
    } else {
        Err(Fault::EndedEarly(which, copy(text)))
    }
}

/// `+0530` and `-0700`: a sign, two digits of hours, two of minutes.
fn offset(text: &[u8]) -> (r: Result<i32, Malformed>)
    ensures
        r == grammar::offset(text@),
{
    assert(text@.subrange(0, text@.len() as int) == text@);
    let cut = end_without_spaces(text, text.len());
    let t = slice(text, 0, cut);
    let ghost digits = t@.subrange(1, 5);
    if t.len() != 5 {
        return Err(Malformed::NotHhmm);
    }
    let is_digit = 0x30 <= t[1] && t[1] <= 0x39 && 0x30 <= t[2] && t[2] <= 0x39 && 0x30 <= t[3]
        && t[3] <= 0x39 && 0x30 <= t[4] && t[4] <= 0x39;
    proof {
        if is_digit {
            assert forall|i: int| 0 <= i < digits.len() implies digit(#[trigger] digits[i]) by {
                assert(digits[i] == t@[i + 1]);
            }
        } else {
            assert(!digit(digits[0]) || !digit(digits[1]) || !digit(digits[2]) || !digit(
                digits[3],
            ));
        }
    }
    if !is_digit {
        return Err(Malformed::NotHhmm);
    }
    if t[0] != 0x2b && t[0] != 0x2d {
        return Err(Malformed::NoSign);
    }
    let hours: i32 = (t[1] - 0x30) as i32 * 10 + (t[2] - 0x30) as i32;
    let minutes: i32 = (t[3] - 0x30) as i32 * 10 + (t[4] - 0x30) as i32;
    let size: i32 = hours * 60 + minutes;
    if t[0] == 0x2b {
        Ok(size)
    } else {
        Ok(-size)
    }
}

/// `Name <email> <seconds> <offset>`.
fn person(text: &[u8]) -> (r: Result<Person, Fault>)
    ensures
        settles(r, grammar::person(text@), |p: Person| p@),
{
    let close = match rfind(text, text.len(), 0x3e) {
        Some(close) => close,
        None => return Err(Fault::NotAPerson(copy(text), Malformed::NoClose)),
    };
    let open = match rfind(text, close, 0x3c) {
        Some(open) => open,
        None => return Err(Fault::NotAPerson(copy(text), Malformed::NoOpen)),
    };
    let after_close = slice(text, close + 1, text.len());
    assert(after_close@.subrange(0, after_close@.len() as int) == after_close@);
    let start = start_without_spaces(&after_close, 0);
    let when = slice(&after_close, start, after_close.len());
    let split = find(&when, 0, 0x20);
    if split >= when.len() {
        return Err(Fault::NotAPerson(copy(text), Malformed::NoOffset));
    }
    let seconds = match read_i64(&when, 0, split) {
        Some(seconds) => seconds,
        None => return Err(Fault::NotAPerson(copy(text), Malformed::Seconds)),
    };
    let zone_start = start_without_spaces(&when, split);
    let zone = slice(&when, zone_start, when.len());
    let offset_minutes = match offset(&zone) {
        Ok(minutes) => minutes,
        Err(why) => return Err(Fault::NotAPerson(copy(text), why)),
    };
    let name_end = end_without_spaces(text, open);
    Ok(
        Person {
            name: slice(text, 0, name_end),
            email: slice(text, open + 1, close),
            seconds,
            offset_minutes,
        },
    )
}

/// Content named, or carried by `inline` and the data block after the line.
fn content(input: &[u8], s: State, text: &[u8]) -> (r: Result<(Content, State), Error>)
    requires
        state_ok(input@, s),
    ensures
        agrees(r, grammar::content(input@, s, text@), |c: Content| c@),
{
    if same(text, "inline".as_bytes()) {
        match data(input, s) {
            Ok((bytes, s1)) => Ok((Content::Inline(bytes), s1)),
            Err(e) => Err(e),
        }
    } else {
        match data_ref(text) {
            Ok(named) => Ok((Content::Named(named), s)),
            Err(fault) => Err(Error { line: s.line, fault }),
        }
    }
}


/// One line of a commit's change list, or nothing if the line is not one.
fn change(input: &[u8], s: State, line: &[u8]) -> (r: Result<(Option<Change>, State), Error>)
    requires
        state_ok(input@, s),
    ensures
        agrees(r, grammar::change(input@, s, line@), |c: Option<Change>| option_view(c)),
{
    if same(line, "deleteall".as_bytes()) {
        return Ok((Some(Change::DeleteAll), s));
    }
    let m = "M ".as_bytes();
    if begins(line, m) {
        let rest = slice(line, m.len(), line.len());
        let (mode_text, rest) = match split_once(&rest, Which::M) {
            Ok(split) => split,
            Err(fault) => return Err(Error { line: s.line, fault }),
        };
        let mode = match mode_of(&mode_text) {
            Some(mode) => mode,
            None => return Err(Error { line: s.line, fault: Fault::NotAMode(mode_text) }),
        };
        let (reference, rest) = match split_once(&rest, Which::M) {
            Ok(split) => split,
            Err(fault) => return Err(Error { line: s.line, fault }),
        };
        let (content, s1) = match content(input, s, &reference) {
            Ok(found) => found,
            Err(e) => return Err(e),
        };
        return match path(&rest, false) {
            Ok((path, _)) => Ok((Some(Change::Modify { mode, content, path }), s1)),
            Err(fault) => Err(Error { line: s1.line, fault }),
        };
    }
    let d = "D ".as_bytes();
    if begins(line, d) {
        let rest = slice(line, d.len(), line.len());
        return match path(&rest, false) {
            Ok((path, _)) => Ok((Some(Change::Delete { path }), s)),
            Err(fault) => Err(Error { line: s.line, fault }),
        };
    }
    let r = "R ".as_bytes();
    if begins(line, r) {
        let rest = slice(line, r.len(), line.len());
        return match two_paths(&rest, Which::R) {
            Ok((source, destination)) => Ok((Some(Change::Rename { source, destination }), s)),
            Err(fault) => Err(Error { line: s.line, fault }),
        };
    }
    let c = "C ".as_bytes();
    if begins(line, c) {
        let rest = slice(line, c.len(), line.len());
        return match two_paths(&rest, Which::C) {
            Ok((source, destination)) => Ok((Some(Change::Copy { source, destination }), s)),
            Err(fault) => Err(Error { line: s.line, fault }),
        };
    }
    let n = "N ".as_bytes();
    if begins(line, n) {
        let rest = slice(line, n.len(), line.len());
        let (reference, commit) = match split_once(&rest, Which::N) {
            Ok(split) => split,
            Err(fault) => return Err(Error { line: s.line, fault }),
        };
        let (content, s1) = match content(input, s, &reference) {
            Ok(found) => found,
            Err(e) => return Err(e),
        };
        return match data_ref(&commit) {
            Ok(commit) => Ok((Some(Change::Note { content, commit }), s1)),
            Err(fault) => Err(Error { line: s1.line, fault }),
        };
    }
    Ok((None, s))
}

// ---------------------------------------------------------------------------
// Optional lines
// ---------------------------------------------------------------------------

/// `mark :<n>`, if that is the next line.
fn optional_mark(input: &[u8], s: State) -> (r: Result<(Option<Mark>, State), Error>)
    requires
        state_ok(input@, s),
    ensures
        agrees(r, grammar::optional_mark(input@, s), |m: Option<Mark>| m),
{
    let (field, s1) = optional_field(input, s, "mark ".as_bytes());
    proof {
        grammar::lemma_optional_field(input@, s, lit("mark "));
    }
    match field {
        None => Ok((None, s1)),
        Some(span) => match data_ref(&slice(input, span.0, span.1)) {
            Ok(DataRef::Mark(mark)) => Ok((Some(mark), s1)),
            Ok(DataRef::Oid(oid)) => Err(Error { line: s1.line, fault: Fault::NotAMark(oid) }),
            Err(fault) => Err(Error { line: s1.line, fault }),
        },
    }
}

/// `original-oid <oid>`, if that is the next line: what follows, as text.
fn optional_oid(input: &[u8], s: State) -> (r: (Option<String>, State))
    requires
        state_ok(input@, s),
    ensures
        (option_text(r.0), r.1) == grammar::optional_oid(input@, s),
{
    let (field, s1) = optional_field(input, s, "original-oid ".as_bytes());
    proof {
        grammar::lemma_optional_field(input@, s, lit("original-oid "));
    }
    match field {
        None => (None, s1),
        Some(span) => (Some(text_of(&slice(input, span.0, span.1))), s1),
    }
}

/// A person line with `prefix`, if that is the next line.
fn optional_person(input: &[u8], s: State, prefix: &[u8]) -> (r: Result<
    (Option<Person>, State),
    Error,
>)
    requires
        state_ok(input@, s),
    ensures
        agrees(r, grammar::optional_person(input@, s, prefix@), |p: Option<Person>| option_view(p)),
{
    let (field, s1) = optional_field(input, s, prefix);
    proof {
        grammar::lemma_optional_field(input@, s, prefix@);
    }
    match field {
        None => Ok((None, s1)),
        Some(span) => match person(&slice(input, span.0, span.1)) {
            Ok(who) => Ok((Some(who), s1)),
            Err(fault) => Err(Error { line: s1.line, fault }),
        },
    }
}

/// A reference line with `prefix`, if that is the next line.
fn optional_ref(input: &[u8], s: State, prefix: &[u8]) -> (r: Result<
    (Option<DataRef>, State),
    Error,
>)
    requires
        state_ok(input@, s),
    ensures
        agrees(r, grammar::optional_ref(input@, s, prefix@), |d: Option<DataRef>| option_view(d)),
{
    let (field, s1) = optional_field(input, s, prefix);
    proof {
        grammar::lemma_optional_field(input@, s, prefix@);
    }
    match field {
        None => Ok((None, s1)),
        Some(span) => match data_ref(&slice(input, span.0, span.1)) {
            Ok(named) => Ok((Some(named), s1)),
            Err(fault) => Err(Error { line: s1.line, fault }),
        },
    }
}

/// `encoding <name>`, if that is the next line.
fn optional_encoding(input: &[u8], s: State) -> (r: (Option<Vec<u8>>, State))
    requires
        state_ok(input@, s),
    ensures
        (option_view(r.0), r.1) == grammar::optional_encoding(input@, s),
{
    let (field, s1) = optional_field(input, s, "encoding ".as_bytes());
    proof {
        grammar::lemma_optional_field(input@, s, lit("encoding "));
    }
    match field {
        None => (None, s1),
        Some(span) => (Some(slice(input, span.0, span.1)), s1),
    }
}

/// `gpgsig <kind>` and its data block, if that is the next line.
///
/// After `encoding` and before the message, which is where git writes it. A
/// `gpgsig` with no data block after it is a truncated commit rather than a
/// signature this reader can skip.
fn optional_signature(input: &[u8], s: State) -> (r: Result<(Option<Signature>, State), Error>)
    requires
        state_ok(input@, s),
    ensures
        agrees(r, grammar::optional_signature(input@, s), |g: Option<Signature>| option_view(g)),
{
    let (field, s1) = optional_field(input, s, "gpgsig ".as_bytes());
    proof {
        grammar::lemma_optional_field(input@, s, lit("gpgsig "));
    }
    match field {
        None => Ok((None, s1)),
        Some(span) => {
            let kind = slice(input, span.0, span.1);
            match data(input, s1) {
                Ok((bytes, s2)) => Ok((Some(Signature { kind, data: bytes }), s2)),
                Err(e) => Err(e),
            }
        },
    }
}

// ---------------------------------------------------------------------------
// Repeated lines
// ---------------------------------------------------------------------------

/// `merge` lines, as many as follow.
fn merges(input: &[u8], s: State) -> (r: Result<(Vec<DataRef>, State), Error>)
    requires
        state_ok(input@, s),
    ensures
        agrees(
            r,
            grammar::merges(input@, s, Seq::empty()),
            |v: Vec<DataRef>| v@.map_values(|d: DataRef| d@),
        ),
{
    let mut out: Vec<DataRef> = Vec::new();
    let mut here = s;
    assert(out@.map_values(|d: DataRef| d@) == Seq::<DataRefView>::empty());
    loop
        invariant
            state_ok(input@, here),
            grammar::merges(input@, here, out@.map_values(|d: DataRef| d@)) == grammar::merges(
                input@,
                s,
                Seq::empty(),
            ),
        decreases measure(input@, here),
    {
        let (field, s1) = optional_field(input, here, "merge ".as_bytes());
        proof {
            grammar::lemma_optional_field(input@, here, lit("merge "));
        }
        match field {
            None => return Ok((out, s1)),
            Some(span) => match data_ref(&slice(input, span.0, span.1)) {
                Err(fault) => return Err(Error { line: s1.line, fault }),
                Ok(named) => {
                    let ghost before = out@.map_values(|d: DataRef| d@);
                    out.push(named);
                    assert(out@.map_values(|d: DataRef| d@) == before.push(named@));
                    here = s1;
                },
            },
        }
    }
}

/// Change lines, until a blank line, the end, or a line that is not one.
fn changes(input: &[u8], s: State) -> (r: Result<(Vec<Change>, State), Error>)
    requires
        state_ok(input@, s),
    ensures
        agrees(
            r,
            grammar::changes(input@, s, Seq::empty()),
            |v: Vec<Change>| v@.map_values(|c: Change| c@),
        ),
{
    let mut out: Vec<Change> = Vec::new();
    let mut here = s;
    assert(out@.map_values(|c: Change| c@) == Seq::<ChangeView>::empty());
    loop
        invariant
            state_ok(input@, here),
            grammar::changes(input@, here, out@.map_values(|c: Change| c@)) == grammar::changes(
                input@,
                s,
                Seq::empty(),
            ),
        decreases measure(input@, here),
    {
        let (taken, s1) = take_line(input, here);
        proof {
            grammar::lemma_take_line(input@, here);
        }
        match taken {
            None => return Ok((out, s1)),
            Some(span) => {
                if span.0 == span.1 {
                    return Ok((out, s1));
                }
                let line = slice(input, span.0, span.1);
                proof {
                    grammar::lemma_change(input@, s1, line@);
                }
                match change(input, s1, &line) {
                    Err(e) => return Err(e),
                    Ok((None, s2)) => {
                        return Ok((out, State { at: s2.at, line: s2.line, pending: Some(span) }));
                    },
                    Ok((Some(one), s2)) => {
                        let ghost before = out@.map_values(|c: Change| c@);
                        out.push(one);
                        assert(out@.map_values(|c: Change| c@) == before.push(one@));
                        here = s2;
                    },
                }
            },
        }
    }
}


// ---------------------------------------------------------------------------
// Commands
// ---------------------------------------------------------------------------

/// `blob`, after its first line.
fn blob(input: &[u8], s: State) -> (r: Result<(Blob, State), Error>)
    requires
        state_ok(input@, s),
    ensures
        agrees(r, grammar::blob(input@, s), |b: Blob| b@),
{
    let (mark, s1) = match optional_mark(input, s) {
        Ok(found) => found,
        Err(e) => return Err(e),
    };
    proof {
        grammar::lemma_optional_mark(input@, s);
    }
    let (original_oid, s2) = optional_oid(input, s1);
    proof {
        grammar::lemma_optional_oid(input@, s1);
    }
    match data(input, s2) {
        Ok((bytes, s3)) => Ok((Blob { mark, original_oid, data: bytes }, s3)),
        Err(e) => Err(e),
    }
}

/// `commit <ref>`, after its first line.
fn commit(input: &[u8], s: State, reference: Vec<u8>) -> (r: Result<(Commit, State), Error>)
    requires
        state_ok(input@, s),
    ensures
        agrees(r, grammar::commit(input@, s, reference@), |c: Commit| c@),
{
    let (mark, s1) = match optional_mark(input, s) {
        Ok(found) => found,
        Err(e) => return Err(e),
    };
    proof {
        grammar::lemma_optional_mark(input@, s);
    }
    let (original_oid, s2) = optional_oid(input, s1);
    proof {
        grammar::lemma_optional_oid(input@, s1);
    }
    let (author, s3) = match optional_person(input, s2, "author ".as_bytes()) {
        Ok(found) => found,
        Err(e) => return Err(e),
    };
    proof {
        grammar::lemma_optional_person(input@, s2, lit("author "));
    }
    let (committer, s4) = match optional_person(input, s3, "committer ".as_bytes()) {
        Ok((Some(committer), s4)) => (committer, s4),
        Ok((None, s4)) => return Err(Error { line: s4.line, fault: Fault::NoCommitter }),
        Err(e) => return Err(e),
    };
    proof {
        grammar::lemma_optional_person(input@, s3, lit("committer "));
    }
    let (encoding, s5) = optional_encoding(input, s4);
    proof {
        grammar::lemma_optional_encoding(input@, s4);
    }
    let (signature, s6) = match optional_signature(input, s5) {
        Ok(found) => found,
        Err(e) => return Err(e),
    };
    proof {
        grammar::lemma_optional_signature(input@, s5);
    }
    let (message, s7) = match data(input, s6) {
        Ok(found) => found,
        Err(e) => return Err(e),
    };
    proof {
        grammar::lemma_data(input@, s6);
    }
    let (from, s8) = match optional_ref(input, s7, "from ".as_bytes()) {
        Ok(found) => found,
        Err(e) => return Err(e),
    };
    proof {
        grammar::lemma_optional_ref(input@, s7, lit("from "));
    }
    let (merged, s9) = match merges(input, s8) {
        Ok(found) => found,
        Err(e) => return Err(e),
    };
    proof {
        grammar::lemma_merges(input@, s8, Seq::empty());
    }
    let (changed, s10) = match changes(input, s9) {
        Ok(found) => found,
        Err(e) => return Err(e),
    };
    let made = Commit {
        reference,
        mark,
        original_oid,
        author,
        committer,
        encoding,
        signature,
        message,
        from,
        merges: merged,
        changes: changed,
    };
    Ok((made, s10))
}

/// `tag <name>`, after its first line.
fn tag(input: &[u8], s: State, name: Vec<u8>) -> (r: Result<(Tag, State), Error>)
    requires
        state_ok(input@, s),
    ensures
        agrees(r, grammar::tag(input@, s, name@), |t: Tag| t@),
{
    let (mark, s1) = match optional_mark(input, s) {
        Ok(found) => found,
        Err(e) => return Err(e),
    };
    proof {
        grammar::lemma_optional_mark(input@, s);
    }
    let (from, s2) = match optional_ref(input, s1, "from ".as_bytes()) {
        Ok((Some(from), s2)) => (from, s2),
        Ok((None, s2)) => return Err(Error { line: s2.line, fault: Fault::TagWithoutFrom }),
        Err(e) => return Err(e),
    };
    proof {
        grammar::lemma_optional_ref(input@, s1, lit("from "));
    }
    let (original_oid, s3) = optional_oid(input, s2);
    proof {
        grammar::lemma_optional_oid(input@, s2);
    }
    let (tagger, s4) = match optional_person(input, s3, "tagger ".as_bytes()) {
        Ok(found) => found,
        Err(e) => return Err(e),
    };
    proof {
        grammar::lemma_optional_person(input@, s3, lit("tagger "));
    }
    match data(input, s4) {
        Ok((message, s5)) => Ok((Tag { name, mark, from, original_oid, tagger, message }, s5)),
        Err(e) => Err(e),
    }
}

/// `reset <ref>`, after its first line.
fn reset(input: &[u8], s: State, reference: Vec<u8>) -> (r: Result<(Reset, State), Error>)
    requires
        state_ok(input@, s),
    ensures
        agrees(r, grammar::reset(input@, s, reference@), |t: Reset| t@),
{
    match optional_ref(input, s, "from ".as_bytes()) {
        Ok((from, s1)) => Ok((Reset { reference, from }, s1)),
        Err(e) => Err(e),
    }
}

/// A command a frontend sends to git, if the line is one.
///
/// They cannot come out of `git fast-export`, and reading one would mean
/// answering it.
fn asked(line: &[u8]) -> (which: Option<Asked>)
    ensures
        which == grammar::asked(line@),
{
    if begins(line, "checkpoint".as_bytes()) {
        Some(Asked::Checkpoint)
    } else if begins(line, "get-mark ".as_bytes()) {
        Some(Asked::GetMark)
    } else if begins(line, "cat-blob ".as_bytes()) {
        Some(Asked::CatBlob)
    } else if begins(line, "ls ".as_bytes()) {
        Some(Asked::Ls)
    } else if begins(line, "alias".as_bytes()) {
        Some(Asked::Alias)
    } else {
        None
    }
}

/// What follows `prefix` in `line`.
fn after(line: &[u8], prefix: &[u8]) -> (rest: Vec<u8>)
    requires
        starts_with(line@, prefix@),
    ensures
        rest@ == grammar::after(line@, prefix@),
{
    slice(line, prefix.len(), line.len())
}

/// The command a line begins.
fn command(input: &[u8], s: State, line: &[u8]) -> (r: Result<(Command, State), Error>)
    requires
        state_ok(input@, s),
    ensures
        agrees(r, grammar::command(input@, s, line@), |c: Command| c@),
{
    if same(line, "blob".as_bytes()) {
        return match blob(input, s) {
            Ok((b, s1)) => Ok((Command::Blob(b), s1)),
            Err(e) => Err(e),
        };
    }
    if same(line, "done".as_bytes()) {
        return Ok((Command::Done, s));
    }
    let word_commit = "commit ".as_bytes();
    if begins(line, word_commit) {
        return match commit(input, s, after(line, word_commit)) {
            Ok((c, s1)) => Ok((Command::Commit(c), s1)),
            Err(e) => Err(e),
        };
    }
    let word_tag = "tag ".as_bytes();
    if begins(line, word_tag) {
        return match tag(input, s, after(line, word_tag)) {
            Ok((t, s1)) => Ok((Command::Tag(t), s1)),
            Err(e) => Err(e),
        };
    }
    let word_reset = "reset ".as_bytes();
    if begins(line, word_reset) {
        return match reset(input, s, after(line, word_reset)) {
            Ok((t, s1)) => Ok((Command::Reset(t), s1)),
            Err(e) => Err(e),
        };
    }
    let word_progress = "progress ".as_bytes();
    if begins(line, word_progress) {
        return Ok((Command::Progress(after(line, word_progress)), s));
    }
    let word_feature = "feature ".as_bytes();
    if begins(line, word_feature) {
        return Ok((Command::Feature(after(line, word_feature)), s));
    }
    let word_option = "option ".as_bytes();
    if begins(line, word_option) {
        return Ok((Command::Option(after(line, word_option)), s));
    }
    match asked(line) {
        Some(which) => Err(Error { line: s.line, fault: Fault::Frontend(which) }),
        None => Err(Error { line: s.line, fault: Fault::UnknownCommand(word(line)) }),
    }
}

/// The next line that is not blank.
fn next_line(input: &[u8], s: State) -> (r: (Option<(usize, usize)>, State))
    requires
        state_ok(input@, s),
    ensures
        r == grammar::next_line(input@, s),
{
    let mut here = s;
    loop
        invariant
            state_ok(input@, here),
            grammar::next_line(input@, here) == grammar::next_line(input@, s),
        decreases measure(input@, here),
    {
        let (taken, s1) = take_line(input, here);
        proof {
            grammar::lemma_take_line(input@, here);
        }
        match taken {
            None => return (None, s1),
            Some(span) => {
                if span.0 != span.1 {
                    return (Some(span), s1);
                }
                here = s1;
            },
        }
    }
}

/// The next command from where a reader stands, or nothing at the end of the
/// stream.
pub fn read_at(input: &[u8], s: State) -> (r: Result<(Option<Command>, State), Error>)
    requires
        state_ok(input@, s),
    ensures
        agrees(r, grammar::spec_read(input@, s), |c: Option<Command>| option_view(c)),
        r matches Ok((_, s1)) ==> state_ok(input@, s1),
{
    proof {
        grammar::lemma_read(input@, s);
        grammar::lemma_next_line(input@, s);
    }
    let (taken, s1) = next_line(input, s);
    match taken {
        None => Ok((None, s1)),
        Some(span) => {
            let line = slice(input, span.0, span.1);
            match command(input, s1, &line) {
                Ok((c, s2)) => Ok((Some(c), s2)),
                Err(e) => Err(e),
            }
        },
    }
}

/// Reads a fast-import stream, one command at a time.
pub struct Reader {
    input: Vec<u8>,
    state: State,
}

impl Reader {
    /// The stream being read.
    pub closed spec fn text(&self) -> Seq<u8> {
        self.input@
    }

    /// Where the reader stands in it.
    pub closed spec fn place(&self) -> State {
        self.state
    }

    #[verifier::type_invariant]
    spec fn inside(&self) -> bool {
        state_ok(self.input@, self.state)
    }

    /// A reader at the start of `input`: a stream from `git fast-export`, or
    /// bytes written by hand.
    pub fn new(input: &[u8]) -> (reader: Reader)
        ensures
            reader.text() == input@,
            reader.place() == grammar::start(),
    {
        let _ = input.len();
        Reader { input: copy(input), state: State { at: 0, line: 0, pending: None } }
    }

    /// The next command, or `None` at the end of the stream.
    pub fn read(&mut self) -> (r: Result<Option<Command>, Error>)
        ensures
            final(self).text() == old(self).text(),
            match (r, grammar::spec_read(old(self).text(), old(self).place())) {
                (Ok(found), Ok((expected, s1))) => option_view(found) == expected
                    && final(self).place() == s1,
                (Err(e), Err(refusal)) => e@ == refusal,
                _ => false,
            },
    {
        proof {
            use_type_invariant(&*self);
        }
        match read_at(&self.input, self.state) {
            Ok((found, s1)) => {
                self.state = s1;
                Ok(found)
            },
            Err(e) => Err(e),
        }
    }

    /// Every command left in the stream, or the first refusal.
    pub fn read_all(&mut self) -> (r: Result<Vec<Command>, Error>)
        ensures
            final(self).text() == old(self).text(),
            match (r, grammar::read_all(old(self).text(), old(self).place(), Seq::empty())) {
                (Ok(found), Ok(expected)) => found@.map_values(|c: Command| c@) == expected,
                (Err(e), Err(refusal)) => e@ == refusal,
                _ => false,
            },
    {
        let mut out: Vec<Command> = Vec::new();
        let ghost start = self.place();
        proof {
            use_type_invariant(&*self);
        }
        assert(out@.map_values(|c: Command| c@) == Seq::<CommandView>::empty());
        loop
            invariant
                self.text() == old(self).text(),
                state_ok(self.text(), self.place()),
                grammar::read_all(self.text(), self.place(), out@.map_values(|c: Command| c@))
                    == grammar::read_all(self.text(), start, Seq::empty()),
                start == old(self).place(),
            decreases measure(self.text(), self.place()),
        {
            let ghost before = self.place();
            proof {
                grammar::lemma_read(self.text(), before);
            }
            match self.read() {
                Err(e) => return Err(e),
                Ok(None) => return Ok(out),
                Ok(Some(one)) => {
                    let ghost seen = out@.map_values(|c: Command| c@);
                    out.push(one);
                    assert(out@.map_values(|c: Command| c@) == seen.push(one@));
                },
            }
            proof {
                use_type_invariant(&*self);
            }
        }
    }
}

} // verus!

verus! {

// ---------------------------------------------------------------------------
// What a refusal says
// ---------------------------------------------------------------------------

/// The name of a command a frontend sends to git.
pub open spec fn asked_name(asked: Asked) -> Seq<char> {
    match asked {
        Asked::Checkpoint => "checkpoint"@,
        Asked::GetMark => "get-mark"@,
        Asked::CatBlob => "cat-blob"@,
        Asked::Ls => "ls"@,
        Asked::Alias => "alias"@,
    }
}

/// How a person names a change line.
pub open spec fn which_line(which: Which) -> Seq<char> {
    match which {
        Which::M => "a `M` line"@,
        Which::N => "a `N` line"@,
        Which::R => "a `R` line"@,
        Which::C => "a `C` line"@,
    }
}

/// What was wrong with a person and a time.
pub open spec fn malformed_said(why: Malformed) -> Seq<char> {
    match why {
        Malformed::NoClose => "no `>` closing an address"@,
        Malformed::NoOpen => "no `<` opening an address"@,
        Malformed::NoOffset => "the time states no offset"@,
        Malformed::Seconds => "the seconds are not a number"@,
        Malformed::NotHhmm => "the offset is not `+HHMM` or `-HHMM`"@,
        Malformed::NoSign => "the offset has no sign"@,
    }
}

/// What a quoted path that does not read says.
pub open spec fn unquoted_said(u: Unquoted) -> Seq<char> {
    match u {
        Unquoted::Unterminated => "quoted path has no closing `\"`"@,
        Unquoted::DanglingEscape => "quoted path ends in a `\\` that escapes nothing"@,
        Unquoted::UnknownEscape(byte) => seq!['`', '\\', byte as char]
            + "` is not an escape this format has — the escapes are \\a \\b \\f \\n \\r \\t \\v \\\\ \\\" and \\ooo"@,
    }
}

pub const FRONTEND: &'static str = "` is a command a frontend sends to git, and this reads what git sends — a stream containing it did not come from `git fast-export`";

pub const NOT_A_COMMAND: &'static str = "` is not a command this stream has";

pub const NO_COMMITTER: &'static str = "a commit must state a `committer` — git writes one on every commit, even when the author is the same person";

pub const TAG_WITHOUT_FROM: &'static str = "a `tag` must state what it tags with `from` — a tag of nothing is not something git can be given";

pub const NO_DATA: &'static str = "the stream ended where a `data` was expected";

pub const EXPECTED_DATA: &'static str = "expected `data`, found `";

pub const UNDELIMITED: &'static str = "the stream ended before the delimiter `";

pub const UNDELIMITED_ENDS: &'static str = "` this `data` opened with";

pub const NOT_A_COUNT: &'static str = "`data ";

pub const NOT_A_COUNT_ENDS: &'static str = "` does not state a byte count — it is either `data <n>` or `data <<DELIMITER`";

pub const SHORT: &'static str = "the stream ended ";

pub const SHORT_ENDS: &'static str = " bytes short of what this `data` promised";

pub const NOT_A_MARK: &'static str = "`mark ";

pub const NOT_A_MARK_ENDS: &'static str = "` is not a mark — a mark is `:` and a number";

pub const NOT_A_MARK_NUMBER: &'static str = "`:";

pub const NOT_A_MARK_NUMBER_ENDS: &'static str = "` is not a mark number";

pub const NAMES_NOTHING: &'static str = "` names nothing — it is either `:` and a mark number, or an object ID in hex";

pub const NOT_A_MODE: &'static str = "` is not a mode git states — they are 100644, 100755, 120000, 160000, and 040000";

pub const ONE_PATH: &'static str = " states one path and needs two — a source and a destination, the source quoted if it holds a space";

pub const ENDED_EARLY: &'static str = " ended early: `";

pub const NOT_A_PERSON: &'static str = "` is not a person and a time: ";

pub const THE_SHAPE: &'static str = " — the shape is `Name <email> <seconds> <offset>`";

/// What a fault says.
pub open spec fn fault_said(fault: FaultView) -> Seq<char> {
    let tick = seq!['`'];
    match fault {
        FaultView::Frontend(asked) => tick + asked_name(asked) + FRONTEND@,
        FaultView::UnknownCommand(word) => tick + crate::bytes::lossy(word) + NOT_A_COMMAND@,
        FaultView::NoCommitter => NO_COMMITTER@,
        FaultView::TagWithoutFrom => TAG_WITHOUT_FROM@,
        FaultView::NoData => NO_DATA@,
        FaultView::ExpectedData(word) => EXPECTED_DATA@ + crate::bytes::lossy(word) + tick,
        FaultView::Undelimited(d) => UNDELIMITED@ + crate::bytes::lossy(d) + UNDELIMITED_ENDS@,
        FaultView::NotACount(t) => NOT_A_COUNT@ + crate::bytes::lossy(t) + NOT_A_COUNT_ENDS@,
        FaultView::Short(n) => SHORT@ + chars_of(crate::stream::write::decimal(n as nat)) + SHORT_ENDS@,
        FaultView::NotAMark(oid) => NOT_A_MARK@ + oid + NOT_A_MARK_ENDS@,
        FaultView::NotAMarkNumber(t) => NOT_A_MARK_NUMBER@ + crate::bytes::lossy(t)
            + NOT_A_MARK_NUMBER_ENDS@,
        FaultView::NamesNothing(t) => tick + crate::bytes::lossy(t) + NAMES_NOTHING@,
        FaultView::NotAMode(t) => tick + crate::bytes::lossy(t) + NOT_A_MODE@,
        FaultView::Quoting(u) => unquoted_said(u),
        FaultView::OnePath(which) => which_line(which) + ONE_PATH@,
        FaultView::EndedEarly(which, t) => which_line(which) + ENDED_EARLY@ + crate::bytes::lossy(t)
            + tick,
        FaultView::NotAPerson(t, why) => tick + crate::bytes::lossy(t) + NOT_A_PERSON@
            + malformed_said(why) + THE_SHAPE@,
    }
}

/// What a refusal says: the line, and what was wrong there.
pub open spec fn refusal_said(r: Refusal) -> Seq<char> {
    "line "@ + chars_of(crate::stream::write::decimal(r.0 as nat)) + ": "@ + fault_said(r.1)
}

/// What a fault says is never shorter than three characters.
pub proof fn lemma_fault_said(fault: FaultView)
    ensures
        fault_said(fault).len() >= 3,
{
    reveal_strlit("` is a command a frontend sends to git, and this reads what git sends — a stream containing it did not come from `git fast-export`");
    reveal_strlit("` is not a command this stream has");
    reveal_strlit("a commit must state a `committer` — git writes one on every commit, even when the author is the same person");
    reveal_strlit("a `tag` must state what it tags with `from` — a tag of nothing is not something git can be given");
    reveal_strlit("the stream ended where a `data` was expected");
    reveal_strlit("expected `data`, found `");
    reveal_strlit("the stream ended before the delimiter `");
    reveal_strlit("`data ");
    reveal_strlit("the stream ended ");
    reveal_strlit("`mark ");
    reveal_strlit("`:");
    reveal_strlit("` is not a mark number");
    reveal_strlit("` names nothing — it is either `:` and a mark number, or an object ID in hex");
    reveal_strlit("` is not a mode git states — they are 100644, 100755, 120000, 160000, and 040000");
    reveal_strlit(" states one path and needs two — a source and a destination, the source quoted if it holds a space");
    reveal_strlit(" ended early: `");
    reveal_strlit("` is not a person and a time: ");
    reveal_strlit("quoted path has no closing `\"`");
    reveal_strlit("quoted path ends in a `\\` that escapes nothing");
    reveal_strlit("` is not an escape this format has — the escapes are \\a \\b \\f \\n \\r \\t \\v \\\\ \\\" and \\ooo");
    match fault {
        FaultView::Quoting(u) => {},
        _ => {},
    }
}

/// A stream read from its start is refused, if at all, at a line it has —
/// the first line being line 1 — and in words: the refusal says `line <n>: `
/// and then what was wrong, never under three characters, so that the whole
/// says more than `line 1: no`.
pub proof fn every_refusal_names_its_line_and_what_was_wrong(input: Seq<u8>)
    requires
        input.len() <= usize::MAX,
    ensures
        grammar::read_all(input, grammar::start(), Seq::empty()) matches Err(refusal) ==> refusal.0
            >= 1 && fault_said(refusal.1).len() > 0 && refusal_said(refusal) == "line "@
            + chars_of(crate::stream::write::decimal(refusal.0 as nat)) + ": "@ + fault_said(
            refusal.1,
        ) && refusal_said(refusal).len() > "line 1: no"@.len(),
{
    grammar::a_refusal_names_a_line_of_the_stream(input);
    if let Err(refusal) = grammar::read_all(input, grammar::start(), Seq::empty()) {
        lemma_fault_said(refusal.1);
        reveal_strlit("line ");
        reveal_strlit(": ");
        reveal_strlit("line 1: no");
        assert(crate::stream::write::decimal(refusal.0 as nat).len() >= 1);
    }
}

impl Asked {
    fn name(self) -> (name: &'static str)
        ensures
            name@ == asked_name(self),
    {
        match self {
            Asked::Checkpoint => "checkpoint",
            Asked::GetMark => "get-mark",
            Asked::CatBlob => "cat-blob",
            Asked::Ls => "ls",
            Asked::Alias => "alias",
        }
    }
}

impl Which {
    fn line(self) -> (line: &'static str)
        ensures
            line@ == which_line(self),
    {
        match self {
            Which::M => "a `M` line",
            Which::N => "a `N` line",
            Which::R => "a `R` line",
            Which::C => "a `C` line",
        }
    }
}

impl Malformed {
    fn said(self) -> (said: &'static str)
        ensures
            said@ == malformed_said(self),
    {
        match self {
            Malformed::NoClose => "no `>` closing an address",
            Malformed::NoOpen => "no `<` opening an address",
            Malformed::NoOffset => "the time states no offset",
            Malformed::Seconds => "the seconds are not a number",
            Malformed::NotHhmm => "the offset is not `+HHMM` or `-HHMM`",
            Malformed::NoSign => "the offset has no sign",
        }
    }
}

/// Calls `String::push`, which appends one character.
#[verifier::external_body]
fn push_char(text: &mut String, c: char)
    ensures
        final(text)@ == old(text)@.push(c),
{
    text.push(c);
}

/// What a quoted path that does not read says: [`unquoted_said`].
pub fn unquoted_text(u: Unquoted) -> (said: String)
    ensures
        said@ == unquoted_said(u),
{
    match u {
        Unquoted::Unterminated => "quoted path has no closing `\"`".to_owned(),
        Unquoted::DanglingEscape => "quoted path ends in a `\\` that escapes nothing".to_owned(),
        Unquoted::UnknownEscape(byte) => {
            let mut said = String::from_str("`\\");
            push_char(&mut said, byte as char);
            said.append(
                "` is not an escape this format has — the escapes are \\a \\b \\f \\n \\r \\t \\v \\\\ \\\" and \\ooo",
            );
            proof {
                reveal_strlit("`\\");
                assert(said@ =~= unquoted_said(u));
            }
            said
        },
    }
}

/// What a fault says: [`fault_said`].
fn fault_text(fault: &Fault) -> (said: String)
    ensures
        said@ == fault_said(fault@),
{
    proof {
        reveal_strlit("`");
    }
    let tick = "`";
    match fault {
        Fault::Frontend(asked) => {
            let mut s = String::from_str(tick);
            s.append(asked.name());
            s.append(FRONTEND);
            s
        },
        Fault::UnknownCommand(word) => {
            let mut s = String::from_str(tick);
            s.append(text_of(word).as_str());
            s.append(NOT_A_COMMAND);
            s
        },
        Fault::NoCommitter => NO_COMMITTER.to_owned(),
        Fault::TagWithoutFrom => TAG_WITHOUT_FROM.to_owned(),
        Fault::NoData => NO_DATA.to_owned(),
        Fault::ExpectedData(word) => {
            let mut s = String::from_str(EXPECTED_DATA);
            s.append(text_of(word).as_str());
            s.append(tick);
            s
        },
        Fault::Undelimited(d) => {
            let mut s = String::from_str(UNDELIMITED);
            s.append(text_of(d).as_str());
            s.append(UNDELIMITED_ENDS);
            s
        },
        Fault::NotACount(t) => {
            let mut s = String::from_str(NOT_A_COUNT);
            s.append(text_of(t).as_str());
            s.append(NOT_A_COUNT_ENDS);
            s
        },
        Fault::Short(n) => {
            let mut s = String::from_str(SHORT);
            s.append(crate::stream::write::decimal_text(*n as u64).as_str());
            s.append(SHORT_ENDS);
            s
        },
        Fault::NotAMark(oid) => {
            let mut s = String::from_str(NOT_A_MARK);
            s.append(oid.as_str());
            s.append(NOT_A_MARK_ENDS);
            s
        },
        Fault::NotAMarkNumber(t) => {
            let mut s = String::from_str(NOT_A_MARK_NUMBER);
            s.append(text_of(t).as_str());
            s.append(NOT_A_MARK_NUMBER_ENDS);
            s
        },
        Fault::NamesNothing(t) => {
            let mut s = String::from_str(tick);
            s.append(text_of(t).as_str());
            s.append(NAMES_NOTHING);
            s
        },
        Fault::NotAMode(t) => {
            let mut s = String::from_str(tick);
            s.append(text_of(t).as_str());
            s.append(NOT_A_MODE);
            s
        },
        Fault::Quoting(u) => unquoted_text(*u),
        Fault::OnePath(which) => {
            let mut s = String::from_str(which.line());
            s.append(ONE_PATH);
            s
        },
        Fault::EndedEarly(which, t) => {
            let mut s = String::from_str(which.line());
            s.append(ENDED_EARLY);
            s.append(text_of(t).as_str());
            s.append(tick);
            s
        },
        Fault::NotAPerson(t, why) => {
            let mut s = String::from_str(tick);
            s.append(text_of(t).as_str());
            s.append(NOT_A_PERSON);
            s.append(why.said());
            s.append(THE_SHAPE);
            s
        },
    }
}

impl Error {
    /// What went wrong, for a person to read: [`refusal_said`].
    pub fn to_string(&self) -> (message: String)
        ensures
            message@ == refusal_said(self@),
    {
        proof {
            reveal_strlit("line ");
            reveal_strlit(": ");
        }
        let mut message = String::from_str("line ");
        message.append(crate::stream::write::decimal_text(self.line as u64).as_str());
        message.append(": ");
        message.append(fault_text(&self.fault).as_str());
        message
    }
}

} // verus!
