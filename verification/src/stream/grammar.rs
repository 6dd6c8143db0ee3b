//! The stream's grammar, stated as specification.
//!
//! Each function here says what one piece of a fast-import stream reads as,
//! from where a reader stands in its input to what it took and where it stands
//! after, or the refusal — the line and the fault — it ends in. The reader in
//! [`super::read`] is proved to follow it exactly.

use vstd::prelude::*;

use super::quote::spec_unquote;
use super::read::{Asked, FaultView, Malformed, Refusal, Which};
use super::text::{
    all_digits, all_hex, find_from, find_from_facts, first_word, parse_i64, parse_u64, parse_usize,
    rfind_before, starts_with, trim, trim_end_spaces, trim_start_spaces,
};
use super::write::lit;
use super::{
    BlobView, ChangeView, CommandView, CommitView, ContentView, DataRefView, Mark, Mode,
    PersonView, ResetView, SignatureView, TagView,
};
use crate::bytes::{chars_of, lossy};

verus! {

// ---------------------------------------------------------------------------
// Where a reader stands
// ---------------------------------------------------------------------------

/// Where a reader stands in its input.
#[derive(Debug, Clone, Copy)]
pub struct State {
    /// How far into the input the reader has taken bytes.
    pub at: usize,
    /// How many lines it has taken, counting a line put back once.
    pub line: usize,
    /// A line taken and put back: its bytes' span. One line of lookahead,
    /// since a commit ends where its change lines stop, which is only knowable
    /// by reading the line that is not one.
    pub pending: Option<(usize, usize)>,
}

/// A state that describes somewhere in `input`.
pub open spec fn state_ok(input: Seq<u8>, s: State) -> bool {
    &&& input.len() <= usize::MAX
    &&& s.line <= s.at <= input.len()
    &&& match s.pending {
        Some((a, b)) => a <= b <= s.at,
        None => true,
    }
}

/// How much input is left, counting a line put back as half a byte.
pub open spec fn measure(input: Seq<u8>, s: State) -> nat {
    ((input.len() - s.at) * 2 + if s.pending is Some { 1int } else { 0int }) as nat
}

/// The bytes a span covers.
pub open spec fn piece(input: Seq<u8>, span: (usize, usize)) -> Seq<u8> {
    input.subrange(span.0 as int, span.1 as int)
}

/// How many newlines.
pub open spec fn newlines(bytes: Seq<u8>) -> nat
    decreases bytes.len(),
{
    if bytes.len() == 0 {
        0
    } else {
        newlines(bytes.drop_last()) + if bytes.last() == 0x0a { 1nat } else { 0nat }
    }
}

// ---------------------------------------------------------------------------
// The grammar: lines
// ---------------------------------------------------------------------------

/// The next line: the one put back, or the bytes up to the next newline.
pub open spec fn take_line(input: Seq<u8>, s: State) -> (Option<(usize, usize)>, State) {
    match s.pending {
        Some(span) => (Some(span), State { at: s.at, line: s.line, pending: None }),
        None => if s.at >= input.len() {
            (None, s)
        } else {
            let end = find_from(input, s.at as int, 0x0a);
            (
                Some((s.at, end as usize)),
                State {
                    at: if end < input.len() { (end + 1) as usize } else { input.len() as usize },
                    line: (s.line + 1) as usize,
                    pending: None,
                },
            )
        },
    }
}

/// A line, put back to be taken again.
pub open spec fn put_back(s: State, span: (usize, usize)) -> State {
    State { at: s.at, line: s.line, pending: Some(span) }
}

/// The next line if it starts with `prefix` — what follows the prefix — and
/// nothing taken if it does not.
pub open spec fn optional_field(input: Seq<u8>, s: State, prefix: Seq<u8>) -> (
    Option<(usize, usize)>,
    State,
) {
    let (taken, s1) = take_line(input, s);
    match taken {
        None => (None, s1),
        Some(span) => if starts_with(piece(input, span), prefix) {
            (Some(((span.0 + prefix.len()) as usize, span.1)), s1)
        } else {
            (None, put_back(s1, span))
        },
    }
}

/// The newline git writes after a data block, taken if it is there.
pub open spec fn skip_newline(input: Seq<u8>, s: State) -> State {
    if s.at < input.len() && input[s.at as int] == 0x0a {
        State { at: (s.at + 1) as usize, line: (s.line + 1) as usize, pending: None }
    } else {
        s
    }
}

/// The lines up to a delimiter, each with its newline.
pub open spec fn delimited(input: Seq<u8>, s: State, delimiter: Seq<u8>, acc: Seq<u8>) -> Result<
    (Seq<u8>, State),
    Refusal,
>
    decreases input.len() - s.at,
    when input.len() <= usize::MAX && s.at <= input.len() && s.pending is None
{
    let (taken, s1) = take_line(input, s);
    match taken {
        None => Err((s1.line, FaultView::Undelimited(delimiter))),
        Some(span) => if piece(input, span) == delimiter {
            Ok((acc, s1))
        } else {
            proof {
                find_from_facts(input, s.at as int, 0x0a);
            }
            delimited(input, s1, delimiter, acc + piece(input, span) + seq![0x0au8])
        },
    }
}

/// `data <n>` and the bytes after it, or `data <<DELIM` and the lines up to
/// the delimiter.
pub open spec fn data(input: Seq<u8>, s: State) -> Result<(Seq<u8>, State), Refusal> {
    let (taken, s1) = take_line(input, s);
    match taken {
        None => Err((s1.line, FaultView::NoData)),
        Some(span) => {
            let content = piece(input, span);
            if !starts_with(content, lit("data ")) {
                Err((s1.line, FaultView::ExpectedData(first_word(content))))
            } else {
                let rest = content.subrange(lit("data ").len() as int, content.len() as int);
                if starts_with(rest, lit("<<")) {
                    delimited(
                        input,
                        s1,
                        rest.subrange(lit("<<").len() as int, rest.len() as int),
                        Seq::empty(),
                    )
                } else {
                    match parse_usize(rest) {
                        None => Err((s1.line, FaultView::NotACount(rest))),
                        Some(count) => if s1.at + count > input.len() {
                            Err((s1.line, FaultView::Short(count)))
                        } else {
                            let bytes = input.subrange(s1.at as int, s1.at + count);
                            Ok(
                                (
                                    bytes,
                                    skip_newline(
                                        input,
                                        State {
                                            at: (s1.at + count) as usize,
                                            line: (s1.line + newlines(bytes)) as usize,
                                            pending: None,
                                        },
                                    ),
                                ),
                            )
                        },
                    }
                }
            }
        },
    }
}

// ---------------------------------------------------------------------------
// The grammar: the pieces a command is made of
// ---------------------------------------------------------------------------

/// `:7`, or a hex object ID.
pub open spec fn data_ref(text: Seq<u8>) -> Result<DataRefView, FaultView> {
    if starts_with(text, lit(":")) {
        let number = text.subrange(lit(":").len() as int, text.len() as int);
        match parse_u64(number) {
            Some(n) => Ok(DataRefView::Mark(Mark(n))),
            None => Err(FaultView::NotAMarkNumber(number)),
        }
    } else {
        let trimmed = trim(text);
        if trimmed.len() > 0 && all_hex(trimmed) {
            Ok(DataRefView::Oid(chars_of(trimmed)))
        } else {
            Err(FaultView::NamesNothing(trimmed))
        }
    }
}

/// The mode a line states.
pub open spec fn mode_of(text: Seq<u8>) -> Option<Mode> {
    if text == lit("100644") || text == lit("644") {
        Some(Mode::File)
    } else if text == lit("100755") || text == lit("755") {
        Some(Mode::Executable)
    } else if text == lit("120000") {
        Some(Mode::Symlink)
    } else if text == lit("160000") {
        Some(Mode::Gitlink)
    } else if text == lit("040000") {
        Some(Mode::Directory)
    } else {
        None
    }
}

/// A path, raw or quoted, and the offset just past it.
pub open spec fn path(text: Seq<u8>, stop_at_space: bool) -> Result<(Seq<u8>, int), FaultView> {
    if text.len() > 0 && text[0] == 0x22 {
        match spec_unquote(text) {
            Ok((bytes, end)) => Ok((bytes, end)),
            Err(why) => Err(FaultView::Quoting(why)),
        }
    } else if stop_at_space {
        let end = find_from(text, 0, 0x20);
        Ok((text.subrange(0, end), end))
    } else {
        Ok((text, text.len() as int))
    }
}

/// A source and a destination, the source quoted if it holds a space.
pub open spec fn two_paths(text: Seq<u8>, which: Which) -> Result<(Seq<u8>, Seq<u8>), FaultView> {
    match path(text, true) {
        Err(fault) => Err(fault),
        Ok((source, past)) => {
            let rest = if 0 <= past <= text.len() {
                text.subrange(past, text.len() as int)
            } else {
                Seq::empty()
            };
            if !starts_with(rest, lit(" ")) {
                Err(FaultView::OnePath(which))
            } else {
                match path(rest.subrange(lit(" ").len() as int, rest.len() as int), false) {
                    Err(fault) => Err(fault),
                    Ok((destination, _)) => Ok((source, destination)),
                }
            }
        },
    }
}

/// The text before the first space and after it.
pub open spec fn split_once(text: Seq<u8>, which: Which) -> Result<(Seq<u8>, Seq<u8>), FaultView> {
    let at = find_from(text, 0, 0x20);
    if at < text.len() {
        Ok((text.subrange(0, at), text.subrange(at + 1, text.len() as int)))
    } else {
        Err(FaultView::EndedEarly(which, text))
    }
}

/// `+0530` and `-0700`: a sign, two digits of hours, two of minutes.
pub open spec fn offset(text: Seq<u8>) -> Result<i32, Malformed> {
    let text = trim_end_spaces(text);
    if text.len() != 5 || !all_digits(text.subrange(1, 5)) {
        Err(Malformed::NotHhmm)
    } else if text[0] != 0x2b && text[0] != 0x2d {
        Err(Malformed::NoSign)
    } else {
        let hours = (text[1] - 0x30) * 10 + (text[2] - 0x30);
        let minutes = (text[3] - 0x30) * 10 + (text[4] - 0x30);
        let size = hours * 60 + minutes;
        Ok((if text[0] == 0x2b { size } else { -size }) as i32)
    }
}

/// `Name <email> <seconds> <offset>`.
pub open spec fn person(text: Seq<u8>) -> Result<PersonView, FaultView> {
    match rfind_before(text, text.len() as int, 0x3e) {
        None => Err(FaultView::NotAPerson(text, Malformed::NoClose)),
        Some(close) => match rfind_before(text, close, 0x3c) {
            None => Err(FaultView::NotAPerson(text, Malformed::NoOpen)),
            Some(open) => {
                let when = trim_start_spaces(text.subrange(close + 1, text.len() as int));
                let split = find_from(when, 0, 0x20);
                if split >= when.len() {
                    Err(FaultView::NotAPerson(text, Malformed::NoOffset))
                } else {
                    match parse_i64(when.subrange(0, split)) {
                        None => Err(FaultView::NotAPerson(text, Malformed::Seconds)),
                        Some(seconds) => match offset(
                            trim_start_spaces(when.subrange(split, when.len() as int)),
                        ) {
                            Err(why) => Err(FaultView::NotAPerson(text, why)),
                            Ok(minutes) => Ok(
                                PersonView {
                                    name: trim_end_spaces(text.subrange(0, open)),
                                    email: text.subrange(open + 1, close),
                                    seconds,
                                    offset_minutes: minutes,
                                },
                            ),
                        },
                    }
                }
            },
        },
    }
}

/// Content named, or carried by `inline` and the data block after the line.
pub open spec fn content(input: Seq<u8>, s: State, text: Seq<u8>) -> Result<
    (ContentView, State),
    Refusal,
> {
    if text == lit("inline") {
        match data(input, s) {
            Ok((bytes, s1)) => Ok((ContentView::Inline(bytes), s1)),
            Err(refusal) => Err(refusal),
        }
    } else {
        match data_ref(text) {
            Ok(named) => Ok((ContentView::Named(named), s)),
            Err(fault) => Err((s.line, fault)),
        }
    }
}

/// One line of a commit's change list, or nothing if the line is not one.
pub open spec fn change(input: Seq<u8>, s: State, line: Seq<u8>) -> Result<
    (Option<ChangeView>, State),
    Refusal,
> {
    if line == lit("deleteall") {
        Ok((Some(ChangeView::DeleteAll), s))
    } else if starts_with(line, lit("M ")) {
        let rest = line.subrange(lit("M ").len() as int, line.len() as int);
        match split_once(rest, Which::M) {
            Err(fault) => Err((s.line, fault)),
            Ok((mode, rest)) => match mode_of(mode) {
                None => Err((s.line, FaultView::NotAMode(mode))),
                Some(mode) => match split_once(rest, Which::M) {
                    Err(fault) => Err((s.line, fault)),
                    Ok((reference, rest)) => match content(input, s, reference) {
                        Err(refusal) => Err(refusal),
                        Ok((content, s1)) => match path(rest, false) {
                            Err(fault) => Err((s1.line, fault)),
                            Ok((path, _)) => Ok(
                                (Some(ChangeView::Modify { mode, content, path }), s1),
                            ),
                        },
                    },
                },
            },
        }
    } else if starts_with(line, lit("D ")) {
        match path(line.subrange(lit("D ").len() as int, line.len() as int), false) {
            Err(fault) => Err((s.line, fault)),
            Ok((path, _)) => Ok((Some(ChangeView::Delete { path }), s)),
        }
    } else if starts_with(line, lit("R ")) {
        match two_paths(line.subrange(lit("R ").len() as int, line.len() as int), Which::R) {
            Err(fault) => Err((s.line, fault)),
            Ok((source, destination)) => Ok(
                (Some(ChangeView::Rename { source, destination }), s),
            ),
        }
    } else if starts_with(line, lit("C ")) {
        match two_paths(line.subrange(lit("C ").len() as int, line.len() as int), Which::C) {
            Err(fault) => Err((s.line, fault)),
            Ok((source, destination)) => Ok((Some(ChangeView::Copy { source, destination }), s)),
        }
    } else if starts_with(line, lit("N ")) {
        let rest = line.subrange(lit("N ").len() as int, line.len() as int);
        match split_once(rest, Which::N) {
            Err(fault) => Err((s.line, fault)),
            Ok((reference, commit)) => match content(input, s, reference) {
                Err(refusal) => Err(refusal),
                Ok((content, s1)) => match data_ref(commit) {
                    Err(fault) => Err((s1.line, fault)),
                    Ok(commit) => Ok((Some(ChangeView::Note { content, commit }), s1)),
                },
            },
        }
    } else {
        Ok((None, s))
    }
}

// ---------------------------------------------------------------------------
// The grammar: optional lines
// ---------------------------------------------------------------------------

/// `mark :<n>`, if that is the next line.
pub open spec fn optional_mark(input: Seq<u8>, s: State) -> Result<(Option<Mark>, State), Refusal> {
    let (field, s1) = optional_field(input, s, lit("mark "));
    match field {
        None => Ok((None, s1)),
        Some(span) => match data_ref(piece(input, span)) {
            Ok(DataRefView::Mark(mark)) => Ok((Some(mark), s1)),
            Ok(DataRefView::Oid(oid)) => Err((s1.line, FaultView::NotAMark(oid))),
            Err(fault) => Err((s1.line, fault)),
        },
    }
}

/// `original-oid <oid>`, if that is the next line: what follows, as text.
pub open spec fn optional_oid(input: Seq<u8>, s: State) -> (Option<Seq<char>>, State) {
    let (field, s1) = optional_field(input, s, lit("original-oid "));
    match field {
        None => (None, s1),
        Some(span) => (Some(lossy(piece(input, span))), s1),
    }
}

/// A person line with `prefix`, if that is the next line.
pub open spec fn optional_person(input: Seq<u8>, s: State, prefix: Seq<u8>) -> Result<
    (Option<PersonView>, State),
    Refusal,
> {
    let (field, s1) = optional_field(input, s, prefix);
    match field {
        None => Ok((None, s1)),
        Some(span) => match person(piece(input, span)) {
            Ok(who) => Ok((Some(who), s1)),
            Err(fault) => Err((s1.line, fault)),
        },
    }
}

/// A reference line with `prefix`, if that is the next line.
pub open spec fn optional_ref(input: Seq<u8>, s: State, prefix: Seq<u8>) -> Result<
    (Option<DataRefView>, State),
    Refusal,
> {
    let (field, s1) = optional_field(input, s, prefix);
    match field {
        None => Ok((None, s1)),
        Some(span) => match data_ref(piece(input, span)) {
            Ok(named) => Ok((Some(named), s1)),
            Err(fault) => Err((s1.line, fault)),
        },
    }
}

/// `encoding <name>`, if that is the next line.
pub open spec fn optional_encoding(input: Seq<u8>, s: State) -> (Option<Seq<u8>>, State) {
    let (field, s1) = optional_field(input, s, lit("encoding "));
    match field {
        None => (None, s1),
        Some(span) => (Some(piece(input, span)), s1),
    }
}

/// `gpgsig <kind>` and its data block, if that is the next line.
pub open spec fn optional_signature(input: Seq<u8>, s: State) -> Result<
    (Option<SignatureView>, State),
    Refusal,
> {
    let (field, s1) = optional_field(input, s, lit("gpgsig "));
    match field {
        None => Ok((None, s1)),
        Some(span) => match data(input, s1) {
            Ok((bytes, s2)) => Ok((Some(SignatureView { kind: piece(input, span), data: bytes }), s2)),
            Err(refusal) => Err(refusal),
        },
    }
}

// ---------------------------------------------------------------------------
// Progress
// ---------------------------------------------------------------------------

pub proof fn lemma_take_line(input: Seq<u8>, s: State)
    requires
        state_ok(input, s),
    ensures
        ({
            let (taken, s1) = take_line(input, s);
            &&& state_ok(input, s1)
            &&& s1.pending is None
            &&& s1.at >= s.at
            &&& taken is None ==> s1 == s && s.pending is None
            &&& taken matches Some(span) ==> span.0 <= span.1 <= s1.at && measure(input, s1)
                < measure(input, s)
            &&& (taken is Some && s.pending is None) ==> s1.at > s.at
        }),
{
    if s.pending is None && s.at < input.len() {
        find_from_facts(input, s.at as int, 0x0a);
    }
}

pub proof fn lemma_optional_field(input: Seq<u8>, s: State, prefix: Seq<u8>)
    requires
        state_ok(input, s),
    ensures
        ({
            let (field, s1) = optional_field(input, s, prefix);
            &&& state_ok(input, s1)
            &&& measure(input, s1) <= measure(input, s)
            &&& field matches Some(span) ==> span.0 <= span.1 <= s1.at && measure(input, s1)
                < measure(input, s) && s1.pending is None
        }),
{
    lemma_take_line(input, s);
    let (taken, s1) = take_line(input, s);
    if let Some(span) = taken {
        if starts_with(piece(input, span), prefix) {
            assert(prefix.len() <= span.1 - span.0);
        }
    }
}

pub proof fn lemma_newlines_bounded(bytes: Seq<u8>)
    ensures
        newlines(bytes) <= bytes.len(),
    decreases bytes.len(),
{
    if bytes.len() > 0 {
        lemma_newlines_bounded(bytes.drop_last());
    }
}

pub proof fn lemma_delimited(input: Seq<u8>, s: State, delimiter: Seq<u8>, acc: Seq<u8>)
    requires
        state_ok(input, s),
        s.pending is None,
    ensures
        delimited(input, s, delimiter, acc) matches Ok((_, s1)) ==> state_ok(input, s1)
            && s1.pending is None && s1.at > s.at,
    decreases input.len() - s.at,
{
    lemma_take_line(input, s);
    let (taken, s1) = take_line(input, s);
    if let Some(span) = taken {
        if piece(input, span) != delimiter {
            lemma_delimited(input, s1, delimiter, acc + piece(input, span) + seq![0x0au8]);
        }
    }
}

pub proof fn lemma_data(input: Seq<u8>, s: State)
    requires
        state_ok(input, s),
    ensures
        data(input, s) matches Ok((_, s1)) ==> state_ok(input, s1) && s1.pending is None
            && measure(input, s1) < measure(input, s),
{
    lemma_take_line(input, s);
    let (taken, s1) = take_line(input, s);
    if let Some(span) = taken {
        let content = piece(input, span);
        if starts_with(content, lit("data ")) {
            let rest = content.subrange(lit("data ").len() as int, content.len() as int);
            if starts_with(rest, lit("<<")) {
                lemma_delimited(
                    input,
                    s1,
                    rest.subrange(lit("<<").len() as int, rest.len() as int),
                    Seq::empty(),
                );
            } else if let Some(count) = parse_usize(rest) {
                if s1.at + count <= input.len() {
                    lemma_newlines_bounded(input.subrange(s1.at as int, s1.at + count));
                }
            }
        }
    }
}

pub proof fn lemma_content(input: Seq<u8>, s: State, text: Seq<u8>)
    requires
        state_ok(input, s),
    ensures
        content(input, s, text) matches Ok((_, s1)) ==> state_ok(input, s1) && measure(input, s1)
            <= measure(input, s),
{
    if text == lit("inline") {
        lemma_data(input, s);
    }
}

pub proof fn lemma_change(input: Seq<u8>, s: State, line: Seq<u8>)
    requires
        state_ok(input, s),
    ensures
        change(input, s, line) matches Ok((_, s1)) ==> state_ok(input, s1) && measure(input, s1)
            <= measure(input, s),
{
    if starts_with(line, lit("M ")) {
        let rest = line.subrange(lit("M ").len() as int, line.len() as int);
        if let Ok((mode, rest)) = split_once(rest, Which::M) {
            if let Ok((reference, rest)) = split_once(rest, Which::M) {
                lemma_content(input, s, reference);
            }
        }
    } else if starts_with(line, lit("N ")) {
        let rest = line.subrange(lit("N ").len() as int, line.len() as int);
        if let Ok((reference, commit)) = split_once(rest, Which::N) {
            lemma_content(input, s, reference);
        }
    }
}

// ---------------------------------------------------------------------------
// The grammar: repeated lines
// ---------------------------------------------------------------------------

/// `merge` lines, as many as follow.
pub open spec fn merges(input: Seq<u8>, s: State, acc: Seq<DataRefView>) -> Result<
    (Seq<DataRefView>, State),
    Refusal,
>
    decreases measure(input, s),
    when state_ok(input, s)
{
    let (field, s1) = optional_field(input, s, lit("merge "));
    match field {
        None => Ok((acc, s1)),
        Some(span) => match data_ref(piece(input, span)) {
            Err(fault) => Err((s1.line, fault)),
            Ok(named) => {
                proof {
                    lemma_optional_field(input, s, lit("merge "));
                }
                merges(input, s1, acc.push(named))
            },
        },
    }
}

/// Change lines, until a blank line, the end, or a line that is not one.
pub open spec fn changes(input: Seq<u8>, s: State, acc: Seq<ChangeView>) -> Result<
    (Seq<ChangeView>, State),
    Refusal,
>
    decreases measure(input, s),
    when state_ok(input, s)
{
    let (taken, s1) = take_line(input, s);
    match taken {
        None => Ok((acc, s1)),
        Some(span) => if span.0 == span.1 {
            Ok((acc, s1))
        } else {
            match change(input, s1, piece(input, span)) {
                Err(refusal) => Err(refusal),
                Ok((None, s2)) => Ok((acc, put_back(s2, span))),
                Ok((Some(one), s2)) => {
                    proof {
                        lemma_take_line(input, s);
                        lemma_change(input, s1, piece(input, span));
                    }
                    changes(input, s2, acc.push(one))
                },
            }
        },
    }
}

// ---------------------------------------------------------------------------
// The grammar: commands
// ---------------------------------------------------------------------------

/// `blob`, after its first line.
pub open spec fn blob(input: Seq<u8>, s: State) -> Result<(BlobView, State), Refusal> {
    match optional_mark(input, s) {
        Err(refusal) => Err(refusal),
        Ok((mark, s1)) => {
            let (original_oid, s2) = optional_oid(input, s1);
            match data(input, s2) {
                Err(refusal) => Err(refusal),
                Ok((bytes, s3)) => Ok((BlobView { mark, original_oid, data: bytes }, s3)),
            }
        },
    }
}

/// Everything in a commit above its message.
pub struct Heading {
    pub mark: Option<Mark>,
    pub original_oid: Option<Seq<char>>,
    pub author: Option<PersonView>,
    pub committer: PersonView,
    pub encoding: Option<Seq<u8>>,
    pub signature: Option<SignatureView>,
}

/// A commit's lines above its message.
pub open spec fn heading(input: Seq<u8>, s: State) -> Result<(Heading, State), Refusal> {
    match optional_mark(input, s) {
        Err(refusal) => Err(refusal),
        Ok((mark, s1)) => {
            let (original_oid, s2) = optional_oid(input, s1);
            match optional_person(input, s2, lit("author ")) {
                Err(refusal) => Err(refusal),
                Ok((author, s3)) => match optional_person(input, s3, lit("committer ")) {
                    Err(refusal) => Err(refusal),
                    Ok((None, s4)) => Err((s4.line, FaultView::NoCommitter)),
                    Ok((Some(committer), s4)) => {
                        let (encoding, s5) = optional_encoding(input, s4);
                        match optional_signature(input, s5) {
                            Err(refusal) => Err(refusal),
                            Ok((signature, s6)) => Ok(
                                (
                                    Heading {
                                        mark,
                                        original_oid,
                                        author,
                                        committer,
                                        encoding,
                                        signature,
                                    },
                                    s6,
                                ),
                            ),
                        }
                    },
                },
            }
        },
    }
}

/// `commit <ref>`, after its first line.
pub open spec fn commit(input: Seq<u8>, s: State, reference: Seq<u8>) -> Result<
    (CommitView, State),
    Refusal,
> {
    match heading(input, s) {
        Err(refusal) => Err(refusal),
        Ok((head, s1)) => match data(input, s1) {
            Err(refusal) => Err(refusal),
            Ok((message, s2)) => match optional_ref(input, s2, lit("from ")) {
                Err(refusal) => Err(refusal),
                Ok((from, s3)) => match merges(input, s3, Seq::empty()) {
                    Err(refusal) => Err(refusal),
                    Ok((merged, s4)) => match changes(input, s4, Seq::empty()) {
                        Err(refusal) => Err(refusal),
                        Ok((changed, s5)) => Ok(
                            (
                                CommitView {
                                    reference,
                                    mark: head.mark,
                                    original_oid: head.original_oid,
                                    author: head.author,
                                    committer: head.committer,
                                    encoding: head.encoding,
                                    signature: head.signature,
                                    message,
                                    from,
                                    merges: merged,
                                    changes: changed,
                                },
                                s5,
                            ),
                        ),
                    },
                },
            },
        },
    }
}

/// `tag <name>`, after its first line.
pub open spec fn tag(input: Seq<u8>, s: State, name: Seq<u8>) -> Result<(TagView, State), Refusal> {
    match optional_mark(input, s) {
        Err(refusal) => Err(refusal),
        Ok((mark, s1)) => match optional_ref(input, s1, lit("from ")) {
            Err(refusal) => Err(refusal),
            Ok((None, s2)) => Err((s2.line, FaultView::TagWithoutFrom)),
            Ok((Some(from), s2)) => {
                let (original_oid, s3) = optional_oid(input, s2);
                match optional_person(input, s3, lit("tagger ")) {
                    Err(refusal) => Err(refusal),
                    Ok((tagger, s4)) => match data(input, s4) {
                        Err(refusal) => Err(refusal),
                        Ok((message, s5)) => Ok(
                            (TagView { name, mark, from, original_oid, tagger, message }, s5),
                        ),
                    },
                }
            },
        },
    }
}

/// `reset <ref>`, after its first line.
pub open spec fn reset(input: Seq<u8>, s: State, reference: Seq<u8>) -> Result<
    (ResetView, State),
    Refusal,
> {
    match optional_ref(input, s, lit("from ")) {
        Err(refusal) => Err(refusal),
        Ok((from, s1)) => Ok((ResetView { reference, from }, s1)),
    }
}

/// What follows `prefix` in `line`.
pub open spec fn after(line: Seq<u8>, prefix: Seq<u8>) -> Seq<u8> {
    line.subrange(prefix.len() as int, line.len() as int)
}

/// A command a frontend sends to git, if the line is one.
pub open spec fn asked(line: Seq<u8>) -> Option<Asked> {
    if starts_with(line, lit("checkpoint")) {
        Some(Asked::Checkpoint)
    } else if starts_with(line, lit("get-mark ")) {
        Some(Asked::GetMark)
    } else if starts_with(line, lit("cat-blob ")) {
        Some(Asked::CatBlob)
    } else if starts_with(line, lit("ls ")) {
        Some(Asked::Ls)
    } else if starts_with(line, lit("alias")) {
        Some(Asked::Alias)
    } else {
        None
    }
}

/// The command a line begins.
pub open spec fn command(input: Seq<u8>, s: State, line: Seq<u8>) -> Result<
    (CommandView, State),
    Refusal,
> {
    if line == lit("blob") {
        match blob(input, s) {
            Ok((b, s1)) => Ok((CommandView::Blob(b), s1)),
            Err(refusal) => Err(refusal),
        }
    } else if line == lit("done") {
        Ok((CommandView::Done, s))
    } else if starts_with(line, lit("commit ")) {
        match commit(input, s, after(line, lit("commit "))) {
            Ok((c, s1)) => Ok((CommandView::Commit(c), s1)),
            Err(refusal) => Err(refusal),
        }
    } else if starts_with(line, lit("tag ")) {
        match tag(input, s, after(line, lit("tag "))) {
            Ok((t, s1)) => Ok((CommandView::Tag(t), s1)),
            Err(refusal) => Err(refusal),
        }
    } else if starts_with(line, lit("reset ")) {
        match reset(input, s, after(line, lit("reset "))) {
            Ok((r, s1)) => Ok((CommandView::Reset(r), s1)),
            Err(refusal) => Err(refusal),
        }
    } else if starts_with(line, lit("progress ")) {
        Ok((CommandView::Progress(after(line, lit("progress "))), s))
    } else if starts_with(line, lit("feature ")) {
        Ok((CommandView::Feature(after(line, lit("feature "))), s))
    } else if starts_with(line, lit("option ")) {
        Ok((CommandView::Option(after(line, lit("option "))), s))
    } else {
        match asked(line) {
            Some(which) => Err((s.line, FaultView::Frontend(which))),
            None => Err((s.line, FaultView::UnknownCommand(first_word(line)))),
        }
    }
}

/// The next line that is not blank, and where the reader stands after it.
/// Blank lines between commands say nothing and are passed over; so is the
/// optional newline after a data block, which can look like one.
pub open spec fn next_line(input: Seq<u8>, s: State) -> (Option<(usize, usize)>, State)
    decreases measure(input, s),
    when state_ok(input, s)
{
    let (taken, s1) = take_line(input, s);
    match taken {
        None => (None, s1),
        Some(span) => if span.0 == span.1 {
            proof {
                lemma_take_line(input, s);
            }
            next_line(input, s1)
        } else {
            (Some(span), s1)
        },
    }
}

/// The next command, or nothing at the end of the stream.
pub open spec fn spec_read(input: Seq<u8>, s: State) -> Result<(Option<CommandView>, State), Refusal> {
    let (taken, s1) = next_line(input, s);
    match taken {
        None => Ok((None, s1)),
        Some(span) => match command(input, s1, piece(input, span)) {
            Ok((c, s2)) => Ok((Some(c), s2)),
            Err(refusal) => Err(refusal),
        },
    }
}

/// Where a reader starts.
pub open spec fn start() -> State {
    State { at: 0, line: 0, pending: None }
}


// ---------------------------------------------------------------------------
// Progress, for whole commands
// ---------------------------------------------------------------------------

/// A step that stays inside the input and takes nothing back.
pub open spec fn onward(input: Seq<u8>, s: State, s1: State) -> bool {
    state_ok(input, s1) && measure(input, s1) <= measure(input, s)
}

pub proof fn lemma_optional_mark(input: Seq<u8>, s: State)
    requires
        state_ok(input, s),
    ensures
        optional_mark(input, s) matches Ok((_, s1)) ==> onward(input, s, s1),
{
    lemma_optional_field(input, s, lit("mark "));
}

pub proof fn lemma_optional_oid(input: Seq<u8>, s: State)
    requires
        state_ok(input, s),
    ensures
        onward(input, s, optional_oid(input, s).1),
{
    lemma_optional_field(input, s, lit("original-oid "));
}

pub proof fn lemma_optional_person(input: Seq<u8>, s: State, prefix: Seq<u8>)
    requires
        state_ok(input, s),
    ensures
        optional_person(input, s, prefix) matches Ok((_, s1)) ==> onward(input, s, s1),
{
    lemma_optional_field(input, s, prefix);
}

pub proof fn lemma_optional_ref(input: Seq<u8>, s: State, prefix: Seq<u8>)
    requires
        state_ok(input, s),
    ensures
        optional_ref(input, s, prefix) matches Ok((_, s1)) ==> onward(input, s, s1),
{
    lemma_optional_field(input, s, prefix);
}

pub proof fn lemma_optional_encoding(input: Seq<u8>, s: State)
    requires
        state_ok(input, s),
    ensures
        onward(input, s, optional_encoding(input, s).1),
{
    lemma_optional_field(input, s, lit("encoding "));
}

pub proof fn lemma_optional_signature(input: Seq<u8>, s: State)
    requires
        state_ok(input, s),
    ensures
        optional_signature(input, s) matches Ok((_, s1)) ==> onward(input, s, s1),
{
    lemma_optional_field(input, s, lit("gpgsig "));
    let (field, s1) = optional_field(input, s, lit("gpgsig "));
    if field is Some {
        lemma_data(input, s1);
    }
}

pub proof fn lemma_merges(input: Seq<u8>, s: State, acc: Seq<DataRefView>)
    requires
        state_ok(input, s),
    ensures
        merges(input, s, acc) matches Ok((_, s1)) ==> onward(input, s, s1),
    decreases measure(input, s),
{
    lemma_optional_field(input, s, lit("merge "));
    let (field, s1) = optional_field(input, s, lit("merge "));
    if let Some(span) = field {
        if let Ok(named) = data_ref(piece(input, span)) {
            lemma_merges(input, s1, acc.push(named));
        }
    }
}

pub proof fn lemma_changes(input: Seq<u8>, s: State, acc: Seq<ChangeView>)
    requires
        state_ok(input, s),
    ensures
        changes(input, s, acc) matches Ok((_, s1)) ==> onward(input, s, s1),
    decreases measure(input, s),
{
    lemma_take_line(input, s);
    let (taken, s1) = take_line(input, s);
    if let Some(span) = taken {
        if span.0 != span.1 {
            lemma_change(input, s1, piece(input, span));
            match change(input, s1, piece(input, span)) {
                Ok((Some(one), s2)) => lemma_changes(input, s2, acc.push(one)),
                _ => {},
            }
        }
    }
}

pub proof fn lemma_blob(input: Seq<u8>, s: State)
    requires
        state_ok(input, s),
    ensures
        blob(input, s) matches Ok((_, s1)) ==> onward(input, s, s1),
{
    lemma_optional_mark(input, s);
    if let Ok((_, s1)) = optional_mark(input, s) {
        lemma_optional_oid(input, s1);
        lemma_data(input, optional_oid(input, s1).1);
    }
}

pub proof fn lemma_heading(input: Seq<u8>, s: State)
    requires
        state_ok(input, s),
    ensures
        heading(input, s) matches Ok((_, s1)) ==> onward(input, s, s1),
{
    lemma_optional_mark(input, s);
    if let Ok((_, s1)) = optional_mark(input, s) {
        let s2 = optional_oid(input, s1).1;
        lemma_optional_oid(input, s1);
        lemma_optional_person(input, s2, lit("author "));
        if let Ok((_, s3)) = optional_person(input, s2, lit("author ")) {
            lemma_optional_person(input, s3, lit("committer "));
            if let Ok((_, s4)) = optional_person(input, s3, lit("committer ")) {
                let s5 = optional_encoding(input, s4).1;
                lemma_optional_encoding(input, s4);
                lemma_optional_signature(input, s5);
            }
        }
    }
}

pub proof fn lemma_commit(input: Seq<u8>, s: State, reference: Seq<u8>)
    requires
        state_ok(input, s),
    ensures
        commit(input, s, reference) matches Ok((_, s1)) ==> onward(input, s, s1),
{
    lemma_heading(input, s);
    if let Ok((_, s6)) = heading(input, s) {
        lemma_data(input, s6);
        if let Ok((_, s7)) = data(input, s6) {
            lemma_optional_ref(input, s7, lit("from "));
            if let Ok((_, s8)) = optional_ref(input, s7, lit("from ")) {
                lemma_merges(input, s8, Seq::empty());
                if let Ok((_, s9)) = merges(input, s8, Seq::empty()) {
                    lemma_changes(input, s9, Seq::empty());
                }
            }
        }
    }
}

pub proof fn lemma_tag(input: Seq<u8>, s: State, name: Seq<u8>)
    requires
        state_ok(input, s),
    ensures
        tag(input, s, name) matches Ok((_, s1)) ==> onward(input, s, s1),
{
    lemma_optional_mark(input, s);
    if let Ok((_, s1)) = optional_mark(input, s) {
        lemma_optional_ref(input, s1, lit("from "));
        if let Ok((_, s2)) = optional_ref(input, s1, lit("from ")) {
            let s3 = optional_oid(input, s2).1;
            lemma_optional_oid(input, s2);
            lemma_optional_person(input, s3, lit("tagger "));
            if let Ok((_, s4)) = optional_person(input, s3, lit("tagger ")) {
                lemma_data(input, s4);
            }
        }
    }
}

pub proof fn lemma_command(input: Seq<u8>, s: State, line: Seq<u8>)
    requires
        state_ok(input, s),
    ensures
        command(input, s, line) matches Ok((_, s1)) ==> onward(input, s, s1),
{
    if line == lit("blob") {
        lemma_blob(input, s);
    } else if line == lit("done") {
    } else if starts_with(line, lit("commit ")) {
        lemma_commit(input, s, after(line, lit("commit ")));
    } else if starts_with(line, lit("tag ")) {
        lemma_tag(input, s, after(line, lit("tag ")));
    } else if starts_with(line, lit("reset ")) {
        lemma_optional_ref(input, s, lit("from "));
    }
}

pub proof fn lemma_next_line(input: Seq<u8>, s: State)
    requires
        state_ok(input, s),
    ensures
        ({
            let (taken, s1) = next_line(input, s);
            &&& state_ok(input, s1)
            &&& measure(input, s1) <= measure(input, s)
            &&& taken matches Some(span) ==> span.0 <= span.1 <= s1.at && measure(input, s1)
                < measure(input, s)
        }),
    decreases measure(input, s),
{
    lemma_take_line(input, s);
    let (taken, s1) = take_line(input, s);
    if let Some(span) = taken {
        if span.0 == span.1 {
            lemma_next_line(input, s1);
        }
    }
}

/// What a read leaves is somewhere in the input, and a read that gave a
/// command took something.
pub proof fn lemma_read(input: Seq<u8>, s: State)
    requires
        state_ok(input, s),
    ensures
        spec_read(input, s) matches Ok((found, s1)) ==> state_ok(input, s1) && (found is Some
            ==> measure(input, s1) < measure(input, s)),
{
    lemma_next_line(input, s);
    let (taken, s1) = next_line(input, s);
    if let Some(span) = taken {
        lemma_command(input, s1, piece(input, span));
    }
}

/// Every command from where a reader stands to the end, or the first refusal.
pub open spec fn read_all(input: Seq<u8>, s: State, acc: Seq<CommandView>) -> Result<
    Seq<CommandView>,
    Refusal,
>
    decreases measure(input, s),
    when state_ok(input, s)
{
    match spec_read(input, s) {
        Err(refusal) => Err(refusal),
        Ok((None, _)) => Ok(acc),
        Ok((Some(one), s1)) => {
            proof {
                lemma_read(input, s);
            }
            read_all(input, s1, acc.push(one))
        },
    }
}


/// A command read from where the reader stands, and the rest read after it:
/// what is read from there is what is read from after it, that command first.
pub proof fn lemma_read_all_step(
    input: Seq<u8>,
    s: State,
    acc: Seq<CommandView>,
    view: CommandView,
    s2: State,
)
    requires
        state_ok(input, s),
        spec_read(input, s) == Ok::<(Option<CommandView>, State), Refusal>((Some(view), s2)),
    ensures
        read_all(input, s, acc) == read_all(input, s2, acc.push(view)),
{
    lemma_read(input, s);
}


// ---------------------------------------------------------------------------
// Lines are only ever counted forward
// ---------------------------------------------------------------------------

/// A step's outcome stands at line `line` or later: the state it leaves, or
/// the line it refuses at.
pub open spec fn from_line<T>(r: Result<(T, State), Refusal>, line: int) -> bool {
    match r {
        Ok((_, s1)) => s1.line >= line,
        Err(refusal) => refusal.0 >= line,
    }
}

proof fn lines_delimited(input: Seq<u8>, s: State, delimiter: Seq<u8>, acc: Seq<u8>)
    requires
        state_ok(input, s),
        s.pending is None,
    ensures
        from_line(delimited(input, s, delimiter, acc), s.line as int),
    decreases input.len() - s.at,
{
    lemma_take_line(input, s);
    let (taken, s1) = take_line(input, s);
    if let Some(span) = taken {
        if piece(input, span) != delimiter {
            lines_delimited(input, s1, delimiter, acc + piece(input, span) + seq![0x0au8]);
        }
    }
}

proof fn lines_data(input: Seq<u8>, s: State)
    requires
        state_ok(input, s),
    ensures
        from_line(data(input, s), s.line as int),
{
    lemma_data(input, s);
    lemma_take_line(input, s);
    let (taken, s1) = take_line(input, s);
    if let Some(span) = taken {
        let content = piece(input, span);
        if starts_with(content, lit("data ")) {
            let rest = content.subrange(lit("data ").len() as int, content.len() as int);
            if !starts_with(rest, lit("<<")) {
                if let Some(count) = parse_usize(rest) {
                    if s1.at + count <= input.len() {
                        lemma_newlines_bounded(input.subrange(s1.at as int, s1.at + count));
                    }
                }
            } else {
                lines_delimited(
                    input,
                    s1,
                    rest.subrange(lit("<<").len() as int, rest.len() as int),
                    Seq::empty(),
                );
            }
        }
    }
}

proof fn lines_content(input: Seq<u8>, s: State, text: Seq<u8>)
    requires
        state_ok(input, s),
    ensures
        from_line(content(input, s, text), s.line as int),
{
    if text == lit("inline") {
        lines_data(input, s);
    }
}

proof fn lines_change(input: Seq<u8>, s: State, line: Seq<u8>)
    requires
        state_ok(input, s),
    ensures
        from_line(change(input, s, line), s.line as int),
{
    if starts_with(line, lit("M ")) {
        let rest = line.subrange(lit("M ").len() as int, line.len() as int);
        if let Ok((mode, rest)) = split_once(rest, Which::M) {
            if let Ok((reference, rest)) = split_once(rest, Which::M) {
                lines_content(input, s, reference);
            }
        }
    } else if starts_with(line, lit("N ")) {
        let rest = line.subrange(lit("N ").len() as int, line.len() as int);
        if let Ok((reference, commit)) = split_once(rest, Which::N) {
            lines_content(input, s, reference);
        }
    }
}

proof fn lines_optional_signature(input: Seq<u8>, s: State)
    requires
        state_ok(input, s),
    ensures
        from_line(optional_signature(input, s), s.line as int),
{
    lemma_optional_field(input, s, lit("gpgsig "));
    let (field, s1) = optional_field(input, s, lit("gpgsig "));
    if field is Some {
        lines_data(input, s1);
    }
}

proof fn lines_merges(input: Seq<u8>, s: State, acc: Seq<DataRefView>)
    requires
        state_ok(input, s),
    ensures
        from_line(merges(input, s, acc), s.line as int),
    decreases measure(input, s),
{
    lemma_optional_field(input, s, lit("merge "));
    let (field, s1) = optional_field(input, s, lit("merge "));
    if let Some(span) = field {
        if let Ok(named) = data_ref(piece(input, span)) {
            lines_merges(input, s1, acc.push(named));
        }
    }
}

proof fn lines_changes(input: Seq<u8>, s: State, acc: Seq<ChangeView>)
    requires
        state_ok(input, s),
    ensures
        from_line(changes(input, s, acc), s.line as int),
    decreases measure(input, s),
{
    lemma_take_line(input, s);
    let (taken, s1) = take_line(input, s);
    if let Some(span) = taken {
        if span.0 != span.1 {
            lemma_change(input, s1, piece(input, span));
            lines_change(input, s1, piece(input, span));
            match change(input, s1, piece(input, span)) {
                Ok((Some(one), s2)) => lines_changes(input, s2, acc.push(one)),
                _ => {},
            }
        }
    }
}

#[verifier::spinoff_prover]
#[verifier::rlimit(40)]
proof fn lines_blob(input: Seq<u8>, s: State)
    requires
        state_ok(input, s),
    ensures
        from_line(blob(input, s), s.line as int),
{
    lemma_optional_mark(input, s);
    if let Ok((_, s1)) = optional_mark(input, s) {
        lemma_optional_oid(input, s1);
        lines_data(input, optional_oid(input, s1).1);
    }
}

#[verifier::spinoff_prover]
#[verifier::rlimit(40)]
proof fn lines_heading(input: Seq<u8>, s: State)
    requires
        state_ok(input, s),
    ensures
        from_line(heading(input, s), s.line as int),
{
    lemma_optional_mark(input, s);
    if let Ok((_, s1)) = optional_mark(input, s) {
        let s2 = optional_oid(input, s1).1;
        lemma_optional_oid(input, s1);
        lemma_optional_person(input, s2, lit("author "));
        if let Ok((_, s3)) = optional_person(input, s2, lit("author ")) {
            lemma_optional_person(input, s3, lit("committer "));
            if let Ok((_, s4)) = optional_person(input, s3, lit("committer ")) {
                let s5 = optional_encoding(input, s4).1;
                lemma_optional_encoding(input, s4);
                lines_optional_signature(input, s5);
            }
        }
    }
}

#[verifier::spinoff_prover]
#[verifier::rlimit(40)]
proof fn lines_commit(input: Seq<u8>, s: State, reference: Seq<u8>)
    requires
        state_ok(input, s),
    ensures
        from_line(commit(input, s, reference), s.line as int),
{
    lemma_heading(input, s);
    lines_heading(input, s);
    if let Ok((_, s6)) = heading(input, s) {
        lemma_data(input, s6);
        lines_data(input, s6);
        if let Ok((_, s7)) = data(input, s6) {
            lemma_optional_ref(input, s7, lit("from "));
            if let Ok((_, s8)) = optional_ref(input, s7, lit("from ")) {
                lemma_merges(input, s8, Seq::empty());
                lines_merges(input, s8, Seq::empty());
                if let Ok((_, s9)) = merges(input, s8, Seq::empty()) {
                    lines_changes(input, s9, Seq::empty());
                }
            }
        }
    }
}

#[verifier::spinoff_prover]
#[verifier::rlimit(40)]
proof fn lines_tag(input: Seq<u8>, s: State, name: Seq<u8>)
    requires
        state_ok(input, s),
    ensures
        from_line(tag(input, s, name), s.line as int),
{
    lemma_optional_mark(input, s);
    if let Ok((_, s1)) = optional_mark(input, s) {
        lemma_optional_ref(input, s1, lit("from "));
        if let Ok((_, s2)) = optional_ref(input, s1, lit("from ")) {
            let s3 = optional_oid(input, s2).1;
            lemma_optional_oid(input, s2);
            lemma_optional_person(input, s3, lit("tagger "));
            if let Ok((_, s4)) = optional_person(input, s3, lit("tagger ")) {
                lines_data(input, s4);
            }
        }
    }
}

proof fn lines_command(input: Seq<u8>, s: State, line: Seq<u8>)
    requires
        state_ok(input, s),
    ensures
        from_line(command(input, s, line), s.line as int),
{
    if line == lit("blob") {
        lines_blob(input, s);
    } else if line == lit("done") {
    } else if starts_with(line, lit("commit ")) {
        lines_commit(input, s, after(line, lit("commit ")));
    } else if starts_with(line, lit("tag ")) {
        lines_tag(input, s, after(line, lit("tag ")));
    }
}

/// A line taken to begin a command leaves the count past zero: it was taken
/// fresh, or put back after it was taken.
proof fn lines_next_line(input: Seq<u8>, s: State)
    requires
        state_ok(input, s),
        s.pending is Some ==> s.line >= 1,
    ensures
        ({
            let (taken, s1) = next_line(input, s);
            &&& s1.line >= s.line
            &&& taken is Some ==> s1.line >= 1
            &&& taken is None ==> s1.pending is None
        }),
    decreases measure(input, s),
{
    lemma_take_line(input, s);
    let (taken, s1) = take_line(input, s);
    if let Some(span) = taken {
        if span.0 == span.1 {
            lines_next_line(input, s1);
        }
    }
}

proof fn lines_read(input: Seq<u8>, s: State)
    requires
        state_ok(input, s),
        s.pending is Some ==> s.line >= 1,
    ensures
        match spec_read(input, s) {
            Err(refusal) => refusal.0 >= 1,
            Ok((_, s1)) => s1.line >= s.line && (s1.pending is Some ==> s1.line >= 1),
        },
{
    lemma_next_line(input, s);
    lines_next_line(input, s);
    let (taken, s1) = next_line(input, s);
    if let Some(span) = taken {
        lines_command(input, s1, piece(input, span));
    }
}

proof fn lines_read_all(input: Seq<u8>, s: State, acc: Seq<CommandView>)
    requires
        state_ok(input, s),
        s.pending is Some ==> s.line >= 1,
    ensures
        read_all(input, s, acc) matches Err(refusal) ==> refusal.0 >= 1,
    decreases measure(input, s),
{
    lemma_read(input, s);
    lines_read(input, s);
    if let Ok((Some(one), s1)) = spec_read(input, s) {
        lines_read_all(input, s1, acc.push(one));
    }
}

/// A stream read from its start is refused, if at all, at a line it has:
/// the first line is line 1.
pub proof fn a_refusal_names_a_line_of_the_stream(input: Seq<u8>)
    requires
        input.len() <= usize::MAX,
    ensures
        read_all(input, start(), Seq::empty()) matches Err(refusal) ==> refusal.0 >= 1,
{
    lines_read_all(input, start(), Seq::empty());
}

} // verus!
