//! The path quoting the stream uses, both ways.
//!
//! A path in a fast-import stream is either raw bytes or a C-style quoted
//! string, and which one it is is decided by the first byte: a `"` opens a
//! quoted string and nothing else does. Git quotes when it has to — a path
//! holding a quote, a backslash, a newline, or a byte outside printable ASCII —
//! and, as `git fast-export` is observed to do, when the path holds a space.
//!
//! Both directions live here because they are one rule read twice, and
//! [`quoting_and_unquoting_are_one_rule`] is the proof that they agree.

use vstd::prelude::*;

verus! {

/// What went wrong reading a quoted path. The caller adds the line number; this
/// says what the bytes did.
#[derive(Debug, Clone, Copy, PartialEq, Eq, Structural)]
pub enum Unquoted {
    /// The closing quote never arrived.
    Unterminated,
    /// A `\` at the end of the string, escaping nothing.
    DanglingEscape,
    /// A `\` followed by something that is not an escape this format has.
    UnknownEscape(u8),
}

// ---------------------------------------------------------------------------
// The rule, as a reader of the format would state it
// ---------------------------------------------------------------------------

/// The byte a one-letter escape stands for.
pub open spec fn simple_escape(escape: u8) -> Option<u8> {
    if escape == 0x61 { Some(0x07u8) }        // \a
    else if escape == 0x62 { Some(0x08u8) }   // \b
    else if escape == 0x66 { Some(0x0cu8) }   // \f
    else if escape == 0x6e { Some(0x0au8) }   // \n
    else if escape == 0x72 { Some(0x0du8) }   // \r
    else if escape == 0x74 { Some(0x09u8) }   // \t
    else if escape == 0x76 { Some(0x0bu8) }   // \v
    else if escape == 0x5c { Some(0x5cu8) }   // \\
    else if escape == 0x22 { Some(0x22u8) }   // \"
    else { None }
}

/// An octal digit, `0` to `7`.
pub open spec fn is_octal(byte: u8) -> bool {
    0x30 <= byte <= 0x37
}

/// How many octal digits stand at `at`, counting no more than `room`.
pub open spec fn octal_count(input: Seq<u8>, at: int, room: nat) -> nat
    decreases room,
{
    if room == 0 || at < 0 || at >= input.len() || !is_octal(input[at]) {
        0
    } else {
        1 + octal_count(input, at + 1, (room - 1) as nat)
    }
}

/// The value of the `count` octal digits at `at`.
pub open spec fn octal_value(input: Seq<u8>, at: int, count: nat) -> nat
    decreases count,
{
    if count == 0 {
        0
    } else {
        octal_value(input, at, (count - 1) as nat) * 8 + (input[at + count - 1] - 0x30) as nat
    }
}

/// `byte` in front of whatever a read produced.
pub open spec fn then(byte: u8, rest: Result<(Seq<u8>, int), Unquoted>) -> Result<
    (Seq<u8>, int),
    Unquoted,
> {
    match rest {
        Ok((bytes, end)) => Ok((seq![byte] + bytes, end)),
        Err(error) => Err(error),
    }
}

/// `prefix` in front of whatever a read produced.
pub open spec fn prefixed(prefix: Seq<u8>, rest: Result<(Seq<u8>, int), Unquoted>) -> Result<
    (Seq<u8>, int),
    Unquoted,
> {
    match rest {
        Ok((bytes, end)) => Ok((prefix + bytes, end)),
        Err(error) => Err(error),
    }
}

/// Read a quoted path from `at`, just inside the opening quote or anywhere
/// after it: the bytes up to the closing quote, and the offset just past it.
pub open spec fn unquote_from(input: Seq<u8>, at: int) -> Result<(Seq<u8>, int), Unquoted>
    decreases (if 0 <= at < input.len() { input.len() - at } else { 0 }),
{
    if at < 0 || at >= input.len() {
        Err(Unquoted::Unterminated)
    } else if input[at] == 0x22 {
        Ok((Seq::empty(), at + 1))
    } else if input[at] == 0x5c {
        if at + 1 >= input.len() {
            Err(Unquoted::DanglingEscape)
        } else {
            let escape = input[at + 1];
            match simple_escape(escape) {
                Some(byte) => then(byte, unquote_from(input, at + 2)),
                None => if is_octal(escape) {
                    let count = 1 + octal_count(input, at + 2, 2);
                    let value = octal_value(input, at + 1, count);
                    if value > 255 {
                        Err(Unquoted::UnknownEscape(escape))
                    } else {
                        then(value as u8, unquote_from(input, at + 1 + count))
                    }
                } else {
                    Err(Unquoted::UnknownEscape(escape))
                },
            }
        }
    } else {
        then(input[at], unquote_from(input, at + 1))
    }
}

/// A quoted path, read from its opening quote.
pub open spec fn spec_unquote(input: Seq<u8>) -> Result<(Seq<u8>, int), Unquoted> {
    unquote_from(input, 1)
}

/// Whether a byte may travel raw in a path.
///
/// Printable ASCII above the space, which is what may travel raw, and the
/// space itself where the position allows one. Anything else is quoted so that
/// a stream stays byte-exact through tools that would otherwise be tempted to
/// re-encode it.
pub open spec fn plain(byte: u8, must_quote_space: bool) -> bool {
    if byte == 0x22 || byte == 0x5c {
        false
    } else if byte == 0x20 {
        !must_quote_space
    } else {
        0x21 <= byte <= 0x7e
    }
}

/// Whether a whole path may travel raw.
pub open spec fn all_plain(path: Seq<u8>, must_quote_space: bool) -> bool {
    path.len() > 0 && forall|i: int| 0 <= i < path.len() ==> plain(#[trigger] path[i], must_quote_space)
}

/// How one byte is spelled inside a quoted path.
pub open spec fn escaped(byte: u8) -> Seq<u8> {
    if byte == 0x07 { seq![0x5cu8, 0x61u8] }
    else if byte == 0x08 { seq![0x5cu8, 0x62u8] }
    else if byte == 0x0c { seq![0x5cu8, 0x66u8] }
    else if byte == 0x0a { seq![0x5cu8, 0x6eu8] }
    else if byte == 0x0d { seq![0x5cu8, 0x72u8] }
    else if byte == 0x09 { seq![0x5cu8, 0x74u8] }
    else if byte == 0x0b { seq![0x5cu8, 0x76u8] }
    else if byte == 0x5c { seq![0x5cu8, 0x5cu8] }
    else if byte == 0x22 { seq![0x5cu8, 0x22u8] }
    else if 0x20 <= byte <= 0x7e { seq![byte] }
    else {
        seq![
            0x5cu8,
            (0x30 + byte / 64) as u8,
            (0x30 + (byte / 8) % 8) as u8,
            (0x30 + byte % 8) as u8,
        ]
    }
}

/// Every byte of a path, escaped.
pub open spec fn escape_all(path: Seq<u8>) -> Seq<u8>
    decreases path.len(),
{
    if path.len() == 0 {
        Seq::empty()
    } else {
        escape_all(path.drop_last()) + escaped(path.last())
    }
}

/// A path the way the stream wants it: raw if it can be, quoted if it must be.
pub open spec fn spec_quote(path: Seq<u8>, must_quote_space: bool) -> Seq<u8> {
    if all_plain(path, must_quote_space) {
        path
    } else {
        seq![0x22u8] + escape_all(path) + seq![0x22u8]
    }
}

// ---------------------------------------------------------------------------
// Reading
// ---------------------------------------------------------------------------

proof fn lemma_prefixed_then(prefix: Seq<u8>, byte: u8, rest: Result<(Seq<u8>, int), Unquoted>)
    ensures
        prefixed(prefix, then(byte, rest)) == prefixed(prefix.push(byte), rest),
{
    if let Ok((bytes, end)) = rest {
        assert(prefix + (seq![byte] + bytes) == prefix.push(byte) + bytes);
    }
}

proof fn lemma_octal_count_bounded(input: Seq<u8>, at: int, room: nat)
    requires
        0 <= at,
    ensures
        octal_count(input, at, room) <= room,
        octal_count(input, at, room) > 0 ==> at + octal_count(input, at, room) <= input.len(),
        forall|i: int| at <= i < at + octal_count(input, at, room) ==> is_octal(#[trigger] input[i]),
    decreases room,
{
    if room > 0 && at < input.len() && is_octal(input[at]) {
        lemma_octal_count_bounded(input, at + 1, (room - 1) as nat);
    }
}

/// Octal digits are counted the same in two inputs that agree wherever the
/// count looks.
proof fn lemma_octal_count_same(a: Seq<u8>, b: Seq<u8>, at: int, room: nat, bound: int)
    requires
        0 <= at,
        at + (if octal_count(a, at, room) < room {
            octal_count(a, at, room) + 1int
        } else {
            room as int
        }) <= bound,
        bound <= a.len(),
        bound <= b.len(),
        forall|i: int| at <= i < bound ==> a[i] == b[i],
    ensures
        octal_count(a, at, room) == octal_count(b, at, room),
    decreases room,
{
    if room > 0 && at < a.len() && is_octal(a[at]) {
        lemma_octal_count_same(a, b, at + 1, (room - 1) as nat, bound);
    }
}

/// Octal digits have the same value in two inputs that agree on them.
proof fn lemma_octal_value_same(a: Seq<u8>, b: Seq<u8>, at: int, count: nat)
    requires
        forall|i: int| at <= i < at + count ==> a[i] == b[i],
    ensures
        octal_value(a, at, count) == octal_value(b, at, count),
    decreases count,
{
    if count > 0 {
        lemma_octal_value_same(a, b, at, (count - 1) as nat);
        assert(a[at + count - 1] == b[at + count - 1]);
    }
}

/// A read from `at` that succeeds ends just past a `"` of the input, gives
/// back fewer bytes than it passed over, and reads the same whatever follows
/// that quote.
proof fn lemma_unquote_stops(input: Seq<u8>, at: int, rest: Seq<u8>)
    requires
        0 <= at,
        unquote_from(input, at) is Ok,
    ensures
        ({
            let (out, end) = unquote_from(input, at)->Ok_0;
            &&& at < end <= input.len()
            &&& input[end - 1] == 0x22
            &&& out.len() <= end - 1 - at
            &&& unquote_from(input.subrange(0, end) + rest, at) == unquote_from(input, at)
        }),
    decreases input.len() - at,
{
    let (out, end) = unquote_from(input, at)->Ok_0;
    let other = input.subrange(0, end) + rest;
    if input[at] == 0x22 {
        assert(other[at] == input[at]);
    } else if input[at] == 0x5c {
        let escape = input[at + 1];
        match simple_escape(escape) {
            Some(byte) => {
                lemma_unquote_stops(input, at + 2, rest);
                assert(other[at] == input[at] && other[at + 1] == input[at + 1]);
            },
            None => {
                let count = 1 + octal_count(input, at + 2, 2);
                lemma_octal_count_bounded(input, at + 2, 2);
                lemma_unquote_stops(input, at + 1 + count, rest);
                assert(forall|i: int| 0 <= i < end ==> other[i] == input[i]);
                lemma_octal_count_same(input, other, at + 2, 2, end);
                lemma_octal_value_same(input, other, at + 1, count);
            },
        }
    } else {
        lemma_unquote_stops(input, at + 1, rest);
        assert(other[at] == input[at]);
    }
}

/// A quoted path ends at its closing quote: a read that succeeds ends just
/// past a `"` of the input, no sooner than the second byte, gives back at most
/// the bytes between the two quotes, and reads the same whatever follows the
/// closing quote.
pub proof fn a_quoted_path_ends_at_its_closing_quote(input: Seq<u8>, rest: Seq<u8>)
    requires
        input.len() > 0,
        input[0] == 0x22,
        spec_unquote(input) is Ok,
    ensures
        ({
            let (out, end) = spec_unquote(input)->Ok_0;
            &&& 2 <= end <= input.len()
            &&& input[end - 1] == 0x22
            &&& out.len() <= end - 2
            &&& spec_unquote(input.subrange(0, end) + rest) == spec_unquote(input)
        }),
{
    lemma_unquote_stops(input, 1, rest);
}

/// Read a quoted path, and say where it ended.
///
/// `input` must begin at the opening `"`. Returns the path's real bytes and the
/// offset just past the closing quote, so a caller reading `R <src> <dst>` can
/// carry on at the space.
pub fn unquote(input: &[u8]) -> (result: Result<(Vec<u8>, usize), Unquoted>)
    requires
        input@.len() > 0,
        input@[0] == 0x22,
    ensures
        match result {
            Ok((bytes, end)) => spec_unquote(input@) == Ok::<(Seq<u8>, int), Unquoted>(
                (bytes@, end as int),
            ),
            Err(error) => spec_unquote(input@) == Err::<(Seq<u8>, int), Unquoted>(error),
        },
{
    let mut out: Vec<u8> = Vec::new();
    let mut at: usize = 1;
    assert(out@ + Seq::<u8>::empty() == out@);
    while at < input.len()
        invariant
            1 <= at,
            spec_unquote(input@) == prefixed(out@, unquote_from(input@, at as int)),
        decreases input@.len() - at,
    {
        let byte = input[at];
        if byte == 0x22 {
            assert(out@ + Seq::<u8>::empty() == out@);
            return Ok((out, at + 1));
        } else if byte == 0x5c {
            if at + 1 >= input.len() {
                return Err(Unquoted::DanglingEscape);
            }
            let escape = input[at + 1];
            let simple: Option<u8> = if escape == 0x61 {
                Some(0x07u8)
            } else if escape == 0x62 {
                Some(0x08u8)
            } else if escape == 0x66 {
                Some(0x0cu8)
            } else if escape == 0x6e {
                Some(0x0au8)
            } else if escape == 0x72 {
                Some(0x0du8)
            } else if escape == 0x74 {
                Some(0x09u8)
            } else if escape == 0x76 {
                Some(0x0bu8)
            } else if escape == 0x5c {
                Some(0x5cu8)
            } else if escape == 0x22 {
                Some(0x22u8)
            } else {
                None
            };
            assert(simple == simple_escape(escape));
            match simple {
                Some(decoded) => {
                    proof {
                        lemma_prefixed_then(out@, decoded, unquote_from(input@, at + 2));
                    }
                    out.push(decoded);
                    at = at + 2;
                },
                None => {
                    if 0x30 <= escape && escape <= 0x37 {
                        // `\ooo`, one to three octal digits. Git writes three and
                        // reads up to three; reading fewer costs nothing and
                        // accepts a stream some other frontend wrote.
                        let first: usize = at + 1;
                        let mut value: u32 = (escape - 0x30) as u32;
                        let mut digits: usize = 1;
                        at = at + 2;
                        proof {
                            lemma_octal_count_bounded(input@, first as int + 1, 2);
                            reveal_with_fuel(octal_value, 2);
                        }
                        while digits < 3 && at < input.len() && 0x30 <= input[at] && input[at]
                            <= 0x37
                            invariant
                                1 <= digits <= 3,
                                at == first + digits,
                                first < input@.len(),
                                value == octal_value(input@, first as int, digits as nat),
                                value < (if digits == 1 { 8u32 } else if digits == 2 { 64u32 } else { 512u32 }),
                                1 + octal_count(input@, first as int + 1, 2) == digits
                                    + octal_count(input@, at as int, (3 - digits) as nat),
                            decreases 3 - digits,
                        {
                            value = value * 8 + (input[at] - 0x30) as u32;
                            at = at + 1;
                            digits = digits + 1;
                        }
                        proof {
                            assert(octal_count(input@, at as int, (3 - digits) as nat) == 0);
                        }
                        // Three octal digits can spell 0o777, which is larger
                        // than a byte. Git never writes one; refuse rather than
                        // truncate, because truncating invents a path.
                        if value > 255 {
                            return Err(Unquoted::UnknownEscape(escape));
                        }
                        let decoded = value as u8;
                        proof {
                            lemma_prefixed_then(out@, decoded, unquote_from(input@, at as int));
                        }
                        out.push(decoded);
                    } else {
                        return Err(Unquoted::UnknownEscape(escape));
                    }
                },
            }
        } else {
            proof {
                lemma_prefixed_then(out@, byte, unquote_from(input@, at + 1));
            }
            out.push(byte);
            at = at + 1;
        }
    }
    Err(Unquoted::Unterminated)
}

// ---------------------------------------------------------------------------
// Writing
// ---------------------------------------------------------------------------

fn plain_byte(byte: u8, must_quote_space: bool) -> (result: bool)
    ensures
        result == plain(byte, must_quote_space),
{
    if byte == 0x22 || byte == 0x5c {
        false
    } else if byte == 0x20 {
        !must_quote_space
    } else {
        0x21 <= byte && byte <= 0x7e
    }
}

fn push_escaped(out: &mut Vec<u8>, byte: u8)
    ensures
        final(out)@ == old(out)@ + escaped(byte),
{
    let ghost before = out@;
    if byte == 0x07 {
        out.push(0x5c);
        out.push(0x61);
    } else if byte == 0x08 {
        out.push(0x5c);
        out.push(0x62);
    } else if byte == 0x0c {
        out.push(0x5c);
        out.push(0x66);
    } else if byte == 0x0a {
        out.push(0x5c);
        out.push(0x6e);
    } else if byte == 0x0d {
        out.push(0x5c);
        out.push(0x72);
    } else if byte == 0x09 {
        out.push(0x5c);
        out.push(0x74);
    } else if byte == 0x0b {
        out.push(0x5c);
        out.push(0x76);
    } else if byte == 0x5c {
        out.push(0x5c);
        out.push(0x5c);
    } else if byte == 0x22 {
        out.push(0x5c);
        out.push(0x22);
    } else if 0x20 <= byte && byte <= 0x7e {
        out.push(byte);
    } else {
        out.push(0x5c);
        out.push(0x30 + byte / 64);
        out.push(0x30 + (byte / 8) % 8);
        out.push(0x30 + byte % 8);
    }
    assert(out@ == before + escaped(byte));
}

/// Write a path the way the stream wants it: raw if it can be, quoted if it
/// must be.
///
/// `must_quote_space` is for the one position where a space is not allowed to
/// be raw — the source path of a `filerename` or `filecopy`, which the reader
/// ends at the first space because it has to find the destination.
pub fn quote(path: &[u8], must_quote_space: bool) -> (out: Vec<u8>)
    ensures
        out@ == spec_quote(path@, must_quote_space),
{
    let mut raw = path.len() > 0;
    let mut at: usize = 0;
    while at < path.len()
        invariant
            at <= path@.len(),
            raw == (path@.len() > 0 && forall|i: int| 0 <= i < at ==> plain(#[trigger] path@[i], must_quote_space)),
        decreases path@.len() - at,
    {
        if !plain_byte(path[at], must_quote_space) {
            raw = false;
        }
        at = at + 1;
    }
    if raw {
        return crate::bytes::copy(path);
    }
    let mut out: Vec<u8> = Vec::new();
    out.push(0x22);
    let mut at: usize = 0;
    while at < path.len()
        invariant
            at <= path@.len(),
            out@ == seq![0x22u8] + escape_all(path@.subrange(0, at as int)),
        decreases path@.len() - at,
    {
        proof {
            assert(path@.subrange(0, at + 1).drop_last() == path@.subrange(0, at as int));
        }
        push_escaped(&mut out, path[at]);
        at = at + 1;
    }
    assert(path@.subrange(0, path@.len() as int) == path@);
    out.push(0x22);
    out
}

// ---------------------------------------------------------------------------
// The law: the two directions are one rule
// ---------------------------------------------------------------------------

proof fn lemma_escape_all_concat(a: Seq<u8>, b: Seq<u8>)
    ensures
        escape_all(a + b) == escape_all(a) + escape_all(b),
    decreases b.len(),
{
    if b.len() == 0 {
        assert(a + b == a);
        assert(escape_all(a) + Seq::<u8>::empty() == escape_all(a));
    } else {
        lemma_escape_all_concat(a, b.drop_last());
        assert((a + b).drop_last() == a + b.drop_last());
        assert((a + b).last() == b.last());
    }
}

proof fn lemma_escaped_shape(byte: u8)
    ensures
        1 <= escaped(byte).len() <= 4,
        escaped(byte).len() == 1 ==> escaped(byte)[0] == byte && byte != 0x22 && byte != 0x5c,
        escaped(byte).len() > 1 ==> escaped(byte)[0] == 0x5c,
        escaped(byte).len() == 2 ==> simple_escape(escaped(byte)[1]) == Some(byte),
        escaped(byte).len() == 4 ==> {
            &&& is_octal(escaped(byte)[1])
            &&& is_octal(escaped(byte)[2])
            &&& is_octal(escaped(byte)[3])
            &&& simple_escape(escaped(byte)[1]) is None
            &&& ((escaped(byte)[1] - 0x30) * 8 + (escaped(byte)[2] - 0x30)) * 8 + (escaped(byte)[3]
                - 0x30) == byte
        },
{
    if !(byte == 0x07 || byte == 0x08 || byte == 0x0c || byte == 0x0a || byte == 0x0d || byte
        == 0x09 || byte == 0x0b || byte == 0x5c || byte == 0x22 || (0x20 <= byte <= 0x7e)) {
        assert(byte / 64 <= 3) by (bit_vector);
        assert((byte / 8) % 8 <= 7) by (bit_vector);
        assert(byte % 8 <= 7) by (bit_vector);
        assert(((byte / 64) * 8 + (byte / 8) % 8) * 8 + byte % 8 == byte) by (bit_vector);
    }
}

/// Reading the spelling of one byte gives the byte, and consumes exactly its
/// spelling.
proof fn lemma_unquote_escaped(input: Seq<u8>, at: int, byte: u8)
    requires
        1 <= at,
        at + escaped(byte).len() < input.len(),
        input.subrange(at, at + escaped(byte).len()) == escaped(byte),
    ensures
        unquote_from(input, at) == then(byte, unquote_from(input, at + escaped(byte).len())),
{
    lemma_escaped_shape(byte);
    let e = escaped(byte);
    assert(input[at] == e[0]);
    if e.len() == 2 {
        assert(input[at + 1] == e[1]);
    } else if e.len() == 4 {
        assert(input[at + 1] == e[1]);
        assert(input[at + 2] == e[2]);
        assert(input[at + 3] == e[3]);
        reveal_with_fuel(octal_count, 3);
        assert(octal_count(input, at + 2, 2) == 2);
        reveal_with_fuel(octal_value, 4);
        assert(octal_value(input, at + 1, 3) == byte);
    }
}

proof fn lemma_unquote_suffix(path: Seq<u8>, written: Seq<u8>, i: int)
    requires
        written.len() >= escape_all(path).len() + 2,
        written.subrange(0, escape_all(path).len() as int + 2) == seq![0x22u8] + escape_all(path) + seq![
            0x22u8,
        ],
        0 <= i <= path.len(),
    ensures
        unquote_from(written, 1 + escape_all(path.subrange(0, i)).len() as int) == Ok::<
            (Seq<u8>, int),
            Unquoted,
        >((path.subrange(i, path.len() as int), escape_all(path).len() as int + 2)),
    decreases path.len() - i,
{
    let at: int = 1 + escape_all(path.subrange(0, i)).len() as int;
    let quoted = seq![0x22u8] + escape_all(path) + seq![0x22u8];
    if i == path.len() {
        assert(path.subrange(0, i) == path);
        assert(written[at] == quoted[at]);
        assert(path.subrange(i, path.len() as int) == Seq::<u8>::empty());
    } else {
        let byte = path[i];
        let before = path.subrange(0, i);
        let after = path.subrange(i + 1, path.len() as int);
        assert(path == before + seq![byte] + after);
        assert(path.subrange(0, i + 1) == before + seq![byte]);
        lemma_escape_all_concat(before, seq![byte]);
        lemma_escape_all_concat(before + seq![byte], after);
        assert(escape_all(seq![byte]) == escaped(byte)) by {
            reveal_with_fuel(escape_all, 2);
            assert(seq![byte].drop_last() == Seq::<u8>::empty());
            assert(Seq::<u8>::empty() + escaped(byte) == escaped(byte));
        }
        let e = escaped(byte);
        lemma_escaped_shape(byte);
        assert(quoted == seq![0x22u8] + escape_all(before) + e + escape_all(after) + seq![0x22u8]);
        assert(written.subrange(at, at + e.len()) == e) by {
            assert(written.subrange(at, at + e.len()) =~= quoted.subrange(at, at + e.len()));
        }
        lemma_unquote_escaped(written, at, byte);
        lemma_unquote_suffix(path, written, i + 1);
        assert(seq![byte] + path.subrange(i + 1, path.len() as int) == path.subrange(
            i,
            path.len() as int,
        ));
    }
}

/// Quoting and unquoting are one rule: whatever [`quote`] writes, a reader
/// takes back to the path it came from — by [`unquote`] where it opened a
/// quote, and as the raw bytes where it did not.
pub proof fn quoting_and_unquoting_are_one_rule(path: Seq<u8>, must_quote_space: bool)
    ensures
        ({
            let written = spec_quote(path, must_quote_space);
            if written.len() > 0 && written[0] == 0x22 {
                spec_unquote(written) == Ok::<(Seq<u8>, int), Unquoted>(
                    (path, written.len() as int),
                )
            } else {
                written == path
            }
        }),
{
    let written = spec_quote(path, must_quote_space);
    if all_plain(path, must_quote_space) {
        assert(plain(path[0], must_quote_space));
    } else {
        assert(written.subrange(0, escape_all(path).len() as int + 2) == written);
        lemma_unquote_suffix(path, written, 0);
        assert(path.subrange(0, 0) == Seq::<u8>::empty());
        assert(path.subrange(0, path.len() as int) == path);
    }
}

/// A quoted path reads the same with more bytes after its closing quote:
/// the reader stops there.
pub proof fn lemma_unquote_before(path: Seq<u8>, must_quote_space: bool, more: Seq<u8>)
    requires
        !all_plain(path, must_quote_space),
    ensures
        spec_unquote(spec_quote(path, must_quote_space) + more) == Ok::<(Seq<u8>, int), Unquoted>(
            (path, spec_quote(path, must_quote_space).len() as int),
        ),
{
    let written = spec_quote(path, must_quote_space) + more;
    assert(written.subrange(0, escape_all(path).len() as int + 2) =~= spec_quote(path, must_quote_space));
    lemma_unquote_suffix(path, written, 0);
    assert(path.subrange(0, 0) == Seq::<u8>::empty());
    assert(path.subrange(0, path.len() as int) == path);
}

/// What a quoted or raw path is spelled with: no newline, and a first byte
/// that is the opening quote exactly where the path was quoted.
pub proof fn lemma_quote_shape(path: Seq<u8>, must_quote_space: bool)
    ensures
        spec_quote(path, must_quote_space).len() > 0,
        forall|i: int|
            0 <= i < spec_quote(path, must_quote_space).len() ==> spec_quote(
                path,
                must_quote_space,
            )[i] != 0x0a,
        (spec_quote(path, must_quote_space)[0] == 0x22) == !all_plain(path, must_quote_space),
        all_plain(path, must_quote_space) ==> spec_quote(path, must_quote_space) == path,
        all_plain(path, must_quote_space) && must_quote_space ==> forall|i: int|
            0 <= i < path.len() ==> path[i] != 0x20,
{
    if all_plain(path, must_quote_space) {
        assert(plain(path[0], must_quote_space));
        assert forall|i: int| 0 <= i < path.len() implies path[i] != 0x0a by {
            assert(plain(path[i], must_quote_space));
        }
        if must_quote_space {
            assert forall|i: int| 0 <= i < path.len() implies path[i] != 0x20 by {
                assert(plain(path[i], must_quote_space));
            }
        }
    } else {
        lemma_escape_all_one_line(path);
        let q = spec_quote(path, must_quote_space);
        assert forall|i: int| 0 <= i < q.len() implies q[i] != 0x0a by {
            if 0 < i < q.len() - 1 {
                assert(q[i] == escape_all(path)[i - 1]);
            }
        }
    }
}

proof fn lemma_escape_all_one_line(path: Seq<u8>)
    ensures
        forall|i: int| 0 <= i < escape_all(path).len() ==> escape_all(path)[i] != 0x0a,
    decreases path.len(),
{
    if path.len() > 0 {
        lemma_escape_all_one_line(path.drop_last());
        let byte = path.last();
        let e = escaped(byte);
        lemma_escaped_shape(byte);
        let head = escape_all(path.drop_last());
        assert forall|i: int| 0 <= i < escape_all(path).len() implies escape_all(path)[i] != 0x0a by {
            if i >= head.len() {
                assert(escape_all(path)[i] == e[i - head.len()]);
                if e.len() == 4 {
                    assert(byte / 64 <= 3) by (bit_vector);
                    assert((byte / 8) % 8 <= 7) by (bit_vector);
                    assert(byte % 8 <= 7) by (bit_vector);
                }
            }
        }
    }
}

} // verus!
