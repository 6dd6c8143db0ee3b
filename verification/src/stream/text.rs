//! The small pieces of text a stream line is taken apart into: prefixes,
//! words, trimmed numbers.
//!
//! Numbers in a stream are read the way Rust's own parsers read the text
//! `String::from_utf8_lossy` makes of the bytes: surrounding Unicode white
//! space trimmed, an optional sign, then decimal digits. [`trim`] and the
//! `parse_` specifications below say that over the bytes themselves.

use vstd::prelude::*;

verus! {

// ---------------------------------------------------------------------------
// What the pieces are
// ---------------------------------------------------------------------------

/// Whether `text` begins with `prefix`.
pub open spec fn starts_with(text: Seq<u8>, prefix: Seq<u8>) -> bool {
    prefix.len() <= text.len() && text.subrange(0, prefix.len() as int) == prefix
}

/// The index of the first `byte` at or after `from`, or the length.
pub open spec fn find_from(text: Seq<u8>, from: int, byte: u8) -> int
    decreases text.len() - from,
{
    if from >= text.len() {
        text.len() as int
    } else if text[from] == byte {
        from
    } else {
        find_from(text, from + 1, byte)
    }
}

/// The index of the last `byte` before `end`, if there is one.
pub open spec fn rfind_before(text: Seq<u8>, end: int, byte: u8) -> Option<int>
    decreases end,
{
    if end <= 0 {
        None
    } else if text[end - 1] == byte {
        Some(end - 1)
    } else {
        rfind_before(text, end - 1, byte)
    }
}

/// The bytes up to the first space.
pub open spec fn first_word(line: Seq<u8>) -> Seq<u8> {
    line.subrange(0, find_from(line, 0, 0x20))
}

/// The text without the spaces it ends with.
pub open spec fn trim_end_spaces(text: Seq<u8>) -> Seq<u8>
    decreases text.len(),
{
    if text.len() > 0 && text.last() == 0x20 {
        trim_end_spaces(text.drop_last())
    } else {
        text
    }
}

/// The text without the spaces it begins with.
pub open spec fn trim_start_spaces(text: Seq<u8>) -> Seq<u8>
    decreases text.len(),
{
    if text.len() > 0 && text[0] == 0x20 {
        trim_start_spaces(text.drop_first())
    } else {
        text
    }
}

/// One-byte white space: tab, line feed, vertical tab, form feed, carriage
/// return, space.
pub open spec fn ascii_white(byte: u8) -> bool {
    byte == 0x09 || byte == 0x0a || byte == 0x0b || byte == 0x0c || byte == 0x0d || byte == 0x20
}

/// A three-byte UTF-8 sequence that spells Unicode white space: U+1680,
/// U+2000 to U+200A, U+2028, U+2029, U+202F, U+205F, U+3000.
pub open spec fn white3(a: u8, b: u8, c: u8) -> bool {
    ||| (a == 0xe1 && b == 0x9a && c == 0x80)
    ||| (a == 0xe2 && b == 0x80 && ((0x80 <= c && c <= 0x8a) || c == 0xa8 || c == 0xa9 || c
        == 0xaf))
    ||| (a == 0xe2 && b == 0x81 && c == 0x9f)
    ||| (a == 0xe3 && b == 0x80 && c == 0x80)
}

/// A two-byte UTF-8 sequence that spells Unicode white space: U+0085, U+00A0.
pub open spec fn white2(a: u8, b: u8) -> bool {
    a == 0xc2 && (b == 0x85 || b == 0xa0)
}

/// How many bytes the white-space character the text begins with takes, or 0.
pub open spec fn white_head(text: Seq<u8>) -> nat {
    if text.len() >= 1 && ascii_white(text[0]) {
        1
    } else if text.len() >= 2 && white2(text[0], text[1]) {
        2
    } else if text.len() >= 3 && white3(text[0], text[1], text[2]) {
        3
    } else {
        0
    }
}

/// How many bytes the white-space character the text ends with takes, or 0.
pub open spec fn white_tail(text: Seq<u8>) -> nat {
    let n = text.len();
    if n >= 1 && ascii_white(text[n - 1]) {
        1
    } else if n >= 2 && white2(text[n - 2], text[n - 1]) {
        2
    } else if n >= 3 && white3(text[n - 3], text[n - 2], text[n - 1]) {
        3
    } else {
        0
    }
}

/// The text without the white space it begins with.
pub open spec fn trim_head(text: Seq<u8>) -> Seq<u8>
    decreases text.len(),
{
    if white_head(text) > 0 {
        trim_head(text.subrange(white_head(text) as int, text.len() as int))
    } else {
        text
    }
}

/// The text without the white space it ends with.
pub open spec fn trim_tail(text: Seq<u8>) -> Seq<u8>
    decreases text.len(),
{
    if white_tail(text) > 0 {
        trim_tail(text.subrange(0, text.len() - white_tail(text)))
    } else {
        text
    }
}

/// The text without the white space at either end.
pub open spec fn trim(text: Seq<u8>) -> Seq<u8> {
    trim_tail(trim_head(text))
}

/// A decimal digit.
pub open spec fn digit(byte: u8) -> bool {
    0x30 <= byte <= 0x39
}

/// A hexadecimal digit, either case.
pub open spec fn hex_digit(byte: u8) -> bool {
    digit(byte) || (0x61 <= byte <= 0x66) || (0x41 <= byte <= 0x46)
}

/// Every byte a decimal digit.
pub open spec fn all_digits(text: Seq<u8>) -> bool {
    forall|i: int| 0 <= i < text.len() ==> digit(#[trigger] text[i])
}

/// Every byte a hexadecimal digit.
pub open spec fn all_hex(text: Seq<u8>) -> bool {
    forall|i: int| 0 <= i < text.len() ==> hex_digit(#[trigger] text[i])
}

/// The value of a run of decimal digits.
pub open spec fn digits_value(text: Seq<u8>) -> nat
    decreases text.len(),
{
    if text.len() == 0 {
        0
    } else {
        digits_value(text.drop_last()) * 10 + (text.last() - 0x30) as nat
    }
}

/// Digits with an optional `+` before them, as an unsigned parser takes them.
pub open spec fn parse_unsigned(text: Seq<u8>) -> Option<nat> {
    let body = if text.len() > 0 && text[0] == 0x2b { text.drop_first() } else { text };
    if body.len() > 0 && all_digits(body) {
        Some(digits_value(body))
    } else {
        None
    }
}

/// Digits with an optional `+` or `-` before them, as a signed parser takes
/// them.
pub open spec fn parse_signed(text: Seq<u8>) -> Option<int> {
    if text.len() > 0 && text[0] == 0x2d {
        let body = text.drop_first();
        if body.len() > 0 && all_digits(body) {
            Some(-digits_value(body))
        } else {
            None
        }
    } else {
        match parse_unsigned(text) {
            Some(value) => Some(value as int),
            None => None,
        }
    }
}

/// What `u64::from_str` makes of the trimmed text.
pub open spec fn parse_u64(text: Seq<u8>) -> Option<u64> {
    match parse_unsigned(trim(text)) {
        Some(value) => if value <= u64::MAX { Some(value as u64) } else { None },
        None => None,
    }
}

/// What `usize::from_str` makes of the trimmed text.
pub open spec fn parse_usize(text: Seq<u8>) -> Option<usize> {
    match parse_unsigned(trim(text)) {
        Some(value) => if value <= usize::MAX { Some(value as usize) } else { None },
        None => None,
    }
}

/// What `i64::from_str` makes of the trimmed text.
pub open spec fn parse_i64(text: Seq<u8>) -> Option<i64> {
    match parse_signed(trim(text)) {
        Some(value) => if i64::MIN <= value <= i64::MAX { Some(value as i64) } else { None },
        None => None,
    }
}

// ---------------------------------------------------------------------------
// The pieces, taken
// ---------------------------------------------------------------------------

/// Whether `text` begins with `prefix`.
pub fn begins(text: &[u8], prefix: &[u8]) -> (result: bool)
    ensures
        result == starts_with(text@, prefix@),
{
    if prefix.len() > text.len() {
        return false;
    }
    let mut at: usize = 0;
    while at < prefix.len()
        invariant
            prefix@.len() <= text@.len(),
            at <= prefix@.len(),
            forall|i: int| 0 <= i < at ==> text@[i] == prefix@[i],
        decreases prefix@.len() - at,
    {
        if text[at] != prefix[at] {
            assert(text@.subrange(0, prefix@.len() as int)[at as int] != prefix@[at as int]);
            return false;
        }
        at = at + 1;
    }
    assert(text@.subrange(0, prefix@.len() as int) =~= prefix@);
    true
}

/// Whether two byte strings are the same.
pub fn same(a: &[u8], b: &[u8]) -> (result: bool)
    ensures
        result == (a@ == b@),
{
    if a.len() != b.len() {
        return false;
    }
    let result = begins(a, b);
    proof {
        if result {
            assert(a@.subrange(0, b@.len() as int) == a@);
        } else if a@ == b@ {
            assert(a@.subrange(0, b@.len() as int) == a@);
        }
    }
    result
}

/// The index of the first `byte` at or after `from`, or the length.
pub fn find(text: &[u8], from: usize, byte: u8) -> (at: usize)
    requires
        from <= text@.len(),
    ensures
        at as int == find_from(text@, from as int, byte),
        from <= at <= text@.len(),
{
    let mut at = from;
    while at < text.len()
        invariant
            from <= at <= text@.len(),
            find_from(text@, from as int, byte) == find_from(text@, at as int, byte),
        decreases text@.len() - at,
    {
        if text[at] == byte {
            return at;
        }
        at = at + 1;
    }
    at
}

proof fn lemma_find_from_bounds(text: Seq<u8>, from: int, byte: u8)
    requires
        0 <= from <= text.len(),
    ensures
        from <= find_from(text, from, byte) <= text.len(),
        find_from(text, from, byte) < text.len() ==> text[find_from(text, from, byte)] == byte,
        forall|i: int| from <= i < find_from(text, from, byte) ==> text[i] != byte,
    decreases text.len() - from,
{
    if from < text.len() && text[from] != byte {
        lemma_find_from_bounds(text, from + 1, byte);
    }
}

/// Facts about [`find_from`] a caller can lean on.
pub proof fn find_from_facts(text: Seq<u8>, from: int, byte: u8)
    requires
        0 <= from <= text.len(),
    ensures
        from <= find_from(text, from, byte) <= text.len(),
        find_from(text, from, byte) < text.len() ==> text[find_from(text, from, byte)] == byte,
        forall|i: int| from <= i < find_from(text, from, byte) ==> text[i] != byte,
{
    lemma_find_from_bounds(text, from, byte);
}

/// The index of the last `byte` before `end`, if there is one.
pub fn rfind(text: &[u8], end: usize, byte: u8) -> (at: Option<usize>)
    requires
        end <= text@.len(),
    ensures
        match at {
            Some(at) => rfind_before(text@, end as int, byte) == Some(at as int) && at < end,
            None => rfind_before(text@, end as int, byte) is None,
        },
{
    let mut cut = end;
    while cut > 0
        invariant
            cut <= end <= text@.len(),
            rfind_before(text@, end as int, byte) == rfind_before(text@, cut as int, byte),
        decreases cut,
    {
        if text[cut - 1] == byte {
            return Some(cut - 1);
        }
        cut = cut - 1;
    }
    None
}

/// A copy of the bytes from `start` to `end`.
pub fn slice(text: &[u8], start: usize, end: usize) -> (out: Vec<u8>)
    requires
        start <= end <= text@.len(),
    ensures
        out@ == text@.subrange(start as int, end as int),
{
    let mut out: Vec<u8> = Vec::new();
    let mut at = start;
    while at < end
        invariant
            start <= at <= end <= text@.len(),
            out@ == text@.subrange(start as int, at as int),
        decreases end - at,
    {
        out.push(text[at]);
        at = at + 1;
        assert(text@.subrange(start as int, at as int) == text@.subrange(start as int, at - 1).push(
            text@[at - 1],
        ));
    }
    out
}

/// The bytes up to the first space.
pub fn word(line: &[u8]) -> (out: Vec<u8>)
    ensures
        out@ == first_word(line@),
{
    let end = find(line, 0, 0x20);
    slice(line, 0, end)
}

/// Where the text ends once the spaces it ends with are dropped.
pub fn end_without_spaces(text: &[u8], end: usize) -> (cut: usize)
    requires
        end <= text@.len(),
    ensures
        cut <= end,
        text@.subrange(0, cut as int) == trim_end_spaces(text@.subrange(0, end as int)),
{
    let mut cut = end;
    while cut > 0 && text[cut - 1] == 0x20
        invariant
            cut <= end <= text@.len(),
            trim_end_spaces(text@.subrange(0, end as int)) == trim_end_spaces(
                text@.subrange(0, cut as int),
            ),
        decreases cut,
    {
        assert(text@.subrange(0, cut as int).drop_last() == text@.subrange(0, cut - 1));
        cut = cut - 1;
    }
    cut
}

/// Where the text starts once the spaces it begins with are dropped.
pub fn start_without_spaces(text: &[u8], start: usize) -> (cut: usize)
    requires
        start <= text@.len(),
    ensures
        start <= cut <= text@.len(),
        text@.subrange(cut as int, text@.len() as int) == trim_start_spaces(
            text@.subrange(start as int, text@.len() as int),
        ),
{
    let mut cut = start;
    while cut < text.len() && text[cut] == 0x20
        invariant
            start <= cut <= text@.len(),
            trim_start_spaces(text@.subrange(start as int, text@.len() as int)) == trim_start_spaces(
                text@.subrange(cut as int, text@.len() as int),
            ),
        decreases text@.len() - cut,
    {
        assert(text@.subrange(cut as int, text@.len() as int).drop_first() == text@.subrange(
            cut + 1,
            text@.len() as int,
        ));
        cut = cut + 1;
    }
    cut
}

fn white_head_at(text: &[u8], start: usize, end: usize) -> (n: usize)
    requires
        start <= end <= text@.len(),
    ensures
        n == white_head(text@.subrange(start as int, end as int)),
{
    let piece = Ghost(text@.subrange(start as int, end as int));
    let len = end - start;
    if len >= 1 {
        let a = text[start];
        if a == 0x09 || a == 0x0a || a == 0x0b || a == 0x0c || a == 0x0d || a == 0x20 {
            return 1;
        }
    }
    if len >= 2 {
        let a = text[start];
        let b = text[start + 1];
        if a == 0xc2 && (b == 0x85 || b == 0xa0) {
            return 2;
        }
    }
    if len >= 3 {
        let a = text[start];
        let b = text[start + 1];
        let c = text[start + 2];
        if (a == 0xe1 && b == 0x9a && c == 0x80) || (a == 0xe2 && b == 0x80 && ((0x80 <= c && c
            <= 0x8a) || c == 0xa8 || c == 0xa9 || c == 0xaf)) || (a == 0xe2 && b == 0x81 && c
            == 0x9f) || (a == 0xe3 && b == 0x80 && c == 0x80) {
            return 3;
        }
    }
    0
}

fn white_tail_at(text: &[u8], start: usize, end: usize) -> (n: usize)
    requires
        start <= end <= text@.len(),
    ensures
        n == white_tail(text@.subrange(start as int, end as int)),
{
    let len = end - start;
    if len >= 1 {
        let a = text[end - 1];
        if a == 0x09 || a == 0x0a || a == 0x0b || a == 0x0c || a == 0x0d || a == 0x20 {
            return 1;
        }
    }
    if len >= 2 {
        let a = text[end - 2];
        let b = text[end - 1];
        if a == 0xc2 && (b == 0x85 || b == 0xa0) {
            return 2;
        }
    }
    if len >= 3 {
        let a = text[end - 3];
        let b = text[end - 2];
        let c = text[end - 1];
        if (a == 0xe1 && b == 0x9a && c == 0x80) || (a == 0xe2 && b == 0x80 && ((0x80 <= c && c
            <= 0x8a) || c == 0xa8 || c == 0xa9 || c == 0xaf)) || (a == 0xe2 && b == 0x81 && c
            == 0x9f) || (a == 0xe3 && b == 0x80 && c == 0x80) {
            return 3;
        }
    }
    0
}

/// The span of `text[start..end]` that is left once the white space at either
/// end is dropped.
pub fn trimmed(text: &[u8], start: usize, end: usize) -> (span: (usize, usize))
    requires
        start <= end <= text@.len(),
    ensures
        start <= span.0 <= span.1 <= end,
        text@.subrange(span.0 as int, span.1 as int) == trim(
            text@.subrange(start as int, end as int),
        ),
{
    let mut head = start;
    loop
        invariant
            start <= head <= end <= text@.len(),
            trim_head(text@.subrange(start as int, end as int)) == trim_head(
                text@.subrange(head as int, end as int),
            ),
        ensures
            start <= head <= end,
            trim_head(text@.subrange(start as int, end as int)) == text@.subrange(
                head as int,
                end as int,
            ),
        decreases end - head,
    {
        let n = white_head_at(text, head, end);
        if n == 0 {
            assert(trim_head(text@.subrange(head as int, end as int)) == text@.subrange(
                head as int,
                end as int,
            ));
            break;
        }
        assert(text@.subrange(head as int, end as int).subrange(n as int, (end - head) as int)
            == text@.subrange(head + n, end as int));
        head = head + n;
    }
    let mut tail = end;
    loop
        invariant
            start <= head <= tail <= end <= text@.len(),
            trim_head(text@.subrange(start as int, end as int)) == text@.subrange(
                head as int,
                end as int,
            ),
            trim_tail(text@.subrange(head as int, end as int)) == trim_tail(
                text@.subrange(head as int, tail as int),
            ),
        ensures
            start <= head <= tail <= end,
            trim(text@.subrange(start as int, end as int)) == text@.subrange(
                head as int,
                tail as int,
            ),
        decreases tail - head,
    {
        let n = white_tail_at(text, head, tail);
        if n == 0 {
            assert(trim_tail(text@.subrange(head as int, tail as int)) == text@.subrange(
                head as int,
                tail as int,
            ));
            break;
        }
        assert(text@.subrange(head as int, tail as int).subrange(0, (tail - head - n) as int)
            == text@.subrange(head as int, tail - n));
        tail = tail - n;
    }
    (head, tail)
}

/// The value of `text[start..end]` if it is one or more decimal digits whose
/// value fits a `u64`.
pub fn read_digits(text: &[u8], start: usize, end: usize) -> (value: Option<u64>)
    requires
        start <= end <= text@.len(),
    ensures
        value == ({
            let body = text@.subrange(start as int, end as int);
            if body.len() > 0 && all_digits(body) && digits_value(body) <= u64::MAX {
                Some(digits_value(body) as u64)
            } else {
                None::<u64>
            }
        }),
{
    let ghost body = text@.subrange(start as int, end as int);
    if start == end {
        return None;
    }
    let mut at = start;
    let mut value: u128 = 0;
    let mut over = false;
    while at < end
        invariant
            start < end <= text@.len(),
            start <= at <= end,
            body == text@.subrange(start as int, end as int),
            forall|i: int| start <= i < at ==> digit(#[trigger] text@[i]),
            !over ==> value == digits_value(text@.subrange(start as int, at as int)),
            !over ==> value <= u64::MAX,
            over ==> digits_value(text@.subrange(start as int, at as int)) > u64::MAX,
        decreases end - at,
    {
        let byte = text[at];
        assert(byte == text@[at as int]);
        if byte < 0x30 || byte > 0x39 {
            proof {
                assert(!digit(text@[at as int]));
                assert(body[at - start] == text@[at as int]);
                assert(!all_digits(body));
            }
            return None;
        }
        assert(text@.subrange(start as int, at + 1).drop_last() == text@.subrange(
            start as int,
            at as int,
        ));
        if !over {
            value = value * 10 + (byte - 0x30) as u128;
            if value > 0xffff_ffff_ffff_ffff {
                over = true;
            }
        }
        at = at + 1;
    }
    assert(text@.subrange(start as int, end as int) == body);
    assert(all_digits(body));
    if over {
        None
    } else {
        Some(value as u64)
    }
}

/// What `u64::from_str` makes of the trimmed text.
pub fn read_u64(text: &[u8], start: usize, end: usize) -> (value: Option<u64>)
    requires
        start <= end <= text@.len(),
    ensures
        value == parse_u64(text@.subrange(start as int, end as int)),
{
    let (head, tail) = trimmed(text, start, end);
    let ghost trimmed_text = text@.subrange(head as int, tail as int);
    let mut at = head;
    if at < tail && text[at] == 0x2b {
        at = at + 1;
        assert(trimmed_text.drop_first() == text@.subrange(at as int, tail as int));
    } else {
        assert(trimmed_text == text@.subrange(at as int, tail as int));
    }
    read_digits(text, at, tail)
}

/// What `usize::from_str` makes of the trimmed text.
pub fn read_usize(text: &[u8], start: usize, end: usize) -> (value: Option<usize>)
    requires
        start <= end <= text@.len(),
    ensures
        value == parse_usize(text@.subrange(start as int, end as int)),
{
    match read_u64(text, start, end) {
        Some(value) => {
            if value as u128 <= usize::MAX as u128 {
                Some(value as usize)
            } else {
                None
            }
        },
        None => None,
    }
}

/// What `i64::from_str` makes of the trimmed text.
pub fn read_i64(text: &[u8], start: usize, end: usize) -> (value: Option<i64>)
    requires
        start <= end <= text@.len(),
    ensures
        value == parse_i64(text@.subrange(start as int, end as int)),
{
    let (head, tail) = trimmed(text, start, end);
    let ghost trimmed_text = text@.subrange(head as int, tail as int);
    if head < tail && text[head] == 0x2d {
        assert(trimmed_text.drop_first() == text@.subrange(head + 1, tail as int));
        match read_digits(text, head + 1, tail) {
            Some(size) => {
                if size <= 0x8000_0000_0000_0000 {
                    let value: i64 = (-(size as i128)) as i64;
                    Some(value)
                } else {
                    None
                }
            },
            None => None,
        }
    } else {
        let mut at = head;
        if at < tail && text[at] == 0x2b {
            at = at + 1;
            assert(trimmed_text.drop_first() == text@.subrange(at as int, tail as int));
        } else {
            assert(trimmed_text == text@.subrange(at as int, tail as int));
        }
        match read_digits(text, at, tail) {
            Some(value) => {
                if value <= 0x7fff_ffff_ffff_ffff {
                    Some(value as i64)
                } else {
                    None
                }
            },
            None => None,
        }
    }
}

} // verus!
