//! The git facts historica has no word for, carried across as headers.
//!
//! A commit is a function of the revision it came from, and the set that does
//! not hold is a committer distinct from the author, and a signature. Both are
//! in the commit's own bytes, so a revision that cannot state them cannot be
//! written back as the commit it came from.
//!
//! Historica takes a key with a dot in it as another tool's vocabulary: parsed,
//! hashed with everything else, never interpreted, and carried across an
//! amendment. So the fact lives in the revision's own bytes, the revision's
//! identity covers it, and a rewrite does not silently drop what made the
//! commit what it was. The keys are `git.`-qualified for the tool that owns
//! them, which is this one.

use vstd::prelude::*;
use vstd::string::StringSliceAdditionalSpecFns;
use vstd::utf8::encode_utf8;

use crate::bytes::{ascii, chars_of, lossy, text_of};
use crate::stream::quote::{escape_all, escaped, spec_quote, spec_unquote};
use crate::stream::text::{
    digit, end_without_spaces, find, find_from, parse_i64, parse_signed, read_i64, rfind,
    rfind_before, slice, trim, trim_end_spaces, trimmed,
};
use crate::stream::write::{push_offset, push_signed, signed, spell_offset};
use crate::stream::{option_view, quote, unquote, Person, PersonView};

verus! {

/// The committer, where the commit named one other than its author.
///
/// The whole line git writes, since every part of it is in the commit's bytes:
/// `Name <email> 1767348245 -0700`.
pub const COMMITTER: &'static str = "git.committer";

/// The signature, exactly as the stream carried it.
pub const SIGNATURE: &'static str = "git.signature";

/// What `gpgsig` said the signature was: `sha1 openpgp`.
///
/// Its own key rather than a prefix on the signature, because it is a different
/// fact — what the bytes are — and joining two facts in one value would need a
/// grammar to take them apart again.
pub const SIGNATURE_KIND: &'static str = "git.signature-kind";

// ---------------------------------------------------------------------------
// Header values
// ---------------------------------------------------------------------------

/// Bytes as a header value: the stream's own quoting, with spaces quoted too
/// where the value would otherwise begin or end with one.
pub open spec fn spelled(bytes: Seq<u8>) -> Seq<u8> {
    let plain = spec_quote(bytes, false);
    if plain[0] == 0x20 || plain.last() == 0x20 {
        spec_quote(bytes, true)
    } else {
        plain
    }
}

/// The bytes a header value spells: unquoted where it begins with a quote, as
/// it stands otherwise.
pub open spec fn read_value(value: Seq<u8>) -> Option<Seq<u8>> {
    if value.len() > 0 && value[0] == 0x22 {
        match spec_unquote(value) {
            Ok((bytes, _)) => Some(bytes),
            Err(_) => None,
        }
    } else {
        Some(value)
    }
}

proof fn lemma_escape_ascii(path: Seq<u8>)
    ensures
        ascii(escape_all(path)),
    decreases path.len(),
{
    if path.len() > 0 {
        lemma_escape_ascii(path.drop_last());
        let byte = path.last();
        let tail = escaped(byte);
        assert(ascii(tail)) by {
            if !(0x20 <= byte <= 0x7e) && byte != 0x07 && byte != 0x08 && byte != 0x0c && byte
                != 0x0a && byte != 0x0d && byte != 0x09 && byte != 0x0b {
                assert(byte / 64 < 4);
            }
        }
        let whole = escape_all(path);
        assert(whole == escape_all(path.drop_last()) + tail);
        assert forall|i: int| 0 <= i < whole.len() implies #[trigger] whole[i] < 128 by {
            if i < escape_all(path.drop_last()).len() {
                assert(whole[i] == escape_all(path.drop_last())[i]);
            } else {
                assert(whole[i] == tail[i - escape_all(path.drop_last()).len()]);
            }
        }
    }
}

/// What the stream's quoting writes is never empty, and is ASCII.
pub proof fn lemma_quote_ascii(path: Seq<u8>, must_quote_space: bool)
    ensures
        spec_quote(path, must_quote_space).len() > 0,
        ascii(spec_quote(path, must_quote_space)),
{
    lemma_escape_ascii(path);
    let q = spec_quote(path, must_quote_space);
    if !crate::stream::quote::all_plain(path, must_quote_space) {
        let e = escape_all(path);
        assert(q == seq![0x22u8] + e + seq![0x22u8]);
        assert forall|i: int| 0 <= i < q.len() implies #[trigger] q[i] < 128 by {
            if 0 < i < q.len() - 1 {
                assert(q[i] == e[i - 1]);
            }
        }
    } else {
        assert forall|i: int| 0 <= i < q.len() implies #[trigger] q[i] < 128 by {
            assert(crate::stream::quote::plain(path[i], must_quote_space));
        }
    }
}

/// ASCII, as text and back to bytes, is what it was.
pub proof fn lemma_ascii_text(bytes: Seq<u8>)
    requires
        ascii(bytes),
    ensures
        encode_utf8(chars_of(bytes)) == bytes,
        vstd::utf8::is_ascii_chars(chars_of(bytes)),
{
    let chars = chars_of(bytes);
    assert(vstd::utf8::is_ascii_chars(chars)) by {
        assert forall|i: int| 0 <= i < chars.len() implies '\0' <= #[trigger] chars[i] <= '\u{7f}' by {
            assert(bytes[i] < 128);
            assert(chars[i] == bytes[i] as char);
        }
    }
    vstd::utf8::is_ascii_chars_encode_utf8(chars);
    assert forall|i: int| 0 <= i < bytes.len() implies encode_utf8(chars)[i] == bytes[i] by {
        assert(chars[i] == bytes[i] as char);
        assert(chars[i] as u8 == encode_utf8(chars)[i]);
    }
    assert(encode_utf8(chars) =~= bytes);
}

/// Bytes as a header value: raw where they can be read, quoted where they
/// cannot.
///
/// Historica's rule for any header value is one line, no control characters,
/// and no leading or trailing space. A committer satisfies it as it stands and
/// stays readable; a signature is an armoured block with newlines in it and
/// does not. So the one escaping rule this crate already has — the stream's
/// own — does the second case, which means the escape a person meets in a
/// revision document is the escape they already met in the stream.
pub fn spell(bytes: &[u8]) -> (value: String)
    ensures
        value@ == chars_of(spelled(bytes@)),
        ascii(spelled(bytes@)),
{
    let plain = quote(bytes, false);
    proof {
        lemma_quote_ascii(bytes@, false);
        lemma_quote_ascii(bytes@, true);
    }
    // `quote` lets a space travel raw, and a value historica takes may not
    // begin or end with one. Quoting spaces too is the fallback, and it is only
    // ever reached by a name somebody padded.
    let spelled = if plain[0] == 0x20 || plain[plain.len() - 1] == 0x20 {
        quote(bytes, true)
    } else {
        plain
    };
    text_of(&spelled)
}

/// The bytes a header value spells, whichever way [`spell`] wrote it.
pub fn read(value: &str) -> (bytes: Option<Vec<u8>>)
    ensures
        option_view(bytes) == read_value(value.spec_bytes()),
{
    let raw = value.as_bytes();
    if raw.len() > 0 && raw[0] == 0x22 {
        match unquote(raw) {
            Ok((bytes, _)) => Some(bytes),
            Err(_) => None,
        }
    } else {
        Some(crate::bytes::copy(raw))
    }
}

/// Bytes, any bytes, survive being spelled as a header value and read back.
pub proof fn a_header_value_reads_back_as_it_was_spelled(bytes: Seq<u8>)
    ensures
        read_value(encode_utf8(chars_of(spelled(bytes)))) == Some(bytes),
{
    lemma_quote_ascii(bytes, false);
    lemma_quote_ascii(bytes, true);
    let s = spelled(bytes);
    lemma_ascii_text(s);
    let q = s.len() > 0 && s[0] == 0x22;
    let must = spec_quote(bytes, false)[0] == 0x20 || spec_quote(bytes, false).last() == 0x20;
    crate::stream::quote::quoting_and_unquoting_are_one_rule(bytes, must);
    if !q {
        assert(s == bytes);
    }
}

// ---------------------------------------------------------------------------
// A person and a time
// ---------------------------------------------------------------------------

/// The one line git writes a person and a time on.
pub open spec fn person_line(person: PersonView) -> Seq<u8> {
    person.name + seq![0x20u8, 0x3cu8] + person.email + seq![0x3eu8, 0x20u8] + signed(
        person.seconds as int,
    ) + seq![0x20u8] + spell_offset(person.offset_minutes as int)
}

/// Text as a reader meets it: ASCII as the characters it spells, anything
/// else as `String::from_utf8_lossy` shows it.
pub open spec fn shown(bytes: Seq<u8>) -> Seq<char> {
    if ascii(bytes) {
        chars_of(bytes)
    } else {
        lossy(bytes)
    }
}

/// Where the time starts: what follows the `>` that closes the address, as
/// text, trimmed.
pub open spec fn when_of(text: Seq<u8>, close: int) -> Seq<u8> {
    trim(encode_utf8(shown(text.subrange(close + 1, text.len() as int))))
}

/// The offset's text, once the seconds and the space after them are taken.
pub open spec fn zone_of(time: Seq<u8>) -> Seq<u8> {
    let split = find_from(time, 0, 0x20);
    trim(time.subrange(split + 1, time.len() as int))
}

/// The bytes a header value spells, and where in them the address closes and
/// opens, if it does.
pub open spec fn address_of(value: Seq<u8>) -> Option<(Seq<u8>, int, int)> {
    match read_value(value) {
        None => None,
        Some(text) => match rfind_before(text, text.len() as int, 0x3e) {
            None => None,
            Some(close) => match rfind_before(text, close, 0x3c) {
                None => None,
                Some(open) => Some((text, close, open)),
            },
        },
    }
}

/// Whether reading the offset would cut a character in two: five bytes with a
/// sign first, whose fourth byte continues a character. Reading the zone
/// means slicing the text there, which std refuses: such a value is left out.
pub open spec fn splits_a_character(value: Seq<u8>) -> bool {
    match address_of(value) {
        None => false,
        Some((text, close, _)) => {
            let time = when_of(text, close);
            let split = find_from(time, 0, 0x20);
            let zone = zone_of(time);
            &&& split < time.len()
            &&& parse_i64(time.subrange(0, split)) is Some
            &&& zone.len() == 5
            &&& (zone[0] == 0x2b || zone[0] == 0x2d)
            &&& 0x80 <= zone[3] < 0xc0
        },
    }
}

/// The person a header value spells, if it spells one.
pub open spec fn person_of(value: Seq<u8>) -> Option<PersonView> {
    match address_of(value) {
        None => None,
        Some((text, close, open)) => {
            let time = when_of(text, close);
            let split = find_from(time, 0, 0x20);
            let zone = zone_of(time);
            if split >= time.len() {
                None
            } else {
                match parse_i64(time.subrange(0, split)) {
                    None => None,
                    Some(seconds) => if zone.len() != 5 || (zone[0] != 0x2b && zone[0] != 0x2d) {
                        None
                    } else {
                        match (parse_signed(zone.subrange(1, 3)), parse_signed(zone.subrange(3, 5))) {
                            (Some(hours), Some(minutes)) => Some(
                                PersonView {
                                    name: trim_end_spaces(text.subrange(0, open)),
                                    email: text.subrange(open + 1, close),
                                    seconds,
                                    offset_minutes: (if zone[0] == 0x2d {
                                        -1int
                                    } else {
                                        1int
                                    } * (hours * 60 + minutes)) as i32,
                                },
                            ),
                            _ => None,
                        }
                    },
                }
            }
        },
    }
}

/// Minutes east of UTC, as git's `+HHMM`.
pub fn offset(minutes: i32) -> (spelled: String)
    requires
        minutes != i32::MIN,
    ensures
        spelled@ == chars_of(spell_offset(minutes as int)),
{
    let mut out: Vec<u8> = Vec::new();
    push_offset(&mut out, minutes);
    proof {
        lemma_offset_ascii(minutes as int);
        assert(out@ == spell_offset(minutes as int));
    }
    text_of(&out)
}

/// A person and a time, as the one line git writes them on.
pub fn spell_person(person: &Person) -> (value: String)
    requires
        person.offset_minutes != i32::MIN,
    ensures
        value@ == chars_of(spelled(person_line(person@))),
{
    let mut line: Vec<u8> = crate::bytes::copy(&person.name);
    line.push(0x20);
    line.push(0x3c);
    crate::bytes::extend(&mut line, &person.email);
    line.push(0x3e);
    line.push(0x20);
    push_signed(&mut line, person.seconds);
    line.push(0x20);
    push_offset(&mut line, person.offset_minutes);
    proof {
        assert(line@ == person_line(person@));
    }
    spell(&line)
}

pub proof fn lemma_decimal_ascii(n: nat)
    ensures
        ascii(crate::stream::write::decimal(n)),
        crate::stream::text::all_digits(crate::stream::write::decimal(n)),
    decreases n,
{
    if n >= 10 {
        lemma_decimal_ascii(n / 10);
    }
}

proof fn lemma_offset_ascii(minutes: int)
    ensures
        ascii(spell_offset(minutes)),
{
    let size: nat = if minutes < 0 { (-minutes) as nat } else { minutes as nat };
    lemma_decimal_ascii(size / 60);
    lemma_decimal_ascii(size % 60);
    let s = spell_offset(minutes);
    assert forall|i: int| 0 <= i < s.len() implies #[trigger] s[i] < 128 by {
        let a = crate::stream::write::two_digits(size / 60);
        let b = crate::stream::write::two_digits(size % 60);
        assert(ascii(a) && ascii(b)) by {
            let da = crate::stream::write::decimal(size / 60);
            let db = crate::stream::write::decimal(size % 60);
            assert forall|j: int| 0 <= j < a.len() implies #[trigger] a[j] < 128 by {
                if size / 60 < 10 && j > 0 {
                    assert(a[j] == da[j - 1]);
                }
            }
            assert forall|j: int| 0 <= j < b.len() implies #[trigger] b[j] < 128 by {
                if size % 60 < 10 && j > 0 {
                    assert(b[j] == db[j - 1]);
                }
            }
        }
        if i > 0 && i < 1 + a.len() {
            assert(s[i] == a[i - 1]);
        } else if i >= 1 + a.len() {
            assert(s[i] == b[i - 1 - a.len()]);
        }
    }
}

proof fn lemma_one_digit(b: u8)
    ensures
        crate::stream::text::digits_value(seq![b]) == crate::stream::text::digits_value(
            Seq::<u8>::empty(),
        ) * 10 + (b - 0x30) as nat,
{
    assert(seq![b].drop_last() =~= Seq::<u8>::empty());
    assert(seq![b].last() == b);
}

/// What `i32::from_str` makes of two bytes: a sign and a digit, or two digits.
pub(crate) fn two_signed(text: &[u8], start: usize) -> (value: Option<i32>)
    requires
        start + 2 <= text@.len(),
    ensures
        match parse_signed(text@.subrange(start as int, start + 2)) {
            Some(v) => value == Some(v as i32) && -9 <= v <= 99,
            None => value is None,
        },
{
    let a = text[start];
    let b = text[start + 1];
    let ghost t = text@.subrange(start as int, start + 2);
    proof {
        assert(t[0] == a && t[1] == b);
        assert(t.drop_first() =~= seq![b]);
        assert(seq![b].drop_last() =~= Seq::<u8>::empty());
        assert(t.drop_last() =~= seq![a]);
        assert(seq![a].drop_last() =~= Seq::<u8>::empty());
        lemma_one_digit(a);
        lemma_one_digit(b);
    }
    let b_digit = 0x30 <= b && b <= 0x39;
    if a == 0x2d {
        if b_digit {
            Some(-((b - 0x30) as i32))
        } else {
            None
        }
    } else if a == 0x2b {
        if b_digit {
            Some((b - 0x30) as i32)
        } else {
            None
        }
    } else if 0x30 <= a && a <= 0x39 && b_digit {
        Some(((a - 0x30) as i32) * 10 + (b - 0x30) as i32)
    } else {
        proof {
            if !(0x30 <= a && a <= 0x39) {
                assert(!digit(t[0]));
            } else {
                assert(!digit(t[1]));
            }
        }
        None
    }
}

/// Everything after `value` is read: the bytes it spells, and where the
/// address closes and opens.
fn address(value: &str) -> (found: Option<(Vec<u8>, usize, usize)>)
    ensures
        match found {
            Some((text, close, open)) => address_of(value.spec_bytes()) == Some(
                (text@, close as int, open as int),
            ) && open < close < text@.len(),
            None => address_of(value.spec_bytes()) is None,
        },
{
    let text = match read(value) {
        Some(text) => text,
        None => return None,
    };
    let close = match rfind(&text, text.len(), 0x3e) {
        Some(close) => close,
        None => return None,
    };
    let open = match rfind(&text, close, 0x3c) {
        Some(open) => open,
        None => return None,
    };
    Some((text, close, open))
}

/// The text the time is written in: what follows the address, trimmed.
fn time_text(text: &[u8], close: usize) -> (time: Vec<u8>)
    requires
        close < text@.len(),
    ensures
        time@ == when_of(text@, close as int),
{
    let end = text.len();
    let after = slice(text, close + 1, end);
    let shown_text = text_of(&after);
    let raw = shown_text.as_str().as_bytes();
    proof {
        assert(shown_text@ == shown(after@));
        assert(raw@.subrange(0, raw@.len() as int) == raw@);
    }
    let (head, tail) = trimmed(raw, 0, raw.len());
    slice(raw, head, tail)
}

/// Whether reading the person in `value` would cut a character in two.
pub fn splits(value: &str) -> (cuts: bool)
    ensures
        cuts == splits_a_character(value.spec_bytes()),
{
    let (text, close, _) = match address(value) {
        Some(found) => found,
        None => return false,
    };
    let time = time_text(&text, close);
    let split = find(&time, 0, 0x20);
    if split >= time.len() {
        return false;
    }
    if read_i64(&time, 0, split).is_none() {
        return false;
    }
    let (head, tail) = trimmed(&time, split + 1, time.len());
    let zone = slice(&time, head, tail);
    zone.len() == 5 && (zone[0] == 0x2b || zone[0] == 0x2d) && 0x80 <= zone[3] && zone[3] < 0xc0
}

/// The same line, read back.
///
/// `None` where the value is not one, which is a header somebody else wrote
/// under a key this tool owns — reported rather than guessed at.
#[verifier::spinoff_prover]
#[verifier::rlimit(30)]
pub fn read_person(value: &str) -> (person: Option<Person>)
    requires
        !splits_a_character(value.spec_bytes()),
    ensures
        option_view(person) == person_of(value.spec_bytes()),
{
    let (text, close, open) = match address(value) {
        Some(found) => found,
        None => return None,
    };
    let name_end = end_without_spaces(&text, open);
    let name = slice(&text, 0, name_end);
    let email = slice(&text, open + 1, close);
    let time = time_text(&text, close);
    let split = find(&time, 0, 0x20);
    if split >= time.len() {
        return None;
    }
    let seconds = match read_i64(&time, 0, split) {
        Some(seconds) => seconds,
        None => return None,
    };
    let (head, tail) = trimmed(&time, split + 1, time.len());
    let zone = slice(&time, head, tail);
    if zone.len() != 5 {
        return None;
    }
    let sign: i32 = if zone[0] == 0x2d {
        -1
    } else if zone[0] == 0x2b {
        1
    } else {
        return None;
    };
    let hours = match two_signed(&zone, 1) {
        Some(hours) => hours,
        None => return None,
    };
    let minutes = match two_signed(&zone, 3) {
        Some(minutes) => minutes,
        None => return None,
    };
    let size: i32 = hours * 60 + minutes;
    let offset_minutes: i32 = if sign < 0 {
        -size
    } else {
        size
    };
    proof {
        assert(zone@ == zone_of(time@));
        assert(name@ == trim_end_spaces(text@.subrange(0, open as int)));
        assert(email@ == text@.subrange(open + 1, close as int));
        assert(address_of(value.spec_bytes()) == Some((text@, close as int, open as int)));
        assert(when_of(text@, close as int) == time@);
        assert(find_from(time@, 0, 0x20) == split as int);
        assert(parse_i64(time@.subrange(0, split as int)) == Some(seconds));
        assert(parse_signed(zone@.subrange(1, 3)) == Some(hours as int));
        assert(parse_signed(zone@.subrange(3, 5)) == Some(minutes as int));
        let v: int = hours * 60 + minutes;
        if zone@[0] == 0x2d {
            assert(-1int * v == -v) by (nonlinear_arith);
            assert(offset_minutes == -v);
        } else {
            assert(1int * v == v) by (nonlinear_arith);
            assert(offset_minutes == v);
        }
        assert(offset_minutes == ((if zone@[0] == 0x2d {
            -1int
        } else {
            1int
        }) * (hours * 60 + minutes)) as i32);
        let expected = person_of(value.spec_bytes());
        assert(expected == Some(
            PersonView {
                name: name@,
                email: email@,
                seconds: seconds,
                offset_minutes: offset_minutes,
            },
        ));
    }
    Some(Person { name, email, seconds, offset_minutes })
}

/// The same line, read back — or `None` where reading it would cut a
/// character in two, and `Some` of what [`read_person`] reads otherwise.
pub fn read_person_whole(value: &str) -> (person: Option<Option<Person>>)
    ensures
        match person {
            None => splits_a_character(value.spec_bytes()),
            Some(read) => !splits_a_character(value.spec_bytes()) && option_view(read) == person_of(
                value.spec_bytes(),
            ),
        },
{
    if splits(value) {
        None
    } else {
        Some(read_person(value))
    }
}


// ---------------------------------------------------------------------------
// What a person line promises
// ---------------------------------------------------------------------------

proof fn lemma_rfind_at(text: Seq<u8>, end: int, byte: u8, at: int)
    requires
        0 <= at < end <= text.len(),
        text[at] == byte,
        forall|i: int| at < i < end ==> text[i] != byte,
    ensures
        rfind_before(text, end, byte) == Some(at),
    decreases end,
{
    if end - 1 != at {
        lemma_rfind_at(text, end - 1, byte, at);
    }
}

proof fn lemma_find_at(text: Seq<u8>, from: int, byte: u8, at: int)
    requires
        0 <= from <= at <= text.len(),
        forall|i: int| from <= i < at ==> text[i] != byte,
        at == text.len() || text[at] == byte,
    ensures
        find_from(text, from, byte) == at,
    decreases at - from,
{
    if from < at {
        lemma_find_at(text, from + 1, byte, at);
    }
}

proof fn lemma_decimal_reads(n: nat)
    ensures
        crate::stream::write::decimal(n).len() > 0,
        crate::stream::text::all_digits(crate::stream::write::decimal(n)),
        crate::stream::text::digits_value(crate::stream::write::decimal(n)) == n,
    decreases n,
{
    let d = crate::stream::write::decimal(n);
    if n >= 10 {
        lemma_decimal_reads(n / 10);
        let e = crate::stream::write::decimal(n / 10);
        assert(d == e.push((0x30 + n % 10) as u8));
        assert(d.drop_last() == e);
        assert(d.last() == (0x30 + n % 10) as u8);
        assert(crate::stream::text::digits_value(d) == crate::stream::text::digits_value(e) * 10 + n % 10);
        assert(n == (n / 10) * 10 + n % 10);
        assert forall|i: int| 0 <= i < d.len() implies digit(#[trigger] d[i]) by {
            if i < e.len() {
                assert(d[i] == e[i]);
            }
        }
    } else {
        assert(d == seq![(0x30 + n) as u8]);
        assert(d.drop_last() =~= Seq::<u8>::empty());
        assert(d.last() == (0x30 + n) as u8);
        assert(crate::stream::text::digits_value(Seq::<u8>::empty()) == 0);
        assert(crate::stream::text::digits_value(d) == crate::stream::text::digits_value(d.drop_last()) * 10 + (d.last() - 0x30) as nat);
    }
}

/// Text that begins and ends with something other than white space is its
/// own trimming.
proof fn lemma_trim_nothing(text: Seq<u8>)
    requires
        text.len() > 0,
        text[0] == 0x2b || text[0] == 0x2d || digit(text[0]),
        digit(text.last()),
    ensures
        trim(text) == text,
{
    assert(crate::stream::text::white_head(text) == 0);
    assert(crate::stream::text::trim_head(text) == text);
    assert(crate::stream::text::white_tail(text) == 0);
}

proof fn lemma_signed_reads(n: i64)
    ensures
        parse_i64(signed(n as int)) == Some(n),
        signed(n as int).len() > 0,
        digit(signed(n as int).last()),
        signed(n as int)[0] == 0x2d || digit(signed(n as int)[0]),
        forall|i: int| 0 <= i < signed(n as int).len() ==> #[trigger] signed(n as int)[i] == 0x2d
            || digit(signed(n as int)[i]),
{
    let s = signed(n as int);
    if n < 0 {
        let m: nat = (-(n as int)) as nat;
        lemma_decimal_reads(m);
        let d = crate::stream::write::decimal(m);
        assert(s == seq![0x2du8] + d);
        assert(s.drop_first() == d);
        assert(s.last() == d.last());
        assert(digit(d[d.len() - 1]));
        assert forall|i: int| 0 <= i < s.len() implies #[trigger] s[i] == 0x2d || digit(s[i]) by {
            if i > 0 {
                assert(s[i] == d[i - 1]);
            }
        }
    } else {
        lemma_decimal_reads(n as nat);
        assert(digit(s[0]));
        assert(digit(s[s.len() - 1]));
    }
    lemma_trim_nothing(s);
}

proof fn lemma_two_digits_reads(n: nat)
    requires
        n < 100,
    ensures
        crate::stream::write::two_digits(n).len() == 2,
        parse_signed(crate::stream::write::two_digits(n)) == Some(n as int),
        digit(crate::stream::write::two_digits(n)[0]),
        digit(crate::stream::write::two_digits(n)[1]),
{
    let t = crate::stream::write::two_digits(n);
    lemma_decimal_reads(n);
    let d = crate::stream::write::decimal(n);
    if n < 10 {
        assert(d == seq![(0x30 + n) as u8]);
        assert(t == seq![0x30u8, (0x30 + n) as u8]);
        assert(t.drop_last() =~= seq![0x30u8]);
        lemma_one_digit(0x30);
        assert(crate::stream::text::digits_value(t) == n);
    } else {
        assert(d == crate::stream::write::decimal(n / 10).push((0x30 + n % 10) as u8));
        lemma_decimal_reads(n / 10);
        assert(crate::stream::write::decimal(n / 10) == seq![(0x30 + n / 10) as u8]);
        assert(digit(t[0]));
        assert(digit(t[1]));
    }
    assert(crate::stream::text::all_digits(t)) by {
        assert forall|i: int| 0 <= i < t.len() implies digit(#[trigger] t[i]) by {}
    }
}

/// The offset as git spells it, taken apart.
proof fn lemma_zone(minutes: int)
    requires
        -5999 <= minutes <= 5999,
    ensures
        ({
            let zone = spell_offset(minutes);
            let size: nat = if minutes < 0 { (-minutes) as nat } else { minutes as nat };
            &&& zone.len() == 5
            &&& zone[0] == (if minutes < 0 { 0x2du8 } else { 0x2bu8 })
            &&& digit(zone[1]) && digit(zone[2]) && digit(zone[3]) && digit(zone[4])
            &&& parse_signed(zone.subrange(1, 3)) == Some((size / 60) as int)
            &&& parse_signed(zone.subrange(3, 5)) == Some((size % 60) as int)
            &&& (if minutes < 0 { -1int } else { 1int }) * ((size / 60) * 60 + size % 60) == minutes
        }),
{
    let size: nat = if minutes < 0 { (-minutes) as nat } else { minutes as nat };
    let zone = spell_offset(minutes);
    lemma_two_digits_reads(size / 60);
    lemma_two_digits_reads(size % 60);
    let h = crate::stream::write::two_digits(size / 60);
    let m = crate::stream::write::two_digits(size % 60);
    assert(zone == seq![if minutes < 0 { 0x2du8 } else { 0x2bu8 }] + h + m);
    assert(zone.subrange(1, 3) =~= h);
    assert(zone.subrange(3, 5) =~= m);
    assert(zone[1] == h[0] && zone[2] == h[1] && zone[3] == m[0] && zone[4] == m[1]);
    assert(size == (size / 60) * 60 + size % 60);
    let sign: int = if minutes < 0 { -1int } else { 1int };
    assert(sign * (size as int) == minutes) by {
        if minutes < 0 {
            assert(-1int * (size as int) == -(size as int));
        } else {
            assert(1int * (size as int) == size as int);
        }
    }
}

/// What follows the address on a person line: a space, the seconds, a space,
/// and the offset — ASCII, and trimmed to all but the first space.
proof fn lemma_time(seconds: i64, minutes: int)
    requires
        -5999 <= minutes <= 5999,
    ensures
        ({
            let secs = signed(seconds as int);
            let zone = spell_offset(minutes);
            let body = secs + seq![0x20u8] + zone;
            let tail = seq![0x20u8] + body;
            &&& ascii(tail)
            &&& trim(encode_utf8(shown(tail))) == body
            &&& find_from(body, 0, 0x20) == secs.len()
            &&& body.subrange(0, secs.len() as int) == secs
            &&& zone_of(body) == zone
            &&& forall|i: int| 0 <= i < tail.len() ==> #[trigger] tail[i] != 0x3e
        }),
{
    let secs = signed(seconds as int);
    let zone = spell_offset(minutes);
    let body = secs + seq![0x20u8] + zone;
    let tail = seq![0x20u8] + body;
    lemma_signed_reads(seconds);
    lemma_zone(minutes);
    assert forall|i: int| 0 <= i < tail.len() implies #[trigger] tail[i] < 128 && tail[i] != 0x3e by {
        if 1 <= i < 1 + secs.len() {
            assert(tail[i] == secs[i - 1]);
        } else if i > 1 + secs.len() {
            assert(tail[i] == zone[i - 2 - secs.len()]);
        }
    }
    lemma_ascii_text(tail);
    assert(body[0] == secs[0]);
    assert(body.last() == zone[4]);
    assert(crate::stream::text::white_head(tail) == 1);
    assert(tail.subrange(1, tail.len() as int) =~= body);
    assert(crate::stream::text::white_head(body) == 0);
    assert(crate::stream::text::trim_head(body) == body);
    assert(crate::stream::text::trim_head(tail) == body);
    assert(crate::stream::text::white_tail(body) == 0);
    assert(trim(tail) == body);
    assert forall|i: int| 0 <= i < secs.len() implies body[i] != 0x20 by {
        assert(body[i] == secs[i]);
    }
    assert(body[secs.len() as int] == 0x20);
    lemma_find_at(body, 0, 0x20, secs.len() as int);
    assert(body.subrange(0, secs.len() as int) =~= secs);
    assert(body.subrange(secs.len() + 1int, body.len() as int) =~= zone);
    lemma_trim_nothing(zone);
}

/// Where a person line's address closes and opens, and what it says.
proof fn lemma_address(name: Seq<u8>, email: Seq<u8>, tail: Seq<u8>)
    requires
        name.len() == 0 || name.last() != 0x20,
        forall|i: int| 0 <= i < email.len() ==> #[trigger] email[i] != 0x3c,
        forall|i: int| 0 <= i < tail.len() ==> #[trigger] tail[i] != 0x3e,
    ensures
        ({
            let line = name + seq![0x20u8, 0x3cu8] + email + seq![0x3eu8] + tail;
            let open = name.len() + 1int;
            let close = name.len() + 2int + email.len();
            &&& rfind_before(line, line.len() as int, 0x3e) == Some(close)
            &&& rfind_before(line, close, 0x3c) == Some(open)
            &&& trim_end_spaces(line.subrange(0, open)) == name
            &&& line.subrange(open + 1, close) == email
            &&& line.subrange(close + 1, line.len() as int) == tail
        }),
{
    let line = name + seq![0x20u8, 0x3cu8] + email + seq![0x3eu8] + tail;
    let open: int = name.len() + 1int;
    let close: int = name.len() + 2int + email.len();
    assert(line[close] == 0x3e);
    assert(line[open] == 0x3c);
    assert forall|i: int| close < i < line.len() implies line[i] != 0x3e by {
        assert(line[i] == tail[i - close - 1]);
    }
    lemma_rfind_at(line, line.len() as int, 0x3e, close);
    assert forall|i: int| open < i < close implies line[i] != 0x3c by {
        assert(line[i] == email[i - open - 1]);
    }
    lemma_rfind_at(line, close, 0x3c, open);
    assert(line.subrange(0, open) =~= name.push(0x20));
    assert(name.push(0x20).drop_last() == name);
    assert(trim_end_spaces(name) == name);
    assert(trim_end_spaces(name.push(0x20)) == trim_end_spaces(name));
    assert(line.subrange(open + 1, close) =~= email);
    assert(line.subrange(close + 1, line.len() as int) =~= tail);
}

/// A committer stays readable: a person spelled as a header value and read
/// back is the person it was — for every name that does not end in a space
/// (the reader drops trailing spaces, which git's own format cannot tell
/// apart from the one before `<`), every address without a `<` in it, every
/// time, and every offset git can spell in four digits.
pub proof fn a_committer_stays_readable(person: PersonView)
    requires
        person.name.len() == 0 || person.name.last() != 0x20,
        forall|i: int| 0 <= i < person.email.len() ==> #[trigger] person.email[i] != 0x3c,
        -5999 <= person.offset_minutes <= 5999,
    ensures
        ({
            let value = encode_utf8(chars_of(spelled(person_line(person))));
            &&& !splits_a_character(value)
            &&& person_of(value) == Some(person)
        }),
{
    let line = person_line(person);
    let value = encode_utf8(chars_of(spelled(line)));
    assert(read_value(value) == Some(line)) by {
        lemma_quote_ascii(line, false);
        lemma_quote_ascii(line, true);
        lemma_ascii_text(spelled(line));
        a_header_value_reads_back_as_it_was_spelled(line);
    }
    let secs = signed(person.seconds as int);
    let minutes = person.offset_minutes as int;
    let zone = spell_offset(minutes);
    let body = secs + seq![0x20u8] + zone;
    let tail = seq![0x20u8] + body;
    lemma_time(person.seconds, minutes);
    lemma_zone(minutes);
    lemma_signed_reads(person.seconds);
    assert(line =~= person.name + seq![0x20u8, 0x3cu8] + person.email + seq![0x3eu8] + tail);
    lemma_address(person.name, person.email, tail);
    let open: int = person.name.len() + 1int;
    let close: int = person.name.len() + 2int + person.email.len();
    assert(address_of(value) == Some((line, close, open)));
    assert(when_of(line, close) == body);
}

} // verus!
