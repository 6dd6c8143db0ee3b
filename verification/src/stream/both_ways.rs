//! Reading what was written: a command the writer spells reads back as the
//! command it was.
//!
//! The grammar in [`super::grammar`] says what a reader makes of bytes, and
//! the spelling in [`super::write`] says what bytes a writer makes of a
//! command. [`a_written_stream_reads_back`] is the proof that the two agree:
//! whatever the writer spells, the reader takes back to the commands it came
//! from — for every command whose lines can hold what it carries.

use vstd::prelude::*;

use super::grammar::{
    data, data_ref, optional_encoding, optional_field, optional_mark, optional_oid, optional_person,
    optional_ref, optional_signature, piece, put_back, state_ok, take_line, State,
};
use super::quote::{
    all_plain, lemma_quote_shape, lemma_unquote_before, quoting_and_unquoting_are_one_rule,
    spec_quote,
};
use super::read::{FaultView, Refusal, Which};
use super::{
    option_text, option_view, Blob, Change, ChangeView, Content, DataRef, DataRefView, Mark,
    Command, CommandView, Commit, Person, PersonView, Reset, Signature, SignatureView, Tag,
};
use super::text::{
    all_digits, ascii_white, digits_value, find_from, find_from_facts, parse_i64, parse_signed,
    parse_u64, parse_unsigned, parse_usize, rfind_before, starts_with, trim, trim_end_spaces, trim_head,
    trim_start_spaces, trim_tail, white_head, white_tail,
};
use super::write::{
    decimal, lit, signed, spell_change, spell_command, spell_data, spell_encoding, spell_from, spell_mark,
    spell_changes, spell_merges, spell_named,
    spell_author, spell_commit_tail, spell_offset, spell_original, spell_person, spell_signature,
    spell_tagger, two_digits, utf8,
};

verus! {

// ---------------------------------------------------------------------------
// Where a reader stands, in terms of the bytes
// ---------------------------------------------------------------------------

/// The input from `at` on.
pub open spec fn tail(input: Seq<u8>, at: int) -> Seq<u8> {
    input.subrange(at, input.len() as int)
}

/// `bytes` stand in `input` from `at` on.
#[verifier::opaque]
pub open spec fn stands(input: Seq<u8>, at: int, bytes: Seq<u8>) -> bool {
    0 <= at <= input.len() && starts_with(tail(input, at), bytes)
}

/// No newline among the bytes: what one line of a stream can hold.
pub open spec fn one_line(bytes: Seq<u8>) -> bool {
    forall|i: int| 0 <= i < bytes.len() ==> bytes[i] != 0x0a
}

/// A reader that stands at `p`: it has taken nothing past it, or it has taken
/// the line that starts there and put it back.
pub open spec fn reader_at(input: Seq<u8>, s: State, p: int) -> bool {
    &&& state_ok(input, s)
    &&& match s.pending {
        None => s.at == p,
        Some(span) => {
            &&& span.0 == p
            &&& p < input.len()
            &&& span.1 == find_from(input, p, 0x0a)
            &&& s.at == if span.1 < input.len() {
                span.1 + 1
            } else {
                input.len() as int
            }
        },
    }
}

proof fn lemma_find_newline(input: Seq<u8>, from: int, end: int)
    requires
        0 <= from <= end < input.len(),
        input[end] == 0x0a,
        forall|i: int| from <= i < end ==> input[i] != 0x0a,
    ensures
        find_from(input, from, 0x0a) == end,
    decreases end - from,
{
    if from < end {
        lemma_find_newline(input, from + 1, end);
    }
}

/// What stands at `p`, byte by byte.
proof fn lemma_begins(input: Seq<u8>, p: int, bytes: Seq<u8>)
    requires
        stands(input, p, bytes),
    ensures
        0 <= p,
        p + bytes.len() <= input.len(),
        forall|i: int| 0 <= i < bytes.len() ==> input[p + i] == bytes[i],
        input.subrange(p, p + bytes.len()) == bytes,
{
    reveal(stands);
    assert forall|i: int| 0 <= i < bytes.len() implies input[p + i] == bytes[i] by {
        assert(tail(input, p).subrange(0, bytes.len() as int)[i] == bytes[i]);
    }
    assert(input.subrange(p, p + bytes.len()) =~= bytes);
}

/// What stands at `p` as two pieces: the first at `p`, the second after it.
proof fn lemma_split(input: Seq<u8>, p: int, first: Seq<u8>, second: Seq<u8>)
    requires
        stands(input, p, first + second),
    ensures
        stands(input, p, first),
        stands(input, p + first.len(), second),
        p + first.len() + second.len() <= input.len(),
{
    reveal(stands);
    lemma_begins(input, p, first + second);
    assert(tail(input, p).subrange(0, first.len() as int) =~= first) by {
        assert forall|i: int| 0 <= i < first.len() implies tail(input, p)[i] == first[i] by {
            assert(input[p + i] == (first + second)[i]);
        }
    }
    assert(tail(input, p + first.len()).subrange(0, second.len() as int) =~= second) by {
        assert forall|i: int| 0 <= i < second.len() implies tail(input, p + first.len())[i]
            == second[i] by {
            assert(input[p + (first.len() + i)] == (first + second)[first.len() + i]);
        }
    }
}

/// The line that stands at `p`, taken whole.
#[verifier::spinoff_prover]
#[verifier::rlimit(50)]
proof fn lemma_take(input: Seq<u8>, s: State, p: int, line: Seq<u8>)
    requires
        reader_at(input, s, p),
        one_line(line),
        stands(input, p, line.push(0x0a)),
    ensures
        ({
            let (taken, s1) = take_line(input, s);
            &&& taken == Some((p as usize, (p + line.len()) as usize))
            &&& piece(input, (p as usize, (p + line.len()) as usize)) == line
            &&& s1.pending is None
            &&& reader_at(input, s1, p + line.len() + 1)
        }),
{
    lemma_begins(input, p, line.push(0x0a));
    assert forall|i: int| p <= i < p + line.len() implies input[i] != 0x0a by {
        assert(input[p + (i - p)] == line.push(0x0a)[i - p]);
    }
    assert(input[p + line.len()] == line.push(0x0a)[line.len() as int]);
    lemma_find_newline(input, p, p + line.len());
    assert(input.subrange(p, p + line.len()) =~= line.push(0x0a).subrange(0, line.len() as int));
    assert(line.push(0x0a).subrange(0, line.len() as int) =~= line);
}

/// A reader at the end takes nothing.
proof fn lemma_take_at_end(input: Seq<u8>, s: State)
    requires
        reader_at(input, s, input.len() as int),
    ensures
        take_line(input, s) == (None::<(usize, usize)>, s),
{
}

/// An optional line whose prefix is not what stands at `p` is left where it
/// is.
#[verifier::spinoff_prover]
#[verifier::rlimit(50)]
proof fn lemma_absent(input: Seq<u8>, s: State, p: int, prefix: Seq<u8>)
    requires
        reader_at(input, s, p),
        prefix.len() > 0,
        p == input.len() || (p < input.len() && input[p] != prefix[0]),
    ensures
        ({
            let (field, s1) = optional_field(input, s, prefix);
            &&& field is None
            &&& reader_at(input, s1, p)
        }),
{
    if p < input.len() {
        find_from_facts(input, p, 0x0a);
        let (taken, s1) = take_line(input, s);
        let span = taken.unwrap();
        assert(span.0 == p);
        let text = piece(input, span);
        if starts_with(text, prefix) {
            assert(text.subrange(0, prefix.len() as int)[0] == text[0]);
            assert(text[0] == input[p]);
        }
    }
}

/// What stands at `q` does not begin with `prefix`: the end, or other bytes.
pub open spec fn not_prefixed(input: Seq<u8>, q: int, prefix: Seq<u8>) -> bool {
    q == input.len() || (0 <= q < input.len() && !starts_with(tail(input, q), prefix))
}

/// An optional line whose prefix does not begin what stands at `p` is left
/// where it is.
#[verifier::spinoff_prover]
proof fn lemma_absent_text(input: Seq<u8>, s: State, p: int, prefix: Seq<u8>)
    requires
        reader_at(input, s, p),
        prefix.len() > 0,
        not_prefixed(input, p, prefix),
    ensures
        ({
            let (field, s1) = optional_field(input, s, prefix);
            &&& field is None
            &&& reader_at(input, s1, p)
        }),
{
    if p < input.len() {
        find_from_facts(input, p, 0x0a);
        let (taken, s1) = take_line(input, s);
        let span = taken.unwrap();
        assert(span.0 == p);
        let text = piece(input, span);
        if starts_with(text, prefix) {
            assert(tail(input, p).subrange(0, prefix.len() as int) =~= prefix) by {
                assert forall|i: int| 0 <= i < prefix.len() implies tail(input, p)[i] == prefix[i] by {
                    assert(text.subrange(0, prefix.len() as int)[i] == text[i]);
                    assert(text[i] == input[p + i]);
                }
            }
        }
    }
}

/// An optional line whose prefix stands at `p` is taken, and what follows
/// the prefix is what the field holds.
#[verifier::spinoff_prover]
#[verifier::rlimit(50)]
proof fn lemma_present(input: Seq<u8>, s: State, p: int, prefix: Seq<u8>, rest: Seq<u8>)
    requires
        reader_at(input, s, p),
        one_line(prefix + rest),
        stands(input, p, (prefix + rest).push(0x0a)),
    ensures
        ({
            let (field, s1) = optional_field(input, s, prefix);
            let span = ((p + prefix.len()) as usize, (p + prefix.len() + rest.len()) as usize);
            &&& field == Some(span)
            &&& piece(input, span) == rest
            &&& s1.pending is None
            &&& reader_at(input, s1, p + prefix.len() + rest.len() + 1)
        }),
{
    let line = prefix + rest;
    lemma_take(input, s, p, line);
    assert(line.subrange(0, prefix.len() as int) =~= prefix);
    lemma_begins(input, p, line.push(0x0a));
    assert(input.subrange(p + prefix.len(), p + prefix.len() + rest.len()) =~= rest) by {
        assert forall|i: int| 0 <= i < rest.len() implies input[p + prefix.len() + i] == rest[i] by {
            assert(line.push(0x0a)[prefix.len() + i] == rest[i]);
        }
    }
}

// ---------------------------------------------------------------------------
// Numbers
// ---------------------------------------------------------------------------

proof fn lemma_decimal(n: nat)
    ensures
        decimal(n).len() >= 1,
        all_digits(decimal(n)),
        digits_value(decimal(n)) == n,
    decreases n,
{
    if n >= 10 {
        lemma_decimal(n / 10);
        let d = decimal(n / 10);
        let full = d.push((0x30 + n % 10) as u8);
        assert(full.drop_last() =~= d);
        assert(full == decimal(n));
        assert(full.last() == (0x30 + n % 10) as u8);
        assert(digits_value(full) == digits_value(d) * 10 + (full.last() - 0x30) as nat);
        assert(n == (n / 10) * 10 + n % 10);
    } else {
        let d = decimal(n);
        assert(d.drop_last() =~= Seq::<u8>::empty());
        assert(digits_value(d) == digits_value(d.drop_last()) * 10 + (d.last() - 0x30) as nat);
    }
}

/// Text whose ends are plain ASCII that is not white space trims to itself.
proof fn lemma_trim_plain(text: Seq<u8>)
    requires
        text.len() > 0,
        text[0] < 0x80,
        !ascii_white(text[0]),
        text.last() < 0x80,
        !ascii_white(text.last()),
    ensures
        trim(text) == text,
{
    assert(white_head(text) == 0);
    assert(trim_head(text) == text);
    assert(white_tail(text) == 0);
}

proof fn lemma_read_decimal(n: nat)
    ensures
        trim(decimal(n)) == decimal(n),
        parse_unsigned(decimal(n)) == Some(n),
        n <= u64::MAX ==> parse_u64(decimal(n)) == Some(n as u64),
        n <= usize::MAX ==> parse_usize(decimal(n)) == Some(n as usize),
        one_line(decimal(n)),
        decimal(n)[0] != 0x3c,
{
    lemma_decimal(n);
    let d = decimal(n);
    assert(super::text::digit(d[0]));
    assert(super::text::digit(d.last()));
    lemma_trim_plain(d);
    assert forall|i: int| 0 <= i < d.len() implies d[i] != 0x0a by {
        assert(super::text::digit(d[i]));
    }
}

proof fn lemma_read_signed(n: i64)
    ensures
        parse_i64(signed(n as int)) == Some(n),
        one_line(signed(n as int)),
        signed(n as int).len() > 0,
        signed(n as int)[0] != 0x20,
        forall|i: int| 0 <= i < signed(n as int).len() ==> signed(n as int)[i] != 0x20
            && signed(n as int)[i] != 0x3e && signed(n as int)[i] != 0x3c,
{
    let text = signed(n as int);
    if n < 0 {
        let d = decimal((-n) as nat);
        lemma_read_decimal((-n) as nat);
        lemma_decimal((-n) as nat);
        assert(text =~= seq![0x2du8] + d);
        assert(text.last() == d.last());
        assert(super::text::digit(d.last()));
        lemma_trim_plain(text);
        assert(text.drop_first() =~= d);
        assert forall|i: int| 0 <= i < text.len() implies text[i] != 0x0a && text[i] != 0x20
            && text[i] != 0x3e && text[i] != 0x3c by {
            if i > 0 {
                assert(text[i] == d[i - 1]);
                assert(super::text::digit(d[i - 1]));
            }
        }
    } else {
        lemma_read_decimal(n as nat);
        lemma_decimal(n as nat);
        assert forall|i: int| 0 <= i < text.len() implies text[i] != 0x20 && text[i] != 0x3e
            && text[i] != 0x3c by {
            assert(super::text::digit(text[i]));
        }
    }
}

proof fn lemma_two_digits(n: nat)
    requires
        n < 100,
    ensures
        two_digits(n) == seq![(0x30 + n / 10) as u8, (0x30 + n % 10) as u8],
{
    if n >= 10 {
        assert(decimal(n / 10) == seq![(0x30 + n / 10) as u8]);
        assert(decimal(n) =~= seq![(0x30 + n / 10) as u8, (0x30 + n % 10) as u8]);
    } else {
        assert(two_digits(n) =~= seq![(0x30 + n / 10) as u8, (0x30 + n % 10) as u8]);
    }
}

/// An offset within a hundred hours either way reads back as itself.
proof fn lemma_read_offset(minutes: i32)
    requires
        -6000 < minutes < 6000,
    ensures
        super::grammar::offset(spell_offset(minutes as int)) == Ok::<i32, super::read::Malformed>(
            minutes,
        ),
        spell_offset(minutes as int).len() == 5,
        spell_offset(minutes as int)[0] != 0x20,
        one_line(spell_offset(minutes as int)),
        forall|i: int| 0 <= i < 5 ==> spell_offset(minutes as int)[i] != 0x3e
            && spell_offset(minutes as int)[i] != 0x3c && spell_offset(minutes as int)[i] != 0x20,
{
    let size: nat = if minutes < 0 { (-minutes) as nat } else { minutes as nat };
    let hours = size / 60;
    let rest = size % 60;
    lemma_two_digits(hours);
    lemma_two_digits(rest);
    let text = spell_offset(minutes as int);
    assert(text =~= seq![
        if minutes < 0 { 0x2du8 } else { 0x2bu8 },
        (0x30 + hours / 10) as u8,
        (0x30 + hours % 10) as u8,
        (0x30 + rest / 10) as u8,
        (0x30 + rest % 10) as u8,
    ]);
    assert(trim_end_spaces(text) == text);
    assert(all_digits(text.subrange(1, 5)));
    assert(hours == (hours / 10) * 10 + hours % 10);
    assert(rest == (rest / 10) * 10 + rest % 10);
    assert(size == hours * 60 + rest);
}


// ---------------------------------------------------------------------------
// The words both sides spell
// ---------------------------------------------------------------------------

/// The bytes of the words the writer and the reader share, a few at a time.
proof fn lemma_words_data()
    ensures
        lit("data ") == seq![0x64u8, 0x61u8, 0x74u8, 0x61u8, 0x20u8],
        lit("<<") == seq![0x3cu8, 0x3cu8],
        lit("\n") == seq![0x0au8],
{
    reveal_strlit("data ");
    vstd::string::is_ascii_spec_bytes("data ");
    assert(lit("data ") =~= seq![0x64u8, 0x61u8, 0x74u8, 0x61u8, 0x20u8]);
    reveal_strlit("<<");
    vstd::string::is_ascii_spec_bytes("<<");
    assert(lit("<<") =~= seq![0x3cu8, 0x3cu8]);
    reveal_strlit("\n");
    vstd::string::is_ascii_spec_bytes("\n");
    assert(lit("\n") =~= seq![0x0au8]);
}

proof fn lemma_words_person()
    ensures
        lit(" ") == seq![0x20u8],
        lit(" <") == seq![0x20u8, 0x3cu8],
        lit("> ") == seq![0x3eu8, 0x20u8],
        lit("\n") == seq![0x0au8],
        lit("author") == seq![0x61u8, 0x75u8, 0x74u8, 0x68u8, 0x6fu8, 0x72u8],
        lit("author ") == seq![0x61u8, 0x75u8, 0x74u8, 0x68u8, 0x6fu8, 0x72u8, 0x20u8],
        lit("committer") == seq![0x63u8, 0x6fu8, 0x6du8, 0x6du8, 0x69u8, 0x74u8, 0x74u8, 0x65u8, 0x72u8],
        lit("committer ") == seq![0x63u8, 0x6fu8, 0x6du8, 0x6du8, 0x69u8, 0x74u8, 0x74u8, 0x65u8, 0x72u8, 0x20u8],
        lit("tagger") == seq![0x74u8, 0x61u8, 0x67u8, 0x67u8, 0x65u8, 0x72u8],
        lit("tagger ") == seq![0x74u8, 0x61u8, 0x67u8, 0x67u8, 0x65u8, 0x72u8, 0x20u8],
{
    reveal_strlit(" ");
    vstd::string::is_ascii_spec_bytes(" ");
    assert(lit(" ") =~= seq![0x20u8]);
    reveal_strlit(" <");
    vstd::string::is_ascii_spec_bytes(" <");
    assert(lit(" <") =~= seq![0x20u8, 0x3cu8]);
    reveal_strlit("> ");
    vstd::string::is_ascii_spec_bytes("> ");
    assert(lit("> ") =~= seq![0x3eu8, 0x20u8]);
    reveal_strlit("\n");
    vstd::string::is_ascii_spec_bytes("\n");
    assert(lit("\n") =~= seq![0x0au8]);
    reveal_strlit("author");
    vstd::string::is_ascii_spec_bytes("author");
    assert(lit("author") =~= seq![0x61u8, 0x75u8, 0x74u8, 0x68u8, 0x6fu8, 0x72u8]);
    reveal_strlit("author ");
    vstd::string::is_ascii_spec_bytes("author ");
    assert(lit("author ") =~= seq![0x61u8, 0x75u8, 0x74u8, 0x68u8, 0x6fu8, 0x72u8, 0x20u8]);
    reveal_strlit("committer");
    vstd::string::is_ascii_spec_bytes("committer");
    assert(lit("committer") =~= seq![0x63u8, 0x6fu8, 0x6du8, 0x6du8, 0x69u8, 0x74u8, 0x74u8, 0x65u8, 0x72u8]);
    reveal_strlit("committer ");
    vstd::string::is_ascii_spec_bytes("committer ");
    assert(lit("committer ") =~= seq![0x63u8, 0x6fu8, 0x6du8, 0x6du8, 0x69u8, 0x74u8, 0x74u8, 0x65u8, 0x72u8, 0x20u8]);
    reveal_strlit("tagger");
    vstd::string::is_ascii_spec_bytes("tagger");
    assert(lit("tagger") =~= seq![0x74u8, 0x61u8, 0x67u8, 0x67u8, 0x65u8, 0x72u8]);
    reveal_strlit("tagger ");
    vstd::string::is_ascii_spec_bytes("tagger ");
    assert(lit("tagger ") =~= seq![0x74u8, 0x61u8, 0x67u8, 0x67u8, 0x65u8, 0x72u8, 0x20u8]);
}

proof fn lemma_words_fields()
    ensures
        lit("mark ") == seq![0x6du8, 0x61u8, 0x72u8, 0x6bu8, 0x20u8],
        lit("mark :") == seq![0x6du8, 0x61u8, 0x72u8, 0x6bu8, 0x20u8, 0x3au8],
        lit(":") == seq![0x3au8],
        lit("original-oid ") == seq![0x6fu8, 0x72u8, 0x69u8, 0x67u8, 0x69u8, 0x6eu8, 0x61u8, 0x6cu8, 0x2du8, 0x6fu8, 0x69u8, 0x64u8, 0x20u8],
        lit("encoding ") == seq![0x65u8, 0x6eu8, 0x63u8, 0x6fu8, 0x64u8, 0x69u8, 0x6eu8, 0x67u8, 0x20u8],
        lit("gpgsig ") == seq![0x67u8, 0x70u8, 0x67u8, 0x73u8, 0x69u8, 0x67u8, 0x20u8],
        lit("from ") == seq![0x66u8, 0x72u8, 0x6fu8, 0x6du8, 0x20u8],
        lit("merge ") == seq![0x6du8, 0x65u8, 0x72u8, 0x67u8, 0x65u8, 0x20u8],
        lit("\n") == seq![0x0au8],
{
    reveal_strlit("mark ");
    vstd::string::is_ascii_spec_bytes("mark ");
    assert(lit("mark ") =~= seq![0x6du8, 0x61u8, 0x72u8, 0x6bu8, 0x20u8]);
    reveal_strlit("mark :");
    vstd::string::is_ascii_spec_bytes("mark :");
    assert(lit("mark :") =~= seq![0x6du8, 0x61u8, 0x72u8, 0x6bu8, 0x20u8, 0x3au8]);
    reveal_strlit(":");
    vstd::string::is_ascii_spec_bytes(":");
    assert(lit(":") =~= seq![0x3au8]);
    reveal_strlit("original-oid ");
    vstd::string::is_ascii_spec_bytes("original-oid ");
    assert(lit("original-oid ") =~= seq![0x6fu8, 0x72u8, 0x69u8, 0x67u8, 0x69u8, 0x6eu8, 0x61u8, 0x6cu8, 0x2du8, 0x6fu8, 0x69u8, 0x64u8, 0x20u8]);
    reveal_strlit("encoding ");
    vstd::string::is_ascii_spec_bytes("encoding ");
    assert(lit("encoding ") =~= seq![0x65u8, 0x6eu8, 0x63u8, 0x6fu8, 0x64u8, 0x69u8, 0x6eu8, 0x67u8, 0x20u8]);
    reveal_strlit("gpgsig ");
    vstd::string::is_ascii_spec_bytes("gpgsig ");
    assert(lit("gpgsig ") =~= seq![0x67u8, 0x70u8, 0x67u8, 0x73u8, 0x69u8, 0x67u8, 0x20u8]);
    reveal_strlit("from ");
    vstd::string::is_ascii_spec_bytes("from ");
    assert(lit("from ") =~= seq![0x66u8, 0x72u8, 0x6fu8, 0x6du8, 0x20u8]);
    reveal_strlit("merge ");
    vstd::string::is_ascii_spec_bytes("merge ");
    assert(lit("merge ") =~= seq![0x6du8, 0x65u8, 0x72u8, 0x67u8, 0x65u8, 0x20u8]);
    reveal_strlit("\n");
    vstd::string::is_ascii_spec_bytes("\n");
    assert(lit("\n") =~= seq![0x0au8]);
}

proof fn lemma_words_changes()
    ensures
        lit("inline") == seq![0x69u8, 0x6eu8, 0x6cu8, 0x69u8, 0x6eu8, 0x65u8],
        lit("inline ") == seq![0x69u8, 0x6eu8, 0x6cu8, 0x69u8, 0x6eu8, 0x65u8, 0x20u8],
        lit("deleteall") == seq![0x64u8, 0x65u8, 0x6cu8, 0x65u8, 0x74u8, 0x65u8, 0x61u8, 0x6cu8, 0x6cu8],
        lit("deleteall\n") == seq![0x64u8, 0x65u8, 0x6cu8, 0x65u8, 0x74u8, 0x65u8, 0x61u8, 0x6cu8, 0x6cu8, 0x0au8],
        lit("M ") == seq![0x4du8, 0x20u8],
        lit("D ") == seq![0x44u8, 0x20u8],
        lit("R ") == seq![0x52u8, 0x20u8],
        lit("C ") == seq![0x43u8, 0x20u8],
        lit("N ") == seq![0x4eu8, 0x20u8],
        lit(" ") == seq![0x20u8],
        lit("\n") == seq![0x0au8],
{
    reveal_strlit("inline");
    vstd::string::is_ascii_spec_bytes("inline");
    assert(lit("inline") =~= seq![0x69u8, 0x6eu8, 0x6cu8, 0x69u8, 0x6eu8, 0x65u8]);
    reveal_strlit("inline ");
    vstd::string::is_ascii_spec_bytes("inline ");
    assert(lit("inline ") =~= seq![0x69u8, 0x6eu8, 0x6cu8, 0x69u8, 0x6eu8, 0x65u8, 0x20u8]);
    reveal_strlit("deleteall");
    vstd::string::is_ascii_spec_bytes("deleteall");
    assert(lit("deleteall") =~= seq![0x64u8, 0x65u8, 0x6cu8, 0x65u8, 0x74u8, 0x65u8, 0x61u8, 0x6cu8, 0x6cu8]);
    reveal_strlit("deleteall\n");
    vstd::string::is_ascii_spec_bytes("deleteall\n");
    assert(lit("deleteall\n") =~= seq![0x64u8, 0x65u8, 0x6cu8, 0x65u8, 0x74u8, 0x65u8, 0x61u8, 0x6cu8, 0x6cu8, 0x0au8]);
    reveal_strlit("M ");
    vstd::string::is_ascii_spec_bytes("M ");
    assert(lit("M ") =~= seq![0x4du8, 0x20u8]);
    reveal_strlit("D ");
    vstd::string::is_ascii_spec_bytes("D ");
    assert(lit("D ") =~= seq![0x44u8, 0x20u8]);
    reveal_strlit("R ");
    vstd::string::is_ascii_spec_bytes("R ");
    assert(lit("R ") =~= seq![0x52u8, 0x20u8]);
    reveal_strlit("C ");
    vstd::string::is_ascii_spec_bytes("C ");
    assert(lit("C ") =~= seq![0x43u8, 0x20u8]);
    reveal_strlit("N ");
    vstd::string::is_ascii_spec_bytes("N ");
    assert(lit("N ") =~= seq![0x4eu8, 0x20u8]);
    reveal_strlit(" ");
    vstd::string::is_ascii_spec_bytes(" ");
    assert(lit(" ") =~= seq![0x20u8]);
    reveal_strlit("\n");
    vstd::string::is_ascii_spec_bytes("\n");
    assert(lit("\n") =~= seq![0x0au8]);
}

proof fn lemma_words_commands()
    ensures
        lit("blob") == seq![0x62u8, 0x6cu8, 0x6fu8, 0x62u8],
        lit("blob\n") == seq![0x62u8, 0x6cu8, 0x6fu8, 0x62u8, 0x0au8],
        lit("done") == seq![0x64u8, 0x6fu8, 0x6eu8, 0x65u8],
        lit("done\n") == seq![0x64u8, 0x6fu8, 0x6eu8, 0x65u8, 0x0au8],
        lit("commit ") == seq![0x63u8, 0x6fu8, 0x6du8, 0x6du8, 0x69u8, 0x74u8, 0x20u8],
        lit("tag ") == seq![0x74u8, 0x61u8, 0x67u8, 0x20u8],
        lit("reset ") == seq![0x72u8, 0x65u8, 0x73u8, 0x65u8, 0x74u8, 0x20u8],
        lit("progress ") == seq![0x70u8, 0x72u8, 0x6fu8, 0x67u8, 0x72u8, 0x65u8, 0x73u8, 0x73u8, 0x20u8],
        lit("feature ") == seq![0x66u8, 0x65u8, 0x61u8, 0x74u8, 0x75u8, 0x72u8, 0x65u8, 0x20u8],
        lit("option ") == seq![0x6fu8, 0x70u8, 0x74u8, 0x69u8, 0x6fu8, 0x6eu8, 0x20u8],
        lit("\n") == seq![0x0au8],
{
    reveal_strlit("blob");
    vstd::string::is_ascii_spec_bytes("blob");
    assert(lit("blob") =~= seq![0x62u8, 0x6cu8, 0x6fu8, 0x62u8]);
    reveal_strlit("blob\n");
    vstd::string::is_ascii_spec_bytes("blob\n");
    assert(lit("blob\n") =~= seq![0x62u8, 0x6cu8, 0x6fu8, 0x62u8, 0x0au8]);
    reveal_strlit("done");
    vstd::string::is_ascii_spec_bytes("done");
    assert(lit("done") =~= seq![0x64u8, 0x6fu8, 0x6eu8, 0x65u8]);
    reveal_strlit("done\n");
    vstd::string::is_ascii_spec_bytes("done\n");
    assert(lit("done\n") =~= seq![0x64u8, 0x6fu8, 0x6eu8, 0x65u8, 0x0au8]);
    reveal_strlit("commit ");
    vstd::string::is_ascii_spec_bytes("commit ");
    assert(lit("commit ") =~= seq![0x63u8, 0x6fu8, 0x6du8, 0x6du8, 0x69u8, 0x74u8, 0x20u8]);
    reveal_strlit("tag ");
    vstd::string::is_ascii_spec_bytes("tag ");
    assert(lit("tag ") =~= seq![0x74u8, 0x61u8, 0x67u8, 0x20u8]);
    reveal_strlit("reset ");
    vstd::string::is_ascii_spec_bytes("reset ");
    assert(lit("reset ") =~= seq![0x72u8, 0x65u8, 0x73u8, 0x65u8, 0x74u8, 0x20u8]);
    reveal_strlit("progress ");
    vstd::string::is_ascii_spec_bytes("progress ");
    assert(lit("progress ") =~= seq![0x70u8, 0x72u8, 0x6fu8, 0x67u8, 0x72u8, 0x65u8, 0x73u8, 0x73u8, 0x20u8]);
    reveal_strlit("feature ");
    vstd::string::is_ascii_spec_bytes("feature ");
    assert(lit("feature ") =~= seq![0x66u8, 0x65u8, 0x61u8, 0x74u8, 0x75u8, 0x72u8, 0x65u8, 0x20u8]);
    reveal_strlit("option ");
    vstd::string::is_ascii_spec_bytes("option ");
    assert(lit("option ") =~= seq![0x6fu8, 0x70u8, 0x74u8, 0x69u8, 0x6fu8, 0x6eu8, 0x20u8]);
    reveal_strlit("\n");
    vstd::string::is_ascii_spec_bytes("\n");
    assert(lit("\n") =~= seq![0x0au8]);
}

proof fn lemma_words_modes()
    ensures
        lit("100644") == seq![0x31u8, 0x30u8, 0x30u8, 0x36u8, 0x34u8, 0x34u8],
        lit("644") == seq![0x36u8, 0x34u8, 0x34u8],
        lit("100755") == seq![0x31u8, 0x30u8, 0x30u8, 0x37u8, 0x35u8, 0x35u8],
        lit("755") == seq![0x37u8, 0x35u8, 0x35u8],
        lit("120000") == seq![0x31u8, 0x32u8, 0x30u8, 0x30u8, 0x30u8, 0x30u8],
        lit("160000") == seq![0x31u8, 0x36u8, 0x30u8, 0x30u8, 0x30u8, 0x30u8],
        lit("040000") == seq![0x30u8, 0x34u8, 0x30u8, 0x30u8, 0x30u8, 0x30u8],
{
    reveal_strlit("100644");
    vstd::string::is_ascii_spec_bytes("100644");
    assert(lit("100644") =~= seq![0x31u8, 0x30u8, 0x30u8, 0x36u8, 0x34u8, 0x34u8]);
    reveal_strlit("644");
    vstd::string::is_ascii_spec_bytes("644");
    assert(lit("644") =~= seq![0x36u8, 0x34u8, 0x34u8]);
    reveal_strlit("100755");
    vstd::string::is_ascii_spec_bytes("100755");
    assert(lit("100755") =~= seq![0x31u8, 0x30u8, 0x30u8, 0x37u8, 0x35u8, 0x35u8]);
    reveal_strlit("755");
    vstd::string::is_ascii_spec_bytes("755");
    assert(lit("755") =~= seq![0x37u8, 0x35u8, 0x35u8]);
    reveal_strlit("120000");
    vstd::string::is_ascii_spec_bytes("120000");
    assert(lit("120000") =~= seq![0x31u8, 0x32u8, 0x30u8, 0x30u8, 0x30u8, 0x30u8]);
    reveal_strlit("160000");
    vstd::string::is_ascii_spec_bytes("160000");
    assert(lit("160000") =~= seq![0x31u8, 0x36u8, 0x30u8, 0x30u8, 0x30u8, 0x30u8]);
    reveal_strlit("040000");
    vstd::string::is_ascii_spec_bytes("040000");
    assert(lit("040000") =~= seq![0x30u8, 0x34u8, 0x30u8, 0x30u8, 0x30u8, 0x30u8]);
}

// ---------------------------------------------------------------------------
// Data blocks
// ---------------------------------------------------------------------------

/// Where a reader stands after a data block that ends at `q`: past the
/// newline after it, where one follows.
pub open spec fn past_block(input: Seq<u8>, q: int) -> int {
    if q < input.len() && input[q] == 0x0a {
        q + 1
    } else {
        q
    }
}

/// A data block the writer spelled at `p` reads back as its bytes.
#[verifier::spinoff_prover]
#[verifier::rlimit(50)]
proof fn lemma_read_data(input: Seq<u8>, s: State, p: int, bytes: Seq<u8>)
    requires
        reader_at(input, s, p),
        stands(input, p, spell_data(bytes)),
    ensures
        match data(input, s) {
            Ok((read, s1)) => read == bytes && s1.pending is None && reader_at(
                input,
                s1,
                past_block(input, p + spell_data(bytes).len()),
            ),
            Err(_) => false,
        },
{
    lemma_words_data();
    lemma_read_decimal(bytes.len());
    let line = lit("data ") + decimal(bytes.len());
    assert(spell_data(bytes) =~= line.push(0x0a) + bytes);
    lemma_split(input, p, line.push(0x0a), bytes);
    assert(one_line(line)) by {
        assert forall|i: int| 0 <= i < line.len() implies line[i] != 0x0a by {
            if i >= 5 {
                assert(line[i] == decimal(bytes.len())[i - 5]);
            }
        }
    }
    lemma_take(input, s, p, line);
    lemma_begins(input, p + line.len() + 1, bytes);
    let (taken, s1) = take_line(input, s);
    let content = piece(input, taken.unwrap());
    assert(starts_with(content, lit("data "))) by {
        assert(content.subrange(0, 5) =~= lit("data "));
    }
    let rest = content.subrange(5, content.len() as int);
    assert(rest =~= decimal(bytes.len()));
    assert(!starts_with(rest, lit("<<"))) by {
        if starts_with(rest, lit("<<")) {
            assert(rest.subrange(0, 2)[0] == rest[0]);
        }
    }
    let at = s1.at + bytes.len();
    super::grammar::lemma_newlines_bounded(bytes);
}


// ---------------------------------------------------------------------------
// Names of objects
// ---------------------------------------------------------------------------

/// A hexadecimal character.
pub open spec fn hex_char(c: char) -> bool {
    ('0' <= c <= '9') || ('a' <= c <= 'f') || ('A' <= c <= 'F')
}

/// A mark, or an object ID that is hexadecimal and not empty: what a reader
/// takes back as the name it was.
pub open spec fn named_rereadable(named: DataRef) -> bool {
    match named {
        DataRef::Mark(_) => true,
        DataRef::Oid(oid) => oid@.len() > 0 && forall|i: int|
            0 <= i < oid@.len() ==> hex_char(#[trigger] oid@[i]),
    }
}

/// A name the writer spelled reads back as the name it was; its spelling is
/// one word.
#[verifier::spinoff_prover]
#[verifier::rlimit(50)]
proof fn lemma_read_named(named: DataRef)
    requires
        named_rereadable(named),
    ensures
        data_ref(spell_named(named)) == Ok::<DataRefView, FaultView>(named@),
        spell_named(named).len() > 0,
        spell_named(named)[0] != 0x20,
        spell_named(named)[0] != 0x0a,
        forall|i: int| 0 <= i < spell_named(named).len() ==> spell_named(named)[i] != 0x20
            && spell_named(named)[i] != 0x0a,
{
    lemma_words_fields();
    match named {
        DataRef::Mark(mark) => {
            let text = spell_named(named);
            lemma_read_decimal(mark.0 as nat);
            lemma_decimal(mark.0 as nat);
            let d = decimal(mark.0 as nat);
            assert(text =~= seq![0x3au8] + d);
            assert(starts_with(text, lit(":"))) by {
                assert(text.subrange(0, 1) =~= seq![0x3au8]);
            }
            assert(text.subrange(1, text.len() as int) =~= d);
            assert forall|i: int| 0 <= i < text.len() implies text[i] != 0x20 && text[i] != 0x0a by {
                if i > 0 {
                    assert(text[i] == d[i - 1]);
                    assert(super::text::digit(d[i - 1]));
                }
            }
        },
        DataRef::Oid(oid) => {
            let chars = oid@;
            let text = spell_named(named);
            assert(vstd::utf8::is_ascii_chars(chars)) by {
                assert forall|i: int| 0 <= i < chars.len() implies '\0' <= #[trigger] chars[i]
                    <= '\u{7f}' by {
                    assert(hex_char(chars[i]));
                }
            }
            vstd::utf8::is_ascii_chars_encode_utf8(chars);
            assert(text == vstd::utf8::encode_utf8(chars));
            assert forall|i: int| 0 <= i < text.len() implies super::text::hex_digit(
                #[trigger] text[i],
            ) by {
                assert(chars[i] as u8 == text[i]);
                assert(hex_char(chars[i]));
            }
            assert(super::text::hex_digit(text[0]));
            assert(super::text::hex_digit(text.last()));
            lemma_trim_plain(text);
            assert(!starts_with(text, lit(":"))) by {
                if starts_with(text, lit(":")) {
                    assert(text.subrange(0, 1)[0] == text[0]);
                }
            }
            assert(crate::bytes::chars_of(text) =~= chars) by {
                assert forall|i: int| 0 <= i < chars.len() implies crate::bytes::chars_of(text)[i]
                    == chars[i] by {
                    assert(chars[i] as u8 == text[i]);
                    assert(hex_char(chars[i]));
                }
            }
        },
    }
}


// ---------------------------------------------------------------------------
// People
// ---------------------------------------------------------------------------

/// A person whose line a reader takes back to them: a name and an address
/// on one line each, no `<` in the address for the reader to mistake for the
/// one before it, a name that does not end in a space the reader would trim,
/// and an offset under a hundred hours either way, which `+HHMM` can hold.
pub open spec fn person_rereadable(person: Person) -> bool {
    &&& one_line(person.name@)
    &&& one_line(person.email@)
    &&& forall|i: int| 0 <= i < person.email@.len() ==> person.email@[i] != 0x3c
    &&& (person.name@.len() == 0 || person.name@.last() != 0x20)
    &&& -6000 < person.offset_minutes < 6000
}

/// A person's line after its role and the space: `Name <email> seconds offset`.
pub open spec fn person_text(person: Person) -> Seq<u8> {
    person.name@ + lit(" <") + person.email@ + lit("> ") + signed(person.seconds as int) + lit(" ")
        + spell_offset(person.offset_minutes as int)
}

proof fn lemma_find_byte(text: Seq<u8>, from: int, end: int, byte: u8)
    requires
        0 <= from <= end < text.len(),
        text[end] == byte,
        forall|i: int| from <= i < end ==> text[i] != byte,
    ensures
        find_from(text, from, byte) == end,
    decreases end - from,
{
    if from < end {
        lemma_find_byte(text, from + 1, end, byte);
    }
}

proof fn lemma_rfind(text: Seq<u8>, end: int, at: int, byte: u8)
    requires
        0 <= at < end <= text.len(),
        text[at] == byte,
        forall|i: int| at < i < end ==> text[i] != byte,
    ensures
        rfind_before(text, end, byte) == Some(at),
    decreases end,
{
    if end - 1 > at {
        lemma_rfind(text, end - 1, at, byte);
    }
}

/// The time after a person's address, ` seconds offset`, reads back as the
/// seconds and the offset.
#[verifier::spinoff_prover]
#[verifier::rlimit(50)]
proof fn lemma_read_when(seconds: i64, minutes: i32)
    requires
        -6000 < minutes < 6000,
    ensures
        ({
            let after = seq![0x20u8] + signed(seconds as int) + seq![0x20u8] + spell_offset(
                minutes as int,
            );
            let when = trim_start_spaces(after);
            let split = find_from(when, 0, 0x20);
            &&& split < when.len()
            &&& parse_i64(when.subrange(0, split)) == Some(seconds)
            &&& super::grammar::offset(trim_start_spaces(when.subrange(split, when.len() as int)))
                == Ok::<i32, super::read::Malformed>(minutes)
            &&& forall|i: int| 0 <= i < after.len() ==> after[i] != 0x3e && after[i] != 0x0a
        }),
{
    let secs = signed(seconds as int);
    let off = spell_offset(minutes as int);
    lemma_read_signed(seconds);
    lemma_read_offset(minutes);
    let after = seq![0x20u8] + secs + seq![0x20u8] + off;
    let when = secs + seq![0x20u8] + off;
    assert(after.drop_first() =~= when);
    assert(trim_start_spaces(when) == when);
    assert(trim_start_spaces(after) == when);
    assert(when[secs.len() as int] == 0x20);
    lemma_find_byte(when, 0, secs.len() as int, 0x20);
    assert(when.subrange(0, secs.len() as int) =~= secs);
    let later = when.subrange(secs.len() as int, when.len() as int);
    assert(later =~= seq![0x20u8] + off);
    assert(later.drop_first() =~= off);
    assert(trim_start_spaces(off) == off);
    assert(trim_start_spaces(later) == off);
    assert forall|i: int| 0 <= i < after.len() implies after[i] != 0x3e && after[i] != 0x0a by {
        if 1 <= i < 1 + secs.len() {
            assert(after[i] == secs[i - 1]);
        } else if i >= 2 + secs.len() {
            assert(after[i] == off[i - 2 - secs.len()]);
        }
    }
}

/// A person's line reads back as the person.
#[verifier::spinoff_prover]
#[verifier::rlimit(50)]
proof fn lemma_read_person(person: Person)
    requires
        person_rereadable(person),
    ensures
        super::grammar::person(person_text(person)) == Ok::<PersonView, FaultView>(person@),
        one_line(person_text(person)),
{
    lemma_words_person();
    let name = person.name@;
    let email = person.email@;
    let after = seq![0x20u8] + signed(person.seconds as int) + seq![0x20u8] + spell_offset(
        person.offset_minutes as int,
    );
    lemma_read_when(person.seconds, person.offset_minutes);
    let text = person_text(person);
    assert(text =~= name + seq![0x20u8, 0x3cu8] + email + seq![0x3eu8] + after);
    let open = name.len() as int + 1;
    let close: int = name.len() as int + 2 + email.len();
    assert(text[close] == 0x3e);
    assert(text[open] == 0x3c);
    assert(text.subrange(close + 1, text.len() as int) =~= after);
    assert forall|i: int| close < i < text.len() implies text[i] != 0x3e by {
        assert(text[i] == after[i - close - 1]);
    }
    lemma_rfind(text, text.len() as int, close, 0x3e);
    assert forall|i: int| open < i < close implies text[i] != 0x3c by {
        assert(text[i] == email[i - open - 1]);
    }
    lemma_rfind(text, close, open, 0x3c);
    assert(text.subrange(0, open) =~= name.push(0x20));
    assert(name.push(0x20).drop_last() =~= name);
    assert(trim_end_spaces(name) == name);
    assert(trim_end_spaces(name.push(0x20)) == name);
    assert(text.subrange(open + 1, close) =~= email);
    assert forall|i: int| 0 <= i < text.len() implies text[i] != 0x0a by {
        if i < name.len() {
            assert(text[i] == name[i]);
        } else if open < i < close {
            assert(text[i] == email[i - open - 1]);
        } else if i > close {
            assert(text[i] == after[i - close - 1]);
        }
    }
}


// ---------------------------------------------------------------------------
// The optional lines of a command
// ---------------------------------------------------------------------------

/// What stands at `q` is not a line that begins with `byte`: the end, or
/// another byte.
pub open spec fn not_next(input: Seq<u8>, q: int, byte: u8) -> bool {
    q == input.len() || (0 <= q < input.len() && input[q] != byte)
}

/// A `mark` line, where the writer spelled one, reads back as the mark.
#[verifier::spinoff_prover]
#[verifier::rlimit(50)]
proof fn lemma_read_mark(input: Seq<u8>, s: State, p: int, mark: Option<Mark>)
    requires
        reader_at(input, s, p),
        stands(input, p, spell_mark(mark)),
        mark is None ==> not_next(input, p, 0x6d),
    ensures
        match optional_mark(input, s) {
            Ok((read, s1)) => read == mark && reader_at(input, s1, p + spell_mark(mark).len()),
            Err(_) => false,
        },
{
    lemma_words_fields();
    match mark {
        None => {
            lemma_absent(input, s, p, lit("mark "));
        },
        Some(m) => {
            let named = DataRef::Mark(m);
            lemma_read_named(named);
            let rest = spell_named(named);
            assert(spell_mark(mark) =~= (lit("mark ") + rest).push(0x0a));
            assert(one_line(lit("mark ") + rest)) by {
                assert forall|i: int| 0 <= i < (lit("mark ") + rest).len() implies (lit("mark ")
                    + rest)[i] != 0x0a by {
                    if i >= 5 {
                        assert((lit("mark ") + rest)[i] == rest[i - 5]);
                    }
                }
            }
            lemma_present(input, s, p, lit("mark "), rest);
        },
    }
}

/// Text spelled as UTF-8 reads back as itself.
proof fn lemma_lossy_utf8(chars: Seq<char>)
    ensures
        crate::bytes::lossy(vstd::utf8::encode_utf8(chars)) == chars,
{
    reveal(crate::bytes::lossy);
    vstd::utf8::encode_utf8_valid_utf8(chars);
    vstd::utf8::encode_utf8_decode_utf8(chars);
}

/// An `original-oid` line, where the writer spelled one, reads back as the
/// text it holds.
#[verifier::spinoff_prover]
#[verifier::rlimit(50)]
proof fn lemma_read_oid(input: Seq<u8>, s: State, p: int, oid: Option<String>)
    requires
        reader_at(input, s, p),
        stands(input, p, spell_original(oid)),
        oid matches Some(oid) ==> one_line(utf8(oid)),
        oid is None ==> not_next(input, p, 0x6f),
    ensures
        ({
            let (read, s1) = optional_oid(input, s);
            &&& read == option_text(oid)
            &&& reader_at(input, s1, p + spell_original(oid).len())
        }),
{
    lemma_words_fields();
    match oid {
        None => {
            lemma_absent(input, s, p, lit("original-oid "));
        },
        Some(text) => {
            let rest = utf8(text);
            let prefix = lit("original-oid ");
            assert(spell_original(oid) =~= (prefix + rest).push(0x0a));
            assert(one_line(prefix + rest)) by {
                assert forall|i: int| 0 <= i < (prefix + rest).len() implies (prefix + rest)[i]
                    != 0x0a by {
                    if i >= prefix.len() {
                        assert((prefix + rest)[i] == rest[i - prefix.len()]);
                    }
                }
            }
            lemma_present(input, s, p, prefix, rest);
            lemma_lossy_utf8(text@);
        },
    }
}

/// A person's line with `role`, where the writer spelled one, reads back as
/// the person.
#[verifier::spinoff_prover]
#[verifier::rlimit(50)]
proof fn lemma_read_who(input: Seq<u8>, s: State, p: int, role: Seq<u8>, who: Option<Person>)
    requires
        reader_at(input, s, p),
        role.len() > 0,
        one_line(role),
        stands(input, p, spell_who(role, who)),
        who matches Some(person) ==> person_rereadable(person),
        who is None ==> not_next(input, p, role[0]),
    ensures
        match optional_person(input, s, role + lit(" ")) {
            Ok((read, s1)) => read == option_view(who) && reader_at(
                input,
                s1,
                p + spell_who(role, who).len(),
            ),
            Err(_) => false,
        },
{
    lemma_words_person();
    let prefix = role + lit(" ");
    assert(prefix[0] == role[0]);
    match who {
        None => {
            lemma_absent(input, s, p, prefix);
        },
        Some(person) => {
            lemma_read_person(person);
            let rest = person_text(person);
            assert(spell_person(role, person) =~= (prefix + rest).push(0x0a));
            assert(one_line(prefix + rest)) by {
                assert forall|i: int| 0 <= i < (prefix + rest).len() implies (prefix + rest)[i]
                    != 0x0a by {
                    if i < role.len() {
                        assert((prefix + rest)[i] == role[i]);
                    } else if i >= prefix.len() {
                        assert((prefix + rest)[i] == rest[i - prefix.len()]);
                    }
                }
            }
            lemma_present(input, s, p, prefix, rest);
        },
    }
}

/// What the writer spells for an optional person with `role`.
pub open spec fn spell_who(role: Seq<u8>, who: Option<Person>) -> Seq<u8> {
    match who {
        Some(person) => spell_person(role, person),
        None => Seq::empty(),
    }
}


/// A piece of what stands at `p` stands where it sits in it.
proof fn lemma_within(input: Seq<u8>, p: int, whole: Seq<u8>, at: int, part: Seq<u8>)
    requires
        stands(input, p, whole),
        0 <= at,
        at + part.len() <= whole.len(),
        whole.subrange(at, at + part.len()) == part,
    ensures
        stands(input, p + at, part),
        part.len() > 0 ==> p + at < input.len() && input[p + at] == part[0],
{
    reveal(stands);
    lemma_begins(input, p, whole);
    assert(tail(input, p + at).subrange(0, part.len() as int) =~= part) by {
        assert forall|i: int| 0 <= i < part.len() implies tail(input, p + at)[i] == part[i] by {
            assert(input[p + (at + i)] == whole[at + i]);
            assert(whole.subrange(at, at + part.len())[i] == whole[at + i]);
        }
    }
    if part.len() > 0 {
        assert(input[p + (at + 0)] == whole[at + 0]);
        assert(whole.subrange(at, at + part.len())[0] == whole[at]);
    }
}

/// An `encoding` line, where the writer spelled one, reads back as the name
/// it holds.
#[verifier::spinoff_prover]
#[verifier::rlimit(50)]
proof fn lemma_read_encoding(input: Seq<u8>, s: State, p: int, encoding: Option<Vec<u8>>)
    requires
        reader_at(input, s, p),
        stands(input, p, spell_encoding(encoding)),
        encoding matches Some(name) ==> one_line(name@),
        encoding is None ==> not_next(input, p, 0x65),
    ensures
        ({
            let (read, s1) = optional_encoding(input, s);
            &&& read == option_view(encoding)
            &&& reader_at(input, s1, p + spell_encoding(encoding).len())
        }),
{
    lemma_words_fields();
    let prefix = lit("encoding ");
    match encoding {
        None => {
            lemma_absent(input, s, p, prefix);
        },
        Some(name) => {
            let rest = name@;
            assert(spell_encoding(encoding) =~= (prefix + rest).push(0x0a));
            assert(one_line(prefix + rest)) by {
                assert forall|i: int| 0 <= i < (prefix + rest).len() implies (prefix + rest)[i]
                    != 0x0a by {
                    if i >= prefix.len() {
                        assert((prefix + rest)[i] == rest[i - prefix.len()]);
                    }
                }
            }
            lemma_present(input, s, p, prefix, rest);
        },
    }
}

/// A `gpgsig` header and its block, where the writer spelled one, read back
/// as the signature.
#[verifier::spinoff_prover]
#[verifier::rlimit(30)]
proof fn lemma_read_signature(input: Seq<u8>, s: State, p: int, signature: Option<Signature>)
    requires
        reader_at(input, s, p),
        stands(input, p, spell_signature(signature)),
        signature matches Some(signed) ==> one_line(signed.kind@),
        signature is None ==> not_next(input, p, 0x67),
    ensures
        match optional_signature(input, s) {
            Ok((read, s1)) => read == option_view(signature) && reader_at(
                input,
                s1,
                p + spell_signature(signature).len(),
            ),
            Err(_) => false,
        },
{
    lemma_words_fields();
    lemma_words_data();
    let prefix = lit("gpgsig ");
    match signature {
        None => {
            lemma_absent(input, s, p, prefix);
        },
        Some(signed) => {
            let rest = signed.kind@;
            let line = (prefix + rest).push(0x0a);
            let block = spell_data(signed.data@);
            let whole = spell_signature(signature);
            assert(whole =~= line + block + seq![0x0au8]);
            assert(one_line(prefix + rest)) by {
                assert forall|i: int| 0 <= i < (prefix + rest).len() implies (prefix + rest)[i]
                    != 0x0a by {
                    if i >= prefix.len() {
                        assert((prefix + rest)[i] == rest[i - prefix.len()]);
                    }
                }
            }
            assert(whole.subrange(0, line.len() as int) =~= line);
            lemma_within(input, p, whole, 0, line);
            lemma_present(input, s, p, prefix, rest);
            let (_, s1) = optional_field(input, s, prefix);
            let a: int = line.len() as int;
            let b: int = a + block.len();
            assert(whole.subrange(a, b) =~= block);
            lemma_within(input, p, whole, a, block);
            lemma_read_data(input, s1, p + a, signed.data@);
            assert(whole.subrange(b, whole.len() as int) =~= seq![0x0au8]);
            lemma_within(input, p, whole, b, seq![0x0au8]);
            assert(past_block(input, p + b) == p + b + 1);
        },
    }
}

/// A `from` line, where the writer spelled one, reads back as the name it
/// holds.
#[verifier::spinoff_prover]
#[verifier::rlimit(50)]
proof fn lemma_read_from(input: Seq<u8>, s: State, p: int, from: Option<DataRef>)
    requires
        reader_at(input, s, p),
        stands(input, p, spell_from(from)),
        from matches Some(named) ==> named_rereadable(named),
        from is None ==> not_next(input, p, 0x66) || not_prefixed(input, p, lit("from ")),
    ensures
        match optional_ref(input, s, lit("from ")) {
            Ok((read, s1)) => read == option_view(from) && reader_at(
                input,
                s1,
                p + spell_from(from).len(),
            ),
            Err(_) => false,
        },
{
    lemma_words_fields();
    let prefix = lit("from ");
    match from {
        None => {
            if not_next(input, p, 0x66) {
                lemma_absent(input, s, p, prefix);
            } else {
                lemma_absent_text(input, s, p, prefix);
            }
        },
        Some(named) => {
            lemma_read_named(named);
            let rest = spell_named(named);
            assert(spell_from(from) =~= (prefix + rest).push(0x0a));
            assert(one_line(prefix + rest)) by {
                assert forall|i: int| 0 <= i < (prefix + rest).len() implies (prefix + rest)[i]
                    != 0x0a by {
                    if i >= prefix.len() {
                        assert((prefix + rest)[i] == rest[i - prefix.len()]);
                    }
                }
            }
            lemma_present(input, s, p, prefix, rest);
        },
    }
}


// ---------------------------------------------------------------------------
// Commands
// ---------------------------------------------------------------------------

/// What the writer spells for a blob after its first line.
pub open spec fn blob_body(blob: Blob) -> Seq<u8> {
    spell_mark(blob.mark) + spell_original(blob.original_oid) + spell_data(blob.data@) + lit("\n")
}

/// The first byte of an `original-oid` line and of a data block.
proof fn lemma_first_bytes(oid: Option<String>, bytes: Seq<u8>)
    ensures
        spell_data(bytes).len() > 0,
        spell_data(bytes)[0] == 0x64,
        oid is Some ==> spell_original(oid).len() > 0 && spell_original(oid)[0] == 0x6f,
{
    lemma_words_fields();
    lemma_words_data();
}

/// The first byte of each line a person, a `from`, an `encoding` or a
/// `gpgsig` begins with, and the prefix a person's role makes.
proof fn lemma_first_bytes_of_lines(
    who: Option<Person>,
    from: Option<DataRef>,
    encoding: Option<Vec<u8>>,
    signature: Option<Signature>,
)
    ensures
        who matches Some(person) ==> spell_who(lit("author"), who).len() > 0 && spell_who(
            lit("author"),
            who,
        )[0] == 0x61 && spell_who(lit("tagger"), who).len() > 0 && spell_who(lit("tagger"), who)[0]
            == 0x74 && spell_person(lit("committer"), person)[0] == 0x63,
        lit("author") + lit(" ") == lit("author "),
        lit("tagger") + lit(" ") == lit("tagger "),
        lit("committer") + lit(" ") == lit("committer "),
        lit("author").len() > 0 && lit("author")[0] == 0x61 && one_line(lit("author")),
        lit("tagger").len() > 0 && lit("tagger")[0] == 0x74 && one_line(lit("tagger")),
        lit("committer").len() > 0 && lit("committer")[0] == 0x63 && one_line(lit("committer")),
        from is Some ==> spell_from(from).len() > 0 && spell_from(from)[0] == 0x66,
        encoding is Some ==> spell_encoding(encoding).len() > 0 && spell_encoding(encoding)[0]
            == 0x65,
        signature is Some ==> spell_signature(signature).len() > 0 && spell_signature(signature)[0]
            == 0x67,
{
    lemma_words_fields();
    lemma_words_person();
    assert(lit("author") + lit(" ") =~= lit("author "));
    assert(lit("tagger") + lit(" ") =~= lit("tagger "));
    assert(lit("committer") + lit(" ") =~= lit("committer "));
}

/// A blob the writer spelled reads back as the blob.
#[verifier::spinoff_prover]
#[verifier::rlimit(50)]
proof fn lemma_read_blob(input: Seq<u8>, s: State, p: int, blob: Blob)
    requires
        reader_at(input, s, p),
        stands(input, p, blob_body(blob)),
        blob.original_oid matches Some(oid) ==> one_line(utf8(oid)),
    ensures
        match super::grammar::blob(input, s) {
            Ok((read, s1)) => read == blob@ && reader_at(input, s1, p + blob_body(blob).len()),
            Err(_) => false,
        },
{
    lemma_words_data();
    let whole = blob_body(blob);
    let mark = spell_mark(blob.mark);
    let oid = spell_original(blob.original_oid);
    let block = spell_data(blob.data@);
    let m: int = mark.len() as int;
    let o: int = m + oid.len();
    let d: int = o + block.len();
    assert(whole =~= mark + oid + block + seq![0x0au8]);
    assert(whole.subrange(0, m) =~= mark);
    assert(whole.subrange(m, o) =~= oid);
    assert(whole.subrange(o, d) =~= block);
    assert(whole.subrange(d, d + 1) =~= seq![0x0au8]);
    lemma_within(input, p, whole, 0, mark);
    lemma_within(input, p, whole, m, oid);
    lemma_within(input, p, whole, o, block);
    lemma_within(input, p, whole, d, seq![0x0au8]);
    lemma_first_bytes(blob.original_oid, blob.data@);
    lemma_read_mark(input, s, p, blob.mark);
    let (_, s1) = optional_mark(input, s)->Ok_0;
    lemma_read_oid(input, s1, p + m, blob.original_oid);
    let (_, s2) = optional_oid(input, s1);
    lemma_read_data(input, s2, p + o, blob.data@);
    assert(past_block(input, p + d) == p + d + 1);
}

/// A reset the writer spelled reads back as the reset: at the end of the
/// input, or before what is not a `from` line.
proof fn lemma_read_reset(input: Seq<u8>, s: State, p: int, reset: Reset)
    requires
        reader_at(input, s, p),
        stands(input, p, spell_from(reset.from)),
        reset.from matches Some(named) ==> named_rereadable(named),
        reset.from is None ==> not_next(input, p, 0x66) || not_prefixed(input, p, lit("from ")),
    ensures
        match super::grammar::reset(input, s, reset.reference@) {
            Ok((read, s1)) => read == reset@ && reader_at(
                input,
                s1,
                p + spell_from(reset.from).len(),
            ),
            Err(_) => false,
        },
{
    lemma_read_from(input, s, p, reset.from);
}

/// What the writer spells for a tag after its first line.
pub open spec fn tag_body(tag: Tag) -> Seq<u8> {
    spell_mark(tag.mark) + spell_from(Some(tag.from)) + spell_original(tag.original_oid)
        + spell_tagger(tag.tagger) + spell_data(tag.message@) + lit("\n")
}

/// The first byte of what stands at `q`.
proof fn lemma_first(input: Seq<u8>, q: int, part: Seq<u8>)
    requires
        stands(input, q, part),
        part.len() > 0,
    ensures
        q < input.len(),
        input[q] == part[0],
{
    reveal(stands);
    lemma_begins(input, q, part);
    assert(input[q + 0] == part[0]);
}

/// Where each piece of a tag's body stands.
proof fn lemma_tag_layout(input: Seq<u8>, p: int, tag: Tag)
    requires
        0 <= p <= input.len(),
        stands(input, p, tag_body(tag)),
    ensures
        ({
            let m = p + spell_mark(tag.mark).len();
            let f = m + spell_from(Some(tag.from)).len();
            let o = f + spell_original(tag.original_oid).len();
            let w = o + spell_tagger(tag.tagger).len();
            let d = w + spell_data(tag.message@).len();
            &&& stands(input, p, spell_mark(tag.mark))
            &&& stands(input, m, spell_from(Some(tag.from)))
            &&& stands(input, f, spell_original(tag.original_oid))
            &&& stands(input, o, spell_tagger(tag.tagger))
            &&& stands(input, w, spell_data(tag.message@))
            &&& d < input.len() && input[d] == 0x0a
        }),
{
    lemma_words_data();
    let mark = spell_mark(tag.mark);
    let from = spell_from(Some(tag.from));
    let oid = spell_original(tag.original_oid);
    let who = spell_tagger(tag.tagger);
    let block = spell_data(tag.message@);
    lemma_split(input, p, mark + from + oid + who + block, lit("\n"));
    lemma_split(input, p, mark + from + oid + who, block);
    lemma_split(input, p, mark + from + oid, who);
    lemma_split(input, p, mark + from, oid);
    lemma_split(input, p, mark, from);
    lemma_first(input, p + (mark + from + oid + who + block).len(), lit("\n"));
}

/// How a tag is read, from what each of its lines read as.
proof fn lemma_tag_steps(
    input: Seq<u8>,
    s: State,
    name: Seq<u8>,
    view: super::TagView,
    s1: State,
    s2: State,
    s3: State,
    s4: State,
    s5: State,
)
    requires
        optional_mark(input, s) == Ok::<(Option<Mark>, State), Refusal>((view.mark, s1)),
        optional_ref(input, s1, lit("from ")) == Ok::<(Option<DataRefView>, State), Refusal>(
            (Some(view.from), s2),
        ),
        optional_oid(input, s2) == (view.original_oid, s3),
        optional_person(input, s3, lit("tagger ")) == Ok::<(Option<PersonView>, State), Refusal>(
            (view.tagger, s4),
        ),
        data(input, s4) == Ok::<(Seq<u8>, State), Refusal>((view.message, s5)),
        view.name == name,
    ensures
        super::grammar::tag(input, s, name) == Ok::<(super::TagView, State), Refusal>((view, s5)),
{
}

/// What each line of a tag the writer spelled reads back as, and where the
/// reader stands after each.
#[verifier::spinoff_prover]
#[verifier::rlimit(50)]
proof fn lemma_tag_parts(input: Seq<u8>, s: State, p: int, tag: Tag) -> (states: (
    State,
    State,
    State,
    State,
    State,
))
    requires
        reader_at(input, s, p),
        stands(input, p, tag_body(tag)),
        named_rereadable(tag.from),
        tag.original_oid matches Some(oid) ==> one_line(utf8(oid)),
        tag.tagger matches Some(person) ==> person_rereadable(person),
    ensures
        optional_mark(input, s) == Ok::<(Option<Mark>, State), Refusal>((tag.mark, states.0)),
        optional_ref(input, states.0, lit("from ")) == Ok::<(Option<DataRefView>, State), Refusal>(
            (Some(tag.from@), states.1),
        ),
        optional_oid(input, states.1) == (option_text(tag.original_oid), states.2),
        optional_person(input, states.2, lit("tagger ")) == Ok::<
            (Option<PersonView>, State),
            Refusal,
        >((option_view(tag.tagger), states.3)),
        data(input, states.3) == Ok::<(Seq<u8>, State), Refusal>((tag.message@, states.4)),
        reader_at(input, states.4, p + tag_body(tag).len()),
{
    lemma_tag_layout(input, p, tag);
    let m = p + spell_mark(tag.mark).len();
    let f = m + spell_from(Some(tag.from)).len();
    let o = f + spell_original(tag.original_oid).len();
    let w = o + spell_tagger(tag.tagger).len();
    let d = w + spell_data(tag.message@).len();
    lemma_first_bytes(tag.original_oid, tag.message@);
    lemma_first_bytes_of_lines(tag.tagger, Some(tag.from), None, None);
    assert(spell_tagger(tag.tagger) == spell_who(lit("tagger"), tag.tagger));
    lemma_first(input, m, spell_from(Some(tag.from)));
    lemma_first(input, w, spell_data(tag.message@));
    if tag.original_oid is Some {
        lemma_first(input, f, spell_original(tag.original_oid));
    }
    if tag.tagger is Some {
        lemma_first(input, o, spell_tagger(tag.tagger));
    }
    lemma_read_mark(input, s, p, tag.mark);
    let s1 = optional_mark(input, s)->Ok_0.1;
    lemma_read_from(input, s1, m, Some(tag.from));
    let s2 = optional_ref(input, s1, lit("from "))->Ok_0.1;
    lemma_read_oid(input, s2, f, tag.original_oid);
    let s3 = optional_oid(input, s2).1;
    lemma_read_who(input, s3, o, lit("tagger"), tag.tagger);
    let s4 = optional_person(input, s3, lit("tagger "))->Ok_0.1;
    lemma_read_data(input, s4, w, tag.message@);
    let s5 = data(input, s4)->Ok_0.1;
    assert(past_block(input, d) == d + 1);
    lemma_words_data();
    assert(tag_body(tag).len() == d - p + 1);
    (s1, s2, s3, s4, s5)
}

/// A tag the writer spelled reads back as the tag.
#[verifier::spinoff_prover]
#[verifier::rlimit(50)]
proof fn lemma_read_tag(input: Seq<u8>, s: State, p: int, tag: Tag)
    requires
        reader_at(input, s, p),
        stands(input, p, tag_body(tag)),
        named_rereadable(tag.from),
        tag.original_oid matches Some(oid) ==> one_line(utf8(oid)),
        tag.tagger matches Some(person) ==> person_rereadable(person),
    ensures
        match super::grammar::tag(input, s, tag.name@) {
            Ok((read, s1)) => read == tag@ && reader_at(input, s1, p + tag_body(tag).len()),
            Err(_) => false,
        },
{
    let (s1, s2, s3, s4, s5) = lemma_tag_parts(input, s, p, tag);
    lemma_tag_steps(input, s, tag.name@, tag@, s1, s2, s3, s4, s5);
}


// ---------------------------------------------------------------------------
// Paths and changes
// ---------------------------------------------------------------------------

/// A path the writer quoted, or left raw, reads back as the path.
proof fn lemma_read_path(path: Seq<u8>)
    ensures
        match super::grammar::path(spec_quote(path, true), false) {
            Ok((read, _)) => read == path,
            Err(_) => false,
        },
{
    quoting_and_unquoting_are_one_rule(path, true);
    lemma_quote_shape(path, true);
}

/// A source path the writer spelled before a space and a destination reads
/// back as the source, and says where it ended.
#[verifier::spinoff_prover]
#[verifier::rlimit(50)]
proof fn lemma_read_source(source: Seq<u8>, more: Seq<u8>)
    ensures
        super::grammar::path(spec_quote(source, true) + seq![0x20u8] + more, true) == Ok::<
            (Seq<u8>, int),
            FaultView,
        >((source, spec_quote(source, true).len() as int)),
{
    let q = spec_quote(source, true);
    let text = q + seq![0x20u8] + more;
    lemma_quote_shape(source, true);
    assert(text[0] == q[0]);
    if all_plain(source, true) {
        assert(text[q.len() as int] == 0x20);
        assert forall|i: int| 0 <= i < q.len() implies text[i] != 0x20 by {
            assert(text[i] == q[i]);
        }
        lemma_find_byte(text, 0, q.len() as int, 0x20);
        assert(text.subrange(0, q.len() as int) =~= q);
    } else {
        assert(text =~= q + (seq![0x20u8] + more));
        lemma_unquote_before(source, true, seq![0x20u8] + more);
    }
}

/// `R` and `C` lines: a source and a destination read back as they were.
#[verifier::spinoff_prover]
#[verifier::rlimit(50)]
proof fn lemma_read_two_paths(source: Seq<u8>, destination: Seq<u8>, which: Which)
    ensures
        super::grammar::two_paths(
            spec_quote(source, true) + seq![0x20u8] + spec_quote(destination, true),
            which,
        ) == Ok::<(Seq<u8>, Seq<u8>), FaultView>((source, destination)),
{
    lemma_words_changes();
    let qs = spec_quote(source, true);
    let qd = spec_quote(destination, true);
    let text = qs + seq![0x20u8] + qd;
    lemma_read_source(source, qd);
    lemma_read_path(destination);
    let rest = text.subrange(qs.len() as int, text.len() as int);
    assert(rest =~= seq![0x20u8] + qd);
    assert(starts_with(rest, lit(" "))) by {
        assert(rest.subrange(0, 1) =~= seq![0x20u8]);
    }
    assert(rest.subrange(1, rest.len() as int) =~= qd);
}

/// A change the writer spelled is one whose names read back.
pub open spec fn change_rereadable(change: Change) -> bool {
    match change {
        Change::Modify { content, .. } => content matches Content::Named(named) ==> named_rereadable(
            named,
        ),
        Change::Note { content, commit } => named_rereadable(commit) && (content matches Content::Named(
            named,
        ) ==> named_rereadable(named)),
        _ => true,
    }
}

/// The line a change begins with: the whole change but for an inline data
/// block after it.
pub open spec fn change_line(change: Change) -> Seq<u8> {
    match change {
        Change::Modify { mode, content, path } => lit("M ") + lit(super::mode_text(mode)) + lit(" ")
            + match content {
            Content::Named(named) => spell_named(named) + lit(" ") + spec_quote(path@, true),
            Content::Inline(_) => lit("inline ") + spec_quote(path@, true),
        },
        Change::Delete { path } => lit("D ") + spec_quote(path@, true),
        Change::Rename { source, destination } => lit("R ") + spec_quote(source@, true) + lit(" ")
            + spec_quote(destination@, true),
        Change::Copy { source, destination } => lit("C ") + spec_quote(source@, true) + lit(" ")
            + spec_quote(destination@, true),
        Change::DeleteAll => lit("deleteall"),
        Change::Note { content, commit } => lit("N ") + match content {
            Content::Named(named) => spell_named(named) + lit(" ") + spell_named(commit),
            Content::Inline(_) => lit("inline ") + spell_named(commit),
        },
    }
}

/// The bytes an inline change carries, if it carries any.
pub open spec fn change_block(change: Change) -> Option<Seq<u8>> {
    match change {
        Change::Modify { content: Content::Inline(bytes), .. } => Some(bytes@),
        Change::Note { content: Content::Inline(bytes), .. } => Some(bytes@),
        _ => None,
    }
}

/// A change is its line, and the data block after it where it carries one.
proof fn lemma_change_shape(change: Change)
    ensures
        spell_change(change) == match change_block(change) {
            None => change_line(change).push(0x0a),
            Some(bytes) => change_line(change).push(0x0a) + spell_data(bytes) + seq![0x0au8],
        },
{
    lemma_words_changes();
    lemma_words_data();
    match change {
        Change::Modify { mode, content, path } => {
            match content {
                Content::Named(named) => {
                    assert(spell_change(change) =~= change_line(change).push(0x0a));
                },
                Content::Inline(bytes) => {
                    assert(spell_change(change) =~= change_line(change).push(0x0a) + spell_data(
                        bytes@,
                    ) + seq![0x0au8]);
                },
            }
        },
        Change::Note { content, commit } => {
            match content {
                Content::Named(named) => {
                    assert(spell_change(change) =~= change_line(change).push(0x0a));
                },
                Content::Inline(bytes) => {
                    assert(spell_change(change) =~= change_line(change).push(0x0a) + spell_data(
                        bytes@,
                    ) + seq![0x0au8]);
                },
            }
        },
        _ => {
            assert(spell_change(change) =~= change_line(change).push(0x0a));
        },
    }
}


/// A line that begins with another byte does not begin with `prefix`.
proof fn lemma_not_starts(line: Seq<u8>, prefix: Seq<u8>)
    requires
        line.len() > 0,
        prefix.len() > 0,
        line[0] != prefix[0],
    ensures
        !starts_with(line, prefix),
        line != prefix,
{
    if starts_with(line, prefix) {
        assert(line.subrange(0, prefix.len() as int)[0] == line[0]);
    }
}

/// A line that begins with `prefix` has the rest after it.
proof fn lemma_starts(prefix: Seq<u8>, rest: Seq<u8>)
    ensures
        starts_with(prefix + rest, prefix),
        (prefix + rest).subrange(prefix.len() as int, (prefix + rest).len() as int) == rest,
{
    assert((prefix + rest).subrange(0, prefix.len() as int) =~= prefix);
    assert((prefix + rest).subrange(prefix.len() as int, (prefix + rest).len() as int) =~= rest);
}

/// A word without a space, a space, and the rest: split at that space.
proof fn lemma_split_words(word: Seq<u8>, rest: Seq<u8>, which: Which)
    requires
        forall|i: int| 0 <= i < word.len() ==> word[i] != 0x20,
    ensures
        super::grammar::split_once(word + seq![0x20u8] + rest, which) == Ok::<
            (Seq<u8>, Seq<u8>),
            FaultView,
        >((word, rest)),
{
    let text = word + seq![0x20u8] + rest;
    assert(text[word.len() as int] == 0x20);
    assert forall|i: int| 0 <= i < word.len() implies text[i] != 0x20 by {
        assert(text[i] == word[i]);
    }
    lemma_find_byte(text, 0, word.len() as int, 0x20);
    assert(text.subrange(0, word.len() as int) =~= word);
    assert(text.subrange(word.len() as int + 1, text.len() as int) =~= rest);
}

/// The spelling of a mode: six digits that read back as the mode.
proof fn lemma_mode(mode: super::Mode)
    ensures
        super::grammar::mode_of(lit(super::mode_text(mode))) == Some(mode),
        forall|i: int|
            0 <= i < lit(super::mode_text(mode)).len() ==> lit(super::mode_text(mode))[i] != 0x20,
{
    lemma_words_modes();
}

/// The first word of a content that is not inline: not `inline`.
proof fn lemma_named_is_not_inline(named: DataRef)
    requires
        named_rereadable(named),
    ensures
        spell_named(named) != lit("inline"),
{
    lemma_words_changes();
    lemma_read_named(named);
    let text = spell_named(named);
    if text == lit("inline") {
        assert(text[0] == 0x69);
        match named {
            DataRef::Mark(m) => {},
            DataRef::Oid(oid) => {
                vstd::utf8::is_ascii_chars_encode_utf8(oid@);
                assert(hex_char(oid@[0]));
                assert(vstd::utf8::is_ascii_chars(oid@)) by {
                    assert forall|i: int| 0 <= i < oid@.len() implies '\0' <= #[trigger] oid@[i]
                        <= '\u{7f}' by {
                        assert(hex_char(oid@[i]));
                    }
                }
                vstd::utf8::is_ascii_chars_encode_utf8(oid@);
                assert(oid@[0] as u8 == text[0]);
            },
        }
    }
}

/// What a content reads back as, where its data block, if it has one,
/// stands at `q`.
#[verifier::spinoff_prover]
#[verifier::rlimit(50)]
proof fn lemma_read_content(input: Seq<u8>, s: State, q: int, content: Content)
    requires
        reader_at(input, s, q),
        content matches Content::Named(named) ==> named_rereadable(named),
        content matches Content::Inline(bytes) ==> stands(
            input,
            q,
            spell_data(bytes@) + seq![0x0au8],
        ),
    ensures
        ({
            let word = match content {
                Content::Named(named) => spell_named(named),
                Content::Inline(_) => lit("inline"),
            };
            let end = match content {
                Content::Named(_) => q,
                Content::Inline(bytes) => q + spell_data(bytes@).len() + 1,
            };
            match super::grammar::content(input, s, word) {
                Ok((read, s1)) => read == content@ && reader_at(input, s1, end),
                Err(_) => false,
            }
        }),
{
    match content {
        Content::Named(named) => {
            lemma_named_is_not_inline(named);
            lemma_read_named(named);
        },
        Content::Inline(bytes) => {
            lemma_split(input, q, spell_data(bytes@), seq![0x0au8]);
            lemma_read_data(input, s, q, bytes@);
            lemma_first(input, q + spell_data(bytes@).len(), seq![0x0au8]);
        },
    }
}


/// Where a reader stands after a change's line and its block: `q` is just
/// after the line.
pub open spec fn past_change(change: Change, q: int) -> int {
    match change_block(change) {
        None => q,
        Some(bytes) => q + spell_data(bytes).len() + 1,
    }
}

/// What a change's block needs in order to be read: nothing, or the block
/// and its newline at `q`.
pub open spec fn block_stands(input: Seq<u8>, q: int, change: Change) -> bool {
    match change_block(change) {
        None => true,
        Some(bytes) => stands(input, q, spell_data(bytes) + seq![0x0au8]),
    }
}

/// An `M` line reads back as the change.
#[verifier::spinoff_prover]
#[verifier::rlimit(40)]
proof fn lemma_change_modify(input: Seq<u8>, s: State, q: int, change: Change)
    requires
        change is Modify,
        reader_at(input, s, q),
        change_rereadable(change),
        block_stands(input, q, change),
    ensures
        match super::grammar::change(input, s, change_line(change)) {
            Ok((read, s1)) => read == Some(change@) && reader_at(input, s1, past_change(change, q)),
            Err(_) => false,
        },
{
    lemma_words_changes();
    if let Change::Modify { mode, content, path } = change {
        let word = match content {
            Content::Named(named) => spell_named(named),
            Content::Inline(_) => lit("inline"),
        };
        if let Content::Named(named) = content {
            lemma_read_named(named);
        }
        let mt = lit(super::mode_text(mode));
        let qp = spec_quote(path@, true);
        let line = change_line(change);
        let rest = mt + seq![0x20u8] + (word + seq![0x20u8] + qp);
        assert(line =~= lit("M ") + rest);
        lemma_not_starts(line, lit("deleteall"));
        lemma_starts(lit("M "), rest);
        lemma_mode(mode);
        lemma_split_words(mt, word + seq![0x20u8] + qp, Which::M);
        lemma_split_words(word, qp, Which::M);
        lemma_read_content(input, s, q, content);
        lemma_read_path(path@);
    }
}

/// A file line the writer spells, `M <mode> <name> <path>`, reads back as the
/// same change with the same mode: each mode's six digits read as that mode.
pub proof fn a_file_line_reads_back_with_its_mode(
    input: Seq<u8>,
    s: State,
    mode: super::Mode,
    named: DataRef,
    path: Vec<u8>,
)
    requires
        named_rereadable(named),
    ensures
        super::grammar::mode_of(lit(super::mode_text(mode))) == Some(mode),
        super::grammar::change(
            input,
            s,
            change_line(Change::Modify { mode, content: Content::Named(named), path }),
        ) == Ok::<(Option<ChangeView>, State), Refusal>(
            (
                Some(
                    ChangeView::Modify {
                        mode,
                        content: super::ContentView::Named(named@),
                        path: path@,
                    },
                ),
                s,
            ),
        ),
{
    lemma_words_changes();
    lemma_read_named(named);
    lemma_named_is_not_inline(named);
    let change = Change::Modify { mode, content: Content::Named(named), path };
    let word = spell_named(named);
    let mt = lit(super::mode_text(mode));
    let qp = spec_quote(path@, true);
    let line = change_line(change);
    let rest = mt + seq![0x20u8] + (word + seq![0x20u8] + qp);
    assert(line =~= lit("M ") + rest);
    lemma_not_starts(line, lit("deleteall"));
    lemma_starts(lit("M "), rest);
    lemma_mode(mode);
    lemma_split_words(mt, word + seq![0x20u8] + qp, Which::M);
    lemma_split_words(word, qp, Which::M);
    lemma_read_path(path@);
}

/// A `D`, `R`, `C` or `deleteall` line reads back as the change.
#[verifier::spinoff_prover]
#[verifier::rlimit(50)]
proof fn lemma_change_paths(input: Seq<u8>, s: State, change: Change)
    requires
        change is Delete || change is Rename || change is Copy || change is DeleteAll,
    ensures
        super::grammar::change(input, s, change_line(change)) == Ok::<
            (Option<ChangeView>, State),
            Refusal,
        >((Some(change@), s)),
{
    lemma_words_changes();
    let line = change_line(change);
    match change {
        Change::Delete { path } => {
            let rest = spec_quote(path@, true);
            lemma_not_starts(line, lit("deleteall"));
            lemma_not_starts(line, lit("M "));
            lemma_starts(lit("D "), rest);
            lemma_read_path(path@);
        },
        Change::Rename { source, destination } => {
            let rest = spec_quote(source@, true) + seq![0x20u8] + spec_quote(destination@, true);
            assert(line =~= lit("R ") + rest);
            lemma_not_starts(line, lit("deleteall"));
            lemma_not_starts(line, lit("M "));
            lemma_not_starts(line, lit("D "));
            lemma_starts(lit("R "), rest);
            lemma_read_two_paths(source@, destination@, Which::R);
        },
        Change::Copy { source, destination } => {
            let rest = spec_quote(source@, true) + seq![0x20u8] + spec_quote(destination@, true);
            assert(line =~= lit("C ") + rest);
            lemma_not_starts(line, lit("deleteall"));
            lemma_not_starts(line, lit("M "));
            lemma_not_starts(line, lit("D "));
            lemma_not_starts(line, lit("R "));
            lemma_starts(lit("C "), rest);
            lemma_read_two_paths(source@, destination@, Which::C);
        },
        _ => {},
    }
}

/// An `N` line reads back as the change.
#[verifier::spinoff_prover]
#[verifier::rlimit(50)]
proof fn lemma_change_note(input: Seq<u8>, s: State, q: int, change: Change)
    requires
        change is Note,
        reader_at(input, s, q),
        change_rereadable(change),
        block_stands(input, q, change),
    ensures
        match super::grammar::change(input, s, change_line(change)) {
            Ok((read, s1)) => read == Some(change@) && reader_at(input, s1, past_change(change, q)),
            Err(_) => false,
        },
{
    lemma_words_changes();
    if let Change::Note { content, commit } = change {
        let word = match content {
            Content::Named(named) => spell_named(named),
            Content::Inline(_) => lit("inline"),
        };
        if let Content::Named(named) = content {
            lemma_read_named(named);
        }
        lemma_read_named(commit);
        let nc = spell_named(commit);
        let line = change_line(change);
        let rest = word + seq![0x20u8] + nc;
        assert(line =~= lit("N ") + rest);
        lemma_not_starts(line, lit("deleteall"));
        lemma_not_starts(line, lit("M "));
        lemma_not_starts(line, lit("D "));
        lemma_not_starts(line, lit("R "));
        lemma_not_starts(line, lit("C "));
        lemma_starts(lit("N "), rest);
        lemma_split_words(word, nc, Which::N);
        lemma_read_content(input, s, q, content);
    }
}


proof fn lemma_one_line_concat(a: Seq<u8>, b: Seq<u8>)
    requires
        one_line(a),
        one_line(b),
    ensures
        one_line(a + b),
{
    assert forall|i: int| 0 <= i < (a + b).len() implies (a + b)[i] != 0x0a by {
        if i >= a.len() {
            assert((a + b)[i] == b[i - a.len()]);
        }
    }
}

proof fn lemma_quote_one_line(path: Seq<u8>)
    ensures
        one_line(spec_quote(path, true)),
        spec_quote(path, true).len() > 0,
{
    lemma_quote_shape(path, true);
}

proof fn lemma_named_one_line(named: DataRef)
    requires
        named_rereadable(named),
    ensures
        one_line(spell_named(named)),
{
    lemma_read_named(named);
}

/// A change's line holds no newline, and is not empty.
#[verifier::spinoff_prover]
#[verifier::rlimit(40)]
proof fn lemma_change_line(change: Change)
    requires
        change_rereadable(change),
    ensures
        one_line(change_line(change)),
        change_line(change).len() > 0,
{
    lemma_words_changes();
    lemma_words_modes();
    let sp = lit(" ");
    match change {
        Change::Modify { mode, content, path } => {
            lemma_quote_one_line(path@);
            let mt = lit(super::mode_text(mode));
            let tail_part = match content {
                Content::Named(named) => spell_named(named) + sp + spec_quote(path@, true),
                Content::Inline(_) => lit("inline ") + spec_quote(path@, true),
            };
            match content {
                Content::Named(named) => {
                    lemma_named_one_line(named);
                    lemma_one_line_concat(spell_named(named), sp);
                    lemma_one_line_concat(spell_named(named) + sp, spec_quote(path@, true));
                },
                Content::Inline(_) => {
                    lemma_one_line_concat(lit("inline "), spec_quote(path@, true));
                },
            }
            lemma_one_line_concat(lit("M "), mt);
            lemma_one_line_concat(lit("M ") + mt, sp);
            lemma_one_line_concat(lit("M ") + mt + sp, tail_part);
        },
        Change::Delete { path } => {
            lemma_quote_one_line(path@);
            lemma_one_line_concat(lit("D "), spec_quote(path@, true));
        },
        Change::Rename { source, destination } => {
            lemma_quote_one_line(source@);
            lemma_quote_one_line(destination@);
            lemma_one_line_concat(lit("R "), spec_quote(source@, true));
            lemma_one_line_concat(lit("R ") + spec_quote(source@, true), sp);
            lemma_one_line_concat(lit("R ") + spec_quote(source@, true) + sp, spec_quote(destination@, true));
        },
        Change::Copy { source, destination } => {
            lemma_quote_one_line(source@);
            lemma_quote_one_line(destination@);
            lemma_one_line_concat(lit("C "), spec_quote(source@, true));
            lemma_one_line_concat(lit("C ") + spec_quote(source@, true), sp);
            lemma_one_line_concat(lit("C ") + spec_quote(source@, true) + sp, spec_quote(destination@, true));
        },
        Change::DeleteAll => {},
        Change::Note { content, commit } => {
            lemma_named_one_line(commit);
            let tail_part = match content {
                Content::Named(named) => spell_named(named) + sp + spell_named(commit),
                Content::Inline(_) => lit("inline ") + spell_named(commit),
            };
            match content {
                Content::Named(named) => {
                    lemma_named_one_line(named);
                    lemma_one_line_concat(spell_named(named), sp);
                    lemma_one_line_concat(spell_named(named) + sp, spell_named(commit));
                },
                Content::Inline(_) => {
                    lemma_one_line_concat(lit("inline "), spell_named(commit));
                },
            }
            lemma_one_line_concat(lit("N "), tail_part);
        },
    }
}

/// A change the writer spelled at `p` reads back as the change: its line is
/// taken, and what the line says is the change.
#[verifier::spinoff_prover]
#[verifier::rlimit(50)]
proof fn lemma_read_change(input: Seq<u8>, s: State, p: int, change: Change)
    requires
        reader_at(input, s, p),
        stands(input, p, spell_change(change)),
        change_rereadable(change),
    ensures
        ({
            let (taken, s1) = take_line(input, s);
            let line = change_line(change);
            &&& taken == Some((p as usize, (p + line.len()) as usize))
            &&& line.len() > 0
            &&& piece(input, (p as usize, (p + line.len()) as usize)) == line
            &&& match super::grammar::change(input, s1, line) {
                Ok((read, s2)) => read == Some(change@) && reader_at(
                    input,
                    s2,
                    p + spell_change(change).len(),
                ),
                Err(_) => false,
            }
        }),
{
    lemma_change_shape(change);
    lemma_change_line(change);
    let line = change_line(change);
    let q = p + line.len() + 1;
    match change_block(change) {
        None => {
            lemma_take(input, s, p, line);
        },
        Some(bytes) => {
            assert(spell_change(change) =~= line.push(0x0a) + (spell_data(bytes) + seq![0x0au8]));
            lemma_split(input, p, line.push(0x0a), spell_data(bytes) + seq![0x0au8]);
            lemma_take(input, s, p, line);
        },
    }
    let (_, s1) = take_line(input, s);
    if change is Modify {
        lemma_change_modify(input, s1, q, change);
    } else if change is Note {
        lemma_change_note(input, s1, q, change);
    } else {
        lemma_change_paths(input, s1, change);
    }
}


// ---------------------------------------------------------------------------
// Repeated lines
// ---------------------------------------------------------------------------

/// The changes, first one first.
proof fn lemma_changes_front(changes: Seq<Change>)
    requires
        changes.len() > 0,
    ensures
        spell_changes(changes) == spell_change(changes[0]) + spell_changes(changes.drop_first()),
    decreases changes.len(),
{
    if changes.len() == 1 {
        assert(changes.drop_last() =~= Seq::<Change>::empty());
        assert(changes.drop_first() =~= Seq::<Change>::empty());
        assert(spell_changes(changes.drop_last()) == Seq::<u8>::empty());
        assert(changes.last() == changes[0]);
        assert(spell_changes(changes) =~= spell_change(changes[0]));
        assert(spell_change(changes[0]) + Seq::<u8>::empty() =~= spell_change(changes[0]));
    } else {
        lemma_changes_front(changes.drop_last());
        assert(changes.drop_last().drop_first() =~= changes.drop_first().drop_last());
        assert(changes.drop_first().last() == changes.last());
        assert(spell_changes(changes) =~= spell_change(changes[0]) + spell_changes(
            changes.drop_first(),
        ));
    }
}

/// The `merge` lines, first one first.
proof fn lemma_merges_front(merges: Seq<DataRef>)
    requires
        merges.len() > 0,
    ensures
        spell_merges(merges) == lit("merge ") + spell_named(merges[0]) + lit("\n") + spell_merges(
            merges.drop_first(),
        ),
    decreases merges.len(),
{
    if merges.len() == 1 {
        assert(merges.drop_last() =~= Seq::<DataRef>::empty());
        assert(merges.drop_first() =~= Seq::<DataRef>::empty());
        assert(spell_merges(merges.drop_last()) == Seq::<u8>::empty());
        assert(merges.last() == merges[0]);
        assert(spell_merges(merges) =~= lit("merge ") + spell_named(merges[0]) + lit("\n"));
        assert(lit("merge ") + spell_named(merges[0]) + lit("\n") + Seq::<u8>::empty() =~= lit(
            "merge ",
        ) + spell_named(merges[0]) + lit("\n"));
    } else {
        lemma_merges_front(merges.drop_last());
        assert(merges.drop_last().drop_first() =~= merges.drop_first().drop_last());
        assert(merges.drop_first().last() == merges.last());
        assert(spell_merges(merges) =~= lit("merge ") + spell_named(merges[0]) + lit("\n")
            + spell_merges(merges.drop_first()));
    }
}

/// Where a reader stands after the blank line that ends a commit, or at the
/// end.
pub open spec fn past_end(input: Seq<u8>, e: int) -> int {
    if e < input.len() {
        e + 1
    } else {
        e
    }
}

/// One change line, read, and the rest read after it.
proof fn lemma_changes_step(
    input: Seq<u8>,
    s: State,
    acc: Seq<ChangeView>,
    span: (usize, usize),
    s1: State,
    one: ChangeView,
    s2: State,
)
    requires
        state_ok(input, s),
        state_ok(input, s2),
        take_line(input, s) == (Some(span), s1),
        span.0 != span.1,
        super::grammar::change(input, s1, piece(input, span)) == Ok::<
            (Option<ChangeView>, State),
            Refusal,
        >((Some(one), s2)),
    ensures
        super::grammar::changes(input, s, acc) == super::grammar::changes(input, s2, acc.push(one)),
{
}

/// No more change lines: the blank line that ends a commit, or the end.
proof fn lemma_changes_stop(input: Seq<u8>, s: State, acc: Seq<ChangeView>, s1: State)
    requires
        state_ok(input, s),
        take_line(input, s).1 == s1,
        take_line(input, s).0 matches Some(span) ==> span.0 == span.1,
    ensures
        super::grammar::changes(input, s, acc) == Ok::<(Seq<ChangeView>, State), Refusal>(
            (acc, s1),
        ),
{
}

/// No change lines: what stands is the blank line that ends a commit, or
/// the end.
proof fn lemma_read_no_changes(input: Seq<u8>, s: State, e: int, acc: Seq<ChangeView>)
    requires
        reader_at(input, s, e),
        e == input.len() || (e < input.len() && input[e] == 0x0a),
    ensures
        match super::grammar::changes(input, s, acc) {
            Ok((read, s1)) => read == acc && reader_at(input, s1, past_end(input, e)),
            Err(_) => false,
        },
{
    if e < input.len() {
        assert(Seq::<u8>::empty().push(0x0a) =~= seq![0x0au8]);
        assert(stands(input, e, Seq::<u8>::empty().push(0x0a))) by {
            reveal(stands);
            assert(tail(input, e).subrange(0, 1) =~= seq![input[e]]);
        }
        lemma_take(input, s, e, Seq::<u8>::empty());
    } else {
        lemma_take_at_end(input, s);
    }
    lemma_changes_stop(input, s, acc, take_line(input, s).1);
}

/// One change line the writer spelled at `p`, read: the rest of the changes
/// are read after it.
#[verifier::spinoff_prover]
#[verifier::rlimit(50)]
proof fn lemma_read_one_change(input: Seq<u8>, s: State, p: int, change: Change, acc: Seq<ChangeView>) -> (s2: State)
    requires
        reader_at(input, s, p),
        stands(input, p, spell_change(change)),
        change_rereadable(change),
    ensures
        super::grammar::changes(input, s, acc) == super::grammar::changes(input, s2, acc.push(change@)),
        reader_at(input, s2, p + spell_change(change).len()),
{
    lemma_read_change(input, s, p, change);
    let (taken, s1) = take_line(input, s);
    let s2 = super::grammar::change(input, s1, change_line(change))->Ok_0.1;
    lemma_changes_step(input, s, acc, taken.unwrap(), s1, change@, s2);
    s2
}

/// Change lines the writer spelled read back as the changes, up to the blank
/// line after them or the end.
#[verifier::spinoff_prover]
#[verifier::rlimit(50)]
proof fn lemma_read_changes(
    input: Seq<u8>,
    s: State,
    p: int,
    changes: Seq<Change>,
    acc: Seq<ChangeView>,
)
    requires
        reader_at(input, s, p),
        stands(input, p, spell_changes(changes)),
        forall|i: int| 0 <= i < changes.len() ==> change_rereadable(#[trigger] changes[i]),
        ({
            let e = p + spell_changes(changes).len();
            e == input.len() || (e < input.len() && input[e] == 0x0a)
        }),
    ensures
        match super::grammar::changes(input, s, acc) {
            Ok((read, s1)) => read == acc + changes.map_values(|change: Change| change@)
                && reader_at(input, s1, past_end(input, p + spell_changes(changes).len())),
            Err(_) => false,
        },
    decreases changes.len(),
{
    if changes.len() == 0 {
        assert(changes.map_values(|change: Change| change@) =~= Seq::<ChangeView>::empty());
        assert(acc + Seq::<ChangeView>::empty() =~= acc);
        lemma_read_no_changes(input, s, p + spell_changes(changes).len(), acc);
    } else {
        lemma_changes_front(changes);
        let first = changes[0];
        let rest = changes.drop_first();
        assert(change_rereadable(first));
        lemma_split(input, p, spell_change(first), spell_changes(rest));
        let s2 = lemma_read_one_change(input, s, p, first, acc);
        let q = p + spell_change(first).len();
        assert forall|i: int| 0 <= i < rest.len() implies change_rereadable(#[trigger] rest[i]) by {
            assert(rest[i] == changes[i + 1]);
        }
        lemma_read_changes(input, s2, q, rest, acc.push(first@));
        assert(acc.push(first@) + rest.map_values(|change: Change| change@) =~= acc
            + changes.map_values(|change: Change| change@));
    }
}

/// `merge` lines the writer spelled read back as the parents they name, up
/// to a line that does not begin with `m`, or the end.
#[verifier::spinoff_prover]
#[verifier::rlimit(50)]
proof fn lemma_read_merges(
    input: Seq<u8>,
    s: State,
    p: int,
    merges: Seq<DataRef>,
    acc: Seq<DataRefView>,
)
    requires
        reader_at(input, s, p),
        stands(input, p, spell_merges(merges)),
        forall|i: int| 0 <= i < merges.len() ==> named_rereadable(#[trigger] merges[i]),
        not_next(input, p + spell_merges(merges).len(), 0x6d),
    ensures
        match super::grammar::merges(input, s, acc) {
            Ok((read, s1)) => read == acc + merges.map_values(|named: DataRef| named@)
                && reader_at(input, s1, p + spell_merges(merges).len()),
            Err(_) => false,
        },
    decreases merges.len(),
{
    lemma_words_fields();
    if merges.len() == 0 {
        assert(merges.map_values(|named: DataRef| named@) =~= Seq::<DataRefView>::empty());
        assert(acc + Seq::<DataRefView>::empty() =~= acc);
        lemma_absent(input, s, p, lit("merge "));
    } else {
        lemma_merges_front(merges);
        let first = merges[0];
        let rest = merges.drop_first();
        assert(named_rereadable(first));
        let line = lit("merge ") + spell_named(first) + lit("\n");
        lemma_split(input, p, line, spell_merges(rest));
        lemma_read_named(first);
        assert(line =~= (lit("merge ") + spell_named(first)).push(0x0a));
        lemma_one_line_concat(lit("merge "), spell_named(first));
        lemma_present(input, s, p, lit("merge "), spell_named(first));
        let s1 = optional_field(input, s, lit("merge ")).1;
        let q = p + line.len();
        assert forall|i: int| 0 <= i < rest.len() implies named_rereadable(#[trigger] rest[i]) by {
            assert(rest[i] == merges[i + 1]);
        }
        lemma_read_merges(input, s1, q, rest, acc.push(first@));
        assert(acc.push(first@) + rest.map_values(|named: DataRef| named@) =~= acc
            + merges.map_values(|named: DataRef| named@));
    }
}


// ---------------------------------------------------------------------------
// Commits
// ---------------------------------------------------------------------------

/// What the writer spells for a commit's lines above its message, after
/// its first line.
pub open spec fn heading_text(commit: Commit) -> Seq<u8> {
    spell_mark(commit.mark) + spell_original(commit.original_oid) + spell_author(commit.author)
        + spell_person(lit("committer"), commit.committer) + spell_encoding(commit.encoding)
        + spell_signature(commit.signature)
}

/// What the writer spells for a commit after its first line.
pub open spec fn commit_body(commit: Commit) -> Seq<u8> {
    heading_text(commit) + spell_data(commit.message@) + spell_commit_tail(commit)
}

/// What makes a commit's lines read back: every name, person and line in
/// it is one that reads back.
pub open spec fn commit_rereadable(commit: Commit) -> bool {
    &&& one_line(commit.reference@)
    &&& (commit.original_oid matches Some(oid) ==> one_line(utf8(oid)))
    &&& (commit.author matches Some(person) ==> person_rereadable(person))
    &&& person_rereadable(commit.committer)
    &&& (commit.encoding matches Some(name) ==> one_line(name@))
    &&& (commit.signature matches Some(signed) ==> one_line(signed.kind@))
    &&& (commit.from matches Some(named) ==> named_rereadable(named))
    &&& forall|i: int| 0 <= i < commit.merges@.len() ==> named_rereadable(#[trigger] commit.merges@[i])
    &&& forall|i: int| 0 <= i < commit.changes@.len() ==> change_rereadable(#[trigger] commit.changes@[i])
}

/// Where each piece of a commit's heading stands.
proof fn lemma_heading_layout(input: Seq<u8>, p: int, commit: Commit)
    requires
        stands(input, p, heading_text(commit)),
    ensures
        ({
            let m = p + spell_mark(commit.mark).len();
            let o = m + spell_original(commit.original_oid).len();
            let a = o + spell_author(commit.author).len();
            let c = a + spell_person(lit("committer"), commit.committer).len();
            let e = c + spell_encoding(commit.encoding).len();
            &&& stands(input, p, spell_mark(commit.mark))
            &&& stands(input, m, spell_original(commit.original_oid))
            &&& stands(input, o, spell_author(commit.author))
            &&& stands(input, a, spell_person(lit("committer"), commit.committer))
            &&& stands(input, c, spell_encoding(commit.encoding))
            &&& stands(input, e, spell_signature(commit.signature))
        }),
{
    let mark = spell_mark(commit.mark);
    let oid = spell_original(commit.original_oid);
    let author = spell_author(commit.author);
    let committer = spell_person(lit("committer"), commit.committer);
    let encoding = spell_encoding(commit.encoding);
    let signature = spell_signature(commit.signature);
    lemma_split(input, p, mark + oid + author + committer + encoding, signature);
    lemma_split(input, p, mark + oid + author + committer, encoding);
    lemma_split(input, p, mark + oid + author, committer);
    lemma_split(input, p, mark + oid, author);
    lemma_split(input, p, mark, oid);
}

/// What each line of a commit's heading reads back as, and where the reader
/// stands after each.
#[verifier::spinoff_prover]
#[verifier::rlimit(40)]
proof fn lemma_heading_parts(input: Seq<u8>, s: State, p: int, commit: Commit) -> (states: (
    State,
    State,
    State,
    State,
    State,
    State,
))
    requires
        reader_at(input, s, p),
        stands(input, p, heading_text(commit) + spell_data(commit.message@)),
        commit_rereadable(commit),
    ensures
        optional_mark(input, s) == Ok::<(Option<Mark>, State), Refusal>((commit.mark, states.0)),
        optional_oid(input, states.0) == (option_text(commit.original_oid), states.1),
        optional_person(input, states.1, lit("author ")) == Ok::<
            (Option<PersonView>, State),
            Refusal,
        >((option_view(commit.author), states.2)),
        optional_person(input, states.2, lit("committer ")) == Ok::<
            (Option<PersonView>, State),
            Refusal,
        >((Some(commit.committer@), states.3)),
        optional_encoding(input, states.3) == (option_view(commit.encoding), states.4),
        optional_signature(input, states.4) == Ok::<(Option<SignatureView>, State), Refusal>(
            (option_view(commit.signature), states.5),
        ),
        reader_at(input, states.5, p + heading_text(commit).len()),
{
    let h = heading_text(commit);
    let block = spell_data(commit.message@);
    lemma_split(input, p, h, block);
    lemma_heading_layout(input, p, commit);
    let m = p + spell_mark(commit.mark).len();
    let o = m + spell_original(commit.original_oid).len();
    let a = o + spell_author(commit.author).len();
    let c = a + spell_person(lit("committer"), commit.committer).len();
    let e = c + spell_encoding(commit.encoding).len();
    let g = e + spell_signature(commit.signature).len();
    lemma_first_bytes(commit.original_oid, commit.message@);
    lemma_first_bytes_of_lines(commit.author, None, commit.encoding, commit.signature);
    lemma_first_bytes_of_lines(Some(commit.committer), None, None, None);
    let committer_line = spell_person(lit("committer"), commit.committer);
    assert(committer_line.len() > 0);
    lemma_first(input, a, committer_line);
    lemma_first(input, g, block);
    if commit.original_oid is Some {
        lemma_first(input, m, spell_original(commit.original_oid));
    }
    if commit.author is Some {
        assert(spell_author(commit.author) == spell_who(lit("author"), commit.author));
        lemma_first(input, o, spell_author(commit.author));
    }
    if commit.encoding is Some {
        lemma_first(input, c, spell_encoding(commit.encoding));
    }
    if commit.signature is Some {
        lemma_first(input, e, spell_signature(commit.signature));
    }
    assert(spell_author(commit.author) == spell_who(lit("author"), commit.author));
    assert(committer_line == spell_who(lit("committer"), Some(commit.committer)));
    lemma_read_mark(input, s, p, commit.mark);
    let s1 = optional_mark(input, s)->Ok_0.1;
    lemma_read_oid(input, s1, m, commit.original_oid);
    let s2 = optional_oid(input, s1).1;
    lemma_read_who(input, s2, o, lit("author"), commit.author);
    let s3 = optional_person(input, s2, lit("author "))->Ok_0.1;
    lemma_read_who(input, s3, a, lit("committer"), Some(commit.committer));
    let s4 = optional_person(input, s3, lit("committer "))->Ok_0.1;
    lemma_read_encoding(input, s4, c, commit.encoding);
    let s5 = optional_encoding(input, s4).1;
    lemma_read_signature(input, s5, e, commit.signature);
    let s6 = optional_signature(input, s5)->Ok_0.1;
    (s1, s2, s3, s4, s5, s6)
}


/// How a commit's heading is read, from what each of its lines read as.
proof fn lemma_heading_steps(
    input: Seq<u8>,
    s: State,
    view: super::grammar::Heading,
    s1: State,
    s2: State,
    s3: State,
    s4: State,
    s5: State,
    s6: State,
)
    requires
        optional_mark(input, s) == Ok::<(Option<Mark>, State), Refusal>((view.mark, s1)),
        optional_oid(input, s1) == (view.original_oid, s2),
        optional_person(input, s2, lit("author ")) == Ok::<(Option<PersonView>, State), Refusal>(
            (view.author, s3),
        ),
        optional_person(input, s3, lit("committer ")) == Ok::<(Option<PersonView>, State), Refusal>(
            (Some(view.committer), s4),
        ),
        optional_encoding(input, s4) == (view.encoding, s5),
        optional_signature(input, s5) == Ok::<(Option<SignatureView>, State), Refusal>(
            (view.signature, s6),
        ),
    ensures
        super::grammar::heading(input, s) == Ok::<(super::grammar::Heading, State), Refusal>(
            (view, s6),
        ),
{
}

/// Nothing stands anywhere a reader can stand.
proof fn lemma_stands_nothing(input: Seq<u8>, q: int)
    requires
        0 <= q <= input.len(),
    ensures
        stands(input, q, Seq::<u8>::empty()),
{
    reveal(stands);
    assert(tail(input, q).subrange(0, 0) =~= Seq::<u8>::empty());
}

/// The first byte of change lines and of `merge` lines.
proof fn lemma_tail_first_bytes(merges: Seq<DataRef>, changes: Seq<Change>)
    ensures
        merges.len() > 0 ==> spell_merges(merges).len() > 0 && spell_merges(merges)[0] == 0x6d,
        changes.len() > 0 ==> spell_changes(changes).len() > 0 && spell_changes(changes)[0]
            != 0x6d && spell_changes(changes)[0] != 0x66 && spell_changes(changes)[0] != 0x0a,
{
    lemma_words_fields();
    lemma_words_changes();
    if merges.len() > 0 {
        lemma_merges_front(merges);
    }
    if changes.len() > 0 {
        lemma_changes_front(changes);
        let first = changes[0];
        lemma_change_shape(first);
        assert(spell_change(first)[0] == change_line(first)[0]);
    }
}


/// Where each piece of a commit's tail stands.
proof fn lemma_tail_layout(input: Seq<u8>, h: int, commit: Commit)
    requires
        stands(input, h, spell_data(commit.message@) + spell_commit_tail(commit)),
    ensures
        ({
            let d = h + spell_data(commit.message@).len();
            let f = d + spell_from(commit.from).len();
            let m = f + spell_merges(commit.merges@).len();
            let c = m + spell_changes(commit.changes@).len();
            &&& stands(input, h, spell_data(commit.message@))
            &&& stands(input, d, spell_from(commit.from))
            &&& stands(input, f, spell_merges(commit.merges@))
            &&& stands(input, m, spell_changes(commit.changes@))
            &&& c < input.len() && input[c] == 0x0a
        }),
{
    lemma_words_data();
    let block = spell_data(commit.message@);
    let from = spell_from(commit.from);
    let merges = spell_merges(commit.merges@);
    let changes = spell_changes(commit.changes@);
    assert(block + spell_commit_tail(commit) =~= block + from + merges + changes + lit("\n"));
    lemma_split(input, h, block + from + merges + changes, lit("\n"));
    lemma_split(input, h, block + from + merges, changes);
    lemma_split(input, h, block + from, merges);
    lemma_split(input, h, block, from);
    lemma_first(input, h + (block + from + merges + changes).len(), lit("\n"));
}

/// What the lines of a commit after its heading read back as, and where the
/// reader stands after each; what follows the commit is the end, or another
/// command.
proof fn lemma_tail_parts(input: Seq<u8>, s: State, h: int, commit: Commit) -> (states: (
    State,
    State,
    State,
    State,
))
    requires
        reader_at(input, s, h),
        stands(input, h, spell_data(commit.message@) + spell_commit_tail(commit)),
        next_command(input, h + (spell_data(commit.message@) + spell_commit_tail(commit)).len()),
        commit_rereadable(commit),
    ensures
        data(input, s) == Ok::<(Seq<u8>, State), Refusal>((commit.message@, states.0)),
        optional_ref(input, states.0, lit("from ")) == Ok::<(Option<DataRefView>, State), Refusal>(
            (option_view(commit.from), states.1),
        ),
        super::grammar::merges(input, states.1, Seq::empty()) == Ok::<
            (Seq<DataRefView>, State),
            Refusal,
        >((commit.merges@.map_values(|named: DataRef| named@), states.2)),
        super::grammar::changes(input, states.2, Seq::empty()) == Ok::<
            (Seq<ChangeView>, State),
            Refusal,
        >((commit.changes@.map_values(|change: Change| change@), states.3)),
        reader_at(
            input,
            states.3,
            h + (spell_data(commit.message@) + spell_commit_tail(commit)).len(),
        ),
{
    lemma_tail_layout(input, h, commit);
    lemma_words_data();
    lemma_first_bytes(None, commit.message@);
    lemma_first_bytes_of_lines(None, commit.from, None, None);
    lemma_tail_first_bytes(commit.merges@, commit.changes@);
    let d = h + spell_data(commit.message@).len();
    let f = d + spell_from(commit.from).len();
    let m = f + spell_merges(commit.merges@).len();
    let c = m + spell_changes(commit.changes@).len();
    let e = h + (spell_data(commit.message@) + spell_commit_tail(commit)).len();
    assert(e == c + 1);
    let bare = commit.from is None && commit.merges@.len() == 0 && commit.changes@.len() == 0;
    if commit.from is Some {
        lemma_first(input, d, spell_from(commit.from));
    } else if commit.merges@.len() > 0 {
        lemma_first(input, f, spell_merges(commit.merges@));
    } else if commit.changes@.len() > 0 {
        lemma_first(input, m, spell_changes(commit.changes@));
    }
    if commit.changes@.len() > 0 {
        lemma_first(input, m, spell_changes(commit.changes@));
    } else {
        assert(spell_changes(commit.changes@) == Seq::<u8>::empty());
        assert(m == c);
    }
    if e < input.len() {
        let next = choose|next: Command| rereadable(next) && #[trigger] stands(
            input,
            e,
            first_line(next).push(0x0a),
        );
        lemma_command_line_begins(input, e, next);
    }
    lemma_read_data(input, s, h, commit.message@);
    let s7 = data(input, s)->Ok_0.1;
    let p7 = past_block(input, d);
    assert(bare ==> p7 == e);
    assert(!bare ==> p7 == d);
    if bare {
        lemma_stands_nothing(input, p7);
        assert(spell_from(commit.from) == Seq::<u8>::empty());
        assert(spell_merges(commit.merges@) == Seq::<u8>::empty());
        assert(spell_changes(commit.changes@) == Seq::<u8>::empty());
    }
    lemma_read_from(input, s7, p7, commit.from);
    let s8 = optional_ref(input, s7, lit("from "))->Ok_0.1;
    let p8 = if bare { p7 } else { f };
    assert(reader_at(input, s8, p8));
    if bare {
        lemma_stands_nothing(input, p8);
    }
    assert(not_next(input, p8 + spell_merges(commit.merges@).len(), 0x6d));
    assert forall|i: int| 0 <= i < commit.merges@.len() implies named_rereadable(
        #[trigger] commit.merges@[i],
    ) by {}
    lemma_read_merges(input, s8, p8, commit.merges@, Seq::empty());
    let s9 = super::grammar::merges(input, s8, Seq::empty())->Ok_0.1;
    let p9 = if bare { p8 } else { m };
    assert(Seq::<DataRefView>::empty() + commit.merges@.map_values(|named: DataRef| named@)
        =~= commit.merges@.map_values(|named: DataRef| named@));
    assert(Seq::<ChangeView>::empty() + commit.changes@.map_values(|change: Change| change@)
        =~= commit.changes@.map_values(|change: Change| change@));
    if bare && e < input.len() {
        let next = choose|next: Command| rereadable(next) && #[trigger] stands(
            input,
            e,
            first_line(next).push(0x0a),
        );
        lemma_changes_stop_at_command(input, s9, e, next, Seq::empty());
        assert(commit.changes@.map_values(|change: Change| change@) =~= Seq::<ChangeView>::empty());
    } else {
        if bare {
            lemma_stands_nothing(input, p9);
        }
        lemma_read_changes(input, s9, p9, commit.changes@, Seq::empty());
    }
    let s10 = super::grammar::changes(input, s9, Seq::empty())->Ok_0.1;
    (s7, s8, s9, s10)
}

/// How a commit is read, from what its heading and the lines after it read
/// as.
proof fn lemma_commit_steps(
    input: Seq<u8>,
    s: State,
    view: super::CommitView,
    s6: State,
    s7: State,
    s8: State,
    s9: State,
    s10: State,
)
    requires
        super::grammar::heading(input, s) == Ok::<(super::grammar::Heading, State), Refusal>(
            (
                super::grammar::Heading {
                    mark: view.mark,
                    original_oid: view.original_oid,
                    author: view.author,
                    committer: view.committer,
                    encoding: view.encoding,
                    signature: view.signature,
                },
                s6,
            ),
        ),
        data(input, s6) == Ok::<(Seq<u8>, State), Refusal>((view.message, s7)),
        optional_ref(input, s7, lit("from ")) == Ok::<(Option<DataRefView>, State), Refusal>(
            (view.from, s8),
        ),
        super::grammar::merges(input, s8, Seq::empty()) == Ok::<
            (Seq<DataRefView>, State),
            Refusal,
        >((view.merges, s9)),
        super::grammar::changes(input, s9, Seq::empty()) == Ok::<
            (Seq<ChangeView>, State),
            Refusal,
        >((view.changes, s10)),
    ensures
        super::grammar::commit(input, s, view.reference) == Ok::<(super::CommitView, State), Refusal>(
            (view, s10),
        ),
{
}

/// A commit the writer spelled reads back as the commit, where the end or
/// another command follows it.
#[verifier::spinoff_prover]
#[verifier::rlimit(50)]
proof fn lemma_read_commit(input: Seq<u8>, s: State, p: int, commit: Commit)
    requires
        reader_at(input, s, p),
        stands(input, p, commit_body(commit)),
        next_command(input, p + commit_body(commit).len()),
        commit_rereadable(commit),
    ensures
        match super::grammar::commit(input, s, commit.reference@) {
            Ok((read, s1)) => read == commit@ && reader_at(input, s1, p + commit_body(commit).len()),
            Err(_) => false,
        },
{
    let head = heading_text(commit);
    let block = spell_data(commit.message@);
    let rest = spell_commit_tail(commit);
    assert(commit_body(commit) =~= (head + block) + rest);
    lemma_split(input, p, head + block, rest);
    assert(commit_body(commit) =~= head + (block + rest));
    lemma_split(input, p, head, block + rest);
    let (s1, s2, s3, s4, s5, s6) = lemma_heading_parts(input, s, p, commit);
    let view = commit@;
    let heading = super::grammar::Heading {
        mark: view.mark,
        original_oid: view.original_oid,
        author: view.author,
        committer: view.committer,
        encoding: view.encoding,
        signature: view.signature,
    };
    lemma_heading_steps(input, s, heading, s1, s2, s3, s4, s5, s6);
    let (s7, s8, s9, s10) = lemma_tail_parts(input, s6, p + head.len(), commit);
    lemma_commit_steps(input, s, view, s6, s7, s8, s9, s10);
}


// ---------------------------------------------------------------------------
// Whole commands
// ---------------------------------------------------------------------------

/// A command whose every line holds what it carries without a newline, and
/// whose names and people read back: what a reader takes back to the command
/// the writer spelled.
pub open spec fn rereadable(command: Command) -> bool {
    match command {
        Command::Blob(blob) => blob.original_oid matches Some(oid) ==> one_line(utf8(oid)),
        Command::Commit(commit) => commit_rereadable(commit),
        Command::Tag(tag) => {
            &&& one_line(tag.name@)
            &&& named_rereadable(tag.from)
            &&& (tag.original_oid matches Some(oid) ==> one_line(utf8(oid)))
            &&& (tag.tagger matches Some(person) ==> person_rereadable(person))
        },
        Command::Reset(reset) => {
            &&& one_line(reset.reference@)
            &&& (reset.from matches Some(named) ==> named_rereadable(named))
        },
        Command::Progress(line) => one_line(line@),
        Command::Feature(line) => one_line(line@),
        Command::Option(line) => one_line(line@),
        Command::Done => true,
    }
}

/// The first line of a command as the writer spells it.
pub open spec fn first_line(command: Command) -> Seq<u8> {
    match command {
        Command::Blob(_) => lit("blob"),
        Command::Commit(commit) => lit("commit ") + commit.reference@,
        Command::Tag(tag) => lit("tag ") + tag.name@,
        Command::Reset(reset) => lit("reset ") + reset.reference@,
        Command::Progress(line) => lit("progress ") + line@,
        Command::Feature(line) => lit("feature ") + line@,
        Command::Option(line) => lit("option ") + line@,
        Command::Done => lit("done"),
    }
}

/// What the writer spells for a reset after its first line: its `from`
/// line and the blank line after it, where it has one.
pub open spec fn reset_body(reset: Reset) -> Seq<u8> {
    spell_from(reset.from) + match reset.from {
        Some(_) => seq![0x0au8],
        None => Seq::empty(),
    }
}

/// A reader that stands at `p`, or on a blank line just before it.
pub open spec fn reader_near(input: Seq<u8>, s: State, p: int) -> bool {
    ||| reader_at(input, s, p)
    ||| (1 <= p <= input.len() && input[p - 1] == 0x0a && reader_at(input, s, p - 1))
}

/// What the writer spells for a command after its first line.
pub open spec fn command_body(command: Command) -> Seq<u8> {
    match command {
        Command::Blob(blob) => blob_body(blob),
        Command::Commit(commit) => commit_body(commit),
        Command::Tag(tag) => tag_body(tag),
        Command::Reset(reset) => reset_body(reset),
        _ => Seq::empty(),
    }
}

/// A commit is its first line and what follows it.
proof fn lemma_commit_shape(commit: Commit)
    ensures
        super::write::spell_commit(commit) == (lit("commit ") + commit.reference@).push(0x0a)
            + commit_body(commit),
{
    lemma_words_commands();
    let first = (lit("commit ") + commit.reference@).push(0x0a);
    let head = super::write::spell_commit_head(commit);
    assert(head =~= first + heading_text(commit) + spell_data(commit.message@));
    assert(first + heading_text(commit) + spell_data(commit.message@) + spell_commit_tail(commit)
        =~= first + commit_body(commit));
}

/// A command is its first line and what follows it.
proof fn lemma_command_shape(command: Command)
    requires
        rereadable(command),
    ensures
        spell_command(command) == first_line(command).push(0x0a) + command_body(command),
        one_line(first_line(command)),
        first_line(command).len() > 0,
{
    lemma_words_commands();
    match command {
        Command::Commit(commit) => {
            lemma_commit_shape(commit);
            lemma_one_line_concat(lit("commit "), commit.reference@);
        },
        Command::Blob(blob) => lemma_blob_shape(blob),
        Command::Tag(tag) => lemma_tag_shape(tag),
        Command::Reset(reset) => lemma_reset_shape(reset),
        _ => lemma_line_shape(command),
    }
}

proof fn lemma_blob_shape(blob: Blob)
    ensures
        spell_command(Command::Blob(blob)) == lit("blob").push(0x0a) + blob_body(blob),
{
    lemma_words_commands();
    assert(spell_command(Command::Blob(blob)) =~= lit("blob").push(0x0a) + blob_body(blob));
}

proof fn lemma_tag_shape(tag: Tag)
    requires
        one_line(tag.name@),
    ensures
        spell_command(Command::Tag(tag)) == (lit("tag ") + tag.name@).push(0x0a) + tag_body(tag),
        one_line(lit("tag ") + tag.name@),
{
    lemma_words_commands();
    assert(spell_command(Command::Tag(tag)) =~= (lit("tag ") + tag.name@).push(0x0a) + tag_body(
        tag,
    ));
    lemma_one_line_concat(lit("tag "), tag.name@);
}

proof fn lemma_reset_shape(reset: Reset)
    requires
        one_line(reset.reference@),
    ensures
        spell_command(Command::Reset(reset)) == (lit("reset ") + reset.reference@).push(0x0a)
            + reset_body(reset),
        one_line(lit("reset ") + reset.reference@),
{
    lemma_words_commands();
    lemma_words_data();
    assert(spell_command(Command::Reset(reset)) =~= (lit("reset ") + reset.reference@).push(0x0a)
        + reset_body(reset));
    lemma_one_line_concat(lit("reset "), reset.reference@);
}

proof fn lemma_line_shape(command: Command)
    requires
        rereadable(command),
        command is Progress || command is Feature || command is Option || command is Done,
    ensures
        spell_command(command) == first_line(command).push(0x0a) + command_body(command),
        one_line(first_line(command)),
        first_line(command).len() > 0,
{
    lemma_words_commands();
    assert(spell_command(command) =~= first_line(command).push(0x0a) + command_body(command));
    match command {
        Command::Progress(line) => lemma_one_line_concat(lit("progress "), line@),
        Command::Feature(line) => lemma_one_line_concat(lit("feature "), line@),
        Command::Option(line) => lemma_one_line_concat(lit("option "), line@),
        _ => {},
    }
}

/// A reset reads back as the reset where the end or another command follows
/// it; the reader stands past its `from` line, before the blank line after
/// it.
proof fn lemma_reset_before(input: Seq<u8>, s: State, p: int, reset: Reset)
    requires
        reader_at(input, s, p),
        stands(input, p, reset_body(reset)),
        reset.from matches Some(named) ==> named_rereadable(named),
        next_command(input, p + reset_body(reset).len()),
    ensures
        match super::grammar::reset(input, s, reset.reference@) {
            Ok((read, s1)) => read == reset@ && reader_near(
                input,
                s1,
                p + reset_body(reset).len(),
            ),
            Err(_) => false,
        },
{
    let e = p + spell_from(reset.from).len();
    if reset.from is None {
        assert(reset_body(reset) =~= spell_from(reset.from));
        if e < input.len() {
            let next = choose|next: Command| rereadable(next) && #[trigger] stands(
                input,
                e,
                first_line(next).push(0x0a),
            );
            lemma_command_line_begins(input, e, next);
        }
    } else {
        lemma_split(input, p, spell_from(reset.from), seq![0x0au8]);
        lemma_first(input, e, seq![0x0au8]);
        lemma_first_bytes_of_lines(None, reset.from, None, None);
        lemma_first(input, p, spell_from(reset.from));
    }
    lemma_read_reset(input, s, p, reset);
}

/// A reader on a blank line before `q` reads as one at `q`.
#[verifier::spinoff_prover]
proof fn lemma_skip_blank(input: Seq<u8>, s: State, q: int) -> (s1: State)
    requires
        reader_near(input, s, q),
    ensures
        reader_at(input, s1, q),
        state_ok(input, s),
        super::grammar::next_line(input, s) == super::grammar::next_line(input, s1),
{
    if reader_at(input, s, q) {
        s
    } else {
        assert(Seq::<u8>::empty().push(0x0a) =~= seq![0x0au8]);
        assert(stands(input, q - 1, Seq::<u8>::empty().push(0x0a))) by {
            reveal(stands);
            assert(tail(input, q - 1).subrange(0, 1) =~= seq![input[q - 1]]);
        }
        lemma_take(input, s, q - 1, Seq::<u8>::empty());
        take_line(input, s).1
    }
}

/// Two readers whose next lines are the same read the same.
proof fn lemma_same_read(input: Seq<u8>, s: State, s1: State)
    requires
        super::grammar::next_line(input, s) == super::grammar::next_line(input, s1),
    ensures
        super::grammar::spec_read(input, s) == super::grammar::spec_read(input, s1),
{
}

/// What a command's first line begins, read: the command, with the reader
/// just past it; the end or another command follows.
#[verifier::spinoff_prover]
proof fn lemma_command_reads(input: Seq<u8>, s1: State, q: int, command: Command)
    requires
        rereadable(command),
        0 <= q,
        reader_at(input, s1, q + first_line(command).len() + 1),
        stands(input, q + first_line(command).len() + 1, command_body(command)),
        next_command(input, q + first_line(command).len() + 1 + command_body(command).len()),
    ensures
        match super::grammar::command(input, s1, first_line(command)) {
            Ok((read, s2)) => read == command@ && reader_near(
                input,
                s2,
                q + first_line(command).len() + 1 + command_body(command).len(),
            ),
            Err(_) => false,
        },
{
    lemma_words_commands();
    let line = first_line(command);
    let p: int = q + line.len() + 1;
    let e: int = p + command_body(command).len();
    match command {
        Command::Blob(blob) => {
            lemma_read_blob(input, s1, p, blob);
        },
        Command::Done => {
            lemma_not_starts(line, lit("blob"));
        },
        Command::Commit(commit) => {
            lemma_not_starts(line, lit("blob"));
            lemma_not_starts(line, lit("done"));
            lemma_starts(lit("commit "), commit.reference@);
            lemma_read_commit(input, s1, p, commit);
        },
        Command::Tag(tag) => {
            lemma_not_starts(line, lit("blob"));
            lemma_not_starts(line, lit("done"));
            lemma_not_starts(line, lit("commit "));
            lemma_starts(lit("tag "), tag.name@);
            lemma_read_tag(input, s1, p, tag);
        },
        Command::Reset(reset) => {
            lemma_not_starts(line, lit("blob"));
            lemma_not_starts(line, lit("done"));
            lemma_not_starts(line, lit("commit "));
            lemma_not_starts(line, lit("tag "));
            lemma_starts(lit("reset "), reset.reference@);
            lemma_reset_before(input, s1, p, reset);
        },
        Command::Progress(text) => {
            lemma_not_starts(line, lit("blob"));
            lemma_not_starts(line, lit("done"));
            lemma_not_starts(line, lit("commit "));
            lemma_not_starts(line, lit("tag "));
            lemma_not_starts(line, lit("reset "));
            lemma_starts(lit("progress "), text@);
        },
        Command::Feature(text) => {
            lemma_not_starts(line, lit("blob"));
            lemma_not_starts(line, lit("done"));
            lemma_not_starts(line, lit("commit "));
            lemma_not_starts(line, lit("tag "));
            lemma_not_starts(line, lit("reset "));
            lemma_not_starts(line, lit("progress "));
            lemma_starts(lit("feature "), text@);
        },
        Command::Option(text) => {
            lemma_not_starts(line, lit("blob"));
            lemma_not_starts(line, lit("done"));
            lemma_not_starts(line, lit("commit "));
            lemma_not_starts(line, lit("tag "));
            lemma_not_starts(line, lit("reset "));
            lemma_not_starts(line, lit("progress "));
            lemma_not_starts(line, lit("feature "));
            lemma_starts(lit("option "), text@);
        },
    }
}

/// Whatever stands, stands from the start.
proof fn lemma_stands_whole(input: Seq<u8>)
    ensures
        stands(input, 0, input),
{
    reveal(stands);
    assert(tail(input, 0).subrange(0, input.len() as int) =~= input);
}

// ---------------------------------------------------------------------------
// What follows a command
// ---------------------------------------------------------------------------

/// What stands at `q` is the end, or the first line of a command the writer
/// spelled.
pub open spec fn next_command(input: Seq<u8>, q: int) -> bool {
    q == input.len() || exists|c: Command| rereadable(c) && #[trigger] stands(
        input,
        q,
        first_line(c).push(0x0a),
    )
}

/// A command's first line is no change line.
#[verifier::spinoff_prover]
proof fn lemma_not_a_change(input: Seq<u8>, s: State, command: Command)
    requires
        rereadable(command),
    ensures
        super::grammar::change(input, s, first_line(command)) == Ok::<
            (Option<ChangeView>, State),
            Refusal,
        >((None, s)),
{
    lemma_words_commands();
    lemma_words_changes();
    let line = first_line(command);
    lemma_command_shape(command);
    if command is Done {
        assert(line.len() != lit("deleteall").len());
    } else {
        lemma_not_starts(line, lit("deleteall"));
    }
    lemma_not_starts(line, lit("M "));
    lemma_not_starts(line, lit("D "));
    lemma_not_starts(line, lit("R "));
    lemma_not_starts(line, lit("C "));
    lemma_not_starts(line, lit("N "));
}

/// What the first line of a command is not: a `from` line, a `merge` line.
proof fn lemma_command_line_begins(input: Seq<u8>, q: int, command: Command)
    requires
        rereadable(command),
        stands(input, q, first_line(command).push(0x0a)),
    ensures
        q < input.len(),
        not_next(input, q, 0x6d),
        not_prefixed(input, q, lit("from ")),
        input[q] != 0x0a,
{
    lemma_words_commands();
    lemma_words_fields();
    lemma_command_shape(command);
    let line = first_line(command);
    lemma_first(input, q, line.push(0x0a));
    lemma_begins(input, q, line.push(0x0a));
    if starts_with(tail(input, q), lit("from ")) {
        assert(tail(input, q).subrange(0, 5)[1] == input[q + 1]);
        assert(input[q + 1] == line.push(0x0a)[1]);
    }
}

/// Change lines stop at a command's first line, which is put back.
#[verifier::spinoff_prover]
proof fn lemma_changes_stop_at_command(input: Seq<u8>, s: State, q: int, command: Command, acc: Seq<ChangeView>)
    requires
        reader_at(input, s, q),
        rereadable(command),
        stands(input, q, first_line(command).push(0x0a)),
    ensures
        match super::grammar::changes(input, s, acc) {
            Ok((read, s1)) => read == acc && reader_at(input, s1, q),
            Err(_) => false,
        },
{
    lemma_command_shape(command);
    let line = first_line(command);
    lemma_take(input, s, q, line);
    let (taken, s1) = take_line(input, s);
    lemma_not_a_change(input, s1, command);
    let span = taken.unwrap();
    assert(span.0 != span.1);
    let s2 = put_back(s1, span);
    find_from_facts(input, q, 0x0a);
    assert(reader_at(input, s2, q));
}


// ---------------------------------------------------------------------------
// Streams
// ---------------------------------------------------------------------------

/// The bytes the writer spells for commands written one after another.
pub open spec fn spell_stream(commands: Seq<Command>) -> Seq<u8>
    decreases commands.len(),
{
    if commands.len() == 0 {
        Seq::empty()
    } else {
        spell_stream(commands.drop_last()) + spell_command(commands.last())
    }
}

/// The commands, first one first.
proof fn lemma_stream_front(commands: Seq<Command>)
    requires
        commands.len() > 0,
    ensures
        spell_stream(commands) == spell_command(commands[0]) + spell_stream(commands.drop_first()),
    decreases commands.len(),
{
    if commands.len() == 1 {
        assert(commands.drop_last() =~= Seq::<Command>::empty());
        assert(commands.drop_first() =~= Seq::<Command>::empty());
        assert(spell_stream(commands.drop_last()) == Seq::<u8>::empty());
        assert(commands.last() == commands[0]);
        assert(spell_stream(commands) =~= spell_command(commands[0]));
        assert(spell_command(commands[0]) + Seq::<u8>::empty() =~= spell_command(commands[0]));
    } else {
        lemma_stream_front(commands.drop_last());
        assert(commands.drop_last().drop_first() =~= commands.drop_first().drop_last());
        assert(commands.drop_first().last() == commands.last());
        assert(spell_stream(commands) =~= spell_command(commands[0]) + spell_stream(
            commands.drop_first(),
        ));
    }
}



/// The first line of a command, taken from where the reader stands: it is
/// not blank.
#[verifier::spinoff_prover]
proof fn lemma_next_line_at(input: Seq<u8>, s: State, q: int, line: Seq<u8>) -> (s1: State)
    requires
        reader_at(input, s, q),
        stands(input, q, line.push(0x0a)),
        one_line(line),
        line.len() > 0,
    ensures
        super::grammar::next_line(input, s) == (Some((q as usize, (q + line.len()) as usize)), s1),
        piece(input, (q as usize, (q + line.len()) as usize)) == line,
        reader_at(input, s1, q + line.len() + 1),
{
    lemma_take(input, s, q, line);
    take_line(input, s).1
}

/// How a command is read from where the reader stands, from its first line
/// and what its first line begins.
proof fn lemma_read_at(
    input: Seq<u8>,
    s: State,
    span: (usize, usize),
    s1: State,
    view: CommandView,
    s2: State,
)
    requires
        state_ok(input, s),
        super::grammar::next_line(input, s) == (Some(span), s1),
        super::grammar::command(input, s1, piece(input, span)) == Ok::<(CommandView, State), Refusal>(
            (view, s2),
        ),
    ensures
        super::grammar::spec_read(input, s) == Ok::<(Option<CommandView>, State), Refusal>(
            (Some(view), s2),
        ),
{
}

/// Nothing more is read at the end of the input.
proof fn lemma_read_all_at_end(input: Seq<u8>, s: State, acc: Seq<CommandView>)
    requires
        reader_near(input, s, input.len() as int),
    ensures
        super::grammar::read_all(input, s, acc) == Ok::<Seq<CommandView>, Refusal>(acc),
{
    let s1 = lemma_skip_blank(input, s, input.len() as int);
    lemma_take_at_end(input, s1);
    assert(super::grammar::next_line(input, s1).0 is None);
    assert(super::grammar::next_line(input, s).0 is None);
}

/// One command of a stream, read: it, and after it the rest.
#[verifier::spinoff_prover]
proof fn lemma_read_one_command(input: Seq<u8>, s: State, q: int, commands: Seq<Command>) -> (s2: State)
    requires
        commands.len() > 0,
        reader_near(input, s, q),
        stands(input, q, spell_stream(commands)),
        q + spell_stream(commands).len() == input.len(),
        forall|i: int| 0 <= i < commands.len() ==> rereadable(#[trigger] commands[i]),
    ensures
        super::grammar::spec_read(input, s) == Ok::<(Option<CommandView>, State), Refusal>(
            (Some(commands[0]@), s2),
        ),
        reader_near(input, s2, q + spell_command(commands[0]).len()),
        stands(input, q + spell_command(commands[0]).len(), spell_stream(commands.drop_first())),
{
    let first = commands[0];
    let rest = commands.drop_first();
    assert(rereadable(first));
    lemma_stream_front(commands);
    lemma_split(input, q, spell_command(first), spell_stream(rest));
    lemma_command_shape(first);
    let line = first_line(first);
    lemma_split(input, q, line.push(0x0a), command_body(first));
    let s0 = lemma_skip_blank(input, s, q);
    lemma_same_read(input, s, s0);
    let s1 = lemma_next_line_at(input, s0, q, line);
    let e = q + spell_command(first).len();
    if rest.len() > 0 {
        let next = rest[0];
        assert(next == commands[1]);
        assert(rereadable(next));
        lemma_stream_front(rest);
        lemma_split(input, e, spell_command(next), spell_stream(rest.drop_first()));
        lemma_command_shape(next);
        lemma_split(input, e, first_line(next).push(0x0a), command_body(next));
        assert(next_command(input, e));
    } else {
        assert(spell_stream(rest) == Seq::<u8>::empty());
    }
    lemma_command_reads(input, s1, q, first);
    let s2 = super::grammar::command(input, s1, line)->Ok_0.1;
    lemma_read_at(input, s0, (q as usize, (q + line.len()) as usize), s1, first@, s2);
    s2
}

/// Commands a writer spelled one after another, read from where the first
/// of them stands to the end.
#[verifier::spinoff_prover]
#[verifier::rlimit(40)]
proof fn lemma_read_stream(
    input: Seq<u8>,
    s: State,
    q: int,
    commands: Seq<Command>,
    acc: Seq<CommandView>,
)
    requires
        reader_near(input, s, q),
        stands(input, q, spell_stream(commands)),
        q + spell_stream(commands).len() == input.len(),
        forall|i: int| 0 <= i < commands.len() ==> rereadable(#[trigger] commands[i]),
    ensures
        super::grammar::read_all(input, s, acc) == Ok::<Seq<CommandView>, Refusal>(
            acc + commands.map_values(|command: Command| command@),
        ),
    decreases commands.len(),
{
    if commands.len() == 0 {
        lemma_read_all_at_end(input, s, acc);
        assert(acc + commands.map_values(|command: Command| command@) =~= acc);
    } else {
        let s2 = lemma_read_one_command(input, s, q, commands);
        let rest = commands.drop_first();
        let e = q + spell_command(commands[0]).len();
        assert forall|i: int| 0 <= i < rest.len() implies rereadable(#[trigger] rest[i]) by {
            assert(rest[i] == commands[i + 1]);
        }
        lemma_stream_front(commands);
        lemma_read_stream(input, s2, e, rest, acc.push(commands[0]@));
        super::grammar::lemma_read_all_step(input, s, acc, commands[0]@, s2);
        assert(acc.push(commands[0]@) + rest.map_values(|command: Command| command@) =~= acc
            + commands.map_values(|command: Command| command@));
    }
}

// ---------------------------------------------------------------------------
// The law
// ---------------------------------------------------------------------------

/// Commands the writer spells one after another read back as those commands,
/// in order, and nothing more.
///
/// For every run of commands whose lines can hold what they carry — no
/// newline in the text of a line, names that are marks or hexadecimal object
/// IDs, people whose line a reader can take apart at the angle brackets,
/// offsets under a hundred hours either way — reading the bytes
/// [`super::write`] spells for them, from the start to the end, gives the
/// commands back.
pub proof fn a_written_stream_reads_back(commands: Seq<Command>)
    requires
        forall|i: int| 0 <= i < commands.len() ==> rereadable(#[trigger] commands[i]),
        spell_stream(commands).len() <= usize::MAX,
    ensures
        super::grammar::read_all(spell_stream(commands), super::grammar::start(), Seq::empty())
            == Ok::<Seq<CommandView>, Refusal>(commands.map_values(|command: Command| command@)),
{
    let input = spell_stream(commands);
    lemma_stands_whole(input);
    assert(reader_at(input, super::grammar::start(), 0));
    lemma_read_stream(input, super::grammar::start(), 0, commands, Seq::empty());
    assert(Seq::<CommandView>::empty() + commands.map_values(|command: Command| command@)
        =~= commands.map_values(|command: Command| command@));
}


// ---------------------------------------------------------------------------
// Spelled by what a command says
// ---------------------------------------------------------------------------

proof fn lemma_named_by_view(a: DataRef, b: DataRef)
    requires
        a@ == b@,
    ensures
        spell_named(a) == spell_named(b),
{
}

proof fn lemma_from_by_view(a: Option<DataRef>, b: Option<DataRef>)
    requires
        option_view(a) == option_view(b),
    ensures
        spell_from(a) == spell_from(b),
{
    if let (Some(x), Some(y)) = (a, b) {
        assert(x@ == y@);
        lemma_named_by_view(x, y);
    }
}

proof fn lemma_merges_by_view(a: Seq<DataRef>, b: Seq<DataRef>)
    requires
        a.len() == b.len(),
        forall|i: int| 0 <= i < a.len() ==> #[trigger] a[i]@ == b[i]@,
    ensures
        spell_merges(a) == spell_merges(b),
    decreases a.len(),
{
    if a.len() > 0 {
        lemma_merges_by_view(a.drop_last(), b.drop_last());
        lemma_named_by_view(a.last(), b.last());
    }
}

proof fn lemma_change_by_view(a: Change, b: Change)
    requires
        a@ == b@,
    ensures
        spell_change(a) == spell_change(b),
{
    match (a, b) {
        (Change::Modify { content: x, .. }, Change::Modify { content: y, .. }) => {
            if let (Content::Named(p), Content::Named(q)) = (x, y) {
                lemma_named_by_view(p, q);
            }
        },
        (Change::Note { content: x, commit: p }, Change::Note { content: y, commit: q }) => {
            lemma_named_by_view(p, q);
            if let (Content::Named(m), Content::Named(n)) = (x, y) {
                lemma_named_by_view(m, n);
            }
        },
        _ => {},
    }
}

proof fn lemma_changes_by_view(a: Seq<Change>, b: Seq<Change>)
    requires
        a.len() == b.len(),
        forall|i: int| 0 <= i < a.len() ==> #[trigger] a[i]@ == b[i]@,
    ensures
        spell_changes(a) == spell_changes(b),
    decreases a.len(),
{
    if a.len() > 0 {
        lemma_changes_by_view(a.drop_last(), b.drop_last());
        lemma_change_by_view(a.last(), b.last());
    }
}

/// Two commands that say the same are spelled the same.
pub proof fn lemma_spell_by_view(a: Command, b: Command)
    requires
        a@ == b@,
    ensures
        spell_command(a) == spell_command(b),
{
    match (a, b) {
        (Command::Commit(x), Command::Commit(y)) => {
            lemma_from_by_view(x.from, y.from);
            let (xm, ym) = (x.merges@.map_values(|named: DataRef| named@), y.merges@.map_values(
                |named: DataRef| named@,
            ));
            let (xc, yc) = (x.changes@.map_values(|change: Change| change@), y.changes@.map_values(
                |change: Change| change@,
            ));
            assert(xm == ym && xc == yc);
            assert(x.merges@.len() == xm.len() && y.merges@.len() == ym.len());
            assert(x.changes@.len() == xc.len() && y.changes@.len() == yc.len());
            assert forall|i: int| 0 <= i < x.merges@.len() implies #[trigger] x.merges@[i]@
                == y.merges@[i]@ by {
                assert(xm[i] == x.merges@[i]@ && ym[i] == y.merges@[i]@);
            }
            assert forall|i: int| 0 <= i < x.changes@.len() implies #[trigger] x.changes@[i]@
                == y.changes@[i]@ by {
                assert(xc[i] == x.changes@[i]@ && yc[i] == y.changes@[i]@);
            }
            lemma_merges_by_view(x.merges@, y.merges@);
            lemma_changes_by_view(x.changes@, y.changes@);
            assert(spell_commit_tail(x) == spell_commit_tail(y));
        },
        (Command::Tag(x), Command::Tag(y)) => {
            lemma_named_by_view(x.from, y.from);
        },
        (Command::Reset(x), Command::Reset(y)) => {
            lemma_from_by_view(x.from, y.from);
        },
        _ => {},
    }
}

/// Two runs of commands that say the same are spelled the same.
proof fn lemma_stream_by_view(a: Seq<Command>, b: Seq<Command>)
    requires
        a.len() == b.len(),
        forall|i: int| 0 <= i < a.len() ==> #[trigger] a[i]@ == b[i]@,
    ensures
        spell_stream(a) == spell_stream(b),
    decreases a.len(),
{
    if a.len() > 0 {
        lemma_stream_by_view(a.drop_last(), b.drop_last());
        lemma_spell_by_view(a.last(), b.last());
    }
}

/// A stream spelled the way git spells it, read and written back, is the
/// same bytes: whatever commands the reader hands out for it, written one
/// after another, spell the stream exactly as it was.
pub proof fn a_stream_in_git_spelling_is_written_back_byte_for_byte(
    written: Seq<Command>,
    read: Seq<Command>,
)
    requires
        forall|i: int| 0 <= i < written.len() ==> rereadable(#[trigger] written[i]),
        spell_stream(written).len() <= usize::MAX,
        super::grammar::read_all(spell_stream(written), super::grammar::start(), Seq::empty())
            == Ok::<Seq<CommandView>, Refusal>(read.map_values(|command: Command| command@)),
    ensures
        spell_stream(read) == spell_stream(written),
{
    a_written_stream_reads_back(written);
    let said = read.map_values(|command: Command| command@);
    let meant = written.map_values(|command: Command| command@);
    assert(said == meant);
    assert(read.len() == written.len()) by {
        assert(said.len() == read.len() && meant.len() == written.len());
    }
    assert forall|i: int| 0 <= i < read.len() implies #[trigger] read[i]@ == written[i]@ by {
        assert(said[i] == read[i]@);
        assert(meant[i] == written[i]@);
    }
    lemma_stream_by_view(read, written);
}

} // verus!
