//! Writing the stream `read` parses.
//!
//! The same vocabulary in the other direction, and deliberately no more than
//! that: a [`Writer`] takes the [`Command`]s a [`Reader`](super::Reader) yields
//! and spells them the way git spells them. Nothing here decides what a commit
//! should contain.
//!
//! Byte-exactness is the point rather than a nicety: a commit is a function of
//! the revision it came from, and the way that claim is checked is by writing a
//! stream and comparing it with the one git wrote, so every place git had a
//! choice about spelling is resolved the way git resolves it. What that spelling
//! is, exactly, is [`spell_command`].

use vstd::prelude::*;
use vstd::string::StringSliceAdditionalSpecFns;
use vstd::utf8::encode_utf8;

use super::quote::{quote, spec_quote};
use super::{Blob, Change, Command, Commit, Content, DataRef, Person, Reset, Tag};

verus! {

#[verifier::external_type_specification]
#[verifier::external_body]
pub struct ExIoError(std::io::Error);

// ---------------------------------------------------------------------------
// The spelling
// ---------------------------------------------------------------------------

/// The bytes of a string literal.
pub open spec fn lit(text: &str) -> Seq<u8> {
    text.spec_bytes()
}

/// The bytes of a string, as UTF-8.
pub open spec fn utf8(text: String) -> Seq<u8> {
    encode_utf8(text@)
}

/// A number in decimal, with no leading zeros.
pub open spec fn decimal(n: nat) -> Seq<u8>
    decreases n,
{
    if n < 10 {
        seq![(0x30 + n) as u8]
    } else {
        decimal(n / 10).push((0x30 + n % 10) as u8)
    }
}

/// A signed number in decimal: `-` before the digits where it is negative.
pub open spec fn signed(n: int) -> Seq<u8> {
    if n < 0 {
        seq![0x2du8] + decimal((-n) as nat)
    } else {
        decimal(n as nat)
    }
}

/// A number padded to at least two digits, as `{:02}` spells one.
pub open spec fn two_digits(n: nat) -> Seq<u8> {
    if n < 10 {
        seq![0x30u8] + decimal(n)
    } else {
        decimal(n)
    }
}

/// Minutes east of UTC, as git's `+HHMM`.
pub open spec fn spell_offset(minutes: int) -> Seq<u8> {
    let size: nat = if minutes < 0 { (-minutes) as nat } else { minutes as nat };
    seq![if minutes < 0 { 0x2du8 } else { 0x2bu8 }] + two_digits(size / 60) + two_digits(size % 60)
}

/// `data <count>` and exactly that many bytes, and nothing after them.
pub open spec fn spell_data(bytes: Seq<u8>) -> Seq<u8> {
    lit("data ") + decimal(bytes.len()) + lit("\n") + bytes
}

/// A mark as `:<n>`, or an object ID as its hex.
pub open spec fn spell_named(named: DataRef) -> Seq<u8> {
    match named {
        DataRef::Mark(mark) => seq![0x3au8] + decimal(mark.0 as nat),
        DataRef::Oid(oid) => utf8(oid),
    }
}

/// `<role> Name <email> <seconds> <offset>` and the newline.
pub open spec fn spell_person(role: Seq<u8>, person: Person) -> Seq<u8> {
    role + lit(" ") + person.name@ + lit(" <") + person.email@ + lit("> ") + signed(
        person.seconds as int,
    ) + lit(" ") + spell_offset(person.offset_minutes as int) + lit("\n")
}

/// A `mark :<n>` line, where there is a mark.
pub open spec fn spell_mark(mark: Option<super::Mark>) -> Seq<u8> {
    match mark {
        Some(mark) => lit("mark :") + decimal(mark.0 as nat) + lit("\n"),
        None => Seq::empty(),
    }
}

/// An `original-oid` line, where there is one.
pub open spec fn spell_original(oid: Option<String>) -> Seq<u8> {
    match oid {
        Some(oid) => lit("original-oid ") + utf8(oid) + lit("\n"),
        None => Seq::empty(),
    }
}

/// One change line, and the data block an inline one carries.
pub open spec fn spell_change(change: Change) -> Seq<u8> {
    match change {
        Change::Modify { mode, content, path } => lit("M ") + lit(super::mode_text(mode)) + lit(
            " ",
        ) + match content {
            Content::Named(named) => spell_named(named) + lit(" ") + spec_quote(path@, true) + lit(
                "\n",
            ),
            Content::Inline(bytes) => lit("inline ") + spec_quote(path@, true) + lit("\n")
                + spell_data(bytes@) + lit("\n"),
        },
        Change::Delete { path } => lit("D ") + spec_quote(path@, true) + lit("\n"),
        Change::Rename { source, destination } => lit("R ") + spec_quote(source@, true) + lit(" ")
            + spec_quote(destination@, true) + lit("\n"),
        Change::Copy { source, destination } => lit("C ") + spec_quote(source@, true) + lit(" ")
            + spec_quote(destination@, true) + lit("\n"),
        Change::DeleteAll => lit("deleteall\n"),
        Change::Note { content, commit } => lit("N ") + match content {
            Content::Named(named) => spell_named(named) + lit(" ") + spell_named(commit) + lit(
                "\n",
            ),
            Content::Inline(bytes) => lit("inline ") + spell_named(commit) + lit("\n")
                + spell_data(bytes@) + lit("\n"),
        },
    }
}

/// Every change, in order.
pub open spec fn spell_changes(changes: Seq<Change>) -> Seq<u8>
    decreases changes.len(),
{
    if changes.len() == 0 {
        Seq::empty()
    } else {
        spell_changes(changes.drop_last()) + spell_change(changes.last())
    }
}

/// Every further parent, as `merge` lines.
pub open spec fn spell_merges(merges: Seq<DataRef>) -> Seq<u8>
    decreases merges.len(),
{
    if merges.len() == 0 {
        Seq::empty()
    } else {
        spell_merges(merges.drop_last()) + lit("merge ") + spell_named(merges.last()) + lit("\n")
    }
}

/// The author line, where the commit states one.
pub open spec fn spell_author(author: Option<Person>) -> Seq<u8> {
    match author {
        Some(author) => spell_person(lit("author"), author),
        None => Seq::empty(),
    }
}

/// The `encoding` line, where the commit states one.
pub open spec fn spell_encoding(encoding: Option<Vec<u8>>) -> Seq<u8> {
    match encoding {
        Some(encoding) => lit("encoding ") + encoding@ + lit("\n"),
        None => Seq::empty(),
    }
}

/// The `gpgsig` header and its data block, where the commit is signed.
pub open spec fn spell_signature(signature: Option<super::Signature>) -> Seq<u8> {
    match signature {
        Some(signature) => lit("gpgsig ") + signature.kind@ + lit("\n") + spell_data(
            signature.data@,
        ) + lit("\n"),
        None => Seq::empty(),
    }
}

/// The `from` line, where there is a first parent.
pub open spec fn spell_from(from: Option<DataRef>) -> Seq<u8> {
    match from {
        Some(from) => lit("from ") + spell_named(from) + lit("\n"),
        None => Seq::empty(),
    }
}

/// A commit up to and including its message.
pub open spec fn spell_commit_head(commit: Commit) -> Seq<u8> {
    lit("commit ") + commit.reference@ + lit("\n") + spell_mark(commit.mark) + spell_original(
        commit.original_oid,
    ) + spell_author(commit.author) + spell_person(lit("committer"), commit.committer)
        + spell_encoding(commit.encoding) + spell_signature(commit.signature) + spell_data(
        commit.message@,
    )
}

/// A commit after its message: parents, changes, and the blank line that ends
/// it.
pub open spec fn spell_commit_tail(commit: Commit) -> Seq<u8> {
    spell_from(commit.from) + spell_merges(commit.merges@) + spell_changes(commit.changes@) + lit(
        "\n",
    )
}

/// A commit, as git writes one.
///
/// No newline after the message: git writes none, and a message that does not
/// end in one runs straight into the first change on the same line. The blank
/// line at the end is the commit's terminator.
pub open spec fn spell_commit(commit: Commit) -> Seq<u8> {
    spell_commit_head(commit) + spell_commit_tail(commit)
}

/// An annotated tag, as git writes one: `original-oid` after `from`.
pub open spec fn spell_tag(tag: Tag) -> Seq<u8> {
    lit("tag ") + tag.name@ + lit("\n") + spell_mark(tag.mark) + spell_from(Some(tag.from))
        + spell_original(tag.original_oid) + spell_tagger(tag.tagger) + spell_data(tag.message@)
        + lit("\n")
}

/// The tagger line, where the tag states one.
pub open spec fn spell_tagger(tagger: Option<Person>) -> Seq<u8> {
    match tagger {
        Some(tagger) => spell_person(lit("tagger"), tagger),
        None => Seq::empty(),
    }
}

/// A reset. One that only names a ref ends with its line, as git writes it;
/// one with a `from` ends with a blank line after that.
pub open spec fn spell_reset(reset: Reset) -> Seq<u8> {
    lit("reset ") + reset.reference@ + lit("\n") + spell_from(reset.from) + match reset.from {
        Some(_) => lit("\n"),
        None => Seq::empty(),
    }
}

/// One command, exactly as git spells it.
pub open spec fn spell_command(command: Command) -> Seq<u8> {
    match command {
        Command::Blob(blob) => lit("blob\n") + spell_mark(blob.mark) + spell_original(
            blob.original_oid,
        ) + spell_data(blob.data@) + lit("\n"),
        Command::Commit(commit) => spell_commit(commit),
        Command::Tag(tag) => spell_tag(tag),
        Command::Reset(reset) => spell_reset(reset),
        Command::Progress(line) => lit("progress ") + line@ + lit("\n"),
        Command::Feature(line) => lit("feature ") + line@ + lit("\n"),
        Command::Option(line) => lit("option ") + line@ + lit("\n"),
        Command::Done => lit("done\n"),
    }
}

/// A person whose offset `+HHMM` can spell: every offset but the one whose
/// magnitude does not fit the type.
pub open spec fn person_writable(person: Person) -> bool {
    person.offset_minutes != i32::MIN
}

/// A command every person in which can be written.
pub open spec fn writable(command: Command) -> bool {
    match command {
        Command::Commit(commit) => {
            &&& person_writable(commit.committer)
            &&& (commit.author matches Some(author) ==> person_writable(author))
        },
        Command::Tag(tag) => tag.tagger matches Some(tagger) ==> person_writable(tagger),
        _ => true,
    }
}

// ---------------------------------------------------------------------------
// Spelling, executed
// ---------------------------------------------------------------------------

/// Append the bytes of `text`.
pub fn push_text(out: &mut Vec<u8>, text: &str)
    ensures
        final(out)@ == old(out)@ + lit(text),
{
    crate::bytes::extend(out, text.as_bytes());
}

/// Append `n` in decimal.
pub fn push_decimal(out: &mut Vec<u8>, n: u64)
    ensures
        final(out)@ == old(out)@ + decimal(n as nat),
    decreases n,
{
    if n >= 10 {
        push_decimal(out, n / 10);
    }
    let ghost before = out@;
    out.push(0x30 + (n % 10) as u8);
    proof {
        if n >= 10 {
            assert(decimal(n as nat) == decimal((n / 10) as nat).push((0x30 + n % 10) as u8));
        } else {
            assert(decimal(n as nat) == seq![(0x30 + n) as u8]);
        }
    }
}

/// A count, in decimal, as text.
pub fn decimal_text(n: u64) -> (text: String)
    ensures
        text@ == crate::bytes::chars_of(decimal(n as nat)),
{
    let mut digits: Vec<u8> = Vec::new();
    push_decimal(&mut digits, n);
    proof {
        crate::carried::lemma_decimal_ascii(n as nat);
    }
    crate::bytes::text_of(&digits)
}

/// Append `n` in decimal, signed.
pub fn push_signed(out: &mut Vec<u8>, n: i64)
    ensures
        final(out)@ == old(out)@ + signed(n as int),
{
    if n < 0 {
        out.push(0x2d);
        let magnitude: u64 = (-(n as i128)) as u64;
        push_decimal(out, magnitude);
    } else {
        push_decimal(out, n as u64);
    }
}

fn push_two_digits(out: &mut Vec<u8>, n: u64)
    ensures
        final(out)@ == old(out)@ + two_digits(n as nat),
{
    if n < 10 {
        out.push(0x30);
    }
    push_decimal(out, n);
}

/// Append minutes east of UTC, as git's `+HHMM`.
pub fn push_offset(out: &mut Vec<u8>, minutes: i32)
    requires
        minutes != i32::MIN,
    ensures
        final(out)@ == old(out)@ + spell_offset(minutes as int),
{
    let size: u64 = if minutes < 0 { (-minutes) as u64 } else { minutes as u64 };
    if minutes < 0 {
        out.push(0x2d);
    } else {
        out.push(0x2b);
    }
    push_two_digits(out, size / 60);
    push_two_digits(out, size % 60);
}

/// Append a whole data block.
pub fn push_data(out: &mut Vec<u8>, bytes: &[u8])
    ensures
        final(out)@ == old(out)@ + spell_data(bytes@),
{
    push_text(out, "data ");
    push_decimal(out, bytes.len() as u64);
    push_text(out, "\n");
    crate::bytes::extend(out, bytes);
}

fn push_named(out: &mut Vec<u8>, named: &DataRef)
    ensures
        final(out)@ == old(out)@ + spell_named(*named),
{
    match named {
        DataRef::Mark(mark) => {
            out.push(0x3a);
            push_decimal(out, mark.0);
        },
        DataRef::Oid(oid) => crate::bytes::extend(out, oid.as_str().as_bytes()),
    }
}

fn push_person(out: &mut Vec<u8>, role: &str, person: &Person)
    requires
        person_writable(*person),
    ensures
        final(out)@ == old(out)@ + spell_person(lit(role), *person),
{
    push_text(out, role);
    push_text(out, " ");
    crate::bytes::extend(out, person.name.as_slice());
    push_text(out, " <");
    crate::bytes::extend(out, person.email.as_slice());
    push_text(out, "> ");
    push_signed(out, person.seconds);
    push_text(out, " ");
    push_offset(out, person.offset_minutes);
    push_text(out, "\n");
}

fn push_mark(out: &mut Vec<u8>, mark: Option<super::Mark>)
    ensures
        final(out)@ == old(out)@ + spell_mark(mark),
{
    match mark {
        Some(mark) => {
            push_text(out, "mark :");
            push_decimal(out, mark.0);
            push_text(out, "\n");
        },
        None => {
            assert(out@ + Seq::<u8>::empty() == out@);
        },
    }
}

fn push_original(out: &mut Vec<u8>, oid: &Option<String>)
    ensures
        final(out)@ == old(out)@ + spell_original(*oid),
{
    match oid {
        Some(oid) => {
            push_text(out, "original-oid ");
            crate::bytes::extend(out, oid.as_str().as_bytes());
            push_text(out, "\n");
        },
        None => {
            assert(out@ + Seq::<u8>::empty() == out@);
        },
    }
}

fn push_quoted(out: &mut Vec<u8>, path: &Vec<u8>)
    ensures
        final(out)@ == old(out)@ + spec_quote(path@, true),
{
    let quoted = quote(path.as_slice(), true);
    crate::bytes::extend(out, quoted.as_slice());
}

fn push_content(out: &mut Vec<u8>, content: &Content, path: &Vec<u8>)
    ensures
        final(out)@ == old(out)@ + match *content {
            Content::Named(named) => spell_named(named) + lit(" ") + spec_quote(path@, true) + lit(
                "\n",
            ),
            Content::Inline(bytes) => lit("inline ") + spec_quote(path@, true) + lit("\n")
                + spell_data(bytes@) + lit("\n"),
        },
{
    let ghost before = out@;
    match content {
        Content::Named(named) => {
            push_named(out, named);
            push_text(out, " ");
            push_quoted(out, path);
            push_text(out, "\n");
            assert(out@ =~= before + (spell_named(*named) + lit(" ") + spec_quote(path@, true)
                + lit("\n")));
        },
        Content::Inline(bytes) => {
            push_text(out, "inline ");
            push_quoted(out, path);
            push_text(out, "\n");
            push_data(out, bytes.as_slice());
            push_text(out, "\n");
            assert(out@ =~= before + (lit("inline ") + spec_quote(path@, true) + lit("\n")
                + spell_data(bytes@) + lit("\n")));
        },
    }
}

fn push_note(out: &mut Vec<u8>, content: &Content, commit: &DataRef)
    ensures
        final(out)@ == old(out)@ + match *content {
            Content::Named(named) => spell_named(named) + lit(" ") + spell_named(*commit) + lit(
                "\n",
            ),
            Content::Inline(bytes) => lit("inline ") + spell_named(*commit) + lit("\n")
                + spell_data(bytes@) + lit("\n"),
        },
{
    let ghost before = out@;
    match content {
        Content::Named(named) => {
            push_named(out, named);
            push_text(out, " ");
            push_named(out, commit);
            push_text(out, "\n");
            assert(out@ =~= before + (spell_named(*named) + lit(" ") + spell_named(*commit) + lit(
                "\n",
            )));
        },
        Content::Inline(bytes) => {
            push_text(out, "inline ");
            push_named(out, commit);
            push_text(out, "\n");
            push_data(out, bytes.as_slice());
            push_text(out, "\n");
            assert(out@ =~= before + (lit("inline ") + spell_named(*commit) + lit("\n")
                + spell_data(bytes@) + lit("\n")));
        },
    }
}

fn push_pair(out: &mut Vec<u8>, verb: &str, source: &Vec<u8>, destination: &Vec<u8>)
    ensures
        final(out)@ == old(out)@ + (lit(verb) + spec_quote(source@, true) + lit(" ")
            + spec_quote(destination@, true) + lit("\n")),
{
    let ghost before = out@;
    push_text(out, verb);
    push_quoted(out, source);
    push_text(out, " ");
    push_quoted(out, destination);
    push_text(out, "\n");
    assert(out@ =~= before + (lit(verb) + spec_quote(source@, true) + lit(" ") + spec_quote(
        destination@,
        true,
    ) + lit("\n")));
}

fn push_change(out: &mut Vec<u8>, change: &Change)
    ensures
        final(out)@ == old(out)@ + spell_change(*change),
{
    let ghost before = out@;
    match change {
        Change::Modify { mode, content, path } => {
            push_text(out, "M ");
            push_text(out, mode.as_str());
            push_text(out, " ");
            let ghost head = out@;
            assert(head =~= before + (lit("M ") + lit(super::mode_text(*mode)) + lit(" ")));
            push_content(out, content, path);
            assert(out@ =~= before + spell_change(*change));
        },
        Change::Delete { path } => {
            push_text(out, "D ");
            push_quoted(out, path);
            push_text(out, "\n");
            assert(out@ =~= before + spell_change(*change));
        },
        Change::Rename { source, destination } => {
            push_pair(out, "R ", source, destination);
        },
        Change::Copy { source, destination } => {
            push_pair(out, "C ", source, destination);
        },
        Change::DeleteAll => push_text(out, "deleteall\n"),
        Change::Note { content, commit } => {
            push_text(out, "N ");
            push_note(out, content, commit);
            assert(out@ =~= before + spell_change(*change));
        },
    }
}

fn push_author(out: &mut Vec<u8>, author: &Option<Person>)
    requires
        *author matches Some(author) ==> person_writable(author),
    ensures
        final(out)@ == old(out)@ + spell_author(*author),
{
    match author {
        Some(author) => push_person(out, "author", author),
        None => {
            assert(out@ + Seq::<u8>::empty() == out@);
        },
    }
}

fn push_tagger(out: &mut Vec<u8>, tagger: &Option<Person>)
    requires
        *tagger matches Some(tagger) ==> person_writable(tagger),
    ensures
        final(out)@ == old(out)@ + spell_tagger(*tagger),
{
    match tagger {
        Some(tagger) => push_person(out, "tagger", tagger),
        None => {
            assert(out@ + Seq::<u8>::empty() == out@);
        },
    }
}

fn push_encoding(out: &mut Vec<u8>, encoding: &Option<Vec<u8>>)
    ensures
        final(out)@ == old(out)@ + spell_encoding(*encoding),
{
    match encoding {
        Some(encoding) => {
            let ghost before = out@;
            push_text(out, "encoding ");
            crate::bytes::extend(out, encoding.as_slice());
            push_text(out, "\n");
            assert(out@ =~= before + (lit("encoding ") + encoding@ + lit("\n")));
        },
        None => {
            assert(out@ + Seq::<u8>::empty() == out@);
        },
    }
}

fn push_signature(out: &mut Vec<u8>, signature: &Option<super::Signature>)
    ensures
        final(out)@ == old(out)@ + spell_signature(*signature),
{
    match signature {
        Some(signature) => {
            let ghost before = out@;
            push_text(out, "gpgsig ");
            crate::bytes::extend(out, signature.kind.as_slice());
            push_text(out, "\n");
            push_data(out, signature.data.as_slice());
            // Git ends the signature's data block with a newline, since the
            // message's `data` line has to start one.
            push_text(out, "\n");
            assert(out@ =~= before + (lit("gpgsig ") + signature.kind@ + lit("\n") + spell_data(
                signature.data@,
            ) + lit("\n")));
        },
        None => {
            assert(out@ + Seq::<u8>::empty() == out@);
        },
    }
}

fn push_from(out: &mut Vec<u8>, from: &Option<DataRef>)
    ensures
        final(out)@ == old(out)@ + spell_from(*from),
{
    match from {
        Some(from) => {
            let ghost before = out@;
            push_text(out, "from ");
            push_named(out, from);
            push_text(out, "\n");
            assert(out@ =~= before + (lit("from ") + spell_named(*from) + lit("\n")));
        },
        None => {
            assert(out@ + Seq::<u8>::empty() == out@);
        },
    }
}

#[verifier::spinoff_prover]
#[verifier::rlimit(30)]
fn push_commit_head(out: &mut Vec<u8>, commit: &Commit)
    requires
        person_writable(commit.committer),
        commit.author matches Some(author) ==> person_writable(author),
    ensures
        final(out)@ == old(out)@ + spell_commit_head(*commit),
{
    let ghost before = out@;
    push_text(out, "commit ");
    crate::bytes::extend(out, commit.reference.as_slice());
    push_text(out, "\n");
    push_mark(out, commit.mark);
    push_original(out, &commit.original_oid);
    let ghost first = out@;
    assert(first =~= before + (lit("commit ") + commit.reference@ + lit("\n") + spell_mark(
        commit.mark,
    ) + spell_original(commit.original_oid)));
    push_author(out, &commit.author);
    push_person(out, "committer", &commit.committer);
    push_encoding(out, &commit.encoding);
    push_signature(out, &commit.signature);
    push_data(out, commit.message.as_slice());
    assert(out@ =~= before + spell_commit_head(*commit));
}

fn push_commit_tail(out: &mut Vec<u8>, commit: &Commit)
    ensures
        final(out)@ == old(out)@ + spell_commit_tail(*commit),
{
    let ghost before = out@;
    push_from(out, &commit.from);
    let ghost at_merges = out@;
    let mut index: usize = 0;
    while index < commit.merges.len()
        invariant
            index <= commit.merges@.len(),
            out@ == at_merges + spell_merges(commit.merges@.subrange(0, index as int)),
        decreases commit.merges@.len() - index,
    {
        proof {
            assert(commit.merges@.subrange(0, index + 1).drop_last() == commit.merges@.subrange(
                0,
                index as int,
            ));
        }
        let ghost step = out@;
        push_text(out, "merge ");
        push_named(out, &commit.merges[index]);
        push_text(out, "\n");
        index = index + 1;
        assert(out@ =~= at_merges + spell_merges(commit.merges@.subrange(0, index as int)));
    }
    assert(commit.merges@.subrange(0, commit.merges@.len() as int) == commit.merges@);
    let ghost at_changes = out@;
    let mut index: usize = 0;
    while index < commit.changes.len()
        invariant
            index <= commit.changes@.len(),
            out@ == at_changes + spell_changes(commit.changes@.subrange(0, index as int)),
        decreases commit.changes@.len() - index,
    {
        proof {
            assert(commit.changes@.subrange(0, index + 1).drop_last()
                == commit.changes@.subrange(0, index as int));
        }
        push_change(out, &commit.changes[index]);
        index = index + 1;
        assert(out@ =~= at_changes + spell_changes(commit.changes@.subrange(0, index as int)));
    }
    assert(commit.changes@.subrange(0, commit.changes@.len() as int) == commit.changes@);
    // The blank line that ends a commit.
    push_text(out, "\n");
    assert(out@ =~= before + spell_commit_tail(*commit));
}

fn push_commit(out: &mut Vec<u8>, commit: &Commit)
    requires
        person_writable(commit.committer),
        commit.author matches Some(author) ==> person_writable(author),
    ensures
        final(out)@ == old(out)@ + spell_commit(*commit),
{
    let ghost before = out@;
    push_commit_head(out, commit);
    push_commit_tail(out, commit);
    assert(out@ =~= before + spell_commit(*commit));
}

fn push_tag(out: &mut Vec<u8>, tag: &Tag)
    requires
        tag.tagger matches Some(tagger) ==> person_writable(tagger),
    ensures
        final(out)@ == old(out)@ + spell_tag(*tag),
{
    let ghost before = out@;
    push_text(out, "tag ");
    crate::bytes::extend(out, tag.name.as_slice());
    push_text(out, "\n");
    push_mark(out, tag.mark);
    let ghost first = out@;
    assert(first =~= before + (lit("tag ") + tag.name@ + lit("\n") + spell_mark(tag.mark)));
    push_text(out, "from ");
    push_named(out, &tag.from);
    push_text(out, "\n");
    assert(out@ =~= first + spell_from(Some(tag.from)));
    // After `from` rather than after `mark`, because that is where git writes
    // it on a tag and nowhere else.
    push_original(out, &tag.original_oid);
    push_tagger(out, &tag.tagger);
    push_data(out, tag.message.as_slice());
    push_text(out, "\n");
    assert(out@ =~= before + spell_tag(*tag));
}

fn push_reset(out: &mut Vec<u8>, reset: &Reset)
    ensures
        final(out)@ == old(out)@ + spell_reset(*reset),
{
    let ghost before = out@;
    push_text(out, "reset ");
    crate::bytes::extend(out, reset.reference.as_slice());
    push_text(out, "\n");
    push_from(out, &reset.from);
    // A reset that only names a ref ends there: git writes no blank line
    // after one. One with a `from` ends with a blank line.
    if reset.from.is_some() {
        push_text(out, "\n");
    }
    assert(out@ =~= before + spell_reset(*reset));
}

/// Append one command, exactly as git spells it.
pub fn push_command(out: &mut Vec<u8>, command: &Command)
    requires
        writable(*command),
    ensures
        final(out)@ == old(out)@ + spell_command(*command),
{
    let ghost before = out@;
    match command {
        Command::Blob(blob) => {
            push_text(out, "blob\n");
            push_mark(out, blob.mark);
            push_original(out, &blob.original_oid);
            push_data(out, blob.data.as_slice());
            // A blob ends here, so the newline git writes after the bytes is
            // this command's terminator.
            push_text(out, "\n");
        },
        Command::Commit(commit) => push_commit(out, commit),
        Command::Tag(tag) => push_tag(out, tag),
        Command::Reset(reset) => push_reset(out, reset),
        Command::Progress(line) => {
            push_text(out, "progress ");
            crate::bytes::extend(out, line.as_slice());
            push_text(out, "\n");
        },
        Command::Feature(line) => {
            push_text(out, "feature ");
            crate::bytes::extend(out, line.as_slice());
            push_text(out, "\n");
        },
        Command::Option(line) => {
            push_text(out, "option ");
            crate::bytes::extend(out, line.as_slice());
            push_text(out, "\n");
        },
        Command::Done => push_text(out, "done\n"),
    }
    assert(out@ == before + spell_command(*command));
}

// ---------------------------------------------------------------------------
// The writer
// ---------------------------------------------------------------------------

/// Writes fast-import commands into a buffer of bytes.
///
/// The counterpart of [`Reader`](super::Reader): what one yields, the other
/// writes.
#[derive(Debug)]
pub struct Writer {
    out: Vec<u8>,
}

impl Writer {
    /// The bytes written so far, including whatever the buffer held to begin
    /// with.
    pub closed spec fn written(&self) -> Seq<u8> {
        self.out@
    }

    /// A writer appending to `out`.
    pub fn new(out: Vec<u8>) -> (writer: Self)
        ensures
            writer.written() == out@,
    {
        Writer { out }
    }

    /// Hand back what was being written to.
    pub fn into_inner(self) -> (out: Vec<u8>)
        ensures
            out@ == self.written(),
    {
        self.out
    }

    /// Push whatever is buffered at whoever is downstream. A buffer in memory
    /// has nobody downstream, so this changes nothing and cannot fail.
    pub fn flush(&mut self) -> (result: Result<(), std::io::Error>)
        ensures
            result is Ok,
            final(self).written() == old(self).written(),
    {
        Ok(())
    }

    /// Write one command, spelled exactly as [`spell_command`] says. Writing to
    /// memory does not fail.
    pub fn write(&mut self, command: &Command) -> (result: Result<(), std::io::Error>)
        requires
            writable(*command),
        ensures
            result is Ok,
            final(self).written() == old(self).written() + spell_command(*command),
    {
        push_command(&mut self.out, command);
        Ok(())
    }
}

} // verus!
