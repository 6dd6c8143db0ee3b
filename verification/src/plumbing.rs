//! What git answers when a conversion asks it something besides the stream.
//!
//! The fast-import stream is the whole of this crate's contact with git's
//! objects, but some facts need a second question — `for-each-ref`,
//! `cat-file`, `rev-parse` — because the stream does not carry them. Running
//! git is the caller's; what is here is what each answer says, read as git's
//! manual promises it is written.

use vstd::prelude::*;

use crate::bytes::{lossy, text_of};
use crate::stream::text::{find_from, find_from_facts, parse_unsigned};
use crate::tree::{Entry, EntryView, Held, HeldView, Tree, TreeMap};
use vstd::utf8::encode_utf8;
use vstd::string::StringSliceAdditionalSpecFns;
use crate::stream::Mode;
use crate::remembered::{
    characters, find_char, find_char_exec, is_white, lemma_find_char, line_spans, lines, white,
};
use crate::table::{as_map, holds, lemma_insert, lemma_update, unique};

verus! {

/// Where a ref points, once anything it points *through* has been followed.
#[derive(Clone, PartialEq, Eq, Debug)]
pub struct Pointed {
    /// The commit reached.
    pub commit: String,
    /// Whether the ref named a tag object rather than the commit itself — an
    /// annotated tag, which does not become a bookmark.
    pub annotated: bool,
}

/// A [`Pointed`], as a contract speaks of it.
pub struct PointedView {
    pub commit: Seq<char>,
    pub annotated: bool,
}

impl View for Pointed {
    type V = PointedView;

    open spec fn view(&self) -> PointedView {
        PointedView { commit: self.commit@, annotated: self.annotated }
    }
}

/// A question git answered in a shape its manual does not promise.
#[derive(Clone, PartialEq, Eq, Debug)]
pub struct Unreadable {
    /// What was asked.
    pub command: String,
    /// What was wrong with the answer.
    pub because: String,
}

/// An [`Unreadable`], as a contract speaks of it.
pub struct UnreadableView {
    pub command: Seq<char>,
    pub because: Seq<char>,
}

impl View for Unreadable {
    type V = UnreadableView;

    open spec fn view(&self) -> UnreadableView {
        UnreadableView { command: self.command@, because: self.because@ }
    }
}

// ---------------------------------------------------------------------------
// for-each-ref
// ---------------------------------------------------------------------------

/// The question: every ref, peeled, as `<type> <commit> <name>`.
pub const REFS_FORMAT: &'static str = "--format=%(objecttype) %(if)%(*objectname)%(then)%(*objectname)%(else)%(objectname)%(end) %(refname)";

/// One line of `for-each-ref`: the ref's name and where it points, or nothing
/// where the line is not three words.
pub open spec fn pointed_of(line: Seq<char>) -> Option<(Seq<char>, PointedView)> {
    let a = find_char(line, 0, ' ');
    if a >= line.len() {
        None
    } else {
        let b = find_char(line, a + 1, ' ');
        if b >= line.len() {
            None
        } else {
            Some(
                (
                    line.subrange(b + 1, line.len() as int),
                    PointedView {
                        commit: line.subrange(a + 1, b),
                        annotated: line.subrange(0, a) == seq!['t', 'a', 'g'],
                    },
                ),
            )
        }
    }
}

/// Every ref the lines name, a later line for a ref overruling an earlier one.
pub open spec fn refs_of(lines: Seq<Seq<char>>) -> Map<Seq<char>, PointedView>
    decreases lines.len(),
{
    if lines.len() == 0 {
        Map::empty()
    } else {
        let earlier = refs_of(lines.drop_last());
        match pointed_of(lines.last()) {
            None => earlier,
            Some((name, pointed)) => earlier.insert(name, pointed),
        }
    }
}

/// Pairs of ref and where it points, as a contract speaks of them.
pub open spec fn pointed_view(s: Seq<(String, Pointed)>) -> Seq<(Seq<char>, PointedView)> {
    s.map_values(|p: (String, Pointed)| (p.0@, p.1@))
}

fn point(pairs: &mut Vec<(String, Pointed)>, name: String, pointed: Pointed)
    requires
        unique(pointed_view(old(pairs)@)),
    ensures
        unique(pointed_view(final(pairs)@)),
        as_map(pointed_view(final(pairs)@)) == as_map(pointed_view(old(pairs)@)).insert(
            name@,
            pointed@,
        ),
{
    let ghost was = pointed_view(pairs@);
    let ghost k = name@;
    let ghost v = pointed@;
    let mut at: usize = 0;
    while at < pairs.len()
        invariant
            at <= pairs@.len(),
            was == pointed_view(pairs@),
            pairs@ == old(pairs)@,
            unique(was),
            k == name@,
            v == pointed@,
            forall|i: int| 0 <= i < at ==> #[trigger] pointed_view(pairs@)[i].0 != k,
        decreases pairs@.len() - at,
    {
        if pairs[at].0 == name {
            assert(was[at as int].0 == k);
            let ghost before = pairs@;
            let ghost pair = (name, pointed);
            pairs.set(at, (name, pointed));
            proof {
                assert(pairs@ == before.update(at as int, pair));
                assert(pair.1@ == v);
                lemma_update(was, at as int, v);
                assert(pointed_view(pairs@) =~= was.update(at as int, (was[at as int].0, v)));
            }
            return;
        }
        at = at + 1;
    }
    let end = pairs.len();
    pairs.push((name, pointed));
    proof {
        lemma_insert(was, end as int, k, v);
        assert(pointed_view(pairs@) =~= was.insert(end as int, (k, v)));
    }
}

/// The first space at or after `from` in the span up to `end`.
fn space_in(chars: &Vec<char>, from: usize, end: usize) -> (at: usize)
    requires
        from <= end <= chars@.len(),
    ensures
        from <= at <= end,
        at - from == find_char(chars@.subrange(from as int, end as int), 0, ' '),
{
    let at = find_char_exec(chars, from, end, ' ');
    proof {
        crate::remembered::lemma_find_char_shift(chars@.subrange(0, end as int), from as int, from as int, ' ');
        assert(chars@.subrange(0, end as int).subrange(from as int, end as int) =~= chars@.subrange(from as int, end as int));
    }
    at
}

/// What `git for-each-ref` with [`REFS_FORMAT`] answered: every ref and the
/// commit it reaches, and whether it reached it through a tag object.
pub fn refs(out: &[u8]) -> (pointed: Vec<(String, Pointed)>)
    ensures
        unique(pointed_view(pointed@)),
        as_map(pointed_view(pointed@)) == refs_of(lines(lossy(out@))),
{
    let text = text_of(out);
    let chars = characters(text.as_str());
    let spans = line_spans(text.as_str(), &chars);
    let ghost all = lines(lossy(out@));
    let mut pointed: Vec<(String, Pointed)> = Vec::new();
    let mut at: usize = 0;
    proof {
        assert(as_map(pointed_view(pointed@)) =~= Map::<Seq<char>, PointedView>::empty());
    }
    while at < spans.len()
        invariant
            chars@ == text@,
            text@ == lossy(out@),
            all == lines(text@),
            at <= spans@.len(),
            spans@.len() == all.len(),
            forall|i: int| #![trigger spans@[i]] 0 <= i < spans@.len() ==> spans@[i].0 <= spans@[i].1
                <= text@.len() && text@.subrange(spans@[i].0 as int, spans@[i].1 as int) == all[i],
            unique(pointed_view(pointed@)),
            as_map(pointed_view(pointed@)) == refs_of(all.subrange(0, at as int)),
        decreases spans@.len() - at,
    {
        let (start, end) = spans[at];
        let ghost line = all[at as int];
        proof {
            assert(all.subrange(0, at + 1).drop_last() =~= all.subrange(0, at as int));
            assert(all.subrange(0, at + 1).last() == line);
            assert(chars@.subrange(start as int, end as int) == line);
        }
        let a = space_in(&chars, start, end);
        if a < end {
            let b = space_in(&chars, a + 1, end);
            proof {
                let l = line;
                let x = a - start;
                crate::remembered::lemma_find_char_shift(l, x + 1, x + 1, ' ');
                assert(l.subrange(x + 1, l.len() as int) =~= chars@.subrange(a + 1, end as int));
            }
            if b < end {
                let kind_is_tag = a - start == 3 && chars[start] == 't' && chars[start + 1] == 'a'
                    && chars[start + 2] == 'g';
                proof {
                    let kind = line.subrange(0, a - start);
                    if kind_is_tag {
                        assert(kind =~= seq!['t', 'a', 'g']);
                    } else if kind.len() == 3 {
                        assert(kind[0] == chars@[start as int]);
                        assert(kind[1] == chars@[start + 1]);
                        assert(kind[2] == chars@[start + 2]);
                    }
                    assert(line.subrange(a - start + 1, b - start) =~= text@.subrange(a + 1, b as int));
                    assert(line.subrange(b - start + 1, line.len() as int) =~= text@.subrange(b + 1, end as int));
                }
                let name = text.as_str().substring_char(b + 1, end).to_owned();
                let commit = text.as_str().substring_char(a + 1, b).to_owned();
                point(&mut pointed, name, Pointed { commit, annotated: kind_is_tag });
            }
        }
        at = at + 1;
    }
    proof {
        assert(all.subrange(0, spans@.len() as int) =~= all);
    }
    pointed
}


// ---------------------------------------------------------------------------
// cat-file --batch-check
// ---------------------------------------------------------------------------

/// One line of `cat-file --batch-check`: the object, where it is a commit.
pub open spec fn held_of(line: Seq<char>) -> Option<Seq<char>> {
    let a = find_char(line, 0, ' ');
    if a >= line.len() {
        None
    } else {
        let b = find_char(line, a + 1, ' ');
        if line.subrange(a + 1, b) == seq!['c', 'o', 'm', 'm', 'i', 't'] {
            Some(line.subrange(0, a))
        } else {
            None
        }
    }
}

/// The commits the lines say the repository holds, in the order they say it.
pub open spec fn holding_of(lines: Seq<Seq<char>>) -> Seq<Seq<char>>
    decreases lines.len(),
{
    if lines.len() == 0 {
        Seq::empty()
    } else {
        let earlier = holding_of(lines.drop_last());
        match held_of(lines.last()) {
            None => earlier,
            Some(oid) => earlier.push(oid),
        }
    }
}

/// The question: the object IDs to ask about, a line each.
pub fn holding_question(oids: &[String]) -> (asked: String)
    ensures
        asked@ == oids@.fold_left(Seq::<char>::empty(), |acc: Seq<char>, oid: String| acc + oid@ + seq!['\n']),
{
    let mut asked = String::new();
    let mut at: usize = 0;
    while at < oids.len()
        invariant
            at <= oids@.len(),
            asked@ == oids@.subrange(0, at as int).fold_left(
                Seq::<char>::empty(),
                |acc: Seq<char>, oid: String| acc + oid@ + seq!['\n'],
            ),
        decreases oids@.len() - at,
    {
        asked.append(oids[at].as_str());
        asked.append("\n");
        proof {
            reveal_strlit("\n");
            assert(oids@.subrange(0, at + 1).drop_last() =~= oids@.subrange(0, at as int));
        }
        at = at + 1;
    }
    proof {
        assert(oids@.subrange(0, oids@.len() as int) =~= oids@);
    }
    asked
}

/// What `git cat-file --batch-check` answered: which of the object IDs asked
/// about are commits the repository actually holds.
///
/// A remembered correspondence can outlive the objects it names — a
/// repository is a thing people run `gc` in — so a conversion checks before it
/// names a commit it did not send.
pub fn holding(out: &[u8]) -> (held: Vec<String>)
    ensures
        held@.map_values(|oid: String| oid@) == holding_of(lines(lossy(out@))),
{
    let text = text_of(out);
    let chars = characters(text.as_str());
    let spans = line_spans(text.as_str(), &chars);
    let ghost all = lines(lossy(out@));
    let mut held: Vec<String> = Vec::new();
    let mut at: usize = 0;
    proof {
        assert(held@.map_values(|oid: String| oid@) =~= Seq::<Seq<char>>::empty());
    }
    while at < spans.len()
        invariant
            chars@ == text@,
            text@ == lossy(out@),
            all == lines(text@),
            at <= spans@.len(),
            spans@.len() == all.len(),
            forall|i: int| #![trigger spans@[i]] 0 <= i < spans@.len() ==> spans@[i].0 <= spans@[i].1
                <= text@.len() && text@.subrange(spans@[i].0 as int, spans@[i].1 as int) == all[i],
            held@.map_values(|oid: String| oid@) == holding_of(all.subrange(0, at as int)),
        decreases spans@.len() - at,
    {
        let (start, end) = spans[at];
        let ghost line = all[at as int];
        proof {
            assert(all.subrange(0, at + 1).drop_last() =~= all.subrange(0, at as int));
            assert(all.subrange(0, at + 1).last() == line);
            assert(chars@.subrange(start as int, end as int) == line);
        }
        let a = space_in(&chars, start, end);
        if a < end {
            let b = space_in(&chars, a + 1, end);
            proof {
                let l = line;
                let x = a - start;
                crate::remembered::lemma_find_char_shift(l, x + 1, x + 1, ' ');
                assert(l.subrange(x + 1, l.len() as int) =~= chars@.subrange(a + 1, end as int));
            }
            let is_commit = b - a == 7 && chars[a + 1] == 'c' && chars[a + 2] == 'o' && chars[a + 3]
                == 'm' && chars[a + 4] == 'm' && chars[a + 5] == 'i' && chars[a + 6] == 't';
            proof {
                let kind = line.subrange(a - start + 1, b - start);
                assert(kind =~= chars@.subrange(a + 1, b as int));
                if is_commit {
                    assert(kind =~= seq!['c', 'o', 'm', 'm', 'i', 't']);
                } else if kind.len() == 6 {
                    assert(kind[0] == chars@[a + 1]);
                    assert(kind[1] == chars@[a + 2]);
                    assert(kind[2] == chars@[a + 3]);
                    assert(kind[3] == chars@[a + 4]);
                    assert(kind[4] == chars@[a + 5]);
                    assert(kind[5] == chars@[a + 6]);
                }
                assert(line.subrange(0, a - start) =~= text@.subrange(start as int, a as int));
            }
            if is_commit {
                let ghost before = held@.map_values(|oid: String| oid@);
                let oid = text.as_str().substring_char(start, a).to_owned();
                held.push(oid);
                proof {
                    assert(held@.map_values(|oid: String| oid@) =~= before.push(oid@));
                }
            }
        }
        at = at + 1;
    }
    proof {
        assert(all.subrange(0, spans@.len() as int) =~= all);
    }
    held
}

// ---------------------------------------------------------------------------
// Words, trimming, and the smaller answers
// ---------------------------------------------------------------------------

/// The index of the first white space at or after `from`, or the length.
pub open spec fn white_from(text: Seq<char>, from: int) -> int
    decreases text.len() - from,
{
    if from >= text.len() {
        text.len() as int
    } else if white(text[from]) {
        from
    } else {
        white_from(text, from + 1)
    }
}

pub proof fn lemma_white_from(text: Seq<char>, from: int)
    requires
        0 <= from <= text.len(),
    ensures
        from <= white_from(text, from) <= text.len(),
        white_from(text, from) < text.len() ==> white(text[white_from(text, from)]),
        forall|i: int| from <= i < white_from(text, from) ==> !white(#[trigger] text[i]),
    decreases text.len() - from,
{
    if from < text.len() && !white(text[from]) {
        lemma_white_from(text, from + 1);
    }
}

/// The words of a text, as `str::split_whitespace` gives them.
pub open spec fn words(text: Seq<char>) -> Seq<Seq<char>>
    decreases text.len(),
{
    if text.len() == 0 {
        Seq::empty()
    } else if white(text[0]) {
        words(text.drop_first())
    } else {
        let end = white_from(text, 0);
        proof {
            lemma_white_from(text, 0);
        }
        seq![text.subrange(0, end)] + words(text.subrange(end, text.len() as int))
    }
}

/// The parents a `rev-list --parents -n 1` line states: every word after the
/// first, which is the commit itself.
pub open spec fn parents_in(text: Seq<char>) -> Seq<Seq<char>> {
    if words(text).len() == 0 {
        Seq::empty()
    } else {
        words(text).drop_first()
    }
}

/// What `git rev-list --parents -n 1` answered: the parents of a commit, in
/// the order git states them.
pub fn parents_of(out: &[u8]) -> (parents: Vec<String>)
    ensures
        parents@.map_values(|oid: String| oid@) == parents_in(lossy(out@)),
{
    let text = text_of(out);
    let chars = characters(text.as_str());
    let len = chars.len();
    let mut found: Vec<String> = Vec::new();
    let mut at: usize = 0;
    proof {
        assert(text@.subrange(0, len as int) =~= text@);
        assert(found@.map_values(|oid: String| oid@) + words(text@) =~= words(text@));
    }
    while at < len
        invariant
            chars@ == text@,
            len == text@.len(),
            at <= len,
            words(text@) == found@.map_values(|oid: String| oid@) + words(
                text@.subrange(at as int, len as int),
            ),
        decreases len - at,
    {
        let ghost rest = text@.subrange(at as int, len as int);
        if is_white(chars[at]) {
            proof {
                assert(rest.drop_first() =~= text@.subrange(at + 1, len as int));
            }
            at = at + 1;
        } else {
            let mut end = at;
            while end < len && !is_white(chars[end])
                invariant
                    at <= end <= len,
                    len == chars@.len(),
                    forall|i: int| at <= i < end ==> !white(#[trigger] chars@[i]),
                decreases len - end,
            {
                end = end + 1;
            }
            proof {
                lemma_white_from(rest, 0);
                assert(white_from(rest, 0) == end - at) by {
                    lemma_white_from_at(rest, 0, end - at);
                }
                assert(rest.subrange(0, end - at) =~= text@.subrange(at as int, end as int));
                assert(rest.subrange(end - at, rest.len() as int) =~= text@.subrange(end as int, len as int));
            }
            let ghost before = found@.map_values(|oid: String| oid@);
            let word = text.as_str().substring_char(at, end).to_owned();
            found.push(word);
            proof {
                assert(found@.map_values(|oid: String| oid@) =~= before.push(word@));
            }
            at = end;
        }
    }
    proof {
        assert(text@.subrange(len as int, len as int) =~= Seq::<char>::empty());
        assert(found@.map_values(|oid: String| oid@) + Seq::<Seq<char>>::empty() =~= found@.map_values(|oid: String| oid@));
    }
    if found.len() == 0 {
        found
    } else {
        let ghost all = found@.map_values(|oid: String| oid@);
        let first = found.remove(0);
        proof {
            assert(found@.map_values(|oid: String| oid@) =~= all.drop_first());
        }
        found
    }
}

proof fn lemma_white_from_at(text: Seq<char>, from: int, at: int)
    requires
        0 <= from <= at <= text.len(),
        forall|i: int| from <= i < at ==> !white(#[trigger] text[i]),
        at == text.len() || white(text[at]),
    ensures
        white_from(text, from) == at,
    decreases at - from,
{
    if from < at {
        lemma_white_from_at(text, from + 1, at);
    }
}


/// The text without the white space it begins with.
pub open spec fn strip_start(text: Seq<char>) -> Seq<char>
    decreases text.len(),
{
    if text.len() > 0 && white(text[0]) {
        strip_start(text.drop_first())
    } else {
        text
    }
}

/// The text without the white space it ends with.
pub open spec fn strip_end(text: Seq<char>) -> Seq<char>
    decreases text.len(),
{
    if text.len() > 0 && white(text.last()) {
        strip_end(text.drop_last())
    } else {
        text
    }
}

/// The text as `str::trim` leaves it.
pub open spec fn trimmed_text(text: Seq<char>) -> Seq<char> {
    strip_end(strip_start(text))
}

/// Where the text `str::trim` leaves starts and ends.
fn trim_span(chars: &Vec<char>) -> (span: (usize, usize))
    ensures
        span.0 <= span.1 <= chars@.len(),
        chars@.subrange(span.0 as int, span.1 as int) == trimmed_text(chars@),
{
    let len = chars.len();
    let mut head: usize = 0;
    proof {
        assert(chars@.subrange(0, len as int) =~= chars@);
    }
    while head < len && is_white(chars[head])
        invariant
            head <= len == chars@.len(),
            strip_start(chars@) == strip_start(chars@.subrange(head as int, len as int)),
        decreases len - head,
    {
        proof {
            assert(chars@.subrange(head as int, len as int).drop_first() =~= chars@.subrange(head + 1, len as int));
        }
        head = head + 1;
    }
    let mut tail = len;
    proof {
        assert(strip_start(chars@.subrange(head as int, len as int)) == chars@.subrange(head as int, len as int));
    }
    while tail > head && is_white(chars[tail - 1])
        invariant
            head <= tail <= len == chars@.len(),
            trimmed_text(chars@) == strip_end(chars@.subrange(head as int, tail as int)),
        decreases tail,
    {
        proof {
            assert(chars@.subrange(head as int, tail as int).drop_last() =~= chars@.subrange(head as int, tail - 1));
        }
        tail = tail - 1;
    }
    (head, tail)
}

/// The object ID that names nothing, `width` zeros wide.
pub open spec fn zeros(width: nat) -> Seq<char> {
    Seq::new(width, |i: int| '0')
}

/// What `git rev-parse --show-object-format` answered, as the object ID that
/// names nothing at the width this repository spells one — forty zeros under
/// SHA-1, sixty-four under SHA-256.
pub fn null_oid(out: &[u8]) -> (oid: String)
    ensures
        oid@ == zeros(
            if trimmed_text(lossy(out@)) == seq!['s', 'h', 'a', '2', '5', '6'] {
                64
            } else {
                40
            },
        ),
{
    let text = text_of(out);
    let chars = characters(text.as_str());
    let (head, tail) = trim_span(&chars);
    let sha256 = tail - head == 6 && chars[head] == 's' && chars[head + 1] == 'h' && chars[head + 2]
        == 'a' && chars[head + 3] == '2' && chars[head + 4] == '5' && chars[head + 5] == '6';
    proof {
        let t = chars@.subrange(head as int, tail as int);
        if sha256 {
            assert(t =~= seq!['s', 'h', 'a', '2', '5', '6']);
        } else if t.len() == 6 {
            assert(t[0] == chars@[head as int]);
            assert(t[1] == chars@[head + 1]);
            assert(t[2] == chars@[head + 2]);
            assert(t[3] == chars@[head + 3]);
            assert(t[4] == chars@[head + 4]);
            assert(t[5] == chars@[head + 5]);
        }
    }
    let width: usize = if sha256 {
        64
    } else {
        40
    };
    let mut oid = String::new();
    let mut at: usize = 0;
    while at < width
        invariant
            at <= width,
            oid@ == zeros(at as nat),
        decreases width - at,
    {
        oid.append("0");
        proof {
            reveal_strlit("0");
            assert(oid@ =~= zeros((at + 1) as nat));
        }
        at = at + 1;
    }
    oid
}

/// A byte `u8::is_ascii_whitespace` counts: tab, line feed, form feed,
/// carriage return, space.
pub open spec fn ascii_blank(byte: u8) -> bool {
    byte == 0x09 || byte == 0x0a || byte == 0x0c || byte == 0x0d || byte == 0x20
}

/// What `git status --porcelain --untracked-files=no` answered, as whether
/// the index and the working tree agree with HEAD. Untracked files are not
/// asked about: they are somebody's and `reset --hard` leaves them.
pub fn is_clean(out: &[u8]) -> (clean: bool)
    ensures
        clean == forall|i: int| 0 <= i < out@.len() ==> ascii_blank(#[trigger] out@[i]),
{
    let mut at: usize = 0;
    while at < out.len()
        invariant
            at <= out@.len(),
            forall|i: int| 0 <= i < at ==> ascii_blank(#[trigger] out@[i]),
        decreases out@.len() - at,
    {
        let byte = out[at];
        if !(byte == 0x09 || byte == 0x0a || byte == 0x0c || byte == 0x0d || byte == 0x20) {
            return false;
        }
        at = at + 1;
    }
    true
}

/// What `git rev-parse --absolute-git-dir` answered: the directory git keeps
/// its own files in, or why the answer names none.
pub fn git_dir(out: &[u8]) -> (dir: Result<String, Unreadable>)
    ensures
        match dir {
            Ok(d) => d@ == trimmed_text(lossy(out@)) && d@.len() > 0,
            Err(e) => trimmed_text(lossy(out@)).len() == 0 && e@ == (UnreadableView {
                command: "rev-parse --absolute-git-dir"@,
                because: "git named no directory"@,
            }),
        },
{
    let text = text_of(out);
    let chars = characters(text.as_str());
    let (head, tail) = trim_span(&chars);
    if head == tail {
        return Err(
            Unreadable {
                command: String::from_str("rev-parse --absolute-git-dir"),
                because: String::from_str("git named no directory"),
            },
        );
    }
    Ok(text.as_str().substring_char(head, tail).to_owned())
}

/// The line that keeps the store directory out of git.
pub const EXCLUDED: &'static str = "/history/";

/// Whether a file's lines already keep the store out of git.
pub open spec fn excludes(contents: Seq<char>) -> bool {
    exists|i: int| 0 <= i < lines(contents).len() && trimmed_text(#[trigger] lines(contents)[i])
        == seq!['/', 'h', 'i', 's', 't', 'o', 'r', 'y', '/']
}

/// The exclusions a repository keeps locally, with the store directory added
/// once: nothing to write where a line already says it, and otherwise the
/// file with the line after whatever was there, on a line of its own.
pub fn exclude_history(contents: &str) -> (written: Option<String>)
    ensures
        match written {
            None => excludes(contents@),
            Some(w) => !excludes(contents@) && w@ == contents@ + (if contents@.len() > 0
                && contents@.last() != '\n' {
                seq!['\n']
            } else {
                Seq::empty()
            }) + seq!['/', 'h', 'i', 's', 't', 'o', 'r', 'y', '/', '\n'],
        },
{
    let chars = characters(contents);
    let spans = line_spans(contents, &chars);
    let ghost all = lines(contents@);
    let mut at: usize = 0;
    while at < spans.len()
        invariant
            chars@ == contents@,
            all == lines(contents@),
            at <= spans@.len(),
            spans@.len() == all.len(),
            forall|i: int| #![trigger spans@[i]] 0 <= i < spans@.len() ==> spans@[i].0 <= spans@[i].1
                <= contents@.len() && contents@.subrange(spans@[i].0 as int, spans@[i].1 as int) == all[i],
            forall|i: int| 0 <= i < at ==> trimmed_text(#[trigger] all[i]) != seq![
                '/',
                'h',
                'i',
                's',
                't',
                'o',
                'r',
                'y',
                '/',
            ],
        decreases spans@.len() - at,
    {
        let (start, end) = spans[at];
        let mut line: Vec<char> = Vec::new();
        let mut k = start;
        while k < end
            invariant
                start <= k <= end <= chars@.len(),
                line@ == chars@.subrange(start as int, k as int),
            decreases end - k,
        {
            line.push(chars[k]);
            proof {
                assert(line@ =~= chars@.subrange(start as int, k + 1));
            }
            k = k + 1;
        }
        let (head, tail) = trim_span(&line);
        let named = tail - head == 9 && line[head] == '/' && line[head + 1] == 'h' && line[head + 2]
            == 'i' && line[head + 3] == 's' && line[head + 4] == 't' && line[head + 5] == 'o'
            && line[head + 6] == 'r' && line[head + 7] == 'y' && line[head + 8] == '/';
        proof {
            let t = line@.subrange(head as int, tail as int);
            if named {
                assert(t =~= seq!['/', 'h', 'i', 's', 't', 'o', 'r', 'y', '/']);
            } else if t.len() == 9 {
                assert(t[0] == line@[head as int]);
                assert(t[1] == line@[head + 1]);
                assert(t[2] == line@[head + 2]);
                assert(t[3] == line@[head + 3]);
                assert(t[4] == line@[head + 4]);
                assert(t[5] == line@[head + 5]);
                assert(t[6] == line@[head + 6]);
                assert(t[7] == line@[head + 7]);
                assert(t[8] == line@[head + 8]);
            }
        }
        if named {
            return None;
        }
        at = at + 1;
    }
    let mut written = String::from_str(contents);
    let len = chars.len();
    if len > 0 && chars[len - 1] != '\n' {
        written.append("\n");
    }
    written.append("/history/\n");
    proof {
        reveal_strlit("\n");
        reveal_strlit("/history/\n");
    }
    Some(written)
}


// ---------------------------------------------------------------------------
// The tree at a commit, read from git
// ---------------------------------------------------------------------------

/// The pieces of `out` between each `byte` and the next.
pub open spec fn pieces(out: Seq<u8>, byte: u8) -> Seq<Seq<u8>>
    decreases out.len(),
{
    let at = find_from(out, 0, byte);
    if at < out.len() {
        proof {
            find_from_facts(out, 0, byte);
        }
        seq![out.subrange(0, at)] + pieces(out.subrange(at + 1, out.len() as int), byte)
    } else {
        seq![out]
    }
}

/// The word `ls-tree` writes for a mode, as a mode.
pub open spec fn listed_mode(word: Seq<char>) -> Option<Mode> {
    if word == seq!['1', '0', '0', '6', '4', '4'] {
        Some(Mode::File)
    } else if word == seq!['1', '0', '0', '7', '5', '5'] {
        Some(Mode::Executable)
    } else if word == seq!['1', '2', '0', '0', '0', '0'] {
        Some(Mode::Symlink)
    } else if word == seq!['1', '6', '0', '0', '0', '0'] {
        Some(Mode::Gitlink)
    } else {
        None
    }
}

/// What git said wrong with an entry: `mode ` and the mode ` at a file`.
pub open spec fn bad_mode(word: Seq<char>) -> Seq<char> {
    "mode `"@ + word + "` at a file"@
}

/// One `ls-tree -r -z` record: mode, object, and path, or what was wrong.
pub open spec fn entry_of(record: Seq<u8>) -> Result<(Mode, Seq<char>, Seq<u8>), Seq<char>> {
    let tab = find_from(record, 0, 0x09);
    if tab >= record.len() {
        Err("an entry had no path"@)
    } else {
        let head = lossy(record.subrange(0, tab));
        let path = record.subrange(tab + 1, record.len() as int);
        let a = find_char(head, 0, ' ');
        let b = find_char(head, a + 1, ' ');
        if a >= head.len() || b >= head.len() {
            Err("an entry was not mode, type, object"@)
        } else {
            let object = head.subrange(b + 1, find_char(head, b + 1, ' '));
            let word = head.subrange(0, a);
            match listed_mode(word) {
                Some(mode) => Ok((mode, object, path)),
                None => Err(bad_mode(word)),
            }
        }
    }
}

/// Every entry `ls-tree -r -z` listed, in order, or the first that was not
/// one.
pub open spec fn entries_of(records: Seq<Seq<u8>>) -> Result<Seq<(Mode, Seq<char>, Seq<u8>)>, Seq<char>>
    decreases records.len(),
{
    if records.len() == 0 {
        Ok(Seq::empty())
    } else {
        match entries_of(records.drop_last()) {
            Err(why) => Err(why),
            Ok(earlier) => if records.last().len() == 0 {
                Ok(earlier)
            } else {
                match entry_of(records.last()) {
                    Err(why) => Err(why),
                    Ok(entry) => Ok(earlier.push(entry)),
                }
            },
        }
    }
}


/// Whether the characters from `start` to `end` are `word`'s.
pub(crate) fn chars_are(chars: &Vec<char>, start: usize, end: usize, word: &str) -> (equal: bool)
    requires
        start <= end <= chars@.len(),
    ensures
        equal == (chars@.subrange(start as int, end as int) == word@),
{
    let expected = characters(word);
    if end - start != expected.len() {
        return false;
    }
    let mut at: usize = 0;
    while at < expected.len()
        invariant
            start <= end <= chars@.len(),
            end - start == expected@.len(),
            expected@ == word@,
            at <= expected@.len(),
            forall|i: int| 0 <= i < at ==> chars@[start + i] == expected@[i],
        decreases expected@.len() - at,
    {
        if chars[start + at] != expected[at] {
            proof {
                assert(chars@.subrange(start as int, end as int)[at as int] != word@[at as int]);
            }
            return false;
        }
        at = at + 1;
    }
    proof {
        assert(chars@.subrange(start as int, end as int) =~= word@);
    }
    true
}

/// One `ls-tree -r -z` record, read.
fn entry(record: &[u8]) -> (r: Result<(Mode, String, Vec<u8>), String>)
    ensures
        match r {
            Ok((mode, object, path)) => entry_of(record@) == Ok::<(Mode, Seq<char>, Seq<u8>), Seq<char>>(
                (mode, object@, path@),
            ),
            Err(why) => entry_of(record@) == Err::<(Mode, Seq<char>, Seq<u8>), Seq<char>>(why@),
        },
{
    proof {
        reveal_strlit("100644");
        reveal_strlit("100755");
        reveal_strlit("120000");
        reveal_strlit("160000");
        assert("100644"@ =~= seq!['1', '0', '0', '6', '4', '4']);
        assert("100755"@ =~= seq!['1', '0', '0', '7', '5', '5']);
        assert("120000"@ =~= seq!['1', '2', '0', '0', '0', '0']);
        assert("160000"@ =~= seq!['1', '6', '0', '0', '0', '0']);
    }
    let tab = crate::stream::text::find(record, 0, 0x09);
    if tab >= record.len() {
        return Err(String::from_str("an entry had no path"));
    }
    let head_bytes = crate::stream::text::slice(record, 0, tab);
    let head = text_of(&head_bytes);
    let chars = characters(head.as_str());
    let n = chars.len();
    let a = space_in(&chars, 0, n);
    proof {
        assert(chars@.subrange(0, n as int) =~= chars@);
    }
    if a >= n {
        return Err(String::from_str("an entry was not mode, type, object"));
    }
    let b = space_in(&chars, a + 1, n);
    proof {
        crate::remembered::lemma_find_char_shift(chars@, a + 1, a + 1, ' ');
    }
    if b >= n {
        return Err(String::from_str("an entry was not mode, type, object"));
    }
    let c = space_in(&chars, b + 1, n);
    proof {
        crate::remembered::lemma_find_char_shift(chars@, b + 1, b + 1, ' ');
    }
    let object = head.as_str().substring_char(b + 1, c).to_owned();
    let path = crate::stream::text::slice(record, tab + 1, record.len());
    let mode = if chars_are(&chars, 0, a, "100644") {
        Mode::File
    } else if chars_are(&chars, 0, a, "100755") {
        Mode::Executable
    } else if chars_are(&chars, 0, a, "120000") {
        Mode::Symlink
    } else if chars_are(&chars, 0, a, "160000") {
        Mode::Gitlink
    } else {
        let mut why = String::from_str("mode `");
        why.append(head.as_str().substring_char(0, a));
        why.append("` at a file");
        proof {
            reveal_strlit("100644");
            reveal_strlit("100755");
            reveal_strlit("120000");
            reveal_strlit("160000");
        }
        return Err(why);
    };
    proof {
        reveal_strlit("100644");
        reveal_strlit("100755");
        reveal_strlit("120000");
        reveal_strlit("160000");
    }
    Ok((mode, object, path))
}

/// Entries, as a contract speaks of them.
pub open spec fn entries_view(s: Seq<(Mode, String, Vec<u8>)>) -> Seq<(Mode, Seq<char>, Seq<u8>)> {
    s.map_values(|e: (Mode, String, Vec<u8>)| (e.0, e.1@, e.2@))
}

/// What `git ls-tree -r -z <commit>` answered: every file at the commit, its
/// mode, object, and path — or why the answer is not one.
pub fn ls_tree(listed: &[u8]) -> (entries: Result<Vec<(Mode, String, Vec<u8>)>, String>)
    ensures
        match entries {
            Ok(e) => entries_of(pieces(listed@, 0)) == Ok::<Seq<(Mode, Seq<char>, Seq<u8>)>, Seq<char>>(
                entries_view(e@),
            ),
            Err(why) => entries_of(pieces(listed@, 0)) == Err::<Seq<(Mode, Seq<char>, Seq<u8>)>, Seq<char>>(why@),
        },
{
    let len = listed.len();
    let mut found: Vec<(Mode, String, Vec<u8>)> = Vec::new();
    let mut taken: Ghost<Seq<Seq<u8>>> = Ghost(Seq::empty());
    let mut at: usize = 0;
    proof {
        assert(listed@.subrange(0, len as int) =~= listed@);
        assert(taken@ + pieces(listed@, 0) =~= pieces(listed@, 0));
        assert(entries_view(found@) =~= Seq::<(Mode, Seq<char>, Seq<u8>)>::empty());
    }
    loop
        invariant_except_break
            at <= len == listed@.len(),
            pieces(listed@, 0) == taken@ + pieces(listed@.subrange(at as int, len as int), 0),
            entries_of(taken@) == Ok::<Seq<(Mode, Seq<char>, Seq<u8>)>, Seq<char>>(entries_view(found@)),
        ensures
            pieces(listed@, 0) == taken@,
            entries_of(taken@) == Ok::<Seq<(Mode, Seq<char>, Seq<u8>)>, Seq<char>>(entries_view(found@)),
        decreases len - at,
    {
        let z = crate::stream::text::find(listed, at, 0);
        let ghost rest = listed@.subrange(at as int, len as int);
        proof {
            find_from_facts(listed@, at as int, 0);
            lemma_find_from_shift(listed@, at as int, at as int, 0);
            assert(rest.subrange(0, z - at) =~= listed@.subrange(at as int, z as int));
            if z < len {
                assert(rest.subrange(z - at + 1, rest.len() as int) =~= listed@.subrange(z + 1, len as int));
            }
        }
        let record = crate::stream::text::slice(listed, at, z);
        proof {
            assert((taken@.push(record@)).drop_last() =~= taken@);
        }
        if record.len() > 0 {
            match entry(&record) {
                Ok(e) => {
                    let ghost before = entries_view(found@);
                    found.push(e);
                    proof {
                        assert(entries_view(found@) =~= before.push((e.0, e.1@, e.2@)));
                    }
                },
                Err(why) => {
                    proof {
                        let all = pieces(listed@, 0);
                        assert(all.subrange(0, taken@.len() + 1int) =~= taken@.push(record@));
                        lemma_entries_stop(all, taken@.len() + 1int);
                    }
                    return Err(why);
                },
            }
        }
        proof {
            taken@ = taken@.push(record@);
        }
        if z < len {
            at = z + 1;
        } else {
            proof {
                assert(rest.subrange(0, z - at) =~= rest);
                assert(pieces(rest, 0) == seq![record@]);
                assert(taken@ =~= pieces(listed@, 0));
            }
            break;
        }
    }
    Ok(found)
}

proof fn lemma_find_from_shift(text: Seq<u8>, at: int, from: int, byte: u8)
    requires
        0 <= at <= from <= text.len(),
    ensures
        find_from(text.subrange(at, text.len() as int), from - at, byte) == find_from(text, from, byte)
            - at,
    decreases text.len() - from,
{
    if from < text.len() && text[from] != byte {
        lemma_find_from_shift(text, at, from + 1, byte);
    }
}

proof fn lemma_entries_stop(records: Seq<Seq<u8>>, n: int)
    requires
        0 <= n <= records.len(),
        entries_of(records.subrange(0, n)) is Err,
    ensures
        entries_of(records) == entries_of(records.subrange(0, n)),
    decreases records.len() - n,
{
    if n < records.len() {
        assert(records.subrange(0, n + 1).drop_last() =~= records.subrange(0, n));
        lemma_entries_stop(records, n + 1);
    } else {
        assert(records.subrange(0, n) =~= records);
    }
}


/// A `cat-file --batch` header: the object and the size git states for it, or
/// what was wrong with the header.
pub open spec fn header_of(header: Seq<char>) -> Result<(Seq<char>, nat), Seq<char>> {
    let a = find_char(header, 0, ' ');
    if a >= header.len() {
        Err("a header was not what it says"@)
    } else {
        let object = header.subrange(0, a);
        let b = find_char(header, a + 1, ' ');
        if header.subrange(a + 1, b) == seq!['m', 'i', 's', 's', 'i', 'n', 'g'] {
            Err("blob "@ + object + " is not in the repository"@)
        } else if b >= header.len() {
            Err("a header stated no size"@)
        } else {
            let size_text = header.subrange(b + 1, find_char(header, b + 1, ' '));
            match parse_unsigned(encode_utf8(size_text)) {
                None => Err("a header stated no size"@),
                Some(size) => if size > usize::MAX {
                    Err("a header stated no size"@)
                } else {
                    Ok((object, size))
                },
            }
        }
    }
}

/// One answer of `cat-file --batch` at `at`: nothing where the output has
/// ended, the object, its bytes, and where its bytes end, or what was wrong
/// with the answer.
#[verifier::opaque]
pub open spec fn batch_step(out: Seq<u8>, at: int) -> Option<Result<(Seq<char>, Seq<u8>, int), Seq<char>>> {
    if at < 0 || at >= out.len() {
        None
    } else {
        let nl = find_from(out, at, 0x0a);
        if nl >= out.len() {
            None
        } else {
            let next = nl + 1;
            match header_of(lossy(out.subrange(at, nl))) {
                Err(why) => Some(Err(why)),
                Ok((object, size)) => if next + size > out.len() {
                    Some(Err("the output ended early"@))
                } else {
                    Some(Ok((object, out.subrange(next, next + size), next + size)))
                },
            }
        }
    }
}

pub proof fn lemma_batch_step(out: Seq<u8>, at: int)
    ensures
        batch_step(out, at) matches Some(Ok((_, _, end))) ==> at < end + 1 <= out.len() + 1,
{
    reveal(batch_step);
    if 0 <= at < out.len() {
        find_from_facts(out, at, 0x0a);
    }
}

/// What `cat-file --batch` answered from `at` on: each object and its bytes,
/// in the order asked, or what was wrong with the answer.
pub open spec fn batch_from(out: Seq<u8>, at: int) -> Result<Seq<(Seq<char>, Seq<u8>)>, Seq<char>>
    decreases out.len() - at,
{
    match batch_step(out, at) {
        None => Ok(Seq::empty()),
        Some(Err(why)) => Err(why),
        Some(Ok((object, bytes, end))) => {
            let rest = if end + 1 < out.len() {
                proof {
                    lemma_batch_step(out, at);
                }
                batch_from(out, end + 1)
            } else {
                Ok(Seq::empty())
            };
            match rest {
                Err(why) => Err(why),
                Ok(rest) => Ok(seq![(object, bytes)] + rest),
            }
        },
    }
}

/// The objects answered, each to its bytes, a later answer for one object
/// overruling an earlier.
pub open spec fn blob_map(answered: Seq<(Seq<char>, Seq<u8>)>) -> Map<Seq<char>, Seq<u8>>
    decreases answered.len(),
{
    if answered.len() == 0 {
        Map::empty()
    } else {
        blob_map(answered.drop_last()).insert(answered.last().0, answered.last().1)
    }
}

/// The tree the entries make, each file's bytes from the answers.
pub open spec fn assemble(
    entries: Seq<(Mode, Seq<char>, Seq<u8>)>,
    blobs: Map<Seq<char>, Seq<u8>>,
) -> Result<TreeMap, Seq<char>>
    decreases entries.len(),
{
    if entries.len() == 0 {
        Ok(Map::empty())
    } else {
        match assemble(entries.drop_last(), blobs) {
            Err(why) => Err(why),
            Ok(tree) => {
                let (mode, object, path) = entries.last();
                if mode == Mode::Gitlink {
                    Ok(tree.insert(path, EntryView { mode, content: HeldView::Submodule(object) }))
                } else if blobs.contains_key(object) {
                    Ok(tree.insert(path, EntryView { mode, content: HeldView::Bytes(blobs[object]) }))
                } else {
                    Err("blob "@ + object + " was not answered"@)
                }
            },
        }
    }
}

/// The tree at a commit, as git's two answers state it, or what was wrong
/// with them.
pub open spec fn tree_from(listed: Seq<u8>, answered: Seq<u8>) -> Result<TreeMap, UnreadableView> {
    match entries_of(pieces(listed, 0)) {
        Err(because) => Err(UnreadableView { command: "ls-tree"@, because }),
        Ok(entries) => match batch_from(answered, 0) {
            Err(because) => Err(UnreadableView { command: "cat-file --batch"@, because }),
            Ok(blobs) => match assemble(entries, blob_map(blobs)) {
                Err(because) => Err(UnreadableView { command: "cat-file --batch"@, because }),
                Ok(tree) => Ok(tree),
            },
        },
    }
}

/// What `usize::from_str` makes of some bytes: an optional `+`, then digits.
fn count_of(bytes: &[u8]) -> (count: Option<usize>)
    ensures
        match parse_unsigned(bytes@) {
            Some(n) => if n <= usize::MAX {
                count == Some(n as usize)
            } else {
                count is None
            },
            None => count is None,
        },
{
    let start: usize = if bytes.len() > 0 && bytes[0] == 0x2b {
        1
    } else {
        0
    };
    proof {
        if start == 1 {
            assert(bytes@.subrange(1, bytes@.len() as int) =~= bytes@.drop_first());
        } else {
            assert(bytes@.subrange(0, bytes@.len() as int) =~= bytes@);
        }
    }
    match crate::stream::text::read_digits(bytes, start, bytes.len()) {
        Some(n) => if n as u128 <= usize::MAX as u128 {
            Some(n as usize)
        } else {
            None
        },
        None => None,
    }
}

/// The answers of `cat-file --batch`, as a contract speaks of them.
pub open spec fn answers_view(s: Seq<(String, Vec<u8>)>) -> Seq<(Seq<char>, Seq<u8>)> {
    s.map_values(|p: (String, Vec<u8>)| (p.0@, p.1@))
}

/// A `cat-file --batch` header, read.
fn header(line: &String) -> (r: Result<(String, usize), String>)
    ensures
        match r {
            Ok((object, size)) => header_of(line@) == Ok::<(Seq<char>, nat), Seq<char>>((object@, size as nat)),
            Err(why) => header_of(line@) == Err::<(Seq<char>, nat), Seq<char>>(why@),
        },
{
    let header = line;
    let chars = characters(header.as_str());
    let n = chars.len();
    proof {
        assert(chars@.subrange(0, n as int) =~= chars@);
    }
    let a = space_in(&chars, 0, n);
    if a >= n {
        return Err(String::from_str("a header was not what it says"));
    }
    let b = space_in(&chars, a + 1, n);
    proof {
        crate::remembered::lemma_find_char_shift(chars@, a + 1, a + 1, ' ');
        reveal_strlit("missing");
        assert("missing"@ =~= seq!['m', 'i', 's', 's', 'i', 'n', 'g']);
    }
    let object = header.as_str().substring_char(0, a).to_owned();
    if chars_are(&chars, a + 1, b, "missing") {
        let mut why = String::from_str("blob ");
        why.append(object.as_str());
        why.append(" is not in the repository");
        return Err(why);
    }
    if b >= n {
        return Err(String::from_str("a header stated no size"));
    }
    let c = space_in(&chars, b + 1, n);
    proof {
        crate::remembered::lemma_find_char_shift(chars@, b + 1, b + 1, ' ');
    }
    let size_text = header.as_str().substring_char(b + 1, c).to_owned();
    match count_of(size_text.as_str().as_bytes()) {
        Some(size) => Ok((object, size)),
        None => Err(String::from_str("a header stated no size")),
    }
}

/// One answer of `cat-file --batch` at `at`.
fn step(out: &[u8], at: usize) -> (r: Option<Result<(String, Vec<u8>, usize), String>>)
    ensures
        match r {
            None => batch_step(out@, at as int) is None,
            Some(Err(why)) => batch_step(out@, at as int) == Some(Err::<(Seq<char>, Seq<u8>, int), Seq<char>>(why@)),
            Some(Ok((object, bytes, end))) => batch_step(out@, at as int) == Some(
                Ok::<(Seq<char>, Seq<u8>, int), Seq<char>>((object@, bytes@, end as int)),
            ),
        },
{
    reveal(batch_step);
    let len = out.len();
    if at >= len {
        return None;
    }
    let nl = crate::stream::text::find(out, at, 0x0a);
    if nl >= len {
        return None;
    }
    let header_bytes = crate::stream::text::slice(out, at, nl);
    let text = text_of(&header_bytes);
    let (object, size) = match header(&text) {
        Ok(found) => found,
        Err(why) => return Some(Err(why)),
    };
    let next = nl + 1;
    if size > len - next {
        return Some(Err(String::from_str("the output ended early")));
    }
    let bytes = crate::stream::text::slice(out, next, next + size);
    Some(Ok((object, bytes, next + size)))
}

/// What `git cat-file --batch` answered: each blob asked about and its bytes,
/// in the order asked — a header line and then the bytes, each — or what was
/// wrong with the answer.
pub fn batch(out: &[u8]) -> (answered: Result<Vec<(String, Vec<u8>)>, String>)
    ensures
        match answered {
            Ok(a) => batch_from(out@, 0) == Ok::<Seq<(Seq<char>, Seq<u8>)>, Seq<char>>(answers_view(a@)),
            Err(why) => batch_from(out@, 0) == Err::<Seq<(Seq<char>, Seq<u8>)>, Seq<char>>(why@),
        },
{
    let len = out.len();
    let mut found: Vec<(String, Vec<u8>)> = Vec::new();
    let mut at: usize = 0;
    proof {
        assert(answers_view(found@) + Seq::<(Seq<char>, Seq<u8>)>::empty() =~= answers_view(found@));
    }
    loop
        invariant
            len == out@.len(),
            at < len || (at == 0 && len == 0),
            batch_from(out@, 0) == match batch_from(out@, at as int) {
                Ok(rest) => Ok::<Seq<(Seq<char>, Seq<u8>)>, Seq<char>>(answers_view(found@) + rest),
                Err(why) => Err(why),
            },
        decreases len - at,
    {
        match step(out, at) {
            None => {
                proof {
                    assert(answers_view(found@) + Seq::<(Seq<char>, Seq<u8>)>::empty() =~= answers_view(found@));
                }
                return Ok(found);
            },
            Some(Err(why)) => {
                return Err(why);
            },
            Some(Ok((object, bytes, end))) => {
                proof {
                    lemma_batch_step(out@, at as int);
                }
                let ghost before = answers_view(found@);
                let ghost item = (object@, bytes@);
                found.push((object, bytes));
                proof {
                    assert(answers_view(found@) =~= before.push(item));
                    if end + 1 < len {
                        match batch_from(out@, end + 1) {
                            Ok(rest) => {
                                assert(before + (seq![item] + rest) =~= answers_view(found@) + rest);
                            },
                            Err(_) => {},
                        }
                    } else {
                        assert(before + (seq![item] + Seq::<(Seq<char>, Seq<u8>)>::empty()) =~= answers_view(found@));
                    }
                }
                if len - end <= 1 {
                    return Ok(found);
                }
                at = end + 1;
            },
        }
    }
}


proof fn lemma_blob_map(answered: Seq<(Seq<char>, Seq<u8>)>, object: Seq<char>)
    ensures
        blob_map(answered).contains_key(object) <==> exists|i: int| 0 <= i < answered.len() && #[trigger] answered[i].0 == object,
        forall|i: int|
            0 <= i < answered.len() && #[trigger] answered[i].0 == object && (forall|j: int| i < j < answered.len() ==> answered[j].0 != object)
            ==> blob_map(answered)[object] == answered[i].1,
    decreases answered.len(),
{
    if answered.len() > 0 {
        let earlier = answered.drop_last();
        lemma_blob_map(earlier, object);
        if answered.last().0 != object {
            assert forall|i: int| 0 <= i < earlier.len() && #[trigger] earlier[i].0 == object implies answered[i].0 == object by {}
            assert forall|i: int| 0 <= i < answered.len() && #[trigger] answered[i].0 == object implies i < earlier.len() && earlier[i].0 == object by {
                if i == answered.len() - 1 {
                    assert(answered[i] == answered.last());
                }
            }
            assert forall|i: int|
                0 <= i < answered.len() && #[trigger] answered[i].0 == object && (forall|j: int| i < j < answered.len() ==> answered[j].0 != object)
                implies blob_map(answered)[object] == answered[i].1 by {
                assert(i < earlier.len());
                assert(earlier[i] == answered[i]);
                assert forall|j: int| i < j < earlier.len() implies earlier[j].0 != object by {
                    assert(earlier[j] == answered[j]);
                }
            }
        } else {
            assert(answered[answered.len() - 1].0 == object);
            assert forall|i: int|
                0 <= i < answered.len() && #[trigger] answered[i].0 == object && (forall|j: int| i < j < answered.len() ==> answered[j].0 != object)
                implies blob_map(answered)[object] == answered[i].1 by {
                if i < answered.len() - 1 {
                    assert(answered[answered.len() - 1].0 == object);
                }
            }
        }
    }
}

/// Where the last answer for `object` is, if there is one.
fn find_blob(answered: &Vec<(String, Vec<u8>)>, object: &String) -> (at: Option<usize>)
    ensures
        match at {
            Some(i) => i < answered@.len() && answered@[i as int].0@ == object@ && (forall|j: int|
                i < j < answered@.len() ==> #[trigger] answers_view(answered@)[j].0 != object@),
            None => forall|j: int| 0 <= j < answered@.len() ==> #[trigger] answers_view(answered@)[j].0 != object@,
        },
{
    let mut at = answered.len();
    while at > 0
        invariant
            at <= answered@.len(),
            forall|j: int| at <= j < answered@.len() ==> #[trigger] answers_view(answered@)[j].0 != object@,
        decreases at,
    {
        if answered[at - 1].0 == *object {
            return Some(at - 1);
        }
        at = at - 1;
    }
    None
}

proof fn lemma_assemble_stop(
    entries: Seq<(Mode, Seq<char>, Seq<u8>)>,
    blobs: Map<Seq<char>, Seq<u8>>,
    n: int,
)
    requires
        0 <= n <= entries.len(),
        assemble(entries.subrange(0, n), blobs) is Err,
    ensures
        assemble(entries, blobs) == assemble(entries.subrange(0, n), blobs),
    decreases entries.len() - n,
{
    if n < entries.len() {
        assert(entries.subrange(0, n + 1).drop_last() =~= entries.subrange(0, n));
        lemma_assemble_stop(entries, blobs, n + 1);
    } else {
        assert(entries.subrange(0, n) =~= entries);
    }
}

/// The tree at a commit, read from git rather than replayed: what `git
/// ls-tree -r -z` listed, with each file's bytes from what `git cat-file
/// --batch` answered when asked [`batch_question`] — nothing, where that asked
/// nothing.
///
/// An incremental export names the commits it left out by object ID, and a
/// commit standing on one is stated as a difference against it — so the
/// replay needs that tree, and git is the only party that has it exactly.
pub fn tree_of(listed: &[u8], answered: &[u8]) -> (tree: Result<Tree, Unreadable>)
    ensures
        match tree {
            Ok(t) => tree_from(listed@, answered@) == Ok::<TreeMap, UnreadableView>(t@),
            Err(e) => tree_from(listed@, answered@) == Err::<TreeMap, UnreadableView>(e@),
        },
{
    let entries = match ls_tree(listed) {
        Ok(entries) => entries,
        Err(because) => return Err(Unreadable { command: String::from_str("ls-tree"), because }),
    };
    let blobs = match batch(answered) {
        Ok(blobs) => blobs,
        Err(because) => {
            return Err(Unreadable { command: String::from_str("cat-file --batch"), because });
        },
    };
    let ghost listed_view = entries_view(entries@);
    let ghost map = blob_map(answers_view(blobs@));
    let mut tree = Tree::new();
    let mut at: usize = 0;
    while at < entries.len()
        invariant
            at <= entries@.len(),
            listed_view == entries_view(entries@),
            map == blob_map(answers_view(blobs@)),
            assemble(listed_view.subrange(0, at as int), map) == Ok::<TreeMap, Seq<char>>(tree@),
            entries_of(pieces(listed@, 0)) == Ok::<Seq<(Mode, Seq<char>, Seq<u8>)>, Seq<char>>(listed_view),
            batch_from(answered@, 0) == Ok::<Seq<(Seq<char>, Seq<u8>)>, Seq<char>>(answers_view(blobs@)),
        decreases entries@.len() - at,
    {
        let ghost e = listed_view[at as int];
        proof {
            assert(listed_view.subrange(0, at + 1).drop_last() =~= listed_view.subrange(0, at as int));
            assert(listed_view.subrange(0, at + 1).last() == e);
            assert(e == (entries@[at as int].0, entries@[at as int].1@, entries@[at as int].2@));
        }
        let mode = entries[at].0;
        let path = crate::bytes::copy(&entries[at].2);
        if mode == Mode::Gitlink {
            tree.insert(path, Entry { mode, content: Held::Submodule(entries[at].1.clone()) });
        } else {
            match find_blob(&blobs, &entries[at].1) {
                Some(i) => {
                    proof {
                        let av = answers_view(blobs@);
                        lemma_blob_map(av, e.1);
                        assert(av[i as int] == (blobs@[i as int].0@, blobs@[i as int].1@));
                        assert(av[i as int].0 == e.1);
                        assert(forall|j: int| i < j < av.len() ==> av[j].0 != e.1);
                        assert(map.contains_key(e.1));
                        assert(map[e.1] == blobs@[i as int].1@);
                    }
                    tree.insert(path, Entry { mode, content: Held::Bytes(crate::bytes::copy(&blobs[i].1)) });
                },
                None => {
                    proof {
                        lemma_blob_map(answers_view(blobs@), e.1);
                        lemma_assemble_stop(listed_view, map, at + 1);
                    }
                    let mut because = String::from_str("blob ");
                    because.append(entries[at].1.as_str());
                    because.append(" was not answered");
                    return Err(Unreadable { command: String::from_str("cat-file --batch"), because });
                },
            }
        }
        at = at + 1;
    }
    proof {
        assert(listed_view.subrange(0, entries@.len() as int) =~= listed_view);
    }
    Ok(tree)
}

/// The question `git cat-file --batch` is asked after `ls-tree`: every object
/// that is not a submodule, a line each.
pub fn batch_question(entries: &[(Mode, String, Vec<u8>)]) -> (asked: String)
    ensures
        asked@ == entries@.fold_left(
            Seq::<char>::empty(),
            |acc: Seq<char>, e: (Mode, String, Vec<u8>)| if e.0 == Mode::Gitlink {
                acc
            } else {
                acc + e.1@ + seq!['\n']
            },
        ),
{
    let mut asked = String::new();
    let mut at: usize = 0;
    while at < entries.len()
        invariant
            at <= entries@.len(),
            asked@ == entries@.subrange(0, at as int).fold_left(
                Seq::<char>::empty(),
                |acc: Seq<char>, e: (Mode, String, Vec<u8>)| if e.0 == Mode::Gitlink {
                    acc
                } else {
                    acc + e.1@ + seq!['\n']
                },
            ),
        decreases entries@.len() - at,
    {
        if entries[at].0 != Mode::Gitlink {
            asked.append(entries[at].1.as_str());
            asked.append("\n");
        }
        proof {
            reveal_strlit("\n");
            assert(entries@.subrange(0, at + 1).drop_last() =~= entries@.subrange(0, at as int));
        }
        at = at + 1;
    }
    proof {
        assert(entries@.subrange(0, entries@.len() as int) =~= entries@);
    }
    asked
}


/// `ls-tree` reads each mode a file can have as git spells it — `100644` a
/// file, `100755` an executable, `120000` a link, `160000` a submodule — and a
/// word it reads as a mode is that mode's own spelling.
pub proof fn ls_tree_reads_each_mode_as_git_spells_it(mode: Mode, word: Seq<char>)
    ensures
        mode != Mode::Directory ==> listed_mode(crate::stream::mode_text(mode)@) == Some(mode),
        listed_mode(word) == Some(mode) ==> word == crate::stream::mode_text(mode)@ && mode
            != Mode::Directory,
{
    reveal_strlit("100644");
    reveal_strlit("100755");
    reveal_strlit("120000");
    reveal_strlit("160000");
    reveal_strlit("040000");
    assert("100644"@ =~= seq!['1', '0', '0', '6', '4', '4']);
    assert("100755"@ =~= seq!['1', '0', '0', '7', '5', '5']);
    assert("120000"@ =~= seq!['1', '2', '0', '0', '0', '0']);
    assert("160000"@ =~= seq!['1', '6', '0', '0', '0', '0']);
}

} // verus!
