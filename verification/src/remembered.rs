//! What a repository remembers of the conversions that touched it.
//!
//! Two files under `.git/historica/`, both plain text, both checkable by hand,
//! and neither in the store:
//!
//! - `commits` — one line per revision this tool has written as a commit,
//!   `<revision> <object ID>`. It is derived: a commit is a function of its
//!   revision, so the file can be deleted and a full write regenerates every
//!   line of it.
//! - `refs` — one line per ref the last conversion answers for, `<ref> <object
//!   ID>` where git and the store last agreed, with ` made` after it where a
//!   write of this tool's is what put the ref there. This is the one fact
//!   nothing else holds: whether a ref that now points elsewhere was moved by
//!   git or by this tool is only answerable by remembering where the two last
//!   agreed, and whether a ref is this tool's to delete is only answerable by
//!   remembering whether it made it.
//!
//! Reading and writing the files is the caller's; what is here is what their
//! text says and what text says a record.

use vstd::prelude::*;
use vstd::std_specs::iter::IteratorSpec;

use crate::table::{as_map, lemma_index, lemma_insert, lemma_update, unique};

verus! {

/// The directory under `.git/` these files sit in.
pub const DIRECTORY: &'static str = "historica";

/// The file naming the commit each written revision became.
pub const COMMITS: &'static str = "commits";

/// The file naming where the last write left each ref it moved.
pub const REFS: &'static str = "refs";

/// The word on a `refs` line that says a write of this tool's put the ref
/// where it is.
pub const MADE: &'static str = "made";

// ---------------------------------------------------------------------------
// Lines
// ---------------------------------------------------------------------------

/// A character `str::trim` takes away: Unicode white space.
pub open spec fn white(c: char) -> bool {
    ||| c == '\t' || c == '\n' || c == '\u{b}' || c == '\u{c}' || c == '\r' || c == ' '
    ||| c == '\u{85}' || c == '\u{a0}' || c == '\u{1680}'
    ||| ('\u{2000}' <= c && c <= '\u{200a}')
    ||| c == '\u{2028}' || c == '\u{2029}' || c == '\u{202f}' || c == '\u{205f}' || c == '\u{3000}'
}

/// A line with nothing on it but white space.
pub open spec fn blank(line: Seq<char>) -> bool {
    forall|i: int| 0 <= i < line.len() ==> white(#[trigger] line[i])
}

/// The index of the first `c` at or after `from`, or the length.
pub open spec fn find_char(text: Seq<char>, from: int, c: char) -> int
    decreases text.len() - from,
{
    if from >= text.len() {
        text.len() as int
    } else if text[from] == c {
        from
    } else {
        find_char(text, from + 1, c)
    }
}

pub proof fn lemma_find_char(text: Seq<char>, from: int, c: char)
    requires
        0 <= from <= text.len(),
    ensures
        from <= find_char(text, from, c) <= text.len(),
        find_char(text, from, c) < text.len() ==> text[find_char(text, from, c)] == c,
        forall|i: int| from <= i < find_char(text, from, c) ==> text[i] != c,
    decreases text.len() - from,
{
    if from < text.len() && text[from] != c {
        lemma_find_char(text, from + 1, c);
    }
}

/// The lines of a text, as `str::lines` gives them: split at each `\n`, a
/// `\r` before one dropped, and nothing after a final one.
pub open spec fn lines(text: Seq<char>) -> Seq<Seq<char>>
    decreases text.len(),
{
    if text.len() == 0 {
        Seq::empty()
    } else {
        let nl = find_char(text, 0, '\n');
        let raw = text.subrange(0, nl);
        if nl < text.len() {
            proof {
                lemma_find_char(text, 0, '\n');
            }
            let line = if raw.len() > 0 && raw.last() == '\r' {
                raw.drop_last()
            } else {
                raw
            };
            seq![line] + lines(text.subrange(nl + 1, text.len() as int))
        } else {
            seq![raw]
        }
    }
}

/// A line as `<key> <value>`: split at its first space.
pub open spec fn split_space(line: Seq<char>) -> Option<(Seq<char>, Seq<char>)> {
    let at = find_char(line, 0, ' ');
    if at < line.len() {
        Some((line.subrange(0, at), line.subrange(at + 1, line.len() as int)))
    } else {
        None
    }
}

// ---------------------------------------------------------------------------
// Where each ref was left
// ---------------------------------------------------------------------------

/// Where a ref stood when git and the store last agreed about it, and whether
/// this tool is the one that put it there.
#[derive(Clone, Debug, PartialEq, Eq)]
pub struct Left {
    /// The commit the ref pointed at.
    pub oid: String,
    /// Whether a write of this tool's created or moved the ref — as opposed to
    /// an import finding git and the store already in agreement about a ref
    /// somebody else made. Only a ref this tool made is this tool's to delete.
    pub made: bool,
}

/// A [`Left`], as a contract speaks of it.
pub struct LeftView {
    pub oid: Seq<char>,
    pub made: bool,
}

impl Left {
    /// The same record.
    pub fn copy(&self) -> (other: Left)
        ensures
            other@ == self@,
    {
        Left { oid: self.oid.clone(), made: self.made }
    }
}

impl View for Left {
    type V = LeftView;

    open spec fn view(&self) -> LeftView {
        LeftView { oid: self.oid@, made: self.made }
    }
}

/// A remembered file whose text is not what this tool writes.
#[derive(Clone, Debug, PartialEq, Eq)]
pub enum Error {
    /// A line was not `<key> <value>`.
    Malformed {
        /// Which file.
        file: &'static str,
        /// The line.
        line: String,
    },
}

/// An [`Error`], as a contract speaks of it.
pub enum ErrorView {
    Malformed { file: Seq<char>, line: Seq<char> },
}

impl View for Error {
    type V = ErrorView;

    open spec fn view(&self) -> ErrorView {
        match self {
            Error::Malformed { file, line } => ErrorView::Malformed { file: file@, line: line@ },
        }
    }
}

/// What a `refs` line's value says: `<oid>`, or `<oid> made`.
pub open spec fn left_of(value: Seq<char>) -> Option<LeftView> {
    match split_space(value) {
        None => Some(LeftView { oid: value, made: false }),
        Some((oid, word)) => if word == seq!['m', 'a', 'd', 'e'] {
            Some(LeftView { oid, made: true })
        } else {
            None
        },
    }
}

/// The lines of a `refs` file read in turn: each ref to where it was left, a
/// later line for a ref overruling an earlier one, or the first line that is
/// not one this tool writes.
pub open spec fn refs_fold(lines: Seq<Seq<char>>) -> Result<Map<Seq<char>, LeftView>, ErrorView>
    decreases lines.len(),
{
    if lines.len() == 0 {
        Ok(Map::empty())
    } else {
        match refs_fold(lines.drop_last()) {
            Err(e) => Err(e),
            Ok(so_far) => {
                let line = lines.last();
                if blank(line) {
                    Ok(so_far)
                } else {
                    match split_space(line) {
                        None => Err(ErrorView::Malformed { file: REFS@, line }),
                        Some((reference, value)) => match left_of(value) {
                            None => Err(ErrorView::Malformed { file: REFS@, line }),
                            Some(left) => Ok(so_far.insert(reference, left)),
                        },
                    }
                }
            },
        }
    }
}

/// What the lines of a `refs` file say: first, a line that is not blank and
/// has no space is refused, the first such line wherever it stands; where
/// every line splits, [`refs_fold`] reads them, refusing the first whose value
/// is neither `<oid>` nor `<oid> made`.
pub open spec fn refs_from(lines: Seq<Seq<char>>) -> Result<Map<Seq<char>, LeftView>, ErrorView> {
    match pairs_of(lines, REFS@) {
        Err(e) => Err(e),
        Ok(_) => refs_fold(lines),
    }
}

/// The pairs of a record, as a contract speaks of them.
pub open spec fn record_view(s: Seq<(String, Left)>) -> Seq<(Seq<char>, LeftView)> {
    s.map_values(|p: (String, Left)| (p.0@, p.1@))
}

/// Whether ref name `a` comes before `b`: at the first character where they
/// differ, the smaller one first; where one is the other's beginning, the
/// shorter first. Characters compare as the numbers they stand for, so this is
/// the order of the names' UTF-8 bytes, which is how names are ordered as text.
pub open spec fn name_before(a: Seq<char>, b: Seq<char>) -> bool
    decreases a.len(),
{
    if a.len() == 0 {
        b.len() > 0
    } else if b.len() == 0 {
        false
    } else if a[0] != b[0] {
        a[0] < b[0]
    } else {
        name_before(a.drop_first(), b.drop_first())
    }
}

/// Pairs whose refs stand in strictly increasing order: each ref once, and
/// every ref before those that follow it.
pub open spec fn ascending_names(pairs: Seq<(Seq<char>, LeftView)>) -> bool {
    forall|i: int, j: int|
        0 <= i < j < pairs.len() ==> name_before(#[trigger] pairs[i].0, #[trigger] pairs[j].0)
}

/// The pairs of `m` listed in ascending order of ref.
pub open spec fn listed_in_order(m: Map<Seq<char>, LeftView>) -> Seq<(Seq<char>, LeftView)> {
    choose|s: Seq<(Seq<char>, LeftView)>| ascending_names(s) && as_map(s) == m
}

/// Without its first pair, a listing spells its map without that pair's ref.
proof fn lemma_drop_first_pair(s: Seq<(Seq<char>, LeftView)>)
    requires
        unique(s),
        s.len() > 0,
    ensures
        unique(s.drop_first()),
        as_map(s.drop_first()) == as_map(s).remove(s[0].0),
{
    let t = s.drop_first();
    assert(forall|i: int| 0 <= i < t.len() ==> t[i] == s[i + 1]);
    assert(unique(t)) by {
        assert forall|a: int, b: int| 0 <= a < b < t.len() implies #[trigger] t[a].0
            != #[trigger] t[b].0 by {
            assert(s[a + 1].0 != s[b + 1].0);
        }
    }
    crate::table::lemma_all(s);
    crate::table::lemma_all(t);
    assert(as_map(t) =~= as_map(s).remove(s[0].0)) by {
        assert forall|q: Seq<char>| #[trigger] as_map(t).contains_key(q) <==> as_map(s).remove(
            s[0].0,
        ).contains_key(q) by {
            if crate::table::holds(t, q) {
                let j = choose|j: int| 0 <= j < t.len() && #[trigger] t[j].0 == q;
                assert(s[j + 1].0 == q);
                assert(s[0].0 != s[j + 1].0);
            }
            if crate::table::holds(s, q) && q != s[0].0 {
                let j = choose|j: int| 0 <= j < s.len() && #[trigger] s[j].0 == q;
                assert(t[j - 1].0 == q);
            }
        }
        assert forall|q: Seq<char>| #[trigger] as_map(t).contains_key(q) implies as_map(t)[q]
            == as_map(s)[q] by {
            let j = choose|j: int| 0 <= j < t.len() && #[trigger] t[j].0 == q;
            assert(t[j] == s[j + 1]);
        }
    }
}

/// Two listings of one map, each in ascending order of ref, are the same
/// listing: the order of a record is fixed by what it records.
pub proof fn an_ascending_listing_is_the_only_one(
    a: Seq<(Seq<char>, LeftView)>,
    b: Seq<(Seq<char>, LeftView)>,
)
    requires
        ascending_names(a),
        ascending_names(b),
        as_map(a) == as_map(b),
    ensures
        a == b,
    decreases a.len(),
{
    lemma_ascending_once(a);
    lemma_ascending_once(b);
    crate::table::lemma_all(a);
    crate::table::lemma_all(b);
    if a.len() == 0 {
        if b.len() > 0 {
            assert(as_map(b).contains_key(b[0].0));
        }
        assert(a =~= b);
    } else if b.len() == 0 {
        assert(as_map(a).contains_key(a[0].0));
    } else {
        let k = a[0].0;
        assert(as_map(b).contains_key(k));
        let j = choose|j: int| 0 <= j < b.len() && #[trigger] b[j].0 == k;
        assert(as_map(a).contains_key(b[0].0));
        let i = choose|i: int| 0 <= i < a.len() && #[trigger] a[i].0 == b[0].0;
        if j > 0 {
            assert(name_before(b[0].0, b[j].0));
            if i > 0 {
                assert(name_before(a[0].0, a[i].0));
                lemma_name_before_total(a[0].0, b[0].0);
            } else {
                assert(b[0].0 != b[j].0);
            }
        }
        assert(b[0].0 == k);
        assert(a[0].1 == as_map(a)[k]);
        assert(b[0].1 == as_map(b)[k]);
        assert(a[0] == b[0]);
        lemma_drop_first_pair(a);
        lemma_drop_first_pair(b);
        assert(ascending_names(a.drop_first()));
        assert(ascending_names(b.drop_first())) by {
            assert forall|x: int, y: int| 0 <= x < y < b.drop_first().len() implies name_before(
                #[trigger] b.drop_first()[x].0,
                #[trigger] b.drop_first()[y].0,
            ) by {
                assert(b.drop_first()[x] == b[x + 1] && b.drop_first()[y] == b[y + 1]);
            }
        }
        an_ascending_listing_is_the_only_one(a.drop_first(), b.drop_first());
        assert(a =~= seq![a[0]] + a.drop_first());
        assert(b =~= seq![b[0]] + b.drop_first());
    }
}

pub proof fn lemma_name_before_irreflexive(a: Seq<char>)
    ensures
        !name_before(a, a),
    decreases a.len(),
{
    if a.len() > 0 {
        lemma_name_before_irreflexive(a.drop_first());
    }
}

pub proof fn lemma_name_before_total(a: Seq<char>, b: Seq<char>)
    ensures
        a != b ==> name_before(a, b) || name_before(b, a),
        !(name_before(a, b) && name_before(b, a)),
    decreases a.len(),
{
    if a.len() > 0 && b.len() > 0 && a[0] == b[0] {
        lemma_name_before_total(a.drop_first(), b.drop_first());
        if a.drop_first() == b.drop_first() {
            assert(a == seq![a[0]] + a.drop_first());
            assert(b == seq![b[0]] + b.drop_first());
        }
    }
    if a.len() == 0 && b.len() == 0 {
        assert(a == b);
    }
}

pub proof fn lemma_name_before_transitive(a: Seq<char>, b: Seq<char>, c: Seq<char>)
    requires
        name_before(a, b),
        name_before(b, c),
    ensures
        name_before(a, c),
    decreases a.len(),
{
    if a.len() > 0 && b.len() > 0 && c.len() > 0 && a[0] == b[0] && b[0] == c[0] {
        lemma_name_before_transitive(a.drop_first(), b.drop_first(), c.drop_first());
    }
}

/// Pairs in ascending order hold each ref once.
pub proof fn lemma_ascending_once(pairs: Seq<(Seq<char>, LeftView)>)
    requires
        ascending_names(pairs),
    ensures
        unique(pairs),
{
    assert forall|i: int, j: int| 0 <= i < j < pairs.len() implies #[trigger] pairs[i].0
        != #[trigger] pairs[j].0 by {
        assert(name_before(pairs[i].0, pairs[j].0));
        lemma_name_before_irreflexive(pairs[i].0);
    }
}

/// A pair put in at the place its ref belongs keeps the pairs ascending, and
/// its ref was not among them.
proof fn lemma_place(pairs: Seq<(Seq<char>, LeftView)>, at: int, k: Seq<char>, v: LeftView)
    requires
        ascending_names(pairs),
        0 <= at <= pairs.len(),
        forall|i: int| 0 <= i < at ==> name_before(#[trigger] pairs[i].0, k),
        at < pairs.len() ==> name_before(k, pairs[at].0),
    ensures
        ascending_names(pairs.insert(at, (k, v))),
        !crate::table::holds(pairs, k),
{
    let t = pairs.insert(at, (k, v));
    assert forall|i: int| at <= i < pairs.len() implies name_before(k, #[trigger] pairs[i].0) by {
        if i > at {
            assert(name_before(pairs[at].0, pairs[i].0));
            lemma_name_before_transitive(k, pairs[at].0, pairs[i].0);
        }
    }
    assert forall|i: int, j: int| 0 <= i < j < t.len() implies name_before(
        #[trigger] t[i].0,
        #[trigger] t[j].0,
    ) by {
        if j < at {
            assert(t[i] == pairs[i] && t[j] == pairs[j]);
        } else if j == at {
            assert(t[i] == pairs[i]);
        } else if i == at {
            assert(t[j] == pairs[j - 1]);
        } else if i < at {
            assert(t[i] == pairs[i] && t[j] == pairs[j - 1]);
            lemma_name_before_transitive(pairs[i].0, k, pairs[j - 1].0);
        } else {
            assert(t[i] == pairs[i - 1] && t[j] == pairs[j - 1]);
        }
    }
    if crate::table::holds(pairs, k) {
        let i = choose|i: int| 0 <= i < pairs.len() && #[trigger] pairs[i].0 == k;
        lemma_name_before_irreflexive(k);
    }
}

/// Whether ref name `a` comes before `b`.
pub fn name_precedes(a: &str, b: &str) -> (earlier: bool)
    ensures
        earlier == name_before(a@, b@),
{
    let a = characters(a);
    let b = characters(b);
    let mut at: usize = 0;
    assert(a@.subrange(0, a@.len() as int) == a@);
    assert(b@.subrange(0, b@.len() as int) == b@);
    while at < a.len() && at < b.len() && a[at] == b[at]
        invariant
            at <= a@.len(),
            at <= b@.len(),
            name_before(a@, b@) == name_before(
                a@.subrange(at as int, a@.len() as int),
                b@.subrange(at as int, b@.len() as int),
            ),
        decreases a@.len() - at,
    {
        let ghost x = a@.subrange(at as int, a@.len() as int);
        let ghost y = b@.subrange(at as int, b@.len() as int);
        assert(x.drop_first() == a@.subrange(at + 1, a@.len() as int));
        assert(y.drop_first() == b@.subrange(at + 1, b@.len() as int));
        at = at + 1;
    }
    let ghost x = a@.subrange(at as int, a@.len() as int);
    let ghost y = b@.subrange(at as int, b@.len() as int);
    if at == a.len() {
        at < b.len()
    } else if at == b.len() {
        false
    } else {
        assert(x[0] == a@[at as int] && y[0] == b@[at as int]);
        a[at] < b[at]
    }
}

/// Where the last conversion left each ref it answers for.
#[derive(Debug)]
pub struct Refs {
    /// Present only where a conversion has happened; absent means this tool
    /// has never touched a ref here, which is a different fact from having
    /// touched none.
    written: Option<Vec<(String, Left)>>,
}

impl View for Refs {
    type V = Option<Map<Seq<char>, LeftView>>;

    closed spec fn view(&self) -> Option<Map<Seq<char>, LeftView>> {
        match self.written {
            Some(pairs) => Some(as_map(record_view(pairs@))),
            None => None,
        }
    }
}

/// The characters of a text, one by one.
pub fn characters(text: &str) -> (chars: Vec<char>)
    ensures
        chars@ == text@,
{
    broadcast use vstd::string::axiom_spec_iter, vstd::string::next_postcondition;

    let mut it = text.chars();
    let mut chars: Vec<char> = Vec::new();
    loop
        invariant
            it.obeys_prophetic_iter_laws(),
            it.remaining() == text@.subrange(chars@.len() as int, text@.len() as int),
            chars@ == text@.subrange(0, chars@.len() as int),
            chars@.len() <= text@.len(),
        decreases text@.len() - chars@.len(),
    {
        match it.next() {
            Some(c) => {
                assert(text@.subrange(chars@.len() as int, text@.len() as int)[0] == c);
                chars.push(c);
                assert(text@.subrange(chars@.len() as int, text@.len() as int) =~= text@.subrange(
                    chars@.len() - 1,
                    text@.len() as int,
                ).drop_first());
            },
            None => {
                assert(chars@ =~= text@);
                return chars;
            },
        }
    }
}

pub fn find_char_exec(text: &Vec<char>, from: usize, end: usize, c: char) -> (at: usize)
    requires
        from <= end <= text@.len(),
    ensures
        from <= at <= end,
        at as int == find_char(text@.subrange(0, end as int), from as int, c),
{
    let ghost t = text@.subrange(0, end as int);
    let mut at = from;
    while at < end
        invariant
            from <= at <= end <= text@.len(),
            t == text@.subrange(0, end as int),
            find_char(t, from as int, c) == find_char(t, at as int, c),
        decreases end - at,
    {
        if text[at] == c {
            return at;
        }
        at = at + 1;
    }
    at
}

impl Refs {
    #[verifier::type_invariant]
    spec fn once_each(&self) -> bool {
        self.written matches Some(pairs) ==> ascending_names(record_view(pairs@))
    }

    /// A repository nothing was ever written to.
    pub fn none() -> (refs: Refs)
        ensures
            refs@ is None,
    {
        Refs { written: None }
    }

    /// Whether any conversion has been remembered at all.
    pub fn known(&self) -> (known: bool)
        ensures
            known == self@ is Some,
    {
        self.written.is_some()
    }

    fn entry(&self, reference: &str) -> (found: Option<&Left>)
        ensures
            match found {
                Some(left) => self@ matches Some(m) && m.contains_key(reference@) && m[reference@]
                    == left@,
                None => !(self@ matches Some(m) && m.contains_key(reference@)),
            },
    {
        proof {
            use_type_invariant(self);
            if let Some(pairs) = &self.written {
                lemma_ascending_once(record_view(pairs@));
            }
        }
        match &self.written {
            None => None,
            Some(pairs) => {
                let key = reference.to_owned();
                let mut at: usize = 0;
                while at < pairs.len()
                    invariant
                        at <= pairs@.len(),
                        key@ == reference@,
                        unique(record_view(pairs@)),
                        self@ == Some(as_map(record_view(pairs@))),
                        forall|i: int| 0 <= i < at ==> #[trigger] record_view(pairs@)[i].0 != reference@,
                    decreases pairs@.len() - at,
                {
                    if pairs[at].0 == key {
                        proof {
                            assert(record_view(pairs@)[at as int] == (pairs@[at as int].0@, pairs@[at as int].1@));
                            lemma_index(record_view(pairs@), at as int);
                        }
                        return Some(&pairs[at].1);
                    }
                    at = at + 1;
                }
                None
            },
        }
    }

    /// Where the last conversion left this ref, if it answers for it.
    pub fn left(&self, reference: &str) -> (oid: Option<&str>)
        ensures
            match oid {
                Some(oid) => self@ matches Some(m) && m.contains_key(reference@) && m[reference@].oid
                    == oid@,
                None => !(self@ matches Some(m) && m.contains_key(reference@)),
            },
    {
        match self.entry(reference) {
            Some(left) => Some(left.oid.as_str()),
            None => None,
        }
    }

    /// Whether a write of this tool's is what put the ref where it is.
    pub fn made(&self, reference: &str) -> (made: bool)
        ensures
            made == (self@ matches Some(m) && m.contains_key(reference@) && m[reference@].made),
    {
        match self.entry(reference) {
            Some(left) => left.made,
            None => false,
        }
    }

    /// The record's pairs, in ascending order of their refs; none where
    /// nothing was remembered.
    pub open spec fn in_order(&self) -> Seq<(Seq<char>, LeftView)> {
        match self@ {
            Some(m) => listed_in_order(m),
            None => Seq::empty(),
        }
    }

    /// Every ref the last conversion answers for, each once, in ascending
    /// order of ref.
    pub fn iter(&self) -> (pairs: &[(String, Left)])
        ensures
            record_view(pairs@) == self.in_order(),
            ascending_names(record_view(pairs@)),
            unique(record_view(pairs@)),
            self@ is None ==> pairs@.len() == 0,
            self@ matches Some(m) ==> as_map(record_view(pairs@)) == m,
    {
        proof {
            use_type_invariant(self);
            if let Some(pairs) = &self.written {
                let ghost s = record_view(pairs@);
                lemma_ascending_once(s);
                let ghost c = listed_in_order(as_map(s));
                assert(ascending_names(c) && as_map(c) == as_map(s));
                an_ascending_listing_is_the_only_one(c, s);
            }
        }
        match &self.written {
            Some(pairs) => pairs.as_slice(),
            None => {
                let nothing: &[(String, Left)] = &[];
                proof {
                    assert(record_view(nothing@) =~= Seq::<(Seq<char>, LeftView)>::empty());
                }
                nothing
            },
        }
    }

    /// The whole record, to be carried forward and amended: its pairs in
    /// ascending order of ref.
    pub fn to_map(&self) -> (pairs: Vec<(String, Left)>)
        ensures
            record_view(pairs@) == self.in_order(),
            ascending_names(record_view(pairs@)),
            unique(record_view(pairs@)),
            self@ is None ==> pairs@.len() == 0,
            self@ matches Some(m) ==> as_map(record_view(pairs@)) == m,
    {
        let listed = self.iter();
        let mut pairs: Vec<(String, Left)> = Vec::new();
        let mut at: usize = 0;
        while at < listed.len()
            invariant
                at <= listed@.len(),
                record_view(pairs@) == record_view(listed@).subrange(0, at as int),
            decreases listed@.len() - at,
        {
            let ghost was = pairs@;
            let key = listed[at].0.clone();
            let left = listed[at].1.copy();
            pairs.push((key, left));
            proof {
                assert(pairs@ == was.push((key, left)));
                assert(record_view(pairs@) =~= record_view(was).push((key@, left@)));
                assert(record_view(listed@)[at as int] == (listed@[at as int].0@, listed@[at as int].1@));
                assert(record_view(pairs@) =~= record_view(listed@).subrange(0, at + 1));
            }
            at = at + 1;
        }
        proof {
            assert(record_view(listed@).subrange(0, listed@.len() as int) == record_view(listed@));
            assert(record_view(pairs@) == record_view(listed@));
        }
        pairs
    }
}


/// A `refs` line: the ref, its object ID, and ` made` where this tool made it.
pub open spec fn ref_line(pair: (Seq<char>, LeftView)) -> Seq<char> {
    pair.0 + seq![' '] + pair.1.oid + if pair.1.made {
        seq![' ', 'm', 'a', 'd', 'e']
    } else {
        Seq::empty()
    }
}

/// A whole `refs` file: each pair on a line of its own, in the order given.
pub open spec fn rendered(pairs: Seq<(Seq<char>, LeftView)>) -> Seq<char>
    decreases pairs.len(),
{
    if pairs.len() == 0 {
        Seq::empty()
    } else {
        rendered(pairs.drop_last()) + ref_line(pairs.last()) + seq!['\n']
    }
}

pub fn is_white(c: char) -> (w: bool)
    ensures
        w == white(c),
{
    c == '\t' || c == '\n' || c == '\u{b}' || c == '\u{c}' || c == '\r' || c == ' ' || c == '\u{85}'
        || c == '\u{a0}' || c == '\u{1680}' || ('\u{2000}' <= c && c <= '\u{200a}') || c
        == '\u{2028}' || c == '\u{2029}' || c == '\u{202f}' || c == '\u{205f}' || c == '\u{3000}'
}

pub proof fn lemma_find_char_shift(text: Seq<char>, at: int, from: int, c: char)
    requires
        0 <= at <= from <= text.len(),
    ensures
        find_char(text.subrange(at, text.len() as int), from - at, c) == find_char(text, from, c)
            - at,
    decreases text.len() - from,
{
    if from < text.len() && text[from] != c {
        lemma_find_char_shift(text, at, from + 1, c);
    }
}

/// One line of a `refs` file, read: nothing for a blank line, or the ref and
/// where it was left.
fn ref_of(text: &str, chars: &Vec<char>, start: usize, end: usize) -> (r: Result<
    Option<(String, Left)>,
    Error,
>)
    requires
        start <= end <= chars@.len(),
        chars@ == text@,
    ensures
        ({
            let line = text@.subrange(start as int, end as int);
            match r {
                Ok(None) => blank(line),
                Ok(Some((reference, left))) => {
                    &&& !blank(line)
                    &&& split_space(line) is Some
                    &&& reference@ == split_space(line)->Some_0.0
                    &&& left_of(split_space(line)->Some_0.1) == Some(left@)
                },
                Err(e) => !blank(line) && e@ == (ErrorView::Malformed { file: REFS@, line })
                    && (split_space(line) is Some ==> left_of(split_space(line)->Some_0.1) is None),
            }
        }),
{
    let ghost line = text@.subrange(start as int, end as int);
    let mut at = start;
    while at < end && is_white(chars[at])
        invariant
            start <= at <= end <= chars@.len(),
            chars@ == text@,
            line == text@.subrange(start as int, end as int),
            forall|i: int| 0 <= i < at - start ==> white(#[trigger] line[i]),
        decreases end - at,
    {
        at = at + 1;
    }
    if at == end {
        return Ok(None);
    }
    assert(!white(line[at - start]));
    let space = find_char_exec(chars, start, end, ' ');
    proof {
        lemma_find_char_shift(chars@.subrange(0, end as int), start as int, start as int, ' ');
        assert(chars@.subrange(0, end as int).subrange(start as int, end as int) =~= line);
    }
    if space == end {
        return Err(Error::Malformed { file: REFS, line: text.substring_char(start, end).to_owned() });
    }
    let reference = text.substring_char(start, space).to_owned();
    let second = find_char_exec(chars, space + 1, end, ' ');
    let ghost value = line.subrange(space + 1 - start, line.len() as int);
    proof {
        lemma_find_char_shift(chars@.subrange(0, end as int), (space + 1) as int, (space + 1) as int, ' ');
        assert(chars@.subrange(0, end as int).subrange(space + 1, end as int) =~= value);
        assert(line.subrange(0, space - start) =~= text@.subrange(start as int, space as int));
    }
    if second == end {
        let oid = text.substring_char(space + 1, end).to_owned();
        proof {
            assert(text@.subrange(space + 1, end as int) =~= value);
        }
        return Ok(Some((reference, Left { oid, made: false })));
    }
    let made = end - second == 5 && chars[second + 1] == 'm' && chars[second + 2] == 'a'
        && chars[second + 3] == 'd' && chars[second + 4] == 'e';
    proof {
        let word = value.subrange(second - space, value.len() as int);
        if made {
            assert(word =~= seq!['m', 'a', 'd', 'e']);
        } else if word.len() == 4 {
            assert(word[0] == chars@[second + 1]);
            assert(word[1] == chars@[second + 2]);
            assert(word[2] == chars@[second + 3]);
            assert(word[3] == chars@[second + 4]);
        }
        assert(value.subrange(0, second - space - 1) =~= text@.subrange(space + 1, second as int));
    }
    if made {
        let oid = text.substring_char(space + 1, second).to_owned();
        Ok(Some((reference, Left { oid, made: true })))
    } else {
        Err(Error::Malformed { file: REFS, line: text.substring_char(start, end).to_owned() })
    }
}

/// Put `left` in the record under `reference`, replacing what was there; a
/// new ref goes in at the place its name belongs.
pub fn record(pairs: &mut Vec<(String, Left)>, reference: String, left: Left)
    requires
        ascending_names(record_view(old(pairs)@)),
    ensures
        ascending_names(record_view(final(pairs)@)),
        unique(record_view(final(pairs)@)),
        as_map(record_view(final(pairs)@)) == as_map(record_view(old(pairs)@)).insert(
            reference@,
            left@,
        ),
{
    let ghost was = record_view(pairs@);
    let ghost k = reference@;
    let ghost v = left@;
    proof {
        lemma_ascending_once(was);
    }
    let mut at: usize = 0;
    while at < pairs.len()
        invariant
            at <= pairs@.len(),
            was == record_view(pairs@),
            pairs@ == old(pairs)@,
            ascending_names(was),
            unique(was),
            k == reference@,
            v == left@,
            forall|i: int| 0 <= i < at ==> name_before(#[trigger] was[i].0, k),
        decreases pairs@.len() - at,
    {
        proof {
            assert(was[at as int] == (pairs@[at as int].0@, pairs@[at as int].1@));
        }
        if pairs[at].0 == reference {
            pairs.set(at, (reference, left));
            proof {
                assert(was[at as int].0 == k);
                lemma_update(was, at as int, v);
                assert(record_view(pairs@) =~= was.update(at as int, (was[at as int].0, v)));
                let t = record_view(pairs@);
                assert forall|i: int, j: int| 0 <= i < j < t.len() implies name_before(
                    #[trigger] t[i].0,
                    #[trigger] t[j].0,
                ) by {
                    assert(t[i].0 == was[i].0 && t[j].0 == was[j].0);
                }
            }
            return;
        }
        if name_precedes(reference.as_str(), pairs[at].0.as_str()) {
            pairs.insert(at, (reference, left));
            proof {
                lemma_place(was, at as int, k, v);
                lemma_insert(was, at as int, k, v);
                assert(record_view(pairs@) =~= was.insert(at as int, (k, v)));
            }
            return;
        }
        proof {
            lemma_name_before_total(was[at as int].0, k);
        }
        at = at + 1;
    }
    let end = pairs.len();
    pairs.push((reference, left));
    proof {
        lemma_place(was, end as int, k, v);
        lemma_insert(was, end as int, k, v);
        assert(record_view(pairs@) =~= was.insert(end as int, (k, v)));
    }
}

impl Refs {
    /// What a `refs` file says: `None` where there is no file, which is a
    /// repository this tool never wrote to.
    pub fn read(file: Option<&str>) -> (refs: Result<Refs, Error>)
        ensures
            match file {
                None => refs matches Ok(r) && r@ is None,
                Some(t) => match refs_from(lines(t@)) {
                    Ok(m) => refs matches Ok(r) && r@ == Some(m),
                    Err(e) => refs matches Err(x) && x@ == e,
                },
            },
    {
        let text = match file {
            None => return Ok(Refs { written: None }),
            Some(text) => text,
        };
        assert(file == Some(text));
        if let Err(e) = split_lines(text, REFS) {
            return Err(e);
        }
        assert(pairs_of(lines(text@), REFS@) is Ok);
        let chars = characters(text);
        let len = chars.len();
        let mut pairs: Vec<(String, Left)> = Vec::new();
        let mut taken: Ghost<Seq<Seq<char>>> = Ghost(Seq::empty());
        let mut at: usize = 0;
        proof {
            assert(text@.subrange(0, len as int) =~= text@);
            assert(as_map(record_view(pairs@)) =~= Map::<Seq<char>, LeftView>::empty());
        }
        while at < len
            invariant
                file == Some(text),
                chars@ == text@,
                len == text@.len(),
                at <= len,
                lines(text@) == taken@ + lines(text@.subrange(at as int, len as int)),
                refs_fold(taken@) == Ok::<Map<Seq<char>, LeftView>, ErrorView>(
                    as_map(record_view(pairs@)),
                ),
                ascending_names(record_view(pairs@)),
                pairs_of(lines(text@), REFS@) is Ok,
            decreases len - at,
        {
            let nl = find_char_exec(&chars, at, len, '\n');
            proof {
                assert(chars@.subrange(0, len as int) == text@);
                lemma_find_char(text@, at as int, '\n');
                lemma_lines_step(text@, at as int);
            }
            let end = if nl < len && nl > at && chars[nl - 1] == '\r' {
                nl - 1
            } else {
                nl
            };
            let ghost line = text@.subrange(at as int, end as int);
            let found = ref_of(text, &chars, at, end);
            proof {
                let after = taken@.push(line);
                assert(after.drop_last() =~= taken@);
                assert(after.last() == line);
            }
            match found {
                Err(e) => {
                    proof {
                        assert(lines(text@).subrange(0, taken@.len() + 1int) =~= taken@.push(line));
                        assert(refs_fold(taken@.push(line)) == Err::<Map<Seq<char>, LeftView>, ErrorView>(e@));
                        lemma_refs_stop(lines(text@), taken@.len() + 1int);
                    }
                    return Err(e);
                },
                Ok(None) => {},
                Ok(Some((reference, left))) => {
                    record(&mut pairs, reference, left);
                },
            }
            proof {
                taken@ = taken@.push(line);
                if nl < len {
                    assert(lines(text@) == taken@ + lines(text@.subrange(nl + 1, len as int)));
                } else {
                    assert(lines(text@) == taken@ + lines(text@.subrange(len as int, len as int)));
                }
            }
            at = if nl < len {
                nl + 1
            } else {
                len
            };
        }
        proof {
            assert(text@.subrange(len as int, len as int) =~= Seq::<char>::empty());
            assert(taken@ + Seq::<Seq<char>>::empty() == taken@);
        }
        Ok(Refs { written: Some(pairs) })
    }

    /// A `refs` file saying `left`, a line per pair, in the order given.
    pub fn write(left: &[(String, Left)]) -> (text: String)
        ensures
            text@ == rendered(record_view(left@)),
    {
        let mut text = String::new();
        let mut at: usize = 0;
        proof {
            assert(record_view(left@).subrange(0, 0) =~= Seq::<(Seq<char>, LeftView)>::empty());
        }
        while at < left.len()
            invariant
                at <= left@.len(),
                text@ == rendered(record_view(left@).subrange(0, at as int)),
            decreases left@.len() - at,
        {
            text.append(left[at].0.as_str());
            text.append(" ");
            text.append(left[at].1.oid.as_str());
            if left[at].1.made {
                text.append(" made");
            }
            text.append("\n");
            proof {
                reveal_strlit(" ");
                reveal_strlit(" made");
                reveal_strlit("\n");
                let v = record_view(left@);
                assert(v.subrange(0, at + 1).drop_last() =~= v.subrange(0, at as int));
                assert(v.subrange(0, at + 1).last() == v[at as int]);
                assert(v[at as int] == (left@[at as int].0@, left@[at as int].1@));
            }
            at = at + 1;
        }
        proof {
            assert(record_view(left@).subrange(0, left@.len() as int) =~= record_view(left@));
        }
        text
    }
}

/// The lines from `at` on: the first, and the lines after its newline.
pub proof fn lemma_lines_step(text: Seq<char>, at: int)
    requires
        0 <= at < text.len(),
    ensures
        ({
            let nl = find_char(text, at, '\n');
            let end = if nl < text.len() && nl > at && text[nl - 1] == '\r' {
                nl - 1
            } else {
                nl
            };
            lines(text.subrange(at, text.len() as int)) == seq![text.subrange(at, end)] + if nl
                < text.len() {
                lines(text.subrange(nl + 1, text.len() as int))
            } else {
                Seq::empty()
            }
        }),
{
    let len = text.len() as int;
    let rest = text.subrange(at, len);
    let nl = find_char(text, at, '\n');
    lemma_find_char_shift(text, at, at, '\n');
    lemma_find_char(text, at, '\n');
    let raw = rest.subrange(0, nl - at);
    assert(raw =~= text.subrange(at, nl));
    if nl < len {
        assert(rest.subrange(nl - at + 1, rest.len() as int) =~= text.subrange(nl + 1, len));
        if nl > at && text[nl - 1] == '\r' {
            assert(raw.drop_last() =~= text.subrange(at, nl - 1));
        }
    } else {
        assert(seq![raw] + Seq::<Seq<char>>::empty() =~= seq![raw]);
    }
}

/// A refusal part way through a file's lines is the refusal of the file.
proof fn lemma_refs_stop(lines: Seq<Seq<char>>, n: int)
    requires
        0 <= n <= lines.len(),
        refs_fold(lines.subrange(0, n)) is Err,
    ensures
        refs_fold(lines) == refs_fold(lines.subrange(0, n)),
    decreases lines.len() - n,
{
    if n < lines.len() {
        assert(lines.subrange(0, n + 1).drop_last() =~= lines.subrange(0, n));
        lemma_refs_stop(lines, n + 1);
    } else {
        assert(lines.subrange(0, n) =~= lines);
    }
}


// ---------------------------------------------------------------------------
// What the record promises
// ---------------------------------------------------------------------------

/// A word with something in it and no white space: what a ref name and an
/// object ID are.
pub open spec fn word(w: Seq<char>) -> bool {
    w.len() > 0 && forall|i: int| 0 <= i < w.len() ==> !white(#[trigger] w[i])
}

proof fn lemma_lines_append(a: Seq<char>, b: Seq<char>)
    requires
        a.len() == 0 || a.last() == '\n',
    ensures
        lines(a + b) == lines(a) + lines(b),
    decreases a.len(),
{
    if a.len() == 0 {
        assert(a + b =~= b);
        assert(lines(a) =~= Seq::<Seq<char>>::empty());
        assert(lines(b) =~= Seq::<Seq<char>>::empty() + lines(b));
    } else {
        let ab = a + b;
        lemma_find_char(a, 0, '\n');
        let nl = find_char(a, 0, '\n');
        assert(nl < a.len()) by {
            if nl == a.len() {
                assert(a[a.len() - 1] == '\n');
            }
        }
        lemma_find_char_at(ab, 0, nl, '\n');
        assert(ab.subrange(0, nl) =~= a.subrange(0, nl));
        let rest_a = a.subrange(nl + 1, a.len() as int);
        assert(ab.subrange(nl + 1, ab.len() as int) =~= rest_a + b);
        if rest_a.len() > 0 {
            assert(rest_a.last() == a.last());
        }
        lemma_lines_append(rest_a, b);
        assert(lines(ab) == lines(a) + lines(b));
    }
}

pub proof fn lemma_find_char_at(text: Seq<char>, from: int, at: int, c: char)
    requires
        0 <= from <= at < text.len(),
        text[at] == c,
        forall|i: int| from <= i < at ==> text[i] != c,
    ensures
        find_char(text, from, c) == at,
    decreases at - from,
{
    if from < at {
        lemma_find_char_at(text, from + 1, at, c);
    }
}

proof fn lemma_line(pair: (Seq<char>, LeftView))
    requires
        word(pair.0),
        word(pair.1.oid),
    ensures
        lines(ref_line(pair) + seq!['\n']) == seq![ref_line(pair)],
        !blank(ref_line(pair)),
        split_space(ref_line(pair)) == Some(
            (
                pair.0,
                pair.1.oid + if pair.1.made {
                    seq![' ', 'm', 'a', 'd', 'e']
                } else {
                    Seq::empty()
                },
            ),
        ),
        left_of(
            pair.1.oid + if pair.1.made {
                seq![' ', 'm', 'a', 'd', 'e']
            } else {
                Seq::empty()
            },
        ) == Some(pair.1),
{
    let key = pair.0;
    let oid = pair.1.oid;
    let tail: Seq<char> = if pair.1.made { seq![' ', 'm', 'a', 'd', 'e'] } else { Seq::empty() };
    let value = oid + tail;
    let line = ref_line(pair);
    assert(line =~= key + seq![' '] + value);
    let text = line + seq!['\n'];
    assert forall|i: int| 0 <= i < line.len() implies line[i] != '\n' && (i == line.len() - 1
        ==> line[i] != '\r') by {
        if i < key.len() {
            assert(line[i] == key[i]);
            assert(!white(key[i]));
        } else if i > key.len() {
            assert(line[i] == value[i - key.len() - 1]);
            if i - key.len() - 1 < oid.len() {
                assert(value[i - key.len() - 1] == oid[i - key.len() - 1]);
                assert(!white(oid[i - key.len() - 1]));
            } else {
                assert(value[i - key.len() - 1] == tail[i - key.len() - 1 - oid.len()]);
            }
        }
    }
    lemma_find_char_at(text, 0, line.len() as int, '\n');
    assert(text.subrange(0, line.len() as int) =~= line);
    assert(text.subrange(line.len() + 1int, text.len() as int) =~= Seq::<char>::empty());
    assert(line.len() > 0);
    assert(line.last() != '\r');
    assert(lines(Seq::<char>::empty()) =~= Seq::<Seq<char>>::empty());
    assert(lines(text) == seq![line] + lines(Seq::<char>::empty()));
    assert(lines(text) =~= seq![line]);
    assert(!white(line[0])) by {
        assert(line[0] == key[0]);
    }
    assert forall|i: int| 0 <= i < key.len() implies line[i] != ' ' by {
        assert(line[i] == key[i]);
        assert(!white(key[i]));
    }
    lemma_find_char_at(line, 0, key.len() as int, ' ');
    assert(line.subrange(0, key.len() as int) =~= key);
    assert(line.subrange(key.len() + 1int, line.len() as int) =~= value);
    assert forall|i: int| 0 <= i < oid.len() implies value[i] != ' ' by {
        assert(value[i] == oid[i]);
        assert(!white(oid[i]));
    }
    if pair.1.made {
        lemma_find_char_at(value, 0, oid.len() as int, ' ');
        assert(value.subrange(0, oid.len() as int) =~= oid);
        assert(value.subrange(oid.len() + 1int, value.len() as int) =~= seq!['m', 'a', 'd', 'e']);
    } else {
        assert(value =~= oid);
        lemma_find_char(value, 0, ' ');
        assert(find_char(value, 0, ' ') == value.len()) by {
            if find_char(value, 0, ' ') < value.len() {
                assert(value[find_char(value, 0, ' ')] == ' ');
            }
        }
    }
}

/// A record reads back as it was written: every ref, and where it was left,
/// for refs and object IDs that are words — which git's ref names and object
/// IDs are — each ref once.
pub proof fn a_record_reads_back_as_it_was_written(pairs: Seq<(Seq<char>, LeftView)>)
    requires
        unique(pairs),
        forall|i: int| 0 <= i < pairs.len() ==> word(#[trigger] pairs[i].0) && word(pairs[i].1.oid),
    ensures
        refs_from(lines(rendered(pairs))) == Ok::<Map<Seq<char>, LeftView>, ErrorView>(as_map(pairs)),
{
    lemma_reads_back(pairs);
    lemma_fold_splits(lines(rendered(pairs)));
}

/// Lines [`refs_fold`] reads whole all split at a space.
proof fn lemma_fold_splits(lines: Seq<Seq<char>>)
    requires
        refs_fold(lines) is Ok,
    ensures
        pairs_of(lines, REFS@) is Ok,
    decreases lines.len(),
{
    if lines.len() > 0 {
        lemma_fold_splits(lines.drop_last());
    }
}

proof fn lemma_reads_back(pairs: Seq<(Seq<char>, LeftView)>)
    requires
        unique(pairs),
        forall|i: int| 0 <= i < pairs.len() ==> word(#[trigger] pairs[i].0) && word(pairs[i].1.oid),
    ensures
        refs_fold(lines(rendered(pairs))) == Ok::<Map<Seq<char>, LeftView>, ErrorView>(as_map(pairs)),
    decreases pairs.len(),
{
    if pairs.len() == 0 {
        assert(lines(rendered(pairs)) =~= Seq::<Seq<char>>::empty());
        assert(as_map(pairs) =~= Map::<Seq<char>, LeftView>::empty());
    } else {
        let earlier = pairs.drop_last();
        let last = pairs.last();
        assert(unique(earlier)) by {
            assert forall|a: int, b: int| 0 <= a < b < earlier.len() implies #[trigger] earlier[a].0
                != #[trigger] earlier[b].0 by {
                assert(earlier[a] == pairs[a] && earlier[b] == pairs[b]);
            }
        }
        assert forall|i: int| 0 <= i < earlier.len() implies word(#[trigger] earlier[i].0) && word(
            earlier[i].1.oid,
        ) by {
            assert(earlier[i] == pairs[i]);
        }
        lemma_reads_back(earlier);
        assert(pairs[pairs.len() - 1] == last);
        lemma_line(last);
        let a = rendered(earlier);
        if a.len() > 0 {
            let e2 = earlier.drop_last();
            assert(a == rendered(e2) + ref_line(earlier.last()) + seq!['\n']);
        }
        assert(rendered(pairs) == a + (ref_line(last) + seq!['\n']));
        lemma_lines_append(a, ref_line(last) + seq!['\n']);
        let all = lines(rendered(pairs));
        assert(all == lines(a).push(ref_line(last)));
        assert(all.drop_last() =~= lines(a));
        assert(!crate::table::holds(earlier, last.0)) by {
            assert forall|i: int| 0 <= i < earlier.len() implies #[trigger] earlier[i].0 != last.0 by {
                assert(earlier[i] == pairs[i]);
                assert(pairs[i].0 != pairs[pairs.len() - 1].0);
            }
        }
        lemma_insert(earlier, earlier.len() as int, last.0, last.1);
        assert(earlier.insert(earlier.len() as int, last) =~= pairs);
    }
}


/// Where each line of a text starts and ends, as [`lines`] reads them.
pub fn line_spans(text: &str, chars: &Vec<char>) -> (spans: Vec<(usize, usize)>)
    requires
        chars@ == text@,
    ensures
        spans@.len() == lines(text@).len(),
        forall|i: int| #![trigger spans@[i]] 0 <= i < spans@.len() ==> spans@[i].0 <= spans@[i].1 <= text@.len()
            && text@.subrange(spans@[i].0 as int, spans@[i].1 as int) == lines(text@)[i],
{
    let len = chars.len();
    let mut spans: Vec<(usize, usize)> = Vec::new();
    let mut at: usize = 0;
    let mut taken: Ghost<Seq<Seq<char>>> = Ghost(Seq::empty());
    proof {
        assert(text@.subrange(0, len as int) =~= text@);
    }
    while at < len
        invariant
            chars@ == text@,
            len == text@.len(),
            at <= len,
            lines(text@) == taken@ + lines(text@.subrange(at as int, len as int)),
            spans@.len() == taken@.len(),
            forall|i: int| #![trigger spans@[i]] 0 <= i < spans@.len() ==> spans@[i].0 <= spans@[i].1 <= text@.len()
                && text@.subrange(spans@[i].0 as int, spans@[i].1 as int) == taken@[i],
        decreases len - at,
    {
        let nl = find_char_exec(chars, at, len, '\n');
        proof {
            assert(chars@.subrange(0, len as int) == text@);
            lemma_find_char(text@, at as int, '\n');
            lemma_lines_step(text@, at as int);
        }
        let end = if nl < len && nl > at && chars[nl - 1] == '\r' {
            nl - 1
        } else {
            nl
        };
        let ghost line = text@.subrange(at as int, end as int);
        spans.push((at, end));
        proof {
            taken@ = taken@.push(line);
            if nl < len {
                assert(lines(text@) == taken@ + lines(text@.subrange(nl + 1, len as int)));
            } else {
                assert(text@.subrange(len as int, len as int) =~= Seq::<char>::empty());
                assert(lines(Seq::<char>::empty()) =~= Seq::<Seq<char>>::empty());
                assert(lines(text@) == taken@ + lines(text@.subrange(len as int, len as int)));
            }
        }
        at = if nl < len {
            nl + 1
        } else {
            len
        };
    }
    proof {
        assert(text@.subrange(len as int, len as int) =~= Seq::<char>::empty());
        assert(lines(Seq::<char>::empty()) =~= Seq::<Seq<char>>::empty());
        assert(taken@ + Seq::<Seq<char>>::empty() =~= taken@);
    }
    spans
}

} // verus!

verus! {

// ---------------------------------------------------------------------------
// The commit each written revision became
// ---------------------------------------------------------------------------

/// A `commits` file's lines as pairs: each line that is not blank split at
/// its first space into a revision's digest and the commit it became, or the
/// first line that is not one.
pub open spec fn commits_from(lines: Seq<Seq<char>>) -> Result<Seq<(Seq<char>, Seq<char>)>, ErrorView> {
    pairs_of(lines, COMMITS@)
}

/// The lines of one of the remembered files as `<key> <value>` pairs, blank
/// lines passed over, or the first line that has no space, refused as a line
/// of `file`.
pub open spec fn pairs_of(lines: Seq<Seq<char>>, file: Seq<char>) -> Result<
    Seq<(Seq<char>, Seq<char>)>,
    ErrorView,
>
    decreases lines.len(),
{
    if lines.len() == 0 {
        Ok(Seq::empty())
    } else {
        match pairs_of(lines.drop_last(), file) {
            Err(e) => Err(e),
            Ok(done) => {
                let line = lines.last();
                if blank(line) {
                    Ok(done)
                } else {
                    match split_space(line) {
                        Some(pair) => Ok(done.push(pair)),
                        None => Err(ErrorView::Malformed { file, line }),
                    }
                }
            },
        }
    }
}

/// Pairs of strings, as a contract speaks of them.
pub open spec fn string_pairs(s: Seq<(String, String)>) -> Seq<(Seq<char>, Seq<char>)> {
    s.map_values(|p: (String, String)| (p.0@, p.1@))
}

proof fn lemma_pairs_stop(lines: Seq<Seq<char>>, file: Seq<char>, n: int)
    requires
        0 <= n <= lines.len(),
        pairs_of(lines.subrange(0, n), file) is Err,
    ensures
        pairs_of(lines, file) == pairs_of(lines.subrange(0, n), file),
    decreases lines.len() - n,
{
    if n < lines.len() {
        assert(lines.subrange(0, n + 1).drop_last() =~= lines.subrange(0, n));
        lemma_pairs_stop(lines, file, n + 1);
    } else {
        assert(lines.subrange(0, n) =~= lines);
    }
}

/// Whether the characters from `start` to `end` are all white space.
fn blank_between(chars: &Vec<char>, start: usize, end: usize) -> (all: bool)
    requires
        start <= end <= chars@.len(),
    ensures
        all == blank(chars@.subrange(start as int, end as int)),
{
    let ghost line = chars@.subrange(start as int, end as int);
    let mut at = start;
    while at < end
        invariant
            start <= at <= end <= chars@.len(),
            line == chars@.subrange(start as int, end as int),
            forall|i: int| 0 <= i < at - start ==> white(#[trigger] line[i]),
        decreases end - at,
    {
        if !is_white(chars[at]) {
            proof {
                assert(line[at - start] == chars@[at as int]);
            }
            return false;
        }
        at = at + 1;
    }
    true
}

/// What a `commits` file says: [`commits_from`] its lines.
pub fn read_commits(text: &str) -> (pairs: Result<Vec<(String, String)>, Error>)
    ensures
        match pairs {
            Ok(p) => commits_from(lines(text@)) == Ok::<Seq<(Seq<char>, Seq<char>)>, ErrorView>(
                string_pairs(p@),
            ),
            Err(e) => commits_from(lines(text@)) == Err::<Seq<(Seq<char>, Seq<char>)>, ErrorView>(e@),
        },
{
    split_lines(text, COMMITS)
}

/// The `<key> <value>` pairs of a remembered file's text: [`pairs_of`].
fn split_lines(text: &str, file: &'static str) -> (pairs: Result<Vec<(String, String)>, Error>)
    ensures
        match pairs {
            Ok(p) => pairs_of(lines(text@), file@) == Ok::<Seq<(Seq<char>, Seq<char>)>, ErrorView>(
                string_pairs(p@),
            ),
            Err(e) => pairs_of(lines(text@), file@) == Err::<Seq<(Seq<char>, Seq<char>)>, ErrorView>(e@),
        },
{
    let chars = characters(text);
    let spans = line_spans(text, &chars);
    let ghost all = lines(text@);
    let mut out: Vec<(String, String)> = Vec::new();
    let mut k: usize = 0;
    proof {
        assert(all.subrange(0, 0) =~= Seq::<Seq<char>>::empty());
        assert(string_pairs(out@) =~= Seq::<(Seq<char>, Seq<char>)>::empty());
    }
    while k < spans.len()
        invariant
            chars@ == text@,
            all == lines(text@),
            spans@.len() == all.len(),
            forall|i: int| #![trigger spans@[i]] 0 <= i < spans@.len() ==> spans@[i].0 <= spans@[i].1
                <= text@.len() && text@.subrange(spans@[i].0 as int, spans@[i].1 as int) == all[i],
            k <= spans@.len(),
            pairs_of(all.subrange(0, k as int), file@) == Ok::<Seq<(Seq<char>, Seq<char>)>, ErrorView>(
                string_pairs(out@),
            ),
        decreases spans@.len() - k,
    {
        let (start, end) = spans[k];
        let ghost line = all[k as int];
        proof {
            assert(spans@[k as int] == (start, end));
            assert(all.subrange(0, k + 1).drop_last() =~= all.subrange(0, k as int));
            assert(all.subrange(0, k + 1).last() == line);
            assert(chars@.subrange(start as int, end as int) == line);
        }
        if !blank_between(&chars, start, end) {
            let space = find_char_exec(&chars, start, end, ' ');
            proof {
                lemma_find_char_shift(chars@.subrange(0, end as int), start as int, start as int, ' ');
                assert(chars@.subrange(0, end as int).subrange(start as int, end as int) =~= line);
            }
            if space == end {
                let bad = text.substring_char(start, end).to_owned();
                proof {
                    lemma_pairs_stop(all, file@, k + 1);
                }
                return Err(Error::Malformed { file, line: bad });
            }
            let digest = text.substring_char(start, space).to_owned();
            let oid = text.substring_char(space + 1, end).to_owned();
            proof {
                assert(line.subrange(0, space - start) =~= text@.subrange(start as int, space as int));
                assert(line.subrange(space - start + 1, line.len() as int) =~= text@.subrange(
                    space + 1,
                    end as int,
                ));
                assert(string_pairs(out@.push((digest, oid))) =~= string_pairs(out@).push(
                    (digest@, oid@),
                ));
            }
            out.push((digest, oid));
        }
        k = k + 1;
    }
    proof {
        assert(all.subrange(0, spans@.len() as int) =~= all);
    }
    Ok(out)
}

/// One `commits` line: the revision's digest, a space, the commit.
pub open spec fn commit_line(pair: (Seq<char>, Seq<char>)) -> Seq<char> {
    pair.0 + seq![' '] + pair.1
}

/// A `commits` file saying `pairs`, a line each, in the order given.
pub open spec fn commits_rendered(pairs: Seq<(Seq<char>, Seq<char>)>) -> Seq<char>
    decreases pairs.len(),
{
    if pairs.len() == 0 {
        Seq::empty()
    } else {
        commits_rendered(pairs.drop_last()) + commit_line(pairs.last()) + seq!['\n']
    }
}

/// A `commits` file saying `pairs`: [`commits_rendered`].
pub fn write_commits(pairs: &[(String, String)]) -> (text: String)
    ensures
        text@ == commits_rendered(string_pairs(pairs@)),
{
    let mut text = String::new();
    let mut at: usize = 0;
    proof {
        reveal_strlit(" ");
        reveal_strlit("\n");
        assert(string_pairs(pairs@).subrange(0, 0) =~= Seq::<(Seq<char>, Seq<char>)>::empty());
    }
    while at < pairs.len()
        invariant
            at <= pairs@.len(),
            text@ == commits_rendered(string_pairs(pairs@).subrange(0, at as int)),
            " "@ == seq![' '],
            "\n"@ == seq!['\n'],
        decreases pairs@.len() - at,
    {
        text.append(pairs[at].0.as_str());
        text.append(" ");
        text.append(pairs[at].1.as_str());
        text.append("\n");
        proof {
            let s = string_pairs(pairs@).subrange(0, at + 1);
            assert(s.drop_last() =~= string_pairs(pairs@).subrange(0, at as int));
            assert(s.last() == (pairs@[at as int].0@, pairs@[at as int].1@));
        }
        at = at + 1;
    }
    proof {
        assert(string_pairs(pairs@).subrange(0, pairs@.len() as int) =~= string_pairs(pairs@));
    }
    text
}

} // verus!
