//! Writing a store out as a git repository: the rules.
//!
//! The conversion itself walks the store and sends `git fast-import` a
//! stream; what is here is what it decides on the way — which ref moves and
//! which is held back, which branch a fresh repository has checked out, what a
//! bookmark's name becomes as a ref, what git's marks file says, and what the
//! record of a repository says after a write.

use vstd::prelude::*;
use vstd::string::StringSliceAdditionalSpecFns;

use crate::plumbing::{Pointed, PointedView};
use crate::remembered::{lines, split_space, white, Left, LeftView};
use crate::stream::{DataRef, DataRefView, Mark};
use crate::flags::count;
use crate::table::{as_map, lemma_insert, lemma_update, unique};

pub mod files;

verus! {

/// Where every commit is parked while the stream is written.
pub const STAGING: &'static str = "refs/historica/staging";

/// Where a head no bookmark names is left, so that nothing written is
/// unreachable.
pub const UNNAMED: &'static str = "refs/historica/heads";

/// Where a bookmark on a change goes: a branch, which moves as the work does.
pub const HEADS: &'static str = "refs/heads/";

/// Where a bookmark on a revision goes: a tag, which is pinned and does not.
pub const TAGS: &'static str = "refs/tags/";

// ---------------------------------------------------------------------------
// Which ref moves
// ---------------------------------------------------------------------------

/// Why a ref the store names was not moved.
#[derive(Clone, Copy, PartialEq, Eq, Debug, Structural)]
pub enum HeldBack {
    /// Git deleted it since the last write, and the store still names it.
    DeletedInGit,
    /// Git has it as an annotated tag, an object of its own.
    Annotated,
    /// Git moved it since the last write.
    MovedInGit,
    /// Git already has it pointing elsewhere, and this tool never wrote it.
    NotOurs,
}

impl HeldBack {
    /// What a person is told.
    pub fn reason(self) -> (said: &'static str)
        ensures
            said@ == reason_text(self),
    {
        match self {
            HeldBack::DeletedInGit => "git deleted it since the last write, and the store still names it; `import` carries the deletion across, or point the bookmark somewhere and write again",
            HeldBack::Annotated => "git has it as an annotated tag, which is an object of its own and not this tool's to replace",
            HeldBack::MovedInGit => "git moved it since the last write; `import` first, so that the store sees where it went",
            HeldBack::NotOurs => "git already has it, pointing elsewhere, and this tool never wrote it; `import` first, so that the store sees it",
        }
    }
}

/// What a person is told of a ref held back.
pub open spec fn reason_text(why: HeldBack) -> Seq<char> {
    match why {
        HeldBack::DeletedInGit => "git deleted it since the last write, and the store still names it; `import` carries the deletion across, or point the bookmark somewhere and write again"@,
        HeldBack::Annotated => "git has it as an annotated tag, which is an object of its own and not this tool's to replace"@,
        HeldBack::MovedInGit => "git moved it since the last write; `import` first, so that the store sees where it went"@,
        HeldBack::NotOurs => "git already has it, pointing elsewhere, and this tool never wrote it; `import` first, so that the store sees it"@,
    }
}

/// What to do with one ref the store names.
#[derive(Clone, Copy, PartialEq, Eq, Debug, Structural)]
pub enum Decided {
    /// Point it where the store says.
    Move,
    /// It is there already.
    Already,
    /// Leave it, and say why.
    HeldBack(HeldBack),
}

/// The rule for one ref: the side that moved it since the last write is the
/// side that is right, and git having moved it is a reason to `import` before
/// writing rather than a reason to overwrite.
///
/// `now` is where git has the ref, `left` where the last write left it, and
/// `target` where the store would put it.
pub open spec fn decided(now: Option<PointedView>, left: Option<Seq<char>>, target: DataRefView) -> Decided {
    match now {
        None => match left {
            Some(_) => Decided::HeldBack(HeldBack::DeletedInGit),
            None => Decided::Move,
        },
        Some(pointed) => if pointed.annotated {
            Decided::HeldBack(HeldBack::Annotated)
        } else if target == DataRefView::Oid(pointed.commit) {
            Decided::Already
        } else {
            match left {
                Some(left) => if left == pointed.commit {
                    Decided::Move
                } else {
                    Decided::HeldBack(HeldBack::MovedInGit)
                },
                None => Decided::HeldBack(HeldBack::NotOurs),
            }
        },
    }
}

/// Decide what to do with one ref the store names.
pub fn decide(now: Option<&Pointed>, left: Option<&str>, target: &DataRef) -> (d: Decided)
    ensures
        d == decided(
            match now {
                Some(p) => Some(p@),
                None => None,
            },
            match left {
                Some(l) => Some(l@),
                None => None,
            },
            target@,
        ),
{
    match now {
        None => match left {
            Some(_) => Decided::HeldBack(HeldBack::DeletedInGit),
            None => Decided::Move,
        },
        Some(pointed) => {
            if pointed.annotated {
                return Decided::HeldBack(HeldBack::Annotated);
            }
            if let DataRef::Oid(oid) = target {
                if *oid == pointed.commit {
                    return Decided::Already;
                }
            }
            match left {
                Some(left) => {
                    let left = left.to_owned();
                    if left == pointed.commit {
                        Decided::Move
                    } else {
                        Decided::HeldBack(HeldBack::MovedInGit)
                    }
                },
                None => Decided::HeldBack(HeldBack::NotOurs),
            }
        },
    }
}

/// A write never overwrites what git changed: where git has a ref somewhere
/// other than the last write left it — moved, deleted, or never this tool's —
/// the ref is not moved, and an annotated tag is never moved at all.
pub proof fn a_write_never_overwrites_what_git_moved(
    now: Option<PointedView>,
    left: Option<Seq<char>>,
    target: DataRefView,
)
    ensures
        decided(now, left, target) == Decided::Move ==> match now {
            None => left is None,
            Some(pointed) => !pointed.annotated && left == Some(pointed.commit),
        },
        now matches Some(pointed) && pointed.annotated ==> decided(now, left, target) matches Decided::HeldBack(_),
{
}

/// A ref git has where the last write left it moves to where the store says,
/// and one that is nowhere on either side is made.
pub proof fn a_ref_only_the_store_moved_moves(
    now: Option<PointedView>,
    left: Option<Seq<char>>,
    target: DataRefView,
)
    ensures
        (now is None && left is None) ==> decided(now, left, target) == Decided::Move,
        (now matches Some(pointed) && !pointed.annotated && left == Some(pointed.commit) && target
            != DataRefView::Oid(pointed.commit)) ==> decided(now, left, target) == Decided::Move,
        (now matches Some(pointed) && !pointed.annotated && target == DataRefView::Oid(pointed.commit))
            ==> decided(now, left, target) == Decided::Already,
{
}

// ---------------------------------------------------------------------------
// The branch a fresh repository has checked out
// ---------------------------------------------------------------------------

/// Which branch a fresh repository has checked out: `main`, then `master`,
/// then the first there is.
pub open spec fn checked_out_of(branches: Seq<Seq<char>>) -> Option<Seq<char>> {
    if branches.contains("main"@) {
        Some("main"@)
    } else if branches.contains("master"@) {
        Some("master"@)
    } else if branches.len() > 0 {
        Some(branches[0])
    } else {
        None
    }
}

/// Which branch a fresh repository has checked out.
///
/// Nothing in the store says, so the conversion picks and says which. `main`
/// and then `master` before anything else, because they are what a person means
/// by "the branch" and taking the first in name order would not be: once a
/// bookmark's name may hold a `/`, `scratch/something` sorts above `main`, and a
/// conversion that checked out somebody's scratch branch would be technically
/// arbitrary and practically wrong.
pub fn checked_out(branches: &[String]) -> (branch: Option<String>)
    ensures
        match branch {
            Some(b) => checked_out_of(branches@.map_values(|s: String| s@)) == Some(b@),
            None => checked_out_of(branches@.map_values(|s: String| s@)) is None,
        },
{
    let ghost names = branches@.map_values(|s: String| s@);
    let main = String::from_str("main");
    let master = String::from_str("master");
    let mut at: usize = 0;
    while at < branches.len()
        invariant
            at <= branches@.len(),
            names == branches@.map_values(|s: String| s@),
            main@ == "main"@,
            forall|i: int| 0 <= i < at ==> names[i] != "main"@,
        decreases branches@.len() - at,
    {
        if branches[at] == main {
            proof {
                assert(names[at as int] == "main"@);
                assert(names.contains("main"@));
            }
            return Some(main);
        }
        at = at + 1;
    }
    proof {
        assert(!names.contains("main"@));
    }
    let mut at: usize = 0;
    while at < branches.len()
        invariant
            at <= branches@.len(),
            names == branches@.map_values(|s: String| s@),
            master@ == "master"@,
            !names.contains("main"@),
            forall|i: int| 0 <= i < at ==> names[i] != "master"@,
        decreases branches@.len() - at,
    {
        if branches[at] == master {
            proof {
                assert(names[at as int] == "master"@);
                assert(names.contains("master"@));
            }
            return Some(master);
        }
        at = at + 1;
    }
    proof {
        assert(!names.contains("master"@));
    }
    if branches.len() > 0 {
        proof {
            assert(names[0] == branches@[0]@);
        }
        Some(branches[0].clone())
    } else {
        None
    }
}

// ---------------------------------------------------------------------------
// A bookmark's name as a ref
// ---------------------------------------------------------------------------

/// A control character, as `char::is_control` has them: U+0000 to U+001F and
/// U+007F to U+009F.
pub open spec fn control(c: char) -> bool {
    ('\u{0}' <= c && c <= '\u{1f}') || ('\u{7f}' <= c && c <= '\u{9f}')
}

/// A character no ref name may hold.
pub open spec fn refused_char(c: char) -> bool {
    control(c) || c == ' ' || c == '~' || c == '^' || c == ':' || c == '?' || c == '*' || c == '['
        || c == '\\'
}

/// Whether `text` holds `part` anywhere.
pub open spec fn holds_part(text: Seq<char>, part: Seq<char>) -> bool {
    exists|i: int| 0 <= i && i + part.len() <= text.len() && #[trigger] text.subrange(i, i + part.len()) == part
}

/// Whether git would refuse a ref by this name.
pub open spec fn refused_name(name: Seq<char>) -> bool {
    ||| name.len() == 0
    ||| name[0] == '-'
    ||| name[0] == '.'
    ||| name.last() == '.'
    ||| (name.len() >= 5 && name.subrange(name.len() - 5, name.len() as int) == ".lock"@)
    ||| name.last() == '/'
    ||| holds_part(name, ".."@)
    ||| holds_part(name, "//"@)
    ||| holds_part(name, "@{"@)
    ||| exists|i: int| 0 <= i < name.len() && refused_char(#[trigger] name[i])
}

fn is_refused_char(c: char) -> (refused: bool)
    ensures
        refused == refused_char(c),
{
    (c <= '\u{1f}') || ('\u{7f}' <= c && c <= '\u{9f}') || c == ' ' || c == '~' || c == '^' || c
        == ':' || c == '?' || c == '*' || c == '[' || c == '\\'
}

/// Whether the pair of characters `a`, `b` stands anywhere in `chars`.
fn has_pair(chars: &Vec<char>, a: char, b: char) -> (found: bool)
    ensures
        found == holds_part(chars@, seq![a, b]),
{
    let mut at: usize = 0;
    let n = chars.len();
    while at < n && n - at >= 2
        invariant
            n == chars@.len(),
            at <= n,
            forall|i: int| 0 <= i < at && i + 1 < chars@.len() ==> !(#[trigger] chars@[i] == a && chars@[i + 1] == b),
        decreases chars@.len() - at,
    {
        if chars[at] == a && chars[at + 1] == b {
            proof {
                assert(chars@.subrange(at as int, at + 2) =~= seq![a, b]);
            }
            return true;
        }
        at = at + 1;
    }
    proof {
        let pair = seq![a, b];
        assert forall|i: int| 0 <= i && i + pair.len() <= chars@.len() implies #[trigger] chars@.subrange(i, i + pair.len()) != pair by {
            assert(i < at);
            assert(chars@.subrange(i, i + 2)[0] == chars@[i]);
            assert(chars@.subrange(i, i + 2)[1] == chars@[i + 1]);
            assert(!(chars@[i] == a && chars@[i + 1] == b));
        }
    }
    false
}

/// A bookmark's name as a git ref under `directory`, or nothing where git
/// would refuse it.
pub fn git_ref(directory: &str, name: &str) -> (reference: Option<String>)
    ensures
        match reference {
            Some(r) => !refused_name(name@) && r@ == directory@ + name@,
            None => refused_name(name@),
        },
{
    let chars = crate::remembered::characters(name);
    let n = chars.len();
    proof {
        reveal_strlit(".lock");
        reveal_strlit("..");
        reveal_strlit("//");
        reveal_strlit("@{");
        assert(".."@ =~= seq!['.', '.']);
        assert("//"@ =~= seq!['/', '/']);
        assert("@{"@ =~= seq!['@', '{']);
    }
    let mut refused = n == 0 || chars[0] == '-' || chars[0] == '.' || chars[n - 1] == '.' || chars[n
        - 1] == '/';
    if !refused && n >= 5 {
        let lock = chars[n - 5] == '.' && chars[n - 4] == 'l' && chars[n - 3] == 'o' && chars[n - 2]
            == 'c' && chars[n - 1] == 'k';
        proof {
            let tail = chars@.subrange(n - 5, n as int);
            if lock {
                assert(tail =~= ".lock"@);
            } else {
                assert(tail[0] == chars@[n - 5]);
                assert(tail[1] == chars@[n - 4]);
                assert(tail[2] == chars@[n - 3]);
                assert(tail[3] == chars@[n - 2]);
                assert(tail[4] == chars@[n - 1]);
                assert(tail != ".lock"@);
            }
        }
        refused = lock;
    }
    if !refused {
        refused = has_pair(&chars, '.', '.') || has_pair(&chars, '/', '/') || has_pair(&chars, '@', '{');
    }
    if !refused {
        let mut at: usize = 0;
        while at < n
            invariant
                n == chars@.len(),
                chars@ == name@,
                at <= n,
                forall|i: int| 0 <= i < at ==> !refused_char(#[trigger] chars@[i]),
            decreases n - at,
        {
            if is_refused_char(chars[at]) {
                proof {
                    assert(refused_char(chars@[at as int]));
                }
                return None;
            }
            at = at + 1;
        }
    }
    if refused {
        return None;
    }
    let mut reference = String::from_str(directory);
    reference.append(name);
    Some(reference)
}

// ---------------------------------------------------------------------------
// The marks git exported
// ---------------------------------------------------------------------------

/// One line of the marks file: `:<mark> <oid>`, or nothing where the line is
/// not one.
pub open spec fn mark_line(line: Seq<char>) -> Option<(u64, Seq<char>)> {
    match split_space(line) {
        None => None,
        Some((mark, oid)) => if mark.len() > 0 && mark[0] == ':' {
            match crate::stream::text::parse_unsigned(vstd::utf8::encode_utf8(mark.drop_first())) {
                Some(n) => if n <= u64::MAX {
                    Some((n as u64, oid))
                } else {
                    None
                },
                None => None,
            }
        } else {
            None
        },
    }
}

/// What the marks file's lines say, in turn: each mark to the commit git made
/// of it, or the first line that is not one.
pub open spec fn marks_from(lines: Seq<Seq<char>>) -> Result<Map<u64, Seq<char>>, Seq<char>>
    decreases lines.len(),
{
    if lines.len() == 0 {
        Ok(Map::empty())
    } else {
        match marks_from(lines.drop_last()) {
            Err(line) => Err(line),
            Ok(so_far) => {
                let line = lines.last();
                if crate::remembered::blank(line) {
                    Ok(so_far)
                } else {
                    match mark_line(line) {
                        None => Err(line),
                        Some((mark, oid)) => Ok(so_far.insert(mark, oid)),
                    }
                }
            },
        }
    }
}


/// Marks, as a contract speaks of them.
pub open spec fn marks_view(s: Seq<(Mark, String)>) -> Seq<(u64, Seq<char>)> {
    s.map_values(|p: (Mark, String)| (p.0.0, p.1@))
}

fn put_mark(pairs: &mut Vec<(Mark, String)>, mark: Mark, oid: String)
    requires
        unique(marks_view(old(pairs)@)),
    ensures
        unique(marks_view(final(pairs)@)),
        as_map(marks_view(final(pairs)@)) == as_map(marks_view(old(pairs)@)).insert(mark.0, oid@),
{
    let ghost was = marks_view(pairs@);
    let ghost v = oid@;
    let mut at: usize = 0;
    while at < pairs.len()
        invariant
            at <= pairs@.len(),
            was == marks_view(pairs@),
            pairs@ == old(pairs)@,
            unique(was),
            v == oid@,
            forall|i: int| 0 <= i < at ==> #[trigger] marks_view(pairs@)[i].0 != mark.0,
        decreases pairs@.len() - at,
    {
        if pairs[at].0.0 == mark.0 {
            assert(was[at as int].0 == mark.0);
            let ghost before = pairs@;
            let ghost pair = (mark, oid);
            pairs.set(at, (mark, oid));
            proof {
                assert(pairs@ == before.update(at as int, pair));
                lemma_update(was, at as int, v);
                assert(marks_view(pairs@) =~= was.update(at as int, (was[at as int].0, v)));
            }
            return;
        }
        at = at + 1;
    }
    let end = pairs.len();
    pairs.push((mark, oid));
    proof {
        lemma_insert(was, end as int, mark.0, v);
        assert(marks_view(pairs@) =~= was.insert(end as int, (mark.0, v)));
    }
}

/// One line of the marks file, read.
fn mark_of(text: &str, chars: &Vec<char>, start: usize, end: usize) -> (r: Option<(Mark, String)>)
    requires
        start <= end <= chars@.len(),
        chars@ == text@,
    ensures
        match r {
            Some((mark, oid)) => mark_line(text@.subrange(start as int, end as int)) == Some((mark.0, oid@)),
            None => mark_line(text@.subrange(start as int, end as int)) is None,
        },
{
    let ghost line = text@.subrange(start as int, end as int);
    let space = crate::remembered::find_char_exec(chars, start, end, ' ');
    proof {
        crate::remembered::lemma_find_char_shift(chars@.subrange(0, end as int), start as int, start as int, ' ');
        assert(chars@.subrange(0, end as int).subrange(start as int, end as int) =~= line);
    }
    if space == end {
        return None;
    }
    if space == start || chars[start] != ':' {
        proof {
            if space > start {
                assert(line[0] == chars@[start as int]);
            }
        }
        return None;
    }
    let number = text.substring_char(start + 1, space).to_owned();
    proof {
        assert(line.subrange(0, space - start).drop_first() =~= text@.subrange(start + 1, space as int));
        assert(line.subrange(0, space - start)[0] == chars@[start as int]);
    }
    let bytes = number.as_str().as_bytes();
    let begin: usize = if bytes.len() > 0 && bytes[0] == 0x2b {
        1
    } else {
        0
    };
    proof {
        if begin == 1 {
            assert(bytes@.subrange(1, bytes@.len() as int) =~= bytes@.drop_first());
        } else {
            assert(bytes@.subrange(0, bytes@.len() as int) =~= bytes@);
        }
    }
    let value = match crate::stream::text::read_digits(bytes, begin, bytes.len()) {
        Some(value) => value,
        None => return None,
    };
    let oid = text.substring_char(space + 1, end).to_owned();
    proof {
        assert(line.subrange(space - start + 1, line.len() as int) =~= text@.subrange(space + 1, end as int));
    }
    Some((Mark(value), oid))
}

/// The marks file `git fast-import --export-marks` writes: `:<mark> <oid>`
/// a line — each mark to the commit git made of it, or the first line that
/// is not one.
pub fn marks(text: &str) -> (marks: Result<Vec<(Mark, String)>, String>)
    ensures
        match marks {
            Ok(m) => unique(marks_view(m@)) && marks_from(lines(text@)) == Ok::<Map<u64, Seq<char>>, Seq<char>>(
                as_map(marks_view(m@)),
            ),
            Err(line) => marks_from(lines(text@)) == Err::<Map<u64, Seq<char>>, Seq<char>>(line@),
        },
{
    let chars = crate::remembered::characters(text);
    let spans = crate::remembered::line_spans(text, &chars);
    let ghost all = lines(text@);
    let mut found: Vec<(Mark, String)> = Vec::new();
    let mut at: usize = 0;
    proof {
        assert(as_map(marks_view(found@)) =~= Map::<u64, Seq<char>>::empty());
    }
    while at < spans.len()
        invariant
            chars@ == text@,
            all == lines(text@),
            at <= spans@.len(),
            spans@.len() == all.len(),
            forall|i: int| #![trigger spans@[i]] 0 <= i < spans@.len() ==> spans@[i].0 <= spans@[i].1
                <= text@.len() && text@.subrange(spans@[i].0 as int, spans@[i].1 as int) == all[i],
            unique(marks_view(found@)),
            marks_from(all.subrange(0, at as int)) == Ok::<Map<u64, Seq<char>>, Seq<char>>(
                as_map(marks_view(found@)),
            ),
        decreases spans@.len() - at,
    {
        let (start, end) = spans[at];
        let ghost line = all[at as int];
        proof {
            assert(all.subrange(0, at + 1).drop_last() =~= all.subrange(0, at as int));
            assert(all.subrange(0, at + 1).last() == line);
        }
        let mut k = start;
        while k < end && crate::remembered::is_white(chars[k])
            invariant
                start <= k <= end <= chars@.len(),
                chars@ == text@,
                line == text@.subrange(start as int, end as int),
                forall|i: int| 0 <= i < k - start ==> white(#[trigger] line[i]),
            decreases end - k,
        {
            k = k + 1;
        }
        if k < end {
            proof {
                assert(!white(line[k - start]));
            }
            match mark_of(text, &chars, start, end) {
                Some((mark, oid)) => put_mark(&mut found, mark, oid),
                None => {
                    proof {
                        assert(all.subrange(0, at + 1) =~= all.subrange(0, at as int).push(line));
                        lemma_marks_stop(all, at + 1);
                    }
                    return Err(text.substring_char(start, end).to_owned());
                },
            }
        }
        at = at + 1;
    }
    proof {
        assert(all.subrange(0, spans@.len() as int) =~= all);
    }
    Ok(found)
}

proof fn lemma_marks_stop(lines: Seq<Seq<char>>, n: int)
    requires
        0 <= n <= lines.len(),
        marks_from(lines.subrange(0, n)) is Err,
    ensures
        marks_from(lines) == marks_from(lines.subrange(0, n)),
    decreases lines.len() - n,
{
    if n < lines.len() {
        assert(lines.subrange(0, n + 1).drop_last() =~= lines.subrange(0, n));
        lemma_marks_stop(lines, n + 1);
    } else {
        assert(lines.subrange(0, n) =~= lines);
    }
}


// ---------------------------------------------------------------------------
// What the repository's record says after a write
// ---------------------------------------------------------------------------

/// The commit a ref now names: an object ID as it stands, a mark as the
/// commit git made of it.
pub open spec fn oid_for(target: DataRefView, marks: Map<u64, Seq<char>>) -> Option<Seq<char>> {
    match target {
        DataRefView::Oid(oid) => Some(oid),
        DataRefView::Mark(mark) => if marks.contains_key(mark.0) {
            Some(marks[mark.0])
        } else {
            None
        },
    }
}

/// The record once each ref this write answers for, in turn, is entered:
/// where it now points, and whether this tool made it — moved this time, or
/// made by an earlier write.
pub open spec fn entered(
    record: Map<Seq<char>, LeftView>,
    before: Map<Seq<char>, LeftView>,
    ours: Seq<(Seq<char>, DataRefView)>,
    moved: Seq<Seq<char>>,
    marks: Map<u64, Seq<char>>,
) -> Map<Seq<char>, LeftView>
    decreases ours.len(),
{
    if ours.len() == 0 {
        record
    } else {
        let earlier = entered(record, before, ours.drop_last(), moved, marks);
        let (reference, target) = ours.last();
        match oid_for(target, marks) {
            None => earlier,
            Some(oid) => earlier.insert(
                reference,
                LeftView {
                    oid,
                    made: moved.contains(reference) || (before.contains_key(reference)
                        && before[reference].made),
                },
            ),
        }
    }
}

/// The record carried forward, not rewritten: a ref held back keeps the line
/// that held it back, or the next write would forget why and undo a deletion
/// somebody meant. What this write moved is marked as made; what it merely
/// found in agreement keeps whatever it was; what it deleted is forgotten.
pub open spec fn carried_forward(
    before: Option<Map<Seq<char>, LeftView>>,
    ours: Seq<(Seq<char>, DataRefView)>,
    moved: Seq<Seq<char>>,
    deleted: Seq<Seq<char>>,
    marks: Map<u64, Seq<char>>,
) -> Map<Seq<char>, LeftView> {
    let start = match before {
        Some(m) => m,
        None => Map::empty(),
    };
    entered(start, start, ours, moved, marks).remove_keys(deleted.to_set())
}

/// The names in a list of strings.
pub open spec fn names(s: Seq<String>) -> Seq<Seq<char>> {
    s.map_values(|n: String| n@)
}

/// Refs and where they point, as a contract speaks of them.
pub open spec fn targets(s: Seq<(String, DataRef)>) -> Seq<(Seq<char>, DataRefView)> {
    s.map_values(|p: (String, DataRef)| (p.0@, p.1@))
}

fn listed(list: &[String], name: &String) -> (found: bool)
    ensures
        found == names(list@).contains(name@),
{
    let mut at: usize = 0;
    while at < list.len()
        invariant
            at <= list@.len(),
            forall|i: int| 0 <= i < at ==> #[trigger] names(list@)[i] != name@,
        decreases list@.len() - at,
    {
        if list[at] == *name {
            proof {
                assert(names(list@)[at as int] == name@);
            }
            return true;
        }
        at = at + 1;
    }
    false
}

fn mark_oid(marks: &[(Mark, String)], mark: Mark) -> (oid: Option<String>)
    requires
        unique(marks_view(marks@)),
    ensures
        match oid {
            Some(o) => as_map(marks_view(marks@)).contains_key(mark.0) && as_map(marks_view(marks@))[mark.0] == o@,
            None => !as_map(marks_view(marks@)).contains_key(mark.0),
        },
{
    let mut at: usize = 0;
    while at < marks.len()
        invariant
            at <= marks@.len(),
            unique(marks_view(marks@)),
            forall|i: int| 0 <= i < at ==> #[trigger] marks_view(marks@)[i].0 != mark.0,
        decreases marks@.len() - at,
    {
        if marks[at].0.0 == mark.0 {
            proof {
                crate::table::lemma_index(marks_view(marks@), at as int);
            }
            return Some(marks[at].1.clone());
        }
        at = at + 1;
    }
    None
}

fn forget(pairs: &mut Vec<(String, Left)>, reference: &String)
    requires
        crate::remembered::ascending_names(crate::remembered::record_view(old(pairs)@)),
    ensures
        crate::remembered::ascending_names(crate::remembered::record_view(final(pairs)@)),
        unique(crate::remembered::record_view(final(pairs)@)),
        as_map(crate::remembered::record_view(final(pairs)@)) == as_map(
            crate::remembered::record_view(old(pairs)@),
        ).remove(reference@),
{
    let ghost was = crate::remembered::record_view(pairs@);
    proof {
        crate::remembered::lemma_ascending_once(was);
    }
    let mut at: usize = 0;
    while at < pairs.len()
        invariant
            at <= pairs@.len(),
            was == crate::remembered::record_view(pairs@),
            pairs@ == old(pairs)@,
            unique(was),
            crate::remembered::ascending_names(was),
            forall|i: int| 0 <= i < at ==> #[trigger] crate::remembered::record_view(pairs@)[i].0 != reference@,
        decreases pairs@.len() - at,
    {
        if pairs[at].0 == *reference {
            assert(was[at as int].0 == reference@);
            let _ = pairs.remove(at);
            proof {
                crate::table::lemma_remove(was, at as int);
                assert(crate::remembered::record_view(pairs@) =~= was.remove(at as int));
                let t = was.remove(at as int);
                assert forall|i: int, j: int| 0 <= i < j < t.len() implies crate::remembered::name_before(
                    #[trigger] t[i].0,
                    #[trigger] t[j].0,
                ) by {
                    if j < at {
                        assert(t[i] == was[i] && t[j] == was[j]);
                    } else if i < at {
                        assert(t[i] == was[i] && t[j] == was[j + 1]);
                    } else {
                        assert(t[i] == was[i + 1] && t[j] == was[j + 1]);
                    }
                }
            }
            return;
        }
        at = at + 1;
    }
    proof {
        assert(as_map(was).remove(reference@) =~= as_map(was));
    }
}

/// The record a write leaves: [`carried_forward`], in ascending order of ref.
pub fn carry_forward(
    refs: &crate::remembered::Refs,
    ours: &[(String, DataRef)],
    moved: &[String],
    deleted: &[String],
    marks: &[(Mark, String)],
) -> (left: Vec<(String, Left)>)
    requires
        unique(marks_view(marks@)),
    ensures
        unique(crate::remembered::record_view(left@)),
        crate::remembered::ascending_names(crate::remembered::record_view(left@)),
        as_map(crate::remembered::record_view(left@)) == carried_forward(
            refs@,
            targets(ours@),
            names(moved@),
            names(deleted@),
            as_map(marks_view(marks@)),
        ),
{
    let mut left = refs.to_map();
    let ghost start = match refs@ {
        Some(m) => m,
        None => Map::<Seq<char>, LeftView>::empty(),
    };
    proof {
        if refs@ is None {
            assert(as_map(crate::remembered::record_view(left@)) =~= start);
        }
    }
    let ghost mine = targets(ours@);
    let ghost map = as_map(marks_view(marks@));
    let mut at: usize = 0;
    while at < ours.len()
        invariant
            at <= ours@.len(),
            mine == targets(ours@),
            map == as_map(marks_view(marks@)),
            unique(marks_view(marks@)),
            start == (match refs@ {
                Some(m) => m,
                None => Map::<Seq<char>, LeftView>::empty(),
            }),
            unique(crate::remembered::record_view(left@)),
            crate::remembered::ascending_names(crate::remembered::record_view(left@)),
            as_map(crate::remembered::record_view(left@)) == entered(
                start,
                start,
                mine.subrange(0, at as int),
                names(moved@),
                map,
            ),
        decreases ours@.len() - at,
    {
        proof {
            assert(mine.subrange(0, at + 1).drop_last() =~= mine.subrange(0, at as int));
            assert(mine.subrange(0, at + 1).last() == (ours@[at as int].0@, ours@[at as int].1@));
        }
        let reference = &ours[at].0;
        let oid = match &ours[at].1 {
            DataRef::Oid(oid) => Some(oid.clone()),
            DataRef::Mark(mark) => mark_oid(marks, *mark),
        };
        if let Some(oid) = oid {
            let made = listed(moved, reference) || refs.made(reference.as_str());
            crate::remembered::record(&mut left, reference.clone(), Left { oid, made });
        }
        at = at + 1;
    }
    proof {
        assert(mine.subrange(0, ours@.len() as int) =~= mine);
    }
    let ghost entered_all = as_map(crate::remembered::record_view(left@));
    let mut at: usize = 0;
    while at < deleted.len()
        invariant
            at <= deleted@.len(),
            unique(crate::remembered::record_view(left@)),
            crate::remembered::ascending_names(crate::remembered::record_view(left@)),
            as_map(crate::remembered::record_view(left@)) == entered_all.remove_keys(
                names(deleted@).subrange(0, at as int).to_set(),
            ),
        decreases deleted@.len() - at,
    {
        forget(&mut left, &deleted[at]);
        proof {
            let before_set = names(deleted@).subrange(0, at as int).to_set();
            let after_set = names(deleted@).subrange(0, at + 1).to_set();
            assert(after_set =~= before_set.insert(deleted@[at as int]@)) by {
                assert(names(deleted@)[at as int] == deleted@[at as int]@);
                assert forall|x: Seq<char>| after_set.contains(x) implies before_set.insert(deleted@[at as int]@).contains(x) by {
                    let i = choose|i: int| 0 <= i < at + 1 && #[trigger] names(deleted@).subrange(0, at + 1)[i] == x;
                    if i < at {
                        assert(names(deleted@).subrange(0, at as int)[i] == x);
                    }
                }
                assert forall|x: Seq<char>| before_set.insert(deleted@[at as int]@).contains(x) implies after_set.contains(x) by {
                    if x == deleted@[at as int]@ {
                        assert(names(deleted@).subrange(0, at + 1)[at as int] == x);
                    } else {
                        let i = choose|i: int| 0 <= i < at && #[trigger] names(deleted@).subrange(0, at as int)[i] == x;
                        assert(names(deleted@).subrange(0, at + 1)[i] == x);
                    }
                }
            }
            assert(entered_all.remove_keys(after_set) =~= entered_all.remove_keys(before_set).remove(deleted@[at as int]@));
        }
        at = at + 1;
    }
    proof {
        assert(names(deleted@).subrange(0, deleted@.len() as int) =~= names(deleted@));
    }
    left
}

// ---------------------------------------------------------------------------
// An existing repository's working tree
// ---------------------------------------------------------------------------

/// What to do with an existing repository's working tree after a write.
#[derive(Clone, PartialEq, Eq, Debug)]
pub enum CatchUp {
    /// HEAD names no branch, or one this write did not move: nothing.
    Nothing,
    /// HEAD is on a branch this write deleted: say so.
    HeadDeleted(String),
    /// HEAD's branch moved and nothing of anybody's is in the way: bring the
    /// working tree up to it.
    Reset(String),
    /// HEAD's branch moved and the working tree has changes of its own: leave
    /// it, and say so.
    Dirty(String),
}

/// A [`CatchUp`], as a contract speaks of it.
pub enum CatchUpView {
    Nothing,
    HeadDeleted(Seq<char>),
    Reset(Seq<char>),
    Dirty(Seq<char>),
}

impl View for CatchUp {
    type V = CatchUpView;

    open spec fn view(&self) -> CatchUpView {
        match self {
            CatchUp::Nothing => CatchUpView::Nothing,
            CatchUp::HeadDeleted(b) => CatchUpView::HeadDeleted(b@),
            CatchUp::Reset(b) => CatchUpView::Reset(b@),
            CatchUp::Dirty(b) => CatchUpView::Dirty(b@),
        }
    }
}

/// The branch a ref names: what follows `refs/heads/`, or the ref itself.
pub open spec fn branch_of(head: Seq<char>) -> Seq<char> {
    if head.len() >= HEADS@.len() && head.subrange(0, HEADS@.len() as int) == HEADS@ {
        head.subrange(HEADS@.len() as int, head.len() as int)
    } else {
        head
    }
}

/// Bring an existing repository's working tree up to the branch HEAD names,
/// where that branch moved and there is nothing of anybody's in the way.
///
/// The target was somebody's repository before this ran, so the rule is
/// import's: only remove what this tool can be sure it owns. A clean index and
/// working tree are exactly that — `reset --hard` leaves untracked files alone
/// — and anything else is left as it is and said.
pub open spec fn catch_up_of(
    head: Option<Seq<char>>,
    deleted: Seq<Seq<char>>,
    moved: Seq<Seq<char>>,
    clean: bool,
) -> CatchUpView {
    match head {
        None => CatchUpView::Nothing,
        Some(head) => if deleted.contains(head) {
            CatchUpView::HeadDeleted(branch_of(head))
        } else if !moved.contains(head) {
            CatchUpView::Nothing
        } else if clean {
            CatchUpView::Reset(branch_of(head))
        } else {
            CatchUpView::Dirty(branch_of(head))
        },
    }
}

/// What to do with an existing repository's working tree after a write.
pub fn catch_up(head: Option<&String>, deleted: &[String], moved: &[String], clean: bool) -> (what: CatchUp)
    ensures
        what@ == catch_up_of(
            match head {
                Some(h) => Some(h@),
                None => None,
            },
            names(deleted@),
            names(moved@),
            clean,
        ),
{
    let head = match head {
        None => return CatchUp::Nothing,
        Some(head) => head,
    };
    let chars = crate::remembered::characters(head.as_str());
    let prefix = crate::remembered::characters(HEADS);
    let is_branch = chars.len() >= prefix.len() && crate::plumbing::chars_are(
        &chars,
        0,
        prefix.len(),
        HEADS,
    );
    let branch = if is_branch {
        head.as_str().substring_char(prefix.len(), chars.len()).to_owned()
    } else {
        head.clone()
    };
    if listed(deleted, head) {
        return CatchUp::HeadDeleted(branch);
    }
    if !listed(moved, head) {
        return CatchUp::Nothing;
    }
    if clean {
        CatchUp::Reset(branch)
    } else {
        CatchUp::Dirty(branch)
    }
}

} // verus!

verus! {

// ---------------------------------------------------------------------------
// The order commits are sent in
// ---------------------------------------------------------------------------

/// Whether every parent of revision `i` that is one of the revisions being
/// sent has been placed already. A parent outside them (an index past the
/// end) is one git will never be sent, and does not hold anything up.
pub open spec fn ready(parents: Seq<Seq<usize>>, placed: Seq<bool>, i: int) -> bool {
    forall|j: int|
        0 <= j < parents[i].len() ==> (parents[i][j] >= placed.len() || placed[parents[i][j] as int])
}

/// One sweep through the revisions from `i` on, in the order they are listed:
/// each that is not yet placed and whose parents are is placed, at once, so
/// that a later one in the same sweep may stand on it.
pub open spec fn sweep(parents: Seq<Seq<usize>>, placed: Seq<bool>, out: Seq<usize>, i: int) -> (
    Seq<bool>,
    Seq<usize>,
)
    decreases placed.len() - i,
{
    if i < 0 || i >= placed.len() {
        (placed, out)
    } else if !placed[i] && ready(parents, placed, i) {
        sweep(parents, placed.update(i, true), out.push(i as usize), i + 1)
    } else {
        sweep(parents, placed, out, i + 1)
    }
}

/// Sweeps, until one places nothing.
pub open spec fn sweeps(parents: Seq<Seq<usize>>, placed: Seq<bool>, out: Seq<usize>, fuel: nat) -> Seq<
    usize,
>
    decreases fuel,
{
    let (after, more) = sweep(parents, placed, out, 0);
    if fuel == 0 || more.len() == out.len() {
        out
    } else {
        sweeps(parents, after, more, (fuel - 1) as nat)
    }
}

/// The order the revisions are sent in, given the parents of each (by index
/// into the same list, which is in digest order): parents before children,
/// and otherwise the listed order, so that two runs over one store send the
/// same stream. A revision whose parents can never all be placed is not sent.
pub open spec fn order_of(parents: Seq<Seq<usize>>) -> Seq<usize> {
    sweeps(parents, Seq::new(parents.len(), |i: int| false), Seq::empty(), parents.len() + 1)
}

proof fn lemma_sweep_counts(parents: Seq<Seq<usize>>, placed: Seq<bool>, out: Seq<usize>, i: int)
    requires
        0 <= i,
        out.len() == count(placed),
    ensures
        sweep(parents, placed, out, i).0.len() == placed.len(),
        sweep(parents, placed, out, i).1.len() == count(sweep(parents, placed, out, i).0),
        sweep(parents, placed, out, i).1.len() >= out.len(),
        sweep(parents, placed, out, i).1.subrange(0, out.len() as int) == out,
    decreases placed.len() - i,
{
    if i < placed.len() {
        if !placed[i] && ready(parents, placed, i) {
            crate::flags::lemma_count_set(placed, i);
            lemma_sweep_counts(parents, placed.update(i, true), out.push(i as usize), i + 1);
            let r = sweep(parents, placed.update(i, true), out.push(i as usize), i + 1).1;
            assert(r.subrange(0, out.len() as int) =~= r.subrange(0, (out.len() + 1) as int).subrange(
                0,
                out.len() as int,
            ));
            assert(out.push(i as usize).subrange(0, out.len() as int) =~= out);
        } else {
            lemma_sweep_counts(parents, placed, out, i + 1);
        }
    }
}

fn is_ready(parents: &[Vec<usize>], placed: &Vec<bool>, i: usize) -> (r: bool)
    requires
        i < parents@.len(),
    ensures
        r == ready(parents@.map_values(|p: Vec<usize>| p@), placed@, i as int),
{
    let ghost view = parents@.map_values(|p: Vec<usize>| p@);
    let list = &parents[i];
    let mut j: usize = 0;
    while j < list.len()
        invariant
            i < parents@.len(),
            view == parents@.map_values(|p: Vec<usize>| p@),
            list@ == view[i as int],
            j <= list@.len(),
            forall|k: int|
                0 <= k < j ==> (list@[k] >= placed@.len() || placed@[list@[k] as int]),
        decreases list@.len() - j,
    {
        let parent = list[j];
        if parent < placed.len() && !placed[parent] {
            return false;
        }
        j = j + 1;
    }
    true
}

/// Parents before children, and otherwise in the order given: [`order_of`].
///
/// Repeated sweeps rather than a worklist: the list is already in digest
/// order, so a sweep places everything whose parents are placed and keeps the
/// order stable between runs, which decision 0004 needs.
pub fn order(parents: &[Vec<usize>]) -> (sent: Vec<usize>)
    ensures
        sent@ == order_of(parents@.map_values(|p: Vec<usize>| p@)),
{
    let ghost view = parents@.map_values(|p: Vec<usize>| p@);
    let n = parents.len();
    let mut placed = crate::flags::clear(n);
    let mut out: Vec<usize> = Vec::new();
    let ghost mut fuel: nat = (n + 1) as nat;
    proof {
        assert(placed@ =~= Seq::new(view.len(), |i: int| false));
    }
    loop
        invariant
            view == parents@.map_values(|p: Vec<usize>| p@),
            n == parents@.len(),
            placed@.len() == n,
            out@.len() == count(placed@),
            fuel + out@.len() >= n + 1,
            sweeps(view, placed@, out@, fuel) == order_of(view),
        decreases n - out@.len(),
    {
        let ghost before = (placed@, out@);
        let before_len = out.len();
        let mut i: usize = 0;
        while i < n
            invariant
                view == parents@.map_values(|p: Vec<usize>| p@),
                n == parents@.len(),
                placed@.len() == n,
                i <= n,
                out@.len() == count(placed@),
                sweep(view, before.0, before.1, 0) == sweep(view, placed@, out@, i as int),
            decreases n - i,
        {
            if !placed[i] && is_ready(parents, &placed, i) {
                proof {
                    crate::flags::lemma_count_set(placed@, i as int);
                }
                placed.set(i, true);
                out.push(i);
            }
            i = i + 1;
        }
        proof {
            lemma_sweep_counts(view, before.0, before.1, 0);
            crate::flags::lemma_count_bound(placed@);
        }
        if out.len() == before_len {
            proof {
                assert(out@ =~= out@.subrange(0, before.1.len() as int));
            }
            return out;
        }
        proof {
            fuel = (fuel - 1) as nat;
        }
    }
}

} // verus!

verus! {

// ---------------------------------------------------------------------------
// Who wrote a revision, as git's person
// ---------------------------------------------------------------------------

/// What a conversion did, and what it could not carry.
///
/// The counterpart of [`crate::import::Report`], and decision 0001 asks the
/// same of it: each side holds facts the other has no place for, and dropping
/// them quietly is the failure that matters.
#[derive(Clone, Debug)]
pub struct Report {
    /// Revisions read from the store.
    pub revisions: usize,
    /// Commits written to the stream.
    pub commits: usize,
    /// Commits the repository already held, named rather than written again.
    pub reused: usize,
    /// Refs the conversion moved.
    pub references: Vec<String>,
    /// Refs the conversion deleted, because it made them and the store no
    /// longer names them.
    pub deleted: Vec<String>,
    /// The branch the conversion would have a fresh repository check out.
    pub branch: Option<String>,
    /// Whether the repository existed before this conversion.
    pub onto: bool,
    /// One line per kind of fact that did not cross, for a person to read.
    pub uncarried: Vec<String>,
}

impl Report {
    /// A report of nothing done yet.
    pub fn new() -> (report: Report)
        ensures
            report.revisions == 0 && report.commits == 0 && report.reused == 0,
            report.references@.len() == 0 && report.deleted@.len() == 0,
            report.branch is None && !report.onto && report.uncarried@.len() == 0,
    {
        Report {
            revisions: 0,
            commits: 0,
            reused: 0,
            references: Vec::new(),
            deleted: Vec::new(),
            branch: None,
            onto: false,
            uncarried: Vec::new(),
        }
    }

    /// One more line for a person to read.
    pub fn note(&mut self, line: String)
        ensures
            final(self).uncarried@ == old(self).uncarried@.push(line),
            final(self).revisions == old(self).revisions,
            final(self).commits == old(self).commits,
            final(self).reused == old(self).reused,
            final(self).references@ == old(self).references@,
            final(self).deleted@ == old(self).deleted@,
            final(self).branch == old(self).branch,
            final(self).onto == old(self).onto,
    {
        self.uncarried.push(line);
    }
}

impl Default for Report {
    fn default() -> (report: Report)
        ensures
            report.revisions == 0 && report.commits == 0 && report.reused == 0,
            report.references@.len() == 0 && report.deleted@.len() == 0,
            report.branch is None && !report.onto && report.uncarried@.len() == 0,
    {
        Report::new()
    }
}

/// The moment a timestamp names, in seconds from the epoch, as `jiff` reads
/// an RFC 3339 spelling; `None` where `jiff` refuses the spelling.
pub uninterp spec fn instant_of(spelled: Seq<char>) -> Option<i64>;

/// Calls `jiff::Timestamp::from_str` on the spelling and, where it parses,
/// `jiff::Timestamp::as_second` on the result. Nothing is claimed of which
/// spellings `jiff` accepts, nor of the seconds it reads: the result is named
/// [`instant_of`], a function of the spelling alone.
#[verifier::external_body]
fn instant(spelled: &str) -> (seconds: Option<i64>)
    ensures
        seconds == instant_of(spelled@),
{
    match spelled.parse::<jiff::Timestamp>() {
        Ok(moment) => Some(moment.as_second()),
        Err(_) => None,
    }
}

/// The last occurrence of `c` in `text`, if any.
pub open spec fn last_of(text: Seq<char>, c: char) -> Option<int>
    decreases text.len(),
{
    if text.len() == 0 {
        None
    } else if text.last() == c {
        Some(text.len() - 1)
    } else {
        last_of(text.drop_last(), c)
    }
}

/// An author as git's two fields, as characters: `Name <email>` splits at
/// its last `<`, the name losing the white space before it; anything else is
/// a name with an empty address — decision 0010 makes an author a string a
/// person chose, and git allows an empty address, which loses nothing.
pub open spec fn split_author(author: Seq<char>) -> (Seq<char>, Seq<char>) {
    match last_of(author, '<') {
        Some(at) => if author.len() > 0 && author.last() == '>' {
            (
                crate::plumbing::strip_end(author.subrange(0, at)),
                author.subrange(at + 1, author.len() - 1),
            )
        } else {
            (author, Seq::empty())
        },
        None => (author, Seq::empty()),
    }
}

/// The offset a timestamp's spelling ends with — its last six characters,
/// `±hh:mm` — in minutes east of UTC.
pub open spec fn zone_minutes(spelled: Seq<u8>) -> Option<i32> {
    if spelled.len() < 6 {
        None
    } else {
        let zone = spelled.subrange(spelled.len() - 6, spelled.len() as int);
        match (
            crate::stream::text::parse_signed(zone.subrange(1, 3)),
            crate::stream::text::parse_signed(zone.subrange(4, 6)),
        ) {
            (Some(hours), Some(minutes)) => Some(
                ((if zone[0] == 0x2d {
                    -1int
                } else {
                    1int
                }) * (hours * 60 + minutes)) as i32,
            ),
            _ => None,
        }
    }
}

/// A revision's author and time as git's person, given the moment the time
/// names: `None` where the moment or the offset cannot be read.
pub open spec fn person_of(author: Seq<char>, when: Seq<char>, seconds: Option<i64>) -> Option<
    crate::stream::PersonView,
> {
    let (name, email) = split_author(author);
    match (seconds, zone_minutes(vstd::utf8::encode_utf8(when))) {
        (Some(seconds), Some(offset_minutes)) => Some(
            crate::stream::PersonView {
                name: vstd::utf8::encode_utf8(name),
                email: vstd::utf8::encode_utf8(email),
                seconds,
                offset_minutes,
            },
        ),
        _ => None,
    }
}

fn last_char(chars: &Vec<char>, c: char) -> (at: Option<usize>)
    ensures
        match at {
            Some(at) => last_of(chars@, c) == Some(at as int) && at < chars@.len() && chars@[at as int]
                == c,
            None => last_of(chars@, c) is None,
        },
{
    let mut end = chars.len();
    proof {
        assert(chars@.subrange(0, end as int) =~= chars@);
    }
    while end > 0
        invariant
            end <= chars@.len(),
            last_of(chars@, c) == last_of(chars@.subrange(0, end as int), c),
        decreases end,
    {
        proof {
            assert(chars@.subrange(0, end as int).drop_last() =~= chars@.subrange(0, end - 1));
        }
        if chars[end - 1] == c {
            return Some(end - 1);
        }
        end = end - 1;
    }
    proof {
        assert(chars@.subrange(0, 0) =~= Seq::<char>::empty());
    }
    None
}

fn end_without_white(chars: &Vec<char>, end: usize) -> (cut: usize)
    requires
        end <= chars@.len(),
    ensures
        cut <= end,
        chars@.subrange(0, cut as int) == crate::plumbing::strip_end(chars@.subrange(0, end as int)),
{
    let mut cut = end;
    while cut > 0 && crate::remembered::is_white(chars[cut - 1])
        invariant
            cut <= end <= chars@.len(),
            crate::plumbing::strip_end(chars@.subrange(0, cut as int)) == crate::plumbing::strip_end(
                chars@.subrange(0, end as int),
            ),
        decreases cut,
    {
        proof {
            assert(chars@.subrange(0, cut as int).drop_last() =~= chars@.subrange(0, cut - 1));
        }
        cut = cut - 1;
    }
    cut
}

/// The characters from `start` to `end`, as text.
fn text_between(text: &str, chars: &Vec<char>, start: usize, end: usize) -> (part: String)
    requires
        chars@ == text@,
        start <= end <= chars@.len(),
    ensures
        part@ == text@.subrange(start as int, end as int),
{
    text.substring_char(start, end).to_owned()
}

/// A revision's author and time as git's person, given the moment the time
/// names (what `jiff` reads it as): [`person_of`].
pub fn person_at(author: &str, when: &str, seconds: Option<i64>) -> (person: Option<
    crate::stream::Person,
>)
    ensures
        crate::stream::option_view(person) == person_of(author@, when@, seconds),
{
    let chars = crate::remembered::characters(author);
    let (name, email) = match last_char(&chars, '<') {
        Some(at) if chars.len() > 0 && chars[chars.len() - 1] == '>' => {
            let cut = end_without_white(&chars, at);
            let name = text_between(author, &chars, 0, cut);
            let email = text_between(author, &chars, at + 1, chars.len() - 1);
            (name, email)
        },
        _ => (author.to_owned(), String::new()),
    };
    proof {
        assert((name@, email@) == split_author(author@));
    }
    let seconds = match seconds {
        Some(seconds) => seconds,
        None => return None,
    };
    let spelled = when.as_bytes();
    if spelled.len() < 6 {
        return None;
    }
    let start = spelled.len() - 6;
    let hours = match crate::carried::two_signed(spelled, start + 1) {
        Some(hours) => hours,
        None => return None,
    };
    let minutes = match crate::carried::two_signed(spelled, start + 4) {
        Some(minutes) => minutes,
        None => return None,
    };
    let size: i32 = hours * 60 + minutes;
    let offset_minutes: i32 = if spelled[start] == 0x2d {
        -size
    } else {
        size
    };
    proof {
        let zone = spelled@.subrange(start as int, spelled@.len() as int);
        assert(zone.subrange(1, 3) =~= spelled@.subrange(start + 1, start + 3));
        assert(zone.subrange(4, 6) =~= spelled@.subrange(start + 4, start + 6));
        let v: int = hours * 60 + minutes;
        if zone[0] == 0x2d {
            assert(-1int * v == -v) by (nonlinear_arith);
        } else {
            assert(1int * v == v) by (nonlinear_arith);
        }
        assert(zone_minutes(vstd::utf8::encode_utf8(when@)) == Some(offset_minutes));
    }
    Some(
        crate::stream::Person {
            name: crate::bytes::copy(name.as_str().as_bytes()),
            email: crate::bytes::copy(email.as_str().as_bytes()),
            seconds,
            offset_minutes,
        },
    )
}

/// A revision's author and time as git's person: `Name <email>` and a
/// timestamp as git's two numbers. `None` where the time cannot be read,
/// which stops a conversion rather than inventing a date.
pub fn person(author: &str, when: &str) -> (person: Option<crate::stream::Person>)
    ensures
        crate::stream::option_view(person) == person_of(author@, when@, instant_of(when@)),
{
    let seconds = instant(when);
    person_at(author, when, seconds)
}

/// Where `c` last stands in `text`, once text without it follows.
proof fn lemma_last_of_past(text: Seq<char>, more: Seq<char>, c: char)
    requires
        forall|i: int| 0 <= i < more.len() ==> more[i] != c,
    ensures
        last_of(text + more, c) == last_of(text, c),
    decreases more.len(),
{
    if more.len() > 0 {
        assert((text + more).drop_last() =~= text + more.drop_last());
        lemma_last_of_past(text, more.drop_last(), c);
    } else {
        assert(text + more =~= text);
    }
}

/// A person spelled for the store as `Name <email>` reads back as the same
/// person: the name and the address come back byte for byte, provided they
/// are UTF-8, the address holds no `<` and the name does not end in white
/// space; and the moment comes back as the instant and offset it was,
/// wherever the time's spelling gives them back.
pub proof fn a_person_spelled_for_the_store_reads_back(
    person: crate::stream::PersonView,
    when: Seq<char>,
)
    requires
        vstd::utf8::valid_utf8(person.name),
        vstd::utf8::valid_utf8(person.email),
        forall|i: int|
            0 <= i < vstd::utf8::decode_utf8(person.email).len() ==> vstd::utf8::decode_utf8(
                person.email,
            )[i] != '<',
        vstd::utf8::decode_utf8(person.name).len() == 0 || !white(
            vstd::utf8::decode_utf8(person.name).last(),
        ),
        instant_of(when) == Some(person.seconds),
        zone_minutes(vstd::utf8::encode_utf8(when)) == Some(person.offset_minutes),
    ensures
        person_of(crate::import::spelled(person), when, instant_of(when)) == Some(person),
{
    reveal(crate::bytes::lossy);
    vstd::utf8::decode_utf8_encode_utf8(person.name);
    vstd::utf8::decode_utf8_encode_utf8(person.email);
    let name = crate::bytes::lossy(person.name);
    let email = crate::bytes::lossy(person.email);
    let author = crate::import::spelled(person);
    let head = name + seq![' ', '<'];
    assert(author =~= head + (email + seq!['>']));
    assert forall|i: int| 0 <= i < (email + seq!['>']).len() implies (email + seq!['>'])[i]
        != '<' by {
        if i < email.len() {
            assert((email + seq!['>'])[i] == email[i]);
        }
    }
    lemma_last_of_past(head, email + seq!['>'], '<');
    let at: int = name.len() as int + 1;
    assert(last_of(head, '<') == Some(at));
    assert(author.subrange(0, at) =~= name.push(' '));
    assert(name.push(' ').drop_last() =~= name);
    assert(crate::plumbing::strip_end(name.push(' ')) == crate::plumbing::strip_end(name));
    assert(crate::plumbing::strip_end(name) == name);
    assert(author.subrange(at + 1, author.len() - 1) =~= email);
    assert(split_author(author) == (name, email));
}

} // verus!

verus! {

// ---------------------------------------------------------------------------
// What a write says it could not carry
// ---------------------------------------------------------------------------

pub const ONE_SUPERSEDED: &'static str = "one revision was superseded by another and did not cross; git has no commit for a rewriting, so what crossed is the version that stands now";

pub const MANY_SUPERSEDED: &'static str = " revisions were superseded by others and did not cross; git has no commit for a rewriting, so what crossed is the version that stands now";

pub const REWRITTEN_AWAY: &'static str = "a commit stands on the nearest ancestor git has, because the revision it was recorded against was rewritten away";

pub const RESOLVED_BY_RULE: &'static str = " was resolved by historica's rule and git records only the outcome; nothing says a choice was made";

pub const LINKED: &'static str = "a link historica holds as an identity became the path that file is at now, which is the path git would have had only if nobody had renamed the file since — decision 0040 keeps such a link pointing at its file, and git's would be left dangling";

pub const ONE_INVALIDATED: &'static str = "one revision carries a signature over a commit it is no longer the same work as, because it was amended after it was imported; the signature did not cross, since a commit that says it was signed and was not is worse than one that says nothing";

pub const MANY_INVALIDATED: &'static str = " revisions carry signatures over commits they are no longer the same work as, because they were amended after they were imported; the signatures did not cross, since a commit that says it was signed and was not is worse than one that says nothing";

pub const HEADER_OPENS: &'static str = "a `";

pub const HEADER_UNREADABLE: &'static str = "` header did not cross; something wrote one under a key this tool owns and it does not say what this tool writes";

pub const ONE_PRIVATE: &'static str = "one bookmark is private and its name stayed behind";

pub const MANY_PRIVATE: &'static str = " bookmarks are private and their names stayed behind";

pub const NO_CHANGE_IDS: &'static str = "change IDs did not cross; git has nowhere to put one, and decision 0003 derives one from a commit rather than the other way about";

/// What a write counted on its way through the store, for its report.
pub struct Tally {
    /// Revisions the store holds.
    pub revisions: usize,
    /// Commits sent.
    pub commits: usize,
    /// Commits the repository already held.
    pub reused: usize,
    /// Parents that stood on a revision rewritten away.
    pub rewritten: usize,
    /// Each kind of disagreement historica resolved by rule, once, in order.
    pub contested: Vec<String>,
    /// Links held as an identity and written as a path.
    pub linked: usize,
    /// Signatures left behind because the revision was amended.
    pub invalidated: usize,
    /// Each header key whose value was not what this tool writes, once, in
    /// order.
    pub unreadable: Vec<String>,
    /// Private bookmarks.
    pub private: usize,
    /// Refs not moved or not deleted, each with why.
    pub held_back: Vec<String>,
}

/// `one` for a single thing, else the count and `many`.
pub open spec fn counted(n: nat, one: Seq<char>, many: Seq<char>) -> Seq<char> {
    if n == 1 {
        one
    } else {
        crate::bytes::chars_of(crate::stream::write::decimal(n)) + many
    }
}

/// One line, where `said` is.
pub open spec fn line_if(said: bool, line: Seq<char>) -> Seq<Seq<char>> {
    if said {
        seq![line]
    } else {
        Seq::empty()
    }
}

/// One line per item, each between `before` and `after`.
pub open spec fn each_between(items: Seq<Seq<char>>, before: Seq<char>, after: Seq<char>) -> Seq<
    Seq<char>,
> {
    items.map_values(|item: Seq<char>| before + item + after)
}

/// The lines a write adds to its report once it is done, in the order they
/// are said.
pub open spec fn finished(t: Tally) -> Seq<Seq<char>> {
    let uncrossed = t.revisions - t.commits - t.reused;
    line_if(uncrossed > 0, counted(uncrossed as nat, ONE_SUPERSEDED@, MANY_SUPERSEDED@))
        + line_if(t.rewritten > 0, REWRITTEN_AWAY@)
        + each_between(names(t.contested@), Seq::empty(), RESOLVED_BY_RULE@)
        + line_if(t.linked > 0, LINKED@)
        + line_if(t.invalidated > 0, counted(t.invalidated as nat, ONE_INVALIDATED@, MANY_INVALIDATED@))
        + each_between(names(t.unreadable@), HEADER_OPENS@, HEADER_UNREADABLE@)
        + line_if(t.private > 0, counted(t.private as nat, ONE_PRIVATE@, MANY_PRIVATE@))
        + names(t.held_back@)
        + seq![NO_CHANGE_IDS@]
}

/// `one` for a single thing, else the count and `many`, as text.
pub fn counted_text(n: usize, one: &str, many: &str) -> (said: String)
    ensures
        said@ == counted(n as nat, one@, many@),
{
    if n == 1 {
        one.to_owned()
    } else {
        let mut said = crate::stream::write::decimal_text(n as u64);
        said.append(many);
        said
    }
}

/// Append one line per item, each between `before` and `after`.
pub(crate) fn push_each(lines: &mut Vec<String>, items: &Vec<String>, before: &str, after: &str)
    ensures
        names(final(lines)@) == names(old(lines)@) + each_between(names(items@), before@, after@),
{
    let ghost start = names(lines@);
    let mut at: usize = 0;
    while at < items.len()
        invariant
            at <= items@.len(),
            names(lines@) == start + each_between(names(items@).subrange(0, at as int), before@, after@),
        decreases items@.len() - at,
    {
        let mut line = before.to_owned();
        line.append(items[at].as_str());
        line.append(after);
        proof {
            assert(names(items@).subrange(0, at + 1) =~= names(items@).subrange(0, at as int).push(
                items@[at as int]@,
            ));
            assert(names(lines@.push(line)) =~= names(lines@).push(line@));
        }
        lines.push(line);
        at = at + 1;
    }
    proof {
        assert(names(items@).subrange(0, items@.len() as int) =~= names(items@));
    }
}

/// Append `line` where `said`.
pub(crate) fn push_if(lines: &mut Vec<String>, said: bool, line: String)
    ensures
        names(final(lines)@) == names(old(lines)@) + line_if(said, line@),
{
    if said {
        proof {
            assert(names(lines@.push(line)) =~= names(lines@).push(line@));
        }
        lines.push(line);
    } else {
        proof {
            assert(names(lines@) + Seq::<Seq<char>>::empty() =~= names(lines@));
        }
    }
}

pub(crate) proof fn lemma_between_nothing(items: Seq<Seq<char>>)
    ensures
        each_between(items, ""@, ""@) == items,
{
    reveal_strlit("");
    assert(each_between(items, ""@, ""@) =~= items);
}

/// The lines a write adds to its report once it is done: [`finished`].
pub fn finish(tally: &Tally) -> (lines: Vec<String>)
    requires
        tally.commits + tally.reused <= tally.revisions,
    ensures
        names(lines@) == finished(*tally),
{
    proof {
        reveal_strlit("");
        assert(""@ =~= Seq::<char>::empty());
    }
    let mut lines: Vec<String> = Vec::new();
    let uncrossed = tally.revisions - tally.commits - tally.reused;
    let first = counted_text(uncrossed, ONE_SUPERSEDED, MANY_SUPERSEDED);
    push_if(&mut lines, uncrossed > 0, first);
    let ghost a = line_if(uncrossed > 0, counted(uncrossed as nat, ONE_SUPERSEDED@, MANY_SUPERSEDED@));
    assert(names(lines@) == a) by {
        assert(Seq::<Seq<char>>::empty() + a =~= a);
    }
    push_if(&mut lines, tally.rewritten > 0, REWRITTEN_AWAY.to_owned());
    push_each(&mut lines, &tally.contested, "", RESOLVED_BY_RULE);
    push_if(&mut lines, tally.linked > 0, LINKED.to_owned());
    let invalidated = counted_text(tally.invalidated, ONE_INVALIDATED, MANY_INVALIDATED);
    push_if(&mut lines, tally.invalidated > 0, invalidated);
    push_each(&mut lines, &tally.unreadable, HEADER_OPENS, HEADER_UNREADABLE);
    let private = counted_text(tally.private, ONE_PRIVATE, MANY_PRIVATE);
    push_if(&mut lines, tally.private > 0, private);
    push_each(&mut lines, &tally.held_back, "", "");
    proof {
        lemma_between_nothing(names(tally.held_back@));
    }
    push_if(&mut lines, true, NO_CHANGE_IDS.to_owned());
    lines
}

} // verus!

verus! {

// ---------------------------------------------------------------------------
// Moving the refs
// ---------------------------------------------------------------------------

pub const NOT_MOVED: &'static str = "` was not moved: ";

pub const NOT_DELETED: &'static str = "` was not deleted: the store no longer names it, but git moved it since the last write, so it is somebody's now";

pub const NO_SUCH_REF_OPENS: &'static str = "the bookmark `";

pub const NO_SUCH_REF: &'static str = "` did not cross; git has no ref by that name";

/// Where a bookmark's target stands in git, once the history has resolved it.
pub struct Resolved {
    /// The revision it names, by index into the history.
    pub revision: usize,
    /// Whether it is a branch — a bookmark on a change, which follows the work
    /// — rather than a tag, a bookmark on one revision.
    pub branch: bool,
    /// Where that revision is in git: the mark it was sent under, or the commit
    /// the repository already has it as.
    pub placed: DataRef,
}

/// One of the store's bookmarks, as the refs are moved from it.
pub struct Bookmark {
    /// Its name.
    pub name: String,
    /// Whether it travels; a private bookmark's name stays behind.
    pub travels: bool,
    /// Where it stands in git, where its target resolves to a revision that
    /// was sent or is held.
    pub resolved: Option<Resolved>,
}

/// A [`Bookmark`], as a contract speaks of it.
pub struct BookmarkView {
    pub name: Seq<char>,
    pub travels: bool,
    pub resolved: Option<(usize, bool, DataRefView)>,
}

impl View for Bookmark {
    type V = BookmarkView;

    open spec fn view(&self) -> BookmarkView {
        BookmarkView {
            name: self.name@,
            travels: self.travels,
            resolved: match &self.resolved {
                Some(r) => Some((r.revision, r.branch, r.placed@)),
                None => None,
            },
        }
    }
}

/// A head of the history no bookmark may name, with the abbreviation of its
/// digest and where it is in git.
pub struct Head {
    /// The revision, by index into the history.
    pub revision: usize,
    /// Its digest's first characters.
    pub abbreviated: String,
    /// Where it is in git.
    pub placed: DataRef,
}

/// What moving the refs comes to: the commands that move them, and what is
/// said of it.
pub struct Plan {
    /// Each ref to reset, and where to: a commit, or the null object ID,
    /// which deletes it.
    pub resets: Vec<(String, DataRef)>,
    /// Refs moved, for the report.
    pub references: Vec<String>,
    /// Refs deleted, for the report.
    pub deleted: Vec<String>,
    /// Branches a bookmark named that now stand where the store says.
    pub branches: Vec<String>,
    /// Refs this write answers for, and where each now stands.
    pub ours: Vec<(String, DataRef)>,
    /// Refs not moved or not deleted, each with why.
    pub held_back: Vec<String>,
    /// Bookmarks whose names git has no ref for.
    pub notes: Vec<String>,
    /// Private bookmarks.
    pub private: usize,
    /// Revisions a bookmark's ref now names.
    pub named: Vec<usize>,
}

/// A [`Plan`], as a contract speaks of it.
#[verifier::ext_equal]
pub struct PlanView {
    pub resets: Seq<(Seq<char>, DataRefView)>,
    pub references: Seq<Seq<char>>,
    pub deleted: Seq<Seq<char>>,
    pub branches: Seq<Seq<char>>,
    pub ours: Seq<(Seq<char>, DataRefView)>,
    pub held_back: Seq<Seq<char>>,
    pub notes: Seq<Seq<char>>,
    pub private: nat,
    pub named: Seq<usize>,
}

/// Refs and where they point, as a contract speaks of them.
pub open spec fn ref_pairs(s: Seq<(String, DataRef)>) -> Seq<(Seq<char>, DataRefView)> {
    s.map_values(|p: (String, DataRef)| (p.0@, p.1@))
}

impl View for Plan {
    type V = PlanView;

    open spec fn view(&self) -> PlanView {
        PlanView {
            resets: ref_pairs(self.resets@),
            references: names(self.references@),
            deleted: names(self.deleted@),
            branches: names(self.branches@),
            ours: ref_pairs(self.ours@),
            held_back: names(self.held_back@),
            notes: names(self.notes@),
            private: self.private as nat,
            named: self.named@,
        }
    }
}

/// The refs a bookmark list asks for, in order — each with where it goes, the
/// revision, and whether it is a branch — with a line for each name git has no
/// ref for, and the count of private bookmarks.
pub open spec fn wanted_of(bookmarks: Seq<BookmarkView>) -> (
    Seq<(Seq<char>, DataRefView, usize, bool)>,
    Seq<Seq<char>>,
    nat,
)
    decreases bookmarks.len(),
{
    if bookmarks.len() == 0 {
        (Seq::empty(), Seq::empty(), 0)
    } else {
        let (wanted, notes, private) = wanted_of(bookmarks.drop_last());
        let b = bookmarks.last();
        if !b.travels {
            (wanted, notes, private + 1)
        } else {
            match b.resolved {
                None => (wanted, notes, private),
                Some((revision, branch, placed)) => if refused_name(b.name) {
                    (wanted, notes.push(NO_SUCH_REF_OPENS@ + b.name + NO_SUCH_REF@), private)
                } else {
                    (
                        wanted.push(
                            ((if branch {
                                HEADS@
                            } else {
                                TAGS@
                            }) + b.name, placed, revision, branch),
                        ),
                        notes,
                        private,
                    )
                },
            }
        }
    }
}

/// The ref git keeps a bookmark under: `refs/heads/<name>` for a branch,
/// which follows its change, and `refs/tags/<name>` for a bookmark on one
/// revision.
pub open spec fn ref_in_git(branch: bool, name: Seq<char>) -> Seq<char> {
    (if branch {
        "refs/heads/"@
    } else {
        "refs/tags/"@
    }) + name
}

/// What one bookmark asks git for, where it travels, resolves, and has a
/// name git takes as a ref: its ref, the place, the revision, the kind.
pub open spec fn asks_for(b: BookmarkView, w: (Seq<char>, DataRefView, usize, bool)) -> bool {
    &&& b.travels
    &&& !refused_name(b.name)
    &&& b.resolved == Some((w.2, w.3, w.1))
    &&& w.0 == ref_in_git(w.3, b.name)
}

/// Each bookmark that travels and stands somewhere in git goes to the ref its
/// kind names, and nothing else is asked for: a branch under `refs/heads/`, a
/// bookmark on one revision — a tag — under `refs/tags/`, each at the place
/// and revision it resolved to; and every such bookmark whose name git takes
/// as a ref has its ref.
pub proof fn each_bookmark_goes_to_the_ref_its_kind_names(bookmarks: Seq<BookmarkView>)
    ensures
        forall|k: int|
            #![trigger wanted_of(bookmarks).0[k]]
            0 <= k < wanted_of(bookmarks).0.len() ==> exists|i: int|
                #![trigger bookmarks[i]]
                0 <= i < bookmarks.len() && asks_for(bookmarks[i], wanted_of(bookmarks).0[k]),
        forall|i: int|
            #![trigger bookmarks[i]]
            0 <= i < bookmarks.len() && bookmarks[i].travels && !refused_name(bookmarks[i].name)
                && bookmarks[i].resolved is Some ==> exists|k: int|
                #![trigger wanted_of(bookmarks).0[k]]
                0 <= k < wanted_of(bookmarks).0.len() && asks_for(bookmarks[i], wanted_of(bookmarks).0[k]),
    decreases bookmarks.len(),
{
    if bookmarks.len() > 0 {
        let earlier = bookmarks.drop_last();
        each_bookmark_goes_to_the_ref_its_kind_names(earlier);
        lemma_wanted_step(bookmarks, earlier);
    }
}

#[verifier::spinoff_prover]
#[verifier::rlimit(60)]
proof fn lemma_wanted_step(bookmarks: Seq<BookmarkView>, earlier: Seq<BookmarkView>)
    requires
        bookmarks.len() > 0,
        earlier == bookmarks.drop_last(),
        forall|k: int|
            #![trigger wanted_of(earlier).0[k]]
            0 <= k < wanted_of(earlier).0.len() ==> exists|i: int|
                #![trigger earlier[i]]
                0 <= i < earlier.len() && asks_for(earlier[i], wanted_of(earlier).0[k]),
        forall|i: int|
            #![trigger earlier[i]]
            0 <= i < earlier.len() && earlier[i].travels && !refused_name(earlier[i].name)
                && earlier[i].resolved is Some ==> exists|k: int|
                #![trigger wanted_of(earlier).0[k]]
                0 <= k < wanted_of(earlier).0.len() && asks_for(earlier[i], wanted_of(earlier).0[k]),
    ensures
        forall|k: int|
            #![trigger wanted_of(bookmarks).0[k]]
            0 <= k < wanted_of(bookmarks).0.len() ==> exists|i: int|
                #![trigger bookmarks[i]]
                0 <= i < bookmarks.len() && asks_for(bookmarks[i], wanted_of(bookmarks).0[k]),
        forall|i: int|
            #![trigger bookmarks[i]]
            0 <= i < bookmarks.len() && bookmarks[i].travels && !refused_name(bookmarks[i].name)
                && bookmarks[i].resolved is Some ==> exists|k: int|
                #![trigger wanted_of(bookmarks).0[k]]
                0 <= k < wanted_of(bookmarks).0.len() && asks_for(bookmarks[i], wanted_of(bookmarks).0[k]),
{
    reveal_strlit("refs/heads/");
    reveal_strlit("refs/tags/");
    let w0 = wanted_of(earlier).0;
    let w = wanted_of(bookmarks).0;
    let last = bookmarks.len() - 1;
    let b = bookmarks[last];
    assert(b == bookmarks.last());
    assert(forall|x: int| 0 <= x < last ==> earlier[x] == bookmarks[x]);
    let adds = b.travels && b.resolved is Some && !refused_name(b.name);
    if adds {
        let (revision, branch, placed) = b.resolved->Some_0;
        assert(w == w0.push((ref_in_git(branch, b.name), placed, revision, branch)));
        assert(asks_for(b, w[w0.len() as int]));
    } else {
        assert(w == w0);
    }
    assert(forall|k: int| 0 <= k < w0.len() ==> w[k] == w0[k]);
    assert forall|k: int| #![trigger w[k]] 0 <= k < w.len() implies exists|i: int|
        #![trigger bookmarks[i]]
        0 <= i < bookmarks.len() && asks_for(bookmarks[i], w[k]) by {
        if k < w0.len() {
            assert(w[k] == w0[k]);
            let i = choose|i: int| #![trigger earlier[i]] 0 <= i < earlier.len() && asks_for(earlier[i], w0[k]);
            assert(earlier[i] == bookmarks[i]);
            assert(asks_for(bookmarks[i], w[k]));
        } else {
            assert(asks_for(bookmarks[last], w[k]));
        }
    }
    assert forall|i: int|
        #![trigger bookmarks[i]]
        0 <= i < bookmarks.len() && bookmarks[i].travels && !refused_name(bookmarks[i].name)
            && bookmarks[i].resolved is Some implies exists|k: int|
        #![trigger w[k]]
        0 <= k < w.len() && asks_for(bookmarks[i], w[k]) by {
        if i < last {
            assert(earlier[i] == bookmarks[i]);
            let k = choose|k: int| #![trigger w0[k]] 0 <= k < w0.len() && asks_for(earlier[i], w0[k]);
            assert(w[k] == w0[k]);
            assert(asks_for(bookmarks[i], w[k]));
        } else {
            assert(asks_for(bookmarks[i], w[w0.len() as int]));
        }
    }
}

/// The refs bookmarks ask for are reset only to the places they ask for: the
/// resets placing them keep what was planned before and add, for each, at
/// most its own ref at its own place — and a ref git does not have and no
/// write of this tool's left is always reset there.
pub proof fn a_wanted_ref_is_reset_only_to_its_own_place(
    p: PlanView,
    current: Map<Seq<char>, PointedView>,
    record: Option<Map<Seq<char>, LeftView>>,
    wanted: Seq<(Seq<char>, DataRefView, usize, bool)>,
)
    ensures
        ({
            let resets = placed_wanted(p, current, record, wanted).resets;
            &&& p.resets.len() <= resets.len()
            &&& resets.subrange(0, p.resets.len() as int) == p.resets
            &&& forall|j: int|
                #![trigger resets[j]]
                p.resets.len() <= j < resets.len() ==> exists|k: int|
                    #![trigger wanted[k]]
                    0 <= k < wanted.len() && resets[j] == (wanted[k].0, wanted[k].1)
            &&& forall|k: int|
                #![trigger wanted[k]]
                0 <= k < wanted.len() && now_at(current, wanted[k].0) is None && left_at(
                    record,
                    wanted[k].0,
                ) is None ==> exists|j: int|
                    #![trigger resets[j]]
                    0 <= j < resets.len() && resets[j] == (wanted[k].0, wanted[k].1)
        }),
    decreases wanted.len(),
{
    if wanted.len() > 0 {
        let earlier = wanted.drop_last();
        a_wanted_ref_is_reset_only_to_its_own_place(p, current, record, earlier);
        let q = placed_wanted(p, current, record, earlier);
        let (reference, target, revision, branch) = wanted.last();
        let (r, stands) = placed_one(q, current, record, reference, target);
        let resets = placed_wanted(p, current, record, wanted).resets;
        assert(resets == r.resets);
        assert(r.resets == q.resets || r.resets == q.resets.push((reference, target)));
        let last = wanted.len() - 1;
        assert(wanted[last] == wanted.last());
        assert(forall|k: int| 0 <= k < last ==> wanted[k] == earlier[k]);
        assert(forall|j: int| 0 <= j < q.resets.len() ==> resets[j] == q.resets[j]);
        assert(resets.subrange(0, p.resets.len() as int) =~= q.resets.subrange(0, p.resets.len() as int));
        assert forall|j: int|
            #![trigger resets[j]]
            p.resets.len() <= j < resets.len() implies exists|k: int|
                #![trigger wanted[k]]
                0 <= k < wanted.len() && resets[j] == (wanted[k].0, wanted[k].1) by {
            if j < q.resets.len() {
                assert(resets[j] == q.resets[j]);
                let k = choose|k: int|
                    #![trigger earlier[k]]
                    0 <= k < earlier.len() && q.resets[j] == (earlier[k].0, earlier[k].1);
                assert(wanted[k] == earlier[k]);
            } else {
                assert(resets[j] == (wanted[last].0, wanted[last].1));
            }
        }
        assert forall|k: int|
            #![trigger wanted[k]]
            0 <= k < wanted.len() && now_at(current, wanted[k].0) is None && left_at(
                record,
                wanted[k].0,
            ) is None implies exists|j: int|
                #![trigger resets[j]]
                0 <= j < resets.len() && resets[j] == (wanted[k].0, wanted[k].1) by {
            if k < last {
                assert(wanted[k] == earlier[k]);
                let j = choose|j: int|
                    #![trigger q.resets[j]]
                    0 <= j < q.resets.len() && q.resets[j] == (earlier[k].0, earlier[k].1);
                assert(resets[j] == q.resets[j]);
            } else {
                assert(r.resets == q.resets.push((reference, target)));
                assert(resets[q.resets.len() as int] == (reference, target));
            }
        }
    }
}

/// Where git has a ref, if it has it.
pub open spec fn now_at(current: Map<Seq<char>, PointedView>, reference: Seq<char>) -> Option<
    PointedView,
> {
    if current.contains_key(reference) {
        Some(current[reference])
    } else {
        None
    }
}

/// Where the last write left a ref, if the record says.
pub open spec fn left_at(record: Option<Map<Seq<char>, LeftView>>, reference: Seq<char>) -> Option<
    Seq<char>,
> {
    match record {
        Some(m) => if m.contains_key(reference) {
            Some(m[reference].oid)
        } else {
            None
        },
        None => None,
    }
}

/// One ref placed — moved, found already there, or held back and said — and
/// whether it now stands where the store says.
pub open spec fn placed_one(
    p: PlanView,
    current: Map<Seq<char>, PointedView>,
    record: Option<Map<Seq<char>, LeftView>>,
    reference: Seq<char>,
    target: DataRefView,
) -> (PlanView, bool) {
    match decided(now_at(current, reference), left_at(record, reference), target) {
        Decided::Move => (
            PlanView {
                resets: p.resets.push((reference, target)),
                references: p.references.push(reference),
                ours: p.ours.push((reference, target)),
                ..p
            },
            true,
        ),
        Decided::Already => (PlanView { ours: p.ours.push((reference, target)), ..p }, true),
        Decided::HeldBack(why) => (
            PlanView {
                held_back: p.held_back.push(seq!['`'] + reference + NOT_MOVED@ + reason_text(why)),
                ..p
            },
            false,
        ),
    }
}

/// The refs bookmarks ask for, placed in order; a branch that stands where
/// the store says is one a fresh repository may check out.
pub open spec fn placed_wanted(
    p: PlanView,
    current: Map<Seq<char>, PointedView>,
    record: Option<Map<Seq<char>, LeftView>>,
    wanted: Seq<(Seq<char>, DataRefView, usize, bool)>,
) -> PlanView
    decreases wanted.len(),
{
    if wanted.len() == 0 {
        p
    } else {
        let q = placed_wanted(p, current, record, wanted.drop_last());
        let (reference, target, revision, branch) = wanted.last();
        let (r, stands) = placed_one(q, current, record, reference, target);
        if stands {
            PlanView {
                named: r.named.push(revision),
                branches: if branch {
                    r.branches.push(reference.subrange(HEADS@.len() as int, reference.len() as int))
                } else {
                    r.branches
                },
                ..r
            }
        } else {
            r
        }
    }
}

/// Each head nobody's ref names, placed out of the way under
/// [`UNNAMED`]: a commit no ref reaches is a commit git will collect.
pub open spec fn placed_heads(
    p: PlanView,
    current: Map<Seq<char>, PointedView>,
    record: Option<Map<Seq<char>, LeftView>>,
    heads: Seq<(usize, Seq<char>, DataRefView)>,
) -> PlanView
    decreases heads.len(),
{
    if heads.len() == 0 {
        p
    } else {
        let q = placed_heads(p, current, record, heads.drop_last());
        let (revision, abbreviated, placed) = heads.last();
        if q.named.contains(revision) {
            q
        } else {
            placed_one(q, current, record, UNNAMED@ + seq!['/'] + abbreviated, placed).0
        }
    }
}

/// Whether a line already said a ref was held back.
pub open spec fn held_back_names(held_back: Seq<Seq<char>>, reference: Seq<char>) -> bool {
    exists|i: int|
        0 <= i < held_back.len() && crate::import::after_prefix(
            #[trigger] held_back[i],
            seq!['`'] + reference + seq!['`'],
        ) is Some
}

/// Whether this write answers for a ref.
pub open spec fn answers_for(ours: Seq<(Seq<char>, DataRefView)>, reference: Seq<char>) -> bool {
    exists|i: int| 0 <= i < ours.len() && #[trigger] ours[i].0 == reference
}

/// What a write of this tool's made and the store no longer names: deleted
/// where git still has it as it was left, otherwise somebody else's now and
/// said. A ref the record merely found in agreement is not this tool's to
/// delete.
pub open spec fn deleted_all(
    p: PlanView,
    current: Map<Seq<char>, PointedView>,
    null: Seq<char>,
    record: Seq<(Seq<char>, LeftView)>,
) -> PlanView
    decreases record.len(),
{
    if record.len() == 0 {
        p
    } else {
        let q = deleted_all(p, current, null, record.drop_last());
        let (reference, left) = record.last();
        if !left.made || answers_for(q.ours, reference) || held_back_names(q.held_back, reference) {
            q
        } else {
            match now_at(current, reference) {
                Some(pointed) => if pointed.commit == left.oid {
                    PlanView {
                        resets: q.resets.push((reference, DataRefView::Oid(null))),
                        deleted: q.deleted.push(reference),
                        ..q
                    }
                } else {
                    PlanView { held_back: q.held_back.push(seq!['`'] + reference + NOT_DELETED@), ..q }
                },
                None => q,
            }
        }
    }
}

/// Moving the refs, whole: the refs the bookmarks ask for, then the heads
/// nobody named, then what this tool made and the store no longer names, and
/// last the staging ref taken away where anything was parked on it.
pub open spec fn planned(
    bookmarks: Seq<BookmarkView>,
    heads: Seq<(usize, Seq<char>, DataRefView)>,
    current: Map<Seq<char>, PointedView>,
    record: Option<Map<Seq<char>, LeftView>>,
    order: Seq<(Seq<char>, LeftView)>,
    null: Seq<char>,
    sent_any: bool,
) -> PlanView {
    let (wanted, notes, private) = wanted_of(bookmarks);
    let start = PlanView {
        resets: Seq::empty(),
        references: Seq::empty(),
        deleted: Seq::empty(),
        branches: Seq::empty(),
        ours: Seq::empty(),
        held_back: Seq::empty(),
        notes,
        private,
        named: Seq::empty(),
    };
    let a = placed_wanted(start, current, record, wanted);
    let b = placed_heads(a, current, record, heads);
    let c = deleted_all(b, current, null, order);
    if sent_any {
        PlanView { resets: c.resets.push((STAGING@, DataRefView::Oid(null))), ..c }
    } else {
        c
    }
}

} // verus!

verus! {

/// The same ref.
pub fn copy_ref(r: &DataRef) -> (c: DataRef)
    ensures
        c@ == r@,
{
    match r {
        DataRef::Mark(mark) => DataRef::Mark(*mark),
        DataRef::Oid(oid) => DataRef::Oid(oid.clone()),
    }
}

proof fn lemma_names_push(v: Seq<String>, x: String)
    ensures
        names(v.push(x)) == names(v).push(x@),
{
    assert(names(v.push(x)) =~= names(v).push(x@));
}

proof fn lemma_ref_pairs_push(v: Seq<(String, DataRef)>, x: (String, DataRef))
    ensures
        ref_pairs(v.push(x)) == ref_pairs(v).push((x.0@, x.1@)),
{
    assert(ref_pairs(v.push(x)) =~= ref_pairs(v).push((x.0@, x.1@)));
}

/// Where git has a ref, if it has it: [`now_at`].
fn find_pointed<'a>(current: &'a [(String, Pointed)], reference: &String) -> (found: Option<
    &'a Pointed,
>)
    requires
        unique(crate::plumbing::pointed_view(current@)),
    ensures
        match found {
            Some(p) => now_at(as_map(crate::plumbing::pointed_view(current@)), reference@) == Some(
                p@,
            ),
            None => now_at(as_map(crate::plumbing::pointed_view(current@)), reference@) is None,
        },
{
    let ghost pairs = crate::plumbing::pointed_view(current@);
    let mut at: usize = 0;
    while at < current.len()
        invariant
            pairs == crate::plumbing::pointed_view(current@),
            unique(pairs),
            at <= current@.len(),
            forall|i: int| 0 <= i < at ==> #[trigger] pairs[i].0 != reference@,
        decreases current@.len() - at,
    {
        if current[at].0 == *reference {
            proof {
                crate::table::lemma_index(pairs, at as int);
            }
            return Some(&current[at].1);
        }
        at = at + 1;
    }
    proof {
        crate::table::lemma_absent(pairs, reference@);
    }
    None
}

/// One ref placed: [`placed_one`].
fn place(plan: &mut Plan, current: &[(String, Pointed)], refs: &crate::remembered::Refs, reference: String, target: DataRef) -> (stands: bool)
    requires
        unique(crate::plumbing::pointed_view(current@)),
    ensures
        final(plan)@ == placed_one(
            old(plan)@,
            as_map(crate::plumbing::pointed_view(current@)),
            refs@,
            reference@,
            target@,
        ).0,
        stands == placed_one(
            old(plan)@,
            as_map(crate::plumbing::pointed_view(current@)),
            refs@,
            reference@,
            target@,
        ).1,
{
    let now = find_pointed(current, &reference);
    let left = refs.left(reference.as_str());
    match decide(now, left, &target) {
        Decided::Move => {
            let reset = (reference.clone(), copy_ref(&target));
            let moved = reference.clone();
            let entry = (reference, target);
            proof {
                lemma_ref_pairs_push(plan.resets@, reset);
                lemma_names_push(plan.references@, moved);
                lemma_ref_pairs_push(plan.ours@, entry);
            }
            plan.resets.push(reset);
            plan.references.push(moved);
            plan.ours.push(entry);
            true
        },
        Decided::Already => {
            let entry = (reference, target);
            proof {
                lemma_ref_pairs_push(plan.ours@, entry);
            }
            plan.ours.push(entry);
            true
        },
        Decided::HeldBack(why) => {
            proof {
                reveal_strlit("`");
            }
            let mut line = String::from_str("`");
            line.append(reference.as_str());
            line.append(NOT_MOVED);
            let said = why.reason();
            line.append(said);
            proof {
                assert(line@ == seq!['`'] + reference@ + NOT_MOVED@ + reason_text(why));
                lemma_names_push(plan.held_back@, line);
            }
            plan.held_back.push(line);
            false
        },
    }
}

/// The refs a bookmark list asks for: [`wanted_of`].
fn wanted(bookmarks: &[Bookmark]) -> (out: (Vec<(String, DataRef, usize, bool)>, Vec<String>, usize))
    ensures
        forall|i: int| 0 <= i < out.0@.len() ==> (#[trigger] out.0@[i]).3 ==> starts_with_heads(out.0@[i].0@),
        (
            out.0@.map_values(|w: (String, DataRef, usize, bool)| (w.0@, w.1@, w.2, w.3)),
            names(out.1@),
            out.2 as nat,
        ) == wanted_of(bookmarks@.map_values(|b: Bookmark| b@)),
{
    let ghost all = bookmarks@.map_values(|b: Bookmark| b@);
    let mut list: Vec<(String, DataRef, usize, bool)> = Vec::new();
    let mut notes: Vec<String> = Vec::new();
    let mut private: usize = 0;
    let mut at: usize = 0;
    proof {
        assert(all.subrange(0, 0) =~= Seq::<BookmarkView>::empty());
        assert(names(notes@) =~= Seq::<Seq<char>>::empty());
        assert(list@.map_values(|w: (String, DataRef, usize, bool)| (w.0@, w.1@, w.2, w.3))
            =~= Seq::<(Seq<char>, DataRefView, usize, bool)>::empty());
    }
    while at < bookmarks.len()
        invariant
            all == bookmarks@.map_values(|b: Bookmark| b@),
            at <= bookmarks@.len(),
            private <= at,
            forall|i: int| 0 <= i < list@.len() ==> (#[trigger] list@[i]).3 ==> starts_with_heads(list@[i].0@),
            (
                list@.map_values(|w: (String, DataRef, usize, bool)| (w.0@, w.1@, w.2, w.3)),
                names(notes@),
                private as nat,
            ) == wanted_of(all.subrange(0, at as int)),
        decreases bookmarks@.len() - at,
    {
        proof {
            assert(all.subrange(0, at + 1).drop_last() =~= all.subrange(0, at as int));
            assert(all.subrange(0, at + 1).last() == bookmarks@[at as int]@);
        }
        let b = &bookmarks[at];
        if !b.travels {
            private = private + 1;
        } else {
            match &b.resolved {
                None => {},
                Some(resolved) => {
                    let directory = if resolved.branch {
                        HEADS
                    } else {
                        TAGS
                    };
                    match git_ref(directory, b.name.as_str()) {
                        None => {
                            let mut line = NO_SUCH_REF_OPENS.to_owned();
                            line.append(b.name.as_str());
                            line.append(NO_SUCH_REF);
                            proof {
                                lemma_names_push(notes@, line);
                            }
                            notes.push(line);
                        },
                        Some(reference) => {
                            let entry = (reference, copy_ref(&resolved.placed), resolved.revision, resolved.branch);
                            proof {
                                if entry.3 {
                                    assert(entry.0@.subrange(0, HEADS@.len() as int) =~= HEADS@);
                                }
                                assert(list@.push(entry).map_values(
                                    |w: (String, DataRef, usize, bool)| (w.0@, w.1@, w.2, w.3),
                                ) =~= list@.map_values(
                                    |w: (String, DataRef, usize, bool)| (w.0@, w.1@, w.2, w.3),
                                ).push((entry.0@, entry.1@, entry.2, entry.3)));
                            }
                            list.push(entry);
                        },
                    }
                },
            }
        }
        at = at + 1;
    }
    proof {
        assert(all.subrange(0, bookmarks@.len() as int) =~= all);
    }
    (list, notes, private)
}

fn names_revision(named: &Vec<usize>, revision: usize) -> (found: bool)
    ensures
        found == named@.contains(revision),
{
    let mut at: usize = 0;
    while at < named.len()
        invariant
            at <= named@.len(),
            forall|i: int| 0 <= i < at ==> named@[i] != revision,
        decreases named@.len() - at,
    {
        if named[at] == revision {
            return true;
        }
        at = at + 1;
    }
    false
}

fn answers(ours: &Vec<(String, DataRef)>, reference: &String) -> (found: bool)
    ensures
        found == answers_for(ref_pairs(ours@), reference@),
{
    let mut at: usize = 0;
    while at < ours.len()
        invariant
            at <= ours@.len(),
            forall|i: int| 0 <= i < at ==> #[trigger] ref_pairs(ours@)[i].0 != reference@,
        decreases ours@.len() - at,
    {
        if ours[at].0 == *reference {
            proof {
                assert(ref_pairs(ours@)[at as int].0 == reference@);
            }
            return true;
        }
        at = at + 1;
    }
    false
}

fn says_held_back(held_back: &Vec<String>, reference: &String) -> (said: bool)
    ensures
        said == held_back_names(names(held_back@), reference@),
{
    let mut quoted = String::from_str("`");
    quoted.append(reference.as_str());
    quoted.append("`");
    proof {
        reveal_strlit("`");
    }
    let mut at: usize = 0;
    while at < held_back.len()
        invariant
            at <= held_back@.len(),
            quoted@ == seq!['`'] + reference@ + seq!['`'],
            forall|i: int|
                0 <= i < at ==> crate::import::after_prefix(
                    #[trigger] names(held_back@)[i],
                    quoted@,
                ) is None,
        decreases held_back@.len() - at,
    {
        let chars = crate::remembered::characters(held_back[at].as_str());
        if crate::import::strip_prefix(held_back[at].as_str(), &chars, quoted.as_str()).is_some() {
            proof {
                assert(names(held_back@)[at as int] == held_back@[at as int]@);
            }
            return true;
        }
        proof {
            assert(names(held_back@)[at as int] == held_back@[at as int]@);
        }
        at = at + 1;
    }
    false
}

/// Moving the refs, whole: [`planned`].
///
/// `current` is where git has each ref; `refs` is the repository's record of
/// where the last write left them; `null` is the repository's null object ID,
/// which is how fast-import spells a deletion.
pub fn plan_refs(
    bookmarks: &[Bookmark],
    heads: &[Head],
    current: &[(String, Pointed)],
    refs: &crate::remembered::Refs,
    null: &String,
    sent_any: bool,
) -> (plan: Plan)
    requires
        unique(crate::plumbing::pointed_view(current@)),
    ensures
        plan@ == planned(
            bookmarks@.map_values(|b: Bookmark| b@),
            heads@.map_values(|h: Head| (h.revision, h.abbreviated@, h.placed@)),
            as_map(crate::plumbing::pointed_view(current@)),
            refs@,
            refs.in_order(),
            null@,
            sent_any,
        ),
{
    let ghost now = as_map(crate::plumbing::pointed_view(current@));
    let (list, notes, private) = wanted(bookmarks);
    let mut plan = Plan {
        resets: Vec::new(),
        references: Vec::new(),
        deleted: Vec::new(),
        branches: Vec::new(),
        ours: Vec::new(),
        held_back: Vec::new(),
        notes,
        private,
        named: Vec::new(),
    };
    let ghost start = plan@;
    let ghost wanted_view = list@.map_values(|w: (String, DataRef, usize, bool)| (w.0@, w.1@, w.2, w.3));
    proof {
        assert(start.resets =~= Seq::<(Seq<char>, DataRefView)>::empty());
        assert(start.references =~= Seq::<Seq<char>>::empty());
        assert(start.deleted =~= Seq::<Seq<char>>::empty());
        assert(start.branches =~= Seq::<Seq<char>>::empty());
        assert(start.ours =~= Seq::<(Seq<char>, DataRefView)>::empty());
        assert(start.held_back =~= Seq::<Seq<char>>::empty());
        assert(wanted_view.subrange(0, 0) =~= Seq::<(Seq<char>, DataRefView, usize, bool)>::empty());
    }
    let mut at: usize = 0;
    while at < list.len()
        invariant
            unique(crate::plumbing::pointed_view(current@)),
            now == as_map(crate::plumbing::pointed_view(current@)),
            wanted_view == list@.map_values(|w: (String, DataRef, usize, bool)| (w.0@, w.1@, w.2, w.3)),
            at <= list@.len(),
            forall|i: int| 0 <= i < list@.len() ==> (#[trigger] list@[i]).3 ==> starts_with_heads(list@[i].0@),
            plan@ == placed_wanted(start, now, refs@, wanted_view.subrange(0, at as int)),
        decreases list@.len() - at,
    {
        proof {
            assert(wanted_view.subrange(0, at + 1).drop_last() =~= wanted_view.subrange(0, at as int));
        }
        let reference = list[at].0.clone();
        let target = copy_ref(&list[at].1);
        let revision = list[at].2;
        let branch = list[at].3;
        let stands = place(&mut plan, current, refs, reference, target);
        if stands {
            plan.named.push(revision);
            if branch {
                let chars = crate::remembered::characters(list[at].0.as_str());
                let heads_chars = crate::remembered::characters(HEADS);
                proof {
                    assert(starts_with_heads(list@[at as int].0@));
                }
                let name = list[at].0.as_str().substring_char(heads_chars.len(), chars.len()).to_owned();
                proof {
                    lemma_names_push(plan.branches@, name);
                }
                plan.branches.push(name);
            }
        }
        at = at + 1;
    }
    proof {
        assert(wanted_view.subrange(0, list@.len() as int) =~= wanted_view);
    }
    let ghost after_wanted = plan@;
    let ghost head_view = heads@.map_values(|h: Head| (h.revision, h.abbreviated@, h.placed@));
    proof {
        assert(head_view.subrange(0, 0) =~= Seq::<(usize, Seq<char>, DataRefView)>::empty());
    }
    let mut at: usize = 0;
    while at < heads.len()
        invariant
            unique(crate::plumbing::pointed_view(current@)),
            now == as_map(crate::plumbing::pointed_view(current@)),
            head_view == heads@.map_values(|h: Head| (h.revision, h.abbreviated@, h.placed@)),
            at <= heads@.len(),
            plan@ == placed_heads(after_wanted, now, refs@, head_view.subrange(0, at as int)),
        decreases heads@.len() - at,
    {
        proof {
            assert(head_view.subrange(0, at + 1).drop_last() =~= head_view.subrange(0, at as int));
        }
        let head = &heads[at];
        if !names_revision(&plan.named, head.revision) {
            proof {
                reveal_strlit("/");
            }
            let mut reference = UNNAMED.to_owned();
            reference.append("/");
            reference.append(head.abbreviated.as_str());
            proof {
                assert(reference@ == UNNAMED@ + seq!['/'] + head.abbreviated@);
            }
            let _ = place(&mut plan, current, refs, reference, copy_ref(&head.placed));
        }
        at = at + 1;
    }
    proof {
        assert(head_view.subrange(0, heads@.len() as int) =~= head_view);
    }
    let ghost after_heads = plan@;
    let record = refs.iter();
    let ghost order = crate::remembered::record_view(record@);
    proof {
        assert(order.subrange(0, 0) =~= Seq::<(Seq<char>, LeftView)>::empty());
    }
    let mut at: usize = 0;
    while at < record.len()
        invariant
            now == as_map(crate::plumbing::pointed_view(current@)),
            unique(crate::plumbing::pointed_view(current@)),
            order == crate::remembered::record_view(record@),
            at <= record@.len(),
            plan@ == deleted_all(after_heads, now, null@, order.subrange(0, at as int)),
        decreases record@.len() - at,
    {
        proof {
            assert(order.subrange(0, at + 1).drop_last() =~= order.subrange(0, at as int));
            assert(order[at as int] == (record@[at as int].0@, record@[at as int].1@));
        }
        let reference = &record[at].0;
        let left = &record[at].1;
        if left.made && !answers(&plan.ours, reference) && !says_held_back(&plan.held_back, reference) {
            match find_pointed(current, reference) {
                Some(pointed) => {
                    if pointed.commit == left.oid {
                        let reset = (reference.clone(), DataRef::Oid(null.clone()));
                        let gone = reference.clone();
                        proof {
                            lemma_ref_pairs_push(plan.resets@, reset);
                            lemma_names_push(plan.deleted@, gone);
                        }
                        plan.resets.push(reset);
                        plan.deleted.push(gone);
                    } else {
                        proof {
                            reveal_strlit("`");
                        }
                        let mut line = String::from_str("`");
                        line.append(reference.as_str());
                        line.append(NOT_DELETED);
                        proof {
                            assert(line@ == seq!['`'] + reference@ + NOT_DELETED@);
                            lemma_names_push(plan.held_back@, line);
                        }
                        plan.held_back.push(line);
                    }
                },
                None => {},
            }
        }
        at = at + 1;
    }
    proof {
        assert(order.subrange(0, record@.len() as int) =~= order);
    }
    if sent_any {
        let staging = (STAGING.to_owned(), DataRef::Oid(null.clone()));
        proof {
            lemma_ref_pairs_push(plan.resets@, staging);
        }
        plan.resets.push(staging);
    }
    plan
}

/// Whether a ref is a branch's: under `refs/heads/`.
pub open spec fn starts_with_heads(reference: Seq<char>) -> bool {
    HEADS@.len() <= reference.len() && reference.subrange(0, HEADS@.len() as int) == HEADS@
}

} // verus!

verus! {

// ---------------------------------------------------------------------------
// The committer and the signature, back from their headers
// ---------------------------------------------------------------------------

/// The same person.
pub fn copy_person(person: &crate::stream::Person) -> (other: crate::stream::Person)
    ensures
        other@ == person@,
{
    crate::stream::Person {
        name: crate::bytes::copy(&person.name),
        email: crate::bytes::copy(&person.email),
        seconds: person.seconds,
        offset_minutes: person.offset_minutes,
    }
}

/// Who committed a revision: the committer its `git.committer` header names,
/// where it has one that reads; else its author, as decision 0004 has it,
/// because a committer read from this machine's clock and configuration would
/// make the object ID a fact about who ran the conversion. The second half
/// says whether a header was there and did not read.
pub open spec fn committer_of(header: Option<Seq<u8>>, author: crate::stream::PersonView) -> (
    crate::stream::PersonView,
    bool,
) {
    match header {
        None => (author, false),
        Some(value) => match crate::carried::person_of(value) {
            Some(committer) => (committer, false),
            None => (author, true),
        },
    }
}

/// Who committed a revision: [`committer_of`].
pub fn committer(header: Option<&str>, author: &crate::stream::Person) -> (found: (
    crate::stream::Person,
    bool,
))
    requires
        header matches Some(value) ==> !crate::carried::splits_a_character(value.spec_bytes()),
    ensures
        (found.0@, found.1) == committer_of(
            match header {
                Some(value) => Some(value.spec_bytes()),
                None => None,
            },
            author@,
        ),
{
    match header {
        None => (copy_person(author), false),
        Some(value) => match crate::carried::read_person(value) {
            Some(committer) => (committer, false),
            None => (copy_person(author), true),
        },
    }
}

/// What becomes of a revision's signature.
#[derive(Clone, PartialEq, Eq, Debug)]
pub enum Signed {
    /// The revision carries none.
    Unsigned,
    /// It carries one, over a commit it is no longer the same work as: a
    /// signature is a claim about exact bytes, so an amended revision has no
    /// right to its predecessor's. It does not cross.
    Invalidated,
    /// It carries one that does not read as this tool writes it. It does not
    /// cross.
    Unreadable,
    /// It crosses.
    Signed(crate::stream::Signature),
}

/// A [`Signed`], as a contract speaks of it.
pub enum SignedView {
    Unsigned,
    Invalidated,
    Unreadable,
    Signed(crate::stream::SignatureView),
}

impl View for Signed {
    type V = SignedView;

    open spec fn view(&self) -> SignedView {
        match self {
            Signed::Unsigned => SignedView::Unsigned,
            Signed::Invalidated => SignedView::Invalidated,
            Signed::Unreadable => SignedView::Unreadable,
            Signed::Signed(s) => SignedView::Signed(s@),
        }
    }
}

/// The signature a revision has a right to, from its `git.signature` and
/// `git.signature-kind` headers and whether it supersedes another revision.
pub open spec fn signed_of(signature: Option<Seq<u8>>, kind: Option<Seq<u8>>, supersedes: bool) -> SignedView {
    match signature {
        None => SignedView::Unsigned,
        Some(value) => if supersedes {
            SignedView::Invalidated
        } else {
            match (
                crate::carried::read_value(value),
                match kind {
                    Some(k) => crate::carried::read_value(k),
                    None => None,
                },
            ) {
                (Some(data), Some(kind)) => SignedView::Signed(crate::stream::SignatureView { kind, data }),
                _ => SignedView::Unreadable,
            }
        },
    }
}

/// The signature a revision has a right to: [`signed_of`].
pub fn signature(header: Option<&str>, kind: Option<&str>, supersedes: bool) -> (signed: Signed)
    ensures
        signed@ == signed_of(
            match header {
                Some(v) => Some(v.spec_bytes()),
                None => None,
            },
            match kind {
                Some(k) => Some(k.spec_bytes()),
                None => None,
            },
            supersedes,
        ),
{
    let value = match header {
        None => return Signed::Unsigned,
        Some(value) => value,
    };
    if supersedes {
        return Signed::Invalidated;
    }
    let data = crate::carried::read(value);
    let kind = match kind {
        Some(k) => crate::carried::read(k),
        None => None,
    };
    match (data, kind) {
        (Some(data), Some(kind)) => Signed::Signed(crate::stream::Signature { kind, data }),
        _ => Signed::Unreadable,
    }
}

} // verus!

verus! {

// ---------------------------------------------------------------------------
// What a commit stands on
// ---------------------------------------------------------------------------

/// Where a parent stands once a superseded one is walked up from: while the
/// revision is not one git is sent and was superseded, its first parent; at
/// most once past as many steps as the history has revisions. Also how many
/// steps that took.
pub open spec fn climbed(
    visible: Seq<bool>,
    superseded: Seq<bool>,
    first: Seq<Option<usize>>,
    at: usize,
    guard: nat,
) -> (usize, nat)
    decreases visible.len() + 1 - guard,
{
    let n = visible.len();
    if !(at < n && !visible[at as int] && superseded[at as int]) || guard > n {
        (at, 0)
    } else {
        match first[at as int] {
            None => (at, 1),
            Some(next) => if guard + 1 > n {
                (next, 1)
            } else {
                let (end, steps) = climbed(visible, superseded, first, next, guard + 1);
                (end, steps + 1)
            },
        }
    }
}

/// Where in git each of a revision's parents stands — the nearest ancestor
/// git has, for one that was rewritten away — each once, in order; and how
/// many steps up were taken.
pub open spec fn stood_on(
    visible: Seq<bool>,
    superseded: Seq<bool>,
    first: Seq<Option<usize>>,
    placed: Seq<Option<DataRefView>>,
    parents: Seq<usize>,
) -> (Seq<DataRefView>, nat)
    decreases parents.len(),
{
    if parents.len() == 0 {
        (Seq::empty(), 0)
    } else {
        let (done, rewritten) = stood_on(visible, superseded, first, placed, parents.drop_last());
        let (at, steps) = climbed(visible, superseded, first, parents.last(), 0);
        let here = if at < placed.len() {
            placed[at as int]
        } else {
            None
        };
        (
            match here {
                Some(d) => if done.contains(d) {
                    done
                } else {
                    done.push(d)
                },
                None => done,
            },
            rewritten + steps,
        )
    }
}

/// Whether two refs name the same thing.
pub fn same_ref(a: &DataRef, b: &DataRef) -> (same: bool)
    ensures
        same == (a@ == b@),
{
    match (a, b) {
        (DataRef::Mark(x), DataRef::Mark(y)) => x.0 == y.0,
        (DataRef::Oid(x), DataRef::Oid(y)) => *x == *y,
        _ => false,
    }
}

fn climb(visible: &[bool], superseded: &[bool], first: &[Option<usize>], start: usize) -> (end: (usize, usize))
    requires
        visible@.len() < usize::MAX,
        superseded@.len() == visible@.len(),
        first@.len() == visible@.len(),
    ensures
        (end.0, end.1 as nat) == climbed(visible@, superseded@, first@, start, 0),
{
    let n = visible.len();
    let mut at = start;
    let mut guard: usize = 0;
    let mut steps: usize = 0;
    loop
        invariant
            n == visible@.len(),
            n < usize::MAX,
            superseded@.len() == n,
            first@.len() == n,
            guard <= n,
            steps == guard,
            climbed(visible@, superseded@, first@, start, 0).0 == climbed(
                visible@,
                superseded@,
                first@,
                at,
                guard as nat,
            ).0,
            climbed(visible@, superseded@, first@, start, 0).1 == climbed(
                visible@,
                superseded@,
                first@,
                at,
                guard as nat,
            ).1 + steps,
        decreases n + 1 - guard,
    {
        if !(at < n && !visible[at] && superseded[at]) {
            return (at, steps);
        }
        steps = steps + 1;
        match first[at] {
            None => return (at, steps),
            Some(next) => {
                if guard + 1 > n {
                    return (next, steps);
                }
                at = next;
                guard = guard + 1;
            },
        }
    }
}

fn holds_ref(list: &Vec<DataRef>, d: &DataRef) -> (found: bool)
    ensures
        found == list@.map_values(|r: DataRef| r@).contains(d@),
{
    let ghost view = list@.map_values(|r: DataRef| r@);
    let mut at: usize = 0;
    while at < list.len()
        invariant
            view == list@.map_values(|r: DataRef| r@),
            at <= list@.len(),
            forall|i: int| 0 <= i < at ==> #[trigger] view[i] != d@,
        decreases list@.len() - at,
    {
        if same_ref(&list[at], d) {
            proof {
                assert(view[at as int] == d@);
            }
            return true;
        }
        at = at + 1;
    }
    false
}

/// Where in git a revision's parents stand: [`stood_on`]. A parent that was
/// superseded is not a commit git has, so this walks up to the nearest
/// ancestor that is one: the shape of the history is kept, and the rewriting
/// that produced it is what does not cross.
pub fn parents(
    visible: &[bool],
    superseded: &[bool],
    first: &[Option<usize>],
    placed: &[Option<DataRef>],
    stated: &[usize],
) -> (found: (Vec<DataRef>, usize))
    requires
        superseded@.len() == visible@.len(),
        first@.len() == visible@.len(),
        placed@.len() == visible@.len(),
        stated@.len() * (visible@.len() + 1) <= usize::MAX,
    ensures
        (found.0@.map_values(|r: DataRef| r@), found.1 as nat) == stood_on(
            visible@,
            superseded@,
            first@,
            placed@.map_values(|p: Option<DataRef>| crate::stream::option_view(p)),
            stated@,
        ),
{
    let ghost placed_view = placed@.map_values(|p: Option<DataRef>| crate::stream::option_view(p));
    let mut out: Vec<DataRef> = Vec::new();
    let mut rewritten: usize = 0;
    let mut k: usize = 0;
    proof {
        assert(stated@.subrange(0, 0) =~= Seq::<usize>::empty());
        assert(out@.map_values(|r: DataRef| r@) =~= Seq::<DataRefView>::empty());
    }
    while k < stated.len()
        invariant
            superseded@.len() == visible@.len(),
            first@.len() == visible@.len(),
            placed@.len() == visible@.len(),
            stated@.len() * (visible@.len() + 1) <= usize::MAX,
            placed_view == placed@.map_values(|p: Option<DataRef>| crate::stream::option_view(p)),
            k <= stated@.len(),
            rewritten <= k * (visible@.len() + 1),
            (out@.map_values(|r: DataRef| r@), rewritten as nat) == stood_on(
                visible@,
                superseded@,
                first@,
                placed_view,
                stated@.subrange(0, k as int),
            ),
        decreases stated@.len() - k,
    {
        proof {
            assert(stated@.subrange(0, k + 1).drop_last() =~= stated@.subrange(0, k as int));
            lemma_climbed_bound(visible@, superseded@, first@, stated@[k as int], 0);
            assert((k + 1) * (visible@.len() + 1) == k * (visible@.len() + 1) + visible@.len() + 1) by (nonlinear_arith);
            assert((k + 1) * (visible@.len() + 1) <= stated@.len() * (visible@.len() + 1)) by (nonlinear_arith)
                requires k + 1 <= stated@.len();
            assert(visible@.len() + 1 <= stated@.len() * (visible@.len() + 1)) by (nonlinear_arith)
                requires 1 <= stated@.len();
        }
        let (at, steps) = climb(visible, superseded, first, stated[k]);
        rewritten = rewritten + steps;
        if at < placed.len() {
            if let Some(d) = &placed[at] {
                if !holds_ref(&out, d) {
                    let copy = copy_ref(d);
                    proof {
                        assert(out@.push(copy).map_values(|r: DataRef| r@) =~= out@.map_values(
                            |r: DataRef| r@,
                        ).push(d@));
                    }
                    out.push(copy);
                }
            }
        }
        k = k + 1;
    }
    proof {
        assert(stated@.subrange(0, stated@.len() as int) =~= stated@);
    }
    (out, rewritten)
}

proof fn lemma_climbed_bound(
    visible: Seq<bool>,
    superseded: Seq<bool>,
    first: Seq<Option<usize>>,
    at: usize,
    guard: nat,
)
    requires
        guard <= visible.len(),
    ensures
        climbed(visible, superseded, first, at, guard).1 <= visible.len() + 1 - guard,
    decreases visible.len() + 1 - guard,
{
    let n = visible.len();
    if (at < n && !visible[at as int] && superseded[at as int]) && guard <= n {
        match first[at as int] {
            None => {},
            Some(next) => if guard + 1 <= n {
                lemma_climbed_bound(visible, superseded, first, next, guard + 1);
            },
        }
    }
}

} // verus!

verus! {

/// What holds of the revisions placed so far: each placed once, each flagged,
/// each flag set for one placed, and each placed after every one of its
/// parents that is being sent at all.
pub open spec fn placed_well(parents: Seq<Seq<usize>>, placed: Seq<bool>, out: Seq<usize>) -> bool {
    &&& parents.len() <= usize::MAX
    &&& placed.len() == parents.len()
    &&& forall|m: int| 0 <= m < out.len() ==> #[trigger] out[m] < placed.len() && placed[out[m] as int]
    &&& forall|i: int| 0 <= i < placed.len() && #[trigger] placed[i] ==> out.contains(i as usize)
    &&& forall|a: int, b: int| 0 <= a < b < out.len() ==> #[trigger] out[a] != #[trigger] out[b]
    &&& forall|m: int, j: int|
        0 <= m < out.len() && 0 <= j < parents[out[m] as int].len() && #[trigger] parents[out[m] as int][j]
            < parents.len() ==> exists|e: int| 0 <= e < m && #[trigger] out[e] == parents[out[m] as int][j]
}

proof fn lemma_sweep_well(parents: Seq<Seq<usize>>, placed: Seq<bool>, out: Seq<usize>, i: int)
    requires
        0 <= i,
        placed_well(parents, placed, out),
    ensures
        placed_well(parents, sweep(parents, placed, out, i).0, sweep(parents, placed, out, i).1),
    decreases placed.len() - i,
{
    if i < placed.len() {
        if !placed[i] && ready(parents, placed, i) {
            let p2 = placed.update(i, true);
            let o2 = out.push(i as usize);
            assert(!out.contains(i as usize)) by {
                if out.contains(i as usize) {
                    let m = choose|m: int| 0 <= m < out.len() && out[m] == i as usize;
                    assert(placed[out[m] as int]);
                }
            }
            assert forall|m: int| 0 <= m < o2.len() implies #[trigger] o2[m] < p2.len() && p2[o2[m] as int] by {
                if m < out.len() {
                    assert(o2[m] == out[m]);
                    assert(out[m] < placed.len() && placed[out[m] as int]);
                }
            }
            assert forall|x: int| 0 <= x < p2.len() && #[trigger] p2[x] implies o2.contains(x as usize) by {
                if x == i {
                    assert(o2[out.len() as int] == i as usize);
                } else {
                    assert(placed[x]);
                    let m = choose|m: int| 0 <= m < out.len() && out[m] == x as usize;
                    assert(o2[m] == x as usize);
                }
            }
            assert forall|a: int, b: int| 0 <= a < b < o2.len() implies #[trigger] o2[a] != #[trigger] o2[b] by {
                if b == out.len() {
                    assert(o2[a] == out[a]);
                    assert(out.contains(out[a]));
                } else {
                    assert(out[a] != out[b]);
                }
            }
            assert forall|m: int, j: int|
                0 <= m < o2.len() && 0 <= j < parents[o2[m] as int].len() && #[trigger] parents[o2[m] as int][j]
                    < parents.len() implies exists|e: int| 0 <= e < m && #[trigger] o2[e] == parents[o2[m] as int][j] by {
                if m < out.len() {
                    assert(o2[m] == out[m]);
                    assert(parents[out[m] as int][j] < parents.len());
                    let e = choose|e: int| 0 <= e < m && #[trigger] out[e] == parents[out[m] as int][j];
                    assert(o2[e] == out[e]);
                } else {
                    let p = parents[i][j];
                    assert(placed[p as int]);
                    let e = choose|e: int| 0 <= e < out.len() && out[e] == p;
                    assert(o2[e] == out[e]);
                }
            }
            assert(placed_well(parents, p2, o2));
            lemma_sweep_well(parents, p2, o2, i + 1);
        } else {
            lemma_sweep_well(parents, placed, out, i + 1);
        }
    }
}

proof fn lemma_sweeps_well(parents: Seq<Seq<usize>>, placed: Seq<bool>, out: Seq<usize>, fuel: nat) -> (p: Seq<bool>)
    requires
        placed_well(parents, placed, out),
    ensures
        placed_well(parents, p, sweeps(parents, placed, out, fuel)),
    decreases fuel,
{
    lemma_sweep_well(parents, placed, out, 0);
    let (after, more) = sweep(parents, placed, out, 0);
    if fuel == 0 || more.len() == out.len() {
        placed
    } else {
        lemma_sweeps_well(parents, after, more, (fuel - 1) as nat)
    }
}

/// Flags all set count as many as there are; flags all clear count none.
proof fn lemma_count_uniform(flags: Seq<bool>, value: bool)
    requires
        forall|i: int| 0 <= i < flags.len() ==> flags[i] == value,
    ensures
        count(flags) == if value { flags.len() } else { 0 },
    decreases flags.len(),
{
    if flags.len() > 0 {
        lemma_count_uniform(flags.drop_last(), value);
    }
}

/// A sweep unplaces nothing.
proof fn lemma_sweep_keeps(parents: Seq<Seq<usize>>, placed: Seq<bool>, out: Seq<usize>, i: int, x: int)
    requires
        0 <= i,
        0 <= x < placed.len(),
        placed[x],
    ensures
        sweep(parents, placed, out, i).0.len() == placed.len(),
        sweep(parents, placed, out, i).0[x],
    decreases placed.len() - i,
{
    if i < placed.len() {
        if !placed[i] && ready(parents, placed, i) {
            lemma_sweep_keeps(parents, placed.update(i, true), out.push(i as usize), i + 1, x);
        } else {
            lemma_sweep_keeps(parents, placed, out, i + 1, x);
        }
    }
}

/// A sweep places every revision it comes to whose parents are placed.
proof fn lemma_sweep_places_ready(
    parents: Seq<Seq<usize>>,
    placed: Seq<bool>,
    out: Seq<usize>,
    i: int,
    x: int,
)
    requires
        0 <= i <= x < placed.len(),
        ready(parents, placed, x),
    ensures
        sweep(parents, placed, out, i).0[x],
    decreases placed.len() - i,
{
    if placed[x] {
        lemma_sweep_keeps(parents, placed, out, i, x);
    } else if !placed[i] && ready(parents, placed, i) {
        let p2 = placed.update(i, true);
        if i == x {
            lemma_sweep_keeps(parents, p2, out.push(i as usize), i + 1, x);
        } else {
            assert(ready(parents, p2, x)) by {
                assert forall|j: int| 0 <= j < parents[x].len() implies (parents[x][j] >= p2.len()
                    || p2[parents[x][j] as int]) by {
                    if parents[x][j] < placed.len() {
                        assert(placed[parents[x][j] as int]);
                    }
                }
            }
            lemma_sweep_places_ready(parents, p2, out.push(i as usize), i + 1, x);
        }
    } else {
        lemma_sweep_places_ready(parents, placed, out, i + 1, x);
    }
}

/// A sweep that sends nothing more places nothing more.
proof fn lemma_sweep_still(parents: Seq<Seq<usize>>, placed: Seq<bool>, out: Seq<usize>, i: int)
    requires
        0 <= i,
        out.len() == count(placed),
    ensures
        sweep(parents, placed, out, i).1.len() == out.len() ==> sweep(parents, placed, out, i).0
            == placed,
    decreases placed.len() - i,
{
    if i < placed.len() {
        if !placed[i] && ready(parents, placed, i) {
            crate::flags::lemma_count_set(placed, i);
            lemma_sweep_counts(parents, placed.update(i, true), out.push(i as usize), i + 1);
        } else {
            lemma_sweep_still(parents, placed, out, i + 1);
        }
    }
}

/// Where every unplaced revision waits on an unplaced parent, and parents
/// rank below their children, every revision is placed.
proof fn lemma_none_waits_for_ever(
    parents: Seq<Seq<usize>>,
    rank: Seq<nat>,
    placed: Seq<bool>,
    x: int,
)
    requires
        placed.len() == parents.len(),
        rank.len() == parents.len(),
        forall|i: int, j: int|
            0 <= i < parents.len() && 0 <= j < parents[i].len() && #[trigger] parents[i][j]
                < parents.len() ==> rank[parents[i][j] as int] < rank[i],
        forall|y: int| 0 <= y < placed.len() && !placed[y] ==> !ready(parents, placed, y),
        0 <= x < placed.len(),
    ensures
        placed[x],
    decreases rank[x],
{
    if !placed[x] {
        assert(!ready(parents, placed, x));
        let j = choose|j: int|
            0 <= j < parents[x].len() && !(parents[x][j] >= placed.len() || placed[parents[x][j] as int]);
        let p = parents[x][j] as int;
        assert(rank[p] < rank[x]);
        lemma_none_waits_for_ever(parents, rank, placed, p);
    }
}

/// Sweeps with fuel to spare place every revision, where parents rank below
/// their children.
proof fn lemma_sweeps_all(
    parents: Seq<Seq<usize>>,
    rank: Seq<nat>,
    placed: Seq<bool>,
    out: Seq<usize>,
    fuel: nat,
) -> (p: Seq<bool>)
    requires
        placed_well(parents, placed, out),
        out.len() == count(placed),
        fuel + out.len() >= parents.len() + 1,
        rank.len() == parents.len(),
        forall|i: int, j: int|
            0 <= i < parents.len() && 0 <= j < parents[i].len() && #[trigger] parents[i][j]
                < parents.len() ==> rank[parents[i][j] as int] < rank[i],
    ensures
        placed_well(parents, p, sweeps(parents, placed, out, fuel)),
        sweeps(parents, placed, out, fuel).len() == count(p),
        forall|i: int| 0 <= i < p.len() ==> p[i],
    decreases fuel,
{
    crate::flags::lemma_count_bound(placed);
    lemma_sweep_counts(parents, placed, out, 0);
    lemma_sweep_well(parents, placed, out, 0);
    lemma_sweep_still(parents, placed, out, 0);
    let (after, more) = sweep(parents, placed, out, 0);
    if fuel == 0 {
        placed
    } else if more.len() == out.len() {
        assert forall|i: int| 0 <= i < placed.len() implies placed[i] by {
            if !placed[i] {
                assert forall|y: int| 0 <= y < placed.len() && !placed[y] implies !ready(
                    parents,
                    placed,
                    y,
                ) by {
                    if ready(parents, placed, y) {
                        lemma_sweep_places_ready(parents, placed, out, 0, y);
                    }
                }
                lemma_none_waits_for_ever(parents, rank, placed, i);
            }
        }
        placed
    } else {
        lemma_sweeps_all(parents, rank, after, more, (fuel - 1) as nat)
    }
}

/// Every revision is sent, each once, where no revision is its own ancestor:
/// given ranks that put every parent being sent below its child, the order
/// holds every revision.
pub proof fn every_revision_is_sent_where_no_parent_loops(parents: Seq<Seq<usize>>, rank: Seq<nat>)
    requires
        parents.len() <= usize::MAX,
        rank.len() == parents.len(),
        forall|i: int, j: int|
            0 <= i < parents.len() && 0 <= j < parents[i].len() && #[trigger] parents[i][j]
                < parents.len() ==> rank[parents[i][j] as int] < rank[i],
    ensures
        order_of(parents).len() == parents.len(),
        forall|i: usize| i < parents.len() ==> #[trigger] order_of(parents).contains(i),
{
    let start = Seq::new(parents.len(), |i: int| false);
    let none = Seq::<usize>::empty();
    assert(placed_well(parents, start, none));
    lemma_count_uniform(start, false);
    let p = lemma_sweeps_all(parents, rank, start, none, parents.len() + 1);
    lemma_count_uniform(p, true);
    assert forall|i: usize| i < parents.len() implies #[trigger] order_of(parents).contains(i) by {
        assert(p[i as int]);
    }
}

/// Parents are sent before children: every revision is sent after each of its
/// parents that is sent at all, and none is sent twice.
pub proof fn parents_are_sent_before_children(parents: Seq<Seq<usize>>)
    requires
        parents.len() <= usize::MAX,
    ensures
        forall|k: int| 0 <= k < order_of(parents).len() ==> #[trigger] order_of(parents)[k] < parents.len(),
        forall|a: int, b: int|
            0 <= a < b < order_of(parents).len() ==> #[trigger] order_of(parents)[a] != #[trigger] order_of(
                parents,
            )[b],
        forall|k: int, j: int|
            0 <= k < order_of(parents).len() && 0 <= j < parents[order_of(parents)[k] as int].len()
                && #[trigger] parents[order_of(parents)[k] as int][j] < parents.len() ==> exists|e: int|
                0 <= e < k && #[trigger] order_of(parents)[e] == parents[order_of(parents)[k] as int][j],
{
    let start = Seq::new(parents.len(), |i: int| false);
    let none = Seq::<usize>::empty();
    assert(placed_well(parents, start, none));
    let p = lemma_sweeps_well(parents, start, none, parents.len() + 1);
    assert(placed_well(parents, p, order_of(parents)));
}

} // verus!

verus! {

pub const HEAD_DELETED_OPENS: &'static str = "HEAD is on `";

pub const HEAD_DELETED: &'static str = "`, which this conversion deleted; git will treat the next commit as the first on a branch of that name";

pub const HEAD_DIRTY: &'static str = "`, which moved, and the working tree has changes of its own; it was left as it is, and `git reset --hard` is what brings it up once they are dealt with";

pub const NO_BRANCH: &'static str = "nothing says which branch is checked out, because no bookmark named a branch; git's own default is what HEAD points at and it points at nothing";

/// What is said of catching an existing repository's working tree up.
pub open spec fn catch_up_said(what: CatchUpView) -> Option<Seq<char>> {
    match what {
        CatchUpView::HeadDeleted(branch) => Some(HEAD_DELETED_OPENS@ + branch + HEAD_DELETED@),
        CatchUpView::Dirty(branch) => Some(HEAD_DELETED_OPENS@ + branch + HEAD_DIRTY@),
        _ => None,
    }
}

impl CatchUp {
    /// What the report says of it: [`catch_up_said`].
    pub fn note(&self) -> (said: Option<String>)
        ensures
            match said {
                Some(s) => catch_up_said(self@) == Some(s@),
                None => catch_up_said(self@) is None,
            },
    {
        match self {
            CatchUp::HeadDeleted(branch) => {
                let mut said = HEAD_DELETED_OPENS.to_owned();
                said.append(branch.as_str());
                said.append(HEAD_DELETED);
                Some(said)
            },
            CatchUp::Dirty(branch) => {
                let mut said = HEAD_DELETED_OPENS.to_owned();
                said.append(branch.as_str());
                said.append(HEAD_DIRTY);
                Some(said)
            },
            _ => None,
        }
    }
}

} // verus!
