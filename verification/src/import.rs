//! A git repository, converted into a Historica store: what the conversion
//! decides.
//!
//! `git fast-export` writes a stream, the reader parses it, the replay works
//! out the tree at each commit, and historica records that tree as a folder.
//! Between those steps the conversion decides things a folder cannot carry —
//! who wrote a commit, when, what was renamed, what headers ride along, what
//! each ref becomes, and whether a bookmark that already exists may follow its
//! ref — and says what did not cross. Those decisions are here; running git,
//! writing the folder and talking to the store are the program's.

use vstd::prelude::*;

use crate::bytes::{lossy, text_of};
use crate::export::{counted, line_if, names, HEADS, TAGS};
use crate::flags::count;
use crate::table::{as_map, unique};
use crate::stream::{Change, ChangeView, Person, PersonView};
use crate::tree::{at_or_beneath, beneath, rebase, Tree, TreeMap};
use folder::{path_text, PathRefused, PathRefusedView};

pub mod folder;

verus! {

// ---------------------------------------------------------------------------
// The report
// ---------------------------------------------------------------------------

/// What a conversion did, and what it could not carry.
///
/// Decision 0001 requires the second half: each side holds facts the other has
/// no place for, and dropping them quietly is the failure that matters, because
/// the person holding the result believes it is the thing it came from.
#[derive(Clone, Debug)]
pub struct Report {
    /// Commits read from the stream.
    pub commits: usize,
    /// Revisions written to the store.
    pub revisions: usize,
    /// Commits that changed nothing and are not a merge, which historica has
    /// no revision for. Their descendants stand on their parent instead.
    pub empty: usize,
    /// Commits the store already held, which were recognised and not
    /// converted again.
    pub held: usize,
    /// Bookmarks named at a converted revision.
    pub bookmarks: Vec<String>,
    /// Bookmarks that existed and were moved to where git's ref now is.
    pub moved: Vec<String>,
    /// Whether the store existed before this conversion, in which case the
    /// folder beside it was left exactly as it was.
    pub onto: bool,
    /// One line per kind of fact that did not cross, for a person to read.
    pub uncarried: Vec<String>,
}

impl Report {
    /// A report of nothing done yet.
    pub fn new() -> (report: Report)
        ensures
            report.commits == 0 && report.revisions == 0 && report.empty == 0 && report.held == 0,
            report.bookmarks@.len() == 0 && report.moved@.len() == 0,
            !report.onto && report.uncarried@.len() == 0,
    {
        Report {
            commits: 0,
            revisions: 0,
            empty: 0,
            held: 0,
            bookmarks: Vec::new(),
            moved: Vec::new(),
            onto: false,
            uncarried: Vec::new(),
        }
    }

    /// One more line for a person to read.
    pub fn note(&mut self, line: String)
        ensures
            final(self).uncarried@ == old(self).uncarried@.push(line),
            final(self).commits == old(self).commits,
            final(self).revisions == old(self).revisions,
            final(self).empty == old(self).empty,
            final(self).held == old(self).held,
            final(self).bookmarks@ == old(self).bookmarks@,
            final(self).moved@ == old(self).moved@,
            final(self).onto == old(self).onto,
    {
        self.uncarried.push(line);
    }
}

impl Default for Report {
    fn default() -> (report: Report)
        ensures
            report.commits == 0 && report.revisions == 0 && report.empty == 0 && report.held == 0,
            report.bookmarks@.len() == 0 && report.moved@.len() == 0,
            !report.onto && report.uncarried@.len() == 0,
    {
        Report::new()
    }
}

// ---------------------------------------------------------------------------
// What a ref becomes
// ---------------------------------------------------------------------------

/// What a ref becomes in the store, by decision 0006: a branch follows the
/// work, so it becomes a bookmark on the change; a tag names one version and
/// does not move, so it becomes a bookmark on the revision; anything else is a
/// fact about somewhere else and becomes nothing.
#[derive(Clone, PartialEq, Eq, Debug)]
pub enum Becomes {
    /// `refs/heads/<name>`: a bookmark on the change, called `<name>`.
    Branch(String),
    /// `refs/tags/<name>`: a pinned bookmark on the revision, called `<name>`.
    Tag(String),
    /// Anything else, reported by the directory it sits in.
    Elsewhere(String),
}

/// A [`Becomes`], as a contract speaks of it.
pub enum BecomesView {
    Branch(Seq<char>),
    Tag(Seq<char>),
    Elsewhere(Seq<char>),
}

impl View for Becomes {
    type V = BecomesView;

    open spec fn view(&self) -> BecomesView {
        match self {
            Becomes::Branch(name) => BecomesView::Branch(name@),
            Becomes::Tag(name) => BecomesView::Tag(name@),
            Becomes::Elsewhere(directory) => BecomesView::Elsewhere(directory@),
        }
    }
}

/// What follows `prefix` in `text`, where `text` starts with it.
pub open spec fn after_prefix(text: Seq<char>, prefix: Seq<char>) -> Option<Seq<char>> {
    if prefix.len() <= text.len() && text.subrange(0, prefix.len() as int) == prefix {
        Some(text.subrange(prefix.len() as int, text.len() as int))
    } else {
        None
    }
}

/// The directory a ref that is neither a branch nor a tag sits in — up to and
/// with its last `/` — so that a hundred remote-tracking refs are reported as
/// `refs/remotes/` once. A ref with no `/` is its own directory.
pub open spec fn elsewhere_of(reference: Seq<char>) -> Seq<char> {
    match crate::export::last_of(reference, '/') {
        Some(at) => reference.subrange(0, at + 1),
        None => reference,
    }
}

/// What a ref becomes: [`Becomes`].
pub open spec fn becomes_of(reference: Seq<char>) -> BecomesView {
    match after_prefix(reference, HEADS@) {
        Some(branch) => BecomesView::Branch(branch),
        None => match after_prefix(reference, TAGS@) {
            Some(tag) => BecomesView::Tag(tag),
            None => BecomesView::Elsewhere(elsewhere_of(reference)),
        },
    }
}

/// What follows `prefix` in `text`, where `text` starts with it.
pub(crate) fn strip_prefix(text: &str, chars: &Vec<char>, prefix: &str) -> (rest: Option<String>)
    requires
        chars@ == text@,
    ensures
        match rest {
            Some(rest) => after_prefix(text@, prefix@) == Some(rest@),
            None => after_prefix(text@, prefix@) is None,
        },
{
    let wanted = crate::remembered::characters(prefix);
    if wanted.len() > chars.len() {
        return None;
    }
    if !crate::plumbing::chars_are(chars, 0, wanted.len(), prefix) {
        return None;
    }
    Some(text.substring_char(wanted.len(), chars.len()).to_owned())
}

fn last_slash(chars: &Vec<char>) -> (at: Option<usize>)
    ensures
        match at {
            Some(at) => crate::export::last_of(chars@, '/') == Some(at as int) && at < chars@.len(),
            None => crate::export::last_of(chars@, '/') is None,
        },
{
    let mut end = chars.len();
    proof {
        assert(chars@.subrange(0, end as int) =~= chars@);
    }
    while end > 0
        invariant
            end <= chars@.len(),
            crate::export::last_of(chars@, '/') == crate::export::last_of(
                chars@.subrange(0, end as int),
                '/',
            ),
        decreases end,
    {
        proof {
            assert(chars@.subrange(0, end as int).drop_last() =~= chars@.subrange(0, end - 1));
        }
        if chars[end - 1] == '/' {
            return Some(end - 1);
        }
        end = end - 1;
    }
    proof {
        assert(chars@.subrange(0, 0) =~= Seq::<char>::empty());
    }
    None
}

/// The directory a ref that is neither a branch nor a tag sits in:
/// [`elsewhere_of`].
pub fn elsewhere(reference: &str) -> (directory: String)
    ensures
        directory@ == elsewhere_of(reference@),
{
    let chars = crate::remembered::characters(reference);
    match last_slash(&chars) {
        Some(at) => {
            assert(at < chars.len());
            reference.substring_char(0, at + 1).to_owned()
        },
        None => reference.to_owned(),
    }
}

/// What a ref becomes in the store: [`becomes_of`].
pub fn becomes(reference: &str) -> (becomes: Becomes)
    ensures
        becomes@ == becomes_of(reference@),
{
    let chars = crate::remembered::characters(reference);
    if let Some(branch) = strip_prefix(reference, &chars, HEADS) {
        return Becomes::Branch(branch);
    }
    if let Some(tag) = strip_prefix(reference, &chars, TAGS) {
        return Becomes::Tag(tag);
    }
    Becomes::Elsewhere(elsewhere(reference))
}

// ---------------------------------------------------------------------------
// Who and when
// ---------------------------------------------------------------------------

/// `Name <email>`, which is how both git and historica spell a person. Bytes
/// that are not UTF-8 are shown, not refused: a name is for reading.
pub open spec fn spelled(person: PersonView) -> Seq<char> {
    lossy(person.name) + seq![' ', '<'] + lossy(person.email) + seq!['>']
}

/// `Name <email>`: [`spelled`].
pub fn spell(person: &Person) -> (said: String)
    ensures
        said@ == spelled(person@),
{
    let mut said = text_of(&person.name);
    said.append(" <");
    let email = text_of(&person.email);
    said.append(email.as_str());
    said.append(">");
    proof {
        reveal_strlit(" <");
        reveal_strlit(">");
    }
    said
}

/// The spelling `jiff` gives an instant seen from an offset, as
/// `%Y-%m-%dT%H:%M:%S%:z`; `None` where `jiff` cannot make the instant or the
/// offset.
pub uninterp spec fn moment_spelled(seconds: i64, offset_seconds: i32) -> Option<Seq<char>>;

/// Calls `jiff::tz::Offset::from_seconds`, `jiff::Timestamp::from_second`,
/// `Timestamp::to_zoned` and `Zoned::strftime` with
/// `%Y-%m-%dT%H:%M:%S%:z`. The result is named [`moment_spelled`]; all that is
/// claimed of it beyond that is what `Offset::from_seconds` documents — an
/// offset beyond 25:59:59 either way is refused — and not which instants
/// `Timestamp::from_second` accepts, nor how `strftime` spells them.
#[verifier::external_body]
fn spell_moment(seconds: i64, offset_seconds: i32) -> (spelled: Option<String>)
    ensures
        match spelled {
            Some(s) => moment_spelled(seconds, offset_seconds) == Some(s@),
            None => moment_spelled(seconds, offset_seconds) is None,
        },
        !(-93599 <= offset_seconds <= 93599) ==> spelled is None,
{
    let offset = match jiff::tz::Offset::from_seconds(offset_seconds) {
        Ok(offset) => offset,
        Err(_) => return None,
    };
    let moment = match jiff::Timestamp::from_second(seconds) {
        Ok(moment) => moment,
        Err(_) => return None,
    };
    Some(moment.to_zoned(offset.to_time_zone()).strftime("%Y-%m-%dT%H:%M:%S%:z").to_string())
}

/// The stream's seconds-and-offset, spelled as historica's timestamp is.
///
/// Formatted in the offset the commit carried rather than in the converter's
/// own, because "when this was written, where it was written" is the fact git
/// recorded and resolving it to UTC would throw half of it away. `None` is a
/// commit dated where `jiff` cannot go.
pub fn when(person: &Person) -> (spelled: Option<String>)
    requires
        -35791394 <= person.offset_minutes <= 35791394,
    ensures
        match spelled {
            Some(s) => moment_spelled(person.seconds, (person.offset_minutes * 60) as i32) == Some(
                s@,
            ),
            None => moment_spelled(person.seconds, (person.offset_minutes * 60) as i32) is None,
        },
{
    spell_moment(person.seconds, person.offset_minutes * 60)
}

// ---------------------------------------------------------------------------
// Whether a bookmark may follow its ref
// ---------------------------------------------------------------------------

/// A history as a graph: each revision's parents, by index into the same
/// list. An index past the end is a revision the history does not hold, which
/// has no parents.
pub open spec fn graph(parents: Seq<Vec<usize>>) -> Seq<Seq<usize>> {
    parents.map_values(|p: Vec<usize>| p@)
}

/// Whether `b` is a parent of `a`.
pub open spec fn linked(g: Seq<Seq<usize>>, a: usize, b: usize) -> bool {
    a < g.len() && g[a as int].contains(b)
}

/// Whether each revision of `path` after the first is a parent of the one
/// before it.
pub open spec fn steps(g: Seq<Seq<usize>>, path: Seq<usize>) -> bool {
    forall|i: int| 0 <= i < path.len() - 1 ==> #[trigger] linked(g, path[i], path[i + 1])
}

/// Whether `ancestor` is `descendant`, or lies on some path of parents above
/// it.
pub open spec fn descends_from(g: Seq<Seq<usize>>, descendant: usize, ancestor: usize) -> bool {
    exists|path: Seq<usize>|
        path.len() > 0 && path[0] == descendant && path.last() == ancestor && #[trigger] steps(
            g,
            path,
        )
}

proof fn lemma_descends_here(g: Seq<Seq<usize>>, at: usize)
    ensures
        descends_from(g, at, at),
{
    let path = seq![at];
    assert(steps(g, path));
}

proof fn lemma_descends_further(g: Seq<Seq<usize>>, from: usize, at: usize, parent: usize)
    requires
        descends_from(g, from, at),
        linked(g, at, parent),
    ensures
        descends_from(g, from, parent),
{
    let path = choose|path: Seq<usize>|
        path.len() > 0 && path[0] == from && path.last() == at && #[trigger] steps(g, path);
    let longer = path.push(parent);
    assert forall|i: int| 0 <= i < longer.len() - 1 implies #[trigger] linked(
        g,
        longer[i],
        longer[i + 1],
    ) by {
        if i < path.len() - 1 {
            assert(linked(g, path[i], path[i + 1]));
        }
    }
    assert(steps(g, longer));
}

proof fn lemma_stays(g: Seq<Seq<usize>>, settled: spec_fn(usize) -> bool, path: Seq<usize>, k: int)
    requires
        0 <= k < path.len(),
        settled(path[0]),
        steps(g, path),
        forall|x: usize, y: usize| settled(x) && #[trigger] linked(g, x, y) ==> settled(y),
    ensures
        settled(path[k]),
    decreases k,
{
    if k > 0 {
        lemma_stays(g, settled, path, k - 1);
        let i = k - 1;
        assert(linked(g, path[i], path[i + 1]));
    }
}

/// A set that holds `from`, not `to`, and every parent of each revision in it
/// — so `to` is not above `from`.
proof fn lemma_closed(g: Seq<Seq<usize>>, settled: spec_fn(usize) -> bool, from: usize, to: usize)
    requires
        settled(from),
        !settled(to),
        forall|x: usize, y: usize| settled(x) && #[trigger] linked(g, x, y) ==> settled(y),
    ensures
        !descends_from(g, from, to),
{
    if descends_from(g, from, to) {
        let path = choose|path: Seq<usize>|
            path.len() > 0 && path[0] == from && path.last() == to && #[trigger] steps(g, path);
        lemma_stays(g, settled, path, path.len() - 1);
    }
}

/// Whether `ancestor` is `descendant` or lies on some path of parents above
/// it: [`descends_from`].
pub fn descends(parents: &[Vec<usize>], descendant: usize, ancestor: usize) -> (found: bool)
    ensures
        found == descends_from(graph(parents@), descendant, ancestor),
{
    let ghost g = graph(parents@);
    let n = parents.len();
    let mut seen = crate::flags::clear(n);
    let mut pending: Vec<usize> = Vec::new();
    pending.push(descendant);
    proof {
        lemma_descends_here(g, descendant);
        assert(pending@[0] == descendant);
    }
    loop
        invariant
            g == graph(parents@),
            n == g.len(),
            seen@.len() == n,
            count(seen@) <= n,
            forall|k: int| 0 <= k < pending@.len() ==> descends_from(g, descendant, #[trigger] pending@[k]),
            pending@.contains(descendant) || (descendant < n && seen@[descendant as int]) || (
            descendant >= n && descendant != ancestor),
            !(ancestor < n && seen@[ancestor as int]),
            forall|x: usize, y: usize|
                x < n && seen@[x as int] && #[trigger] linked(g, x, y) ==> pending@.contains(y) || (y
                    < n && seen@[y as int]) || (y >= n && y != ancestor),
        decreases n - count(seen@), pending@.len(),
    {
        let ghost before = pending@;
        let at = match pending.pop() {
            Some(at) => at,
            None => {
                proof {
                    let settled = |x: usize| (x < n && seen@[x as int]) || (x >= n && x != ancestor);
                    assert forall|x: usize, y: usize| settled(x) && #[trigger] linked(g, x, y) implies settled(y) by {
                        assert(!pending@.contains(y));
                    }
                    assert(!pending@.contains(descendant));
                    lemma_closed(g, settled, descendant, ancestor);
                }
                return false;
            },
        };
        proof {
            assert(before == pending@.push(at));
            assert(before[before.len() - 1] == at);
            assert forall|y: usize| before.contains(y) && y != at implies pending@.contains(y) by {
                let k = choose|k: int| 0 <= k < before.len() && before[k] == y;
                assert(pending@[k] == y);
            }
        }
        if at == ancestor {
            return true;
        }
        if at >= n || seen[at] {
            proof {
                crate::flags::lemma_count_bound(seen@);
            }
            continue;
        }
        proof {
            crate::flags::lemma_count_set(seen@, at as int);
            crate::flags::lemma_count_bound(seen@.update(at as int, true));
        }
        seen.set(at, true);
        let list = &parents[at];
        let ghost popped = pending@;
        let mut j: usize = 0;
        while j < list.len()
            invariant
                g == graph(parents@),
                n == g.len(),
                at < n,
                list@ == g[at as int],
                j <= list@.len(),
                pending@ == popped + list@.subrange(0, j as int),
                descends_from(g, descendant, at),
                forall|k: int| 0 <= k < pending@.len() ==> descends_from(g, descendant, #[trigger] pending@[k]),
            decreases list@.len() - j,
        {
            proof {
                assert(linked(g, at, list@[j as int]));
                lemma_descends_further(g, descendant, at, list@[j as int]);
            }
            pending.push(list[j]);
            j = j + 1;
            proof {
                assert(pending@ =~= popped + list@.subrange(0, j as int));
            }
        }
        proof {
            assert forall|y: usize| #[trigger] linked(g, at, y) implies pending@.contains(y) by {
                let k = choose|k: int| 0 <= k < list@.len() && list@[k] == y;
                assert(pending@[popped.len() + k] == y);
            }
            assert forall|y: usize| popped.contains(y) implies pending@.contains(y) by {
                let k = choose|k: int| 0 <= k < popped.len() && popped[k] == y;
                assert(pending@[k] == y);
            }
        }
    }
}

pub const STORE_MOVED: &'static str = "git has it where the last write left it, and the store moved it since; `write` is what carries that across";

pub const BOTH_MOVED: &'static str = "git and the store both moved it since the last write; point one at the other and run this again";

pub const NOT_FORWARD: &'static str = "where git has it is not a step forward from where the store has it, and nothing remembers which side moved";

/// Decision 0007 for a bookmark standing at `standing` whose ref is arriving
/// at `arriving`: where the repository remembers where the last write left
/// the ref (`left`), the side that moved since is the side that is right, and
/// both having moved is a conflict said out loud; where it remembers nothing,
/// the bookmark follows only a step forward along its own history.
pub open spec fn may_follow_of(
    g: Seq<Seq<usize>>,
    left: Option<usize>,
    standing: usize,
    arriving: usize,
) -> Result<(), Seq<char>> {
    match left {
        Some(left) => {
            let store_moved = left != standing;
            let git_moved = left != arriving;
            if git_moved && !store_moved {
                Ok(())
            } else if !git_moved {
                Err(STORE_MOVED@)
            } else {
                Err(BOTH_MOVED@)
            }
        },
        None => if descends_from(g, arriving, standing) {
            Ok(())
        } else {
            Err(NOT_FORWARD@)
        },
    }
}

/// Whether a bookmark standing at `standing` may follow its ref to
/// `arriving`, or why not: [`may_follow_of`]. `left` is the revision the
/// record says the last write left the ref at, where the record says one and
/// it resolves to a revision; a record that answers nothing is no record.
pub fn may_follow(parents: &[Vec<usize>], left: Option<usize>, standing: usize, arriving: usize) -> (r:
    Result<(), String>)
    ensures
        match r {
            Ok(()) => may_follow_of(graph(parents@), left, standing, arriving) is Ok,
            Err(why) => may_follow_of(graph(parents@), left, standing, arriving) == Err::<(), Seq<char>>(why@),
        },
{
    match left {
        Some(left) => {
            let store_moved = left != standing;
            let git_moved = left != arriving;
            if git_moved && !store_moved {
                Ok(())
            } else if !git_moved {
                Err(STORE_MOVED.to_owned())
            } else {
                Err(BOTH_MOVED.to_owned())
            }
        },
        None => if descends(parents, arriving, standing) {
            Ok(())
        } else {
            Err(NOT_FORWARD.to_owned())
        },
    }
}

/// Decision 0007's rule, where the record remembers where the last write left
/// the ref: a bookmark follows its ref exactly when git moved the ref and the
/// store did not move the bookmark.
pub proof fn a_bookmark_follows_only_what_git_alone_moved(
    g: Seq<Seq<usize>>,
    left: usize,
    standing: usize,
    arriving: usize,
)
    ensures
        may_follow_of(g, Some(left), standing, arriving) is Ok <==> (left == standing && left
            != arriving),
{
}

/// Without a record, a bookmark follows its ref onto anything that stands on
/// where the bookmark is — its own revision included — and nowhere else.
pub proof fn without_a_record_a_bookmark_only_steps_forward(
    g: Seq<Seq<usize>>,
    standing: usize,
    arriving: usize,
)
    ensures
        may_follow_of(g, None, standing, arriving) is Ok <==> descends_from(g, arriving, standing),
        may_follow_of(g, None, standing, standing) is Ok,
{
    lemma_descends_here(g, standing);
}

// ---------------------------------------------------------------------------
// Renames, one file at a time
// ---------------------------------------------------------------------------

/// Each path at or beneath `source` in the tree, with where it goes.
pub open spec fn renamed_pairs(tree: TreeMap, source: Seq<u8>, destination: Seq<u8>) -> Seq<
    (Seq<u8>, Seq<u8>),
> {
    beneath(tree, source).map_values(|p: Seq<u8>| (p, rebase(p, source, destination)))
}

/// Every rename of a change list, expanded against the tree the commit
/// started from, in the order the changes and then the paths stand.
pub open spec fn move_bytes(changes: Seq<ChangeView>, tree: TreeMap) -> Seq<(Seq<u8>, Seq<u8>)>
    decreases changes.len(),
{
    if changes.len() == 0 {
        Seq::empty()
    } else {
        move_bytes(changes.drop_last(), tree) + match changes.last() {
            ChangeView::Rename { source, destination } => renamed_pairs(tree, source, destination),
            _ => Seq::empty(),
        }
    }
}

/// Pairs of paths as text, or the first path, in order, historica cannot
/// hold.
pub open spec fn texts_of(pairs: Seq<(Seq<u8>, Seq<u8>)>) -> Result<
    Seq<(Seq<char>, Seq<char>)>,
    PathRefusedView,
>
    decreases pairs.len(),
{
    if pairs.len() == 0 {
        Ok(Seq::empty())
    } else {
        match texts_of(pairs.drop_last()) {
            Err(e) => Err(e),
            Ok(done) => match path_text(pairs.last().0) {
                Err(e) => Err(e),
                Ok(from) => match path_text(pairs.last().1) {
                    Err(e) => Err(e),
                    Ok(to) => Ok(done.push((from, to))),
                },
            },
        }
    }
}

/// Renames, as historica wants them — one file at a time — against the tree
/// the commit started from.
pub open spec fn moves_of(changes: Seq<ChangeView>, tree: TreeMap) -> Result<
    Seq<(Seq<char>, Seq<char>)>,
    PathRefusedView,
> {
    texts_of(move_bytes(changes, tree))
}

/// Pairs of strings, as a contract speaks of them.
pub open spec fn text_pairs(s: Seq<(String, String)>) -> Seq<(Seq<char>, Seq<char>)> {
    s.map_values(|p: (String, String)| (p.0@, p.1@))
}

proof fn lemma_texts_stop(pairs: Seq<(Seq<u8>, Seq<u8>)>, n: int)
    requires
        0 <= n <= pairs.len(),
        texts_of(pairs.subrange(0, n)) is Err,
    ensures
        texts_of(pairs) == texts_of(pairs.subrange(0, n)),
    decreases pairs.len() - n,
{
    if n < pairs.len() {
        assert(pairs.subrange(0, n + 1).drop_last() =~= pairs.subrange(0, n));
        lemma_texts_stop(pairs, n + 1);
    } else {
        assert(pairs.subrange(0, n) =~= pairs);
    }
}

proof fn lemma_moves_prefix(changes: Seq<ChangeView>, tree: TreeMap, k: int)
    requires
        0 <= k <= changes.len(),
    ensures
        move_bytes(changes.subrange(0, k), tree).len() <= move_bytes(changes, tree).len(),
        move_bytes(changes, tree).subrange(0, move_bytes(changes.subrange(0, k), tree).len() as int)
            == move_bytes(changes.subrange(0, k), tree),
    decreases changes.len() - k,
{
    if k < changes.len() {
        lemma_moves_prefix(changes, tree, k + 1);
        assert(changes.subrange(0, k + 1).drop_last() =~= changes.subrange(0, k));
        let short = move_bytes(changes.subrange(0, k), tree);
        let long = move_bytes(changes.subrange(0, k + 1), tree);
        let all = move_bytes(changes, tree);
        assert(long.subrange(0, short.len() as int) =~= short);
        assert(all.subrange(0, short.len() as int) =~= all.subrange(0, long.len() as int).subrange(
            0,
            short.len() as int,
        ));
    } else {
        assert(changes.subrange(0, k) =~= changes);
        assert(move_bytes(changes, tree).subrange(0, move_bytes(changes, tree).len() as int)
            =~= move_bytes(changes, tree));
    }
}

/// Renames, as historica wants them: [`moves_of`].
///
/// Git has no directories, so `R sub other` moves everything beneath `sub`,
/// and historica names one file per move — so the rename is expanded against
/// the tree the commit started from: its parent's, which the replay knows,
/// rather than whatever was written last, which is another branch's whenever
/// the stream switches.
pub fn moves(changes: &[Change], parent: &Tree) -> (moved: Result<Vec<(String, String)>, PathRefused>)
    ensures
        match moved {
            Ok(pairs) => moves_of(changes@.map_values(|c: Change| c@), parent@) == Ok::<
                Seq<(Seq<char>, Seq<char>)>,
                PathRefusedView,
            >(text_pairs(pairs@)),
            Err(e) => moves_of(changes@.map_values(|c: Change| c@), parent@) == Err::<
                Seq<(Seq<char>, Seq<char>)>,
                PathRefusedView,
            >(e@),
        },
{
    let ghost all = changes@.map_values(|c: Change| c@);
    let ghost tree = parent@;
    let mut out: Vec<(String, String)> = Vec::new();
    let mut k: usize = 0;
    proof {
        assert(all.subrange(0, 0) =~= Seq::<ChangeView>::empty());
        assert(text_pairs(out@) =~= Seq::<(Seq<char>, Seq<char>)>::empty());
    }
    while k < changes.len()
        invariant
            all == changes@.map_values(|c: Change| c@),
            tree == parent@,
            k <= changes@.len(),
            texts_of(move_bytes(all.subrange(0, k as int), tree)) == Ok::<
                Seq<(Seq<char>, Seq<char>)>,
                PathRefusedView,
            >(text_pairs(out@)),
        decreases changes@.len() - k,
    {
        let ghost done = move_bytes(all.subrange(0, k as int), tree);
        proof {
            assert(all.subrange(0, k + 1).drop_last() =~= all.subrange(0, k as int));
            assert(all.subrange(0, k + 1).last() == changes@[k as int]@);
        }
        match &changes[k] {
            Change::Rename { source, destination } => {
                let paths = parent.beneath(source);
                let ghost pairs = renamed_pairs(tree, source@, destination@);
                proof {
                    crate::tree::lemma_beneath_of(crate::tree::sorted_paths(tree), source@);
                    assert(move_bytes(all.subrange(0, k + 1), tree) == done + pairs);
                }
                let mut j: usize = 0;
                while j < paths.len()
                    invariant
                        all == changes@.map_values(|c: Change| c@),
                        tree == parent@,
                        k < changes@.len(),
                        changes@[k as int]@ == (ChangeView::Rename { source: source@, destination: destination@ }),
                        move_bytes(all.subrange(0, k + 1), tree) == done + pairs,
                        pairs == renamed_pairs(tree, source@, destination@),
                        paths@.map_values(|p: Vec<u8>| p@) == beneath(tree, source@),
                        forall|i: int|
                            0 <= i < beneath(tree, source@).len() ==> at_or_beneath(
                                #[trigger] beneath(tree, source@)[i],
                                source@,
                            ),
                        j <= paths@.len(),
                        texts_of(done + pairs.subrange(0, j as int)) == Ok::<
                            Seq<(Seq<char>, Seq<char>)>,
                            PathRefusedView,
                        >(text_pairs(out@)),
                    decreases paths@.len() - j,
                {
                    let path = &paths[j];
                    proof {
                        assert(beneath(tree, source@)[j as int] == path@);
                        assert(at_or_beneath(path@, source@));
                    }
                    let rebased = crate::tree::rebase_exec(path, source, destination);
                    let ghost here = done + pairs.subrange(0, j + 1);
                    proof {
                        assert(pairs[j as int] == (path@, rebased@));
                        assert(here.drop_last() =~= done + pairs.subrange(0, j as int));
                        assert(here.last() == (path@, rebased@));
                        lemma_moves_prefix(all, tree, k + 1);
                        assert(move_bytes(all, tree).subrange(0, here.len() as int) =~= here) by {
                            assert((done + pairs).subrange(0, here.len() as int) =~= here);
                        }
                    }
                    let from = match folder::path_of(path) {
                        Ok(text) => text,
                        Err(e) => {
                            proof {
                                lemma_texts_stop(move_bytes(all, tree), here.len() as int);
                                assert(all =~= changes@.map_values(|c: Change| c@));
                            }
                            return Err(e);
                        },
                    };
                    let to = match folder::path_of(&rebased) {
                        Ok(text) => text,
                        Err(e) => {
                            proof {
                                lemma_texts_stop(move_bytes(all, tree), here.len() as int);
                            }
                            return Err(e);
                        },
                    };
                    proof {
                        assert(text_pairs(out@.push((from, to))) =~= text_pairs(out@).push((from@, to@)));
                    }
                    out.push((from, to));
                    j = j + 1;
                }
                proof {
                    assert(pairs.subrange(0, paths@.len() as int) =~= pairs);
                }
            },
            _ => {
                proof {
                    assert(move_bytes(all.subrange(0, k + 1), tree) =~= done);
                }
            },
        }
        k = k + 1;
    }
    proof {
        assert(all.subrange(0, changes@.len() as int) =~= all);
    }
    Ok(out)
}

// ---------------------------------------------------------------------------
// The headers a revision carries for git
// ---------------------------------------------------------------------------

/// The person a revision records: git's author, where the commit names one,
/// else its committer. Historica records one person, and the author is the
/// one it keeps.
pub open spec fn author_of(commit: crate::stream::CommitView) -> PersonView {
    match commit.author {
        Some(author) => author,
        None => commit.committer,
    }
}

/// Whether the committer rides along as a header: where the commit names an
/// author other than its committer.
pub open spec fn committer_kept(commit: crate::stream::CommitView) -> bool {
    commit.author is Some && commit.author != Some(commit.committer)
}

/// The headers a revision carries for what historica has no word for,
/// keyed as historica's decision 0070 lets this tool key them, in key order:
/// the committer, where it differs from the author, and a signature and
/// what kind it is, where the commit was signed.
pub open spec fn headers_of(commit: crate::stream::CommitView) -> Seq<(Seq<char>, Seq<char>)> {
    (if committer_kept(commit) {
        seq![
            (
                crate::carried::COMMITTER@,
                crate::bytes::chars_of(
                    crate::carried::spelled(crate::carried::person_line(commit.committer)),
                ),
            ),
        ]
    } else {
        Seq::empty()
    }) + match commit.signature {
        Some(signature) => seq![
            (crate::carried::SIGNATURE@, crate::bytes::chars_of(crate::carried::spelled(signature.data))),
            (
                crate::carried::SIGNATURE_KIND@,
                crate::bytes::chars_of(crate::carried::spelled(signature.kind)),
            ),
        ],
        None => Seq::empty(),
    }
}

/// Whether two people are the same, at the same moment.
pub fn same_person(a: &Person, b: &Person) -> (same: bool)
    ensures
        same == (a@ == b@),
{
    crate::stream::text::same(&a.name, &b.name) && crate::stream::text::same(&a.email, &b.email)
        && a.seconds == b.seconds && a.offset_minutes == b.offset_minutes
}

/// The person a revision records: [`author_of`].
pub fn author(commit: &crate::stream::Commit) -> (person: &Person)
    ensures
        person@ == author_of(commit@),
{
    match &commit.author {
        Some(author) => author,
        None => &commit.committer,
    }
}

/// Whether the committer rides along as a header: [`committer_kept`].
pub fn keeps_committer(commit: &crate::stream::Commit) -> (kept: bool)
    ensures
        kept == committer_kept(commit@),
{
    match &commit.author {
        Some(author) => !same_person(author, &commit.committer),
        None => false,
    }
}

/// The headers a revision carries for git: [`headers_of`].
///
/// The committer is not thrown away for being the one historica does not
/// record: it is in the commit's bytes, so a revision that could not carry it
/// could not be written back as the commit it came from. Neither is a
/// signature, which is a claim about exact bytes and comes across verbatim.
pub fn headers(commit: &crate::stream::Commit) -> (headers: Vec<(String, String)>)
    requires
        commit.committer.offset_minutes != i32::MIN,
    ensures
        text_pairs(headers@) == headers_of(commit@),
{
    let mut headers: Vec<(String, String)> = Vec::new();
    if keeps_committer(commit) {
        headers.push(
            (
                crate::carried::COMMITTER.to_owned(),
                crate::carried::spell_person(&commit.committer),
            ),
        );
    }
    let ghost first = text_pairs(headers@);
    proof {
        if committer_kept(commit@) {
            assert(first =~= seq![
                (
                    crate::carried::COMMITTER@,
                    crate::bytes::chars_of(
                        crate::carried::spelled(crate::carried::person_line(commit@.committer)),
                    ),
                ),
            ]);
        } else {
            assert(first =~= Seq::<(Seq<char>, Seq<char>)>::empty());
        }
    }
    if let Some(signature) = &commit.signature {
        headers.push((crate::carried::SIGNATURE.to_owned(), crate::carried::spell(&signature.data)));
        headers.push(
            (crate::carried::SIGNATURE_KIND.to_owned(), crate::carried::spell(&signature.kind)),
        );
    }
    proof {
        assert(text_pairs(headers@) =~= headers_of(commit@));
    }
    headers
}

// ---------------------------------------------------------------------------
// What an import says it could not carry
// ---------------------------------------------------------------------------

pub const ONE_COMMITTER: &'static str = "one commit names a committer other than its author; historica records one person, so the author is the revision's and the committer is a `git.committer` header beside it";

pub const MANY_COMMITTERS: &'static str = " commits name a committer other than their author; historica records one person, so the author is the revision's and the committer is a `git.committer` header beside it";

pub const ONE_ENCODING: &'static str = "one commit stated a message encoding; the message was re-encoded to UTF-8 on the way out and the declaration is gone";

pub const MANY_ENCODINGS: &'static str = " commits stated a message encoding; the messages were re-encoded to UTF-8 on the way out and the declarations are gone";

pub const ONE_TAG: &'static str = "one annotated tag did not cross; it is an object with a tagger and a message of its own, and historica has nowhere for either — a lightweight tag, which is only a pointer, crosses as a bookmark";

pub const MANY_TAGS: &'static str = " annotated tags did not cross; each is an object with a tagger and a message of its own, and historica has nowhere for either — a lightweight tag, which is only a pointer, crosses as a bookmark";

pub const UNNAMEABLE_OPENS: &'static str = "`";

pub const UNNAMEABLE_BECAUSE: &'static str = "` did not cross: ";

pub const UNNAMEABLE_ENDS: &'static str = " — and a name this tool spelled some other way would be a name nobody could type";

pub const ELSEWHERE_OPENS: &'static str = "refs under ";

pub const ELSEWHERE_ENDS: &'static str = " did not cross; each is a fact about somewhere else, and every commit they named is in the store";

pub const DANGLING: &'static str = " refs named something this stream did not carry, and nothing names them now";

pub const ONE_EMPTY: &'static str = "one commit changed nothing and was not a merge; historica writes no revision for one, and what stood on it now stands on what it stood on";

pub const MANY_EMPTY: &'static str = " commits changed nothing and were not merges; historica writes no revision for one, and what stood on them now stands on what they stood on";

/// What an import counted on its way through the stream, for its report.
pub struct Tally {
    /// Commits whose committer rode along as a header.
    pub committers: usize,
    /// Commits that stated a message encoding.
    pub encodings: usize,
    /// Annotated tags.
    pub tags: usize,
    /// Refs historica would not name, each with what historica said.
    pub unnameable: Vec<(String, String)>,
    /// Bookmarks that could not be moved, each with why.
    pub conflicts: Vec<String>,
    /// The directories of refs that are neither branches nor tags, each once,
    /// in order.
    pub elsewhere: Vec<String>,
    /// Refs that named something the stream did not carry.
    pub dangling: usize,
    /// Commits that changed nothing and are not a merge.
    pub empty: usize,
}

/// `items`, joined by `, `.
pub open spec fn joined(items: Seq<Seq<char>>) -> Seq<char>
    decreases items.len(),
{
    if items.len() == 0 {
        Seq::empty()
    } else if items.len() == 1 {
        items[0]
    } else {
        joined(items.drop_last()) + seq![',', ' '] + items.last()
    }
}

/// The lines an import adds to its report once it is done, in the order they
/// are said.
pub open spec fn finished(t: Tally) -> Seq<Seq<char>> {
    line_if(t.committers > 0, counted(t.committers as nat, ONE_COMMITTER@, MANY_COMMITTERS@))
        + line_if(t.encodings > 0, counted(t.encodings as nat, ONE_ENCODING@, MANY_ENCODINGS@))
        + line_if(t.tags > 0, counted(t.tags as nat, ONE_TAG@, MANY_TAGS@))
        + text_pairs(t.unnameable@).map_values(|p: (Seq<char>, Seq<char>)|
        UNNAMEABLE_OPENS@ + p.0 + UNNAMEABLE_BECAUSE@ + p.1 + UNNAMEABLE_ENDS@)
        + names(t.conflicts@)
        + line_if(t.elsewhere@.len() > 0, ELSEWHERE_OPENS@ + joined(names(t.elsewhere@)) + ELSEWHERE_ENDS@)
        + line_if(t.dangling > 0, crate::bytes::chars_of(crate::stream::write::decimal(t.dangling as nat)) + DANGLING@)
        + line_if(t.empty > 0, counted(t.empty as nat, ONE_EMPTY@, MANY_EMPTY@))
}

/// `items`, joined by `, `: [`joined`].
fn join(items: &Vec<String>) -> (all: String)
    ensures
        all@ == joined(names(items@)),
{
    let mut all = String::new();
    let mut at: usize = 0;
    proof {
        reveal_strlit(", ");
        assert(names(items@).subrange(0, 0) =~= Seq::<Seq<char>>::empty());
    }
    while at < items.len()
        invariant
            at <= items@.len(),
            all@ == joined(names(items@).subrange(0, at as int)),
            ", "@ == seq![',', ' '],
        decreases items@.len() - at,
    {
        if at > 0 {
            all.append(", ");
        }
        all.append(items[at].as_str());
        proof {
            let done = names(items@).subrange(0, at + 1);
            assert(done.drop_last() =~= names(items@).subrange(0, at as int));
            assert(done.last() == items@[at as int]@);
            if at == 0 {
                assert(done[0] == items@[0]@);
            }
        }
        at = at + 1;
    }
    proof {
        assert(names(items@).subrange(0, items@.len() as int) =~= names(items@));
    }
    all
}

/// The line said of each ref historica would not name.
fn unnameable_lines(unnameable: &Vec<(String, String)>) -> (lines: Vec<String>)
    ensures
        names(lines@) == text_pairs(unnameable@).map_values(|p: (Seq<char>, Seq<char>)|
            UNNAMEABLE_OPENS@ + p.0 + UNNAMEABLE_BECAUSE@ + p.1 + UNNAMEABLE_ENDS@),
{
    let ghost said = text_pairs(unnameable@).map_values(|p: (Seq<char>, Seq<char>)|
        UNNAMEABLE_OPENS@ + p.0 + UNNAMEABLE_BECAUSE@ + p.1 + UNNAMEABLE_ENDS@);
    let mut lines: Vec<String> = Vec::new();
    let mut at: usize = 0;
    while at < unnameable.len()
        invariant
            at <= unnameable@.len(),
            said == text_pairs(unnameable@).map_values(|p: (Seq<char>, Seq<char>)|
                UNNAMEABLE_OPENS@ + p.0 + UNNAMEABLE_BECAUSE@ + p.1 + UNNAMEABLE_ENDS@),
            names(lines@) == said.subrange(0, at as int),
        decreases unnameable@.len() - at,
    {
        let mut line = UNNAMEABLE_OPENS.to_owned();
        line.append(unnameable[at].0.as_str());
        line.append(UNNAMEABLE_BECAUSE);
        line.append(unnameable[at].1.as_str());
        line.append(UNNAMEABLE_ENDS);
        proof {
            assert(said[at as int] == line@);
            assert(names(lines@.push(line)) =~= names(lines@).push(line@));
            assert(said.subrange(0, at + 1) =~= said.subrange(0, at as int).push(line@));
        }
        lines.push(line);
        at = at + 1;
    }
    proof {
        assert(said.subrange(0, unnameable@.len() as int) =~= said);
    }
    lines
}

/// The lines an import adds to its report once it is done: [`finished`].
pub fn finish(tally: &Tally) -> (lines: Vec<String>)
    ensures
        names(lines@) == finished(*tally),
{
    proof {
        reveal_strlit("");
        assert(""@ =~= Seq::<char>::empty());
    }
    let mut lines: Vec<String> = Vec::new();
    let committers = crate::export::counted_text(tally.committers, ONE_COMMITTER, MANY_COMMITTERS);
    crate::export::push_if(&mut lines, tally.committers > 0, committers);
    let ghost first = line_if(
        tally.committers > 0,
        counted(tally.committers as nat, ONE_COMMITTER@, MANY_COMMITTERS@),
    );
    assert(names(lines@) == first) by {
        assert(Seq::<Seq<char>>::empty() + first =~= first);
    }
    let encodings = crate::export::counted_text(tally.encodings, ONE_ENCODING, MANY_ENCODINGS);
    crate::export::push_if(&mut lines, tally.encodings > 0, encodings);
    let tags = crate::export::counted_text(tally.tags, ONE_TAG, MANY_TAGS);
    crate::export::push_if(&mut lines, tally.tags > 0, tags);
    let unnameable = unnameable_lines(&tally.unnameable);
    crate::export::push_each(&mut lines, &unnameable, "", "");
    crate::export::push_each(&mut lines, &tally.conflicts, "", "");
    proof {
        crate::export::lemma_between_nothing(names(unnameable@));
        crate::export::lemma_between_nothing(names(tally.conflicts@));
    }
    let mut elsewhere = ELSEWHERE_OPENS.to_owned();
    let all = join(&tally.elsewhere);
    elsewhere.append(all.as_str());
    elsewhere.append(ELSEWHERE_ENDS);
    crate::export::push_if(&mut lines, tally.elsewhere.len() > 0, elsewhere);
    let mut dangling = crate::stream::write::decimal_text(tally.dangling as u64);
    dangling.append(DANGLING);
    crate::export::push_if(&mut lines, tally.dangling > 0, dangling);
    let empty = crate::export::counted_text(tally.empty, ONE_EMPTY, MANY_EMPTY);
    crate::export::push_if(&mut lines, tally.empty > 0, empty);
    lines
}

// ---------------------------------------------------------------------------
// Naming a bookmark at a ref
// ---------------------------------------------------------------------------

/// Whether the store already has a bookmark by a ref's name, and where.
#[derive(Clone, Copy, PartialEq, Eq, Debug, Structural)]
pub enum Had {
    /// No bookmark by that name.
    Absent,
    /// One, already on the target the ref asks for.
    Same,
    /// One on some other target — standing at this revision, where its target
    /// resolves to one.
    Elsewhere(Option<usize>),
}

/// What to do about the bookmark at one ref.
#[derive(Clone, PartialEq, Eq, Debug)]
pub enum Naming {
    /// Make it.
    Create,
    /// It is already right.
    Keep,
    /// Move it to where git's ref is.
    Follow,
    /// Leave it, and say why.
    Conflict(String),
}

/// A [`Naming`], as a contract speaks of it.
pub enum NamingView {
    Create,
    Keep,
    Follow,
    Conflict(Seq<char>),
}

impl View for Naming {
    type V = NamingView;

    open spec fn view(&self) -> NamingView {
        match self {
            Naming::Create => NamingView::Create,
            Naming::Keep => NamingView::Keep,
            Naming::Follow => NamingView::Follow,
            Naming::Conflict(why) => NamingView::Conflict(why@),
        }
    }
}

pub const TAG_OPENS: &'static str = "tag `";

pub const TAG_PINNED: &'static str = "` points elsewhere in the store, and a bookmark on a revision is pinned; it was not moved";

pub const BRANCH_OPENS: &'static str = "branch `";

pub const UNRESOLVED: &'static str = "` has a bookmark whose change is not resolved in the store; it was not moved";

pub const WAS_NOT_MOVED: &'static str = "` was not moved: ";

pub const AN_IDENTIFIER: &'static str = "it is spelled as an identifier, and a bookmark that is one would stop that identifier naming its own file";

pub const DELETED_STAYS: &'static str = "` was deleted in git; the bookmark stays where the branch was, because historica's API has no way to remove one";

pub const DELETED_AFTER: &'static str = "` was deleted in git after the store moved its bookmark; the bookmark stays where the store put it";

/// Decision 0006 and 0007 for the bookmark called `name` at a ref arriving at
/// revision `arriving`: made where there is none, left where it is right, and
/// otherwise moved only where [`may_follow_of`] allows — a tag's bookmark is
/// pinned and never moves, and a branch's whose change does not resolve has
/// nowhere to be moved from.
pub open spec fn naming_of(
    g: Seq<Seq<usize>>,
    name: Seq<char>,
    pinned: bool,
    had: Had,
    left: Option<usize>,
    arriving: usize,
) -> NamingView {
    match had {
        Had::Absent => NamingView::Create,
        Had::Same => NamingView::Keep,
        Had::Elsewhere(standing) => if pinned {
            NamingView::Conflict(TAG_OPENS@ + name + TAG_PINNED@)
        } else {
            match standing {
                None => NamingView::Conflict(BRANCH_OPENS@ + name + UNRESOLVED@),
                Some(standing) => match may_follow_of(g, left, standing, arriving) {
                    Ok(()) => NamingView::Follow,
                    Err(because) => NamingView::Conflict(
                        BRANCH_OPENS@ + name + WAS_NOT_MOVED@ + because,
                    ),
                },
            }
        },
    }
}

/// What to do about the bookmark at one ref: [`naming_of`].
pub fn naming(
    parents: &[Vec<usize>],
    name: &str,
    pinned: bool,
    had: Had,
    left: Option<usize>,
    arriving: usize,
) -> (named: Naming)
    ensures
        named@ == naming_of(graph(parents@), name@, pinned, had, left, arriving),
{
    match had {
        Had::Absent => Naming::Create,
        Had::Same => Naming::Keep,
        Had::Elsewhere(standing) => {
            if pinned {
                let mut why = TAG_OPENS.to_owned();
                why.append(name);
                why.append(TAG_PINNED);
                return Naming::Conflict(why);
            }
            match standing {
                None => {
                    let mut why = BRANCH_OPENS.to_owned();
                    why.append(name);
                    why.append(UNRESOLVED);
                    Naming::Conflict(why)
                },
                Some(standing) => match may_follow(parents, left, standing, arriving) {
                    Ok(()) => Naming::Follow,
                    Err(because) => {
                        let mut why = BRANCH_OPENS.to_owned();
                        why.append(name);
                        why.append(WAS_NOT_MOVED);
                        why.append(because.as_str());
                        Naming::Conflict(why)
                    },
                },
            }
        },
    }
}

/// What is said of a branch the last write left and git no longer has: the
/// bookmark stays, because historica's published API has no way to remove
/// one — where it stands where the branch was, or where the store put it.
pub open spec fn deleted_branch_said(branch: Seq<char>, standing: Option<usize>, was: Option<usize>) -> Seq<char> {
    if standing is Some && was == standing {
        BRANCH_OPENS@ + branch + DELETED_STAYS@
    } else {
        BRANCH_OPENS@ + branch + DELETED_AFTER@
    }
}

/// What is said of a branch git deleted: [`deleted_branch_said`]. `standing`
/// is where the bookmark resolves now; `was`, where the record's commit is in
/// the store.
pub fn deleted_branch(branch: &str, standing: Option<usize>, was: Option<usize>) -> (said: String)
    ensures
        said@ == deleted_branch_said(branch@, standing, was),
{
    let mut said = BRANCH_OPENS.to_owned();
    said.append(branch);
    let stays = match (standing, was) {
        (Some(s), Some(w)) => s == w,
        _ => false,
    };
    if stays {
        said.append(DELETED_STAYS);
    } else {
        said.append(DELETED_AFTER);
    }
    said
}

// ---------------------------------------------------------------------------
// Where each ref and each mark landed
// ---------------------------------------------------------------------------

/// Names and the revisions they stand at, as a contract speaks of them.
pub open spec fn standing(s: Seq<(String, usize)>) -> Seq<(Seq<char>, usize)> {
    s.map_values(|p: (String, usize)| (p.0@, p.1))
}

/// Put `revision` under `name`, replacing what was there.
pub fn stand(pairs: &mut Vec<(String, usize)>, name: String, revision: usize)
    requires
        unique(standing(old(pairs)@)),
    ensures
        unique(standing(final(pairs)@)),
        as_map(standing(final(pairs)@)) == as_map(standing(old(pairs)@)).insert(name@, revision),
{
    let ghost was = standing(pairs@);
    let mut at: usize = 0;
    while at < pairs.len()
        invariant
            at <= pairs@.len(),
            was == standing(pairs@),
            pairs@ == old(pairs)@,
            unique(was),
            forall|i: int| 0 <= i < at ==> #[trigger] standing(pairs@)[i].0 != name@,
        decreases pairs@.len() - at,
    {
        if pairs[at].0 == name {
            let ghost k = name@;
            pairs.set(at, (name, revision));
            proof {
                assert(was[at as int].0 == k);
                crate::table::lemma_update(was, at as int, revision);
                assert(standing(pairs@) =~= was.update(at as int, (was[at as int].0, revision)));
            }
            return;
        }
        at = at + 1;
    }
    let ghost k = name@;
    let end = pairs.len();
    pairs.push((name, revision));
    proof {
        assert(!crate::table::holds(was, k));
        crate::table::lemma_insert(was, end as int, k, revision);
        assert(standing(pairs@) =~= was.insert(end as int, (k, revision)));
    }
}

/// Take `name` out, if it is there.
pub fn unstand(pairs: &mut Vec<(String, usize)>, name: &String)
    requires
        unique(standing(old(pairs)@)),
    ensures
        unique(standing(final(pairs)@)),
        as_map(standing(final(pairs)@)) == as_map(standing(old(pairs)@)).remove(name@),
{
    let ghost was = standing(pairs@);
    let mut at: usize = 0;
    while at < pairs.len()
        invariant
            at <= pairs@.len(),
            was == standing(pairs@),
            pairs@ == old(pairs)@,
            unique(was),
            forall|i: int| 0 <= i < at ==> #[trigger] standing(pairs@)[i].0 != name@,
        decreases pairs@.len() - at,
    {
        if pairs[at].0 == *name {
            assert(was[at as int].0 == name@);
            let _ = pairs.remove(at);
            proof {
                crate::table::lemma_remove(was, at as int);
                assert(standing(pairs@) =~= was.remove(at as int));
            }
            return;
        }
        at = at + 1;
    }
    proof {
        assert(as_map(was).remove(name@) =~= as_map(was));
    }
}

/// The revision a mark landed at, if it landed.
fn mark_at(marks: &[(u64, usize)], mark: u64) -> (revision: Option<usize>)
    requires
        unique(marks@),
    ensures
        match revision {
            Some(r) => as_map(marks@).contains_key(mark) && as_map(marks@)[mark] == r,
            None => !as_map(marks@).contains_key(mark),
        },
{
    let mut at: usize = 0;
    while at < marks.len()
        invariant
            at <= marks@.len(),
            unique(marks@),
            forall|i: int| 0 <= i < at ==> #[trigger] marks@[i].0 != mark,
        decreases marks@.len() - at,
    {
        if marks[at].0 == mark {
            proof {
                crate::table::lemma_index(marks@, at as int);
            }
            return Some(marks[at].1);
        }
        at = at + 1;
    }
    None
}

/// Where each ref of the stream stands, played forward as the stream moves
/// them, and how many refs named something the stream did not carry.
pub open spec fn reset_of(
    refs: Map<Seq<char>, usize>,
    marks: Map<u64, usize>,
    reference: Seq<char>,
    from: Option<crate::stream::DataRefView>,
) -> (Map<Seq<char>, usize>, bool) {
    match from {
        Some(crate::stream::DataRefView::Mark(mark)) => if marks.contains_key(mark.0) {
            (refs.insert(reference, marks[mark.0]), false)
        } else {
            (refs, true)
        },
        Some(crate::stream::DataRefView::Oid(_)) => (refs, true),
        None => (refs.remove(reference), false),
    }
}

/// A `reset`: a ref moved with no commit of its own — [`reset_of`].
/// Lightweight tags and branch creation both arrive this way, and a reset with
/// no `from` only deletes. Answers whether the reset named something the
/// stream did not carry, which leaves the ref as it was.
pub fn moved(refs: &mut Vec<(String, usize)>, marks: &[(u64, usize)], reset: &crate::stream::Reset) -> (dangling: bool)
    requires
        unique(standing(old(refs)@)),
        unique(marks@),
    ensures
        unique(standing(final(refs)@)),
        (as_map(standing(final(refs)@)), dangling) == reset_of(
            as_map(standing(old(refs)@)),
            as_map(marks@),
            lossy(reset.reference@),
            crate::stream::option_view(reset.from),
        ),
{
    let reference = text_of(&reset.reference);
    match &reset.from {
        Some(crate::stream::DataRef::Mark(mark)) => match mark_at(marks, mark.0) {
            Some(revision) => {
                stand(refs, reference, revision);
                false
            },
            None => true,
        },
        Some(crate::stream::DataRef::Oid(_)) => true,
        None => {
            unstand(refs, &reference);
            false
        },
    }
}

/// Where a commit landed, noted under every name the rest of the stream or
/// git might use for it: its ref, its object ID, and its mark.
pub fn landed(
    refs: &mut Vec<(String, usize)>,
    by_oid: &mut Vec<(String, usize)>,
    marks: &mut Vec<(u64, usize)>,
    commit: &crate::stream::Commit,
    oid: &String,
    revision: usize,
)
    requires
        unique(standing(old(refs)@)),
        unique(standing(old(by_oid)@)),
        unique(old(marks)@),
    ensures
        unique(standing(final(refs)@)),
        unique(standing(final(by_oid)@)),
        unique(final(marks)@),
        as_map(standing(final(refs)@)) == as_map(standing(old(refs)@)).insert(
            lossy(commit.reference@),
            revision,
        ),
        as_map(standing(final(by_oid)@)) == as_map(standing(old(by_oid)@)).insert(oid@, revision),
        as_map(final(marks)@) == match commit.mark {
            Some(mark) => as_map(old(marks)@).insert(mark.0, revision),
            None => as_map(old(marks)@),
        },
{
    stand(refs, text_of(&commit.reference), revision);
    stand(by_oid, oid.clone(), revision);
    if let Some(mark) = commit.mark {
        set_mark(marks, mark.0, revision);
    }
}

/// Put `revision` under `mark`, replacing what was there.
fn set_mark(marks: &mut Vec<(u64, usize)>, mark: u64, revision: usize)
    requires
        unique(old(marks)@),
    ensures
        unique(final(marks)@),
        as_map(final(marks)@) == as_map(old(marks)@).insert(mark, revision),
{
    let ghost was = marks@;
    let mut at: usize = 0;
    while at < marks.len()
        invariant
            at <= marks@.len(),
            marks@ == was,
            was == old(marks)@,
            unique(was),
            forall|i: int| 0 <= i < at ==> #[trigger] marks@[i].0 != mark,
        decreases marks@.len() - at,
    {
        if marks[at].0 == mark {
            marks.set(at, (mark, revision));
            proof {
                crate::table::lemma_update(was, at as int, revision);
            }
            return;
        }
        at = at + 1;
    }
    let end = marks.len();
    marks.push((mark, revision));
    proof {
        assert(!crate::table::holds(was, mark));
        crate::table::lemma_insert(was, end as int, mark, revision);
        assert(marks@ =~= was.insert(end as int, (mark, revision)));
    }
}

/// A parent a commit names that nothing has converted yet.
#[derive(Clone, PartialEq, Eq, Debug)]
pub enum Unplaced {
    /// A mark the stream had not yet converted: the export is not in the
    /// order git writes it in.
    Mark(u64),
    /// An object ID no revision is known for.
    Oid(String),
}

/// The revisions a commit stands on, in the order git states them, each
/// once; or the first parent nothing has placed. `marks` are where the
/// stream's marks landed, `oids` what each commit the export left out already
/// is.
pub open spec fn parents_of(
    named: Seq<crate::stream::DataRefView>,
    marks: Map<u64, usize>,
    oids: Map<Seq<char>, usize>,
) -> Result<Seq<usize>, crate::stream::DataRefView>
    decreases named.len(),
{
    if named.len() == 0 {
        Ok(Seq::empty())
    } else {
        match parents_of(named.drop_last(), marks, oids) {
            Err(e) => Err(e),
            Ok(done) => {
                let revision = match named.last() {
                    crate::stream::DataRefView::Mark(m) => if marks.contains_key(m.0) {
                        Some(marks[m.0])
                    } else {
                        None
                    },
                    crate::stream::DataRefView::Oid(o) => if oids.contains_key(o) {
                        Some(oids[o])
                    } else {
                        None
                    },
                };
                match revision {
                    None => Err(named.last()),
                    Some(r) => if done.contains(r) {
                        Ok(done)
                    } else {
                        Ok(done.push(r))
                    },
                }
            },
        }
    }
}

/// A commit's parents as the stream names them: `from`, then each `merge`.
pub open spec fn named_parents(commit: crate::stream::CommitView) -> Seq<crate::stream::DataRefView> {
    match commit.from {
        Some(from) => seq![from] + commit.merges,
        None => commit.merges,
    }
}

/// The revisions a commit stands on: [`parents_of`]. An empty commit maps to
/// its own parent, so a merge of a branch that ended in one can name the same
/// revision twice, and historica takes a set of parents, not a list.
pub fn parents(
    commit: &crate::stream::Commit,
    marks: &[(u64, usize)],
    oids: &[(String, usize)],
) -> (found: Result<Vec<usize>, Unplaced>)
    requires
        unique(marks@),
        unique(standing(oids@)),
    ensures
        match found {
            Ok(list) => parents_of(named_parents(commit@), as_map(marks@), as_map(standing(oids@)))
                == Ok::<Seq<usize>, crate::stream::DataRefView>(list@),
            Err(Unplaced::Mark(m)) => parents_of(
                named_parents(commit@),
                as_map(marks@),
                as_map(standing(oids@)),
            ) == Err::<Seq<usize>, crate::stream::DataRefView>(
                crate::stream::DataRefView::Mark(crate::stream::Mark(m)),
            ),
            Err(Unplaced::Oid(o)) => parents_of(
                named_parents(commit@),
                as_map(marks@),
                as_map(standing(oids@)),
            ) == Err::<Seq<usize>, crate::stream::DataRefView>(crate::stream::DataRefView::Oid(o@)),
        },
{
    let ghost named = named_parents(commit@);
    let mut stated: Vec<crate::stream::DataRef> = Vec::new();
    if let Some(from) = &commit.from {
        stated.push(crate::export::copy_ref(from));
    }
    let mut m: usize = 0;
    while m < commit.merges.len()
        invariant
            m <= commit.merges@.len(),
            named == named_parents(commit@),
            stated@.map_values(|d: crate::stream::DataRef| d@) == named.subrange(0, (named.len() - commit.merges@.len() + m) as int),
            named.len() >= commit.merges@.len(),
        decreases commit.merges@.len() - m,
    {
        let copy = crate::export::copy_ref(&commit.merges[m]);
        proof {
            let before = named.len() - commit.merges@.len();
            assert(named[before + m] == commit.merges@[m as int]@);
            assert(named.subrange(0, before + m + 1) =~= named.subrange(0, before + m).push(named[before + m]));
            assert(stated@.push(copy).map_values(|d: crate::stream::DataRef| d@) =~= named.subrange(0, before + m + 1));
        }
        stated.push(copy);
        m = m + 1;
    }
    let ghost viewed = stated@.map_values(|d: crate::stream::DataRef| d@);
    proof {
        assert(viewed =~= named);
    }
    let count = stated.len();
    let mut list: Vec<usize> = Vec::new();
    let mut k: usize = 0;
    proof {
        assert(named.subrange(0, 0) =~= Seq::<crate::stream::DataRefView>::empty());
    }
    while k < count
        invariant
            named == named_parents(commit@),
            viewed == stated@.map_values(|d: crate::stream::DataRef| d@),
            viewed == named,
            count == stated@.len(),
            unique(marks@),
            unique(standing(oids@)),
            k <= count,
            parents_of(named.subrange(0, k as int), as_map(marks@), as_map(standing(oids@)))
                == Ok::<Seq<usize>, crate::stream::DataRefView>(list@),
        decreases count - k,
    {
        let parent = &stated[k];
        proof {
            assert(named[k as int] == parent@);
            assert(named.subrange(0, k + 1).drop_last() =~= named.subrange(0, k as int));
            assert(named.subrange(0, k + 1).last() == parent@);
        }
        let revision = match parent {
            crate::stream::DataRef::Mark(m) => match mark_at(marks, m.0) {
                Some(r) => r,
                None => {
                    proof {
                        lemma_parents_stop(named, as_map(marks@), as_map(standing(oids@)), k + 1);
                    }
                    return Err(Unplaced::Mark(m.0));
                },
            },
            crate::stream::DataRef::Oid(o) => match revision_of_oid(oids, o) {
                Some(r) => r,
                None => {
                    proof {
                        lemma_parents_stop(named, as_map(marks@), as_map(standing(oids@)), k + 1);
                    }
                    return Err(Unplaced::Oid(o.clone()));
                },
            },
        };
        if !contains_usize(&list, revision) {
            list.push(revision);
        }
        k = k + 1;
    }
    proof {
        assert(named.subrange(0, count as int) =~= named);
    }
    Ok(list)
}

proof fn lemma_parents_stop(
    named: Seq<crate::stream::DataRefView>,
    marks: Map<u64, usize>,
    oids: Map<Seq<char>, usize>,
    n: int,
)
    requires
        0 <= n <= named.len(),
        parents_of(named.subrange(0, n), marks, oids) is Err,
    ensures
        parents_of(named, marks, oids) == parents_of(named.subrange(0, n), marks, oids),
    decreases named.len() - n,
{
    if n < named.len() {
        assert(named.subrange(0, n + 1).drop_last() =~= named.subrange(0, n));
        lemma_parents_stop(named, marks, oids, n + 1);
    } else {
        assert(named.subrange(0, n) =~= named);
    }
}

fn revision_of_oid(oids: &[(String, usize)], oid: &String) -> (revision: Option<usize>)
    requires
        unique(standing(oids@)),
    ensures
        match revision {
            Some(r) => as_map(standing(oids@)).contains_key(oid@) && as_map(standing(oids@))[oid@] == r,
            None => !as_map(standing(oids@)).contains_key(oid@),
        },
{
    let ghost pairs = standing(oids@);
    let mut at: usize = 0;
    while at < oids.len()
        invariant
            pairs == standing(oids@),
            unique(pairs),
            at <= oids@.len(),
            forall|i: int| 0 <= i < at ==> #[trigger] pairs[i].0 != oid@,
        decreases oids@.len() - at,
    {
        if oids[at].0 == *oid {
            proof {
                crate::table::lemma_index(pairs, at as int);
            }
            return Some(oids[at].1);
        }
        at = at + 1;
    }
    proof {
        crate::table::lemma_absent(pairs, oid@);
    }
    None
}

fn contains_usize(list: &Vec<usize>, x: usize) -> (found: bool)
    ensures
        found == list@.contains(x),
{
    let mut at: usize = 0;
    while at < list.len()
        invariant
            at <= list@.len(),
            forall|i: int| 0 <= i < at ==> list@[i] != x,
        decreases list@.len() - at,
    {
        if list[at] == x {
            return true;
        }
        at = at + 1;
    }
    false
}


// ---------------------------------------------------------------------------
// What a recording moved, put back
// ---------------------------------------------------------------------------

/// Where a bookmark points, as the store has it: a change, a revision, or a
/// file, each by its ID's bytes.
#[derive(Debug)]
pub enum Target {
    /// Follows the change through every rewrite.
    Change(Vec<u8>),
    /// Pinned to one revision.
    Revision(Vec<u8>),
    /// One file, whatever it is called now.
    File(Vec<u8>),
}

/// A [`Target`], as a contract speaks of it.
pub enum TargetView {
    Change(Seq<u8>),
    Revision(Seq<u8>),
    File(Seq<u8>),
}

impl View for Target {
    type V = TargetView;

    open spec fn view(&self) -> TargetView {
        match self {
            Target::Change(id) => TargetView::Change(id@),
            Target::Revision(id) => TargetView::Revision(id@),
            Target::File(id) => TargetView::File(id@),
        }
    }
}

impl Target {
    /// The same target.
    pub fn share(&self) -> (other: Target)
        ensures
            other@ == self@,
    {
        match self {
            Target::Change(id) => Target::Change(crate::bytes::copy(id.as_slice())),
            Target::Revision(id) => Target::Revision(crate::bytes::copy(id.as_slice())),
            Target::File(id) => Target::File(crate::bytes::copy(id.as_slice())),
        }
    }
}

/// Bookmarks and where they stood, as a contract speaks of them.
pub open spec fn standing_view(standing: Seq<(String, Target)>) -> Seq<(Seq<char>, TargetView)> {
    standing.map_values(|pair: (String, Target)| (pair.0@, pair.1@))
}

/// Each bookmark a recording advanced that stood somewhere before it, in the
/// order the recording names them, with where it stood: what is put back,
/// because where git's refs stand is git's to say.
pub open spec fn restored_of(
    advanced: Seq<Seq<char>>,
    standing: Seq<(Seq<char>, TargetView)>,
) -> Seq<(Seq<char>, TargetView)>
    decreases advanced.len(),
{
    if advanced.len() == 0 {
        Seq::empty()
    } else {
        let earlier = restored_of(advanced.drop_last(), standing);
        let name = advanced.last();
        if as_map(standing).contains_key(name) {
            earlier.push((name, as_map(standing)[name]))
        } else {
            earlier
        }
    }
}

/// What a recording advanced, put back where it stood: [`restored_of`].
pub fn restored(advanced: &[String], standing: &[(String, Target)]) -> (put_back: Vec<(String, Target)>)
    requires
        unique(standing_view(standing@)),
    ensures
        standing_view(put_back@) == restored_of(
            advanced@.map_values(|name: String| name@),
            standing_view(standing@),
        ),
{
    let ghost names = advanced@.map_values(|name: String| name@);
    let ghost view = standing_view(standing@);
    let mut put_back: Vec<(String, Target)> = Vec::new();
    let mut at: usize = 0;
    while at < advanced.len()
        invariant
            at <= advanced@.len(),
            names == advanced@.map_values(|name: String| name@),
            view == standing_view(standing@),
            unique(view),
            standing_view(put_back@) == restored_of(names.subrange(0, at as int), view),
        decreases advanced@.len() - at,
    {
        let name = &advanced[at];
        let mut found: Option<usize> = None;
        let mut k: usize = 0;
        while k < standing.len()
            invariant
                k <= standing@.len(),
                view == standing_view(standing@),
                match found {
                    Some(i) => i < standing@.len() && view[i as int].0 == name@,
                    None => forall|j: int| 0 <= j < k ==> #[trigger] view[j].0 != name@,
                },
            decreases standing@.len() - k,
        {
            if found.is_none() && standing[k].0 == *name {
                found = Some(k);
            }
            k = k + 1;
        }
        proof {
            let prefix = names.subrange(0, at as int);
            let longer = names.subrange(0, at + 1);
            assert(longer.drop_last() =~= prefix);
            assert(longer.last() == name@);
        }
        match found {
            Some(i) => {
                proof {
                    crate::table::lemma_index(view, i as int);
                }
                let ghost before = put_back@;
                put_back.push((name.clone(), standing[i].1.share()));
                proof {
                    assert(standing_view(put_back@) =~= standing_view(before).push((name@, view[i as int].1)));
                }
            },
            None => {
                proof {
                    crate::table::lemma_absent(view, name@);
                }
            },
        }
        at = at + 1;
    }
    proof {
        assert(names.subrange(0, at as int) =~= names);
    }
    put_back
}

/// Where what stands on a commit lands: the revision the store already held
/// for it, or the one its recording made, or — for a commit that changed
/// nothing and so made none — its first parent.
pub open spec fn lands_on_of(held: Option<usize>, recorded: Option<usize>, first_parent: Option<usize>) -> Option<usize> {
    match held {
        Some(at) => Some(at),
        None => match recorded {
            Some(at) => Some(at),
            None => first_parent,
        },
    }
}

/// Where what stands on a commit lands: [`lands_on_of`].
pub fn lands_on(held: Option<usize>, recorded: Option<usize>, first_parent: Option<usize>) -> (at: Option<usize>)
    ensures
        at == lands_on_of(held, recorded, first_parent),
{
    match held {
        Some(at) => Some(at),
        None => match recorded {
            Some(at) => Some(at),
            None => first_parent,
        },
    }
}


// ---------------------------------------------------------------------------
// One command of the stream, and git's own refs
// ---------------------------------------------------------------------------

/// What a conversion does with one command before and after the replay
/// takes it.
pub struct ImportStep {
    /// Pass the command over: a reset that names an object ID, where git can
    /// be asked where its refs stand, which it answers better.
    pub skip: bool,
    /// The parents a commit names by object ID whose trees the replay has not
    /// been handed, each once, in the order the commit names them: git is
    /// asked for each before the commit is replayed.
    pub seed: Vec<String>,
    /// An annotated tag that did not cross, to be counted where git's refs are
    /// not read afterwards.
    pub counts_tag: bool,
}

/// An [`ImportStep`], as a contract speaks of it.
#[verifier::ext_equal]
pub struct ImportStepView {
    pub skip: bool,
    pub seed: Seq<Seq<char>>,
    pub counts_tag: bool,
}

impl View for ImportStep {
    type V = ImportStepView;

    open spec fn view(&self) -> ImportStepView {
        ImportStepView {
            skip: self.skip,
            seed: self.seed@.map_values(|oid: String| oid@),
            counts_tag: self.counts_tag,
        }
    }
}

/// The object IDs among `named` that are not seeded, each once, in order.
pub open spec fn to_seed(named: Seq<crate::stream::DataRefView>, seeded: Set<Seq<char>>) -> Seq<Seq<char>>
    decreases named.len(),
{
    if named.len() == 0 {
        Seq::empty()
    } else {
        let earlier = to_seed(named.drop_last(), seeded);
        match named.last() {
            crate::stream::DataRefView::Oid(oid) => if seeded.contains(oid) || earlier.contains(oid) {
                earlier
            } else {
                earlier.push(oid)
            },
            crate::stream::DataRefView::Mark(_) => earlier,
        }
    }
}

/// A commit's parents: its `from`, then its `merge`s.
pub open spec fn parents_named(commit: crate::stream::CommitView) -> Seq<crate::stream::DataRefView> {
    match commit.from {
        Some(first) => seq![first] + commit.merges,
        None => commit.merges,
    }
}

/// What a conversion does with one command, given the trees the replay has
/// been handed, whether git can be asked, and whether git's refs are read
/// after the stream.
pub open spec fn import_step_of(
    seeded: Set<Seq<char>>,
    command: crate::stream::CommandView,
    asking_git: bool,
    reading_refs: bool,
) -> ImportStepView {
    match command {
        crate::stream::CommandView::Commit(commit) => ImportStepView {
            skip: false,
            seed: to_seed(parents_named(commit), seeded),
            counts_tag: false,
        },
        crate::stream::CommandView::Reset(reset) => ImportStepView {
            skip: asking_git && reset.from matches Some(crate::stream::DataRefView::Oid(_)),
            seed: Seq::empty(),
            counts_tag: false,
        },
        crate::stream::CommandView::Tag(_) => ImportStepView {
            skip: false,
            seed: Seq::empty(),
            counts_tag: !reading_refs,
        },
        _ => ImportStepView { skip: false, seed: Seq::empty(), counts_tag: false },
    }
}

/// Whether `oid` is among `found`.
fn listed(found: &Vec<String>, oid: &String) -> (here: bool)
    ensures
        here == found@.map_values(|o: String| o@).contains(oid@),
{
    let ghost view = found@.map_values(|o: String| o@);
    let mut at: usize = 0;
    while at < found.len()
        invariant
            at <= found@.len(),
            view == found@.map_values(|o: String| o@),
            forall|i: int| 0 <= i < at ==> view[i] != oid@,
        decreases found@.len() - at,
    {
        if found[at] == *oid {
            assert(view[at as int] == oid@);
            return true;
        }
        at = at + 1;
    }
    false
}

/// One more parent, taken into what is to be seeded.
fn seed_one(
    trees: &crate::tree::Trees,
    seed: &mut Vec<String>,
    parent: &crate::stream::DataRef,
    done: Ghost<Seq<crate::stream::DataRefView>>,
)
    requires
        old(seed)@.map_values(|o: String| o@) == to_seed(done@, trees@.seeded.dom()),
    ensures
        final(seed)@.map_values(|o: String| o@) == to_seed(done@.push(parent@), trees@.seeded.dom()),
{
    let ghost longer = done@.push(parent@);
    assert(longer.drop_last() =~= done@);
    if let crate::stream::DataRef::Oid(oid) = parent {
        if !trees.is_seeded(oid.as_str()) && !listed(seed, oid) {
            let ghost before = seed@.map_values(|o: String| o@);
            seed.push(oid.clone());
            assert(seed@.map_values(|o: String| o@) =~= before.push(oid@));
        }
    }
}

/// What a conversion does with one command: [`import_step_of`].
pub fn import_step(
    trees: &crate::tree::Trees,
    command: &crate::stream::Command,
    asking_git: bool,
    reading_refs: bool,
) -> (step: ImportStep)
    ensures
        step@ == import_step_of(trees@.seeded.dom(), command@, asking_git, reading_refs),
{
    match command {
        crate::stream::Command::Commit(commit) => {
            let ghost seeded = trees@.seeded.dom();
            let mut seed: Vec<String> = Vec::new();
            let ghost head: Seq<crate::stream::DataRefView> = match commit@.from {
                Some(first) => seq![first],
                None => Seq::empty(),
            };
            assert(seed@.map_values(|o: String| o@) =~= Seq::<Seq<char>>::empty());
            assert(to_seed(Seq::empty(), seeded) == Seq::<Seq<char>>::empty());
            if let Some(first) = &commit.from {
                seed_one(trees, &mut seed, first, Ghost(Seq::empty()));
                assert(Seq::<crate::stream::DataRefView>::empty().push(first@) =~= head);
            }
            assert(seed@.map_values(|o: String| o@) == to_seed(head, seeded));
            let ghost merges = commit.merges@.map_values(|r: crate::stream::DataRef| r@);
            let mut at: usize = 0;
            while at < commit.merges.len()
                invariant
                    at <= commit.merges@.len(),
                    seeded == trees@.seeded.dom(),
                    merges == commit.merges@.map_values(|r: crate::stream::DataRef| r@),
                    seed@.map_values(|o: String| o@) == to_seed(head + merges.subrange(0, at as int), seeded),
                decreases commit.merges@.len() - at,
            {
                let ghost done = head + merges.subrange(0, at as int);
                seed_one(trees, &mut seed, &commit.merges[at], Ghost(done));
                proof {
                    assert(done.push(merges[at as int]) =~= head + merges.subrange(0, at + 1));
                }
                at = at + 1;
            }
            proof {
                assert(merges.subrange(0, at as int) =~= merges);
                assert(merges =~= commit@.merges);
                assert(head + merges =~= parents_named(commit@));
            }
            let step = ImportStep { skip: false, seed, counts_tag: false };
            assert(step@.seed == to_seed(parents_named(commit@), seeded));
            assert(step@ =~= import_step_of(trees@.seeded.dom(), command@, asking_git, reading_refs));
            step
        },
        crate::stream::Command::Reset(reset) => {
            let names_oid = match &reset.from {
                Some(crate::stream::DataRef::Oid(_)) => true,
                _ => false,
            };
            ImportStep { skip: asking_git && names_oid, seed: Vec::new(), counts_tag: false }
        },
        crate::stream::Command::Tag(_) => ImportStep {
            skip: false,
            seed: Vec::new(),
            counts_tag: !reading_refs,
        },
        _ => ImportStep { skip: false, seed: Vec::new(), counts_tag: false },
    }
}

/// git's refs, each as git names it, whether it names an annotated tag, and
/// the revision its commit became, if the conversion knows one.
pub open spec fn current_refs_of(current: Seq<(Seq<char>, bool, Option<usize>)>) -> (
    Seq<(Seq<char>, usize)>,
    nat,
    nat,
)
    decreases current.len(),
{
    if current.len() == 0 {
        (Seq::empty(), 0, 0)
    } else {
        let (standing, tags, dangling) = current_refs_of(current.drop_last());
        let (reference, annotated, at) = current.last();
        if annotated {
            (
                standing,
                if becomes_of(reference) is Tag {
                    tags + 1
                } else {
                    tags
                },
                dangling,
            )
        } else {
            match at {
                Some(at) => (standing.push((reference, at)), tags, dangling),
                None => (standing, tags, dangling + 1),
            }
        }
    }
}

/// The refs git has as the conversion takes them: a ref on a commit the
/// conversion knows stands on its revision; an annotated tag does not cross
/// and is counted as a tag; any other ref is dangling. [`current_refs_of`].
pub fn current_refs(current: &[(String, bool, Option<usize>)]) -> (taken: (
    Vec<(String, usize)>,
    usize,
    usize,
))
    ensures
        (
            taken.0@.map_values(|p: (String, usize)| (p.0@, p.1)),
            taken.1 as nat,
            taken.2 as nat,
        ) == current_refs_of(current@.map_values(|c: (String, bool, Option<usize>)| (c.0@, c.1, c.2))),
{
    let ghost view = current@.map_values(|c: (String, bool, Option<usize>)| (c.0@, c.1, c.2));
    let mut standing: Vec<(String, usize)> = Vec::new();
    let mut tags: usize = 0;
    let mut dangling: usize = 0;
    let mut at: usize = 0;
    while at < current.len()
        invariant
            at <= current@.len(),
            view == current@.map_values(|c: (String, bool, Option<usize>)| (c.0@, c.1, c.2)),
            tags + dangling + standing@.len() <= at,
            (standing@.map_values(|p: (String, usize)| (p.0@, p.1)), tags as nat, dangling as nat)
                == current_refs_of(view.subrange(0, at as int)),
        decreases current@.len() - at,
    {
        proof {
            assert(view.subrange(0, at + 1).drop_last() =~= view.subrange(0, at as int));
            assert(view.subrange(0, at + 1).last() == view[at as int]);
        }
        let (reference, annotated, place) = (&current[at].0, current[at].1, current[at].2);
        if annotated {
            match becomes(reference.as_str()) {
                Becomes::Tag(_) => {
                    tags = tags + 1;
                },
                _ => {},
            }
        } else {
            match place {
                Some(revision) => {
                    let ghost before = standing@.map_values(|p: (String, usize)| (p.0@, p.1));
                    standing.push((reference.clone(), revision));
                    proof {
                        assert(standing@.map_values(|p: (String, usize)| (p.0@, p.1)) =~= before.push(
                            (reference@, revision),
                        ));
                    }
                },
                None => {
                    dangling = dangling + 1;
                },
            }
        }
        at = at + 1;
    }
    proof {
        assert(view.subrange(0, at as int) =~= view);
    }
    (standing, tags, dangling)
}


/// A committer other than the author rides along: the commit carries a
/// `git.committer` header exactly when it names an author who differs from
/// its committer in anything at all — name, address, time or offset, so the
/// same person committing later counts — and that header comes first and
/// reads back as the committer, for every committer git can spell.
pub proof fn a_committer_other_than_the_author_rides_along(commit: crate::stream::CommitView)
    ensures
        committer_kept(commit) <==> (commit.author matches Some(a) && (a.name != commit.committer.name
            || a.email != commit.committer.email || a.seconds != commit.committer.seconds
            || a.offset_minutes != commit.committer.offset_minutes)),
        committer_kept(commit) ==> headers_of(commit).len() > 0 && headers_of(commit)[0].0
            == "git.committer"@,
        !committer_kept(commit) ==> forall|i: int|
            0 <= i < headers_of(commit).len() ==> #[trigger] headers_of(commit)[i].0 != "git.committer"@,
        ({
            let c = commit.committer;
            (committer_kept(commit) && (c.name.len() == 0 || c.name.last() != 0x20) && (forall|i: int|
                0 <= i < c.email.len() ==> #[trigger] c.email[i] != 0x3c) && -5999 <= c.offset_minutes
                <= 5999) ==> crate::carried::person_of(
                vstd::utf8::encode_utf8(headers_of(commit)[0].1),
            ) == Some(c)
        }),
{
    reveal_strlit("git.committer");
    reveal_strlit("git.signature");
    reveal_strlit("git.signature-kind");
    let c = commit.committer;
    if let Some(a) = commit.author {
        if a.name == c.name && a.email == c.email && a.seconds == c.seconds && a.offset_minutes
            == c.offset_minutes {
            assert(a == c);
        }
    }
    if !committer_kept(commit) {
        if let Some(signature) = commit.signature {
            assert("git.signature"@[4] != "git.committer"@[4]);
            assert("git.signature-kind"@[4] != "git.committer"@[4]);
        }
    }
    if committer_kept(commit) && (c.name.len() == 0 || c.name.last() != 0x20) && (forall|i: int|
        0 <= i < c.email.len() ==> #[trigger] c.email[i] != 0x3c) && -5999 <= c.offset_minutes <= 5999 {
        crate::carried::a_committer_stays_readable(c);
    }
}

} // verus!
