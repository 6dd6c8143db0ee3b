//! The folder a conversion writes each commit into, and the paths it will
//! write there.
//!
//! Nothing of a person's is ever deleted: a fresh target must be empty or
//! absent, and the only paths removed are ones written on a previous commit.
//! What is decided here is which paths those are, and whether a path git
//! holds is one historica can spell at all; the reading and writing of files
//! is the program's.

use vstd::prelude::*;
use vstd::utf8::{decode_utf8, valid_utf8};

use crate::bytes::lossy;
use crate::bytes::copy;
use crate::stream::text::starts_with;
use crate::table::{as_map, keys, unique};
use crate::tree::{pairs, sorted_paths, Entry, Held, Tree, TreeMap};

verus! {

/// A path historica cannot hold, and why.
#[derive(Clone, PartialEq, Eq, Debug)]
pub enum PathRefused {
    /// Bytes that are not UTF-8, shown as a person would read them.
    NotText {
        /// The path, shown.
        path: String,
    },
    /// Text, but not a path a store's folder can hold.
    Unusable {
        /// The path.
        path: String,
        /// Why not.
        because: String,
    },
}

/// A [`PathRefused`], as a contract speaks of it.
pub enum PathRefusedView {
    NotText { path: Seq<char> },
    Unusable { path: Seq<char>, because: Seq<char> },
}

impl View for PathRefused {
    type V = PathRefusedView;

    open spec fn view(&self) -> PathRefusedView {
        match self {
            PathRefused::NotText { path } => PathRefusedView::NotText { path: path@ },
            PathRefused::Unusable { path, because } => PathRefusedView::Unusable {
                path: path@,
                because: because@,
            },
        }
    }
}

impl PathRefused {
    /// What went wrong, for a person to read.
    pub fn to_string(&self) -> (message: String)
        ensures
            message@ == refused_said(self@),
    {
        proof {
            reveal_strlit("the repository holds `");
        }
        match self {
            PathRefused::NotText { path } => {
                let mut message = String::from_str(HOLDS);
                message.append(path.as_str());
                message.append(NOT_UTF8);
                message
            },
            PathRefused::Unusable { path, because } => {
                let mut message = String::from_str(HOLDS);
                message.append(path.as_str());
                message.append(WHICH);
                message.append(because.as_str());
                message
            },
        }
    }
}

pub const HOLDS: &'static str = "the repository holds `";

pub const NOT_UTF8: &'static str = "`, whose name is not UTF-8, and a store spells its paths in text";

pub const WHICH: &'static str = "`, which ";

pub const EMPTY: &'static str = "it is empty";

pub const ABSOLUTE: &'static str = "it is absolute, and a repository holds relative paths";

pub const CLIMBS: &'static str = "it climbs out of the folder it is in";

pub const THE_STORES: &'static str = "`history/` is where the store goes, so a repository that has one of its own cannot be converted into a folder this way";

/// What a refusal says.
pub open spec fn refused_said(e: PathRefusedView) -> Seq<char> {
    match e {
        PathRefusedView::NotText { path } => HOLDS@ + path + NOT_UTF8@,
        PathRefusedView::Unusable { path, because } => HOLDS@ + path + WHICH@ + because,
    }
}

/// The directory a store lives in, as historica names it.
pub open spec fn store_dir() -> Seq<u8> {
    seq![0x68u8, 0x69, 0x73, 0x74, 0x6f, 0x72, 0x79]
}

/// Calls `std::str::from_utf8`, which hands back the same bytes as text where
/// they are UTF-8 and refuses them where they are not.
#[verifier::external_body]
fn utf8(bytes: &[u8]) -> (text: Option<&str>)
    ensures
        match text {
            Some(t) => valid_utf8(bytes@) && t@ == decode_utf8(bytes@),
            None => !valid_utf8(bytes@),
        },
{
    match std::str::from_utf8(bytes) {
        Ok(text) => Some(text),
        Err(_) => None,
    }
}

/// `historica::store::STORE_DIR`, the directory a store lives in, which
/// historica's source defines as `history`.
#[verifier::external_body]
fn store_directory() -> (dir: &'static str)
    ensures
        dir@.len() == 7,
        vstd::utf8::encode_utf8(dir@) == store_dir(),
{
    historica::store::STORE_DIR
}

/// Whether `.` or `..` stands as a whole part at `i` of a path framed by `/`:
/// `/./` or `/../` starting there.
pub open spec fn dot_part(framed: Seq<u8>, i: int) -> bool {
    ||| (0 <= i && i + 3 <= framed.len() && framed[i] == 0x2f && framed[i + 1] == 0x2e && framed[i
        + 2] == 0x2f)
    ||| (0 <= i && i + 4 <= framed.len() && framed[i] == 0x2f && framed[i + 1] == 0x2e && framed[i
        + 2] == 0x2e && framed[i + 3] == 0x2f)
}

/// Whether the path, taken as parts between `/`, has a part that is `.` or
/// `..`: with a `/` put at either end, whether `/./` or `/../` occurs.
pub open spec fn climbs(path: Seq<u8>) -> bool {
    exists|i: int| #[trigger] dot_part(seq![0x2fu8] + path + seq![0x2fu8], i)
}

/// Why a path that is text cannot be held in a store's folder, if it cannot.
pub open spec fn unusable(path: Seq<u8>) -> Option<Seq<char>> {
    if path.len() == 0 {
        Some(EMPTY@)
    } else if path[0] == 0x2f {
        Some(ABSOLUTE@)
    } else if climbs(path) {
        Some(CLIMBS@)
    } else if path == store_dir() || starts_with(path, store_dir().push(0x2f)) {
        Some(THE_STORES@)
    } else {
        None
    }
}

/// A path as historica spells one: UTF-8, relative, inside its folder, and
/// not the store's.
pub open spec fn path_text(path: Seq<u8>) -> Result<Seq<char>, PathRefusedView> {
    if !valid_utf8(path) {
        Err(PathRefusedView::NotText { path: lossy(path) })
    } else {
        match unusable(path) {
            Some(because) => Err(PathRefusedView::Unusable { path: decode_utf8(path), because }),
            None => Ok(decode_utf8(path)),
        }
    }
}

fn climbs_out(path: &[u8]) -> (found: bool)
    ensures
        found == climbs(path@),
{
    let mut framed: Vec<u8> = Vec::new();
    framed.push(0x2f);
    let mut at: usize = 0;
    while at < path.len()
        invariant
            at <= path@.len(),
            framed@ == seq![0x2fu8] + path@.subrange(0, at as int),
        decreases path@.len() - at,
    {
        framed.push(path[at]);
        at = at + 1;
        proof {
            assert(framed@ =~= seq![0x2fu8] + path@.subrange(0, at as int));
        }
    }
    framed.push(0x2f);
    let ghost whole = seq![0x2fu8] + path@ + seq![0x2fu8];
    proof {
        assert(framed@ =~= whole);
    }
    let n = framed.len();
    let mut i: usize = 0;
    while i < n
        invariant
            framed@ == whole,
            whole == seq![0x2fu8] + path@ + seq![0x2fu8],
            n == framed@.len(),
            i <= n,
            forall|j: int| 0 <= j < i ==> !#[trigger] dot_part(whole, j),
        decreases n - i,
    {
        let three = n - i >= 3 && framed[i] == 0x2f && framed[i + 1] == 0x2e && framed[i + 2] == 0x2f;
        let four = n - i >= 4 && framed[i] == 0x2f && framed[i + 1] == 0x2e && framed[i + 2] == 0x2e
            && framed[i + 3] == 0x2f;
        if three || four {
            proof {
                assert(dot_part(whole, i as int));
                assert(dot_part(seq![0x2fu8] + path@ + seq![0x2fu8], i as int));
                assert(climbs(path@));
            }
            return true;
        }
        i = i + 1;
    }
    proof {
        assert forall|j: int| !#[trigger] dot_part(whole, j) by {
            if 0 <= j < n {
            }
        }
        assert(!climbs(path@));
    }
    false
}

/// A path as historica spells one: [`path_text`].
pub fn path_of(path: &[u8]) -> (text: Result<String, PathRefused>)
    ensures
        match text {
            Ok(t) => path_text(path@) == Ok::<Seq<char>, PathRefusedView>(t@),
            Err(e) => path_text(path@) == Err::<Seq<char>, PathRefusedView>(e@),
        },
{
    let text = match utf8(path) {
        Some(text) => text,
        None => return Err(PathRefused::NotText { path: crate::bytes::text_of(path) }),
    };
    let because = if path.len() == 0 {
        Some(EMPTY)
    } else if path[0] == 0x2f {
        Some(ABSOLUTE)
    } else if climbs_out(path) {
        Some(CLIMBS)
    } else {
        let store = store_directory().as_bytes();
        let mut under: Vec<u8> = crate::bytes::copy(store);
        under.push(0x2f);
        if crate::stream::text::same(path, store) || crate::stream::text::begins(path, under.as_slice()) {
            Some(THE_STORES)
        } else {
            None
        }
    };
    match because {
        Some(because) => Err(PathRefused::Unusable { path: text.to_owned(), because: because.to_owned() }),
        None => Ok(text.to_owned()),
    }
}

// ---------------------------------------------------------------------------
// What writing a commit's folder changes
// ---------------------------------------------------------------------------

/// The paths of `paths` the tree `target` does not hold, in order.
pub open spec fn absent_from(paths: Seq<Seq<u8>>, target: TreeMap) -> Seq<Seq<u8>>
    decreases paths.len(),
{
    if paths.len() == 0 {
        Seq::empty()
    } else {
        let rest = absent_from(paths.drop_last(), target);
        if target.contains_key(paths.last()) {
            rest
        } else {
            rest.push(paths.last())
        }
    }
}

/// The paths of `paths` whose entry in `target` is not what `previous` already
/// holds there, in order.
pub open spec fn differing(paths: Seq<Seq<u8>>, previous: TreeMap, target: TreeMap) -> Seq<Seq<u8>>
    decreases paths.len(),
{
    if paths.len() == 0 {
        Seq::empty()
    } else {
        let rest = differing(paths.drop_last(), previous, target);
        let p = paths.last();
        if previous.contains_key(p) && previous[p] == target[p] {
            rest
        } else {
            rest.push(p)
        }
    }
}

/// What writing a commit's folder over the previous one's removes: every path
/// the previous held and this one does not, in path order.
pub open spec fn removed_of(previous: TreeMap, target: TreeMap) -> Seq<Seq<u8>> {
    absent_from(sorted_paths(previous), target)
}

/// What it writes: every path of this one that is not already there as it
/// is, in path order.
pub open spec fn written_of(previous: TreeMap, target: TreeMap) -> Seq<Seq<u8>> {
    differing(sorted_paths(target), previous, target)
}

/// The folder once what is removed is gone and what is written is there.
pub open spec fn after_writing(
    previous: TreeMap,
    target: TreeMap,
    removed: Set<Seq<u8>>,
    written: Set<Seq<u8>>,
) -> TreeMap {
    previous.remove_keys(removed).union_prefer_right(target.restrict(written))
}

proof fn lemma_push_contains<A>(s: Seq<A>, x: A, p: A)
    ensures
        s.push(x).contains(p) <==> (s.contains(p) || p == x),
{
    if s.push(x).contains(p) {
        let i = choose|i: int| 0 <= i < s.push(x).len() && s.push(x)[i] == p;
        if i < s.len() {
            assert(s[i] == p);
        }
    }
    if s.contains(p) {
        let i = choose|i: int| 0 <= i < s.len() && s[i] == p;
        assert(s.push(x)[i] == p);
    }
    if p == x {
        assert(s.push(x)[s.len() as int] == p);
    }
}

proof fn lemma_absent_from(paths: Seq<Seq<u8>>, target: TreeMap)
    ensures
        forall|p: Seq<u8>| #[trigger] absent_from(paths, target).contains(p) <==> paths.contains(p)
            && !target.contains_key(p),
    decreases paths.len(),
{
    if paths.len() > 0 {
        let rest = paths.drop_last();
        let last = paths.last();
        lemma_absent_from(rest, target);
        assert(paths =~= rest.push(last));
        assert forall|p: Seq<u8>| #[trigger] absent_from(paths, target).contains(p) <==> paths.contains(p)
            && !target.contains_key(p) by {
            lemma_push_contains(rest, last, p);
            lemma_push_contains(absent_from(rest, target), last, p);
        }
    }
}

proof fn lemma_differing(paths: Seq<Seq<u8>>, previous: TreeMap, target: TreeMap)
    ensures
        forall|p: Seq<u8>| #[trigger] differing(paths, previous, target).contains(p) <==> paths.contains(p)
            && !(previous.contains_key(p) && previous[p] == target[p]),
    decreases paths.len(),
{
    if paths.len() > 0 {
        let rest = paths.drop_last();
        let last = paths.last();
        lemma_differing(rest, previous, target);
        assert(paths =~= rest.push(last));
        assert forall|p: Seq<u8>| #[trigger] differing(paths, previous, target).contains(p) <==> paths.contains(p)
            && !(previous.contains_key(p) && previous[p] == target[p]) by {
            lemma_push_contains(rest, last, p);
            lemma_push_contains(differing(rest, previous, target), last, p);
        }
    }
}

/// The folder ends as the commit left it: writing what [`written_of`] names
/// over what is left once [`removed_of`] is gone gives exactly the commit's
/// tree, whatever the previous one was.
pub proof fn the_folder_ends_as_the_commit_left_it(previous: TreeMap, target: TreeMap)
    requires
        sorted_paths(previous).to_set() == previous.dom(),
        sorted_paths(target).to_set() == target.dom(),
    ensures
        after_writing(
            previous,
            target,
            removed_of(previous, target).to_set(),
            written_of(previous, target).to_set(),
        ) == target,
{
    lemma_absent_from(sorted_paths(previous), target);
    lemma_differing(sorted_paths(target), previous, target);
    let removed = removed_of(previous, target).to_set();
    let written = written_of(previous, target).to_set();
    let after = after_writing(previous, target, removed, written);
    assert forall|p: Seq<u8>| #[trigger] after.contains_key(p) <==> target.contains_key(p) by {
        assert(sorted_paths(previous).to_set().contains(p) == previous.dom().contains(p));
        assert(sorted_paths(target).to_set().contains(p) == target.dom().contains(p));
    }
    assert forall|p: Seq<u8>| #[trigger] target.contains_key(p) implies after[p] == target[p] by {
        assert(sorted_paths(target).to_set().contains(p));
        assert(sorted_paths(previous).to_set().contains(p) == previous.dom().contains(p));
    }
    assert(after =~= target);
}

/// Whether two entries are the same.
fn same_entry(a: &Entry, b: &Entry) -> (same: bool)
    ensures
        same == (a@ == b@),
{
    if a.mode != b.mode {
        return false;
    }
    match (&a.content, &b.content) {
        (Held::Bytes(x), Held::Bytes(y)) => crate::stream::text::same(x, y),
        (Held::Submodule(x), Held::Submodule(y)) => *x == *y,
        _ => false,
    }
}

/// What writing `target`'s folder over `previous`'s changes: the paths to
/// remove, [`removed_of`], and the paths to write, [`written_of`] — so that
/// materialising the next commit writes the difference rather than the whole
/// tree, and removes only what an earlier commit wrote.
pub fn changes_between(previous: &Tree, target: &Tree) -> (changes: (Vec<Vec<u8>>, Vec<Vec<u8>>))
    ensures
        changes.0@.map_values(|p: Vec<u8>| p@) == removed_of(previous@, target@),
        changes.1@.map_values(|p: Vec<u8>| p@) == written_of(previous@, target@),
{
    let before = previous.listing();
    let after = target.listing();
    let ghost before_paths = keys(pairs(before@));
    let ghost after_paths = keys(pairs(after@));
    let mut removed: Vec<Vec<u8>> = Vec::new();
    let mut at: usize = 0;
    proof {
        assert(before_paths.subrange(0, 0) =~= Seq::<Seq<u8>>::empty());
    }
    while at < before.len()
        invariant
            before_paths == keys(pairs(before@)),
            before_paths.len() == before@.len(),
            at <= before@.len(),
            removed@.map_values(|p: Vec<u8>| p@) == absent_from(before_paths.subrange(0, at as int), target@),
        decreases before@.len() - at,
    {
        proof {
            assert(before_paths.subrange(0, at + 1).drop_last() =~= before_paths.subrange(0, at as int));
            assert(before_paths[at as int] == before@[at as int].0@);
        }
        if target.get(&before[at].0).is_none() {
            let path = copy(&before[at].0);
            proof {
                assert(removed@.push(path).map_values(|p: Vec<u8>| p@) =~= removed@.map_values(
                    |p: Vec<u8>| p@,
                ).push(path@));
            }
            removed.push(path);
        }
        at = at + 1;
    }
    proof {
        assert(before_paths.subrange(0, before@.len() as int) =~= before_paths);
    }
    let mut written: Vec<Vec<u8>> = Vec::new();
    let mut at: usize = 0;
    proof {
        assert(after_paths.subrange(0, 0) =~= Seq::<Seq<u8>>::empty());
    }
    while at < after.len()
        invariant
            after_paths == keys(pairs(after@)),
            after_paths.len() == after@.len(),
            unique(pairs(after@)),
            as_map(pairs(after@)) == target@,
            at <= after@.len(),
            written@.map_values(|p: Vec<u8>| p@) == differing(
                after_paths.subrange(0, at as int),
                previous@,
                target@,
            ),
        decreases after@.len() - at,
    {
        proof {
            assert(after_paths.subrange(0, at + 1).drop_last() =~= after_paths.subrange(0, at as int));
            assert(after_paths[at as int] == after@[at as int].0@);
            assert(pairs(after@)[at as int] == (after@[at as int].0@, after@[at as int].1@));
            crate::table::lemma_index(pairs(after@), at as int);
        }
        let kept = match previous.get(&after[at].0) {
            Some(entry) => same_entry(entry, &after[at].1),
            None => false,
        };
        if !kept {
            let path = copy(&after[at].0);
            proof {
                assert(written@.push(path).map_values(|p: Vec<u8>| p@) =~= written@.map_values(
                    |p: Vec<u8>| p@,
                ).push(path@));
            }
            written.push(path);
        }
        at = at + 1;
    }
    proof {
        assert(after_paths.subrange(0, after@.len() as int) =~= after_paths);
    }
    (removed, written)
}

} // verus!
