//! The tree each commit leaves behind.
//!
//! `git fast-export` states a commit as a change list against its first parent,
//! not as a snapshot. That is the shape historica records in too — but a
//! conversion still has to know the whole file set at a commit, because
//! historica records a folder rather than a patch, and a folder has to be put
//! there first.
//!
//! So this replays the stream: blobs are remembered, commits are applied to
//! their parent's tree, and what comes out is the tree as of each commit.
//!
//! **What this costs.** Every blob the stream carries is held in memory, shared
//! between the trees that name it, and a tree is kept for every commit that a
//! later commit might name as a parent — which, in one pass, is all of them.


use vstd::prelude::*;
use vstd::std_specs::slice::into_iter_elts;

use crate::bytes::{copy, extend};
use crate::stream::text::{begins, same, slice, starts_with};
use crate::bytes::{lossy, text_of};
use crate::stream::{
    option_view, Blob, Change, ChangeView, Command, CommandView, Commit, CommitView, Content,
    ContentView, DataRef, DataRefView, Mark, Mode, Reset,
};
use crate::table::{as_map, holds, keys, lemma_index, lemma_insert, lemma_remove, lemma_update, unique};

verus! {

// ---------------------------------------------------------------------------
// What sits at a path
// ---------------------------------------------------------------------------

/// What sits at a path.
#[derive(Debug)]
pub struct Entry {
    /// The mode git states for it.
    pub mode: Mode,
    /// What it holds.
    pub content: Held,
}

/// The content of an entry, which is not always bytes.
#[derive(Debug)]
pub enum Held {
    /// A file's bytes, or a link's target.
    Bytes(Vec<u8>),
    /// A submodule: the commit of another repository, which no blob carries and
    /// which a conversion has to decide about rather than write out.
    Submodule(String),
}

/// An [`Entry`], as a contract speaks of it.
pub struct EntryView {
    pub mode: Mode,
    pub content: HeldView,
}

/// A [`Held`], as a contract speaks of it.
pub enum HeldView {
    Bytes(Seq<u8>),
    Submodule(Seq<char>),
}

impl View for Held {
    type V = HeldView;

    open spec fn view(&self) -> HeldView {
        match self {
            Held::Bytes(bytes) => HeldView::Bytes(bytes@),
            Held::Submodule(oid) => HeldView::Submodule(oid@),
        }
    }
}

impl View for Entry {
    type V = EntryView;

    open spec fn view(&self) -> EntryView {
        EntryView { mode: self.mode, content: self.content@ }
    }
}

impl Held {
    /// The same content.
    pub fn share(&self) -> (other: Held)
        ensures
            other@ == self@,
    {
        match self {
            Held::Bytes(bytes) => Held::Bytes(copy(bytes)),
            Held::Submodule(oid) => Held::Submodule(oid.clone()),
        }
    }
}

impl Entry {
    /// The same entry.
    pub fn share(&self) -> (other: Entry)
        ensures
            other@ == self@,
    {
        Entry { mode: self.mode, content: self.content.share() }
    }
}

// ---------------------------------------------------------------------------
// Path order
// ---------------------------------------------------------------------------

/// Whether `a` comes before `b` in byte order: at the first byte they differ,
/// or, where one is the other's beginning, the shorter first. This is the
/// order git lists a tree in, and the order the replay keeps one in.
pub open spec fn before(a: Seq<u8>, b: Seq<u8>) -> bool
    decreases a.len(),
{
    if a.len() == 0 {
        b.len() > 0
    } else if b.len() == 0 {
        false
    } else if a[0] != b[0] {
        a[0] < b[0]
    } else {
        before(a.drop_first(), b.drop_first())
    }
}

/// Paths in strictly increasing order, each once.
pub open spec fn ascending(paths: Seq<Seq<u8>>) -> bool {
    forall|i: int, j: int| 0 <= i < j < paths.len() ==> before(#[trigger] paths[i], #[trigger] paths[j])
}

pub proof fn lemma_before_irreflexive(a: Seq<u8>)
    ensures
        !before(a, a),
    decreases a.len(),
{
    if a.len() > 0 {
        lemma_before_irreflexive(a.drop_first());
    }
}

pub proof fn lemma_before_total(a: Seq<u8>, b: Seq<u8>)
    ensures
        a != b ==> before(a, b) || before(b, a),
        !(before(a, b) && before(b, a)),
    decreases a.len(),
{
    if a.len() > 0 && b.len() > 0 && a[0] == b[0] {
        lemma_before_total(a.drop_first(), b.drop_first());
        if a.drop_first() == b.drop_first() {
            assert(a == seq![a[0]] + a.drop_first());
            assert(b == seq![b[0]] + b.drop_first());
        }
    }
    if a.len() == 0 && b.len() == 0 {
        assert(a == b);
    }
}

pub proof fn lemma_before_transitive(a: Seq<u8>, b: Seq<u8>, c: Seq<u8>)
    requires
        before(a, b),
        before(b, c),
    ensures
        before(a, c),
    decreases a.len(),
{
    if a.len() > 0 && b.len() > 0 && c.len() > 0 && a[0] == b[0] && b[0] == c[0] {
        lemma_before_transitive(a.drop_first(), b.drop_first(), c.drop_first());
    }
}

/// Ascending paths are each there once.
pub proof fn lemma_ascending_unique(paths: Seq<Seq<u8>>)
    requires
        ascending(paths),
    ensures
        forall|i: int, j: int| 0 <= i < j < paths.len() ==> #[trigger] paths[i] != #[trigger] paths[j],
{
    assert forall|i: int, j: int| 0 <= i < j < paths.len() implies #[trigger] paths[i]
        != #[trigger] paths[j] by {
        lemma_before_irreflexive(paths[i]);
    }
}

/// Whether `a` comes before `b`.
pub fn precedes(a: &[u8], b: &[u8]) -> (earlier: bool)
    ensures
        earlier == before(a@, b@),
{
    let mut at: usize = 0;
    assert(a@.subrange(0, a@.len() as int) == a@);
    assert(b@.subrange(0, b@.len() as int) == b@);
    while at < a.len() && at < b.len() && a[at] == b[at]
        invariant
            at <= a@.len(),
            at <= b@.len(),
            before(a@, b@) == before(
                a@.subrange(at as int, a@.len() as int),
                b@.subrange(at as int, b@.len() as int),
            ),
        decreases a@.len() - at,
    {
        let ghost x = a@.subrange(at as int, a@.len() as int);
        let ghost y = b@.subrange(at as int, b@.len() as int);
        assert(x.drop_first() == a@.subrange(at + 1, a@.len() as int));
        assert(y.drop_first() == b@.subrange(at + 1, b@.len() as int));
        at = at + 1;
    }
    let ghost x = a@.subrange(at as int, a@.len() as int);
    let ghost y = b@.subrange(at as int, b@.len() as int);
    if at == a.len() {
        at < b.len()
    } else if at == b.len() {
        false
    } else {
        assert(x[0] == a@[at as int] && y[0] == b@[at as int]);
        a[at] < b[at]
    }
}

// ---------------------------------------------------------------------------
// A tree
// ---------------------------------------------------------------------------

/// Pairs of path and entry, as a contract speaks of them.
pub open spec fn pairs(s: Seq<(Vec<u8>, Entry)>) -> Seq<(Seq<u8>, EntryView)> {
    s.map_values(|p: (Vec<u8>, Entry)| (p.0@, p.1@))
}

/// Every file at one commit, by path.
#[derive(Debug)]
pub struct Tree {
    entries: Vec<(Vec<u8>, Entry)>,
}

impl View for Tree {
    type V = Map<Seq<u8>, EntryView>;

    closed spec fn view(&self) -> Map<Seq<u8>, EntryView> {
        as_map(pairs(self.entries@))
    }
}

impl Tree {
    #[verifier::type_invariant]
    spec fn in_order(&self) -> bool {
        ascending(keys(pairs(self.entries@)))
    }

    /// Every path, in path order.
    pub closed spec fn paths(&self) -> Seq<Seq<u8>> {
        keys(pairs(self.entries@))
    }

    /// The facts about a tree its own functions keep.
    proof fn facts(&self)
        requires
            self.in_order(),
        ensures
            unique(pairs(self.entries@)),
            self.entries@.len() == pairs(self.entries@).len(),
            forall|i: int| #![trigger self.entries@[i]] 0 <= i < self.entries@.len() ==> pairs(
                self.entries@,
            )[i] == (self.entries@[i].0@, self.entries@[i].1@),
    {
        let k = keys(pairs(self.entries@));
        lemma_ascending_unique(k);
        assert forall|i: int, j: int| 0 <= i < j < pairs(self.entries@).len() implies #[trigger] pairs(
            self.entries@,
        )[i].0 != #[trigger] pairs(self.entries@)[j].0 by {
            assert(k[i] == pairs(self.entries@)[i].0);
            assert(k[j] == pairs(self.entries@)[j].0);
        }
    }

    /// A tree with nothing in it.
    pub fn new() -> (tree: Tree)
        ensures
            tree@ == Map::<Seq<u8>, EntryView>::empty(),
    {
        let tree = Tree { entries: Vec::new() };
        assert(as_map(pairs(tree.entries@)) =~= Map::<Seq<u8>, EntryView>::empty());
        tree
    }

    /// Where `path` is, or where it would go.
    fn place(&self, path: &[u8]) -> (at: (usize, bool))
        ensures
            at.0 <= self.entries@.len(),
            at.1 ==> at.0 < self.entries@.len() && self.entries@[at.0 as int].0@ == path@,
            forall|i: int| 0 <= i < at.0 ==> before(#[trigger] self.entries@[i].0@, path@),
            !at.1 ==> forall|i: int| at.0 <= i < self.entries@.len() ==> before(
                path@,
                #[trigger] self.entries@[i].0@,
            ),
    {
        proof {
            use_type_invariant(self);
        }
        let mut at: usize = 0;
        while at < self.entries.len()
            invariant
                self.in_order(),
                at <= self.entries@.len(),
                forall|i: int| 0 <= i < at ==> before(#[trigger] self.entries@[i].0@, path@),
            decreases self.entries@.len() - at,
        {
            if !precedes(&self.entries[at].0, path) {
                let found = same(&self.entries[at].0, path);
                proof {
                    let k = keys(pairs(self.entries@));
                    assert(k[at as int] == self.entries@[at as int].0@);
                    lemma_before_total(path@, self.entries@[at as int].0@);
                    if !found {
                        assert forall|i: int| at <= i < self.entries@.len() implies before(
                            path@,
                            #[trigger] self.entries@[i].0@,
                        ) by {
                            if i > at {
                                assert(k[i] == self.entries@[i].0@);
                                assert(before(k[at as int], k[i]));
                                lemma_before_transitive(path@, k[at as int], k[i]);
                            }
                        }
                    }
                }
                return (at, found);
            }
            at = at + 1;
        }
        (at, false)
    }

    /// What is at this path, if anything.
    pub fn get(&self, path: &[u8]) -> (found: Option<&Entry>)
        ensures
            match found {
                Some(entry) => self@.contains_key(path@) && self@[path@] == entry@,
                None => !self@.contains_key(path@),
            },
    {
        proof {
            use_type_invariant(self);
            self.facts();
        }
        let (at, found) = self.place(path);
        if found {
            proof {
                lemma_index(pairs(self.entries@), at as int);
            }
            Some(&self.entries[at].1)
        } else {
            proof {
                assert forall|i: int| 0 <= i < pairs(self.entries@).len() implies #[trigger] pairs(
                    self.entries@,
                )[i].0 != path@ by {
                    assert(pairs(self.entries@)[i].0 == self.entries@[i].0@);
                    if i < at {
                        lemma_before_total(self.entries@[i].0@, path@);
                    } else {
                        lemma_before_total(path@, self.entries@[i].0@);
                    }
                }
            }
            None
        }
    }

    /// Every path and what is at it, in path order.
    pub fn iter(&self) -> (it: std::slice::Iter<'_, (Vec<u8>, Entry)>)
        ensures
            ascending(keys(pairs(into_iter_elts(it)))),
            as_map(pairs(into_iter_elts(it))) == self@,
            keys(pairs(into_iter_elts(it))) == self.paths(),
    {
        proof {
            use_type_invariant(self);
        }
        let it = self.entries.iter();
        proof {
            broadcast use vstd::std_specs::slice::axiom_spec_slice_iter;
            assert(into_iter_elts(it) == self.entries@);
        }
        it
    }

    /// How many files.
    pub fn len(&self) -> (n: usize)
        ensures
            n == self@.len(),
    {
        proof {
            use_type_invariant(self);
            self.facts();
            crate::table::lemma_len(pairs(self.entries@));
        }
        self.entries.len()
    }

    /// Whether the commit left an empty folder.
    pub fn is_empty(&self) -> (empty: bool)
        ensures
            empty == (self@.len() == 0),
    {
        self.len() == 0
    }

    /// Put an entry at a path, for a tree built from something other than a
    /// stream — git's own answer to `ls-tree`, when a commit's parent was left
    /// out of the export.
    pub fn insert(&mut self, path: Vec<u8>, entry: Entry)
        ensures
            final(self)@ == old(self)@.insert(path@, entry@),
    {
        proof {
            use_type_invariant(&*self);
            self.facts();
        }
        let (at, found) = self.place(&path);
        let ghost before_pairs = pairs(self.entries@);
        let ghost k = path@;
        let ghost v = entry@;
        if found {
            let mut entries: Vec<(Vec<u8>, Entry)> = Vec::new();
            std::mem::swap(&mut entries, &mut self.entries);
            entries.set(at, (path, entry));
            proof {
                lemma_update(before_pairs, at as int, v);
                assert(pairs(entries@) =~= before_pairs.update(at as int, (before_pairs[at as int].0, v)));
                assert(keys(pairs(entries@)) =~= keys(before_pairs));
            }
            self.entries = entries;
        } else {
            let mut entries: Vec<(Vec<u8>, Entry)> = Vec::new();
            std::mem::swap(&mut entries, &mut self.entries);
            entries.insert(at, (path, entry));
            proof {
                assert(!holds(before_pairs, k)) by {
                    assert forall|i: int| 0 <= i < before_pairs.len() implies #[trigger] before_pairs[i].0 != k by {
                        if i < at {
                            lemma_before_total(before_pairs[i].0, k);
                        } else {
                            lemma_before_total(k, before_pairs[i].0);
                        }
                    }
                }
                lemma_insert(before_pairs, at as int, k, v);
                assert(pairs(entries@) =~= before_pairs.insert(at as int, (k, v)));
                let nk = keys(pairs(entries@));
                assert forall|i: int, j: int| 0 <= i < j < nk.len() implies before(#[trigger] nk[i], #[trigger] nk[j]) by {
                    let ok = keys(before_pairs);
                    if j < at {
                        assert(nk[i] == ok[i] && nk[j] == ok[j]);
                    } else if j == at {
                        assert(nk[j] == k && nk[i] == ok[i]);
                    } else if i == at {
                        assert(nk[i] == k && nk[j] == ok[j - 1]);
                    } else if i < at {
                        assert(nk[i] == ok[i] && nk[j] == ok[j - 1]);
                    } else {
                        assert(nk[i] == ok[i - 1] && nk[j] == ok[j - 1]);
                    }
                }
            }
            self.entries = entries;
        }
    }

    /// Take away what is at `path`, and hand it back.
    pub fn remove(&mut self, path: &[u8]) -> (taken: Option<Entry>)
        ensures
            final(self)@ == old(self)@.remove(path@),
            match taken {
                Some(entry) => old(self)@.contains_key(path@) && old(self)@[path@] == entry@,
                None => !old(self)@.contains_key(path@),
            },
    {
        proof {
            use_type_invariant(&*self);
            self.facts();
        }
        let (at, found) = self.place(path);
        let ghost before_pairs = pairs(self.entries@);
        if !found {
            proof {
                assert forall|i: int| 0 <= i < before_pairs.len() implies #[trigger] before_pairs[i].0 != path@ by {
                    if i < at {
                        lemma_before_total(before_pairs[i].0, path@);
                    } else {
                        lemma_before_total(path@, before_pairs[i].0);
                    }
                }
                assert(as_map(before_pairs).remove(path@) =~= as_map(before_pairs));
            }
            return None;
        }
        let mut entries: Vec<(Vec<u8>, Entry)> = Vec::new();
        std::mem::swap(&mut entries, &mut self.entries);
        let (_, entry) = entries.remove(at);
        proof {
            lemma_index(before_pairs, at as int);
            lemma_remove(before_pairs, at as int);
            assert(pairs(entries@) =~= before_pairs.remove(at as int));
            let nk = keys(pairs(entries@));
            let ok = keys(before_pairs);
            assert forall|i: int, j: int| 0 <= i < j < nk.len() implies before(#[trigger] nk[i], #[trigger] nk[j]) by {
                if j < at {
                    assert(nk[i] == ok[i] && nk[j] == ok[j]);
                } else if i < at {
                    assert(nk[i] == ok[i] && nk[j] == ok[j + 1]);
                } else {
                    assert(nk[i] == ok[i + 1] && nk[j] == ok[j + 1]);
                }
            }
        }
        self.entries = entries;
        Some(entry)
    }

    /// Every path and what sits there, in path order.
    pub fn listing(&self) -> (entries: &[(Vec<u8>, Entry)])
        ensures
            unique(pairs(entries@)),
            as_map(pairs(entries@)) == self@,
            keys(pairs(entries@)) == sorted_paths(self@),
            keys(pairs(entries@)).to_set() == self@.dom(),
            pairs(entries@).len() == entries@.len(),
    {
        proof {
            use_type_invariant(self);
            self.lemma_paths();
            let k = keys(pairs(self.entries@));
            assert forall|p: Seq<u8>| #[trigger] k.to_set().contains(p) <==> self@.dom().contains(p) by {
                if k.to_set().contains(p) {
                    let i = choose|i: int| 0 <= i < k.len() && k[i] == p;
                    assert(pairs(self.entries@)[i].0 == p);
                    assert(crate::table::holds(pairs(self.entries@), p));
                }
                if self@.dom().contains(p) {
                    let i = choose|i: int| 0 <= i < pairs(self.entries@).len() && #[trigger] pairs(self.entries@)[i].0 == p;
                    assert(k[i] == p);
                }
            }
            assert(k.to_set() =~= self@.dom());
        }
        self.entries.as_slice()
    }

    /// The same tree.
    pub fn duplicate(&self) -> (other: Tree)
        ensures
            other@ == self@,
            other.paths() == self.paths(),
    {
        proof {
            use_type_invariant(self);
        }
        let mut entries: Vec<(Vec<u8>, Entry)> = Vec::new();
        let mut at: usize = 0;
        while at < self.entries.len()
            invariant
                self.in_order(),
                at <= self.entries@.len(),
                pairs(entries@) == pairs(self.entries@).subrange(0, at as int),
            decreases self.entries@.len() - at,
        {
            let path = copy(&self.entries[at].0);
            let entry = self.entries[at].1.share();
            let ghost earlier = entries@;
            entries.push((path, entry));
            proof {
                assert(entries@ == earlier.push((path, entry)));
                assert(pairs(entries@) =~= pairs(earlier).push((path@, entry@)));
                assert(pairs(self.entries@)[at as int] == (self.entries@[at as int].0@, self.entries@[at as int].1@));
                assert(pairs(entries@) =~= pairs(self.entries@).subrange(0, at + 1));
            }
            at = at + 1;
        }
        proof {
            assert(pairs(entries@) =~= pairs(self.entries@));
        }
        Tree { entries }
    }
}


// ---------------------------------------------------------------------------
// Paths beneath a prefix
// ---------------------------------------------------------------------------

/// What a tree is, as a contract speaks of it.
pub type TreeMap = Map<Seq<u8>, EntryView>;

/// Is `path` `prefix`, or under it? `sub/a` is under `sub`; `subtle` is not.
/// Git has no directories of its own, only paths that share a beginning.
pub open spec fn at_or_beneath(path: Seq<u8>, prefix: Seq<u8>) -> bool {
    path == prefix || (path.len() > prefix.len() && starts_with(path, prefix)
        && path[prefix.len() as int] == 0x2f)
}

/// `sub/a`, moved from `sub` to `other`, is `other/a`.
pub open spec fn rebase(path: Seq<u8>, from: Seq<u8>, to: Seq<u8>) -> Seq<u8> {
    to + path.subrange(from.len() as int, path.len() as int)
}

/// The paths of `paths` at or beneath `prefix`, in the order they stand.
pub open spec fn beneath_of(paths: Seq<Seq<u8>>, prefix: Seq<u8>) -> Seq<Seq<u8>>
    decreases paths.len(),
{
    if paths.len() == 0 {
        Seq::empty()
    } else {
        let rest = beneath_of(paths.drop_last(), prefix);
        if at_or_beneath(paths.last(), prefix) {
            rest.push(paths.last())
        } else {
            rest
        }
    }
}

/// A tree's paths in path order: the one ascending list of them.
pub open spec fn sorted_paths(tree: TreeMap) -> Seq<Seq<u8>> {
    choose|paths: Seq<Seq<u8>>| ascending(paths) && paths.to_set() == tree.dom()
}

/// The paths of a tree at or beneath `prefix`, in path order: what git means
/// by naming a directory in a `D`, `R`, or `C`.
pub open spec fn beneath(tree: TreeMap, prefix: Seq<u8>) -> Seq<Seq<u8>> {
    beneath_of(sorted_paths(tree), prefix)
}

/// The tree once each of `paths`, in turn, has moved from `from` to `to`.
pub open spec fn renamed(tree: TreeMap, paths: Seq<Seq<u8>>, from: Seq<u8>, to: Seq<u8>) -> TreeMap
    decreases paths.len(),
{
    if paths.len() == 0 {
        tree
    } else {
        let earlier = renamed(tree, paths.drop_last(), from, to);
        let path = paths.last();
        earlier.remove(path).insert(rebase(path, from, to), earlier[path])
    }
}

/// The tree once each of `paths`, in turn, has been copied from `from` to `to`.
pub open spec fn copied(tree: TreeMap, paths: Seq<Seq<u8>>, from: Seq<u8>, to: Seq<u8>) -> TreeMap
    decreases paths.len(),
{
    if paths.len() == 0 {
        tree
    } else {
        let earlier = copied(tree, paths.drop_last(), from, to);
        let path = paths.last();
        earlier.insert(rebase(path, from, to), earlier[path])
    }
}

/// Two ascending lists of the same paths are one list.
pub proof fn lemma_ascending_same(a: Seq<Seq<u8>>, b: Seq<Seq<u8>>)
    requires
        ascending(a),
        ascending(b),
        a.to_set() == b.to_set(),
    ensures
        a == b,
    decreases a.len(),
{
    lemma_ascending_unique(a);
    lemma_ascending_unique(b);
    if a.len() == 0 {
        if b.len() > 0 {
            assert(b.to_set().contains(b[0]));
        }
        return;
    }
    if b.len() == 0 {
        assert(a.to_set().contains(a[0]));
        return;
    }
    assert(a.to_set().contains(a[0]));
    assert(b.to_set().contains(b[0]));
    let j = choose|j: int| 0 <= j < b.len() && b[j] == a[0];
    let i = choose|i: int| 0 <= i < a.len() && a[i] == b[0];
    if j > 0 {
        assert(before(b[0], b[j]));
        if i > 0 {
            assert(before(a[0], a[i]));
            lemma_before_total(a[0], b[0]);
        } else {
            lemma_before_irreflexive(a[0]);
        }
    }
    assert(a[0] == b[0]);
    let a1 = a.drop_first();
    let b1 = b.drop_first();
    assert(ascending(a1)) by {
        assert forall|x: int, y: int| 0 <= x < y < a1.len() implies before(#[trigger] a1[x], #[trigger] a1[y]) by {
            assert(a1[x] == a[x + 1] && a1[y] == a[y + 1]);
        }
    }
    assert(ascending(b1)) by {
        assert forall|x: int, y: int| 0 <= x < y < b1.len() implies before(#[trigger] b1[x], #[trigger] b1[y]) by {
            assert(b1[x] == b[x + 1] && b1[y] == b[y + 1]);
        }
    }
    assert(a1.to_set() =~= b1.to_set()) by {
        assert forall|p: Seq<u8>| a1.to_set().contains(p) implies b1.to_set().contains(p) by {
            let x = choose|x: int| 0 <= x < a1.len() && a1[x] == p;
            assert(a.to_set().contains(p) && a[x + 1] == p);
            let y = choose|y: int| 0 <= y < b.len() && b[y] == p;
            if y == 0 {
                assert(a[0] != a[x + 1]);
            }
            assert(b1[y - 1] == p);
        }
        assert forall|p: Seq<u8>| b1.to_set().contains(p) implies a1.to_set().contains(p) by {
            let x = choose|x: int| 0 <= x < b1.len() && b1[x] == p;
            assert(b.to_set().contains(p) && b[x + 1] == p);
            let y = choose|y: int| 0 <= y < a.len() && a[y] == p;
            if y == 0 {
                assert(b[0] != b[x + 1]);
            }
            assert(a1[y - 1] == p);
        }
    }
    lemma_ascending_same(a1, b1);
    assert(a =~= seq![a[0]] + a1);
    assert(b =~= seq![b[0]] + b1);
}

impl Tree {
    /// A tree's paths are its paths in path order.
    proof fn lemma_paths(&self)
        requires
            self.in_order(),
        ensures
            self.paths() == sorted_paths(self@),
            unique(pairs(self.entries@)),
    {
        self.facts();
        let k = keys(pairs(self.entries@));
        assert(k.to_set() =~= self@.dom()) by {
            assert forall|p: Seq<u8>| k.to_set().contains(p) <==> self@.dom().contains(p) by {
                if k.to_set().contains(p) {
                    let i = choose|i: int| 0 <= i < k.len() && k[i] == p;
                    assert(pairs(self.entries@)[i].0 == p);
                }
                if holds(pairs(self.entries@), p) {
                    let i = choose|i: int| 0 <= i < pairs(self.entries@).len() && #[trigger] pairs(self.entries@)[i].0 == p;
                    assert(k[i] == p);
                }
            }
        }
        let chosen = sorted_paths(self@);
        assert(ascending(chosen) && chosen.to_set() == self@.dom());
        lemma_ascending_same(k, chosen);
    }

    /// Every path at or beneath `prefix`, in path order.
    pub(crate) fn beneath(&self, prefix: &[u8]) -> (out: Vec<Vec<u8>>)
        ensures
            out@.map_values(|p: Vec<u8>| p@) == beneath(self@, prefix@),
    {
        proof {
            use_type_invariant(self);
            self.lemma_paths();
        }
        let mut out: Vec<Vec<u8>> = Vec::new();
        let mut at: usize = 0;
        while at < self.entries.len()
            invariant
                at <= self.entries@.len(),
                out@.map_values(|p: Vec<u8>| p@) == beneath_of(
                    self.paths().subrange(0, at as int),
                    prefix@,
                ),
                self.paths().len() == self.entries@.len(),
                forall|i: int| 0 <= i < self.entries@.len() ==> #[trigger] self.paths()[i] == self.entries@[i].0@,
            decreases self.entries@.len() - at,
        {
            let ghost seen = out@.map_values(|p: Vec<u8>| p@);
            proof {
                assert(self.paths().subrange(0, at + 1).drop_last() == self.paths().subrange(0, at as int));
            }
            if at_or_beneath_exec(&self.entries[at].0, prefix) {
                out.push(copy(&self.entries[at].0));
                assert(out@.map_values(|p: Vec<u8>| p@) == seen.push(self.paths()[at as int]));
            }
            at = at + 1;
        }
        proof {
            assert(self.paths().subrange(0, self.entries@.len() as int) == self.paths());
        }
        out
    }
}

/// Whether `path` is `prefix` or under it.
fn at_or_beneath_exec(path: &[u8], prefix: &[u8]) -> (under: bool)
    ensures
        under == at_or_beneath(path@, prefix@),
{
    same(path, prefix) || (path.len() > prefix.len() && begins(path, prefix) && path[prefix.len()]
        == 0x2f)
}

/// `path`, moved from `from` to `to`.
pub(crate) fn rebase_exec(path: &[u8], from: &[u8], to: &[u8]) -> (moved: Vec<u8>)
    requires
        from@.len() <= path@.len(),
    ensures
        moved@ == rebase(path@, from@, to@),
{
    let mut moved = copy(to);
    let rest = slice(path, from.len(), path.len());
    extend(&mut moved, &rest);
    moved
}


/// The tree once each of `paths` is gone.
pub open spec fn deleted(tree: TreeMap, paths: Seq<Seq<u8>>) -> TreeMap
    decreases paths.len(),
{
    if paths.len() == 0 {
        tree
    } else {
        deleted(tree, paths.drop_last()).remove(paths.last())
    }
}

pub proof fn lemma_beneath_of(paths: Seq<Seq<u8>>, prefix: Seq<u8>)
    ensures
        forall|i: int| 0 <= i < beneath_of(paths, prefix).len() ==> paths.contains(
            #[trigger] beneath_of(paths, prefix)[i],
        ) && at_or_beneath(beneath_of(paths, prefix)[i], prefix),
        ascending(paths) ==> ascending(beneath_of(paths, prefix)),
    decreases paths.len(),
{
    if paths.len() > 0 {
        let rest = paths.drop_last();
        lemma_beneath_of(rest, prefix);
        let b = beneath_of(paths, prefix);
        let r = beneath_of(rest, prefix);
        assert forall|i: int| 0 <= i < r.len() implies paths.contains(#[trigger] r[i]) by {
            let j = choose|j: int| 0 <= j < rest.len() && rest[j] == r[i];
            assert(paths[j] == r[i]);
        }
        assert(paths[paths.len() - 1] == paths.last());
        if ascending(paths) {
            assert(ascending(rest)) by {
                assert forall|x: int, y: int| 0 <= x < y < rest.len() implies before(#[trigger] rest[x], #[trigger] rest[y]) by {
                    assert(rest[x] == paths[x] && rest[y] == paths[y]);
                }
            }
            if at_or_beneath(paths.last(), prefix) {
                assert forall|x: int, y: int| 0 <= x < y < b.len() implies before(#[trigger] b[x], #[trigger] b[y]) by {
                    if y == b.len() - 1 {
                        let j = choose|j: int| 0 <= j < rest.len() && rest[j] == r[x];
                        assert(paths[j] == b[x]);
                        assert(before(paths[j], paths[paths.len() - 1]));
                    }
                }
            }
        }
    }
}

impl Tree {
    /// Take away every path at or beneath `prefix`.
    fn delete_beneath(&mut self, prefix: &[u8])
        ensures
            final(self)@ == deleted(old(self)@, beneath(old(self)@, prefix@)),
    {
        let paths = self.beneath(prefix);
        let ghost listed = paths@.map_values(|p: Vec<u8>| p@);
        let mut at: usize = 0;
        while at < paths.len()
            invariant
                at <= paths@.len(),
                listed == paths@.map_values(|p: Vec<u8>| p@),
                listed == beneath(old(self)@, prefix@),
                self@ == deleted(old(self)@, listed.subrange(0, at as int)),
            decreases paths@.len() - at,
        {
            let _ = self.remove(&paths[at]);
            proof {
                assert(listed.subrange(0, at + 1).drop_last() == listed.subrange(0, at as int));
            }
            at = at + 1;
        }
        proof {
            assert(listed.subrange(0, paths@.len() as int) == listed);
        }
    }

    /// Move every path at or beneath `from` to where it stands under `to`.
    fn rename_beneath(&mut self, from: &[u8], to: &[u8])
        ensures
            final(self)@ == renamed(old(self)@, beneath(old(self)@, from@), from@, to@),
    {
        let paths = self.beneath(from);
        let ghost listed = paths@.map_values(|p: Vec<u8>| p@);
        proof {
            use_type_invariant(&*self);
            self.lemma_paths();
            self.facts();
            lemma_beneath_of(sorted_paths(self@), from@);
            lemma_ascending_unique(listed);
            assert forall|j: int| 0 <= j < listed.len() implies self@.contains_key(#[trigger] listed[j]) by {
                let k = choose|k: int| 0 <= k < self.paths().len() && self.paths()[k] == listed[j];
                assert(pairs(self.entries@)[k].0 == listed[j]);
                lemma_index(pairs(self.entries@), k);
            }
        }
        let mut at: usize = 0;
        while at < paths.len()
            invariant
                at <= paths@.len(),
                listed == paths@.map_values(|p: Vec<u8>| p@),
                listed == beneath(old(self)@, from@),
                forall|i: int, j: int| 0 <= i < j < listed.len() ==> #[trigger] listed[i] != #[trigger] listed[j],
                forall|j: int| 0 <= j < listed.len() ==> at_or_beneath(#[trigger] listed[j], from@),
                forall|j: int| at <= j < listed.len() ==> self@.contains_key(#[trigger] listed[j]),
                self@ == renamed(old(self)@, listed.subrange(0, at as int), from@, to@),
            decreases paths@.len() - at,
        {
            let ghost earlier = self@;
            assert(paths@[at as int]@ == listed[at as int]);
            assert(self@.contains_key(listed[at as int]));
            let taken = self.remove(&paths[at]);
            let entry = match taken {
                Some(entry) => entry,
                None => {
                    assert(false);
                    return;
                },
            };
            assert(listed[at as int].len() >= from@.len());
            let moved = rebase_exec(&paths[at], from, to);
            self.insert(moved, entry);
            proof {
                assert(listed.subrange(0, at + 1).drop_last() == listed.subrange(0, at as int));
                assert(listed.subrange(0, at + 1).last() == listed[at as int]);
                assert forall|j: int| at + 1 <= j < listed.len() implies self@.contains_key(#[trigger] listed[j]) by {
                    assert(listed[at as int] != listed[j]);
                    assert(earlier.contains_key(listed[j]));
                }
            }
            at = at + 1;
        }
        proof {
            assert(listed.subrange(0, paths@.len() as int) == listed);
        }
    }

    /// Copy every path at or beneath `from` to where it stands under `to`.
    fn copy_beneath(&mut self, from: &[u8], to: &[u8])
        ensures
            final(self)@ == copied(old(self)@, beneath(old(self)@, from@), from@, to@),
    {
        let paths = self.beneath(from);
        let ghost listed = paths@.map_values(|p: Vec<u8>| p@);
        proof {
            use_type_invariant(&*self);
            self.lemma_paths();
            self.facts();
            lemma_beneath_of(sorted_paths(self@), from@);
            assert forall|j: int| 0 <= j < listed.len() implies self@.contains_key(#[trigger] listed[j]) by {
                let k = choose|k: int| 0 <= k < self.paths().len() && self.paths()[k] == listed[j];
                assert(pairs(self.entries@)[k].0 == listed[j]);
                lemma_index(pairs(self.entries@), k);
            }
        }
        let mut at: usize = 0;
        while at < paths.len()
            invariant
                at <= paths@.len(),
                listed == paths@.map_values(|p: Vec<u8>| p@),
                listed == beneath(old(self)@, from@),
                forall|j: int| 0 <= j < listed.len() ==> at_or_beneath(#[trigger] listed[j], from@),
                forall|j: int| 0 <= j < listed.len() ==> self@.contains_key(#[trigger] listed[j]),
                self@ == copied(old(self)@, listed.subrange(0, at as int), from@, to@),
            decreases paths@.len() - at,
        {
            let ghost earlier = self@;
            assert(paths@[at as int]@ == listed[at as int]);
            assert(self@.contains_key(listed[at as int]));
            let entry = match self.get(&paths[at]) {
                Some(entry) => entry.share(),
                None => {
                    assert(false);
                    return;
                },
            };
            assert(listed[at as int].len() >= from@.len());
            let moved = rebase_exec(&paths[at], from, to);
            self.insert(moved, entry);
            proof {
                assert(listed.subrange(0, at + 1).drop_last() == listed.subrange(0, at as int));
                assert(listed.subrange(0, at + 1).last() == listed[at as int]);
                assert forall|j: int| 0 <= j < listed.len() implies self@.contains_key(#[trigger] listed[j]) by {
                    assert(earlier.contains_key(listed[j]));
                }
            }
            at = at + 1;
        }
        proof {
            assert(listed.subrange(0, paths@.len() as int) == listed);
        }
    }

    /// Take everything away.
    fn clear(&mut self)
        ensures
            final(self)@ == Map::<Seq<u8>, EntryView>::empty(),
    {
        *self = Tree::new();
    }
}


// ---------------------------------------------------------------------------
// Shelves: what the replay remembers, by the name it was given
// ---------------------------------------------------------------------------

/// A shelf keyed by marks, as a contract speaks of it.
pub open spec fn by_mark<T: View>(s: Seq<(u64, T)>) -> Seq<(u64, T::V)> {
    s.map_values(|p: (u64, T)| (p.0, p.1@))
}

/// A shelf keyed by bytes, as a contract speaks of it.
pub open spec fn by_bytes<T: View>(s: Seq<(Vec<u8>, T)>) -> Seq<(Seq<u8>, T::V)> {
    s.map_values(|p: (Vec<u8>, T)| (p.0@, p.1@))
}

/// A shelf keyed by text, as a contract speaks of it.
pub open spec fn by_text<T: View>(s: Seq<(String, T)>) -> Seq<(Seq<char>, T::V)> {
    s.map_values(|p: (String, T)| (p.0@, p.1@))
}

fn find_mark<T: View>(shelf: &Vec<(u64, T)>, mark: u64) -> (at: Option<usize>)
    ensures
        match at {
            Some(i) => i < shelf@.len() && shelf@[i as int].0 == mark,
            None => forall|i: int| 0 <= i < shelf@.len() ==> #[trigger] by_mark(shelf@)[i].0 != mark,
        },
{
    let mut at: usize = 0;
    while at < shelf.len()
        invariant
            at <= shelf@.len(),
            forall|i: int| 0 <= i < at ==> #[trigger] by_mark(shelf@)[i].0 != mark,
        decreases shelf@.len() - at,
    {
        if shelf[at].0 == mark {
            return Some(at);
        }
        at = at + 1;
    }
    None
}

fn find_bytes<T: View>(shelf: &Vec<(Vec<u8>, T)>, key: &[u8]) -> (at: Option<usize>)
    ensures
        match at {
            Some(i) => i < shelf@.len() && shelf@[i as int].0@ == key@,
            None => forall|i: int| 0 <= i < shelf@.len() ==> #[trigger] by_bytes(shelf@)[i].0 != key@,
        },
{
    let mut at: usize = 0;
    while at < shelf.len()
        invariant
            at <= shelf@.len(),
            forall|i: int| 0 <= i < at ==> #[trigger] by_bytes(shelf@)[i].0 != key@,
        decreases shelf@.len() - at,
    {
        if same(&shelf[at].0, key) {
            return Some(at);
        }
        at = at + 1;
    }
    None
}

fn find_text<T: View>(shelf: &Vec<(String, T)>, key: &String) -> (at: Option<usize>)
    ensures
        match at {
            Some(i) => i < shelf@.len() && shelf@[i as int].0@ == key@,
            None => forall|i: int| 0 <= i < shelf@.len() ==> #[trigger] by_text(shelf@)[i].0 != key@,
        },
{
    let mut at: usize = 0;
    while at < shelf.len()
        invariant
            at <= shelf@.len(),
            forall|i: int| 0 <= i < at ==> #[trigger] by_text(shelf@)[i].0 != key@,
        decreases shelf@.len() - at,
    {
        if shelf[at].0 == *key {
            return Some(at);
        }
        at = at + 1;
    }
    None
}

fn put_mark<T: View>(shelf: &mut Vec<(u64, T)>, mark: u64, value: T)
    requires
        unique(by_mark(old(shelf)@)),
    ensures
        unique(by_mark(final(shelf)@)),
        as_map(by_mark(final(shelf)@)) == as_map(by_mark(old(shelf)@)).insert(mark, value@),
{
    let ghost was = by_mark(shelf@);
    let ghost v = value@;
    match find_mark(shelf, mark) {
        Some(at) => {
            shelf.set(at, (mark, value));
            proof {
                lemma_update(was, at as int, v);
                assert(by_mark(shelf@) =~= was.update(at as int, (was[at as int].0, v)));
            }
        },
        None => {
            let end = shelf.len();
            shelf.push((mark, value));
            proof {
                lemma_insert(was, end as int, mark, v);
                assert(by_mark(shelf@) =~= was.insert(end as int, (mark, v)));
            }
        },
    }
}

fn put_bytes<T: View>(shelf: &mut Vec<(Vec<u8>, T)>, key: Vec<u8>, value: T)
    requires
        unique(by_bytes(old(shelf)@)),
    ensures
        unique(by_bytes(final(shelf)@)),
        as_map(by_bytes(final(shelf)@)) == as_map(by_bytes(old(shelf)@)).insert(key@, value@),
{
    let ghost was = by_bytes(shelf@);
    let ghost v = value@;
    let ghost k = key@;
    match find_bytes(shelf, &key) {
        Some(at) => {
            shelf.set(at, (key, value));
            proof {
                lemma_update(was, at as int, v);
                assert(by_bytes(shelf@) =~= was.update(at as int, (was[at as int].0, v)));
            }
        },
        None => {
            let end = shelf.len();
            shelf.push((key, value));
            proof {
                lemma_insert(was, end as int, k, v);
                assert(by_bytes(shelf@) =~= was.insert(end as int, (k, v)));
            }
        },
    }
}

fn put_text<T: View>(shelf: &mut Vec<(String, T)>, key: String, value: T)
    requires
        unique(by_text(old(shelf)@)),
    ensures
        unique(by_text(final(shelf)@)),
        as_map(by_text(final(shelf)@)) == as_map(by_text(old(shelf)@)).insert(key@, value@),
{
    let ghost was = by_text(shelf@);
    let ghost v = value@;
    let ghost k = key@;
    match find_text(shelf, &key) {
        Some(at) => {
            shelf.set(at, (key, value));
            proof {
                lemma_update(was, at as int, v);
                assert(by_text(shelf@) =~= was.update(at as int, (was[at as int].0, v)));
            }
        },
        None => {
            let end = shelf.len();
            shelf.push((key, value));
            proof {
                lemma_insert(was, end as int, k, v);
                assert(by_text(shelf@) =~= was.insert(end as int, (k, v)));
            }
        },
    }
}

fn drop_bytes<T: View>(shelf: &mut Vec<(Vec<u8>, T)>, key: &[u8])
    requires
        unique(by_bytes(old(shelf)@)),
    ensures
        unique(by_bytes(final(shelf)@)),
        as_map(by_bytes(final(shelf)@)) == as_map(by_bytes(old(shelf)@)).remove(key@),
{
    let ghost was = by_bytes(shelf@);
    match find_bytes(shelf, key) {
        Some(at) => {
            let _ = shelf.remove(at);
            proof {
                lemma_remove(was, at as int);
                assert(by_bytes(shelf@) =~= was.remove(at as int));
            }
        },
        None => {
            proof {
                assert(as_map(was).remove(key@) =~= as_map(was));
            }
        },
    }
}


// ---------------------------------------------------------------------------
// What a replay refuses
// ---------------------------------------------------------------------------

/// A stream that read correctly but does not describe a history this can
/// replay.
#[derive(Clone, PartialEq, Eq, Debug)]
pub enum Error {
    /// A change named a blob the stream had not carried.
    NoSuchBlob {
        /// The mark it named.
        mark: Mark,
        /// Where the content was going.
        path: String,
    },
    /// A commit named a parent the stream had not carried.
    NoSuchCommit {
        /// The mark it named.
        mark: Mark,
    },
    /// The stream named content by object ID, which means it was written
    /// without the content in it.
    ContentNotCarried {
        /// The object ID named.
        oid: String,
        /// Where the content was going.
        path: String,
    },
    /// The stream named a commit by object ID rather than carrying it.
    CommitNotCarried {
        /// The object ID named.
        oid: String,
    },
    /// A `040000` entry: the stream states whole subtrees rather than files.
    WholeTree {
        /// The directory named.
        path: String,
    },
    /// A `160000` entry that named no commit of the other repository.
    SubmoduleWithoutACommit {
        /// Where the submodule sits.
        path: String,
    },
}

/// An [`Error`], as a contract speaks of it.
pub enum ErrorView {
    NoSuchBlob { mark: Mark, path: Seq<char> },
    NoSuchCommit { mark: Mark },
    ContentNotCarried { oid: Seq<char>, path: Seq<char> },
    CommitNotCarried { oid: Seq<char> },
    WholeTree { path: Seq<char> },
    SubmoduleWithoutACommit { path: Seq<char> },
}

impl View for Error {
    type V = ErrorView;

    open spec fn view(&self) -> ErrorView {
        match self {
            Error::NoSuchBlob { mark, path } => ErrorView::NoSuchBlob { mark: *mark, path: path@ },
            Error::NoSuchCommit { mark } => ErrorView::NoSuchCommit { mark: *mark },
            Error::ContentNotCarried { oid, path } => ErrorView::ContentNotCarried {
                oid: oid@,
                path: path@,
            },
            Error::CommitNotCarried { oid } => ErrorView::CommitNotCarried { oid: oid@ },
            Error::WholeTree { path } => ErrorView::WholeTree { path: path@ },
            Error::SubmoduleWithoutACommit { path } => ErrorView::SubmoduleWithoutACommit {
                path: path@,
            },
        }
    }
}

pub const NEVER_CARRIED: &'static str = "` is content the stream never carried: mark :";

pub const NAMED_BEFORE_SET: &'static str = " is named before it is set";

pub const NAMES_PARENT_MARK: &'static str = "a commit names :";

pub const NEVER_SET: &'static str = " as a parent, which the stream never set";

pub const BY_OBJECT_ID: &'static str = "` names content by object ID (";

pub const NO_DATA: &'static str = ") — the export was written with `--no-data`, and a conversion needs the content";

pub const NAMES_PARENT: &'static str = "a commit names parent ";

pub const PART_OF_A_HISTORY: &'static str = " by object ID — the export covers part of a history, and a conversion needs the whole of it";

pub const WHOLE_SUBTREE: &'static str = "` is a whole subtree — the export was written with `--full-tree`, and a conversion reads the ordinary form";

pub const SUBMODULE_AT: &'static str = "the submodule at `";

pub const NO_COMMIT_OF_ITS_OWN: &'static str = "` names no commit of its own repository";

/// What a refusal says to the person who ran the conversion: what is wrong
/// with the stream and, where a flag of `git fast-export` wrote it so, which.
pub open spec fn said(e: ErrorView) -> Seq<char> {
    match e {
        ErrorView::NoSuchBlob { mark, path } => seq!['`'] + path + NEVER_CARRIED@
            + crate::bytes::chars_of(crate::stream::write::decimal(mark.0 as nat))
            + NAMED_BEFORE_SET@,
        ErrorView::NoSuchCommit { mark } => NAMES_PARENT_MARK@ + crate::bytes::chars_of(
            crate::stream::write::decimal(mark.0 as nat),
        ) + NEVER_SET@,
        ErrorView::ContentNotCarried { oid, path } => seq!['`'] + path + BY_OBJECT_ID@ + oid
            + NO_DATA@,
        ErrorView::CommitNotCarried { oid } => NAMES_PARENT@ + oid + PART_OF_A_HISTORY@,
        ErrorView::WholeTree { path } => seq!['`'] + path + WHOLE_SUBTREE@,
        ErrorView::SubmoduleWithoutACommit { path } => SUBMODULE_AT@ + path + NO_COMMIT_OF_ITS_OWN@,
    }
}

impl Error {
    /// What went wrong, for a person to read: [`said`].
    pub fn to_string(&self) -> (message: String)
        ensures
            message@ == said(self@),
    {
        proof {
            reveal_strlit("`");
        }
        match self {
            Error::NoSuchBlob { mark, path } => {
                let count = crate::stream::write::decimal_text(mark.0);
                let mut message = String::from_str("`");
                message.append(path.as_str());
                message.append(NEVER_CARRIED);
                message.append(count.as_str());
                message.append(NAMED_BEFORE_SET);
                message
            },
            Error::NoSuchCommit { mark } => {
                let count = crate::stream::write::decimal_text(mark.0);
                let mut message = String::from_str(NAMES_PARENT_MARK);
                message.append(count.as_str());
                message.append(NEVER_SET);
                message
            },
            Error::ContentNotCarried { oid, path } => {
                let mut message = String::from_str("`");
                message.append(path.as_str());
                message.append(BY_OBJECT_ID);
                message.append(oid.as_str());
                message.append(NO_DATA);
                message
            },
            Error::CommitNotCarried { oid } => {
                let mut message = String::from_str(NAMES_PARENT);
                message.append(oid.as_str());
                message.append(PART_OF_A_HISTORY);
                message
            },
            Error::WholeTree { path } => {
                let mut message = String::from_str("`");
                message.append(path.as_str());
                message.append(WHOLE_SUBTREE);
                message
            },
            Error::SubmoduleWithoutACommit { path } => {
                let mut message = String::from_str(SUBMODULE_AT);
                message.append(path.as_str());
                message.append(NO_COMMIT_OF_ITS_OWN);
                message
            },
        }
    }
}

// ---------------------------------------------------------------------------
// The replay, as specification
// ---------------------------------------------------------------------------

/// What a replay remembers.
pub struct TreesView {
    /// Each blob's bytes, by its mark.
    pub blobs: Map<u64, Seq<u8>>,
    /// The tree each marked commit left, by its mark.
    pub marked: Map<u64, TreeMap>,
    /// Where each ref stands.
    pub references: Map<Seq<u8>, TreeMap>,
    /// Trees handed in for commits the stream only names, by object ID.
    pub seeded: Map<Seq<char>, TreeMap>,
}

/// The tree a commit left, by the name the stream gives it.
pub open spec fn tree_of(t: TreesView, named: DataRefView) -> Result<TreeMap, ErrorView> {
    match named {
        DataRefView::Mark(mark) => if t.marked.contains_key(mark.0) {
            Ok(t.marked[mark.0])
        } else {
            Err(ErrorView::NoSuchCommit { mark })
        },
        DataRefView::Oid(oid) => if t.seeded.contains_key(oid) {
            Ok(t.seeded[oid])
        } else {
            Err(ErrorView::CommitNotCarried { oid })
        },
    }
}

/// The tree a commit starts from: its `from`, or the ref it continues — no
/// `from` continues the ref, which is how fast-import reads a stream that
/// states a parent once and then keeps committing.
pub open spec fn parent_of(t: TreesView, commit: CommitView) -> Result<TreeMap, ErrorView> {
    match commit.from {
        Some(from) => tree_of(t, from),
        None => Ok(
            if t.references.contains_key(commit.reference) {
                t.references[commit.reference]
            } else {
                Map::empty()
            },
        ),
    }
}

/// The bytes content names.
pub open spec fn content_of(t: TreesView, content: ContentView, path: Seq<u8>) -> Result<
    Seq<u8>,
    ErrorView,
> {
    match content {
        ContentView::Inline(bytes) => Ok(bytes),
        ContentView::Named(DataRefView::Mark(mark)) => if t.blobs.contains_key(mark.0) {
            Ok(t.blobs[mark.0])
        } else {
            Err(ErrorView::NoSuchBlob { mark, path: lossy(path) })
        },
        ContentView::Named(DataRefView::Oid(oid)) => Err(
            ErrorView::ContentNotCarried { oid, path: lossy(path) },
        ),
    }
}

/// One change, applied to a tree.
pub open spec fn change_of(t: TreesView, tree: TreeMap, change: ChangeView) -> Result<
    TreeMap,
    ErrorView,
> {
    match change {
        ChangeView::Modify { mode, content, path } => match mode {
            Mode::Gitlink => match content {
                ContentView::Named(DataRefView::Oid(oid)) => Ok(
                    tree.insert(path, EntryView { mode, content: HeldView::Submodule(oid) }),
                ),
                _ => Err(ErrorView::SubmoduleWithoutACommit { path: lossy(path) }),
            },
            Mode::Directory => Err(ErrorView::WholeTree { path: lossy(path) }),
            _ => match content_of(t, content, path) {
                Ok(bytes) => Ok(tree.insert(path, EntryView { mode, content: HeldView::Bytes(bytes) })),
                Err(e) => Err(e),
            },
        },
        ChangeView::Delete { path } => Ok(deleted(tree, beneath(tree, path))),
        ChangeView::Rename { source, destination } => Ok(
            renamed(tree, beneath(tree, source), source, destination),
        ),
        ChangeView::Copy { source, destination } => Ok(
            copied(tree, beneath(tree, source), source, destination),
        ),
        ChangeView::DeleteAll => Ok(Map::empty()),
        ChangeView::Note { .. } => Ok(tree),
    }
}

/// A commit's changes, applied in turn, stopping at the first refusal.
pub open spec fn changes_of(t: TreesView, tree: TreeMap, changes: Seq<ChangeView>) -> Result<
    TreeMap,
    ErrorView,
>
    decreases changes.len(),
{
    if changes.len() == 0 {
        Ok(tree)
    } else {
        match changes_of(t, tree, changes.drop_last()) {
            Ok(earlier) => change_of(t, earlier, changes.last()),
            Err(e) => Err(e),
        }
    }
}

/// What the next command does to a replay: the tree a commit left, and what
/// the replay remembers after.
pub open spec fn apply_of(t: TreesView, command: CommandView) -> Result<
    (Option<TreeMap>, TreesView),
    ErrorView,
> {
    match command {
        CommandView::Blob(blob) => Ok(
            (
                None,
                match blob.mark {
                    Some(mark) => TreesView { blobs: t.blobs.insert(mark.0, blob.data), ..t },
                    None => t,
                },
            ),
        ),
        CommandView::Commit(commit) => match parent_of(t, commit) {
            Err(e) => Err(e),
            Ok(parent) => match changes_of(t, parent, commit.changes) {
                Err(e) => Err(e),
                Ok(tree) => Ok(
                    (
                        Some(tree),
                        TreesView {
                            marked: match commit.mark {
                                Some(mark) => t.marked.insert(mark.0, tree),
                                None => t.marked,
                            },
                            references: t.references.insert(commit.reference, tree),
                            ..t
                        },
                    ),
                ),
            },
        },
        CommandView::Reset(reset) => match reset.from {
            Some(from) => match tree_of(t, from) {
                Ok(tree) => Ok(
                    (None, TreesView { references: t.references.insert(reset.reference, tree), ..t }),
                ),
                Err(e) => Err(e),
            },
            None => Ok(
                (None, TreesView { references: t.references.remove(reset.reference), ..t }),
            ),
        },
        _ => Ok((None, t)),
    }
}


// ---------------------------------------------------------------------------
// The replay
// ---------------------------------------------------------------------------

/// Replays a stream into the tree at each commit.
pub struct Trees {
    /// Each blob's bytes, by its mark.
    blobs: Vec<(u64, Vec<u8>)>,
    /// Trees by the mark of the commit that left them.
    marked: Vec<(u64, Tree)>,
    /// Where each ref stands, so that a commit which states no `from` continues
    /// the branch it is committed to, as fast-import says it does.
    references: Vec<(Vec<u8>, Tree)>,
    /// Trees by the object ID of the commit that left them, for the commits an
    /// export named rather than carried. Nothing arrives here from the stream;
    /// a caller that can ask git seeds it.
    seeded: Vec<(String, Tree)>,
}

impl View for Trees {
    type V = TreesView;

    closed spec fn view(&self) -> TreesView {
        TreesView {
            blobs: as_map(by_mark(self.blobs@)),
            marked: as_map(by_mark(self.marked@)),
            references: as_map(by_bytes(self.references@)),
            seeded: as_map(by_text(self.seeded@)),
        }
    }
}

impl Trees {
    #[verifier::type_invariant]
    spec fn shelved_once(&self) -> bool {
        &&& unique(by_mark(self.blobs@))
        &&& unique(by_mark(self.marked@))
        &&& unique(by_bytes(self.references@))
        &&& unique(by_text(self.seeded@))
    }

    /// A replay that has seen nothing.
    pub fn new() -> (trees: Trees)
        ensures
            trees@.blobs == Map::<u64, Seq<u8>>::empty(),
            trees@.marked == Map::<u64, TreeMap>::empty(),
            trees@.references == Map::<Seq<u8>, TreeMap>::empty(),
            trees@.seeded == Map::<Seq<char>, TreeMap>::empty(),
    {
        let trees = Trees {
            blobs: Vec::new(),
            marked: Vec::new(),
            references: Vec::new(),
            seeded: Vec::new(),
        };
        proof {
            assert(as_map(by_mark(trees.blobs@)) =~= Map::<u64, Seq<u8>>::empty());
            assert(as_map(by_mark(trees.marked@)) =~= Map::<u64, TreeMap>::empty());
            assert(as_map(by_bytes(trees.references@)) =~= Map::<Seq<u8>, TreeMap>::empty());
            assert(as_map(by_text(trees.seeded@)) =~= Map::<Seq<char>, TreeMap>::empty());
        }
        trees
    }

    /// Tell the replay what a commit the stream only names left behind.
    ///
    /// `git fast-export --reference-excluded-parents` states a commit whose
    /// parent was excluded as a difference against that parent, named by
    /// object ID. The stream cannot carry that tree; whoever can ask git for
    /// it hands it in here before the commit that needs it arrives.
    pub fn seed(&mut self, oid: String, tree: Tree)
        ensures
            final(self)@ == (TreesView { seeded: old(self)@.seeded.insert(oid@, tree@), ..old(self)@ }),
    {
        proof {
            use_type_invariant(&*self);
        }
        let mut seeded: Vec<(String, Tree)> = Vec::new();
        std::mem::swap(&mut seeded, &mut self.seeded);
        put_text(&mut seeded, oid, tree);
        self.seeded = seeded;
    }

    /// Whether a commit the stream names by object ID has been seeded.
    pub fn is_seeded(&self, oid: &str) -> (seeded: bool)
        ensures
            seeded == self@.seeded.contains_key(oid@),
    {
        proof {
            use_type_invariant(self);
        }
        let key = oid.to_owned();
        match find_text(&self.seeded, &key) {
            Some(at) => {
                proof {
                    lemma_index(by_text(self.seeded@), at as int);
                }
                true
            },
            None => false,
        }
    }

    /// The tree a commit left, by the name the stream gives it.
    fn tree_of(&self, named: &DataRef) -> (r: Result<Tree, Error>)
        ensures
            match r {
                Ok(tree) => tree_of(self@, named@) == Ok::<TreeMap, ErrorView>(tree@),
                Err(e) => tree_of(self@, named@) == Err::<TreeMap, ErrorView>(e@),
            },
    {
        proof {
            use_type_invariant(self);
        }
        match named {
            DataRef::Mark(mark) => match find_mark(&self.marked, mark.0) {
                Some(at) => {
                    proof {
                        lemma_index(by_mark(self.marked@), at as int);
                    }
                    Ok(self.marked[at].1.duplicate())
                },
                None => Err(Error::NoSuchCommit { mark: *mark }),
            },
            DataRef::Oid(oid) => match find_text(&self.seeded, oid) {
                Some(at) => {
                    proof {
                        lemma_index(by_text(self.seeded@), at as int);
                    }
                    Ok(self.seeded[at].1.duplicate())
                },
                None => Err(Error::CommitNotCarried { oid: oid.clone() }),
            },
        }
    }

    /// The tree a commit starts from: its `from`, or the ref it continues.
    ///
    /// What a `R` or `D` in the commit is applied to, and so the tree a
    /// directory rename has to be expanded against. Ask *before* applying the
    /// commit: applying it moves the ref, and a commit that continues its ref
    /// would then be answered with its own tree.
    pub fn parent_of(&self, commit: &Commit) -> (r: Result<Tree, Error>)
        ensures
            match r {
                Ok(tree) => parent_of(self@, commit@) == Ok::<TreeMap, ErrorView>(tree@),
                Err(e) => parent_of(self@, commit@) == Err::<TreeMap, ErrorView>(e@),
            },
    {
        proof {
            use_type_invariant(self);
        }
        match &commit.from {
            Some(from) => self.tree_of(from),
            None => match find_bytes(&self.references, &commit.reference) {
                Some(at) => {
                    proof {
                        lemma_index(by_bytes(self.references@), at as int);
                    }
                    Ok(self.references[at].1.duplicate())
                },
                None => Ok(Tree::new()),
            },
        }
    }

    /// The bytes content names.
    fn content(&self, content: &Content, path: &[u8]) -> (r: Result<Vec<u8>, Error>)
        ensures
            match r {
                Ok(bytes) => content_of(self@, content@, path@) == Ok::<Seq<u8>, ErrorView>(bytes@),
                Err(e) => content_of(self@, content@, path@) == Err::<Seq<u8>, ErrorView>(e@),
            },
    {
        proof {
            use_type_invariant(self);
        }
        match content {
            Content::Inline(bytes) => Ok(copy(bytes)),
            Content::Named(DataRef::Mark(mark)) => match find_mark(&self.blobs, mark.0) {
                Some(at) => {
                    proof {
                        lemma_index(by_mark(self.blobs@), at as int);
                    }
                    Ok(copy(&self.blobs[at].1))
                },
                None => Err(Error::NoSuchBlob { mark: *mark, path: text_of(path) }),
            },
            Content::Named(DataRef::Oid(oid)) => Err(
                Error::ContentNotCarried { oid: oid.clone(), path: text_of(path) },
            ),
        }
    }

    /// One change, applied to `tree`.
    fn change(&self, tree: &mut Tree, change: &Change) -> (r: Result<(), Error>)
        ensures
            match r {
                Ok(()) => change_of(self@, old(tree)@, change@) == Ok::<TreeMap, ErrorView>(final(tree)@),
                Err(e) => change_of(self@, old(tree)@, change@) == Err::<TreeMap, ErrorView>(e@),
            },
    {
        match change {
            Change::Modify { mode, content, path } => {
                let held = match mode {
                    Mode::Gitlink => match content {
                        Content::Named(DataRef::Oid(oid)) => Held::Submodule(oid.clone()),
                        _ => {
                            return Err(Error::SubmoduleWithoutACommit { path: text_of(path) });
                        },
                    },
                    Mode::Directory => {
                        return Err(Error::WholeTree { path: text_of(path) });
                    },
                    _ => match self.content(content, path) {
                        Ok(bytes) => Held::Bytes(bytes),
                        Err(e) => return Err(e),
                    },
                };
                tree.insert(copy(path), Entry { mode: *mode, content: held });
                Ok(())
            },
            Change::Delete { path } => {
                tree.delete_beneath(path);
                Ok(())
            },
            Change::Rename { source, destination } => {
                tree.rename_beneath(source, destination);
                Ok(())
            },
            Change::Copy { source, destination } => {
                tree.copy_beneath(source, destination);
                Ok(())
            },
            Change::DeleteAll => {
                tree.clear();
                Ok(())
            },
            Change::Note { .. } => Ok(()),
        }
    }

    /// Hand the replay the next command.
    ///
    /// Returns the tree a commit left, and nothing for every other command —
    /// blobs and resets change what later commits mean without being a commit
    /// themselves. A command that is refused leaves the replay as it was.
    pub fn apply(&mut self, command: &Command) -> (r: Result<Option<Tree>, Error>)
        ensures
            match r {
                Ok(left) => apply_of(old(self)@, command@) == Ok::<(Option<TreeMap>, TreesView), ErrorView>(
                    (option_view(left), final(self)@),
                ),
                Err(e) => apply_of(old(self)@, command@) == Err::<(Option<TreeMap>, TreesView), ErrorView>(e@)
                    && final(self)@ == old(self)@,
            },
    {
        proof {
            use_type_invariant(&*self);
        }
        match command {
            Command::Blob(blob) => {
                self.blob(blob);
                Ok(None)
            },
            Command::Commit(commit) => match self.commit(commit) {
                Ok(tree) => Ok(Some(tree)),
                Err(e) => Err(e),
            },
            Command::Reset(reset) => match self.reset(reset) {
                Ok(()) => Ok(None),
                Err(e) => Err(e),
            },
            // A tag names a commit; it does not change one.
            _ => Ok(None),
        }
    }

    fn blob(&mut self, blob: &Blob)
        ensures
            apply_of(old(self)@, CommandView::Blob(blob@)) == Ok::<(Option<TreeMap>, TreesView), ErrorView>(
                (None, final(self)@),
            ),
    {
        proof {
            use_type_invariant(&*self);
        }
        // A blob with no mark can never be named again, so there is nothing to
        // remember about it.
        if let Some(mark) = blob.mark {
            let mut blobs: Vec<(u64, Vec<u8>)> = Vec::new();
            std::mem::swap(&mut blobs, &mut self.blobs);
            put_mark(&mut blobs, mark.0, copy(&blob.data));
            self.blobs = blobs;
        }
    }

    fn reset(&mut self, reset: &Reset) -> (r: Result<(), Error>)
        ensures
            match r {
                Ok(()) => apply_of(old(self)@, CommandView::Reset(reset@)) == Ok::<(Option<TreeMap>, TreesView), ErrorView>(
                    (None, final(self)@),
                ),
                Err(e) => apply_of(old(self)@, CommandView::Reset(reset@)) == Err::<(Option<TreeMap>, TreesView), ErrorView>(e@)
                    && final(self)@ == old(self)@,
            },
    {
        proof {
            use_type_invariant(&*self);
        }
        match &reset.from {
            Some(from) => {
                let tree = match self.tree_of(from) {
                    Ok(tree) => tree,
                    Err(e) => return Err(e),
                };
                let mut references: Vec<(Vec<u8>, Tree)> = Vec::new();
                std::mem::swap(&mut references, &mut self.references);
                put_bytes(&mut references, copy(&reset.reference), tree);
                self.references = references;
            },
            None => {
                let mut references: Vec<(Vec<u8>, Tree)> = Vec::new();
                std::mem::swap(&mut references, &mut self.references);
                drop_bytes(&mut references, &reset.reference);
                self.references = references;
            },
        }
        Ok(())
    }

    fn commit(&mut self, commit: &Commit) -> (r: Result<Tree, Error>)
        ensures
            match r {
                Ok(tree) => apply_of(old(self)@, CommandView::Commit(commit@)) == Ok::<(Option<TreeMap>, TreesView), ErrorView>(
                    (Some(tree@), final(self)@),
                ),
                Err(e) => apply_of(old(self)@, CommandView::Commit(commit@)) == Err::<(Option<TreeMap>, TreesView), ErrorView>(e@)
                    && final(self)@ == old(self)@,
            },
    {
        proof {
            use_type_invariant(&*self);
        }
        let mut tree = match self.parent_of(commit) {
            Ok(tree) => tree,
            Err(e) => return Err(e),
        };
        let ghost parent = tree@;
        let ghost listed = commit@.changes;
        let mut at: usize = 0;
        while at < commit.changes.len()
            invariant
                at <= commit.changes@.len(),
                self@ == old(self)@,
                parent_of(self@, commit@) == Ok::<TreeMap, ErrorView>(parent),
                listed == commit.changes@.map_values(|c: Change| c@),
                changes_of(self@, parent, listed.subrange(0, at as int)) == Ok::<TreeMap, ErrorView>(tree@),
            decreases commit.changes@.len() - at,
        {
            proof {
                assert(listed.subrange(0, at + 1).drop_last() == listed.subrange(0, at as int));
                assert(listed.subrange(0, at + 1).last() == commit.changes@[at as int]@);
            }
            let ghost before = tree@;
            match self.change(&mut tree, &commit.changes[at]) {
                Ok(()) => {},
                Err(e) => {
                    proof {
                        assert(changes_of(self@, parent, listed.subrange(0, at as int)) == Ok::<TreeMap, ErrorView>(before));
                        assert(changes_of(self@, parent, listed.subrange(0, at + 1)) == Err::<TreeMap, ErrorView>(e@));
                        lemma_changes_stop(self@, parent, listed, at + 1);
                        assert(listed == commit@.changes);
                    }
                    return Err(e);
                },
            }
            at = at + 1;
        }
        proof {
            assert(listed.subrange(0, commit.changes@.len() as int) == listed);
        }
        let kept = tree.duplicate();
        if let Some(mark) = commit.mark {
            let mut marked: Vec<(u64, Tree)> = Vec::new();
            std::mem::swap(&mut marked, &mut self.marked);
            put_mark(&mut marked, mark.0, tree.duplicate());
            self.marked = marked;
        }
        let mut references: Vec<(Vec<u8>, Tree)> = Vec::new();
        std::mem::swap(&mut references, &mut self.references);
        put_bytes(&mut references, copy(&commit.reference), tree);
        self.references = references;
        Ok(kept)
    }
}

/// A refusal part way through a commit's changes is the refusal of them all.
pub proof fn lemma_changes_stop(t: TreesView, tree: TreeMap, changes: Seq<ChangeView>, n: int)
    requires
        0 <= n <= changes.len(),
        changes_of(t, tree, changes.subrange(0, n)) is Err,
    ensures
        changes_of(t, tree, changes) == changes_of(t, tree, changes.subrange(0, n)),
    decreases changes.len() - n,
{
    if n < changes.len() {
        assert(changes.subrange(0, n + 1).drop_last() == changes.subrange(0, n));
        lemma_changes_stop(t, tree, changes, n + 1);
    } else {
        assert(changes.subrange(0, n) == changes);
    }
}


// ---------------------------------------------------------------------------
// What a replay promises
// ---------------------------------------------------------------------------

proof fn lemma_deleted(tree: TreeMap, paths: Seq<Seq<u8>>)
    ensures
        deleted(tree, paths) == tree.remove_keys(paths.to_set()),
    decreases paths.len(),
{
    if paths.len() > 0 {
        lemma_deleted(tree, paths.drop_last());
        assert(paths.to_set() =~= paths.drop_last().to_set().insert(paths.last())) by {
            assert forall|p: Seq<u8>| paths.to_set().contains(p) implies paths.drop_last().to_set().insert(paths.last()).contains(p) by {
                let i = choose|i: int| 0 <= i < paths.len() && paths[i] == p;
                if i < paths.len() - 1 {
                    assert(paths.drop_last()[i] == p);
                }
            }
            assert forall|p: Seq<u8>| paths.drop_last().to_set().contains(p) implies paths.to_set().contains(p) by {
                let i = choose|i: int| 0 <= i < paths.drop_last().len() && paths.drop_last()[i] == p;
                assert(paths[i] == p);
            }
            assert(paths[paths.len() - 1] == paths.last());
        }
        assert(deleted(tree, paths) =~= tree.remove_keys(paths.to_set()));
    } else {
        assert(deleted(tree, paths) =~= tree.remove_keys(paths.to_set()));
    }
}

proof fn lemma_beneath_of_set(paths: Seq<Seq<u8>>, prefix: Seq<u8>)
    ensures
        forall|p: Seq<u8>| #[trigger] beneath_of(paths, prefix).to_set().contains(p) <==> paths.to_set().contains(p)
            && at_or_beneath(p, prefix),
    decreases paths.len(),
{
    if paths.len() > 0 {
        let rest = paths.drop_last();
        lemma_beneath_of_set(rest, prefix);
        assert forall|p: Seq<u8>| #[trigger] beneath_of(paths, prefix).to_set().contains(p) <==> paths.to_set().contains(p)
            && at_or_beneath(p, prefix) by {
            let b = beneath_of(paths, prefix);
            let r = beneath_of(rest, prefix);
            if b.to_set().contains(p) {
                let i = choose|i: int| 0 <= i < b.len() && b[i] == p;
                if i < r.len() {
                    assert(r[i] == p);
                    assert(r.to_set().contains(p));
                    let j = choose|j: int| 0 <= j < rest.len() && rest[j] == p;
                    assert(paths[j] == p);
                } else {
                    assert(paths[paths.len() - 1] == p);
                }
            }
            if paths.to_set().contains(p) && at_or_beneath(p, prefix) {
                let i = choose|i: int| 0 <= i < paths.len() && paths[i] == p;
                if i < paths.len() - 1 {
                    assert(rest[i] == p);
                    assert(rest.to_set().contains(p));
                    assert(beneath_of(rest, prefix).to_set().contains(p));
                    let j = choose|j: int| 0 <= j < r.len() && r[j] == p;
                    assert(b[j] == p);
                } else {
                    assert(b[b.len() - 1] == p);
                }
            }
        }
    }
}

/// A path moved from beneath `from` to beneath `to` is no longer beneath
/// `from`, where neither of the two is beneath the other.
proof fn lemma_moved_out(q: Seq<u8>, from: Seq<u8>, to: Seq<u8>)
    requires
        at_or_beneath(q, from),
        !at_or_beneath(to, from),
        !at_or_beneath(from, to),
    ensures
        !at_or_beneath(rebase(q, from, to), from),
{
    let x = rebase(q, from, to);
    let suffix = q.subrange(from.len() as int, q.len() as int);
    assert(x == to + suffix);
    if q == from {
        assert(suffix =~= Seq::<u8>::empty());
    } else {
        assert(suffix[0] == q[from.len() as int]);
    }
    if at_or_beneath(x, from) {
        if from.len() == to.len() {
            assert(from =~= to) by {
                assert forall|i: int| 0 <= i < from.len() implies from[i] == to[i] by {
                    assert(x[i] == to[i]);
                    if x != from {
                        assert(x.subrange(0, from.len() as int)[i] == x[i]);
                    }
                }
            }
        } else if from.len() < to.len() {
            assert(x != from);
            assert(to.subrange(0, from.len() as int) =~= from) by {
                assert forall|i: int| 0 <= i < from.len() implies to.subrange(0, from.len() as int)[i]
                    == from[i] by {
                    assert(x[i] == to[i]);
                    assert(x.subrange(0, from.len() as int)[i] == x[i]);
                }
            }
            assert(to[from.len() as int] == x[from.len() as int]);
            assert(at_or_beneath(to, from));
        } else {
            assert(x != to) by {
                if x == to {
                    assert(x.len() == to.len());
                }
            }
            assert(suffix.len() > 0);
            assert(from.subrange(0, to.len() as int) =~= to) by {
                assert forall|i: int| 0 <= i < to.len() implies from.subrange(0, to.len() as int)[i]
                    == to[i] by {
                    assert(x[i] == to[i]);
                    if x != from {
                        assert(x.subrange(0, from.len() as int)[i] == x[i]);
                    }
                }
            }
            assert(from[to.len() as int] == x[to.len() as int]) by {
                if x != from {
                    assert(x.subrange(0, from.len() as int)[to.len() as int] == x[to.len() as int]);
                }
            }
            assert(at_or_beneath(from, to));
        }
    }
}

/// Two paths beneath `from` that move to one place were one path.
proof fn lemma_moved_apart(a: Seq<u8>, b: Seq<u8>, from: Seq<u8>, to: Seq<u8>)
    requires
        at_or_beneath(a, from),
        at_or_beneath(b, from),
        rebase(a, from, to) == rebase(b, from, to),
    ensures
        a == b,
{
    let sa = a.subrange(from.len() as int, a.len() as int);
    let sb = b.subrange(from.len() as int, b.len() as int);
    assert(sa =~= rebase(a, from, to).subrange(to.len() as int, rebase(a, from, to).len() as int));
    assert(sb =~= rebase(b, from, to).subrange(to.len() as int, rebase(b, from, to).len() as int));
    assert(a.subrange(0, from.len() as int) =~= from);
    assert(b.subrange(0, from.len() as int) =~= from);
    assert(a =~= a.subrange(0, from.len() as int) + sa);
    assert(b =~= b.subrange(0, from.len() as int) + sb);
}

/// Where some path of `paths` moved to `p`.
pub open spec fn moved_onto(paths: Seq<Seq<u8>>, from: Seq<u8>, to: Seq<u8>, p: Seq<u8>) -> bool {
    exists|i: int| 0 <= i < paths.len() && rebase(#[trigger] paths[i], from, to) == p
}

/// Renaming paths that stand beneath `from`, each once, moves each to where
/// it stands beneath `to` with what it held, and leaves every other path as
/// it was.
proof fn lemma_renamed(tree: TreeMap, paths: Seq<Seq<u8>>, from: Seq<u8>, to: Seq<u8>)
    requires
        forall|i: int| 0 <= i < paths.len() ==> tree.contains_key(#[trigger] paths[i]),
        forall|i: int| 0 <= i < paths.len() ==> at_or_beneath(#[trigger] paths[i], from),
        forall|i: int, j: int| 0 <= i < j < paths.len() ==> #[trigger] paths[i] != #[trigger] paths[j],
        !at_or_beneath(to, from),
        !at_or_beneath(from, to),
    ensures
        forall|p: Seq<u8>| #[trigger] renamed(tree, paths, from, to).contains_key(p) <==> (tree.contains_key(p)
            && !paths.contains(p)) || moved_onto(paths, from, to, p),
        forall|i: int| 0 <= i < paths.len() ==> renamed(tree, paths, from, to)[rebase(#[trigger] paths[i], from, to)]
            == tree[paths[i]],
        forall|p: Seq<u8>| tree.contains_key(p) && !paths.contains(p) && !moved_onto(paths, from, to, p)
            ==> #[trigger] renamed(tree, paths, from, to)[p] == tree[p],
    decreases paths.len(),
{
    if paths.len() > 0 {
        let ps = paths.drop_last();
        let path = paths.last();
        let n = paths.len() - 1;
        assert(paths[n] == path);
        assert forall|i: int, j: int| 0 <= i < j < ps.len() implies #[trigger] ps[i] != #[trigger] ps[j] by {
            assert(ps[i] == paths[i] && ps[j] == paths[j]);
        }
        assert forall|i: int| 0 <= i < ps.len() implies tree.contains_key(#[trigger] ps[i]) && at_or_beneath(ps[i], from) by {
            assert(ps[i] == paths[i]);
        }
        lemma_renamed(tree, ps, from, to);
        let earlier = renamed(tree, ps, from, to);
        let moved = rebase(path, from, to);
        lemma_moved_out(path, from, to);
        assert(!ps.contains(path)) by {
            if ps.contains(path) {
                let i = choose|i: int| 0 <= i < ps.len() && ps[i] == path;
                assert(paths[i] == paths[n]);
            }
        }
        assert(!moved_onto(ps, from, to, path)) by {
            if moved_onto(ps, from, to, path) {
                let i = choose|i: int| 0 <= i < ps.len() && rebase(#[trigger] ps[i], from, to) == path;
                assert(at_or_beneath(ps[i], from));
                lemma_moved_out(ps[i], from, to);
            }
        }
        assert(earlier.contains_key(path) && earlier[path] == tree[path]);
        let r = renamed(tree, paths, from, to);
        assert(r == earlier.remove(path).insert(moved, earlier[path]));
        assert forall|p: Seq<u8>| #[trigger] r.contains_key(p) <==> (tree.contains_key(p)
            && !paths.contains(p)) || moved_onto(paths, from, to, p) by {
            if moved_onto(ps, from, to, p) {
                let i = choose|i: int| 0 <= i < ps.len() && rebase(#[trigger] ps[i], from, to) == p;
                assert(paths[i] == ps[i]);
                assert(at_or_beneath(ps[i], from));
                lemma_moved_out(ps[i], from, to);
                assert(p != path);
            }
            if moved_onto(paths, from, to, p) {
                let i = choose|i: int| 0 <= i < paths.len() && rebase(#[trigger] paths[i], from, to) == p;
                if i < n {
                    assert(ps[i] == paths[i]);
                    assert(moved_onto(ps, from, to, p));
                }
            }
            if paths.contains(p) {
                let i = choose|i: int| 0 <= i < paths.len() && paths[i] == p;
                if i < n {
                    assert(ps[i] == p);
                }
            }
            if ps.contains(p) {
                let i = choose|i: int| 0 <= i < ps.len() && ps[i] == p;
                assert(paths[i] == p);
            }
            if p == moved {
                assert(rebase(paths[n], from, to) == p);
            }
        }
        assert forall|i: int| 0 <= i < paths.len() implies r[rebase(#[trigger] paths[i], from, to)] == tree[paths[i]] by {
            if i < n {
                assert(ps[i] == paths[i]);
                let target = rebase(paths[i], from, to);
                assert(target != moved) by {
                    if target == moved {
                        lemma_moved_apart(paths[i], path, from, to);
                    }
                }
                lemma_moved_out(paths[i], from, to);
                assert(target != path);
                assert(earlier[rebase(ps[i], from, to)] == tree[ps[i]]);
            }
        }
        assert forall|p: Seq<u8>| tree.contains_key(p) && !paths.contains(p) && !moved_onto(paths, from, to, p)
            implies #[trigger] r[p] == tree[p] by {
            assert(p != path);
            assert(p != moved) by {
                if p == moved {
                    assert(rebase(paths[n], from, to) == p);
                }
            }
            assert(!ps.contains(p)) by {
                if ps.contains(p) {
                    let i = choose|i: int| 0 <= i < ps.len() && ps[i] == p;
                    assert(paths[i] == p);
                }
            }
            assert(!moved_onto(ps, from, to, p)) by {
                if moved_onto(ps, from, to, p) {
                    let i = choose|i: int| 0 <= i < ps.len() && rebase(#[trigger] ps[i], from, to) == p;
                    assert(paths[i] == ps[i]);
                }
            }
        }
    }
}

/// Where some path of the tree beneath `from` moves to `p`.
pub open spec fn came_from(tree: TreeMap, from: Seq<u8>, to: Seq<u8>, p: Seq<u8>) -> bool {
    exists|q: Seq<u8>| tree.contains_key(q) && at_or_beneath(q, from) && #[trigger] rebase(q, from, to) == p
}

/// Renaming a directory moves what is under it: an `R` naming a path moves
/// that path and every path beneath it to where it stands beneath the
/// destination, with what it held, and leaves every other path holding what
/// it held — for a source and a destination neither of which is beneath the
/// other.
pub proof fn renaming_a_directory_moves_what_is_under_it(
    tree: TreeMap,
    paths: Seq<Seq<u8>>,
    from: Seq<u8>,
    to: Seq<u8>,
)
    requires
        ascending(paths),
        paths.to_set() == tree.dom(),
        !at_or_beneath(to, from),
        !at_or_beneath(from, to),
    ensures
        ({
            let moved = renamed(tree, beneath(tree, from), from, to);
            &&& forall|p: Seq<u8>| #[trigger] moved.contains_key(p) <==> (tree.contains_key(p)
                && !at_or_beneath(p, from)) || came_from(tree, from, to, p)
            &&& forall|q: Seq<u8>| tree.contains_key(q) && at_or_beneath(q, from) ==> moved[#[trigger] rebase(
                q,
                from,
                to,
            )] == tree[q]
            &&& forall|p: Seq<u8>| tree.contains_key(p) && !at_or_beneath(p, from) && !came_from(
                tree,
                from,
                to,
                p,
            ) ==> #[trigger] moved[p] == tree[p]
        }),
{
    let chosen = sorted_paths(tree);
    assert(ascending(chosen) && chosen.to_set() == tree.dom());
    lemma_ascending_same(paths, chosen);
    let listed = beneath(tree, from);
    lemma_beneath_of(paths, from);
    lemma_beneath_of_set(paths, from);
    lemma_ascending_unique(listed);
    assert forall|i: int| 0 <= i < listed.len() implies tree.contains_key(#[trigger] listed[i]) by {
        assert(paths.contains(listed[i]));
        assert(paths.to_set().contains(listed[i]));
    }
    lemma_renamed(tree, listed, from, to);
    let moved = renamed(tree, listed, from, to);
    assert forall|p: Seq<u8>| #[trigger] listed.contains(p) <==> tree.contains_key(p) && at_or_beneath(p, from) by {
        assert(listed.contains(p) <==> listed.to_set().contains(p));
        assert(paths.to_set().contains(p) <==> tree.dom().contains(p));
    }
    assert forall|p: Seq<u8>| moved_onto(listed, from, to, p) <==> came_from(tree, from, to, p) by {
        if moved_onto(listed, from, to, p) {
            let i = choose|i: int| 0 <= i < listed.len() && rebase(#[trigger] listed[i], from, to) == p;
            assert(listed.contains(listed[i]));
            assert(tree.contains_key(listed[i]) && at_or_beneath(listed[i], from));
        }
        if came_from(tree, from, to, p) {
            let q = choose|q: Seq<u8>| tree.contains_key(q) && at_or_beneath(q, from) && #[trigger] rebase(q, from, to) == p;
            assert(listed.contains(q));
            let i = choose|i: int| 0 <= i < listed.len() && listed[i] == q;
            assert(rebase(listed[i], from, to) == p);
        }
    }
    assert forall|q: Seq<u8>| tree.contains_key(q) && at_or_beneath(q, from) implies moved[#[trigger] rebase(
        q,
        from,
        to,
    )] == tree[q] by {
        assert(listed.contains(q));
        let i = choose|i: int| 0 <= i < listed.len() && listed[i] == q;
        assert(moved[rebase(listed[i], from, to)] == tree[listed[i]]);
    }
}

/// Copying paths that stand beneath `from` puts a copy of each where it
/// stands beneath `to`, and leaves every other path as it was.
proof fn lemma_copied(tree: TreeMap, paths: Seq<Seq<u8>>, from: Seq<u8>, to: Seq<u8>)
    requires
        forall|i: int| 0 <= i < paths.len() ==> tree.contains_key(#[trigger] paths[i]),
        forall|i: int| 0 <= i < paths.len() ==> at_or_beneath(#[trigger] paths[i], from),
        forall|i: int, j: int| 0 <= i < j < paths.len() ==> #[trigger] paths[i] != #[trigger] paths[j],
        !at_or_beneath(to, from),
        !at_or_beneath(from, to),
    ensures
        forall|p: Seq<u8>| #[trigger] copied(tree, paths, from, to).contains_key(p) <==> tree.contains_key(p)
            || moved_onto(paths, from, to, p),
        forall|i: int| 0 <= i < paths.len() ==> copied(tree, paths, from, to)[rebase(#[trigger] paths[i], from, to)]
            == tree[paths[i]],
        forall|p: Seq<u8>| tree.contains_key(p) && !moved_onto(paths, from, to, p)
            ==> #[trigger] copied(tree, paths, from, to)[p] == tree[p],
    decreases paths.len(),
{
    if paths.len() > 0 {
        let ps = paths.drop_last();
        let path = paths.last();
        let n = paths.len() - 1;
        assert(paths[n] == path);
        assert forall|i: int, j: int| 0 <= i < j < ps.len() implies #[trigger] ps[i] != #[trigger] ps[j] by {
            assert(ps[i] == paths[i] && ps[j] == paths[j]);
        }
        assert forall|i: int| 0 <= i < ps.len() implies tree.contains_key(#[trigger] ps[i]) && at_or_beneath(ps[i], from) by {
            assert(ps[i] == paths[i]);
        }
        lemma_copied(tree, ps, from, to);
        let earlier = copied(tree, ps, from, to);
        let moved = rebase(path, from, to);
        lemma_moved_out(path, from, to);
        assert(!moved_onto(ps, from, to, path)) by {
            if moved_onto(ps, from, to, path) {
                let i = choose|i: int| 0 <= i < ps.len() && rebase(#[trigger] ps[i], from, to) == path;
                assert(at_or_beneath(ps[i], from));
                lemma_moved_out(ps[i], from, to);
            }
        }
        assert(earlier.contains_key(path) && earlier[path] == tree[path]);
        let r = copied(tree, paths, from, to);
        assert(r == earlier.insert(moved, earlier[path]));
        assert forall|p: Seq<u8>| #[trigger] r.contains_key(p) <==> tree.contains_key(p) || moved_onto(
            paths,
            from,
            to,
            p,
        ) by {
            if moved_onto(ps, from, to, p) {
                let i = choose|i: int| 0 <= i < ps.len() && rebase(#[trigger] ps[i], from, to) == p;
                assert(paths[i] == ps[i]);
            }
            if moved_onto(paths, from, to, p) {
                let i = choose|i: int| 0 <= i < paths.len() && rebase(#[trigger] paths[i], from, to) == p;
                if i < n {
                    assert(ps[i] == paths[i]);
                    assert(moved_onto(ps, from, to, p));
                }
            }
            if p == moved {
                assert(rebase(paths[n], from, to) == p);
            }
        }
        assert forall|i: int| 0 <= i < paths.len() implies r[rebase(#[trigger] paths[i], from, to)] == tree[paths[i]] by {
            if i < n {
                assert(ps[i] == paths[i]);
                let target = rebase(paths[i], from, to);
                assert(target != moved) by {
                    if target == moved {
                        lemma_moved_apart(paths[i], path, from, to);
                    }
                }
                assert(earlier[rebase(ps[i], from, to)] == tree[ps[i]]);
            }
        }
        assert forall|p: Seq<u8>| tree.contains_key(p) && !moved_onto(paths, from, to, p) implies #[trigger] r[p]
            == tree[p] by {
            assert(p != moved) by {
                if p == moved {
                    assert(rebase(paths[n], from, to) == p);
                }
            }
            assert(!moved_onto(ps, from, to, p)) by {
                if moved_onto(ps, from, to, p) {
                    let i = choose|i: int| 0 <= i < ps.len() && rebase(#[trigger] ps[i], from, to) == p;
                    assert(paths[i] == ps[i]);
                }
            }
        }
    }
}

/// Copying a directory copies what is under it: a `C` naming a path puts a
/// copy of that path and of every path beneath it where it stands beneath
/// the destination, with what it held, and leaves every other path —
/// the source among them — holding what it held; for a source and a
/// destination neither of which is beneath the other.
pub proof fn copying_a_directory_copies_what_is_under_it(
    tree: TreeMap,
    paths: Seq<Seq<u8>>,
    from: Seq<u8>,
    to: Seq<u8>,
)
    requires
        ascending(paths),
        paths.to_set() == tree.dom(),
        !at_or_beneath(to, from),
        !at_or_beneath(from, to),
    ensures
        ({
            let copy = copied(tree, beneath(tree, from), from, to);
            &&& forall|p: Seq<u8>| #[trigger] copy.contains_key(p) <==> tree.contains_key(p) || came_from(
                tree,
                from,
                to,
                p,
            )
            &&& forall|q: Seq<u8>| tree.contains_key(q) && at_or_beneath(q, from) ==> copy[#[trigger] rebase(
                q,
                from,
                to,
            )] == tree[q]
            &&& forall|p: Seq<u8>| tree.contains_key(p) && !came_from(tree, from, to, p)
                ==> #[trigger] copy[p] == tree[p]
        }),
{
    let chosen = sorted_paths(tree);
    assert(ascending(chosen) && chosen.to_set() == tree.dom());
    lemma_ascending_same(paths, chosen);
    let listed = beneath(tree, from);
    lemma_beneath_of(paths, from);
    lemma_beneath_of_set(paths, from);
    lemma_ascending_unique(listed);
    assert forall|i: int| 0 <= i < listed.len() implies tree.contains_key(#[trigger] listed[i]) by {
        assert(paths.contains(listed[i]));
        assert(paths.to_set().contains(listed[i]));
    }
    lemma_copied(tree, listed, from, to);
    let copy = copied(tree, listed, from, to);
    assert forall|p: Seq<u8>| #[trigger] listed.contains(p) <==> tree.contains_key(p) && at_or_beneath(p, from) by {
        assert(listed.contains(p) <==> listed.to_set().contains(p));
        assert(paths.to_set().contains(p) <==> tree.dom().contains(p));
    }
    assert forall|p: Seq<u8>| moved_onto(listed, from, to, p) <==> came_from(tree, from, to, p) by {
        if moved_onto(listed, from, to, p) {
            let i = choose|i: int| 0 <= i < listed.len() && rebase(#[trigger] listed[i], from, to) == p;
            assert(listed.contains(listed[i]));
            assert(tree.contains_key(listed[i]) && at_or_beneath(listed[i], from));
        }
        if came_from(tree, from, to, p) {
            let q = choose|q: Seq<u8>| tree.contains_key(q) && at_or_beneath(q, from) && #[trigger] rebase(q, from, to) == p;
            assert(listed.contains(q));
            let i = choose|i: int| 0 <= i < listed.len() && listed[i] == q;
            assert(rebase(listed[i], from, to) == p);
        }
    }
    assert forall|q: Seq<u8>| tree.contains_key(q) && at_or_beneath(q, from) implies copy[#[trigger] rebase(
        q,
        from,
        to,
    )] == tree[q] by {
        assert(listed.contains(q));
        let i = choose|i: int| 0 <= i < listed.len() && listed[i] == q;
        assert(copy[rebase(listed[i], from, to)] == tree[listed[i]]);
    }
}

/// Deleting a directory deletes what is under it: a `D` naming a path takes
/// away that path and every path beneath it, and leaves every other path
/// holding what it held.
pub proof fn deleting_a_directory_deletes_what_is_under_it(
    tree: TreeMap,
    paths: Seq<Seq<u8>>,
    prefix: Seq<u8>,
)
    requires
        ascending(paths),
        paths.to_set() == tree.dom(),
    ensures
        forall|p: Seq<u8>| #[trigger] deleted(tree, beneath(tree, prefix)).contains_key(p) <==> tree.contains_key(p)
            && !at_or_beneath(p, prefix),
        forall|p: Seq<u8>| #[trigger] deleted(tree, beneath(tree, prefix)).contains_key(p) ==> deleted(
            tree,
            beneath(tree, prefix),
        )[p] == tree[p],
{
    let chosen = sorted_paths(tree);
    assert(ascending(chosen) && chosen.to_set() == tree.dom());
    lemma_ascending_same(paths, chosen);
    lemma_deleted(tree, beneath(tree, prefix));
    lemma_beneath_of_set(paths, prefix);
}

/// A commit that states no parent continues its branch: it starts from the
/// tree the last commit to that ref left.
pub proof fn a_commit_with_no_parent_stated_continues_its_branch(
    t: TreesView,
    first: CommitView,
    next: CommitView,
)
    requires
        apply_of(t, CommandView::Commit(first)) is Ok,
        next.from is None,
        next.reference == first.reference,
    ensures
        ({
            let (left, after) = apply_of(t, CommandView::Commit(first))->Ok_0;
            left is Some && parent_of(after, next) == Ok::<TreeMap, ErrorView>(left->Some_0)
        }),
{
}


/// A file put at a path keeps the mode its line states: after a `M` line the
/// replay takes, the path holds an entry of exactly that mode — a link stays
/// a link, an executable stays executable — and every other path holds what
/// it held.
pub proof fn a_file_put_at_a_path_keeps_the_mode_it_was_given(
    t: TreesView,
    tree: TreeMap,
    mode: crate::stream::Mode,
    content: ContentView,
    path: Seq<u8>,
)
    requires
        change_of(t, tree, ChangeView::Modify { mode, content, path }) is Ok,
    ensures
        ({
            let after = change_of(t, tree, ChangeView::Modify { mode, content, path })->Ok_0;
            &&& after.contains_key(path)
            &&& after[path].mode == mode
            &&& mode != crate::stream::Mode::Directory
            &&& forall|q: Seq<u8>| q != path ==> (#[trigger] after.contains_key(q) <==> tree.contains_key(q))
            &&& forall|q: Seq<u8>| q != path && #[trigger] after.contains_key(q) ==> after[q] == tree[q]
        }),
{
}

} // verus!
