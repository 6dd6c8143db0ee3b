//! The files of one revision, as a commit's changes: `deleteall`, then one
//! `M` line per file in path order, each content sent as a blob once.

use vstd::prelude::*;

use crate::bytes::copy;
use crate::stream::text::same;
use crate::stream::{Blob, BlobView, Change, ChangeView, Content, ContentView, DataRef, DataRefView, Mark};
use crate::table::{as_map, holds, keys, lemma_absent, lemma_index, lemma_insert, unique};
use crate::tree::{pairs, sorted_paths, EntryView, Held, HeldView, Tree, TreeMap};

verus! {

/// What `historica::format::digest` makes of some bytes: their SHA-256, the
/// name the store files that content under.
pub uninterp spec fn content_digest_of(data: Seq<u8>) -> Seq<u8>;

/// Calls `historica::format::digest` and takes the digest's bytes. The
/// contract names the result [`content_digest_of`], a function of the bytes
/// alone.
#[verifier::external_body]
pub(crate) fn content_digest(data: &[u8]) -> (digest: Vec<u8>)
    ensures
        digest@ == content_digest_of(data@),
{
    historica::format::digest(data).as_bytes().to_vec()
}

/// The contents already sent, as digests and the marks they went under.
pub open spec fn sent_view(seen: Seq<(Vec<u8>, u64)>) -> Seq<(Seq<u8>, u64)> {
    seen.map_values(|pair: (Vec<u8>, u64)| (pair.0@, pair.1))
}

/// The bytes an entry holds.
pub open spec fn held_bytes(entry: EntryView) -> Seq<u8> {
    match entry.content {
        HeldView::Bytes(bytes) => bytes,
        HeldView::Submodule(_) => Seq::empty(),
    }
}

/// Every entry of the tree holds bytes.
pub open spec fn all_bytes(tree: TreeMap) -> bool {
    forall|p: Seq<u8>| #[trigger] tree.contains_key(p) ==> tree[p].content is Bytes
}

/// The files at `paths`, in turn: the blobs to send, the mark each file's
/// content goes under, and what has been sent and the last mark used after
/// them. A content whose digest was sent already goes under that mark; any
/// other goes under the next mark and is sent.
pub open spec fn files_plan(
    paths: Seq<Seq<u8>>,
    tree: TreeMap,
    seen: Seq<(Seq<u8>, u64)>,
    next: u64,
) -> (Seq<(u64, Seq<u8>)>, Seq<u64>, Seq<(Seq<u8>, u64)>, u64)
    decreases paths.len(),
{
    if paths.len() == 0 {
        (Seq::empty(), Seq::empty(), seen, next)
    } else {
        let (blobs, marks, now, at) = files_plan(paths.drop_last(), tree, seen, next);
        let bytes = held_bytes(tree[paths.last()]);
        let digest = content_digest_of(bytes);
        if as_map(now).contains_key(digest) {
            (blobs, marks.push(as_map(now)[digest]), now, at)
        } else {
            let mark = (at + 1) as u64;
            (blobs.push((mark, bytes)), marks.push(mark), now.push((digest, mark)), mark)
        }
    }
}

/// A blob to send, as a contract speaks of it.
pub open spec fn blob_of(sent: (u64, Seq<u8>)) -> BlobView {
    BlobView { mark: Some(Mark(sent.0)), original_oid: None, data: sent.1 }
}

/// The `M` line for the file at `paths[i]`, naming mark `marks[i]`.
pub open spec fn file_lines(paths: Seq<Seq<u8>>, tree: TreeMap, marks: Seq<u64>) -> Seq<ChangeView> {
    Seq::new(
        paths.len(),
        |i: int|
            ChangeView::Modify {
                mode: tree[paths[i]].mode,
                content: ContentView::Named(DataRefView::Mark(Mark(marks[i]))),
                path: paths[i],
            },
    )
}

proof fn lemma_plan_bounds(paths: Seq<Seq<u8>>, tree: TreeMap, seen: Seq<(Seq<u8>, u64)>, next: u64)
    requires
        next + paths.len() <= u64::MAX,
    ensures
        files_plan(paths, tree, seen, next).3 <= next + paths.len(),
        files_plan(paths, tree, seen, next).1.len() == paths.len(),
    decreases paths.len(),
{
    if paths.len() > 0 {
        lemma_plan_bounds(paths.drop_last(), tree, seen, next);
    }
}

/// The mark a digest was sent under, if it was.
fn sent_under(seen: &Vec<(Vec<u8>, u64)>, digest: &Vec<u8>) -> (found: Option<u64>)
    requires
        unique(sent_view(seen@)),
    ensures
        match found {
            Some(mark) => as_map(sent_view(seen@)).contains_key(digest@) && as_map(sent_view(seen@))[digest@]
                == mark,
            None => !as_map(sent_view(seen@)).contains_key(digest@),
        },
{
    let mut at: usize = 0;
    while at < seen.len()
        invariant
            at <= seen@.len(),
            unique(sent_view(seen@)),
            forall|i: int| 0 <= i < at ==> #[trigger] sent_view(seen@)[i].0 != digest@,
        decreases seen@.len() - at,
    {
        if same(seen[at].0.as_slice(), digest.as_slice()) {
            proof {
                lemma_index(sent_view(seen@), at as int);
            }
            return Some(seen[at].1);
        }
        at = at + 1;
    }
    proof {
        lemma_absent(sent_view(seen@), digest@);
    }
    None
}

/// A revision's files as a commit's changes: `deleteall`, then the file at
/// each path in path order, named by the mark its content goes under; and
/// the blobs to send first, one for each content not sent before, under the
/// marks after `next` in turn. `seen` and `next` grow to match:
/// [`files_plan`].
pub fn file_changes(tree: &Tree, seen: &mut Vec<(Vec<u8>, u64)>, next: &mut u64) -> (out: (
    Vec<Blob>,
    Vec<Change>,
))
    requires
        all_bytes(tree@),
        *old(next) + tree@.len() <= u64::MAX,
        unique(sent_view(old(seen)@)),
    ensures
        ({
            let paths = sorted_paths(tree@);
            let (blobs, marks, now, at) = files_plan(paths, tree@, sent_view(old(seen)@), *old(next));
            &&& out.0@.map_values(|b: Blob| b@) == blobs.map_values(|sent: (u64, Seq<u8>)| blob_of(sent))
            &&& out.1@.map_values(|c: Change| c@) == seq![ChangeView::DeleteAll] + file_lines(
                paths,
                tree@,
                marks,
            )
            &&& sent_view(final(seen)@) == now
            &&& unique(sent_view(final(seen)@))
            &&& *final(next) == at
        }),
        ({
            let paths = sorted_paths(tree@);
            &&& out.1@.len() == paths.len() + 1
            &&& out.1@[0]@ == ChangeView::DeleteAll
            &&& forall|i: int|
                0 <= i < paths.len() ==> ((#[trigger] out.1@[i + 1])@ matches ChangeView::Modify {
                    mode,
                    path,
                    ..
                } && path == paths[i] && mode == tree@[paths[i]].mode)
        }),
{
    let entries = tree.listing();
    let ghost paths = sorted_paths(tree@);
    let ghost start = sent_view(seen@);
    let ghost first = *next;
    proof {
        crate::table::lemma_all(pairs(entries@));
        assert forall|i: int, j: int| 0 <= i < j < paths.len() implies #[trigger] paths[i]
            != #[trigger] paths[j] by {
            assert(pairs(entries@)[i].0 == paths[i] && pairs(entries@)[j].0 == paths[j]);
        }
        assert(paths.len() == tree@.len()) by {
            lemma_unique_len(paths, tree@.dom());
        }
    }
    let mut blobs: Vec<Blob> = Vec::new();
    let mut changes: Vec<Change> = Vec::new();
    changes.push(Change::DeleteAll);
    let mut at: usize = 0;
    while at < entries.len()
        invariant
            at <= entries@.len(),
            entries@.len() == paths.len(),
            keys(pairs(entries@)) == paths,
            unique(pairs(entries@)),
            as_map(pairs(entries@)) == tree@,
            all_bytes(tree@),
            first + paths.len() <= u64::MAX,
            ({
                let (b, m, now, last) = files_plan(paths.subrange(0, at as int), tree@, start, first);
                &&& blobs@.map_values(|x: Blob| x@) == b.map_values(|sent: (u64, Seq<u8>)| blob_of(sent))
                &&& changes@.map_values(|c: Change| c@) == seq![ChangeView::DeleteAll] + file_lines(
                    paths.subrange(0, at as int),
                    tree@,
                    m,
                )
                &&& sent_view(seen@) == now
                &&& unique(now)
                &&& *next == last
            }),
        decreases entries@.len() - at,
    {
        let ghost prefix = paths.subrange(0, at as int);
        let ghost longer = paths.subrange(0, at + 1);
        proof {
            lemma_plan_bounds(longer, tree@, start, first);
            lemma_plan_bounds(prefix, tree@, start, first);
            assert(longer.drop_last() =~= prefix);
            assert(longer.last() == paths[at as int]);
            assert(pairs(entries@)[at as int].0 == paths[at as int]);
            crate::table::lemma_index(pairs(entries@), at as int);
        }
        let entry = &entries[at].1;
        let path = &entries[at].0;
        let bytes = match &entry.content {
            Held::Bytes(bytes) => bytes,
            Held::Submodule(_) => {
                proof {
                    assert(tree@.contains_key(paths[at as int]));
                }
                return (blobs, changes);
            },
        };
        let digest = content_digest(bytes.as_slice());
        let ghost blobs_before = blobs@.map_values(|x: Blob| x@);
        proof {
            assert(entry@ == tree@[paths[at as int]]);
            assert(held_bytes(tree@[paths[at as int]]) == bytes@);
        }
        let mark = match sent_under(seen, &digest) {
            Some(mark) => mark,
            None => {
                let fresh = *next + 1;
                proof {
                    lemma_insert(sent_view(seen@), sent_view(seen@).len() as int, digest@, fresh);
                    assert(sent_view(seen@).insert(sent_view(seen@).len() as int, (digest@, fresh))
                        =~= sent_view(seen@).push((digest@, fresh)));
                }
                let ghost before = seen@;
                seen.push((digest, fresh));
                proof {
                    assert(sent_view(seen@) =~= sent_view(before).push((digest@, fresh)));
                }
                blobs.push(Blob { mark: Some(Mark(fresh)), original_oid: None, data: copy(bytes.as_slice()) });
                proof {
                    assert(blobs@.map_values(|x: Blob| x@) =~= blobs_before.push(
                        blob_of((fresh, bytes@)),
                    ));
                }
                *next = fresh;
                fresh
            },
        };
        let ghost before_changes = changes@.map_values(|c: Change| c@);
        changes.push(
            Change::Modify {
                mode: entry.mode,
                content: Content::Named(DataRef::Mark(Mark(mark))),
                path: copy(path.as_slice()),
            },
        );
        proof {
            let (b, m, now, last) = files_plan(longer, tree@, start, first);
            assert(file_lines(longer, tree@, m) =~= file_lines(prefix, tree@, files_plan(prefix, tree@, start, first).1).push(
                ChangeView::Modify {
                    mode: tree@[paths[at as int]].mode,
                    content: ContentView::Named(DataRefView::Mark(Mark(mark))),
                    path: paths[at as int],
                },
            ));
            assert(changes@.map_values(|c: Change| c@) =~= before_changes.push(
                ChangeView::Modify {
                    mode: tree@[paths[at as int]].mode,
                    content: ContentView::Named(DataRefView::Mark(Mark(mark))),
                    path: paths[at as int],
                },
            ));
            let pb = files_plan(prefix, tree@, start, first).0;
            assert(b == pb || b == pb.push((mark, bytes@)));
            if b == pb.push((mark, bytes@)) {
                assert(b.map_values(|sent: (u64, Seq<u8>)| blob_of(sent)) =~= pb.map_values(
                    |sent: (u64, Seq<u8>)| blob_of(sent),
                ).push(blob_of((mark, bytes@))));
            }
            assert(blobs@.map_values(|x: Blob| x@) =~= b.map_values(|sent: (u64, Seq<u8>)| blob_of(sent)));
        }
        at = at + 1;
    }
    proof {
        assert(paths.subrange(0, at as int) =~= paths);
        let m = files_plan(paths, tree@, start, first).1;
        lemma_plan_bounds(paths, tree@, start, first);
        each_file_is_sent_with_its_own_mode(paths, tree@, m);
        let v = changes@.map_values(|c: Change| c@);
        assert(v == seq![ChangeView::DeleteAll] + file_lines(paths, tree@, m));
        assert(v.len() == changes@.len());
        assert(v[0] == changes@[0]@);
        assert forall|i: int| 0 <= i < paths.len() implies ((#[trigger] changes@[i + 1])@ matches ChangeView::Modify {
            mode,
            path,
            ..
        } && path == paths[i] && mode == tree@[paths[i]].mode) by {
            assert(v[i + 1] == changes@[i + 1]@);
            assert(v[i + 1] == file_lines(paths, tree@, m)[i]);
        }
    }
    (blobs, changes)
}

/// Every `M` line sends the file at its path with that file's own mode — a
/// link as a link, an executable as executable — under the mark given for
/// it, one line per path, in the order of the paths.
pub proof fn each_file_is_sent_with_its_own_mode(paths: Seq<Seq<u8>>, tree: TreeMap, marks: Seq<u64>)
    requires
        marks.len() == paths.len(),
    ensures
        file_lines(paths, tree, marks).len() == paths.len(),
        forall|i: int|
            0 <= i < paths.len() ==> ((#[trigger] file_lines(paths, tree, marks)[i]) matches ChangeView::Modify {
                mode,
                content,
                path,
            } && path == paths[i] && mode == tree[paths[i]].mode && content == ContentView::Named(
                DataRefView::Mark(Mark(marks[i])),
            )),
{
}

/// A sequence with no value twice is as long as the set it spells.
proof fn lemma_unique_len(s: Seq<Seq<u8>>, set: Set<Seq<u8>>)
    requires
        forall|i: int, j: int| 0 <= i < j < s.len() ==> #[trigger] s[i] != #[trigger] s[j],
        s.to_set() == set,
    ensures
        s.len() == set.len(),
{
    s.unique_seq_to_set();
}

} // verus!
