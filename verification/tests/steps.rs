use historica_git::export::files::file_changes;
use historica_git::import::{current_refs, import_step, lands_on, restored, Target};
use historica_git::stream::{Change, Command, Commit, Content, DataRef, Mark, Mode, Person, Reset, Tag};
use historica_git::tree::{Entry, Held, Tree, Trees};

const A: &str = "0123456789abcdef0123456789abcdef01234567";
const B: &str = "89abcdef0123456789abcdef0123456789abcdef";

fn file(bytes: &[u8]) -> Entry {
    Entry { mode: Mode::File, content: Held::Bytes(bytes.to_vec()) }
}

fn person() -> Person {
    Person { name: b"Bo".to_vec(), email: b"bo@example.com".to_vec(), seconds: 1, offset_minutes: 0 }
}

#[test]
fn a_revision_sends_each_content_once_and_names_every_file_in_path_order() {
    let mut tree = Tree::new();
    tree.insert(b"z.txt".to_vec(), file(b"same\n"));
    tree.insert(b"a.txt".to_vec(), file(b"same\n"));
    tree.insert(b"m.txt".to_vec(), file(b"other\n"));
    let mut seen: Vec<(Vec<u8>, u64)> = Vec::new();
    let mut next: u64 = 4;
    let (blobs, changes) = file_changes(&tree, &mut seen, &mut next);
    assert_eq!(blobs.len(), 2);
    assert_eq!(blobs[0].mark, Some(Mark(5)));
    assert_eq!(blobs[0].data, b"same\n".to_vec());
    assert_eq!(blobs[1].mark, Some(Mark(6)));
    assert_eq!(blobs[1].data, b"other\n".to_vec());
    assert_eq!(next, 6);
    assert_eq!(seen.len(), 2);
    assert_eq!(seen[0].0.len(), 32);
    assert_ne!(seen[0].0, b"same\n".to_vec());
    assert_ne!(seen[0].0, seen[1].0);
    let modify = |path: &[u8], mark: u64| Change::Modify {
        mode: Mode::File,
        content: Content::Named(DataRef::Mark(Mark(mark))),
        path: path.to_vec(),
    };
    assert_eq!(
        changes,
        vec![Change::DeleteAll, modify(b"a.txt", 5), modify(b"m.txt", 6), modify(b"z.txt", 5)]
    );

    let mut again = Tree::new();
    again.insert(b"b.txt".to_vec(), file(b"other\n"));
    again.insert(b"c.txt".to_vec(), file(b"new\n"));
    let (blobs, changes) = file_changes(&again, &mut seen, &mut next);
    assert_eq!(blobs.len(), 1);
    assert_eq!(blobs[0].mark, Some(Mark(7)));
    assert_eq!(changes, vec![Change::DeleteAll, modify(b"b.txt", 6), modify(b"c.txt", 7)]);
    assert_eq!(next, 7);
}

#[test]
fn a_reset_to_an_object_id_is_passed_over_only_where_git_is_asked() {
    let trees = Trees::new();
    let reset = Command::Reset(Reset {
        reference: b"refs/heads/main".to_vec(),
        from: Some(DataRef::Oid(A.to_owned())),
    });
    assert!(import_step(&trees, &reset, true, true).skip);
    assert!(!import_step(&trees, &reset, false, true).skip);
    let by_mark = Command::Reset(Reset { reference: b"refs/heads/main".to_vec(), from: Some(DataRef::Mark(Mark(1))) });
    assert!(!import_step(&trees, &by_mark, true, true).skip);
}

#[test]
fn an_annotated_tag_is_counted_where_git_refs_are_not_read() {
    let trees = Trees::new();
    let tag = Command::Tag(Tag {
        name: b"v1".to_vec(),
        mark: None,
        from: DataRef::Mark(Mark(1)),
        original_oid: None,
        tagger: None,
        message: b"m\n".to_vec(),
    });
    assert!(import_step(&trees, &tag, false, false).counts_tag);
    assert!(!import_step(&trees, &tag, false, true).counts_tag);
}

#[test]
fn parents_named_by_object_id_are_seeded_once_unless_seeded_already() {
    let mut trees = Trees::new();
    trees.seed(B.to_owned(), Tree::new());
    let commit = Command::Commit(Commit {
        reference: b"refs/heads/main".to_vec(),
        mark: None,
        original_oid: None,
        author: None,
        committer: person(),
        encoding: None,
        signature: None,
        message: b"m\n".to_vec(),
        from: Some(DataRef::Oid(A.to_owned())),
        merges: vec![DataRef::Oid(B.to_owned()), DataRef::Mark(Mark(2)), DataRef::Oid(A.to_owned())],
        changes: Vec::new(),
    });
    let step = import_step(&trees, &commit, true, true);
    assert!(!step.skip);
    assert_eq!(step.seed, vec![A.to_owned()]);
    assert!(!step.counts_tag);
}

#[test]
fn git_refs_stand_on_known_commits_tags_are_counted_and_the_rest_dangle() {
    let current = vec![
        ("refs/heads/main".to_owned(), false, Some(3)),
        ("refs/tags/v1".to_owned(), true, Some(3)),
        ("refs/heads/gone".to_owned(), false, None),
        ("refs/tags/v2".to_owned(), false, Some(1)),
    ];
    let (standing, tags, dangling) = current_refs(&current);
    assert_eq!(standing, vec![("refs/heads/main".to_owned(), 3), ("refs/tags/v2".to_owned(), 1)]);
    assert_eq!(tags, 1);
    assert_eq!(dangling, 1);
}

#[test]
fn what_a_recording_advanced_is_put_back_where_it_stood() {
    let standing = vec![
        ("main".to_owned(), Target::Change(vec![1, 2])),
        ("v1".to_owned(), Target::Revision(vec![3])),
    ];
    let advanced = vec!["v1".to_owned(), "new".to_owned(), "main".to_owned()];
    let put_back = restored(&advanced, &standing);
    assert_eq!(put_back.len(), 2);
    assert_eq!(put_back[0].0, "v1");
    assert!(matches!(&put_back[0].1, Target::Revision(id) if id == &vec![3]));
    assert_eq!(put_back[1].0, "main");
    assert!(matches!(&put_back[1].1, Target::Change(id) if id == &vec![1, 2]));
}

#[test]
fn a_commit_lands_on_what_held_it_or_what_it_made_or_its_first_parent() {
    assert_eq!(lands_on(Some(1), Some(2), Some(3)), Some(1));
    assert_eq!(lands_on(None, Some(2), Some(3)), Some(2));
    assert_eq!(lands_on(None, None, Some(3)), Some(3));
    assert_eq!(lands_on(None, None, None), None);
}
