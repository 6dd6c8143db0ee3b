use historica_git::import::folder::{changes_between, path_of, PathRefused};
use historica_git::import::{
    becomes, deleted_branch, descends, elsewhere, finish, headers, keeps_committer, landed,
    may_follow, moved, moves, naming, parents, spell, Becomes, Had, Naming, Tally, Unplaced,
};
use historica_git::stream::{Change, Command, Commit, DataRef, Mark, Person, Reader, Reset, Signature};
use historica_git::tree::Trees;

fn person(name: &str, seconds: i64, offset_minutes: i32) -> Person {
    Person {
        name: name.as_bytes().to_vec(),
        email: format!("{}@example.com", name.to_lowercase()).into_bytes(),
        seconds,
        offset_minutes,
    }
}

fn commit(author: Option<Person>, committer: Person) -> Commit {
    Commit {
        reference: b"refs/heads/main".to_vec(),
        mark: Some(Mark(3)),
        original_oid: None,
        author,
        committer,
        encoding: None,
        signature: None,
        message: b"m\n".to_vec(),
        from: None,
        merges: Vec::new(),
        changes: Vec::new(),
    }
}

#[test]
fn a_branch_becomes_a_bookmark_on_its_change_and_a_tag_one_on_its_revision() {
    assert_eq!(becomes("refs/heads/topic/x"), Becomes::Branch("topic/x".to_owned()));
    assert_eq!(becomes("refs/tags/v1"), Becomes::Tag("v1".to_owned()));
    assert_eq!(
        becomes("refs/remotes/origin/main"),
        Becomes::Elsewhere("refs/remotes/origin/".to_owned())
    );
    assert_eq!(elsewhere("HEAD"), "HEAD");
    assert_eq!(elsewhere("refs/notes/commits"), "refs/notes/");
}

#[test]
fn a_person_is_spelled_as_both_sides_spell_one() {
    assert_eq!(spell(&person("Ada", 0, 0)), "Ada <ada@example.com>");
}

#[test]
fn a_time_is_spelled_where_it_was_written() {
    assert_eq!(historica_git::import::when(&person("Ada", 1767348245, -420)).as_deref(), Some("2026-01-02T03:04:05-07:00"));
    assert_eq!(historica_git::import::when(&person("Ada", 0, 0)).as_deref(), Some("1970-01-01T00:00:00+00:00"));
    assert_eq!(historica_git::import::when(&person("Ada", 0, 26 * 60)), None, "an offset beyond 25:59 is refused");
}

#[test]
fn a_person_spelled_for_the_store_reads_back_as_the_same_person() {
    let bracketed = Person {
        name: b"Grace <Hopper>".to_vec(),
        email: b"grace@example.com".to_vec(),
        seconds: 0,
        offset_minutes: 330,
    };
    for written in [person("Ada Lovelace", 1767348245, -420), bracketed] {
        let when = historica_git::import::when(&written).expect("a moment jiff can spell");
        let read = historica_git::export::person(&spell(&written), &when);
        assert_eq!(read, Some(written));
    }
}

#[test]
fn a_revision_descends_from_what_is_above_it() {
    // 0 <- 1 <- 2, and 3 on its own.
    let parents = vec![vec![], vec![0], vec![1], vec![]];
    assert!(descends(&parents, 2, 0));
    assert!(descends(&parents, 2, 2));
    assert!(!descends(&parents, 0, 2));
    assert!(!descends(&parents, 2, 3));
    assert!(descends(&parents, 9, 9), "a revision is its own ancestor even unheld");
    // A cycle ends.
    assert!(!descends(&[vec![1], vec![0]], 0, 5));
}

#[test]
fn a_bookmark_follows_only_what_git_alone_moved() {
    let parents = vec![vec![], vec![0], vec![1]];
    assert_eq!(may_follow(&parents, Some(0), 0, 2), Ok(()));
    assert!(may_follow(&parents, Some(0), 1, 0).unwrap_err().starts_with("git has it where the last write left it"));
    assert!(may_follow(&parents, Some(0), 1, 2).unwrap_err().starts_with("git and the store both moved it"));
    assert_eq!(may_follow(&parents, None, 0, 2), Ok(()));
    assert!(may_follow(&parents, None, 2, 0).unwrap_err().starts_with("where git has it is not a step forward"));
}

#[test]
fn naming_decides_what_becomes_of_a_bookmark() {
    let parents = vec![vec![], vec![0]];
    assert_eq!(naming(&parents, "main", false, Had::Absent, None, 1), Naming::Create);
    assert_eq!(naming(&parents, "main", false, Had::Same, None, 1), Naming::Keep);
    assert_eq!(naming(&parents, "main", false, Had::Elsewhere(Some(0)), None, 1), Naming::Follow);
    assert_eq!(
        naming(&parents, "v1", true, Had::Elsewhere(Some(0)), None, 1),
        Naming::Conflict("tag `v1` points elsewhere in the store, and a bookmark on a revision is pinned; it was not moved".to_owned())
    );
    assert_eq!(
        naming(&parents, "main", false, Had::Elsewhere(None), None, 1),
        Naming::Conflict("branch `main` has a bookmark whose change is not resolved in the store; it was not moved".to_owned())
    );
    match naming(&parents, "main", false, Had::Elsewhere(Some(1)), None, 0) {
        Naming::Conflict(why) => assert!(why.starts_with("branch `main` was not moved: where git has it")),
        other => panic!("expected a conflict, found {other:?}"),
    }
}

#[test]
fn a_branch_git_deleted_is_said() {
    assert!(deleted_branch("x", Some(1), Some(1)).contains("the bookmark stays where the branch was"));
    assert!(deleted_branch("x", Some(1), Some(2)).contains("after the store moved its bookmark"));
    assert!(deleted_branch("x", None, None).contains("after the store moved its bookmark"));
}

#[test]
fn a_path_historica_cannot_hold_is_refused_with_why() {
    assert_eq!(path_of(b"sub/a.txt"), Ok("sub/a.txt".to_owned()));
    assert_eq!(path_of(b"historyx/a"), Ok("historyx/a".to_owned()));
    assert_eq!(path_of(b"a/..b"), Ok("a/..b".to_owned()));
    let refused = |p: &[u8]| match path_of(p) {
        Err(PathRefused::Unusable { because, .. }) => because,
        other => panic!("expected a refusal, found {other:?}"),
    };
    assert_eq!(refused(b""), "it is empty");
    assert_eq!(refused(b"/etc/passwd"), "it is absolute, and a repository holds relative paths");
    assert_eq!(refused(b"a/../b"), "it climbs out of the folder it is in");
    assert_eq!(refused(b"./a"), "it climbs out of the folder it is in");
    assert_eq!(refused(b"a/."), "it climbs out of the folder it is in");
    assert!(refused(b"history").starts_with("`history/` is where the store goes"));
    assert!(refused(b"history/x").starts_with("`history/` is where the store goes"));
    let not_text = path_of(b"caf\xe9").unwrap_err();
    assert!(matches!(not_text, PathRefused::NotText { .. }));
    assert!(not_text.to_string().contains("whose name is not UTF-8"));
}

#[test]
fn a_rename_moves_each_file_beneath_it() {
    let stream = "blob\nmark :1\ndata 2\na\n\
                  commit refs/heads/main\nmark :2\ncommitter Bo <bo@example.com> 100 +0000\ndata 5\nfirst\n\
                  M 100644 :1 sub/deep/a.txt\nM 100644 :1 subtle.txt\n\n";
    let mut trees = Trees::new();
    let mut last = None;
    for command in Reader::new(stream.as_bytes()).read_all().expect("the stream reads") {
        if let Some(tree) = trees.apply(&command).expect("the stream replays") {
            last = Some(tree);
        }
    }
    let parent = last.expect("a commit was replayed");
    let changes = vec![
        Change::Rename { source: b"sub".to_vec(), destination: b"other".to_vec() },
        Change::Delete { path: b"subtle.txt".to_vec() },
    ];
    assert_eq!(
        moves(&changes, &parent).expect("the paths are text"),
        vec![("sub/deep/a.txt".to_owned(), "other/deep/a.txt".to_owned())]
    );
    let into_store = vec![Change::Rename { source: b"subtle.txt".to_vec(), destination: b"history".to_vec() }];
    assert!(moves(&into_store, &parent).is_err());
}

#[test]
fn a_committer_other_than_the_author_rides_along() {
    let ada = person("Ada", 1767348245, -420);
    let bo = person("Bo", 1767348246, -420);
    let mut signed = commit(Some(ada.clone()), bo.clone());
    assert!(keeps_committer(&signed));
    signed.signature = Some(Signature { kind: b"sha1 openpgp".to_vec(), data: b"sig\ndata".to_vec() });
    let said = headers(&signed);
    assert_eq!(said.len(), 3);
    assert_eq!(said[0], ("git.committer".to_owned(), "Bo <bo@example.com> 1767348246 -0700".to_owned()));
    assert_eq!(said[1].0, "git.signature");
    assert_eq!(said[1].1, "\"sig\\ndata\"");
    assert_eq!(said[2], ("git.signature-kind".to_owned(), "sha1 openpgp".to_owned()));
    let same = commit(Some(bo.clone()), bo.clone());
    assert!(!keeps_committer(&same));
    assert!(headers(&same).is_empty());
    assert!(headers(&commit(None, bo)).is_empty());
}

#[test]
fn an_import_says_what_did_not_cross() {
    let tally = Tally {
        committers: 1,
        encodings: 2,
        tags: 1,
        unnameable: vec![("refs/heads/caf\u{e9}".to_owned(), "it is not normalised".to_owned())],
        conflicts: vec!["branch `x` was not moved: because".to_owned()],
        elsewhere: vec!["refs/notes/".to_owned(), "refs/remotes/origin/".to_owned()],
        dangling: 1,
        empty: 3,
    };
    let lines = finish(&tally);
    assert_eq!(lines.len(), 8);
    assert!(lines[0].starts_with("one commit names a committer"));
    assert!(lines[1].starts_with("2 commits stated a message encoding"));
    assert!(lines[2].starts_with("one annotated tag did not cross"));
    assert_eq!(
        lines[3],
        "`refs/heads/caf\u{e9}` did not cross: it is not normalised — and a name this tool spelled some other way would be a name nobody could type"
    );
    assert_eq!(lines[4], "branch `x` was not moved: because");
    assert!(lines[5].starts_with("refs under refs/notes/, refs/remotes/origin/ did not cross"));
    assert_eq!(lines[6], "1 refs named something this stream did not carry, and nothing names them now");
    assert!(lines[7].starts_with("3 commits changed nothing"));
}

#[test]
fn a_reset_moves_its_ref_or_deletes_it() {
    let mut refs: Vec<(String, usize)> = vec![("refs/heads/gone".to_owned(), 0)];
    let marks = vec![(2u64, 5usize)];
    let tag = Reset { reference: b"refs/tags/v1".to_vec(), from: Some(DataRef::Mark(Mark(2))) };
    assert!(!moved(&mut refs, &marks, &tag));
    let dangling = Reset { reference: b"refs/tags/v2".to_vec(), from: Some(DataRef::Mark(Mark(9))) };
    assert!(moved(&mut refs, &marks, &dangling));
    let by_oid = Reset { reference: b"refs/tags/v3".to_vec(), from: Some(DataRef::Oid("abc".to_owned())) };
    assert!(moved(&mut refs, &marks, &by_oid));
    let delete = Reset { reference: b"refs/heads/gone".to_vec(), from: None };
    assert!(!moved(&mut refs, &marks, &delete));
    assert_eq!(refs, vec![("refs/tags/v1".to_owned(), 5)]);
}

#[test]
fn a_commit_lands_under_every_name_it_has() {
    let mut refs = Vec::new();
    let mut by_oid = Vec::new();
    let mut marks = Vec::new();
    let c = commit(None, person("Bo", 0, 0));
    landed(&mut refs, &mut by_oid, &mut marks, &c, &"abc".to_owned(), 7);
    landed(&mut refs, &mut by_oid, &mut marks, &c, &"abc".to_owned(), 8);
    assert_eq!(refs, vec![("refs/heads/main".to_owned(), 8)]);
    assert_eq!(by_oid, vec![("abc".to_owned(), 8)]);
    assert_eq!(marks, vec![(3, 8)]);
}

#[test]
fn a_commit_stands_on_each_parent_once() {
    let mut c = commit(None, person("Bo", 0, 0));
    c.from = Some(DataRef::Mark(Mark(1)));
    c.merges = vec![DataRef::Oid("abc".to_owned()), DataRef::Mark(Mark(1))];
    let marks = vec![(1u64, 4usize)];
    let oids = vec![("abc".to_owned(), 6usize)];
    assert_eq!(parents(&c, &marks, &oids), Ok(vec![4, 6]));
    c.merges = vec![DataRef::Mark(Mark(9))];
    assert_eq!(parents(&c, &marks, &oids), Err(Unplaced::Mark(9)));
    c.merges = vec![DataRef::Oid("def".to_owned())];
    assert_eq!(parents(&c, &marks, &oids), Err(Unplaced::Oid("def".to_owned())));
    let _ = Command::Done;
}

#[test]
fn the_folder_ends_as_the_last_commit_left_it() {
    let stream = "blob\nmark :1\ndata 2\na\nblob\nmark :2\ndata 2\nb\n\
                  commit refs/heads/main\nmark :3\ncommitter Bo <bo@example.com> 100 +0000\ndata 5\nfirst\n\
                  M 100644 :1 a.txt\nM 100644 :1 kept.txt\nM 100644 :1 old.txt\n\n\
                  commit refs/heads/main\nmark :4\ncommitter Bo <bo@example.com> 100 +0000\ndata 6\nsecond\n\
                  M 100755 :1 a.txt\nM 100644 :2 new.txt\nD old.txt\n\n";
    let mut trees = Trees::new();
    let mut all = Vec::new();
    for command in Reader::new(stream.as_bytes()).read_all().expect("the stream reads") {
        if let Some(tree) = trees.apply(&command).expect("the stream replays") {
            all.push(tree);
        }
    }
    let (removed, written) = changes_between(&all[0], &all[1]);
    assert_eq!(removed, vec![b"old.txt".to_vec()]);
    assert_eq!(written, vec![b"a.txt".to_vec(), b"new.txt".to_vec()], "a mode change is a change");
    let (removed, written) = changes_between(&all[1], &all[1]);
    assert!(removed.is_empty() && written.is_empty());
}
