use historica_git::carried::spell;
use historica_git::export::{
    carry_forward, catch_up, checked_out, committer, decide, finish, git_ref, marks, order,
    parents, person, person_at, plan_refs, signature, Bookmark, CatchUp, Decided, Head, HeldBack,
    Resolved, Signed, Tally,
};
use historica_git::plumbing::Pointed;
use historica_git::remembered::Refs;
use historica_git::stream::{DataRef, Mark, Person};

const A: &str = "0123456789abcdef0123456789abcdef01234567";
const B: &str = "89abcdef0123456789abcdef0123456789abcdef";
const NULL: &str = "0000000000000000000000000000000000000000";

fn at(commit: &str) -> Pointed {
    Pointed { commit: commit.to_owned(), annotated: false }
}

#[test]
fn a_ref_nobody_has_is_made() {
    assert_eq!(decide(None, None, &DataRef::Mark(Mark(1))), Decided::Move);
}

#[test]
fn a_ref_git_deleted_is_not_made_again() {
    assert_eq!(
        decide(None, Some(A), &DataRef::Mark(Mark(1))),
        Decided::HeldBack(HeldBack::DeletedInGit)
    );
}

#[test]
fn a_ref_only_the_store_moved_moves_and_one_git_moved_does_not() {
    assert_eq!(decide(Some(&at(A)), Some(A), &DataRef::Mark(Mark(1))), Decided::Move);
    assert_eq!(
        decide(Some(&at(B)), Some(A), &DataRef::Mark(Mark(1))),
        Decided::HeldBack(HeldBack::MovedInGit)
    );
    assert_eq!(
        decide(Some(&at(B)), None, &DataRef::Mark(Mark(1))),
        Decided::HeldBack(HeldBack::NotOurs)
    );
    assert_eq!(decide(Some(&at(A)), None, &DataRef::Oid(A.to_owned())), Decided::Already);
}

#[test]
fn an_annotated_tag_is_never_moved() {
    let tag = Pointed { commit: A.to_owned(), annotated: true };
    assert_eq!(
        decide(Some(&tag), Some(A), &DataRef::Oid(A.to_owned())),
        Decided::HeldBack(HeldBack::Annotated)
    );
    assert!(HeldBack::Annotated.reason().contains("annotated tag"));
}

#[test]
fn main_then_master_then_the_first() {
    let names = |list: &[&str]| list.iter().map(|s| s.to_string()).collect::<Vec<_>>();
    assert_eq!(checked_out(&names(&["scratch/x", "main"])).as_deref(), Some("main"));
    assert_eq!(checked_out(&names(&["a", "master", "main"])).as_deref(), Some("main"));
    assert_eq!(checked_out(&names(&["a", "master"])).as_deref(), Some("master"));
    assert_eq!(checked_out(&names(&["b", "a"])).as_deref(), Some("b"));
    assert_eq!(checked_out(&[]), None);
}

#[test]
fn a_bookmark_git_could_not_name_has_no_ref() {
    assert_eq!(git_ref("refs/heads/", "topic/one").as_deref(), Some("refs/heads/topic/one"));
    for refused in [
        "", "-x", ".x", "x.", "x.lock", "x/", "a..b", "a//b", "a@{b", "a b", "a~", "a^", "a:",
        "a?", "a*", "a[", "a\\b", "a\u{7}b",
    ] {
        assert_eq!(git_ref("refs/tags/", refused), None, "{refused:?}");
    }
}

#[test]
fn the_marks_file_reads_as_marks_and_commits() {
    let read = marks(&format!(":1 {A}\n\n:2 {B}\n")).expect("the marks read");
    assert_eq!(read, vec![(Mark(1), A.to_owned()), (Mark(2), B.to_owned())]);
    assert_eq!(marks("1 abc\n"), Err("1 abc".to_owned()));
    assert_eq!(marks(""), Ok(Vec::new()));
}

#[test]
fn the_record_after_a_write_keeps_what_it_held_back() {
    let refs = Refs::read(Some(&format!(
        "refs/heads/kept {A}\nrefs/heads/gone {A} made\nrefs/heads/held {B} made\n"
    )))
    .expect("the record reads");
    let ours = vec![
        ("refs/heads/main".to_owned(), DataRef::Mark(Mark(1))),
        ("refs/heads/kept".to_owned(), DataRef::Oid(A.to_owned())),
    ];
    let left = carry_forward(
        &refs,
        &ours,
        &["refs/heads/main".to_owned()],
        &["refs/heads/gone".to_owned()],
        &[(Mark(1), B.to_owned())],
    );
    let find = |name: &str| left.iter().find(|(r, _)| r == name).map(|(_, l)| (l.oid.clone(), l.made));
    assert_eq!(find("refs/heads/main"), Some((B.to_owned(), true)));
    assert_eq!(find("refs/heads/kept"), Some((A.to_owned(), false)));
    assert_eq!(find("refs/heads/held"), Some((B.to_owned(), true)), "a held-back ref keeps its line");
    assert_eq!(find("refs/heads/gone"), None);
}

#[test]
fn the_working_tree_catches_up_only_when_nothing_is_in_the_way() {
    let main = "refs/heads/main".to_owned();
    let moved = vec![main.clone()];
    assert_eq!(catch_up(Some(&main), &[], &moved, true), CatchUp::Reset("main".to_owned()));
    assert_eq!(catch_up(Some(&main), &[], &moved, false), CatchUp::Dirty("main".to_owned()));
    assert_eq!(catch_up(Some(&main), &moved, &[], true), CatchUp::HeadDeleted("main".to_owned()));
    assert_eq!(catch_up(Some(&main), &[], &[], true), CatchUp::Nothing);
    assert_eq!(catch_up(None, &[], &moved, true), CatchUp::Nothing);
}

#[test]
fn parents_are_sent_before_children() {
    // Revision 0 stands on 1, and 2 on 0: the listed order would send a
    // child first.
    assert_eq!(order(&[vec![1], vec![], vec![0]]), vec![1, 0, 2]);
    // A parent outside the list holds nothing up.
    assert_eq!(order(&[vec![7], vec![0]]), vec![0, 1]);
    // Two that stand on each other are never sent.
    assert_eq!(order(&[vec![1], vec![0], vec![]]), vec![2]);
}

#[test]
fn an_author_becomes_git_s_two_fields_and_two_numbers() {
    let ada = person("Ada Lovelace <ada@example.com>", "2026-01-02T03:04:05-07:00")
        .expect("the time reads");
    assert_eq!(
        ada,
        Person {
            name: b"Ada Lovelace".to_vec(),
            email: b"ada@example.com".to_vec(),
            seconds: 1767348245,
            offset_minutes: -420,
        }
    );
    let bare = person("Ada", "2026-01-02T03:04:05+05:30").expect("the time reads");
    assert_eq!(bare.name, b"Ada");
    assert!(bare.email.is_empty(), "a name with no address keeps the name");
    assert_eq!(bare.offset_minutes, 330);
    assert_eq!(bare.seconds, 1767303245);
    assert_eq!(person("Ada", "not a time"), None);
}

#[test]
fn the_offset_is_read_from_the_spelling_s_end() {
    let p = person_at("A <a@b>", "2026-01-02T03:04:05-02:30", Some(5)).expect("it reads");
    assert_eq!(p.seconds, 5);
    assert_eq!(p.offset_minutes, -150);
    assert_eq!(person_at("A <a@b>", "2026-01-02T03:04:05-02:30", None), None);
    assert_eq!(person_at("A <a@b>", "-02:x0", Some(5)), None);
}

#[test]
fn a_write_says_what_did_not_cross() {
    let tally = Tally {
        revisions: 5,
        commits: 3,
        reused: 1,
        rewritten: 0,
        contested: vec!["a file two branches moved to different paths".to_owned()],
        linked: 0,
        invalidated: 2,
        unreadable: vec!["git.committer".to_owned()],
        private: 1,
        held_back: vec!["`refs/heads/x` was not moved: because".to_owned()],
    };
    let lines = finish(&tally);
    assert_eq!(lines.len(), 7);
    assert!(lines[0].starts_with("one revision was superseded"));
    assert!(lines[1].starts_with("a file two branches moved to different paths was resolved"));
    assert!(lines[2].starts_with("2 revisions carry signatures"));
    assert!(lines[3].starts_with("a `git.committer` header did not cross"));
    assert_eq!(lines[4], "one bookmark is private and its name stayed behind");
    assert_eq!(lines[5], "`refs/heads/x` was not moved: because");
    assert!(lines[6].starts_with("change IDs did not cross"), "change IDs go nowhere and that is worth saying");
}

#[test]
fn refs_move_where_nothing_is_in_the_way() {
    let bookmarks = vec![
        Bookmark {
            name: "bad name".to_owned(),
            travels: true,
            resolved: Some(Resolved { revision: 1, branch: false, placed: DataRef::Mark(Mark(2)) }),
        },
        Bookmark {
            name: "main".to_owned(),
            travels: true,
            resolved: Some(Resolved { revision: 0, branch: true, placed: DataRef::Mark(Mark(1)) }),
        },
        Bookmark { name: "mine".to_owned(), travels: false, resolved: None },
    ];
    let heads = vec![
        Head { revision: 0, abbreviated: "aaaaaaaaaaaa".to_owned(), placed: DataRef::Mark(Mark(1)) },
        Head { revision: 1, abbreviated: "bbbbbbbbbbbb".to_owned(), placed: DataRef::Mark(Mark(2)) },
    ];
    let plan = plan_refs(&bookmarks, &heads, &[], &Refs::none(), &NULL.to_owned(), true);
    assert_eq!(
        plan.resets,
        vec![
            ("refs/heads/main".to_owned(), DataRef::Mark(Mark(1))),
            ("refs/historica/heads/bbbbbbbbbbbb".to_owned(), DataRef::Mark(Mark(2))),
            ("refs/historica/staging".to_owned(), DataRef::Oid(NULL.to_owned())),
        ]
    );
    assert_eq!(plan.branches, vec!["main".to_owned()]);
    assert_eq!(plan.private, 1);
    assert_eq!(
        plan.notes,
        vec!["the bookmark `bad name` did not cross; git has no ref by that name".to_owned()]
    );
    assert!(plan.held_back.is_empty());
    assert_eq!(plan.named, vec![0]);
}

#[test]
fn a_ref_git_moved_is_held_back_and_one_it_left_is_deleted() {
    let bookmarks = vec![Bookmark {
        name: "main".to_owned(),
        travels: true,
        resolved: Some(Resolved { revision: 0, branch: true, placed: DataRef::Mark(Mark(1)) }),
    }];
    let refs = Refs::read(Some(&format!(
        "refs/heads/main {A} made\nrefs/heads/old {A} made\nrefs/heads/theirs {A} made\nrefs/heads/kept {A}\n"
    )))
    .expect("the record reads");
    let current = vec![
        ("refs/heads/kept".to_owned(), at(A)),
        ("refs/heads/main".to_owned(), at(B)),
        ("refs/heads/old".to_owned(), at(A)),
        ("refs/heads/theirs".to_owned(), at(B)),
    ];
    let plan = plan_refs(&bookmarks, &[], &current, &refs, &NULL.to_owned(), false);
    assert_eq!(plan.resets, vec![("refs/heads/old".to_owned(), DataRef::Oid(NULL.to_owned()))]);
    assert_eq!(plan.deleted, vec!["refs/heads/old".to_owned()]);
    assert_eq!(
        plan.held_back,
        vec![
            "`refs/heads/main` was not moved: git moved it since the last write; `import` first, so that the store sees where it went".to_owned(),
            "`refs/heads/theirs` was not deleted: the store no longer names it, but git moved it since the last write, so it is somebody's now".to_owned(),
        ]
    );
    assert!(plan.branches.is_empty());
}

#[test]
fn a_committer_comes_back_from_its_header() {
    let author = Person { name: b"Ada".to_vec(), email: b"a@x".to_vec(), seconds: 1, offset_minutes: 0 };
    assert_eq!(committer(None, &author), (author.clone(), false));
    let (bo, unreadable) = committer(Some("Bo <bo@x> 2 +0100"), &author);
    assert!(!unreadable);
    assert_eq!(bo, Person { name: b"Bo".to_vec(), email: b"bo@x".to_vec(), seconds: 2, offset_minutes: 60 });
    assert_eq!(committer(Some("nobody"), &author), (author.clone(), true));
}

#[test]
fn a_signature_crosses_only_where_the_revision_still_has_a_right_to_it() {
    let data = spell(b"-----BEGIN PGP SIGNATURE-----\n\nabc\n-----END PGP SIGNATURE-----");
    let kind = spell(b"sha1 openpgp");
    assert_eq!(signature(None, Some(&kind), false), Signed::Unsigned);
    assert_eq!(signature(Some(&data), Some(&kind), true), Signed::Invalidated);
    match signature(Some(&data), Some(&kind), false) {
        Signed::Signed(s) => {
            assert_eq!(s.kind, b"sha1 openpgp");
            assert!(s.data.starts_with(b"-----BEGIN"));
        }
        other => panic!("expected a signature, found {other:?}"),
    }
    assert_eq!(signature(Some(&data), None, false), Signed::Unreadable);
    assert_eq!(signature(Some("\"unterminated"), Some(&kind), false), Signed::Unreadable);
}

#[test]
fn a_parent_rewritten_away_stands_on_its_nearest_ancestor() {
    let visible = [true, false, true];
    let superseded = [false, true, false];
    let first = [None, Some(0), Some(1)];
    let placed = [Some(DataRef::Mark(Mark(1))), None, Some(DataRef::Mark(Mark(3)))];
    assert_eq!(
        parents(&visible, &superseded, &first, &placed, &[1]),
        (vec![DataRef::Mark(Mark(1))], 1)
    );
    assert_eq!(
        parents(&visible, &superseded, &first, &placed, &[0, 1, 2]),
        (vec![DataRef::Mark(Mark(1)), DataRef::Mark(Mark(3))], 1)
    );
    assert_eq!(parents(&visible, &superseded, &first, &placed, &[5]), (vec![], 0));
}

#[test]
fn what_is_said_of_the_working_tree() {
    assert_eq!(CatchUp::Nothing.note(), None);
    assert_eq!(CatchUp::Reset("main".to_owned()).note(), None);
    assert!(CatchUp::HeadDeleted("main".to_owned())
        .note()
        .expect("a deletion is said")
        .starts_with("HEAD is on `main`, which this conversion deleted"));
    assert!(CatchUp::Dirty("main".to_owned())
        .note()
        .expect("changes in the way are said")
        .contains("`git reset --hard` is what brings it up"));
}

#[test]
fn every_revision_is_sent_once_where_no_parent_loops() {
    let parents = [vec![3], vec![0, 3], vec![], vec![2], vec![1, 2]];
    let sent = order(&parents);
    assert_eq!(sent, vec![2, 3, 0, 1, 4]);
    let mut seen = sent.clone();
    seen.sort();
    assert_eq!(seen, vec![0, 1, 2, 3, 4]);
}
