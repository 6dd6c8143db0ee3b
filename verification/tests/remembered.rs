use historica_git::remembered::{record, Error, Left, Refs};

const A: &str = "0123456789abcdef0123456789abcdef01234567";
const B: &str = "89abcdef0123456789abcdef0123456789abcdef";

#[test]
fn no_file_is_no_record() {
    let refs = Refs::read(None).expect("nothing reads");
    assert!(!refs.known());
    assert!(refs.iter().is_empty());
    assert!(!Refs::none().known());
}

#[test]
fn a_record_says_where_each_ref_was_left_and_who_made_it() {
    let text = format!("refs/heads/main {A} made\n\nrefs/tags/v1 {B}\n");
    let refs = Refs::read(Some(&text)).expect("the record reads");
    assert!(refs.known());
    assert_eq!(refs.left("refs/heads/main"), Some(A));
    assert!(refs.made("refs/heads/main"));
    assert_eq!(refs.left("refs/tags/v1"), Some(B));
    assert!(!refs.made("refs/tags/v1"));
    assert_eq!(refs.left("refs/heads/other"), None);
    assert_eq!(refs.to_map().len(), 2);
}

#[test]
fn a_line_that_is_not_a_ref_and_a_commit_is_refused() {
    assert!(Refs::read(Some("refs/heads/main\n")).is_err());
    let extra = format!("refs/heads/main {A} moved\n");
    assert!(Refs::read(Some(&extra)).is_err());
}

#[test]
fn a_record_reads_back_as_it_was_written() {
    let left = vec![
        ("refs/heads/main".to_owned(), Left { oid: A.to_owned(), made: true }),
        ("refs/tags/v1".to_owned(), Left { oid: B.to_owned(), made: false }),
    ];
    let text = Refs::write(&left);
    assert_eq!(text, format!("refs/heads/main {A} made\nrefs/tags/v1 {B}\n"));
    let refs = Refs::read(Some(&text)).expect("what was written reads");
    assert_eq!(refs.left("refs/heads/main"), Some(A));
    assert!(refs.made("refs/heads/main"));
    assert_eq!(refs.left("refs/tags/v1"), Some(B));
    assert!(!refs.made("refs/tags/v1"));
}

#[test]
fn the_commits_file_pairs_a_revision_with_its_commit() {
    use_commits();
}

fn use_commits() {
    let pairs = vec![("r1".to_owned(), A.to_owned()), ("r2".to_owned(), B.to_owned())];
    let text = historica_git::remembered::write_commits(&pairs);
    assert_eq!(text, format!("r1 {A}\nr2 {B}\n"));
    assert_eq!(historica_git::remembered::read_commits(&text), Ok(pairs));
    assert_eq!(historica_git::remembered::read_commits("\n  \n"), Ok(Vec::new()));
    assert!(historica_git::remembered::read_commits("r1\n").is_err());
}

#[test]
fn the_record_lists_its_refs_in_ascending_order_whatever_the_file_order() {
    let text = format!("refs/tags/v1 {B}\nrefs/heads/main {A} made\nrefs/heads/dev {B}\n");
    let refs = Refs::read(Some(&text)).expect("the record reads");
    let names: Vec<&str> = refs.iter().iter().map(|(name, _)| name.as_str()).collect();
    assert_eq!(names, vec!["refs/heads/dev", "refs/heads/main", "refs/tags/v1"]);
    let carried = refs.to_map();
    assert_eq!(Refs::write(&carried), format!("refs/heads/dev {B}\nrefs/heads/main {A} made\nrefs/tags/v1 {B}\n"));
}

#[test]
fn a_ref_recorded_goes_where_its_name_belongs_and_a_known_one_is_replaced() {
    let mut pairs = Vec::new();
    record(&mut pairs, "refs/tags/v1".to_owned(), Left { oid: A.to_owned(), made: false });
    record(&mut pairs, "refs/heads/main".to_owned(), Left { oid: A.to_owned(), made: true });
    record(&mut pairs, "refs/heads/zeta".to_owned(), Left { oid: B.to_owned(), made: true });
    record(&mut pairs, "refs/tags/v1".to_owned(), Left { oid: B.to_owned(), made: true });
    let names: Vec<&str> = pairs.iter().map(|(name, _)| name.as_str()).collect();
    assert_eq!(names, vec!["refs/heads/main", "refs/heads/zeta", "refs/tags/v1"]);
    assert_eq!(pairs[2].1, Left { oid: B.to_owned(), made: true });
}

#[test]
fn a_line_without_a_space_is_refused_before_any_value_is_read() {
    let text = format!("refs/heads/main {A} moved\nrefs/heads/dev\n");
    assert_eq!(
        Refs::read(Some(&text)).err(),
        Some(Error::Malformed { file: "refs", line: "refs/heads/dev".to_owned() })
    );
    let text = format!("refs/heads/main {A} moved\nrefs/heads/dev {B} gone\n");
    assert_eq!(
        Refs::read(Some(&text)).err(),
        Some(Error::Malformed { file: "refs", line: format!("refs/heads/main {A} moved") })
    );
}
