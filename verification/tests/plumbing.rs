use historica_git::plumbing::{
    batch, batch_question, exclude_history, git_dir, holding, holding_question, is_clean, ls_tree,
    null_oid, parents_of, refs, tree_of,
};
use historica_git::stream::Mode;
use historica_git::tree::Held;

const A: &str = "0123456789abcdef0123456789abcdef01234567";
const B: &str = "89abcdef0123456789abcdef0123456789abcdef";

#[test]
fn refs_are_read_with_the_commit_they_reach() {
    let out = format!(
        "commit {A} refs/heads/main\ntag {B} refs/tags/annotated\ncommit {B} refs/tags/light\n"
    );
    let read = refs(out.as_bytes());
    assert_eq!(read.len(), 3);
    assert_eq!(read[0].0, "refs/heads/main");
    assert_eq!(read[0].1.commit, A);
    assert!(!read[0].1.annotated);
    assert_eq!(read[1].0, "refs/tags/annotated");
    assert!(read[1].1.annotated, "a tag object is an annotated tag");
    assert_eq!(read[2].1.commit, B);
    assert!(!read[2].1.annotated);
}

#[test]
fn a_line_that_is_not_three_words_names_no_ref() {
    let out = format!("commit {A}\ncommit {A} refs/heads/main\n");
    let read = refs(out.as_bytes());
    assert_eq!(read.len(), 1);
    assert_eq!(read[0].0, "refs/heads/main");
}

#[test]
fn a_question_is_a_line_per_object() {
    assert_eq!(holding_question(&[A.to_owned(), B.to_owned()]), format!("{A}\n{B}\n"));
    assert_eq!(holding_question(&[]), "");
}

#[test]
fn only_commits_are_held() {
    let out = format!("{A} commit 250\n{B} missing\n");
    assert_eq!(holding(out.as_bytes()), vec![A.to_owned()]);
}

#[test]
fn the_parents_are_every_word_after_the_first() {
    let out = format!("{A} {B} {A}\n");
    assert_eq!(parents_of(out.as_bytes()), vec![B.to_owned(), A.to_owned()]);
    assert!(parents_of(format!("{A}\n").as_bytes()).is_empty());
}

#[test]
fn the_null_object_id_is_as_wide_as_the_format() {
    assert_eq!(null_oid(b"sha1\n"), "0".repeat(40));
    assert_eq!(null_oid(b"sha256\n"), "0".repeat(64));
}

#[test]
fn a_status_with_only_white_space_is_clean() {
    assert!(is_clean(b""));
    assert!(is_clean(b" \n"));
    assert!(!is_clean(b" M a.txt\n"));
}

#[test]
fn the_git_directory_is_the_answer_trimmed() {
    assert_eq!(git_dir(b"/tmp/repo/.git\n").unwrap(), "/tmp/repo/.git");
    let refused = git_dir(b"  \n").unwrap_err();
    assert_eq!(refused.because, "git named no directory");
}

#[test]
fn the_store_is_excluded_once() {
    assert_eq!(exclude_history("").as_deref(), Some("/history/\n"));
    assert_eq!(exclude_history("*.o").as_deref(), Some("*.o\n/history/\n"));
    assert_eq!(exclude_history("*.o\n").as_deref(), Some("*.o\n/history/\n"));
    assert_eq!(exclude_history("*.o\n  /history/  \n"), None);
}

#[test]
fn a_listing_reads_as_mode_object_and_path() {
    let listed = format!("100644 blob {A}\ta.txt\0160000 commit {B}\tsub\0");
    let entries = ls_tree(listed.as_bytes()).expect("a listing reads");
    assert_eq!(entries.len(), 2);
    assert_eq!(entries[0], (Mode::File, A.to_owned(), b"a.txt".to_vec()));
    assert_eq!(entries[1], (Mode::Gitlink, B.to_owned(), b"sub".to_vec()));
    assert_eq!(batch_question(&entries), format!("{A}\n"));
}

#[test]
fn a_listing_with_a_mode_no_file_has_is_refused() {
    let listed = format!("040000 tree {A}\tdir\0");
    assert!(ls_tree(listed.as_bytes()).is_err());
    assert!(ls_tree(b"100644 blob abc\0").is_err(), "an entry with no path");
}

#[test]
fn a_batch_answer_is_a_header_and_the_bytes() {
    let mut out = format!("{A} blob 4\n").into_bytes();
    out.extend_from_slice(b"one\n\n");
    let answered = batch(&out).expect("an answer reads");
    assert_eq!(answered, vec![(A.to_owned(), b"one\n".to_vec())]);
    let missing = format!("{A} missing\n");
    assert!(batch(missing.as_bytes()).is_err());
    let short = format!("{A} blob 40\none\n");
    assert!(batch(short.as_bytes()).is_err(), "the output ended early");
}

#[test]
fn a_tree_is_the_listing_with_its_bytes() {
    let listed = format!("100755 blob {A}\trun.sh\0160000 commit {B}\tsub\0");
    let mut answered = format!("{A} blob 3\n").into_bytes();
    answered.extend_from_slice(b"hi\n\n");
    let tree = tree_of(listed.as_bytes(), &answered).expect("the tree reads");
    assert_eq!(tree.len(), 2);
    let run = tree.get(b"run.sh").expect("the script is there");
    assert_eq!(run.mode, Mode::Executable);
    assert!(matches!(&run.content, Held::Bytes(bytes) if bytes == b"hi\n"));
    let sub = tree.get(b"sub").expect("the submodule is there");
    assert!(matches!(&sub.content, Held::Submodule(oid) if oid == B));
}

#[test]
fn a_blob_git_did_not_answer_is_refused() {
    let listed = format!("100644 blob {A}\ta.txt\0");
    assert!(tree_of(listed.as_bytes(), b"").is_err());
}
