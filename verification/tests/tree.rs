use std::collections::BTreeMap;

use historica_git::stream::{Command, Reader};
use historica_git::tree::{Error, Held, Tree, Trees};

fn replay(bytes: &[u8]) -> BTreeMap<String, Tree> {
    let mut trees = Trees::new();
    let mut by_message = BTreeMap::new();
    let commands = Reader::new(bytes).read_all().expect("the stream reads");
    for command in commands {
        let name = match &command {
            Command::Commit(commit) => {
                Some(String::from_utf8_lossy(&commit.message).trim().to_string())
            }
            _ => None,
        };
        let tree = trees.apply(&command).expect("the stream replays");
        if let (Some(name), Some(tree)) = (name, tree) {
            by_message.insert(name, tree);
        }
    }
    by_message
}

fn listed(tree: &Tree) -> Vec<String> {
    tree.iter()
        .map(|(path, entry)| format!("{} {}", entry.mode.as_str(), String::from_utf8_lossy(path)))
        .collect()
}

fn bytes_at(tree: &Tree, path: &str) -> Vec<u8> {
    match &tree
        .get(path.as_bytes())
        .expect("the path is in the tree")
        .content
    {
        Held::Bytes(bytes) => bytes.to_vec(),
        held => panic!("expected bytes at {path}, found {held:?}"),
    }
}

fn replay_text(stream: &str) -> BTreeMap<String, Tree> {
    replay(stream.as_bytes())
}

#[test]
fn a_directory_moves_with_everything_under_it() {
    let trees = replay_text(
        "blob\n\
         mark :1\n\
         data 2\n\
         a\n\
         commit refs/heads/main\n\
         mark :2\n\
         committer Bo <bo@example.com> 100 +0000\n\
         data 5\n\
         first\n\
         M 100644 :1 sub/deep/a.txt\n\
         M 100644 :1 subtle.txt\n\
         \n\
         commit refs/heads/main\n\
         mark :3\n\
         committer Bo <bo@example.com> 100 +0000\n\
         data 6\n\
         second\n\
         from :2\n\
         R sub other\n\
         \n",
    );
    assert_eq!(
        listed(&trees["second"]),
        ["100644 other/deep/a.txt", "100644 subtle.txt"]
    );
}

#[test]
fn deleting_a_directory_deletes_what_is_under_it() {
    let trees = replay_text(
        "blob\n\
         mark :1\n\
         data 2\n\
         a\n\
         commit refs/heads/main\n\
         mark :2\n\
         committer Bo <bo@example.com> 100 +0000\n\
         data 5\n\
         first\n\
         M 100644 :1 sub/deep/a.txt\n\
         M 100644 :1 subtle.txt\n\
         \n\
         commit refs/heads/main\n\
         mark :3\n\
         committer Bo <bo@example.com> 100 +0000\n\
         data 6\n\
         second\n\
         from :2\n\
         D sub\n\
         \n",
    );
    assert_eq!(listed(&trees["second"]), ["100644 subtle.txt"]);
}

#[test]
fn a_commit_with_no_parent_stated_continues_its_branch() {
    let trees = replay_text(
        "blob\n\
         mark :1\n\
         data 2\n\
         a\n\
         commit refs/heads/main\n\
         mark :2\n\
         committer Bo <bo@example.com> 100 +0000\n\
         data 5\n\
         first\n\
         M 100644 :1 kept.txt\n\
         \n\
         commit refs/heads/main\n\
         mark :3\n\
         committer Bo <bo@example.com> 100 +0000\n\
         data 6\n\
         second\n\
         M 100644 :1 added.txt\n\
         \n",
    );
    assert_eq!(
        listed(&trees["second"]),
        ["100644 added.txt", "100644 kept.txt"]
    );
}

#[test]
fn a_copy_keeps_the_original_and_a_blob_keeps_its_bytes() {
    let trees = replay_text(
        "blob\n\
         mark :1\n\
         data 4\n\
         one\n\
         commit refs/heads/main\n\
         mark :2\n\
         committer Bo <bo@example.com> 100 +0000\n\
         data 5\n\
         first\n\
         M 100755 :1 a.txt\n\
         \n\
         commit refs/heads/main\n\
         mark :3\n\
         committer Bo <bo@example.com> 100 +0000\n\
         data 6\n\
         second\n\
         from :2\n\
         C a.txt b.txt\n\
         \n",
    );
    assert_eq!(
        listed(&trees["second"]),
        ["100755 a.txt", "100755 b.txt"]
    );
    assert_eq!(bytes_at(&trees["second"], "b.txt"), b"one\n");
    assert_eq!(bytes_at(&trees["first"], "a.txt"), b"one\n");
}

fn refuse(stream: &str) -> Error {
    let mut trees = Trees::new();
    let commands = Reader::new(stream.as_bytes())
        .read_all()
        .expect("the stream reads");
    for command in commands {
        match trees.apply(&command) {
            Ok(_) => continue,
            Err(error) => return error,
        }
    }
    panic!("the stream replayed, and was expected not to");
}

#[test]
fn a_stream_that_cannot_be_replayed_says_which_flag_wrote_it() {
    let commit = "commit refs/heads/main\n\
                  mark :2\n\
                  committer Bo <bo@example.com> 100 +0000\n\
                  data 5\n\
                  first\n";

    let missing = refuse(&format!("{commit}M 100644 :9 a.txt\n"));
    assert!(
        matches!(missing, Error::NoSuchBlob { .. }),
        "expected a missing blob, found {}",
        missing.to_string()
    );

    let no_data = refuse(&format!(
        "{commit}M 100644 0123456789abcdef0123456789abcdef01234567 a.txt\n"
    ));
    assert!(
        no_data.to_string().contains("--no-data"),
        "the message should name the flag that wrote the stream: {}",
        no_data.to_string()
    );

    let full_tree = refuse(&format!("{commit}M 040000 :1 sub\n"));
    assert!(
        full_tree.to_string().contains("--full-tree"),
        "the message should name the flag that wrote the stream: {}",
        full_tree.to_string()
    );

    let orphan = refuse(
        "commit refs/heads/main\n\
         mark :2\n\
         committer Bo <bo@example.com> 100 +0000\n\
         data 5\n\
         first\n\
         from :7\n",
    );
    assert!(
        matches!(orphan, Error::NoSuchCommit { .. }),
        "expected a missing parent, found {}",
        orphan.to_string()
    );
}

#[test]
fn a_missing_blob_is_named_by_its_mark_and_path() {
    let error = Error::NoSuchBlob {
        mark: historica_git::stream::Mark(9),
        path: "a.txt".to_owned(),
    };
    assert_eq!(
        error.to_string(),
        "`a.txt` is content the stream never carried: mark :9 is named before it is set"
    );
}
