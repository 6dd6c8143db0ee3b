use historica_git::carried::offset;
use historica_git::stream::{
    Blob, Change, Command, Commit, Content, DataRef, Mark, Mode, Person, Reader, Reset, Writer,
};

fn written(command: &Command) -> Vec<u8> {
    let mut writer = Writer::new(Vec::new());
    writer.write(command).expect("a vector takes bytes");
    writer.into_inner()
}

#[test]
fn an_offset_is_spelled_the_way_git_spells_one() {
    assert_eq!(offset(0), "+0000");
    assert_eq!(offset(-420), "-0700");
    assert_eq!(offset(330), "+0530");
}

#[test]
fn a_blob_carries_its_count_and_a_newline_after_it() {
    let command = Command::Blob(Blob {
        mark: Some(Mark(1)),
        original_oid: None,
        data: b"one\ntwo\n".to_vec(),
    });
    assert_eq!(written(&command), b"blob\nmark :1\ndata 8\none\ntwo\n\n");
}

#[test]
fn a_signed_commit_survives_being_read_and_written() {
    let armour = "-----BEGIN PGP SIGNATURE-----\n\nabcd/+=\n-----END PGP SIGNATURE-----";
    let message = "Start\n";
    let stream = format!(
        "commit refs/heads/main\n\
         mark :1\n\
         author Ada <ada@example.com> 1767348245 -0700\n\
         committer Bo <bo@example.com> 1767348246 -0700\n\
         gpgsig sha1 openpgp\n\
         data {}\n{armour}\n\
         data {}\n{message}\
         M 100644 :2 a.txt\n\n",
        armour.len(),
        message.len(),
    )
    .into_bytes();

    let commands = Reader::new(&stream)
        .read_all()
        .expect("a signed commit reads");
    let Some(Command::Commit(commit)) = commands.first() else {
        panic!("expected a commit, got {commands:?}");
    };
    let signature = commit
        .signature
        .as_ref()
        .expect("the signature came across");
    assert_eq!(signature.kind, b"sha1 openpgp");
    assert_eq!(signature.data, armour.as_bytes());

    let mut writer = Writer::new(Vec::new());
    for command in &commands {
        writer.write(command).expect("a vector takes bytes");
    }
    assert_eq!(
        writer.into_inner(),
        stream,
        "a signed commit did not write back as it read"
    );
}

#[test]
fn a_path_holding_a_space_is_quoted_as_git_quotes_it() {
    let command = Command::Commit(Commit {
        reference: b"refs/heads/main".to_vec(),
        mark: None,
        original_oid: None,
        author: None,
        committer: Person {
            name: b"Ada".to_vec(),
            email: b"ada@example.com".to_vec(),
            seconds: 1767348245,
            offset_minutes: -420,
        },
        encoding: None,
        signature: None,
        message: b"m\n".to_vec(),
        from: None,
        merges: Vec::new(),
        changes: vec![Change::Modify {
            mode: Mode::File,
            content: Content::Named(DataRef::Mark(Mark(3))),
            path: b"sub/with space.txt".to_vec(),
        }],
    });
    let out = written(&command);
    let text = String::from_utf8_lossy(&out);
    assert!(
        text.contains("M 100644 :3 \"sub/with space.txt\"\n"),
        "{text}"
    );
    assert!(text.ends_with("\n\n"), "a commit ends with a blank line");
}

#[test]
fn a_reset_that_only_names_a_ref_ends_there_and_one_that_moves_ends_with_a_blank_line() {
    let command = Command::Reset(Reset {
        reference: b"refs/heads/gone".to_vec(),
        from: None,
    });
    assert_eq!(written(&command), b"reset refs/heads/gone\n");
    let moved = Command::Reset(Reset {
        reference: b"refs/heads/main".to_vec(),
        from: Some(DataRef::Mark(Mark(7))),
    });
    assert_eq!(written(&moved), b"reset refs/heads/main\nfrom :7\n\n");
}

#[test]
fn done_is_one_word() {
    assert_eq!(written(&Command::Done), b"done\n");
}

#[test]
fn what_is_written_reads_back_as_the_same_command() {
    let command = Command::Commit(Commit {
        reference: b"refs/heads/main".to_vec(),
        mark: Some(Mark(4)),
        original_oid: Some("0123456789abcdef0123456789abcdef01234567".to_owned()),
        author: Some(Person {
            name: b"Ada".to_vec(),
            email: b"ada@example.com".to_vec(),
            seconds: 100,
            offset_minutes: 330,
        }),
        committer: Person {
            name: b"Bo".to_vec(),
            email: b"bo@example.com".to_vec(),
            seconds: 101,
            offset_minutes: -60,
        },
        encoding: None,
        signature: None,
        message: b"two\nlines\n".to_vec(),
        from: Some(DataRef::Mark(Mark(2))),
        merges: vec![DataRef::Mark(Mark(3))],
        changes: vec![
            Change::Delete { path: b"gone.txt".to_vec() },
            Change::Rename {
                source: b"old name".to_vec(),
                destination: b"new".to_vec(),
            },
        ],
    });
    let out = written(&command);
    let back = Reader::new(&out).read_all().expect("what was written reads");
    assert_eq!(back, vec![command]);
}

#[test]
fn every_kind_of_command_written_reads_back_alone_and_in_a_stream() {
    let ada = Person {
        name: b"Ada <Lovelace>".to_vec(),
        email: b"ada@example.com".to_vec(),
        seconds: -5,
        offset_minutes: -420,
    };
    let commands = vec![
        Command::Blob(Blob { mark: None, original_oid: Some("0a1b".to_owned()), data: b"x\n\ny".to_vec() }),
        Command::Commit(Commit {
            reference: b"refs/heads/main".to_vec(),
            mark: Some(Mark(2)),
            original_oid: None,
            author: Some(ada.clone()),
            committer: Person { offset_minutes: 330, ..ada.clone() },
            encoding: Some(b"ISO-8859-1".to_vec()),
            signature: Some(historica_git::stream::Signature {
                kind: b"openpgp".to_vec(),
                data: b"-----BEGIN-----\n".to_vec(),
            }),
            message: b"no newline at the end".to_vec(),
            from: Some(DataRef::Oid("ABCDEF0123".to_owned())),
            merges: vec![DataRef::Mark(Mark(1)), DataRef::Mark(Mark(7))],
            changes: vec![
                Change::Modify {
                    mode: Mode::Executable,
                    content: Content::Inline(b"#!/bin/sh\n".to_vec()),
                    path: b"bin/run me".to_vec(),
                },
                Change::Modify {
                    mode: Mode::Symlink,
                    content: Content::Named(DataRef::Mark(Mark(3))),
                    path: b"\"quoted\"\n".to_vec(),
                },
                Change::Rename { source: b"a b".to_vec(), destination: b"c".to_vec() },
                Change::Copy { source: b"c".to_vec(), destination: b"d e".to_vec() },
                Change::Delete { path: b"gone".to_vec() },
                Change::DeleteAll,
                Change::Note {
                    content: Content::Inline(b"a note".to_vec()),
                    commit: DataRef::Mark(Mark(2)),
                },
            ],
        }),
        Command::Commit(Commit {
            reference: b"refs/heads/bare".to_vec(),
            mark: None,
            original_oid: None,
            author: None,
            committer: ada.clone(),
            encoding: None,
            signature: None,
            message: Vec::new(),
            from: None,
            merges: Vec::new(),
            changes: Vec::new(),
        }),
        Command::Tag(historica_git::stream::Tag {
            name: b"v1".to_vec(),
            mark: None,
            from: DataRef::Mark(Mark(2)),
            original_oid: None,
            tagger: Some(ada.clone()),
            message: b"first\n".to_vec(),
        }),
        Command::Reset(Reset { reference: b"refs/heads/main".to_vec(), from: None }),
        Command::Progress(b"half way".to_vec()),
        Command::Feature(b"done".to_vec()),
        Command::Option(b"quiet".to_vec()),
        Command::Done,
    ];
    let mut writer = Writer::new(Vec::new());
    for command in &commands {
        writer.write(command).expect("a vector takes bytes");
    }
    let stream = writer.into_inner();
    let read = Reader::new(&stream).read_all().expect("what was written reads");
    assert_eq!(read, commands);
    for command in commands {
        let read = Reader::new(&written(&command)).read_all().expect("what was written reads");
        assert_eq!(read, vec![command]);
    }
}
