use historica_git::stream::{
    Change, Command, Commit, Content, DataRef, Mark, Mode, Person, Reader, Writer,
};

fn spelled(commands: &[Command]) -> Vec<u8> {
    let mut writer = Writer::new(Vec::new());
    for command in commands {
        writer.write(command).expect("a vector takes bytes");
    }
    writer.into_inner()
}

#[test]
fn a_stream_in_git_spelling_is_written_back_byte_for_byte() {
    let stream: &[u8] = b"blob\nmark :1\ndata 6\nhello\n\n\
commit refs/heads/main\nmark :2\nauthor Ann <ann@example.com> 1700000000 +0100\n\
committer Bo <bo@example.com> 1700000100 -0700\ndata 6\nfirst\n\
M 100644 :1 \"with space.txt\"\nM 100755 :1 run.sh\nM 120000 :1 link\nD gone\n\n\
reset refs/tags/light\nfrom :2\n\n\
reset refs/heads/gone\n\
done\n";
    let commands = Reader::new(stream).read_all().expect("git's spelling reads");
    assert_eq!(commands.len(), 5);
    assert_eq!(spelled(&commands), stream.to_vec());
}

#[test]
fn each_mode_is_spelled_as_git_spells_it_and_reads_back_as_itself() {
    let modes = [
        (Mode::File, "100644"),
        (Mode::Executable, "100755"),
        (Mode::Symlink, "120000"),
        (Mode::Gitlink, "160000"),
        (Mode::Directory, "040000"),
    ];
    for (mode, text) in modes {
        assert_eq!(mode.as_str(), text);
        let commit = Command::Commit(Commit {
            reference: b"refs/heads/main".to_vec(),
            mark: None,
            original_oid: None,
            author: None,
            committer: Person {
                name: b"Bo".to_vec(),
                email: b"bo@example.com".to_vec(),
                seconds: 1,
                offset_minutes: 0,
            },
            encoding: None,
            signature: None,
            message: b"m\n".to_vec(),
            from: None,
            merges: Vec::new(),
            changes: vec![Change::Modify {
                mode,
                content: Content::Named(DataRef::Mark(Mark(1))),
                path: b"p".to_vec(),
            }],
        });
        let bytes = spelled(&[commit.clone()]);
        let line = format!("M {text} :1 p\n");
        assert!(bytes.windows(line.len()).any(|w| w == line.as_bytes()));
        let read = Reader::new(&bytes).read_all().expect("the writer's spelling reads");
        assert_eq!(read, vec![commit]);
    }
}
