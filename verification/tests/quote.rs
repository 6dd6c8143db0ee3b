use historica_git::stream::{quote, unquote, Unquoted};

#[test]
fn a_quoted_path_ends_at_its_closing_quote() {
    let (path, past) = unquote(br#""sub/with space.txt" and more"#).unwrap();
    assert_eq!(path, b"sub/with space.txt");
    assert_eq!(past, 20);
}

#[test]
fn every_escape_reads() {
    let (path, _) = unquote(br#""\a\b\f\n\r\t\v\\\"\303\251""#).unwrap();
    assert_eq!(path, b"\x07\x08\x0c\n\r\t\x0b\\\"\xc3\xa9");
}

#[test]
fn a_short_octal_escape_reads() {
    assert_eq!(unquote(br#""\0""#).unwrap().0, b"\0");
    assert_eq!(unquote(br#""\12""#).unwrap().0, b"\n");
}

#[test]
fn quote_what_is_refused_says_why() {
    assert_eq!(unquote(br#""unclosed"#), Err(Unquoted::Unterminated));
    assert_eq!(unquote(br#""trailing\"#), Err(Unquoted::DanglingEscape));
    assert_eq!(unquote(br#""\q""#), Err(Unquoted::UnknownEscape(b'q')));
    // 0o777 does not fit in a byte.
    assert_eq!(unquote(br#""\777""#), Err(Unquoted::UnknownEscape(b'7')));
}

#[test]
fn a_plain_path_travels_raw() {
    assert_eq!(quote(b"docs/README.md", false), b"docs/README.md");
    assert_eq!(quote(b"with space.txt", false), b"with space.txt");
    assert_eq!(quote(b"with space.txt", true), br#""with space.txt""#);
}

#[test]
fn quoting_and_unquoting_are_one_rule() {
    for path in [
        &b"plain.txt"[..],
        b"with space.txt",
        b"quote\".txt",
        b"back\\slash",
        b"new\nline",
        b"caf\xc3\xa9",
        b"\x00\x01\x02",
    ] {
        for must_quote_space in [false, true] {
            let written = quote(path, must_quote_space);
            let read = match written.first() {
                Some(b'"') => unquote(&written).unwrap().0,
                _ => written.clone(),
            };
            assert_eq!(read, path, "round trip failed for {path:?}");
        }
    }
}

#[test]
fn a_quoted_path_ends_where_its_quote_closes_not_at_the_end() {
    // What follows the closing quote is not the path's; the count says where
    // the rest of the line starts.
    let (path, past) = unquote(br#""a" b"#).unwrap();
    assert_eq!(path, b"a");
    assert_eq!(past, 3);
}

#[test]
fn a_control_byte_is_quoted_as_octal() {
    assert_eq!(quote(b"\x01", false), br#""\001""#);
    assert_eq!(quote(b"tab\there", false), br#""tab\there""#);
}

#[test]
fn a_refused_stream_says_which_line_and_what() {
    use_reader();
}

fn use_reader() {
    let refused = historica_git::stream::Reader::new(b"bogus stuff\n")
        .read_all()
        .expect_err("an unknown command is refused");
    assert_eq!(refused.to_string(), "line 1: `bogus` is not a command this stream has");
    let quoting = historica_git::stream::Reader::new(
        b"commit refs/heads/main\ncommitter Bo <bo@x> 1 +0000\ndata 2\nm\nD \"a\\q\"\n",
    )
    .read_all()
    .expect_err("a bad escape is refused");
    assert!(quoting.to_string().starts_with("line 5: `\\q` is not an escape this format has"), "{}", quoting.to_string());
}

#[test]
fn what_follows_a_closing_quote_is_never_read() {
    let quoted: &[u8] = br#""a\"b\101""#;
    let (path, past) = unquote(quoted).unwrap();
    assert_eq!(path, b"a\"bA");
    assert_eq!(past, quoted.len());
    assert_eq!(quoted[past - 1], b'"');
    assert!(path.len() <= past - 2);
    for rest in [&b""[..], b" tail", b"\\", b"\"", b"\\q\n"] {
        let longer = [quoted, rest].concat();
        assert_eq!(unquote(&longer), Ok((path.clone(), past)));
    }
}

#[test]
fn every_refusal_names_a_line_from_one_and_says_what() {
    let streams: [&[u8]; 6] = [
        b"data 3\n",
        b"\n\nblob\n",
        b"commit refs/heads/main\ndata 1\nx\n",
        b"tag v1\ndata 0\n",
        b"blob\ndata 9\nshort\n",
        b"reset refs/heads/x\nfrom nothing-at-all\n",
    ];
    for stream in streams {
        let refused = historica_git::stream::Reader::new(stream).read_all().expect_err("each is refused");
        assert!(refused.line >= 1);
        let said = refused.to_string();
        let head = format!("line {}: ", refused.line);
        assert!(said.starts_with(&head), "{said}");
        assert!(said.len() > head.len(), "{said}");
        assert!(said.len() > "line 1: no".len(), "{said}");
    }
}
