use historica_git::carried::{read, read_person, read_person_whole, spell, spell_person, splits};
use historica_git::stream::Person;

fn person() -> Person {
    Person {
        name: b"Ada Lovelace".to_vec(),
        email: b"ada@example.com".to_vec(),
        seconds: 1767348245,
        offset_minutes: -420,
    }
}

#[test]
fn a_committer_stays_readable() {
    assert_eq!(
        spell_person(&person()),
        "Ada Lovelace <ada@example.com> 1767348245 -0700"
    );
    assert_eq!(read_person(&spell_person(&person())), Some(person()));
}

#[test]
fn a_signature_survives_its_newlines() {
    let armour = b"-----BEGIN PGP SIGNATURE-----\n\nabc/+=\n-----END PGP SIGNATURE-----";
    let spelled = spell(armour);
    assert!(!spelled.contains('\n'), "a header is one line: {spelled}");
    assert!(
        spelled.starts_with("\"-----BEGIN PGP SIGNATURE-----"),
        "what it is should still be legible: {spelled}"
    );
    assert_eq!(read(&spelled).as_deref(), Some(&armour[..]));
}

#[test]
fn a_header_value_reads_back_as_it_was_spelled() {
    for bytes in [&b""[..], b"plain", b"  padded  ", b"new\nline", b"\xff\x00"] {
        assert_eq!(read(&spell(bytes)).as_deref(), Some(bytes), "{bytes:?}");
    }
}

#[test]
fn a_plain_value_is_spelled_as_itself() {
    assert_eq!(spell(b"sha1 openpgp"), "sha1 openpgp");
}

#[test]
fn a_committer_east_of_greenwich_reads_back() {
    let mut east = person();
    east.offset_minutes = 330;
    assert_eq!(spell_person(&east), "Ada Lovelace <ada@example.com> 1767348245 +0530");
    assert_eq!(read_person(&spell_person(&east)), Some(east));
}

#[test]
fn what_is_not_a_person_reads_as_nothing() {
    assert_eq!(read_person("Ada Lovelace"), None);
    assert_eq!(read_person("Ada <ada@example.com> soon +0000"), None);
    assert_eq!(read_person("Ada <ada@example.com> 100 +00"), None);
    assert_eq!(read_person_whole("Ada Lovelace"), Some(None));
    assert!(!splits("Ada"));
}
