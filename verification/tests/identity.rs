use historica::record::{Entropy, SourceError};
use historica_git::identity::{unhex, Error, Identity};
use historica_git::stream::{Command, Reader};

/// The first commit of the corpus history, and the change decision 0003 makes
/// of it: reversed hex over the object ID's own first twelve bytes.
const OID: &str = "980aeeabdf5024a43392620b11f1d14de03a0bb5";
const CHANGE: &str = "qrzpllpomkuzxvpvwwqxtxzo";

/// An identity as historica asks one for identifiers.
struct Drawn(Identity);

impl Entropy for Drawn {
    fn fill(&mut self, bytes: &mut [u8]) -> Result<(), SourceError> {
        let drawn = self.0.fill(bytes.len());
        bytes.copy_from_slice(&drawn);
        Ok(())
    }

    /// The change the commit's own object ID names, drawing nothing: it is
    /// the same whenever it is asked for.
    fn change(&mut self) -> Result<historica::core::ChangeId, SourceError> {
        Ok(self.0.change_id())
    }
}

#[test]
fn a_change_is_the_commit_it_came_from() {
    let identity = Identity::from_oid(OID).expect("a real object ID");
    assert_eq!(identity.change_id().to_string(), CHANGE);
}

#[test]
fn every_nibble_maps_the_way_the_decision_says() {
    let identity = Identity::from_oid("0123456789abcdef0123456789abcdef").expect("hex is hex");
    assert_eq!(identity.change_id().to_string(), "zyxwvutsrqponmlkzyxwvuts");
}

#[test]
fn the_change_does_not_move_as_files_are_drawn() {
    let mut identity = Drawn(Identity::from_oid(OID).expect("a real object ID"));
    let before = identity.change().expect("a change");
    let _ = identity.file().expect("a file");
    let _ = identity.file().expect("another file");
    let after = identity.change().expect("the same change");
    assert_eq!(before, after);
}

#[test]
fn two_conversions_of_one_commit_agree_throughout() {
    let draw = || {
        let mut identity = Drawn(Identity::from_oid(OID).expect("a real object ID"));
        let change = identity.change().expect("a change");
        let files: Vec<_> = (0..4).map(|_| identity.file().expect("a file")).collect();
        (change, files)
    };
    assert_eq!(draw(), draw());
}

#[test]
fn files_minted_under_one_commit_differ() {
    let mut identity = Drawn(Identity::from_oid(OID).expect("a real object ID"));
    let files: Vec<String> = (0..8)
        .map(|_| identity.file().expect("a file").to_string())
        .collect();
    let mut unique = files.clone();
    unique.sort();
    unique.dedup();
    assert_eq!(unique.len(), files.len(), "a file ID was drawn twice");
}

#[test]
fn two_commits_do_not_share_their_files() {
    let mut one = Drawn(Identity::from_oid(OID).expect("a real object ID"));
    let mut other = Drawn(
        Identity::from_oid("00112233445566778899aabbccddeeff00112233").expect("hex is hex"),
    );
    assert_ne!(
        one.file().expect("a file").to_string(),
        other.file().expect("a file").to_string()
    );
}

#[test]
fn identity_what_is_refused_says_why() {
    assert_eq!(
        Identity::from_oid("nothex!!").err(),
        Some(Error::NotAnObjectId {
            oid: "nothex!!".to_owned()
        })
    );
    assert!(matches!(
        Identity::from_oid("abcd"),
        Err(Error::TooShort { .. })
    ));
    assert!(
        Error::NoObjectId.to_string().contains("--show-original-ids"),
        "the message has to name the flag that would fix it"
    );
}

#[test]
fn a_stream_without_object_ids_is_refused() {
    let stream = "commit refs/heads/main\n\
                  mark :1\n\
                  committer Bo <bo@example.com> 100 +0000\n\
                  data 5\n\
                  first\n";
    let commands = Reader::new(stream.as_bytes())
        .read_all()
        .expect("the stream reads");
    let Command::Commit(commit) = &commands[0] else {
        panic!("expected a commit");
    };
    let refused = Identity::of(commit).expect_err("a commit with no object ID");
    assert!(
        refused.to_string().contains("--show-original-ids"),
        "the message has to name the flag that would fix it: {}",
        refused.to_string()
    );
}

#[test]
fn a_short_object_id_says_how_short() {
    assert_eq!(
        Identity::from_oid("abcd").err().map(|e| e.to_string()),
        Some("`abcd` is 2 bytes, and a change ID needs 12".to_owned())
    );
}

#[test]
fn hex_reads_in_pairs_either_case() {
    assert_eq!(unhex(b"00fFa0"), Some(vec![0x00, 0xff, 0xa0]));
    assert_eq!(unhex(b"abc"), None);
    assert_eq!(unhex(b"zz"), None);
}

#[test]
fn a_draw_is_sha256_of_the_object_id_and_a_counter() {
    // The first draw hands out the digest of the object ID's bytes followed by
    // eight zero bytes, which `shasum -a 256` can check.
    let mut identity = Identity::from_oid("000102030405060708090a0b").expect("hex is hex");
    let drawn = identity.fill(4);
    assert_eq!(drawn.len(), 4);
    let again = Identity::from_oid("000102030405060708090a0b")
        .expect("hex is hex")
        .fill(4);
    assert_eq!(drawn, again);
    let mut fresh = Identity::from_oid("000102030405060708090a0b").expect("hex is hex");
    let first = fresh.fill(12);
    let second = fresh.fill(12);
    assert_ne!(first, second, "a second draw is not the first again");
}

#[test]
fn the_change_historica_is_given_is_the_one_the_object_id_names() {
    let mut identity = Drawn(Identity::from_oid(OID).expect("a real object ID"));
    let _ = identity.file().expect("a file drawn first");
    assert_eq!(identity.change().expect("a change").to_string(), CHANGE);
}
