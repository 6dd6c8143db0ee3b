//! Identifiers that come from the commit rather than from entropy.
//!
//! A change ID is the first 96 bits of the git commit's object ID, so that the
//! same repository converted twice is the same history rather than two of
//! them. File identifiers are derived from the same object ID, because they are
//! written into the revision's bytes and a random one would undo the whole
//! point.
//!
//! [`Identity`] is one commit's worth of identifiers, handed to historica's
//! `record` in place of the platform's random source.

use sha2::{Digest, Sha256};
use vstd::prelude::*;
use vstd::string::StringSliceAdditionalSpecFns;

use crate::stream::text::hex_digit;
use crate::stream::{Commit, CommitView};

verus! {

// ---------------------------------------------------------------------------
// What historica and SHA-256 are trusted to do
// ---------------------------------------------------------------------------

#[verifier::external_type_specification]
#[verifier::external_body]
pub struct ExChangeId(historica::core::ChangeId);

/// The change `historica::core::ChangeId::from_bytes` makes of twelve bytes.
pub uninterp spec fn change_id_of(bytes: Seq<u8>) -> historica::core::ChangeId;

/// Calls `historica::core::ChangeId::from_bytes`, which wraps the bytes it is
/// given as the change they identify. Claimed: the result is a function of the
/// bytes alone.
#[verifier::external_body]
fn change_from_bytes(bytes: [u8; 12]) -> (id: historica::core::ChangeId)
    ensures
        id == change_id_of(bytes@),
{
    historica::core::ChangeId::from_bytes(bytes)
}

/// The SHA-256 digest of some bytes.
pub uninterp spec fn sha256_of(data: Seq<u8>) -> Seq<u8>;

/// Calls `sha2::Sha256::digest`, and copies the 32-byte digest out. Claimed:
/// the digest is a function of the bytes alone.
#[verifier::external_body]
fn sha256(data: &[u8]) -> (digest: [u8; 32])
    ensures
        digest@ == sha256_of(data@),
{
    let out = Sha256::digest(data);
    let mut digest = [0u8; 32];
    digest.copy_from_slice(&out);
    digest
}

// ---------------------------------------------------------------------------
// Hex
// ---------------------------------------------------------------------------

/// What one hex digit is worth. Git writes lowercase; uppercase costs nothing
/// to accept, and refusing it would be a rule with no reason behind it.
pub open spec fn nibble_of(digit: u8) -> u8 {
    if 0x30 <= digit <= 0x39 {
        (digit - 0x30) as u8
    } else if 0x61 <= digit <= 0x66 {
        (digit - 0x61 + 10) as u8
    } else {
        (digit - 0x41 + 10) as u8
    }
}

/// Hex to bytes, or nothing if it is not hex. An odd number of digits is not
/// an object ID: git writes every byte as two.
pub open spec fn unhex_of(text: Seq<u8>) -> Option<Seq<u8>> {
    if text.len() == 0 || text.len() % 2 != 0 {
        None
    } else if forall|i: int| 0 <= i < text.len() ==> hex_digit(#[trigger] text[i]) {
        Some(
            Seq::new(
                text.len() / 2,
                |i: int| (nibble_of(text[2 * i]) * 16 + nibble_of(text[2 * i + 1])) as u8,
            ),
        )
    } else {
        None
    }
}

fn nibble(digit: u8) -> (value: Option<u8>)
    ensures
        match value {
            Some(v) => hex_digit(digit) && v == nibble_of(digit) && v < 16,
            None => !hex_digit(digit),
        },
{
    if 0x30 <= digit && digit <= 0x39 {
        Some(digit - 0x30)
    } else if 0x61 <= digit && digit <= 0x66 {
        Some(digit - 0x61 + 10)
    } else if 0x41 <= digit && digit <= 0x46 {
        Some(digit - 0x41 + 10)
    } else {
        None
    }
}

/// Hex to bytes, or `None` if it is not hex.
pub fn unhex(text: &[u8]) -> (bytes: Option<Vec<u8>>)
    ensures
        match bytes {
            Some(b) => unhex_of(text@) == Some(b@),
            None => unhex_of(text@) is None,
        },
{
    if text.len() == 0 || text.len() % 2 != 0 {
        return None;
    }
    let mut bytes: Vec<u8> = Vec::new();
    let mut at: usize = 0;
    while at < text.len()
        invariant
            text@.len() % 2 == 0,
            at % 2 == 0,
            at <= text@.len(),
            bytes@.len() == at / 2,
            forall|i: int| 0 <= i < at ==> hex_digit(#[trigger] text@[i]),
            forall|i: int|
                0 <= i < bytes@.len() ==> #[trigger] bytes@[i] == (nibble_of(text@[2 * i]) * 16
                    + nibble_of(text@[2 * i + 1])) as u8,
        decreases text@.len() - at,
    {
        let high = match nibble(text[at]) {
            Some(high) => high,
            None => return None,
        };
        let low = match nibble(text[at + 1]) {
            Some(low) => low,
            None => return None,
        };
        bytes.push(high * 16 + low);
        at = at + 2;
    }
    proof {
        let expected = Seq::new(
            text@.len() / 2,
            |i: int| (nibble_of(text@[2 * i]) * 16 + nibble_of(text@[2 * i + 1])) as u8,
        );
        assert(bytes@ =~= expected);
    }
    Some(bytes)
}

// ---------------------------------------------------------------------------
// An identity
// ---------------------------------------------------------------------------

/// An object ID a conversion cannot use.
#[derive(Clone, PartialEq, Eq, Debug)]
pub enum Error {
    /// The stream carried no object ID for this commit.
    NoObjectId,
    /// What the stream carried was not hex.
    NotAnObjectId {
        /// What it said.
        oid: String,
    },
    /// Hex, but too little of it to name a change.
    TooShort {
        /// What it said.
        oid: String,
        /// How many bytes that came to.
        bytes: usize,
    },
}

/// An [`Error`], as a contract speaks of it.
pub enum ErrorView {
    NoObjectId,
    NotAnObjectId { oid: Seq<char> },
    TooShort { oid: Seq<char>, bytes: usize },
}

impl View for Error {
    type V = ErrorView;

    open spec fn view(&self) -> ErrorView {
        match self {
            Error::NoObjectId => ErrorView::NoObjectId,
            Error::NotAnObjectId { oid } => ErrorView::NotAnObjectId { oid: oid@ },
            Error::TooShort { oid, bytes } => ErrorView::TooShort { oid: oid@, bytes: *bytes },
        }
    }
}

/// What the message for a refusal says.
pub open spec fn said(e: ErrorView) -> Seq<char> {
    match e {
        ErrorView::NoObjectId => NO_OBJECT_ID@,
        ErrorView::NotAnObjectId { oid } => seq!['`'] + oid + NOT_HEX@,
        ErrorView::TooShort { oid, bytes } => seq!['`'] + oid + IS@ + crate::bytes::chars_of(
            crate::stream::write::decimal(bytes as nat),
        ) + NEEDS@,
    }
}

pub const NO_OBJECT_ID: &'static str = "this commit carries no object ID — the export must be written with `--show-original-ids`, which is what a change is derived from";

pub const NOT_HEX: &'static str = "` is not an object ID: it is not hex";

pub const IS: &'static str = "` is ";

pub const NEEDS: &'static str = " bytes, and a change ID needs 12";

impl Error {
    /// What went wrong, for a person to read.
    pub fn to_string(&self) -> (message: String)
        ensures
            message@ == said(self@),
    {
        match self {
            Error::NoObjectId => String::from_str(NO_OBJECT_ID),
            Error::NotAnObjectId { oid } => {
                let mut message = String::from_str("`");
                message.append(oid.as_str());
                message.append(NOT_HEX);
                proof {
                    reveal_strlit("`");
                }
                message
            },
            Error::TooShort { oid, bytes } => {
                let mut digits: Vec<u8> = Vec::new();
                crate::stream::write::push_decimal(&mut digits, *bytes as u64);
                proof {
                    crate::carried::lemma_decimal_ascii(*bytes as nat);
                }
                let count = crate::bytes::text_of(&digits);
                let mut message = String::from_str("`");
                message.append(oid.as_str());
                message.append(IS);
                message.append(count.as_str());
                message.append(NEEDS);
                proof {
                    reveal_strlit("`");
                }
                message
            },
        }
    }
}

/// The change bytes an object ID gives: its first twelve.
pub open spec fn change_bytes(oid: Seq<u8>) -> Seq<u8> {
    oid.subrange(0, 12)
}

/// Eight bytes, the most significant first.
pub open spec fn big_endian(n: nat, count: nat) -> Seq<u8>
    decreases count,
{
    if count == 0 {
        Seq::empty()
    } else {
        big_endian(n / 256, (count - 1) as nat).push((n % 256) as u8)
    }
}

/// The bytes a commit's identity hands out from its `from`th draw: one
/// SHA-256 digest of the object ID and the draw's number per draw.
pub open spec fn drawn_blocks(oid: Seq<u8>, from: nat, count: nat) -> Seq<u8>
    decreases count,
{
    if count == 0 {
        Seq::empty()
    } else {
        drawn_blocks(oid, from, (count - 1) as nat) + sha256_of(
            oid + big_endian((from + count - 1) as nat, 8),
        )
    }
}

/// How many draws `len` bytes take.
pub open spec fn draws(len: nat) -> nat {
    (len + 31) / 32
}

fn big_endian_exec(n: u64, count: usize) -> (bytes: Vec<u8>)
    ensures
        bytes@ == big_endian(n as nat, count as nat),
    decreases count,
{
    if count == 0 {
        Vec::new()
    } else {
        let mut bytes = big_endian_exec(n / 256, count - 1);
        bytes.push((n % 256) as u8);
        bytes
    }
}

/// The identifiers one commit converts to.
#[derive(Debug)]
pub struct Identity {
    /// The commit's object ID, as bytes.
    oid: Vec<u8>,
    /// How many identifiers have been drawn, so that two files minted under one
    /// commit do not collide.
    drawn: u64,
}

impl Identity {
    /// The object ID's bytes.
    pub closed spec fn oid(&self) -> Seq<u8> {
        self.oid@
    }

    /// How many draws have been made.
    pub closed spec fn drawn(&self) -> nat {
        self.drawn as nat
    }

    #[verifier::type_invariant]
    spec fn names_a_change(&self) -> bool {
        self.oid@.len() >= 12
    }

    /// The identifiers for a commit the stream carried an object ID for.
    ///
    /// A stream written without `--show-original-ids` carries none, and is
    /// refused here rather than quietly minted around: a conversion that fell
    /// back to entropy would produce a store that looks right and converges
    /// with nothing.
    pub fn of(commit: &Commit) -> (identity: Result<Identity, Error>)
        ensures
            match commit@.original_oid {
                None => identity matches Err(e) && e@ == ErrorView::NoObjectId,
                Some(oid) => from_oid_spec(oid, identity),
            },
    {
        match &commit.original_oid {
            None => Err(Error::NoObjectId),
            Some(oid) => Identity::from_oid(oid.as_str()),
        }
    }

    /// The identifiers for an object ID, spelled in hex as git spells it.
    pub fn from_oid(oid: &str) -> (identity: Result<Identity, Error>)
        ensures
            from_oid_spec(oid@, identity),
    {
        let raw = oid.as_bytes();
        let bytes = match unhex(raw) {
            Some(bytes) => bytes,
            None => return Err(Error::NotAnObjectId { oid: oid.to_owned() }),
        };
        if bytes.len() < 12 {
            return Err(Error::TooShort { oid: oid.to_owned(), bytes: bytes.len() });
        }
        Ok(Identity { oid: bytes, drawn: 0 })
    }

    /// The change this commit is, which does not depend on how many identifiers
    /// have been drawn — the change may be asked for at any point, and twice for
    /// one commit must answer twice the same.
    pub fn change_id(&self) -> (id: historica::core::ChangeId)
        ensures
            id == change_id_of(change_bytes(self.oid())),
    {
        proof {
            use_type_invariant(self);
        }
        let mut bytes = [0u8; 12];
        let mut at: usize = 0;
        while at < 12
            invariant
                self.oid@.len() >= 12,
                at <= 12,
                forall|i: int| 0 <= i < at ==> bytes@[i] == self.oid@[i],
            decreases 12 - at,
        {
            bytes[at] = self.oid[at];
            at = at + 1;
        }
        proof {
            assert(bytes@ =~= change_bytes(self.oid@));
        }
        change_from_bytes(bytes)
    }

    /// Bytes nobody chose, but everybody can recompute: `SHA-256` of the object
    /// ID and a counter, which is a derivation a person can check with the
    /// `shasum` they already have.
    ///
    /// Only file identifiers reach this — the change is [`Identity::change_id`]
    /// — and they are drawn in the order historica asks for them, which is the
    /// one coupling this design has.
    pub fn fill(&mut self, len: usize) -> (bytes: Vec<u8>)
        requires
            old(self).drawn() + draws(len as nat) <= u64::MAX,
        ensures
            final(self).oid() == old(self).oid(),
            final(self).drawn() == old(self).drawn() + draws(len as nat),
            bytes@ == drawn_blocks(old(self).oid(), old(self).drawn(), draws(len as nat)).subrange(
                0,
                len as int,
            ),
    {
        proof {
            use_type_invariant(&*self);
        }
        let ghost start = self.drawn as nat;
        let mut out: Vec<u8> = Vec::new();
        let mut all: Ghost<Seq<u8>> = Ghost(Seq::empty());
        while out.len() < len
            invariant
                self.oid@ == old(self).oid@,
                self.oid@.len() >= 12,
                start == old(self).drawn,
                start + draws(len as nat) <= u64::MAX,
                start <= self.drawn,
                all@ == drawn_blocks(self.oid@, start, (self.drawn - start) as nat),
                all@.len() == 32 * (self.drawn - start),
                out@.len() <= len,
                out@.len() < len ==> out@.len() == all@.len(),
                out@ == all@.subrange(0, out@.len() as int),
                out@.len() == len ==> self.drawn - start == draws(len as nat),
                out@.len() < len ==> (self.drawn - start) * 32 < len + 32 && self.drawn - start
                    < draws(len as nat),
            decreases len - out@.len(),
        {
            let mut data = crate::bytes::copy(&self.oid);
            let counter = big_endian_exec(self.drawn, 8);
            crate::bytes::extend(&mut data, &counter);
            let block = sha256(&data);
            proof {
                all@ = all@ + block@;
                assert(all@ == drawn_blocks(self.oid@, start, (self.drawn + 1 - start) as nat));
            }
            self.drawn = self.drawn + 1;
            let taking = if len - out.len() < 32 {
                len - out.len()
            } else {
                32
            };
            let mut at: usize = 0;
            let ghost before = out@;
            while at < taking
                invariant
                    at <= taking <= 32,
                    out@ == before + block@.subrange(0, at as int),
                decreases taking - at,
            {
                out.push(block[at]);
                at = at + 1;
                assert(block@.subrange(0, at as int) == block@.subrange(0, at - 1).push(block@[at - 1]));
            }
            proof {
                assert(out@ =~= all@.subrange(0, out@.len() as int));
            }
        }
        out
    }
}

/// What reading an object ID gives: an identity on its bytes with nothing
/// drawn yet, or the refusal that says why not.
pub open spec fn from_oid_spec(oid: Seq<char>, identity: Result<Identity, Error>) -> bool {
    let bytes = unhex_of(vstd::utf8::encode_utf8(oid));
    match identity {
        Ok(id) => bytes == Some(id.oid()) && id.oid().len() >= 12 && id.drawn() == 0,
        Err(e) => match bytes {
            None => e@ == ErrorView::NotAnObjectId { oid },
            Some(b) => b.len() < 12 && e@ == (ErrorView::TooShort { oid, bytes: b.len() as usize }),
        },
    }
}

} // verus!
