//! The fast-import stream: what git says a repository is when asked in text.
//!
//! Reading a repository is `git fast-export` writing this stream; writing one
//! is `git fast-import` reading it. There is no git library here and no git
//! object is ever written by this crate.
//!
//! The model below is the stream's own vocabulary rather than a translation of
//! it: what arrives here is what git said, spelled the way git spelled it. Paths
//! are bytes, because git's are.

pub mod quote;
pub mod text;
pub mod grammar;
pub mod read;
pub mod write;
pub mod both_ways;

pub use quote::{quote, unquote, Unquoted};
pub use read::{Error, Reader};
pub use write::Writer;

use vstd::prelude::*;

verus! {

/// A mark: the stream's own name for an object it has just described, so that
/// later commands can refer to it before git has assigned it an object ID.
#[derive(Clone, Copy, PartialEq, Eq, PartialOrd, Ord, Debug, Hash, Structural)]
pub struct Mark(pub u64);

/// How a command names content it did not just write inline.
#[derive(Clone, PartialEq, Eq, Debug)]
pub enum DataRef {
    /// `:7` — a mark set earlier in this stream.
    Mark(Mark),
    /// A hex object ID, for content the stream did not carry. `git fast-export
    /// --no-data` produces these, as does `--reference-excluded-parents`.
    Oid(String),
}

/// The file modes the stream can state, which are git's.
#[derive(Clone, Copy, PartialEq, Eq, Debug, Structural)]
pub enum Mode {
    /// `100644` — an ordinary file.
    File,
    /// `100755` — a file with the executable bit.
    Executable,
    /// `120000` — a symbolic link, whose content is the target path.
    Symlink,
    /// `160000` — a commit of another repository: a submodule.
    Gitlink,
    /// `040000` — a subdirectory, which only `--full-tree` streams state.
    Directory,
}

/// The mode as the stream spells it.
pub open spec fn mode_text(mode: Mode) -> &'static str {
    match mode {
        Mode::File => "100644",
        Mode::Executable => "100755",
        Mode::Symlink => "120000",
        Mode::Gitlink => "160000",
        Mode::Directory => "040000",
    }
}

impl Mode {
    /// The mode as the stream spells it.
    pub fn as_str(self) -> (spelled: &'static str)
        ensures
            spelled == mode_text(self),
    {
        match self {
            Mode::File => "100644",
            Mode::Executable => "100755",
            Mode::Symlink => "120000",
            Mode::Gitlink => "160000",
            Mode::Directory => "040000",
        }
    }
}

/// Who did something, and when they say they did it.
///
/// The time is the stream's `raw` format — seconds since the epoch and the
/// offset the person was at — kept as the two numbers rather than resolved into
/// one instant, because the offset is a fact about the commit that resolving
/// would throw away.
#[derive(Clone, PartialEq, Eq, Debug)]
pub struct Person {
    /// The name, which git allows to be empty.
    pub name: Vec<u8>,
    /// The address between the angle brackets.
    pub email: Vec<u8>,
    /// Seconds since the Unix epoch.
    pub seconds: i64,
    /// Minutes east of UTC: `-0700` is `-420`.
    pub offset_minutes: i32,
}

/// One thing a commit did to the tree.
#[derive(Clone, PartialEq, Eq, Debug)]
pub enum Change {
    /// `M <mode> <dataref> <path>` — a file put at a path, whether or not it
    /// was there before.
    Modify {
        /// The mode the file takes.
        mode: Mode,
        /// The content, either named or carried inline by `inline`.
        content: Content,
        /// Where it goes.
        path: Vec<u8>,
    },
    /// `D <path>` — a file or directory removed.
    Delete {
        /// What is removed.
        path: Vec<u8>,
    },
    /// `R <source> <destination>` — a rename, which `git fast-export -M`
    /// produces and which historica records as a rename too.
    Rename {
        /// Where it was.
        source: Vec<u8>,
        /// Where it now is.
        destination: Vec<u8>,
    },
    /// `C <source> <destination>` — a copy, from `-C`.
    Copy {
        /// What was copied.
        source: Vec<u8>,
        /// The new path, the source keeping its own.
        destination: Vec<u8>,
    },
    /// `deleteall` — the tree is emptied, and what follows states it whole.
    DeleteAll,
    /// `N <dataref> <commit>` — a note attached to a commit.
    Note {
        /// The note's text.
        content: Content,
        /// What it is a note about.
        commit: DataRef,
    },
}

/// Content a command names, or carries itself.
#[derive(Clone, PartialEq, Eq, Debug)]
pub enum Content {
    /// Named by mark or object ID.
    Named(DataRef),
    /// `inline`, followed by the bytes themselves.
    Inline(Vec<u8>),
}

/// `blob` — content, filed under a mark for later commands to point at.
#[derive(Clone, PartialEq, Eq, Debug)]
pub struct Blob {
    /// The mark this blob is filed under, if it was given one.
    pub mark: Option<Mark>,
    /// `original-oid`, from `--show-original-ids`.
    pub original_oid: Option<String>,
    /// The bytes.
    pub data: Vec<u8>,
}

/// `gpgsig` — a commit's signature, carried verbatim.
#[derive(Clone, PartialEq, Eq, Debug)]
pub struct Signature {
    /// What the signature is, as git states it: `sha1 openpgp`.
    pub kind: Vec<u8>,
    /// The signature's bytes, armour and all.
    pub data: Vec<u8>,
}

/// `commit` — one revision, and what it did.
#[derive(Clone, PartialEq, Eq, Debug)]
pub struct Commit {
    /// The ref this commit is committed to, such as `refs/heads/main`.
    pub reference: Vec<u8>,
    /// The mark it is filed under, if any.
    pub mark: Option<Mark>,
    /// `original-oid`, from `--show-original-ids`.
    pub original_oid: Option<String>,
    /// Who wrote it. Absent when git had only a committer to state.
    pub author: Option<Person>,
    /// Who committed it. Git always states this one.
    pub committer: Person,
    /// `encoding`, when the message is not UTF-8.
    pub encoding: Option<Vec<u8>>,
    /// `gpgsig`, from `--signed-commits=verbatim`.
    pub signature: Option<Signature>,
    /// The message, exactly as it was, without a trailing newline added or
    /// removed.
    pub message: Vec<u8>,
    /// The first parent, absent on a root commit.
    pub from: Option<DataRef>,
    /// Every further parent. Git allows more than one, so this is a list and
    /// not a second `Option`.
    pub merges: Vec<DataRef>,
    /// What the commit did, in the order it was stated.
    pub changes: Vec<Change>,
}

/// `tag` — an annotated tag.
#[derive(Clone, PartialEq, Eq, Debug)]
pub struct Tag {
    /// The tag's name, without `refs/tags/`.
    pub name: Vec<u8>,
    /// The mark, from `--mark-tags`.
    pub mark: Option<Mark>,
    /// What it tags.
    pub from: DataRef,
    /// `original-oid`, from `--show-original-ids`. It comes after `from` here
    /// rather than after `mark` as it does on a blob or a commit, because that
    /// is where git writes it.
    pub original_oid: Option<String>,
    /// Who made it. A tag written without one says so.
    pub tagger: Option<Person>,
    /// The tag message.
    pub message: Vec<u8>,
}

/// `reset` — a ref moved, with no commit of its own. Lightweight tags and
/// branch creation both arrive this way.
#[derive(Clone, PartialEq, Eq, Debug)]
pub struct Reset {
    /// The ref being moved.
    pub reference: Vec<u8>,
    /// Where it is moved to. Absent when the reset only deletes.
    pub from: Option<DataRef>,
}

/// One command from the stream.
///
/// The commands git's own frontends use to talk back to git — `checkpoint`,
/// `get-mark`, `cat-blob`, `ls`, `alias` — are not here. They cannot appear in
/// `git fast-export` output, and reading them would mean answering them.
#[derive(Clone, PartialEq, Eq, Debug)]
pub enum Command {
    /// Content.
    Blob(Blob),
    /// A revision.
    Commit(Commit),
    /// An annotated tag.
    Tag(Tag),
    /// A ref moved.
    Reset(Reset),
    /// `progress` — a line git echoes back untouched, for a person watching.
    Progress(Vec<u8>),
    /// `feature` — something the stream requires of whoever reads it.
    Feature(Vec<u8>),
    /// `option` — something the stream asks of whoever reads it.
    Option(Vec<u8>),
    /// `done` — the stream says it ended, rather than merely stopping.
    Done,
}

// ---------------------------------------------------------------------------
// The same vocabulary, as values a contract can speak of
// ---------------------------------------------------------------------------

/// A [`DataRef`], as a contract speaks of it.
pub enum DataRefView {
    /// A mark.
    Mark(Mark),
    /// An object ID, as its characters.
    Oid(Seq<char>),
}

/// A [`Person`], as a contract speaks of it.
pub struct PersonView {
    /// The name's bytes.
    pub name: Seq<u8>,
    /// The address's bytes.
    pub email: Seq<u8>,
    /// Seconds since the Unix epoch.
    pub seconds: i64,
    /// Minutes east of UTC.
    pub offset_minutes: i32,
}

/// A [`Content`], as a contract speaks of it.
pub enum ContentView {
    /// Named by mark or object ID.
    Named(DataRefView),
    /// Carried inline.
    Inline(Seq<u8>),
}

/// A [`Change`], as a contract speaks of it.
pub enum ChangeView {
    /// `M`.
    Modify { mode: Mode, content: ContentView, path: Seq<u8> },
    /// `D`.
    Delete { path: Seq<u8> },
    /// `R`.
    Rename { source: Seq<u8>, destination: Seq<u8> },
    /// `C`.
    Copy { source: Seq<u8>, destination: Seq<u8> },
    /// `deleteall`.
    DeleteAll,
    /// `N`.
    Note { content: ContentView, commit: DataRefView },
}

/// A [`Blob`], as a contract speaks of it.
pub struct BlobView {
    /// The mark.
    pub mark: Option<Mark>,
    /// `original-oid`.
    pub original_oid: Option<Seq<char>>,
    /// The bytes.
    pub data: Seq<u8>,
}

/// A [`Signature`], as a contract speaks of it.
pub struct SignatureView {
    /// What the signature is.
    pub kind: Seq<u8>,
    /// Its bytes.
    pub data: Seq<u8>,
}

/// A [`Commit`], as a contract speaks of it.
pub struct CommitView {
    /// The ref.
    pub reference: Seq<u8>,
    /// The mark.
    pub mark: Option<Mark>,
    /// `original-oid`.
    pub original_oid: Option<Seq<char>>,
    /// The author.
    pub author: Option<PersonView>,
    /// The committer.
    pub committer: PersonView,
    /// `encoding`.
    pub encoding: Option<Seq<u8>>,
    /// `gpgsig`.
    pub signature: Option<SignatureView>,
    /// The message.
    pub message: Seq<u8>,
    /// The first parent.
    pub from: Option<DataRefView>,
    /// Every further parent.
    pub merges: Seq<DataRefView>,
    /// What the commit did.
    pub changes: Seq<ChangeView>,
}

/// A [`Tag`], as a contract speaks of it.
pub struct TagView {
    /// The name.
    pub name: Seq<u8>,
    /// The mark.
    pub mark: Option<Mark>,
    /// What it tags.
    pub from: DataRefView,
    /// `original-oid`.
    pub original_oid: Option<Seq<char>>,
    /// The tagger.
    pub tagger: Option<PersonView>,
    /// The message.
    pub message: Seq<u8>,
}

/// A [`Reset`], as a contract speaks of it.
pub struct ResetView {
    /// The ref.
    pub reference: Seq<u8>,
    /// Where it moves.
    pub from: Option<DataRefView>,
}

/// A [`Command`], as a contract speaks of it.
pub enum CommandView {
    /// Content.
    Blob(BlobView),
    /// A revision.
    Commit(CommitView),
    /// An annotated tag.
    Tag(TagView),
    /// A ref moved.
    Reset(ResetView),
    /// `progress`.
    Progress(Seq<u8>),
    /// `feature`.
    Feature(Seq<u8>),
    /// `option`.
    Option(Seq<u8>),
    /// `done`.
    Done,
}

/// The characters of an optional string.
pub open spec fn option_text(text: Option<String>) -> Option<Seq<char>> {
    match text {
        Some(text) => Some(text@),
        None => None,
    }
}

/// The view of an optional value.
pub open spec fn option_view<T: View>(value: Option<T>) -> Option<T::V> {
    match value {
        Some(value) => Some(value@),
        None => None,
    }
}

impl View for DataRef {
    type V = DataRefView;

    open spec fn view(&self) -> DataRefView {
        match self {
            DataRef::Mark(mark) => DataRefView::Mark(*mark),
            DataRef::Oid(oid) => DataRefView::Oid(oid@),
        }
    }
}

impl View for Person {
    type V = PersonView;

    open spec fn view(&self) -> PersonView {
        PersonView {
            name: self.name@,
            email: self.email@,
            seconds: self.seconds,
            offset_minutes: self.offset_minutes,
        }
    }
}

impl View for Content {
    type V = ContentView;

    open spec fn view(&self) -> ContentView {
        match self {
            Content::Named(named) => ContentView::Named(named@),
            Content::Inline(bytes) => ContentView::Inline(bytes@),
        }
    }
}

impl View for Change {
    type V = ChangeView;

    open spec fn view(&self) -> ChangeView {
        match self {
            Change::Modify { mode, content, path } => ChangeView::Modify {
                mode: *mode,
                content: content@,
                path: path@,
            },
            Change::Delete { path } => ChangeView::Delete { path: path@ },
            Change::Rename { source, destination } => ChangeView::Rename {
                source: source@,
                destination: destination@,
            },
            Change::Copy { source, destination } => ChangeView::Copy {
                source: source@,
                destination: destination@,
            },
            Change::DeleteAll => ChangeView::DeleteAll,
            Change::Note { content, commit } => ChangeView::Note {
                content: content@,
                commit: commit@,
            },
        }
    }
}

impl View for Blob {
    type V = BlobView;

    open spec fn view(&self) -> BlobView {
        BlobView {
            mark: self.mark,
            original_oid: option_text(self.original_oid),
            data: self.data@,
        }
    }
}

impl View for Signature {
    type V = SignatureView;

    open spec fn view(&self) -> SignatureView {
        SignatureView { kind: self.kind@, data: self.data@ }
    }
}

impl View for Commit {
    type V = CommitView;

    open spec fn view(&self) -> CommitView {
        CommitView {
            reference: self.reference@,
            mark: self.mark,
            original_oid: option_text(self.original_oid),
            author: option_view(self.author),
            committer: self.committer@,
            encoding: option_view(self.encoding),
            signature: option_view(self.signature),
            message: self.message@,
            from: option_view(self.from),
            merges: self.merges@.map_values(|named: DataRef| named@),
            changes: self.changes@.map_values(|change: Change| change@),
        }
    }
}

impl View for Tag {
    type V = TagView;

    open spec fn view(&self) -> TagView {
        TagView {
            name: self.name@,
            mark: self.mark,
            from: self.from@,
            original_oid: option_text(self.original_oid),
            tagger: option_view(self.tagger),
            message: self.message@,
        }
    }
}

impl View for Reset {
    type V = ResetView;

    open spec fn view(&self) -> ResetView {
        ResetView { reference: self.reference@, from: option_view(self.from) }
    }
}

impl View for Command {
    type V = CommandView;

    open spec fn view(&self) -> CommandView {
        match self {
            Command::Blob(blob) => CommandView::Blob(blob@),
            Command::Commit(commit) => CommandView::Commit(commit@),
            Command::Tag(tag) => CommandView::Tag(tag@),
            Command::Reset(reset) => CommandView::Reset(reset@),
            Command::Progress(line) => CommandView::Progress(line@),
            Command::Feature(line) => CommandView::Feature(line@),
            Command::Option(line) => CommandView::Option(line@),
            Command::Done => CommandView::Done,
        }
    }
}

} // verus!
