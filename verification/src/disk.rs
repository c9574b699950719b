//! What is on a disk, and what is to be done to it.
//!
//! The library reads and writes no file. It is told what was found at each
//! path it asks about, and answers with the one change to make.

use vstd::prelude::*;
use crate::failure::Failure;
use crate::number;
use crate::text;

verus! {

/// What was found at a path.
#[derive(Debug)]
pub enum Found {
    /// Nothing.
    Missing,
    /// A file with these bytes.
    Bytes(Vec<u8>),
    /// Something that could not be read, and why. It may still be there.
    Unreadable { there: bool, why: String },
}

/// What was found at a path, as a value.
pub enum Seen {
    Missing,
    Bytes(Seq<u8>),
    Unreadable { there: bool, why: Seq<char> },
}

impl View for Found {
    type V = Seen;

    open spec fn view(&self) -> Seen {
        match self {
            Found::Missing => Seen::Missing,
            Found::Bytes(b) => Seen::Bytes(b@),
            Found::Unreadable { there, why } => Seen::Unreadable { there: *there, why: why@ },
        }
    }
}

/// What was found at each of some paths. At any other path there is nothing.
#[derive(Debug)]
pub struct Disk {
    pub files: Vec<(String, Found)>,
}

/// What a list of findings says about a path: the first that names it.
pub open spec fn seen_at(files: Seq<(String, Found)>, path: Seq<char>) -> Seen
    decreases files.len(),
{
    if files.len() == 0 {
        Seen::Missing
    } else if files[0].0@ == path {
        files[0].1@
    } else {
        seen_at(files.skip(1), path)
    }
}

/// Whether there is something at a path.
pub open spec fn is_there(s: Seen) -> bool {
    match s {
        Seen::Missing => false,
        Seen::Bytes(_) => true,
        Seen::Unreadable { there, .. } => there,
    }
}

/// What is said of a file that is not UTF-8.
pub open spec fn not_text(path: Seq<char>, at: int) -> Seq<char> {
    path + " is not UTF-8 (at byte "@ + number::decimal(at as nat) + "); it was left as it is"@
}

/// The text of a file: nothing where there is none, and an error where it
/// cannot be read, or read as text.
pub open spec fn text_at(s: Seen, path: Seq<char>) -> Result<Option<Seq<char>>, Seq<Seq<char>>> {
    match s {
        Seen::Missing => Ok(None),
        Seen::Bytes(b) => if vstd::utf8::valid_utf8(b) {
            Ok(Some(vstd::utf8::decode_utf8(b)))
        } else {
            Err(seq![not_text(path, text::valid_prefix(b, b.len() as int))])
        },
        Seen::Unreadable { why, .. } => Err(seq!["reading "@ + path, why]),
    }
}

impl Disk {
    /// What was found at a path.
    pub open spec fn at(self, path: Seq<char>) -> Seen {
        seen_at(self.files@, path)
    }

    /// The whole of what was found, as a function of the path.
    pub open spec fn all(self) -> spec_fn(Seq<char>) -> Seen {
        |path: Seq<char>| seen_at(self.files@, path)
    }

    /// What was found at a path, if anything was said of it.
    pub fn look(&self, path: &str) -> (r: Option<&Found>)
        ensures
            match r {
                Some(f) => f@ == self.at(path@),
                None => self.at(path@) == Seen::Missing,
            },
    {
        let mut i: usize = 0;
        assert(self.files@.skip(0) =~= self.files@);
        while i < self.files.len()
            invariant
                i <= self.files@.len(),
                self.at(path@) == seen_at(self.files@.skip(i as int), path@),
            decreases self.files@.len() - i,
        {
            assert(self.files@.skip(i as int)[0] == self.files@[i as int]);
            if text::same(&self.files[i].0, path) {
                return Some(&self.files[i].1);
            }
            assert(self.files@.skip(i as int).skip(1) =~= self.files@.skip(i + 1));
            i += 1;
        }
        None
    }

    /// Whether there is something at a path.
    pub fn is_there(&self, path: &str) -> (r: bool)
        ensures
            r == is_there(self.at(path@)),
    {
        match self.look(path) {
            None => false,
            Some(f) => match f {
                Found::Missing => false,
                Found::Bytes(_) => true,
                Found::Unreadable { there, .. } => *there,
            },
        }
    }

    /// Whether there is a file at a path with exactly these bytes.
    pub fn holds(&self, path: &str, bytes: &[u8]) -> (r: bool)
        ensures
            r == (self.at(path@) == Seen::Bytes(bytes@)),
    {
        match self.look(path) {
            Some(Found::Bytes(b)) => text::same_bytes(b, bytes),
            _ => false,
        }
    }

    /// Why the file at a path cannot be read, if it cannot.
    pub fn trouble(&self, path: &str) -> (r: Option<Failure>)
        ensures
            match r {
                Some(e) => self.at(path@) matches Seen::Unreadable { why, .. } && e@ == seq![
                    "reading "@ + path@,
                    why,
                ],
                None => !(self.at(path@) is Unreadable),
            },
    {
        match self.look(path) {
            Some(Found::Unreadable { why, .. }) => {
                let mut doing = text::owned("reading ");
                doing.append(path);
                let e = Failure::new(why).context(&doing);
                assert(e@ =~= seq!["reading "@ + path@, why@]);
                Some(e)
            },
            _ => None,
        }
    }
}

/// The text of a file, or `None` when there is no such file.
///
/// Anything else that goes wrong is an error, a file that is not UTF-8 among
/// it: read as empty, the write that followed would leave nothing in the file
/// but what was added to it.
pub fn read_text(disk: &Disk, path: &str) -> (r: Result<Option<String>, Failure>)
    ensures
        match r {
            Ok(t) => text_at(disk.at(path@), path@) == Ok::<Option<Seq<char>>, Seq<Seq<char>>>(
                text::opt(t),
            ),
            Err(e) => text_at(disk.at(path@), path@) == Err::<Option<Seq<char>>, Seq<Seq<char>>>(e@),
        },
{
    match disk.trouble(path) {
        Some(e) => return Err(e),
        None => {},
    }
    match disk.look(path) {
        Some(Found::Bytes(b)) => match text::decoded(text::bytes_of(b)) {
            Ok(t) => Ok(Some(t)),
            Err(n) => {
                let mut why = text::owned(path);
                why.append(" is not UTF-8 (at byte ");
                why.append(&number::decimal_of(n as u128));
                why.append("); it was left as it is");
                Err(Failure::new(&why))
            },
        },
        _ => Ok(None),
    }
}

/// The text of a file that is read whole: nothing where there is none.
pub open spec fn whole_text(s: Seen, path: Seq<char>) -> Result<Option<Seq<char>>, Seq<Seq<char>>> {
    match s {
        Seen::Missing => Ok(None),
        Seen::Bytes(b) => if vstd::utf8::valid_utf8(b) {
            Ok(Some(vstd::utf8::decode_utf8(b)))
        } else {
            Err(seq!["reading "@ + path, "stream did not contain valid UTF-8"@])
        },
        Seen::Unreadable { why, .. } => Err(seq!["reading "@ + path, why]),
    }
}

/// The text of a file that is read whole, or `None` when there is no such file.
///
/// Only "not found" is `None`. A byte that is not UTF-8, or a failure to read,
/// is an error: read as empty it would be a list with nothing in it.
pub fn read_whole(disk: &Disk, path: &str) -> (r: Result<Option<String>, Failure>)
    ensures
        match r {
            Ok(t) => whole_text(disk.at(path@), path@) == Ok::<Option<Seq<char>>, Seq<Seq<char>>>(
                text::opt(t),
            ),
            Err(e) => whole_text(disk.at(path@), path@) == Err::<Option<Seq<char>>, Seq<Seq<char>>>(
                e@,
            ),
        },
{
    match disk.trouble(path) {
        Some(e) => return Err(e),
        None => {},
    }
    match disk.look(path) {
        Some(Found::Bytes(b)) => match text::decoded(text::bytes_of(b)) {
            Ok(t) => Ok(Some(t)),
            Err(_) => {
                let mut doing = text::owned("reading ");
                doing.append(path);
                let e = Failure::new("stream did not contain valid UTF-8").context(&doing);
                assert(e@ =~= seq!["reading "@ + path@, "stream did not contain valid UTF-8"@]);
                Err(e)
            },
        },
        _ => Ok(None),
    }
}

/// A change to make to the disk.
#[derive(Debug)]
pub enum Change {
    /// None: it is as it should be.
    Nothing,
    /// Put these bytes at `path`, in place of what is there. Where `keep` is
    /// given, what is there is copied to that path first; without the copy
    /// nothing may be written.
    Write { path: String, bytes: Vec<u8>, keep: Option<String> },
    /// Remove the file at `path`.
    Remove { path: String },
    /// Put the file at `backup` back at `path`, and drop it.
    PutBack { path: String, backup: String },
}

/// A change to make, as a value.
pub enum Act {
    Nothing,
    Write { path: Seq<char>, bytes: Seq<u8>, keep: Option<Seq<char>> },
    Remove { path: Seq<char> },
    PutBack { path: Seq<char>, backup: Seq<char> },
}

impl View for Change {
    type V = Act;

    open spec fn view(&self) -> Act {
        match self {
            Change::Nothing => Act::Nothing,
            Change::Write { path, bytes, keep } => Act::Write {
                path: path@,
                bytes: bytes@,
                keep: text::opt(*keep),
            },
            Change::Remove { path } => Act::Remove { path: path@ },
            Change::PutBack { path, backup } => Act::PutBack { path: path@, backup: backup@ },
        }
    }
}

/// A disk after a change was made to it.
pub open spec fn after(d: spec_fn(Seq<char>) -> Seen, act: Act) -> spec_fn(Seq<char>) -> Seen {
    match act {
        Act::Nothing => d,
        Act::Write { path, bytes, keep } => |p: Seq<char>|
            if p == path {
                Seen::Bytes(bytes)
            } else if keep == Some(p) {
                d(path)
            } else {
                d(p)
            },
        Act::Remove { path } => |p: Seq<char>|
            if p == path {
                Seen::Missing
            } else {
                d(p)
            },
        Act::PutBack { path, backup } => |p: Seq<char>|
            if p == path {
                d(backup)
            } else if p == backup {
                Seen::Missing
            } else {
                d(p)
            },
    }
}

} // verus!
