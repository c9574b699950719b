//! Which KNULLI this build was checked against, and what to do when it moves.
//!
//! Every patch is a bet about a file somebody else ships, and an OS update is free
//! to move any of it. When it does, a patch does not fail loudly: it writes a key
//! nothing reads any more, and reports itself on. So the build records the version
//! it was checked against and says so, and refuses to apply anything against a
//! KNULLI it has never seen.

use vstd::prelude::*;
use crate::disk;
use crate::disk::{Disk, Found};
use crate::lines;
use crate::patch::Paths;
use crate::paths;
use crate::text;

verus! {

/// The KNULLI these patches were read against and tested on.
pub const BUILT_FOR: &'static str = "scarab 2026/05/10 22:54";

/// What the device is running, against what this build knows.
#[derive(Debug, PartialEq, Eq)]
pub enum Verdict {
    /// The KNULLI this build was checked against.
    Same,
    /// A different one. The patches may write keys nothing reads.
    Moved(String),
    /// No version file: not a KNULLI, or a build that stopped shipping one.
    Unknown,
}

/// Where the version is kept, below a root.
pub open spec fn version_path(root: Seq<char>) -> Seq<char> {
    paths::joined(root, "usr/share/knulli/knulli.version"@)
}

/// The version a file of it names: its first line, trimmed, unless that is empty.
pub open spec fn version_in(t: Seq<char>) -> Option<Seq<char>> {
    let ls = lines::lines(t);
    if ls.len() > 0 && text::trim(ls[0]).len() > 0 {
        Some(text::trim(ls[0]))
    } else {
        None
    }
}

/// The version that was found.
pub open spec fn version_at(s: disk::Seen) -> Option<Seq<char>> {
    match s {
        disk::Seen::Bytes(b) => if vstd::utf8::valid_utf8(b) {
            version_in(vstd::utf8::decode_utf8(b))
        } else {
            None
        },
        _ => None,
    }
}

/// The version string on the device, trimmed. `None` when the file is absent.
pub fn installed(disk: &Disk, paths: &Paths) -> (r: Option<String>)
    ensures
        text::opt(r) == version_at(disk.at(version_path(paths.root@))),
{
    let at = paths.knulli_version();
    let t: String = match disk.look(&at) {
        Some(Found::Bytes(b)) => match text::decoded(text::bytes_of(b)) {
            Ok(t) => t,
            Err(_) => {
                return None;
            },
        },
        _ => {
            return None;
        },
    };
    let ls = lines::lines_of(&t);
    if ls.len() == 0 {
        return None;
    }
    assert(text::texts(ls@)[0] == ls@[0]@);
    let line = text::trimmed(&ls[0]);
    if text::is_empty(&line) {
        None
    } else {
        Some(line)
    }
}

/// What the device is running, against what this build knows.
pub fn check(disk: &Disk, paths: &Paths) -> (r: Verdict)
    ensures
        match version_at(disk.at(version_path(paths.root@))) {
            None => r == Verdict::Unknown,
            Some(v) => if v == BUILT_FOR@ {
                r == Verdict::Same
            } else {
                r is Moved && r->Moved_0@ == v
            },
        },
{
    match installed(disk, paths) {
        None => Verdict::Unknown,
        Some(v) => if text::same(&v, BUILT_FOR) {
            Verdict::Same
        } else {
            Verdict::Moved(v)
        },
    }
}

/// What the screen says of a KNULLI that is not the one this build was checked
/// against.
pub open spec fn on_screen(what: Seq<char>) -> Seq<char> {
    "This KNULLI is "@ + what + ". moose-patch was checked against "@ + BUILT_FOR@
        + ", and a patch written for another image can set a key nothing reads. Update moose-patch first. Nothing was written."@
}

/// Whether a text offers to insist.
pub open spec fn offers_to_insist(t: Seq<char>) -> bool {
    text::find(t, "--anyway"@) is Some
}

/// The refusal on the screen offers no way to insist, whatever the version is,
/// unless the version itself reads like one.
pub proof fn law_the_screen_offers_no_insisting(what: Seq<char>)
    requires
        !offers_to_insist(what),
    ensures
        !offers_to_insist(on_screen(what)),
{
    reveal_strlit("--anyway");
    reveal_strlit("This KNULLI is ");
    reveal_strlit(". moose-patch was checked against ");
    reveal_strlit("scarab 2026/05/10 22:54");
    let p = "--anyway"@;
    let a = "This KNULLI is "@;
    let b = ". moose-patch was checked against "@;
    let c = BUILT_FOR@;
    let d = ", and a patch written for another image can set a key nothing reads. Update moose-patch first. Nothing was written."@;
    let t = on_screen(what);
    text::lemma_find_from(what, p, 0);
    let n = a.len() as int;
    let m = n + what.len();
    assert forall|i: int| 0 <= i implies !text::at(t, p, i) by {
        if text::at(t, p, i) {
            let s = t.subrange(i, i + 8);
            assert(s[0] == t[i] && s[1] == t[i + 1]);
            if i < n {
                assert(t[i] == a[i]);
            } else if i + 8 <= m {
                assert(what.subrange(i - n, i - n + 8) =~= s);
                assert(text::at(what, p, i - n));
            } else if i <= m {
                assert(t[m] == b[0]);
                assert(s[m - i] == t[m]);
                assert(p[m - i] != '.');
            } else if i < m + b.len() {
                assert(t[i] == b[i - m]);
                if i + 1 < m + b.len() {
                    assert(t[i + 1] == b[i + 1 - m]);
                }
            } else if i < m + b.len() + c.len() {
                assert(t[i] == c[i - m - b.len()]);
            } else {
                let k = i - m - b.len() - c.len();
                assert(t[i] == d[k] && t[i + 1] == d[k + 1]);
                lemma_no_two_dashes(k);
            }
        }
    }
    text::lemma_find_none(t, p, 0);
}

proof fn lemma_no_two_dashes(k: int)
    requires
        0 <= k,
        k + 1
            < ", and a patch written for another image can set a key nothing reads. Update moose-patch first. Nothing was written."@.len(),
    ensures
        ({
            let d = ", and a patch written for another image can set a key nothing reads. Update moose-patch first. Nothing was written."@;
            !(d[k] == '-' && d[k + 1] == '-')
        }),
{
    reveal_strlit(
        ", and a patch written for another image can set a key nothing reads. Update moose-patch first. Nothing was written.",
    );
}

impl Verdict {
    /// What the screen calls the KNULLI that was found.
    pub open spec fn named(self) -> Seq<char> {
        match self {
            Verdict::Moved(found) => found@,
            _ => "not one this build knows"@,
        }
    }

    /// One line for a status and for the top of the patches tab.
    pub fn line(&self) -> (r: String)
        ensures
            r@ == (match *self {
                Verdict::Same => BUILT_FOR@ + " — the one these patches were made for"@,
                Verdict::Moved(found) => found@ + " — these patches were made for "@ + BUILT_FOR@
                    + "; update moose-patch"@,
                Verdict::Unknown => "not found — these patches were made for "@ + BUILT_FOR@,
            }),
    {
        match self {
            Verdict::Same => {
                let mut s = text::owned(BUILT_FOR);
                s.append(" — the one these patches were made for");
                s
            },
            Verdict::Moved(found) => {
                let mut s = text::owned(found);
                s.append(" — these patches were made for ");
                s.append(BUILT_FOR);
                s.append("; update moose-patch");
                s
            },
            Verdict::Unknown => {
                let mut s = text::owned("not found — these patches were made for ");
                s.append(BUILT_FOR);
                s
            },
        }
    }

    /// Whether applying should go ahead without being asked twice. A KNULLI that
    /// says it is a different KNULLI is the case worth stopping.
    pub fn safe_to_apply(&self) -> (r: bool)
        ensures
            r == !(self is Moved),
    {
        match self {
            Verdict::Moved(_) => false,
            _ => true,
        }
    }

    /// What to print when it is not safe and nobody insisted.
    pub fn refusal(&self) -> (r: String)
        ensures
            r@ == "this KNULLI is "@ + (match *self {
                Verdict::Moved(found) => found@,
                _ => "not the one this build knows"@,
            }) + "\nmoose-patch was checked against "@ + BUILT_FOR@
                + ", and a patch written for another image can silently set a key nothing reads.\nUpdate moose-patch, or pass --anyway if you know the difference does not matter."@,
    {
        let mut s = text::owned("this KNULLI is ");
        match self {
            Verdict::Moved(found) => s.append(found),
            _ => s.append("not the one this build knows"),
        }
        s.append("\nmoose-patch was checked against ");
        s.append(BUILT_FOR);
        s.append(
            ", and a patch written for another image can silently set a key nothing reads.\nUpdate moose-patch, or pass --anyway if you know the difference does not matter.",
        );
        s
    }

    /// The same, for the screen, where there is no insisting.
    pub fn refusal_on_screen(&self) -> (r: String)
        ensures
            r@ == on_screen(self.named()),
            (self matches Verdict::Moved(found) ==> !offers_to_insist(found@)) ==> !offers_to_insist(r@),
    {
        proof {
            reveal_strlit("--anyway");
            reveal_strlit("not one this build knows");
            let what = self.named();
            if !(self is Moved) {
                assert forall|i: int| 0 <= i implies !text::at(what, "--anyway"@, i) by {
                    if text::at(what, "--anyway"@, i) {
                        assert(what.subrange(i, i + 8)[0] == what[i]);
                    }
                }
                text::lemma_find_none(what, "--anyway"@, 0);
            }
            if !offers_to_insist(what) {
                law_the_screen_offers_no_insisting(what);
            }
        }
        let mut s = text::owned("This KNULLI is ");
        match self {
            Verdict::Moved(found) => s.append(found),
            _ => s.append("not one this build knows"),
        }
        s.append(". moose-patch was checked against ");
        s.append(BUILT_FOR);
        s.append(
            ", and a patch written for another image can set a key nothing reads. Update moose-patch first. Nothing was written.",
        );
        s
    }
}

} // verus!
