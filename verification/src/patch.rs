//! Applying, reverting, and reading back.
//!
//! Every patch is a list of steps, and every step is one of two things: a
//! marked block inside a text config, or a file that is ours. Because a step
//! can be asked whether it is already satisfied, a patch can report which of
//! its options the device is at, or that it is at none of them.
//!
//! Reverting is not a special path. "off" is an option like any other, and its
//! steps are "clear that block" and "put that file back", so what applies is
//! also what undoes.

use vstd::prelude::*;
use crate::blocks;
use crate::disk;
use crate::disk::{Change, Disk};
use crate::failure::Failure;
use crate::lines;
use crate::number;
use crate::paths;
use crate::text;

verus! {

/// Where everything lives, below one root.
#[derive(Debug)]
pub struct Paths {
    pub root: String,
}

impl Default for Paths {
    fn default() -> (r: Self)
        ensures
            r.root@ == "/"@,
    {
        Paths { root: text::owned("/") }
    }
}

/// A character of a path as it is in the name of a backup.
pub open spec fn flat_char(c: char) -> char {
    if c == '/' || c == '\\' {
        '_'
    } else {
        c
    }
}

/// A path in one piece: its slashes made underscores.
pub open spec fn flat(p: Seq<char>) -> Seq<char> {
    p.map_values(|c: char| flat_char(c))
}

fn flatten(p: &str) -> (r: String)
    ensures
        r@ == flat(p@),
{
    let c = text::chars_of(p);
    let mut out: String = String::new();
    let mut i: usize = 0;
    while i < c.len()
        invariant
            i <= c@.len(),
            out@ == flat(c@.take(i as int)),
        decreases c@.len() - i,
    {
        let x = if c[i] == '/' || c[i] == '\\' {
            '_'
        } else {
            c[i]
        };
        let ghost before = out@;
        out.push(x);
        assert(flat(c@.take(i + 1)) =~= before.push(x));
        i += 1;
    }
    assert(c@.take(c@.len() as int) =~= c@);
    out
}

impl Paths {
    /// Everything below the given root.
    pub fn new(root: &str) -> (r: Paths)
        ensures
            r.root@ == root@,
    {
        Paths { root: text::owned(root) }
    }

    fn at(&self, rest: &str) -> (r: String)
        ensures
            r@ == paths::joined(self.root@, rest@),
    {
        paths::join(&self.root, rest)
    }

    /// The one file KNULLI reads for almost every setting, and the one that
    /// survives an upgrade.
    pub fn knulli_conf(&self) -> (r: String)
        ensures
            r@ == paths::joined(self.root@, "userdata/system/knulli.conf"@),
    {
        self.at("userdata/system/knulli.conf")
    }

    /// Which KNULLI this is: one line, such as `scarab 2026/05/10 22:54`. An
    /// update of the system replaces it.
    pub fn knulli_version(&self) -> (r: String)
        ensures
            r@ == paths::joined(self.root@, "usr/share/knulli/knulli.version"@),
    {
        self.at("usr/share/knulli/knulli.version")
    }

    /// The hook that runs before EmulationStation.
    pub fn boot_custom(&self) -> (r: String)
        ensures
            r@ == paths::joined(self.root@, "boot/boot-custom.sh"@),
    {
        self.at("boot/boot-custom.sh")
    }

    /// The script that runs at start, in the user's own storage.
    pub fn user_startup(&self) -> (r: String)
        ensures
            r@ == paths::joined(self.root@, "userdata/system/custom.sh"@),
    {
        self.at("userdata/system/custom.sh")
    }

    /// The trigger file that replaces KNULLI's own.
    pub fn trigger_conf(&self) -> (r: String)
        ensures
            r@ == paths::joined(self.root@, "userdata/system/configs/multimedia_keys.conf"@),
    {
        self.at("userdata/system/configs/multimedia_keys.conf")
    }

    /// EmulationStation's input mapping.
    pub fn es_input(&self) -> (r: String)
        ensures
            r@ == paths::joined(self.root@, "userdata/system/configs/emulationstation/es_input.cfg"@),
    {
        self.at("userdata/system/configs/emulationstation/es_input.cfg")
    }

    /// The blank logo, on /boot: the hook that installs it runs before anything
    /// else is mounted.
    pub fn blank_logo(&self) -> (r: String)
        ensures
            r@ == paths::joined(self.root@, "boot/moose-blank-logo.png"@),
    {
        self.at("boot/moose-blank-logo.png")
    }

    /// The image EmulationStation draws while it loads.
    pub fn es_logo(&self) -> (r: String)
        ensures
            r@ == paths::joined(self.root@, "usr/share/emulationstation/resources/logo.png"@),
    {
        self.at("usr/share/emulationstation/resources/logo.png")
    }

    /// The flag that turns the evmapy guard on, on /boot.
    pub fn evmapy_flag(&self) -> (r: String)
        ensures
            r@ == paths::joined(self.root@, "boot/moose-evmapy-guard"@),
    {
        self.at("boot/moose-evmapy-guard")
    }

    /// Which graphics driver the boot hook should install, on /boot.
    pub fn gpu_choice(&self) -> (r: String)
        ensures
            r@ == paths::joined(self.root@, "boot/moose-gpu"@),
    {
        self.at("boot/moose-gpu")
    }

    /// KNULLI's own trigger file, which the one in /userdata replaces.
    pub fn stock_triggers(&self) -> (r: String)
        ensures
            r@ == paths::joined(self.root@, "etc/triggerhappy/triggers.d/multimedia_keys.conf"@),
    {
        self.at("etc/triggerhappy/triggers.d/multimedia_keys.conf")
    }

    /// EmulationStation's own settings.
    pub fn es_settings(&self) -> (r: String)
        ensures
            r@ == paths::joined(self.root@, "userdata/system/configs/emulationstation/es_settings.cfg"@),
    {
        self.at("userdata/system/configs/emulationstation/es_settings.cfg")
    }

    /// Where the choices are kept.
    pub fn profile(&self) -> (r: String)
        ensures
            r@ == paths::joined(self.root@, "userdata/system/moose-patch/profile.toml"@),
    {
        self.at("userdata/system/moose-patch/profile.toml")
    }

    /// A decoration of ours.
    pub fn decoration(&self, rest: &str) -> (r: String)
        ensures
            r@ == paths::joined(self.root@, "userdata/decorations/moose/systems/"@ + rest@),
    {
        let mut s = text::owned("userdata/decorations/moose/systems/");
        s.append(rest);
        self.at(&s)
    }

    /// A shader of ours.
    pub fn shader(&self, rest: &str) -> (r: String)
        ensures
            r@ == paths::joined(self.root@, "userdata/shaders/moose/"@ + rest@),
    {
        let mut s = text::owned("userdata/shaders/moose/");
        s.append(rest);
        self.at(&s)
    }

    /// A shader set: looked for here before the stock library.
    pub fn shaderset(&self, name: &str) -> (r: String)
        ensures
            r@ == paths::joined(self.root@, "userdata/shaders/configs/"@ + name@ + "/rendering-defaults.yml"@),
    {
        let mut s = text::owned("userdata/shaders/configs/");
        s.append(name);
        s.append("/rendering-defaults.yml");
        self.at(&s)
    }

    /// Where the hook expects to find a driver.
    pub fn gpu_blob(&self, which: &str) -> (r: String)
        ensures
            r@ == paths::joined(self.root@, "boot/moose-libmali-"@ + which@ + ".so"@),
    {
        let mut s = text::owned("boot/moose-libmali-");
        s.append(which);
        s.append(".so");
        self.at(&s)
    }

    /// Where a file that was replaced is kept, so that "off" can put the
    /// original back: one directory, outside everything that something else
    /// lists.
    pub fn backup_for(&self, path: &str) -> (r: String)
        ensures
            r@ == paths::joined(
                self.root@,
                "userdata/system/moose-patch/backups/"@ + flat(
                    match paths::below(path@, self.root@) {
                        Some(rest) => rest,
                        None => path@,
                    },
                ),
            ),
    {
        let rest = match paths::strip_prefix(path, &self.root) {
            Some(rest) => rest,
            None => text::owned(path),
        };
        let mut s = text::owned("userdata/system/moose-patch/backups/");
        s.append(&flatten(&rest));
        self.at(&s)
    }
}

// ---------------------------------------------------------------------------
// Steps
// ---------------------------------------------------------------------------

/// What kind of file a block lives in. It decides what "the block is there"
/// has to mean before a patch can call itself on.
#[derive(Debug)]
pub enum Form {
    /// A script. The block is the whole of the change.
    Script,
    /// `key=value` lines, read first-wins. On means that every key in the
    /// block is the value the reader would find, not only that the block is in
    /// the file.
    Settings,
    /// A file that replaces one KNULLI ships, at this path, rather than adding
    /// to it. So it is always that file, as it is now, plus the block; and it
    /// reads as on only while the rest of it matches.
    Seeded(String),
}

/// Lines in a `key=value` file that point at something of ours: a key ending
/// in `key_suffix` whose value starts with `value_prefix`.
#[derive(Debug)]
pub struct NamedIn {
    pub conf: String,
    pub key_suffix: &'static str,
    pub value_prefix: &'static str,
}

/// Whether a line names something of ours.
pub open spec fn names(line: Seq<char>, suffix: Seq<char>, prefix: Seq<char>) -> bool {
    blocks::key(line) matches Some(k) && text::ends(k, suffix) && text::starts(
        blocks::value(line),
        prefix,
    )
}

/// Whether any of some lines names something of ours.
pub open spec fn any_names(ls: Seq<Seq<char>>, suffix: Seq<char>, prefix: Seq<char>) -> bool {
    exists|i: int| 0 <= i < ls.len() && names(#[trigger] ls[i], suffix, prefix)
}

/// Whether the file, as it was found, still names something of ours.
pub open spec fn still_named_in(n: NamedIn, d: spec_fn(Seq<char>) -> disk::Seen) -> Result<
    bool,
    Seq<Seq<char>>,
> {
    match disk::text_at(d(n.conf@), n.conf@) {
        Err(e) => Err(e),
        Ok(None) => Ok(false),
        Ok(Some(t)) => Ok(any_names(lines::lines(t), n.key_suffix@, n.value_prefix@)),
    }
}

impl NamedIn {
    /// Whether any live line still names one. Every live line counts, not
    /// only the one that wins: a file that anything may still load has to stay.
    pub fn still_named(&self, disk: &Disk) -> (r: Result<bool, Failure>)
        ensures
            match r {
                Ok(b) => still_named_in(*self, disk.all()) == Ok::<bool, Seq<Seq<char>>>(b),
                Err(e) => still_named_in(*self, disk.all()) == Err::<bool, Seq<Seq<char>>>(e@),
            },
    {
        let t = match disk::read_text(disk, &self.conf) {
            Ok(Some(t)) => t,
            Ok(None) => return Ok(false),
            Err(e) => return Err(e),
        };
        let ls = lines::lines_of(&t);
        let ghost all = text::texts(ls@);
        let mut i: usize = 0;
        while i < ls.len()
            invariant
                i <= ls@.len(),
                all == text::texts(ls@),
                all == lines::lines(t@),
                disk::text_at(disk.at(self.conf@), self.conf@) == Ok::<
                    Option<Seq<char>>,
                    Seq<Seq<char>>,
                >(Some(t@)),
                forall|j: int|
                    0 <= j < i ==> !names(#[trigger] all[j], self.key_suffix@, self.value_prefix@),
            decreases ls@.len() - i,
        {
            assert(all[i as int] == ls@[i as int]@);
            match blocks::key_of(&ls[i]) {
                Some(k) => {
                    if text::ends_with(&k, self.key_suffix) && text::starts_with(
                        &blocks::value_of(&ls[i]),
                        self.value_prefix,
                    ) {
                        assert(names(all[i as int], self.key_suffix@, self.value_prefix@));
                        return Ok(true);
                    }
                },
                None => {},
            }
            i += 1;
        }
        Ok(false)
    }
}

/// One thing a patch does.
#[allow(inconsistent_fields)]
#[derive(Debug)]
pub enum Step {
    /// A marked block in a text config. No body means that the block should
    /// not be there, which is how "off" is written.
    Block { file: String, id: String, body: Option<String>, form: Form },
    /// A file that is ours, at a path nothing else writes to. No bytes means
    /// that it should not be there, and whatever was there before comes back,
    /// from `backup`.
    Place { path: String, bytes: Option<&'static [u8]>, backup: String },
    /// Our file laid over one that KNULLI may ship. `ours` is what is put
    /// there and `on` says whether it should be there.
    ///
    /// Off never deletes a file that is not ours. It puts the backup back if
    /// the file is ours, or gone; deletes it only if it is byte for byte ours
    /// and there is no backup; and otherwise leaves it alone.
    Cover { path: String, ours: &'static [u8], on: bool, backup: String },
    /// A file of ours that more than one patch can need at once. `want` places
    /// it. Otherwise it is removed, unless `named` still finds a line pointing
    /// at one of ours.
    Shared { path: String, bytes: &'static [u8], want: bool, named: NamedIn },
}

/// Two texts that differ at most in how they end.
pub open spec fn same_but_end(a: Seq<char>, b: Seq<char>) -> bool {
    text::trim_end(a) == text::trim_end(b)
}

/// Two texts that differ at most in how they end.
pub fn same_text(a: &str, b: &str) -> (r: bool)
    ensures
        r == same_but_end(a@, b@),
{
    text::same(&text::without_trailing(a), &text::without_trailing(b))
}

/// Whether a block is in a text, or not, as a step wants it.
pub open spec fn block_satisfied(
    t: Seq<char>,
    id: Seq<char>,
    body: Option<Seq<char>>,
    form: Form,
    d: spec_fn(Seq<char>) -> disk::Seen,
) -> bool {
    match blocks::cleared(t, id) {
        None => false,
        Some(rest) => match (blocks::block_body(t, id), body) {
            (None, None) => true,
            (Some(found), Some(want)) => text::trim(found) == text::trim(want) && match form {
                Form::Script => true,
                Form::Settings => blocks::holds(lines::lines(t), lines::lines(want)),
                Form::Seeded(seed) => match disk::text_at(d(seed@), seed@) {
                    Ok(Some(stock)) => same_but_end(rest, stock),
                    _ => false,
                },
            },
            _ => false,
        },
    }
}

/// Whether a disk is already as a step wants it.
///
/// A file that cannot be read is never "already like this".
pub open spec fn satisfied_in(step: Step, d: spec_fn(Seq<char>) -> disk::Seen) -> bool {
    match step {
        Step::Block { file, id, body, form } => match disk::text_at(d(file@), file@) {
            Err(_) => false,
            Ok(None) => block_satisfied(Seq::empty(), id@, text::opt(body), form, d),
            Ok(Some(t)) => block_satisfied(t, id@, text::opt(body), form, d),
        },
        Step::Place { path, bytes, .. } => match bytes {
            Some(want) => d(path@) == disk::Seen::Bytes(want@),
            None => !disk::is_there(d(path@)),
        },
        Step::Cover { path, ours, on, .. } => !(d(path@) is Unreadable) && (d(path@)
            == disk::Seen::Bytes(ours@)) == on,
        Step::Shared { path, bytes, want, named } => if want {
            d(path@) == disk::Seen::Bytes(bytes@)
        } else {
            !disk::is_there(d(path@)) || still_named_in(named, d) == Ok::<bool, Seq<Seq<char>>>(true)
        },
    }
}

/// Laying bytes down at a path: what is there is kept the first time, and only
/// the first time, so that a second apply never keeps our own copy over the
/// original.
pub open spec fn laid_down(
    path: Seq<char>,
    bytes: Seq<u8>,
    backup: Seq<char>,
    d: spec_fn(Seq<char>) -> disk::Seen,
) -> disk::Act {
    disk::Act::Write {
        path,
        bytes,
        keep: if disk::is_there(d(path)) && !disk::is_there(d(backup)) {
            Some(backup)
        } else {
            None
        },
    }
}

/// What is said of a seed that is not there.
pub open spec fn no_seed(seed: Seq<char>, file: Seq<char>) -> Seq<char> {
    seed + " is missing, and "@ + file
        + " replaces it rather than adding to it; nothing was written"@
}

/// The text a block step wants a file to hold, in place of `current`; none
/// where the file is to be left or taken away.
pub open spec fn block_change(
    file: Seq<char>,
    current: Option<Seq<char>>,
    id: Seq<char>,
    body: Option<Seq<char>>,
    form: Form,
    d: spec_fn(Seq<char>) -> disk::Seen,
) -> Result<disk::Act, Seq<Seq<char>>> {
    match form {
        Form::Seeded(seed) => match body {
            Some(body) => match disk::text_at(d(seed@), seed@) {
                Err(e) => Err(e),
                Ok(None) => Err(seq![no_seed(seed@, file)]),
                Ok(Some(stock)) => match blocks::block_set(stock, id, body) {
                    None => Err(seq![blocks::unclosed_message(id)]),
                    Some(next) => Ok(written(file, current, next)),
                },
            },
            None => match current {
                None => Ok(disk::Act::Nothing),
                Some(t) => match blocks::cleared(t, id) {
                    None => Err(seq![blocks::unclosed_message(id)]),
                    Some(rest) => match disk::text_at(d(seed@), seed@) {
                        Err(e) => Err(e),
                        Ok(Some(stock)) => if same_but_end(rest, stock) {
                            Ok(disk::Act::Remove { path: file })
                        } else {
                            Ok(written(file, current, rest))
                        },
                        Ok(None) => Ok(written(file, current, rest)),
                    },
                },
            },
        },
        _ => match body {
            Some(body) => match blocks::block_set(
                match current {
                    Some(t) => t,
                    None => Seq::empty(),
                },
                id,
                body,
            ) {
                None => Err(seq![blocks::unclosed_message(id)]),
                Some(next) => Ok(written(file, current, next)),
            },
            None => match current {
                None => Ok(disk::Act::Nothing),
                Some(t) => match blocks::cleared(t, id) {
                    None => Err(seq![blocks::unclosed_message(id)]),
                    Some(next) => Ok(written(file, current, next)),
                },
            },
        },
    }
}

/// Writing a text, unless it is what is there.
pub open spec fn written(file: Seq<char>, current: Option<Seq<char>>, next: Seq<char>) -> disk::Act {
    if current == Some(next) {
        disk::Act::Nothing
    } else {
        disk::Act::Write { path: file, bytes: vstd::utf8::encode_utf8(next), keep: None }
    }
}

/// The change that makes a disk as a step wants it.
pub open spec fn change_for(step: Step, d: spec_fn(Seq<char>) -> disk::Seen) -> Result<
    disk::Act,
    Seq<Seq<char>>,
> {
    match step {
        Step::Block { file, id, body, form } => match disk::text_at(d(file@), file@) {
            Err(e) => Err(e),
            Ok(current) => block_change(file@, current, id@, text::opt(body), form, d),
        },
        Step::Place { path, bytes, backup } => match bytes {
            Some(bytes) => Ok(laid_down(path@, bytes@, backup@, d)),
            None => if disk::is_there(d(backup@)) {
                Ok(disk::Act::PutBack { path: path@, backup: backup@ })
            } else if disk::is_there(d(path@)) {
                Ok(disk::Act::Remove { path: path@ })
            } else {
                Ok(disk::Act::Nothing)
            },
        },
        Step::Cover { path, ours, on, backup } => if on {
            Ok(laid_down(path@, ours@, backup@, d))
        } else {
            match d(path@) {
                disk::Seen::Unreadable { why, .. } => Err(seq!["reading "@ + path@, why]),
                now => {
                    let is_ours = now == disk::Seen::Bytes(ours@);
                    if (is_ours || now == disk::Seen::Missing) && disk::is_there(d(backup@)) {
                        Ok(disk::Act::PutBack { path: path@, backup: backup@ })
                    } else if is_ours {
                        Ok(disk::Act::Remove { path: path@ })
                    } else {
                        Ok(disk::Act::Nothing)
                    }
                },
            }
        },
        Step::Shared { path, bytes, want, named } => if want {
            Ok(disk::Act::Write { path: path@, bytes: bytes@, keep: None })
        } else if !disk::is_there(d(path@)) {
            Ok(disk::Act::Nothing)
        } else {
            match still_named_in(named, d) {
                Err(e) => Err(e),
                Ok(true) => Ok(disk::Act::Nothing),
                Ok(false) => Ok(disk::Act::Remove { path: path@ }),
            }
        },
    }
}

fn lay_down(path: &str, bytes: &[u8], backup: &str, disk: &Disk) -> (r: Change)
    ensures
        r@ == laid_down(path@, bytes@, backup@, disk.all()),
{
    let keep = if disk.is_there(path) && !disk.is_there(backup) {
        Some(text::owned(backup))
    } else {
        None
    };
    Change::Write { path: text::owned(path), bytes: text::bytes_of(bytes), keep }
}

fn write_unless_same(file: &str, current: &Option<String>, next: &str) -> (r: Change)
    ensures
        r@ == written(file@, text::opt(*current), next@),
{
    let same = match current {
        Some(t) => text::same(t, next),
        None => false,
    };
    if same {
        Change::Nothing
    } else {
        Change::Write { path: text::owned(file), bytes: text::encoded(next), keep: None }
    }
}

fn set_block_change(
    file: &str,
    current: &Option<String>,
    base: &str,
    id: &str,
    body: &str,
) -> (r: Result<Change, Failure>)
    ensures
        match r {
            Ok(c) => blocks::block_set(base@, id@, body@) matches Some(next) && c@ == written(
                file@,
                text::opt(*current),
                next,
            ),
            Err(e) => blocks::block_set(base@, id@, body@) is None && e@ == seq![
                blocks::unclosed_message(id@),
            ],
        },
{
    match blocks::set_block(base, id, body) {
        Ok(next) => Ok(write_unless_same(file, current, &next)),
        Err(e) => Err(e),
    }
}

fn change_block(
    file: &str,
    current: &Option<String>,
    id: &str,
    body: &Option<String>,
    form: &Form,
    disk: &Disk,
) -> (r: Result<Change, Failure>)
    ensures
        match r {
            Ok(c) => block_change(file@, text::opt(*current), id@, text::opt(*body), *form, disk.all())
                == Ok::<disk::Act, Seq<Seq<char>>>(c@),
            Err(e) => block_change(
                file@,
                text::opt(*current),
                id@,
                text::opt(*body),
                *form,
                disk.all(),
            ) == Err::<disk::Act, Seq<Seq<char>>>(e@),
        },
{
    match (form, body) {
        // Rebuilt from the shipped copy as it is now, every time. A copy that
        // cannot be read stops everything: this file replaces that one, so our
        // lines alone would take away every key it carries.
        (Form::Seeded(seed), Some(body)) => match disk::read_text(disk, seed) {
            Err(e) => Err(e),
            Ok(None) => {
                let mut why = seed.clone();
                why.append(" is missing, and ");
                why.append(file);
                why.append(" replaces it rather than adding to it; nothing was written");
                Err(Failure::new(&why))
            },
            Ok(Some(stock)) => set_block_change(file, current, &stock, id, body),
        },
        (Form::Seeded(seed), None) => match current {
            None => Ok(Change::Nothing),
            Some(t) => match blocks::clear_block(t, id) {
                Err(e) => Err(e),
                // Nothing left but the shipped file: remove it, so that the
                // shipped one is what is read, this image's and every later
                // one's.
                Ok(rest) => match disk::read_text(disk, seed) {
                    Err(e) => Err(e),
                    Ok(Some(stock)) => if same_text(&rest, &stock) {
                        Ok(Change::Remove { path: text::owned(file) })
                    } else {
                        Ok(write_unless_same(file, current, &rest))
                    },
                    Ok(None) => Ok(write_unless_same(file, current, &rest)),
                },
            },
        },
        (_, Some(body)) => match current {
            Some(t) => set_block_change(file, current, t, id, body),
            None => {
                let none: String = String::new();
                assert(none@ =~= Seq::<char>::empty());
                set_block_change(file, current, &none, id, body)
            },
        },
        // Nothing to take a block out of. Creating an empty file here would be
        // a change nobody asked for.
        (_, None) => match current {
            None => Ok(Change::Nothing),
            Some(t) => match blocks::clear_block(t, id) {
                Err(e) => Err(e),
                Ok(next) => Ok(write_unless_same(file, current, &next)),
            },
        },
    }
}

fn block_is_satisfied(
    t: &str,
    id: &str,
    body: &Option<String>,
    form: &Form,
    disk: &Disk,
) -> (r: bool)
    ensures
        r == block_satisfied(t@, id@, text::opt(*body), *form, disk.all()),
{
    // A block that never ends is not "absent", whatever reading it makes of it.
    let rest = match blocks::clear_block(t, id) {
        Ok(rest) => rest,
        Err(_) => return false,
    };
    match (blocks::read_block(t, id), body) {
        (None, None) => true,
        (Some(found), Some(want)) => text::same(&text::trimmed(&found), &text::trimmed(want))
            && match form {
            Form::Script => true,
            Form::Settings => blocks::in_force(t, want),
            Form::Seeded(seed) => match disk::read_text(disk, seed) {
                Ok(Some(stock)) => same_text(&rest, &stock),
                _ => false,
            },
        },
        _ => false,
    }
}

impl Step {
    /// Is the device already like this?
    pub fn satisfied(&self, disk: &Disk) -> (r: bool)
        ensures
            r == satisfied_in(*self, disk.all()),
    {
        match self {
            Step::Block { file, id, body, form } => match disk::read_text(disk, file) {
                Err(_) => false,
                Ok(None) => {
                    let none: String = String::new();
                    assert(none@ =~= Seq::<char>::empty());
                    block_is_satisfied(&none, id, body, form, disk)
                },
                Ok(Some(t)) => block_is_satisfied(&t, id, body, form, disk),
            },
            Step::Place { path, bytes, .. } => match bytes {
                Some(want) => disk.holds(path, want),
                None => !disk.is_there(path),
            },
            Step::Cover { path, ours, on, .. } => disk.trouble(path).is_none() && disk.holds(path, ours)
                == *on,
            Step::Shared { path, bytes, want, named } => if *want {
                disk.holds(path, bytes)
            } else {
                !disk.is_there(path) || match named.still_named(disk) {
                    Ok(b) => b,
                    Err(_) => false,
                }
            },
        }
    }

    /// The change that makes the device like this.
    pub fn apply(&self, disk: &Disk) -> (r: Result<Change, Failure>)
        ensures
            match r {
                Ok(c) => change_for(*self, disk.all()) == Ok::<disk::Act, Seq<Seq<char>>>(c@),
                Err(e) => change_for(*self, disk.all()) == Err::<disk::Act, Seq<Seq<char>>>(e@),
            },
    {
        match self {
            Step::Block { file, id, body, form } => match disk::read_text(disk, file) {
                Err(e) => Err(e),
                Ok(current) => change_block(file, &current, id, body, form, disk),
            },
            Step::Place { path, bytes, backup } => match bytes {
                Some(bytes) => Ok(lay_down(path, bytes, backup, disk)),
                None => if disk.is_there(backup) {
                    Ok(Change::PutBack { path: path.clone(), backup: backup.clone() })
                } else if disk.is_there(path) {
                    Ok(Change::Remove { path: path.clone() })
                } else {
                    Ok(Change::Nothing)
                },
            },
            Step::Cover { path, ours, on, backup } => {
                if *on {
                    return Ok(lay_down(path, ours, backup, disk));
                }
                match disk.trouble(path) {
                    Some(e) => return Err(e),
                    None => {},
                }
                let is_ours = disk.holds(path, ours);
                let gone = !disk.is_there(path);
                if (is_ours || gone) && disk.is_there(backup) {
                    Ok(Change::PutBack { path: path.clone(), backup: backup.clone() })
                } else if is_ours {
                    Ok(Change::Remove { path: path.clone() })
                } else {
                    // Somebody else's.
                    Ok(Change::Nothing)
                }
            },
            Step::Shared { path, bytes, want, named } => {
                if *want {
                    return Ok(
                        Change::Write {
                            path: path.clone(),
                            bytes: text::bytes_of(bytes),
                            keep: None,
                        },
                    );
                }
                if !disk.is_there(path) {
                    return Ok(Change::Nothing);
                }
                match named.still_named(disk) {
                    Err(e) => Err(e),
                    Ok(true) => Ok(Change::Nothing),
                    Ok(false) => Ok(Change::Remove { path: path.clone() }),
                }
            },
        }
    }
}

// ---------------------------------------------------------------------------
// Patches
// ---------------------------------------------------------------------------

/// One setting a patch can be at.
#[derive(Debug)]
pub struct Choice {
    pub name: String,
    pub steps: Vec<Step>,
}

/// Where a patch currently is.
#[derive(Copy, Clone, PartialEq, Eq, Structural, Debug)]
pub enum State {
    /// Sitting exactly at one of its options.
    At(usize),
    /// At none of them. Either somebody edited the file by hand, or KNULLI
    /// shipped an update and the ground moved.
    Changed,
}

/// Something that can be changed on the device, and what it can be changed to.
#[derive(Debug)]
pub struct Patch {
    pub id: &'static str,
    pub title: &'static str,
    pub detail: &'static str,
    pub choices: Vec<Choice>,
}

/// What to do next while an option is being applied.
#[derive(Debug)]
pub enum Progress<'a> {
    /// This step.
    Do(&'a Step),
    /// Nothing: every step is done.
    Finished,
}

/// The path a step writes to.
pub open spec fn target(step: Step) -> Seq<char> {
    match step {
        Step::Block { file, .. } => file@,
        Step::Place { path, .. } => path@,
        Step::Cover { path, .. } => path@,
        Step::Shared { path, .. } => path@,
    }
}

/// Whether a path is one whose file EmulationStation keeps in memory and
/// writes back: knulli.conf, or anything in its own config folder.
pub open spec fn held_by_es(p: Seq<char>, root: Seq<char>) -> bool {
    let conf = paths::joined(root, "userdata/system/knulli.conf"@);
    let settings = paths::joined(
        root,
        "userdata/system/configs/emulationstation/es_settings.cfg"@,
    );
    let whole = paths::components(settings);
    ||| paths::components(p) == paths::components(conf)
    ||| whole.len() > 0 && whole.last() != "/"@ && whole.drop_last().is_prefix_of(paths::components(p))
}

/// Whether every step of a choice is satisfied.
pub open spec fn choice_satisfied(c: Choice, d: spec_fn(Seq<char>) -> disk::Seen) -> bool {
    forall|i: int| 0 <= i < c.steps@.len() ==> satisfied_in(#[trigger] c.steps@[i], d)
}

/// The first choice whose steps are all satisfied.
pub open spec fn state_in(cs: Seq<Choice>, d: spec_fn(Seq<char>) -> disk::Seen, s: State) -> bool {
    match s {
        State::At(n) => {
            &&& n < cs.len()
            &&& choice_satisfied(cs[n as int], d)
            &&& forall|i: int| 0 <= i < n ==> !choice_satisfied(#[trigger] cs[i], d)
        },
        State::Changed => forall|i: int|
            0 <= i < cs.len() ==> !choice_satisfied(#[trigger] cs[i], d),
    }
}

fn target_of(step: &Step) -> (r: &String)
    ensures
        r@ == target(*step),
{
    match step {
        Step::Block { file, .. } => file,
        Step::Place { path, .. } => path,
        Step::Cover { path, .. } => path,
        Step::Shared { path, .. } => path,
    }
}

fn is_held_by_es(p: &str, paths: &Paths) -> (r: bool)
    ensures
        r == held_by_es(p@, paths.root@),
{
    if paths::same_path(p, &paths.knulli_conf()) {
        return true;
    }
    let whole = paths::components_of(&paths.es_settings());
    let ghost all = text::texts(whole@);
    let n: usize = whole.len();
    assert(all.len() == n);
    if n == 0 {
        return false;
    }
    assert(all[n - 1] == whole@[n - 1]@);
    if text::same(&whole[n - 1], "/") {
        return false;
    }
    let dir = text::copied(&whole, 0, n - 1);
    assert(all.subrange(0, n - 1) =~= all.drop_last());
    paths::begins_with(&paths::components_of(p), &dir)
}

impl Patch {
    /// Whether applying an option writes a file that EmulationStation keeps in
    /// memory and writes back. A change to one of these lasts only until it
    /// next saves.
    pub fn writes_what_es_holds(&self, index: usize, paths: &Paths) -> (r: bool)
        ensures
            r == (index < self.choices@.len() && exists|i: int|
                0 <= i < self.choices@[index as int].steps@.len() && held_by_es(
                    target(#[trigger] self.choices@[index as int].steps@[i]),
                    paths.root@,
                )),
    {
        if index >= self.choices.len() {
            return false;
        }
        let steps = &self.choices[index].steps;
        let mut i: usize = 0;
        while i < steps.len()
            invariant
                i <= steps@.len(),
                index < self.choices@.len(),
                *steps == self.choices@[index as int].steps,
                forall|j: int| 0 <= j < i ==> !held_by_es(target(#[trigger] steps@[j]), paths.root@),
            decreases steps@.len() - i,
        {
            if is_held_by_es(target_of(&steps[i]), paths) {
                assert(held_by_es(
                    target(self.choices@[index as int].steps@[i as int]),
                    paths.root@,
                ));
                return true;
            }
            i += 1;
        }
        false
    }

    /// Which option the device is at.
    pub fn state(&self, disk: &Disk) -> (r: State)
        ensures
            state_in(self.choices@, disk.all(), r),
    {
        let mut n: usize = 0;
        while n < self.choices.len()
            invariant
                n <= self.choices@.len(),
                forall|i: int|
                    0 <= i < n ==> !choice_satisfied(#[trigger] self.choices@[i], disk.all()),
            decreases self.choices@.len() - n,
        {
            if is_at(&self.choices[n], disk) {
                return State::At(n);
            }
            n += 1;
        }
        State::Changed
    }

    /// What the options are called, in their order.
    pub fn option_names(&self) -> (r: Vec<String>)
        ensures
            text::texts(r@) == self.choices@.map_values(|c: Choice| c.name@),
    {
        let mut out: Vec<String> = Vec::new();
        let ghost want = self.choices@.map_values(|c: Choice| c.name@);
        let mut i: usize = 0;
        while i < self.choices.len()
            invariant
                i <= self.choices@.len(),
                want == self.choices@.map_values(|c: Choice| c.name@),
                text::texts(out@) == want.take(i as int),
            decreases self.choices@.len() - i,
        {
            let ghost before = text::texts(out@);
            out.push(self.choices[i].name.clone());
            assert(text::texts(out@) =~= before.push(want[i as int]));
            assert(want.take(i + 1) =~= before.push(want[i as int]));
            i += 1;
        }
        assert(want.take(want.len() as int) =~= want);
        out
    }

    /// What to do next, with `done` steps of an option behind and what came of
    /// the last of them.
    ///
    /// The steps run in order and stop at the first failure, which says which
    /// step it was: a half-applied patch that reports success is worse than one
    /// that fails loudly.
    pub fn apply(&self, index: usize, done: usize, last: Result<(), Failure>) -> (r: Result<
        Progress,
        Failure,
    >)
        ensures
            match r {
                Ok(Progress::Do(step)) => last is Ok && index < self.choices@.len() && done
                    < self.choices@[index as int].steps@.len() && *step
                    == self.choices@[index as int].steps@[done as int],
                Ok(Progress::Finished) => last is Ok && index < self.choices@.len() && done
                    >= self.choices@[index as int].steps@.len(),
                Err(e) => if index >= self.choices@.len() {
                    e@ == seq![self.id@ + " has no option "@ + number::decimal(index as nat)]
                } else {
                    last matches Err(why) && e@ == seq![
                        self.id@ + " step "@ + number::decimal(done as nat),
                    ] + why@
                },
            },
    {
        if index >= self.choices.len() {
            let mut why = text::owned(self.id);
            why.append(" has no option ");
            why.append(&number::decimal_of(index as u128));
            return Err(Failure::new(&why));
        }
        match last {
            Err(e) => {
                let mut doing = text::owned(self.id);
                doing.append(" step ");
                doing.append(&number::decimal_of(done as u128));
                Err(e.context(&doing))
            },
            Ok(_) => {
                let steps = &self.choices[index].steps;
                if done < steps.len() {
                    Ok(Progress::Do(&steps[done]))
                } else {
                    Ok(Progress::Finished)
                }
            },
        }
    }
}

fn is_at(c: &Choice, disk: &Disk) -> (r: bool)
    ensures
        r == choice_satisfied(*c, disk.all()),
{
    let mut i: usize = 0;
    while i < c.steps.len()
        invariant
            i <= c.steps@.len(),
            forall|j: int| 0 <= j < i ==> satisfied_in(#[trigger] c.steps@[j], disk.all()),
        decreases c.steps@.len() - i,
    {
        if !c.steps[i].satisfied(disk) {
            assert(!satisfied_in(c.steps@[i as int], disk.all()));
            return false;
        }
        i += 1;
    }
    true
}

// ---------------------------------------------------------------------------
// Writing
// ---------------------------------------------------------------------------

/// What there is still to do after something was done to a file, or could not be.
#[derive(Debug)]
pub enum Through {
    /// Nothing: what came of it stands.
    Over,
    /// Do it once more.
    Again,
    /// Do it once more with what is mounted there made writable, and made
    /// read-only again afterwards whatever comes of it.
    Opened(String),
}

/// What there is still to do after something was done to a file: once more where the
/// filesystem was read-only, and with its mount point opened up where that is
/// known.
pub fn way_through(read_only: bool, table: Option<&str>, target: Option<&str>) -> (r: Through)
    ensures
        !read_only <==> r is Over,
        read_only && (table is None || target is None) ==> r is Again,
        read_only && table is Some && target is Some ==> match r {
            Through::Over => false,
            Through::Again => sits_under(table->0@, target->0@, None),
            Through::Opened(p) => sits_under(table->0@, target->0@, Some(p@)),
        },
{
    if !read_only {
        return Through::Over;
    }
    match (table, target) {
        (Some(t), Some(path)) => match mount_point_of(t, path) {
            Some(p) => Through::Opened(p),
            None => Through::Again,
        },
        _ => Through::Again,
    }
}

/// What a file is called while it is being written beside the one it will
/// replace. The dot keeps it out of a folder that something lists.
pub fn temp_name(name: &str) -> (r: String)
    ensures
        r@ == "."@ + name@ + ".moose-tmp"@,
{
    let mut s = text::owned(".");
    s.append(name);
    s.append(".moose-tmp");
    s
}

/// Whether a line of the mount table gives a mount point, other than the root,
/// that a path begins with.
pub open spec fn mounts(line: Seq<char>, target: Seq<char>, point: Seq<char>) -> bool {
    let w = text::words(line);
    w.len() > 1 && w[1] == point && point != "/"@ && text::starts(target, point)
}

/// Whether a mount point is the longest in a mount table that a path sits under;
/// or whether it sits under none.
pub open spec fn sits_under(table: Seq<char>, target: Seq<char>, point: Option<Seq<char>>) -> bool {
    let ls = lines::lines(table);
    match point {
        Some(p) => {
            &&& exists|i: int| 0 <= i < ls.len() && mounts(#[trigger] ls[i], target, p)
            &&& forall|i: int, q: Seq<char>|
                0 <= i < ls.len() && mounts(#[trigger] ls[i], target, q) ==> #[trigger] q.len() <= p.len()
        },
        None => forall|i: int, q: Seq<char>| 0 <= i < ls.len() ==> !#[trigger] mounts(ls[i], target, q),
    }
}

/// The longest mount point in a mount table that a path sits under.
pub fn mount_point_of(table: &str, target: &str) -> (r: Option<String>)
    ensures
        sits_under(table@, target@, text::opt(r)),
{
    let ls = lines::lines_of(table);
    let ghost all = text::texts(ls@);
    let mut best: Option<String> = None;
    let mut longest: usize = 0;
    let mut i: usize = 0;
    while i < ls.len()
        invariant
            i <= ls@.len(),
            all == text::texts(ls@),
            match best {
                Some(p) => {
                    &&& longest == p@.len()
                    &&& exists|k: int| 0 <= k < i && mounts(#[trigger] all[k], target@, p@)
                    &&& forall|k: int, q: Seq<char>|
                        0 <= k < i && mounts(#[trigger] all[k], target@, q) ==> #[trigger] q.len()
                            <= p@.len()
                },
                None => forall|k: int, q: Seq<char>|
                    0 <= k < i ==> !#[trigger] mounts(all[k], target@, q),
            },
        decreases ls@.len() - i,
    {
        assert(all[i as int] == ls@[i as int]@);
        let w = text::words_of(&ls[i]);
        let ghost tw = text::texts(w@);
        assert(tw.len() == w@.len());
        if w.len() > 1 {
            assert(tw[1] == w@[1]@);
            if !text::same(&w[1], "/") && text::starts_with(target, &w[1]) {
                let c = text::chars_of(&w[1]);
                assert(mounts(all[i as int], target@, w@[1]@));
                let better = match &best {
                    Some(_) => c.len() >= longest,
                    None => true,
                };
                if better {
                    longest = c.len();
                    best = Some(w[1].clone());
                }
            }
        }
        i += 1;
    }
    best
}

} // verus!
