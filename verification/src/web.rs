//! The app's own UI, served over HTTP.
//!
//! The UI talks to its backend through Tauri's IPC. A shim defines that IPC in a
//! browser, turning `invoke(cmd, args)` into a request, and each command is handed
//! to the backend that the desktop window uses too. What is decided here is which
//! commands there are, what each is asked with, what cannot be had from a server,
//! and which files may be read.

use vstd::prelude::*;
use crate::paths;
use crate::text;

verus! {

/// Injected before the app's own modules, so `invoke` exists by the time they run.
///
/// Two commands are answered here rather than over the wire: opening a window
/// belongs to whichever machine has the screen.
pub const SHIM: &'static str = r#"
// Tauri's IPC, over HTTP.
window.__TAURI__ = {
  core: {
    invoke: async (cmd, args) => {
      // Opening a window belongs to whichever machine has the screen.
      if (cmd === "open_settings") { window.open("/settings.html", "_blank"); return null; }
      if (cmd === "open_link") { window.open(args?.url, "_blank", "noopener"); return null; }
      const r = await fetch("/invoke/" + cmd, {
        method: "POST",
        headers: { "content-type": "application/json" },
        body: JSON.stringify(args ?? {}),
      });
      const text = await r.text();
      if (!r.ok) throw new Error(text || r.statusText);
      return text ? JSON.parse(text) : null;
    },
    // Artwork is served from the media tree; a local path becomes a URL.
    convertFileSrc: (p) => "/media?path=" + encodeURIComponent(p),
  },
  // Tauri's cross-window events, over BroadcastChannel.
  //
  // Settings is a separate window on the desktop and a separate tab here, and
  // the two talk: the shader backdrop's switch, its frame rate, the glass tint
  // and strength, and the collection art all live in Settings while the thing
  // they change is drawn by the library page. Stubbed out, every one of those
  // silently did nothing -- you turn the backdrop on and the library goes on
  // looking exactly as it did.
  //
  // BroadcastChannel is the same thing for same-origin documents, so `ui/` is
  // unchanged. It does not deliver to the sender, where Tauri does; the one
  // place that matters, `setBackdropWanted`, already acts on its own window
  // directly, and not looping back is the safer of the two differences.
  event: (() => {
    const chan = "BroadcastChannel" in window ? new BroadcastChannel("moose-rack") : null;
    const handlers = new Map();
    chan?.addEventListener("message", (m) => {
      const { event, payload } = m.data || {};
      for (const fn of handlers.get(event) ?? []) {
        try { fn({ event, payload }); } catch (e) { console.warn(event, e); }
      }
    });
    return {
      listen: async (event, fn) => {
        if (!handlers.has(event)) handlers.set(event, new Set());
        handlers.get(event).add(fn);
        return () => handlers.get(event)?.delete(fn);
      },
      emit: async (event, payload) => chan?.postMessage({ event, payload }),
    };
  })(),
};
"#;

// ---------------------------------------------------------------------------
// Arguments
// ---------------------------------------------------------------------------

/// A character of an argument's name, as the backend spells it.
pub open spec fn spelled(c: char) -> Seq<char> {
    if 'A' <= c && c <= 'Z' {
        seq!['_', text::lower(c)]
    } else {
        seq![c]
    }
}

/// An argument's name, as the backend spells it: `localOnly` is `local_only`.
pub open spec fn snake_case(key: Seq<char>) -> Seq<char>
    decreases key.len(),
{
    if key.len() == 0 {
        Seq::empty()
    } else {
        snake_case(key.drop_last()) + spelled(key.last())
    }
}

/// A name is spelled character by character: a capital letter as an underscore and
/// the small letter, and any other as it is.
pub proof fn law_a_name_is_spelled_character_by_character(a: Seq<char>, b: Seq<char>, c: char)
    ensures
        snake_case(a + b) == snake_case(a) + snake_case(b),
        snake_case(seq![c]) == (if 'A' <= c && c <= 'Z' {
            seq!['_', ((c as int) + 32) as char]
        } else {
            seq![c]
        }),
    decreases b.len(),
{
    reveal_with_fuel(snake_case, 2);
    assert(seq![c].drop_last() =~= Seq::empty());
    assert(snake_case(seq![c]) =~= spelled(c));
    if b.len() == 0 {
        assert(a + b =~= a);
        assert(snake_case(a) + snake_case(b) =~= snake_case(a));
    } else {
        law_a_name_is_spelled_character_by_character(a, b.drop_last(), c);
        assert((a + b).drop_last() =~= a + b.drop_last());
        assert(snake_case(a + b) =~= snake_case(a) + snake_case(b));
    }
}

/// An argument's name, as the backend spells it.
pub fn snake(key: &str) -> (r: String)
    ensures
        r@ == snake_case(key@),
{
    let cs = text::chars_of(key);
    let mut out: String = String::new();
    let mut i: usize = 0;
    assert(out@ =~= snake_case(cs@.take(0)));
    while i < cs.len()
        invariant
            i <= cs@.len(),
            out@ == snake_case(cs@.take(i as int)),
        decreases cs@.len() - i,
    {
        let c = cs[i];
        let ghost before = out@;
        assert(cs@.take(i + 1).drop_last() =~= cs@.take(i as int));
        if 'A' <= c && c <= 'Z' {
            out.push('_');
            let l = text::lower_of(c);
            out.push(l);
            assert(out@ =~= before + seq!['_', l]);
        } else {
            out.push(c);
            assert(out@ =~= before + seq![c]);
        }
        i += 1;
    }
    assert(cs@.take(i as int) =~= cs@);
    out
}

/// Every key of a flat argument object, renamed. Values are untouched: what is
/// inside has its own names.
pub fn normalise<T>(args: Vec<(String, T)>) -> (r: Vec<(String, T)>)
    ensures
        r@.len() == args@.len(),
        forall|i: int| 0 <= i < r@.len() ==> (#[trigger] r@[i]).0@ == snake_case(args@[i].0@) && r@[i].1 == args@[i].1,
{
    let ghost all = args@;
    let mut out: Vec<(String, T)> = Vec::new();
    for a in it: args
        invariant
            it.seq() == all,
            out@.len() == it.index(),
            forall|i: int|
                0 <= i < out@.len() ==> (#[trigger] out@[i]).0@ == snake_case(all[i].0@) && out@[i].1 == all[i].1,
    {
        let (k, v) = a;
        out.push((snake(&k), v));
    }
    out
}

/// What is said of an argument that does not read.
pub fn bad_argument(key: &str, why: &str) -> (r: String)
    ensures
        r@ == key@ + ": "@ + why@,
{
    let mut s = text::owned(key);
    s.append(": ");
    s.append(why);
    s
}

// ---------------------------------------------------------------------------
// Commands
// ---------------------------------------------------------------------------

/// Whether a command takes nothing.
pub open spec fn takes_nothing(cmd: Seq<char>) -> bool {
    cmd == "status"@
        || cmd == "versions"@
        || cmd == "platforms"@
        || cmd == "systems"@
        || cmd == "collection_groups"@
        || cmd == "play_history"@
        || cmd == "attract_pool"@
        || cmd == "confirm_delete_state"@
        || cmd == "game_displays"@
        || cmd == "config_fields"@
        || cmd == "config_findings"@
        || cmd == "config_patch"@
        || cmd == "list_art_options"@
        || cmd == "motion_options"@
        || cmd == "icon_styles"@
        || cmd == "icon_sets"@
        || cmd == "fetch_icons"@
        || cmd == "bios_status"@
        || cmd == "disk_usage"@
        || cmd == "check_update"@
        || cmd == "verify_achievements"@
        || cmd == "ui_bindings"@
        || cmd == "list_controls"@
        || cmd == "sync_saves_plan"@
        || cmd == "sync_saves"@
}

fn is_takes_nothing(cmd: &str) -> (r: bool)
    ensures
        r == takes_nothing(cmd@),
{
    text::same(cmd, "status")
        || text::same(cmd, "versions")
        || text::same(cmd, "platforms")
        || text::same(cmd, "systems")
        || text::same(cmd, "collection_groups")
        || text::same(cmd, "play_history")
        || text::same(cmd, "attract_pool")
        || text::same(cmd, "confirm_delete_state")
        || text::same(cmd, "game_displays")
        || text::same(cmd, "config_fields")
        || text::same(cmd, "config_findings")
        || text::same(cmd, "config_patch")
        || text::same(cmd, "list_art_options")
        || text::same(cmd, "motion_options")
        || text::same(cmd, "icon_styles")
        || text::same(cmd, "icon_sets")
        || text::same(cmd, "fetch_icons")
        || text::same(cmd, "bios_status")
        || text::same(cmd, "disk_usage")
        || text::same(cmd, "check_update")
        || text::same(cmd, "verify_achievements")
        || text::same(cmd, "ui_bindings")
        || text::same(cmd, "list_controls")
        || text::same(cmd, "sync_saves_plan")
        || text::same(cmd, "sync_saves")
}

/// Whether a command takes `id`.
pub open spec fn takes_id(cmd: Seq<char>) -> bool {
    cmd == "rom_detail"@
        || cmd == "toggle_favorite"@
        || cmd == "game_states"@
        || cmd == "game_cores"@
        || cmd == "game_lightgun"@
        || cmd == "game_video"@
}

fn is_takes_id(cmd: &str) -> (r: bool)
    ensures
        r == takes_id(cmd@),
{
    text::same(cmd, "rom_detail")
        || text::same(cmd, "toggle_favorite")
        || text::same(cmd, "game_states")
        || text::same(cmd, "game_cores")
        || text::same(cmd, "game_lightgun")
        || text::same(cmd, "game_video")
}

/// Whether a command takes `value`.
pub open spec fn takes_value(cmd: Seq<char>) -> bool {
    cmd == "set_list_art"@
        || cmd == "set_motion_shader"@
}

fn is_takes_value(cmd: &str) -> (r: bool)
    ensures
        r == takes_value(cmd@),
{
    text::same(cmd, "set_list_art")
        || text::same(cmd, "set_motion_shader")
}

/// Whether a command takes `dir`.
pub open spec fn takes_dir(cmd: Seq<char>) -> bool {
    cmd == "set_icon_set"@
        || cmd == "remove_icon_set"@
        || cmd == "install_icon_set"@
}

fn is_takes_dir(cmd: &str) -> (r: bool)
    ensures
        r == takes_dir(cmd@),
{
    text::same(cmd, "set_icon_set")
        || text::same(cmd, "remove_icon_set")
        || text::same(cmd, "install_icon_set")
}

/// Whether a command takes `list`.
pub open spec fn takes_list(cmd: Seq<char>) -> bool {
    cmd == "arrange_list"@
        || cmd == "clear_list_filters"@
}

fn is_takes_list(cmd: &str) -> (r: bool)
    ensures
        r == takes_list(cmd@),
{
    text::same(cmd, "arrange_list")
        || text::same(cmd, "clear_list_filters")
}

/// What a command is asked with, where the backend has it.
pub open spec fn parameters(cmd: Seq<char>) -> Option<Seq<Seq<char>>> {
    if takes_nothing(cmd) {
        Some(Seq::empty())
    } else if cmd == "roms"@ {
        Some(seq!["platform"@, "list"@])
    } else if cmd == "recent_games"@ {
        Some(seq!["limit"@, "list"@])
    } else if cmd == "search"@ {
        Some(seq!["term"@, "list"@])
    } else if cmd == "collections_in"@ {
        Some(seq!["group"@])
    } else if cmd == "collection_roms"@ {
        Some(seq!["id"@, "list"@])
    } else if takes_id(cmd) {
        Some(seq!["id"@])
    } else if cmd == "delete_state"@ {
        Some(seq!["id"@, "slot"@])
    } else if cmd == "set_game_core"@ {
        Some(seq!["id"@, "core"@])
    } else if cmd == "rom_covers"@ {
        Some(seq!["ids"@, "local_only"@])
    } else if cmd == "warm_media"@ {
        Some(seq!["platform"@])
    } else if cmd == "set_config_field"@ {
        Some(seq!["field"@, "value"@])
    } else if takes_value(cmd) {
        Some(seq!["value"@])
    } else if cmd == "set_autofire_hz"@ {
        Some(seq!["hz"@])
    } else if cmd == "set_system_choice"@ {
        Some(seq!["slug"@, "field"@, "value"@])
    } else if cmd == "set_icon_style"@ {
        Some(seq!["key"@])
    } else if takes_dir(cmd) {
        Some(seq!["dir"@])
    } else if cmd == "verify_server"@ {
        Some(seq!["url"@, "token"@, "username"@, "password"@])
    } else if cmd == "set_key_binding"@ {
        Some(seq!["action"@, "key"@])
    } else if cmd == "set_pad_binding"@ {
        Some(seq!["action"@, "index"@])
    } else if cmd == "reset_bindings"@ {
        Some(seq!["which"@])
    } else if cmd == "import_bindings"@ {
        Some(seq!["keys"@, "pad"@])
    } else if takes_list(cmd) {
        Some(seq!["list"@])
    } else if cmd == "set_list_order"@ {
        Some(seq!["list"@, "order"@, "preferred"@])
    } else if cmd == "cycle_list_order"@ {
        Some(seq!["list"@, "delta"@])
    } else if cmd == "toggle_list_filter"@ {
        Some(seq!["list"@, "filter"@])
    } else if cmd == "sort_picker"@ {
        Some(seq!["kind"@, "rows"@])
    } else if cmd == "picker_controls"@ {
        Some(seq!["kind"@])
    } else if cmd == "set_picker_order"@ {
        Some(seq!["kind"@, "order"@])
    } else if cmd == "set_page_names"@ {
        Some(seq!["names"@, "groups"@])
    } else if cmd == "page_filter"@ {
        Some(seq!["query"@])
    } else if cmd == "grid_uniform"@ {
        Some(seq!["count"@, "columns"@])
    } else if cmd == "set_grid"@ {
        Some(seq!["cards"@])
    } else if cmd == "resolve_save_conflict"@ {
        Some(seq!["file_name"@, "keep"@])
    } else {
        None
    }
}

fn list_of(a: &[&str]) -> (r: Vec<String>)
    ensures
        text::texts(r@) == a@.map_values(|s: &str| s@),
{
    let mut out: Vec<String> = Vec::new();
    let ghost f = |s: &str| s@;
    let mut i: usize = 0;
    while i < a.len()
        invariant
            i <= a@.len(),
            out@.len() == i,
            forall|k: int| 0 <= k < i ==> (#[trigger] out@[k])@ == a@[k]@,
        decreases a@.len() - i,
    {
        out.push(text::owned(a[i]));
        i += 1;
    }
    assert(text::texts(out@) =~= a@.map_values(f));
    out
}

/// What a command is asked with, where the backend has it.
pub fn parameters_of(cmd: &str) -> (r: Option<Vec<String>>)
    ensures
        match r {
            Some(ps) => parameters(cmd@) == Some(text::texts(ps@)),
            None => parameters(cmd@) is None,
        },
{
    if is_takes_nothing(cmd) {
        let ps: Vec<String> = Vec::new();
        assert(text::texts(ps@) =~= Seq::empty());
        return Some(ps);
    }
    if text::same(cmd, "roms") {
        let ps = list_of(&["platform", "list"]);
        assert(text::texts(ps@) =~= seq!["platform"@, "list"@]);
        return Some(ps);
    }
    if text::same(cmd, "recent_games") {
        let ps = list_of(&["limit", "list"]);
        assert(text::texts(ps@) =~= seq!["limit"@, "list"@]);
        return Some(ps);
    }
    if text::same(cmd, "search") {
        let ps = list_of(&["term", "list"]);
        assert(text::texts(ps@) =~= seq!["term"@, "list"@]);
        return Some(ps);
    }
    if text::same(cmd, "collections_in") {
        let ps = list_of(&["group"]);
        assert(text::texts(ps@) =~= seq!["group"@]);
        return Some(ps);
    }
    if text::same(cmd, "collection_roms") {
        let ps = list_of(&["id", "list"]);
        assert(text::texts(ps@) =~= seq!["id"@, "list"@]);
        return Some(ps);
    }
    if is_takes_id(cmd) {
        let ps = list_of(&["id"]);
        assert(text::texts(ps@) =~= seq!["id"@]);
        return Some(ps);
    }
    if text::same(cmd, "delete_state") {
        let ps = list_of(&["id", "slot"]);
        assert(text::texts(ps@) =~= seq!["id"@, "slot"@]);
        return Some(ps);
    }
    if text::same(cmd, "set_game_core") {
        let ps = list_of(&["id", "core"]);
        assert(text::texts(ps@) =~= seq!["id"@, "core"@]);
        return Some(ps);
    }
    if text::same(cmd, "rom_covers") {
        let ps = list_of(&["ids", "local_only"]);
        assert(text::texts(ps@) =~= seq!["ids"@, "local_only"@]);
        return Some(ps);
    }
    if text::same(cmd, "warm_media") {
        let ps = list_of(&["platform"]);
        assert(text::texts(ps@) =~= seq!["platform"@]);
        return Some(ps);
    }
    if text::same(cmd, "set_config_field") {
        let ps = list_of(&["field", "value"]);
        assert(text::texts(ps@) =~= seq!["field"@, "value"@]);
        return Some(ps);
    }
    if is_takes_value(cmd) {
        let ps = list_of(&["value"]);
        assert(text::texts(ps@) =~= seq!["value"@]);
        return Some(ps);
    }
    if text::same(cmd, "set_autofire_hz") {
        let ps = list_of(&["hz"]);
        assert(text::texts(ps@) =~= seq!["hz"@]);
        return Some(ps);
    }
    if text::same(cmd, "set_system_choice") {
        let ps = list_of(&["slug", "field", "value"]);
        assert(text::texts(ps@) =~= seq!["slug"@, "field"@, "value"@]);
        return Some(ps);
    }
    if text::same(cmd, "set_icon_style") {
        let ps = list_of(&["key"]);
        assert(text::texts(ps@) =~= seq!["key"@]);
        return Some(ps);
    }
    if is_takes_dir(cmd) {
        let ps = list_of(&["dir"]);
        assert(text::texts(ps@) =~= seq!["dir"@]);
        return Some(ps);
    }
    if text::same(cmd, "verify_server") {
        let ps = list_of(&["url", "token", "username", "password"]);
        assert(text::texts(ps@) =~= seq!["url"@, "token"@, "username"@, "password"@]);
        return Some(ps);
    }
    if text::same(cmd, "set_key_binding") {
        let ps = list_of(&["action", "key"]);
        assert(text::texts(ps@) =~= seq!["action"@, "key"@]);
        return Some(ps);
    }
    if text::same(cmd, "set_pad_binding") {
        let ps = list_of(&["action", "index"]);
        assert(text::texts(ps@) =~= seq!["action"@, "index"@]);
        return Some(ps);
    }
    if text::same(cmd, "reset_bindings") {
        let ps = list_of(&["which"]);
        assert(text::texts(ps@) =~= seq!["which"@]);
        return Some(ps);
    }
    if text::same(cmd, "import_bindings") {
        let ps = list_of(&["keys", "pad"]);
        assert(text::texts(ps@) =~= seq!["keys"@, "pad"@]);
        return Some(ps);
    }
    if is_takes_list(cmd) {
        let ps = list_of(&["list"]);
        assert(text::texts(ps@) =~= seq!["list"@]);
        return Some(ps);
    }
    if text::same(cmd, "set_list_order") {
        let ps = list_of(&["list", "order", "preferred"]);
        assert(text::texts(ps@) =~= seq!["list"@, "order"@, "preferred"@]);
        return Some(ps);
    }
    if text::same(cmd, "cycle_list_order") {
        let ps = list_of(&["list", "delta"]);
        assert(text::texts(ps@) =~= seq!["list"@, "delta"@]);
        return Some(ps);
    }
    if text::same(cmd, "toggle_list_filter") {
        let ps = list_of(&["list", "filter"]);
        assert(text::texts(ps@) =~= seq!["list"@, "filter"@]);
        return Some(ps);
    }
    if text::same(cmd, "sort_picker") {
        let ps = list_of(&["kind", "rows"]);
        assert(text::texts(ps@) =~= seq!["kind"@, "rows"@]);
        return Some(ps);
    }
    if text::same(cmd, "picker_controls") {
        let ps = list_of(&["kind"]);
        assert(text::texts(ps@) =~= seq!["kind"@]);
        return Some(ps);
    }
    if text::same(cmd, "set_picker_order") {
        let ps = list_of(&["kind", "order"]);
        assert(text::texts(ps@) =~= seq!["kind"@, "order"@]);
        return Some(ps);
    }
    if text::same(cmd, "set_page_names") {
        let ps = list_of(&["names", "groups"]);
        assert(text::texts(ps@) =~= seq!["names"@, "groups"@]);
        return Some(ps);
    }
    if text::same(cmd, "page_filter") {
        let ps = list_of(&["query"]);
        assert(text::texts(ps@) =~= seq!["query"@]);
        return Some(ps);
    }
    if text::same(cmd, "grid_uniform") {
        let ps = list_of(&["count", "columns"]);
        assert(text::texts(ps@) =~= seq!["count"@, "columns"@]);
        return Some(ps);
    }
    if text::same(cmd, "set_grid") {
        let ps = list_of(&["cards"]);
        assert(text::texts(ps@) =~= seq!["cards"@]);
        return Some(ps);
    }
    if text::same(cmd, "resolve_save_conflict") {
        let ps = list_of(&["file_name", "keep"]);
        assert(text::texts(ps@) =~= seq!["file_name"@, "keep"@]);
        return Some(ps);
    }
    None
}

/// Whether a command acts on the machine somebody is sitting at.
pub open spec fn machine_local(cmd: Seq<char>) -> bool {
    cmd == "launch_rom"@
        || cmd == "set_retroarch_root"@
        || cmd == "open_link"@
        || cmd == "open_settings"@
        || cmd == "sync_library"@
        || cmd == "sync_bios"@
        || cmd == "download_rom"@
        || cmd == "download_set"@
        || cmd == "download_estimate"@
        || cmd == "scrape_missing"@
        || cmd == "app_icons"@
        || cmd == "set_app_icon"@
        || cmd == "android_launch_plan"@
        || cmd == "android_sync_before"@
        || cmd == "android_after_play"@
}

fn is_machine_local(cmd: &str) -> (r: bool)
    ensures
        r == machine_local(cmd@),
{
    text::same(cmd, "launch_rom")
        || text::same(cmd, "set_retroarch_root")
        || text::same(cmd, "open_link")
        || text::same(cmd, "open_settings")
        || text::same(cmd, "sync_library")
        || text::same(cmd, "sync_bios")
        || text::same(cmd, "download_rom")
        || text::same(cmd, "download_set")
        || text::same(cmd, "download_estimate")
        || text::same(cmd, "scrape_missing")
        || text::same(cmd, "app_icons")
        || text::same(cmd, "set_app_icon")
        || text::same(cmd, "android_launch_plan")
        || text::same(cmd, "android_sync_before")
        || text::same(cmd, "android_after_play")
}

/// What is done about a command.
#[derive(Debug)]
pub enum Answer {
    /// It is handed to the backend, with these arguments.
    Backend(Vec<String>),
    /// It is refused, with these words.
    Refused(String),
}

/// What is said of a command that is not handed on. Worded differently for one that
/// cannot work here and for one that nobody knows, so that a typo does not look
/// like a design limit.
pub open spec fn refusal(cmd: Seq<char>) -> Seq<char> {
    if machine_local(cmd) {
        cmd + " is not available on the server"@
    } else {
        "unknown command "@ + cmd
    }
}

/// A thing that cannot work here and a typo are never told in the same words.
pub proof fn law_a_design_limit_is_no_typo(local: Seq<char>, typo: Seq<char>)
    requires
        machine_local(local),
        !machine_local(typo),
    ensures
        refusal(local) != refusal(typo),
{
    reveal_strlit("unknown command ");
    reveal_strlit("launch_rom");
    reveal_strlit("set_retroarch_root");
    reveal_strlit("open_link");
    reveal_strlit("open_settings");
    reveal_strlit("sync_library");
    reveal_strlit("sync_bios");
    reveal_strlit("download_rom");
    reveal_strlit("download_set");
    reveal_strlit("download_estimate");
    reveal_strlit("scrape_missing");
    reveal_strlit("app_icons");
    reveal_strlit("set_app_icon");
    reveal_strlit("android_launch_plan");
    reveal_strlit("android_sync_before");
    reveal_strlit("android_after_play");
    assert(refusal(local)[0] == local[0]);
    assert(refusal(typo)[0] == 'u');
}

/// What is done about a command. There is no logic behind it: every command is the
/// backend's own.
pub fn dispatch(cmd: &str) -> (r: Answer)
    ensures
        match parameters(cmd@) {
            Some(ps) => r is Backend && text::texts(r->Backend_0@) == ps,
            None => r is Refused && r->Refused_0@ == refusal(cmd@),
        },
{
    match parameters_of(cmd) {
        Some(ps) => Answer::Backend(ps),
        None => {
            if is_machine_local(cmd) {
                let mut s = text::owned(cmd);
                s.append(" is not available on the server");
                Answer::Refused(s)
            } else {
                let mut s = text::owned("unknown command ");
                s.append(cmd);
                Answer::Refused(s)
            }
        },
    }
}

// ---------------------------------------------------------------------------
// Files
// ---------------------------------------------------------------------------

/// The directories that artwork is read from, and nothing else.
pub fn media_roots(
    media_dir: &str,
    themes_dir: &str,
    esde_media: Option<&str>,
    theme_root: Option<&str>,
) -> (r: Vec<String>)
    ensures
        text::texts(r@) == seq![media_dir@, themes_dir@] + (match esde_media {
            Some(d) => seq![d@],
            None => Seq::empty(),
        }) + (match theme_root {
            Some(d) => seq![d@],
            None => Seq::empty(),
        }),
{
    let mut out: Vec<String> = Vec::new();
    out.push(text::owned(media_dir));
    out.push(text::owned(themes_dir));
    if let Some(d) = esde_media {
        out.push(text::owned(d));
    }
    if let Some(d) = theme_root {
        out.push(text::owned(d));
    }
    proof {
        let want = seq![media_dir@, themes_dir@] + (match esde_media {
            Some(d) => seq![d@],
            None => Seq::empty(),
        }) + (match theme_root {
            Some(d) => seq![d@],
            None => Seq::empty(),
        });
        assert(text::texts(out@) =~= want);
    }
    out
}

/// Whether a file is below one of some roots.
pub open spec fn confined(roots: Seq<Seq<char>>, full: Seq<char>) -> bool {
    exists|i: int| 0 <= i < roots.len() && paths::under(full, #[trigger] roots[i])
}

/// A requested file, where it is one of those that may be read.
///
/// All paths are canonical: `full` is the one asked for, and a root that could not
/// be made canonical is not among the roots. Compared as they were given,
/// `<media>/../../etc/passwd` would look like it starts with the media directory.
pub fn resolve_media(roots: &Vec<String>, full: Option<&str>, is_file: bool) -> (r: Option<String>)
    ensures
        text::opt(r) == (match full {
            Some(p) => if is_file && confined(text::texts(roots@), p@) {
                Some(p@)
            } else {
                None
            },
            None => None,
        }),
{
    let p = match full {
        Some(p) => p,
        None => {
            return None;
        },
    };
    if !is_file {
        return None;
    }
    let ghost all = text::texts(roots@);
    let mut i: usize = 0;
    while i < roots.len()
        invariant
            all == text::texts(roots@),
            full == Some(p),
            is_file,
            i <= roots@.len(),
            forall|k: int| 0 <= k < i ==> !paths::under(p@, #[trigger] all[k]),
        decreases roots@.len() - i,
    {
        assert(all[i as int] == roots@[i as int]@);
        if paths::is_under(p, &roots[i]) {
            return Some(text::owned(p));
        }
        i += 1;
    }
    None
}

/// A page with the shim ahead of the app's own scripts: after the first `<head>`,
/// where there is one.
pub open spec fn with_shim(html: Seq<char>) -> Seq<char> {
    match text::find(html, "<head>"@) {
        Some(i) => html.take(i) + "<head>\n<script src=\"/__shim.js\"></script>"@ + html.skip(i + 6),
        None => html,
    }
}

/// A page as it goes out: with the shim, or why there is none.
///
/// Rewritten on the way out rather than edited on disk, so that the desktop build
/// keeps its own untouched.
pub fn page(path: &str, html: Option<&str>) -> (r: Result<String, String>)
    ensures
        match html {
            Some(h) => r is Ok && r->Ok_0@ == with_shim(h@),
            None => r is Err && r->Err_0@ == "no "@ + path@,
        },
{
    let h = match html {
        Some(h) => h,
        None => {
            let mut s = text::owned("no ");
            s.append(path);
            return Err(s);
        },
    };
    let t = text::chars_of(h);
    let p = text::chars_of("<head>");
    proof {
        reveal_strlit("<head>");
    }
    match text::position_from(&t, &p, 0) {
        Some(i) => {
            let n: usize = t.len();
            proof {
                text::lemma_find_from(t@, p@, 0);
                assert(i + 6 <= n);
                assert(t@.subrange(0, i as int) =~= t@.take(i as int));
                assert(t@.subrange(i + 6, n as int) =~= t@.skip(i + 6));
            }
            let mut s = text::part(&t, 0, i);
            s.append("<head>\n<script src=\"/__shim.js\"></script>");
            let back = text::part(&t, i + 6, n);
            s.append(&back);
            Ok(s)
        },
        None => Ok(text::owned(h)),
    }
}

} // verus!
