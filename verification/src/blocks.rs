//! Marked blocks in a text config.
//!
//! A block is the lines between a pair of markers. Rewriting between a
//! matched pair is what makes a change idempotent, and what makes taking it
//! back possible without remembering what the file looked like before.
//!
//! A `key=value` file is read first-wins, so a line above the block that sets
//! a key the block also sets is hidden: commented out on a marker that keeps
//! it as it was. Clearing the block puts such lines back.

use vstd::prelude::*;
use crate::failure::Failure;
use crate::lines;
use crate::text;

verus! {

/// The line a block begins with.
pub open spec fn open_marker(id: Seq<char>) -> Seq<char> {
    "## moose-patch: "@ + id
}

/// The line a block ends with.
pub open spec fn close_marker(id: Seq<char>) -> Seq<char> {
    "## moose-patch: "@ + id + " end"@
}

/// What stands before a line that a block displaced.
///
/// Longer than the opening marker, which a trimmed line is compared with for
/// equality, so it can never be mistaken for one.
pub open spec fn hidden_marker(id: Seq<char>) -> Seq<char> {
    "## moose-patch: "@ + id + " hid: "@
}

/// The key of a `key=value` line; comments and blanks have none.
pub open spec fn key(line: Seq<char>) -> Option<Seq<char>> {
    let l = text::trim(line);
    if l.len() == 0 || l[0] == '#' {
        None
    } else {
        match text::cut(l, '=') {
            Some((k, _)) => if text::trim(k).len() > 0 {
                Some(text::trim(k))
            } else {
                None
            },
            None => None,
        }
    }
}

/// The value of a `key=value` line.
pub open spec fn value(line: Seq<char>) -> Seq<char> {
    match text::cut(line, '=') {
        Some((_, v)) => text::trim(v),
        None => Seq::empty(),
    }
}

/// The keys that some lines set, in their order.
pub open spec fn keys(ls: Seq<Seq<char>>) -> Seq<Seq<char>>
    decreases ls.len(),
{
    if ls.len() == 0 {
        Seq::empty()
    } else {
        let rest = keys(ls.drop_last());
        match key(ls.last()) {
            Some(k) => rest.push(k),
            None => rest,
        }
    }
}

/// The first of some lines that sets a key, if one does.
pub open spec fn first_setting(ls: Seq<Seq<char>>, k: Seq<char>) -> Option<int>
    decreases ls.len(),
{
    if ls.len() == 0 {
        None
    } else {
        match first_setting(ls.drop_last(), k) {
            Some(i) => Some(i),
            None => if key(ls.last()) == Some(k) {
                Some(ls.len() - 1)
            } else {
                None
            },
        }
    }
}

/// The value a first-wins reader takes for a key from some lines.
pub open spec fn setting(ls: Seq<Seq<char>>, k: Seq<char>) -> Option<Seq<char>> {
    match first_setting(ls, k) {
        Some(i) => Some(value(ls[i])),
        None => None,
    }
}

/// Every key that `body` sets reads, in `ls`, as the value `body` gives it.
pub open spec fn holds(ls: Seq<Seq<char>>, body: Seq<Seq<char>>) -> bool {
    forall|i: int|
        0 <= i < keys(body).len() ==> setting(ls, #[trigger] keys(body)[i]) == setting(
            body,
            keys(body)[i],
        )
}

/// The first of some lines that, trimmed, is the marker.
pub open spec fn first_marked(ls: Seq<Seq<char>>, marker: Seq<char>) -> Option<int>
    decreases ls.len(),
{
    if ls.len() == 0 {
        None
    } else {
        match first_marked(ls.drop_last(), marker) {
            Some(i) => Some(i),
            None => if text::trim(ls.last()) == marker {
                Some(ls.len() - 1)
            } else {
                None
            },
        }
    }
}

/// The lines of a block: those after the first opening marker and before the
/// first end marker below it. There is no block where either is missing.
pub open spec fn block_lines(ls: Seq<Seq<char>>, id: Seq<char>) -> Option<Seq<Seq<char>>> {
    match first_marked(ls, open_marker(id)) {
        None => None,
        Some(s) => match first_marked(ls.skip(s + 1), close_marker(id)) {
            None => None,
            Some(n) => Some(ls.subrange(s + 1, s + 1 + n)),
        },
    }
}

/// The body of a block of a text.
pub open spec fn block_body(t: Seq<char>, id: Seq<char>) -> Option<Seq<char>> {
    match block_lines(lines::lines(t), id) {
        Some(ls) => Some(text::join(ls, lines::feed())),
        None => None,
    }
}

/// Whether the last marker among some lines opens a block.
pub open spec fn unclosed(ls: Seq<Seq<char>>, id: Seq<char>) -> bool
    decreases ls.len(),
{
    if ls.len() == 0 {
        false
    } else if text::trim(ls.last()) == close_marker(id) {
        false
    } else if text::trim(ls.last()) == open_marker(id) {
        true
    } else {
        unclosed(ls.drop_last(), id)
    }
}

/// The lines that are no marker and stand in no block.
pub open spec fn outside(ls: Seq<Seq<char>>, id: Seq<char>) -> Seq<Seq<char>>
    decreases ls.len(),
{
    if ls.len() == 0 {
        Seq::empty()
    } else {
        let rest = outside(ls.drop_last(), id);
        let l = text::trim(ls.last());
        if l == close_marker(id) || l == open_marker(id) || unclosed(ls.drop_last(), id) {
            rest
        } else {
            rest.push(ls.last())
        }
    }
}

/// A line as it was before it was hidden.
pub open spec fn unhidden(line: Seq<char>, marker: Seq<char>) -> Seq<char> {
    match text::after(text::trim_start(line), marker) {
        Some(original) => original,
        None => line,
    }
}

/// A line hidden if it sets one of the keys.
pub open spec fn hidden(line: Seq<char>, marker: Seq<char>, ks: Seq<Seq<char>>) -> Seq<char> {
    match key(line) {
        Some(k) => if ks.contains(k) {
            marker + line
        } else {
            line
        },
        None => line,
    }
}

/// A text with every line that the block hid put back.
pub open spec fn shown(t: Seq<char>, id: Seq<char>) -> Seq<char> {
    let ls = lines::lines(t).map_values(|l: Seq<char>| unhidden(l, hidden_marker(id)));
    lines::closed_off(text::join(ls, lines::feed()))
}

/// A text with every line hidden that sets one of the keys.
pub open spec fn covered(t: Seq<char>, id: Seq<char>, ks: Seq<Seq<char>>) -> Seq<char> {
    if ks.len() == 0 {
        t
    } else {
        let ls = lines::lines(t).map_values(|l: Seq<char>| hidden(l, hidden_marker(id), ks));
        lines::closed_off(text::join(ls, lines::feed()))
    }
}

/// A text with at most two line feeds at its end.
pub open spec fn short_end(t: Seq<char>) -> Seq<char>
    decreases t.len(),
{
    if t.len() >= 3 && t[t.len() - 1] == '\n' && t[t.len() - 2] == '\n' && t[t.len() - 3] == '\n' {
        short_end(t.drop_last())
    } else {
        t
    }
}

/// The text without the block, where every block that opens also ends.
pub open spec fn cleared(t: Seq<char>, id: Seq<char>) -> Option<Seq<char>> {
    let ls = lines::lines(shown(t, id));
    if unclosed(ls, id) {
        None
    } else {
        Some(lines::closed_off(short_end(text::join(outside(ls, id), lines::feed()))))
    }
}

/// What is said of a block that opens and never ends.
pub open spec fn unclosed_message(id: Seq<char>) -> Seq<char> {
    "`"@ + open_marker(id) + "` has no `"@ + close_marker(id)
        + "` after it, so where the block ends is unknown"@
}

/// A text with the block at its end: `rest`, a blank line, the block.
pub open spec fn with_block(rest: Seq<char>, id: Seq<char>, body: Seq<char>) -> Seq<char> {
    let front = text::trim_end(rest);
    let front = if front.len() > 0 {
        front + "\n\n"@
    } else {
        front
    };
    (front + open_marker(id)).push('\n') + text::trim_end(body).push('\n') + close_marker(id).push('\n')
}

/// The text with the block in it, in place of any it had before.
pub open spec fn block_set(t: Seq<char>, id: Seq<char>, body: Seq<char>) -> Option<Seq<char>> {
    match cleared(t, id) {
        Some(c) => Some(with_block(covered(c, id, keys(lines::lines(body))), id, body)),
        None => None,
    }
}

fn open_marker_of(id: &str) -> (r: String)
    ensures
        r@ == open_marker(id@),
{
    let mut s = text::owned("## moose-patch: ");
    s.append(id);
    s
}

fn close_marker_of(id: &str) -> (r: String)
    ensures
        r@ == close_marker(id@),
{
    let mut s = text::owned("## moose-patch: ");
    s.append(id);
    s.append(" end");
    s
}

fn hidden_marker_of(id: &str) -> (r: String)
    ensures
        r@ == hidden_marker(id@),
{
    let mut s = text::owned("## moose-patch: ");
    s.append(id);
    s.append(" hid: ");
    s
}

/// The key of a `key=value` line, ignoring comments and blanks.
pub fn key_of(line: &str) -> (r: Option<String>)
    ensures
        text::opt(r) == key(line@),
{
    let line = text::trimmed(line);
    let c = text::chars_of(&line);
    if c.len() == 0 || c[0] == '#' {
        return None;
    }
    match text::split_once(&line, '=') {
        Some((k, _)) => {
            let k = text::trimmed(&k);
            if text::is_empty(&k) {
                None
            } else {
                Some(k)
            }
        },
        None => None,
    }
}

/// The value of a `key=value` line; empty where there is no `=`.
pub fn value_of(line: &str) -> (r: String)
    ensures
        r@ == value(line@),
{
    match text::split_once(line, '=') {
        Some((_, v)) => text::trimmed(&v),
        None => String::new(),
    }
}

/// The keys that some lines set, in their order.
pub fn keys_of(ls: &Vec<String>) -> (r: Vec<String>)
    ensures
        text::texts(r@) == keys(text::texts(ls@)),
{
    let mut out: Vec<String> = Vec::new();
    let mut i: usize = 0;
    let ghost all = text::texts(ls@);
    while i < ls.len()
        invariant
            i <= ls@.len(),
            all == text::texts(ls@),
            text::texts(out@) == keys(all.take(i as int)),
        decreases ls@.len() - i,
    {
        assert(all.take(i + 1).drop_last() =~= all.take(i as int));
        let ghost before = text::texts(out@);
        match key_of(&ls[i]) {
            Some(k) => {
                out.push(k);
                assert(text::texts(out@) =~= before.push(k@));
            },
            None => {},
        }
        i += 1;
    }
    assert(all.take(ls@.len() as int) =~= all);
    out
}

/// Where the first of some lines sets a key.
fn first_setting_of(ls: &Vec<String>, k: &str) -> (r: Option<usize>)
    ensures
        match r {
            Some(i) => i < ls@.len() && first_setting(text::texts(ls@), k@) == Some(i as int),
            None => first_setting(text::texts(ls@), k@) is None,
        },
{
    let mut i: usize = 0;
    let ghost all = text::texts(ls@);
    while i < ls.len()
        invariant
            i <= ls@.len(),
            all == text::texts(ls@),
            first_setting(all.take(i as int), k@) is None,
        decreases ls@.len() - i,
    {
        assert(all.take(i + 1).drop_last() =~= all.take(i as int));
        match key_of(&ls[i]) {
            Some(found) => {
                if text::same(&found, k) {
                    proof {
                        lemma_first_setting_prefix(all, i + 1, k@);
                    }
                    return Some(i);
                }
            },
            None => {},
        }
        i += 1;
    }
    assert(all.take(ls@.len() as int) =~= all);
    None
}

/// The first line that sets a key among some is the first among more.
pub proof fn lemma_first_setting_prefix(ls: Seq<Seq<char>>, n: int, k: Seq<char>)
    requires
        0 <= n <= ls.len(),
        first_setting(ls.take(n), k) is Some,
    ensures
        first_setting(ls, k) == first_setting(ls.take(n), k),
    decreases ls.len() - n,
{
    if n < ls.len() {
        assert(ls.take(n + 1).drop_last() =~= ls.take(n));
        lemma_first_setting_prefix(ls, n + 1, k);
    } else {
        assert(ls.take(n) =~= ls);
    }
}

/// The value a first-wins reader takes for `key`: that of the first live
/// `key=value` line from the top of the file.
pub fn effective(text: &str, key: &str) -> (r: Option<String>)
    ensures
        text::opt(r) == setting(lines::lines(text@), key@),
{
    let ls = lines::lines_of(text);
    match first_setting_of(&ls, key) {
        Some(i) => {
            assert(text::texts(ls@)[i as int] == ls@[i as int]@);
            Some(value_of(&ls[i]))
        },
        None => None,
    }
}

/// Every key in `body` reads, in `text`, as the value `body` gives it.
///
/// The block being in the file is not enough: a line put above it wins.
pub fn in_force(text: &str, body: &str) -> (r: bool)
    ensures
        r == holds(lines::lines(text@), lines::lines(body@)),
{
    let ls = lines::lines_of(body);
    let ks = keys_of(&ls);
    let ghost all = text::texts(ks@);
    let mut i: usize = 0;
    while i < ks.len()
        invariant
            i <= ks@.len(),
            all == text::texts(ks@),
            all == keys(lines::lines(body@)),
            forall|j: int|
                0 <= j < i ==> setting(lines::lines(text@), #[trigger] all[j]) == setting(
                    lines::lines(body@),
                    all[j],
                ),
        decreases ks@.len() - i,
    {
        assert(all[i as int] == ks@[i as int]@);
        if !text::same_option(&effective(text, &ks[i]), &effective(body, &ks[i])) {
            return false;
        }
        i += 1;
    }
    true
}

/// Where the first of some lines is, trimmed, the marker.
fn first_marked_of(ls: &Vec<String>, n: usize, marker: &str) -> (r: Option<usize>)
    requires
        n <= ls@.len(),
    ensures
        match r {
            Some(i) => i < n && first_marked(text::texts(ls@).take(n as int), marker@) == Some(i as int),
            None => first_marked(text::texts(ls@).take(n as int), marker@) is None,
        },
{
    let mut i: usize = 0;
    let ghost all = text::texts(ls@);
    while i < n
        invariant
            i <= n <= ls@.len(),
            all == text::texts(ls@),
            first_marked(all.take(i as int), marker@) is None,
        decreases n - i,
    {
        assert(all.take(i + 1).drop_last() =~= all.take(i as int));
        let line = text::trimmed(&ls[i]);
        if text::same(&line, marker) {
            proof {
                assert(all.take(n as int).take(i + 1) =~= all.take(i + 1));
                lemma_first_marked_prefix(all.take(n as int), i + 1, marker@);
            }
            return Some(i);
        }
        i += 1;
    }
    None
}

/// The first marked line among some is the first among more.
pub proof fn lemma_first_marked_prefix(ls: Seq<Seq<char>>, n: int, marker: Seq<char>)
    requires
        0 <= n <= ls.len(),
        first_marked(ls.take(n), marker) is Some,
    ensures
        first_marked(ls, marker) == first_marked(ls.take(n), marker),
    decreases ls.len() - n,
{
    if n < ls.len() {
        assert(ls.take(n + 1).drop_last() =~= ls.take(n));
        lemma_first_marked_prefix(ls, n + 1, marker);
    } else {
        assert(ls.take(n) =~= ls);
    }
}

/// The body between the markers, if the block is there at all.
pub fn read_block(text: &str, id: &str) -> (r: Option<String>)
    ensures
        text::opt(r) == block_body(text@, id@),
{
    let ls = lines::lines_of(text);
    let n: usize = ls.len();
    let ghost all = text::texts(ls@);
    assert(all.take(n as int) =~= all);
    let close = close_marker_of(id);
    let open = open_marker_of(id);
    match first_marked_of(&ls, n, &open) {
        None => None,
        Some(s) => {
            let below = text::copied(&ls, s + 1, n);
            let m: usize = below.len();
            assert(text::texts(below@) =~= all.skip(s + 1));
            assert(text::texts(below@).take(m as int) =~= text::texts(below@));
            match first_marked_of(&below, m, &close) {
                None => None,
                Some(e) => {
                    let body = text::copied(&below, 0, e);
                    assert(text::texts(body@) =~= all.subrange(s + 1, s + 1 + e));
                    Some(lines::join_lines(&body))
                },
            }
        },
    }
}

/// Comments out every line that sets one of the keys.
///
/// The displaced line is kept as it is on its marker, so that [`unhide`] can
/// put it back exactly.
fn hide_keys(text: &str, id: &str, ks: &Vec<String>) -> (r: String)
    ensures
        r@ == covered(text@, id@, text::texts(ks@)),
{
    if ks.len() == 0 {
        return text::owned(text);
    }
    let marker = hidden_marker_of(id);
    let ls = lines::lines_of(text);
    let ghost all = text::texts(ls@);
    let ghost want = all.map_values(|l: Seq<char>| hidden(l, hidden_marker(id@), text::texts(ks@)));
    let mut out: Vec<String> = Vec::new();
    let mut i: usize = 0;
    while i < ls.len()
        invariant
            i <= ls@.len(),
            all == text::texts(ls@),
            marker@ == hidden_marker(id@),
            want == all.map_values(|l: Seq<char>| hidden(l, hidden_marker(id@), text::texts(ks@))),
            text::texts(out@) == want.take(i as int),
        decreases ls@.len() - i,
    {
        let ghost before = text::texts(out@);
        let hide = match key_of(&ls[i]) {
            Some(k) => text::list_has(ks, &k),
            None => false,
        };
        let line = if hide {
            let mut l = marker.clone();
            l.append(&ls[i]);
            l
        } else {
            ls[i].clone()
        };
        out.push(line);
        assert(text::texts(out@) =~= before.push(line@));
        assert(want.take(i + 1) =~= before.push(line@));
        i += 1;
    }
    assert(want.take(ls@.len() as int) =~= want);
    lines::close_off(&lines::join_lines(&out))
}

/// Puts back every line this block hid.
fn unhide(text: &str, id: &str) -> (r: String)
    ensures
        r@ == shown(text@, id@),
{
    let marker = hidden_marker_of(id);
    let ls = lines::lines_of(text);
    let ghost all = text::texts(ls@);
    let ghost want = all.map_values(|l: Seq<char>| unhidden(l, hidden_marker(id@)));
    let mut out: Vec<String> = Vec::new();
    let mut i: usize = 0;
    while i < ls.len()
        invariant
            i <= ls@.len(),
            all == text::texts(ls@),
            marker@ == hidden_marker(id@),
            want == all.map_values(|l: Seq<char>| unhidden(l, hidden_marker(id@))),
            text::texts(out@) == want.take(i as int),
        decreases ls@.len() - i,
    {
        let ghost before = text::texts(out@);
        let line = match text::strip_prefix(&text::without_leading(&ls[i]), &marker) {
            Some(original) => original,
            None => ls[i].clone(),
        };
        out.push(line);
        assert(text::texts(out@) =~= before.push(line@));
        assert(want.take(i + 1) =~= before.push(line@));
        i += 1;
    }
    assert(want.take(ls@.len() as int) =~= want);
    lines::close_off(&lines::join_lines(&out))
}

/// The text with at most two line feeds at its end.
fn shorten_end(t: &str) -> (r: String)
    ensures
        r@ == short_end(t@),
{
    let t = text::chars_of(t);
    let mut n: usize = t.len();
    assert(t@.take(n as int) =~= t@);
    while n >= 3 && t[n - 1] == '\n' && t[n - 2] == '\n' && t[n - 3] == '\n'
        invariant
            n <= t@.len(),
            short_end(t@) == short_end(t@.take(n as int)),
        decreases n,
    {
        assert(t@.take(n as int).drop_last() =~= t@.take(n - 1));
        n -= 1;
    }
    assert(t@.take(n as int) =~= t@.subrange(0, n as int));
    text::part(&t, 0, n)
}

/// Takes a block out, markers and all, leaving the rest of the file alone.
///
/// Whatever the block wrote over comes back first. An opening marker with no
/// end marker after it is refused: everything below it would otherwise count
/// as the block and go with it.
pub fn clear_block(text: &str, id: &str) -> (r: Result<String, Failure>)
    ensures
        match r {
            Ok(t) => cleared(text@, id@) == Some(t@),
            Err(e) => cleared(text@, id@) is None && e@ == seq![unclosed_message(id@)],
        },
{
    let whole = unhide(text, id);
    let ls = lines::lines_of(&whole);
    let ghost all = text::texts(ls@);
    let open = open_marker_of(id);
    let close = close_marker_of(id);
    let mut out: Vec<String> = Vec::new();
    let mut inside: bool = false;
    let mut i: usize = 0;
    while i < ls.len()
        invariant
            i <= ls@.len(),
            all == text::texts(ls@),
            open@ == open_marker(id@),
            close@ == close_marker(id@),
            inside == unclosed(all.take(i as int), id@),
            text::texts(out@) == outside(all.take(i as int), id@),
        decreases ls@.len() - i,
    {
        assert(all.take(i + 1).drop_last() =~= all.take(i as int));
        let ghost before = text::texts(out@);
        let line = text::trimmed(&ls[i]);
        if text::same(&line, &close) {
            inside = false;
        } else if text::same(&line, &open) {
            inside = true;
        } else if !inside {
            out.push(ls[i].clone());
            assert(text::texts(out@) =~= before.push(all[i as int]));
        }
        i += 1;
    }
    assert(all.take(ls@.len() as int) =~= all);
    if inside {
        let mut why = text::owned("`");
        why.append(&open);
        why.append("` has no `");
        why.append(&close);
        why.append("` after it, so where the block ends is unknown");
        return Err(Failure::new(&why));
    }
    let body = shorten_end(&lines::join_lines(&out));
    Ok(lines::close_off(&body))
}

/// Puts a block in, replacing any previous one. Appends when there was none.
pub fn set_block(text: &str, id: &str, body: &str) -> (r: Result<String, Failure>)
    ensures
        match r {
            Ok(t) => block_set(text@, id@, body@) == Some(t@),
            Err(e) => block_set(text@, id@, body@) is None && e@ == seq![unclosed_message(id@)],
        },
{
    let rest = match clear_block(text, id) {
        Ok(rest) => rest,
        Err(e) => return Err(e),
    };
    let ks = keys_of(&lines::lines_of(body));
    // Hidden before the block is appended, so that the block's own lines,
    // which set the very keys being hidden, are not swept up by it.
    let rest = hide_keys(&rest, id, &ks);
    let mut out = text::without_trailing(&rest);
    if !text::is_empty(&out) {
        out.append("\n\n");
    }
    let ghost front = out@;
    out.append(&open_marker_of(id));
    out.push('\n');
    out.append(&text::without_trailing(body));
    out.push('\n');
    out.append(&close_marker_of(id));
    out.push('\n');
    assert(out@ =~= with_block(rest@, id@, body@));
    Ok(out)
}

} // verus!
