//! Paths as text, the way a Unix path reads.
//!
//! A path is the components between its slashes. Repeated slashes, a slash at
//! the end, and `.` anywhere but at the beginning are no components; a slash
//! at the beginning is one, `/`.

use vstd::prelude::*;
use crate::order;
use crate::text;

verus! {

/// Whether a path begins at the root.
pub open spec fn absolute(p: Seq<char>) -> bool {
    p.len() > 0 && p[0] == '/'
}

/// A path below another. An absolute one stands for itself.
pub open spec fn joined(base: Seq<char>, rest: Seq<char>) -> Seq<char> {
    if absolute(rest) {
        rest
    } else if base.len() > 0 && base.last() != '/' {
        base + "/"@ + rest
    } else {
        base + rest
    }
}

/// Whether the piece of a path at `i` is a component.
pub open spec fn counts(piece: Seq<char>, i: int) -> bool {
    piece.len() > 0 && !(piece == "."@ && i > 0)
}

/// The components among the pieces of a path.
pub open spec fn counted(pieces: Seq<Seq<char>>) -> Seq<Seq<char>>
    decreases pieces.len(),
{
    if pieces.len() == 0 {
        Seq::empty()
    } else {
        let rest = counted(pieces.drop_last());
        if counts(pieces.last(), pieces.len() - 1) {
            rest.push(pieces.last())
        } else {
            rest
        }
    }
}

/// The components of a path.
pub open spec fn components(p: Seq<char>) -> Seq<Seq<char>> {
    let names = counted(text::split(p, '/'));
    if absolute(p) {
        seq!["/"@] + names
    } else {
        names
    }
}

/// Whether a component is the name of something: not `/`, `.` or `..`.
pub open spec fn is_name(c: Seq<char>) -> bool {
    c != "/"@ && c != "."@ && c != ".."@
}

/// The name of the file or directory a path leads to.
pub open spec fn name(p: Seq<char>) -> Option<Seq<char>> {
    let c = components(p);
    if c.len() > 0 && is_name(c.last()) {
        Some(c.last())
    } else {
        None
    }
}

/// The name of the directory that the path's last component is in.
pub open spec fn parent_name(p: Seq<char>) -> Option<Seq<char>> {
    let c = components(p);
    if c.len() > 1 && c.last() != "/"@ && is_name(c[c.len() - 2]) {
        Some(c[c.len() - 2])
    } else {
        None
    }
}

/// Whether a path is a directory or below it.
pub open spec fn under(p: Seq<char>, dir: Seq<char>) -> bool {
    components(dir).is_prefix_of(components(p))
}

/// Where components come in the order of paths: the root, `.`, `..`, names.
pub open spec fn rank(c: Seq<char>) -> int {
    if c == "/"@ {
        0
    } else if c == "."@ {
        1
    } else if c == ".."@ {
        2
    } else {
        3
    }
}

/// Whether a component comes before another.
pub open spec fn component_less(a: Seq<char>, b: Seq<char>) -> bool {
    rank(a) < rank(b) || (rank(a) == 3 && rank(b) == 3 && order::less(a, b))
}

/// Whether a list of components comes before another.
pub open spec fn components_less(a: Seq<Seq<char>>, b: Seq<Seq<char>>) -> bool
    decreases a.len(),
{
    if b.len() == 0 {
        false
    } else if a.len() == 0 {
        true
    } else if a[0] != b[0] {
        component_less(a[0], b[0])
    } else {
        components_less(a.skip(1), b.skip(1))
    }
}

/// Whether a path comes before another.
pub open spec fn less(a: Seq<char>, b: Seq<char>) -> bool {
    components_less(components(a), components(b))
}

/// A path below another. An absolute one stands for itself.
pub fn join(base: &str, rest: &str) -> (r: String)
    ensures
        r@ == joined(base@, rest@),
{
    let b = text::chars_of(base);
    let c = text::chars_of(rest);
    if c.len() > 0 && c[0] == '/' {
        return text::owned(rest);
    }
    let mut out = text::owned(base);
    let n: usize = b.len();
    if n > 0 && b[n - 1] != '/' {
        out.append("/");
    }
    out.append(rest);
    out
}

/// The components of a path.
pub fn components_of(p: &str) -> (r: Vec<String>)
    ensures
        text::texts(r@) == components(p@),
{
    let pieces = text::pieces(p, '/');
    let ghost all = text::texts(pieces@);
    let c = text::chars_of(p);
    let mut out: Vec<String> = Vec::new();
    if c.len() > 0 && c[0] == '/' {
        out.push(text::owned("/"));
    }
    let ghost root = text::texts(out@);
    assert(root =~= if absolute(p@) {
        seq!["/"@]
    } else {
        Seq::empty()
    });
    assert(root + counted(all.take(0)) =~= root);
    let mut i: usize = 0;
    while i < pieces.len()
        invariant
            i <= pieces@.len(),
            all == text::texts(pieces@),
            text::texts(out@) == root + counted(all.take(i as int)),
        decreases pieces@.len() - i,
    {
        assert(all.take(i + 1).drop_last() =~= all.take(i as int));
        let ghost before = text::texts(out@);
        let is_here = text::same(&pieces[i], ".");
        if !text::is_empty(&pieces[i]) && !(is_here && i > 0) {
            out.push(pieces[i].clone());
            assert(text::texts(out@) =~= before.push(all[i as int]));
            assert(before.push(all[i as int]) =~= root + counted(all.take(i as int)).push(
                all[i as int],
            ));
        }
        i += 1;
    }
    assert(all.take(pieces@.len() as int) =~= all);
    assert(text::texts(out@) =~= components(p@));
    out
}

fn is_name_of(c: &str) -> (r: bool)
    ensures
        r == is_name(c@),
{
    !text::same(c, "/") && !text::same(c, ".") && !text::same(c, "..")
}

/// The name of the file or directory a path leads to.
pub fn file_name(p: &str) -> (r: Option<String>)
    ensures
        text::opt(r) == name(p@),
{
    let c = components_of(p);
    let n: usize = c.len();
    let ghost all = text::texts(c@);
    assert(all.len() == n);
    if n > 0 {
        assert(all[n - 1] == c@[n - 1]@);
        if is_name_of(&c[n - 1]) {
            return Some(c[n - 1].clone());
        }
    }
    None
}

/// The name of the directory that the path's last component is in.
pub fn parent_file_name(p: &str) -> (r: Option<String>)
    ensures
        text::opt(r) == parent_name(p@),
{
    let c = components_of(p);
    let n: usize = c.len();
    let ghost all = text::texts(c@);
    assert(all.len() == n);
    if n > 1 {
        assert(all[n - 1] == c@[n - 1]@);
        assert(all[n - 2] == c@[n - 2]@);
        if !text::same(&c[n - 1], "/") && is_name_of(&c[n - 2]) {
            return Some(c[n - 2].clone());
        }
    }
    None
}

/// Whether one list of texts begins with another.
pub fn begins_with(a: &Vec<String>, b: &Vec<String>) -> (r: bool)
    ensures
        r == text::texts(b@).is_prefix_of(text::texts(a@)),
{
    if b.len() > a.len() {
        return false;
    }
    let ghost ta = text::texts(a@);
    let ghost tb = text::texts(b@);
    let mut i: usize = 0;
    while i < b.len()
        invariant
            i <= b@.len() <= a@.len(),
            ta == text::texts(a@),
            tb == text::texts(b@),
            forall|j: int| 0 <= j < i ==> ta[j] == tb[j],
        decreases b@.len() - i,
    {
        assert(ta[i as int] == a@[i as int]@ && tb[i as int] == b@[i as int]@);
        if !text::same(&a[i], &b[i]) {
            assert(ta.subrange(0, tb.len() as int)[i as int] != tb[i as int]);
            return false;
        }
        i += 1;
    }
    assert(tb =~= ta.subrange(0, tb.len() as int));
    true
}

/// Whether a path is a directory or below it.
pub fn is_under(p: &str, dir: &str) -> (r: bool)
    ensures
        r == under(p@, dir@),
{
    begins_with(&components_of(p), &components_of(dir))
}

/// Whether two paths have the same components.
pub fn same_path(a: &str, b: &str) -> (r: bool)
    ensures
        r == (components(a@) == components(b@)),
{
    let a = components_of(a);
    let b = components_of(b);
    let r = a.len() == b.len() && begins_with(&a, &b);
    assert(text::texts(a@).subrange(0, text::texts(a@).len() as int) =~= text::texts(a@));
    r
}

fn rank_of(c: &str) -> (r: u8)
    ensures
        r == rank(c@),
{
    if text::same(c, "/") {
        0
    } else if text::same(c, ".") {
        1
    } else if text::same(c, "..") {
        2
    } else {
        3
    }
}

/// Whether a path comes before another.
pub fn is_less(a: &str, b: &str) -> (r: bool)
    ensures
        r == less(a@, b@),
{
    let x = components_of(a);
    let y = components_of(b);
    let ghost ta = text::texts(x@);
    let ghost tb = text::texts(y@);
    let mut i: usize = 0;
    assert(ta.skip(0) =~= ta);
    assert(tb.skip(0) =~= tb);
    loop
        invariant
            i <= x@.len(),
            i <= y@.len(),
            ta == text::texts(x@),
            tb == text::texts(y@),
            ta == components(a@),
            tb == components(b@),
            components_less(ta, tb) == components_less(ta.skip(i as int), tb.skip(i as int)),
        decreases x@.len() - i,
    {
        let ghost ra = ta.skip(i as int);
        let ghost rb = tb.skip(i as int);
        if i >= y.len() {
            return false;
        }
        if i >= x.len() {
            return true;
        }
        assert(ra[0] == x@[i as int]@ && rb[0] == y@[i as int]@);
        if !text::same(&x[i], &y[i]) {
            let rx: u8 = rank_of(&x[i]);
            let ry: u8 = rank_of(&y[i]);
            return rx < ry || (rx == 3 && ry == 3 && order::is_less(&x[i], &y[i]));
        }
        assert(ra.skip(1) =~= ta.skip(i + 1));
        assert(rb.skip(1) =~= tb.skip(i + 1));
        i += 1;
    }
}

/// Where the `k`-th component stands among the pieces from `i` on; past the end
/// where there are not so many.
pub open spec fn piece_of(pieces: Seq<Seq<char>>, k: int, i: int) -> int
    decreases pieces.len() - i,
{
    if i < 0 || i >= pieces.len() {
        pieces.len() as int
    } else if counts(pieces[i], i) {
        if k <= 0 {
            i
        } else {
            piece_of(pieces, k - 1, i + 1)
        }
    } else {
        piece_of(pieces, k, i + 1)
    }
}

/// Where the last component before `n` stands among the pieces, or -1.
pub open spec fn last_piece(pieces: Seq<Seq<char>>, n: int) -> int
    decreases n,
{
    if n <= 0 {
        -1
    } else if n <= pieces.len() && counts(pieces[n - 1], n - 1) {
        n - 1
    } else {
        last_piece(pieces, n - 1)
    }
}

/// What is left of the text of a path after its first `n` components: from the
/// next component to the last.
pub open spec fn rest(p: Seq<char>, n: int) -> Seq<char> {
    let pieces = text::split(p, '/');
    let last = last_piece(pieces, pieces.len() as int);
    if absolute(p) && n == 0 {
        if last < 0 {
            "/"@
        } else {
            text::join(pieces.take(last + 1), "/"@)
        }
    } else {
        let skipped = if absolute(p) {
            n - 1
        } else {
            n
        };
        let first = piece_of(pieces, skipped, 0);
        if first > last {
            Seq::empty()
        } else {
            text::join(pieces.subrange(first, last + 1), "/"@)
        }
    }
}

/// What is left of a path below a directory it is under.
pub open spec fn below(p: Seq<char>, dir: Seq<char>) -> Option<Seq<char>> {
    if under(p, dir) {
        Some(rest(p, components(dir).len() as int))
    } else {
        None
    }
}

fn counts_of(piece: &str, i: usize) -> (r: bool)
    ensures
        r == counts(piece@, i as int),
{
    !text::is_empty(piece) && !(i > 0 && text::same(piece, "."))
}

fn piece_of_exec(pieces: &Vec<String>, k: usize) -> (r: usize)
    ensures
        r == piece_of(text::texts(pieces@), k as int, 0),
        r <= pieces@.len(),
{
    let ghost all = text::texts(pieces@);
    let mut i: usize = 0;
    let mut left: usize = k;
    while i < pieces.len()
        invariant
            i <= pieces@.len(),
            all == text::texts(pieces@),
            piece_of(all, k as int, 0) == piece_of(all, left as int, i as int),
        decreases pieces@.len() - i,
    {
        assert(all[i as int] == pieces@[i as int]@);
        if counts_of(&pieces[i], i) {
            if left == 0 {
                return i;
            }
            left -= 1;
        }
        i += 1;
    }
    pieces.len()
}

/// One more than where the last component stands among the pieces.
fn after_last_piece(pieces: &Vec<String>) -> (r: usize)
    ensures
        r == last_piece(text::texts(pieces@), pieces@.len() as int) + 1,
        r <= pieces@.len(),
{
    let ghost all = text::texts(pieces@);
    let mut n: usize = pieces.len();
    while n > 0
        invariant
            n <= pieces@.len(),
            all == text::texts(pieces@),
            last_piece(all, pieces@.len() as int) == last_piece(all, n as int),
        decreases n,
    {
        assert(all[n - 1] == pieces@[n - 1]@);
        if counts_of(&pieces[n - 1], n - 1) {
            return n;
        }
        n -= 1;
    }
    0
}

/// What is left of a path below a directory, where it is under it.
pub fn strip_prefix(p: &str, dir: &str) -> (r: Option<String>)
    ensures
        text::opt(r) == below(p@, dir@),
{
    if !is_under(p, dir) {
        return None;
    }
    let d = components_of(dir);
    let n: usize = d.len();
    assert(text::texts(d@).len() == n);
    let pieces = text::pieces(p, '/');
    let ghost all = text::texts(pieces@);
    let c = text::chars_of(p);
    let root = c.len() > 0 && c[0] == '/';
    let end: usize = after_last_piece(&pieces);
    if root && n == 0 {
        if end == 0 {
            return Some(text::owned("/"));
        }
        let some = text::copied(&pieces, 0, end);
        assert(all.subrange(0, end as int) =~= all.take(end as int));
        return Some(text::joined(&some, "/"));
    }
    let skipped: usize = if root {
        n - 1
    } else {
        n
    };
    let first: usize = piece_of_exec(&pieces, skipped);
    if first >= end {
        return Some(String::new());
    }
    let some = text::copied(&pieces, first, end);
    Some(text::joined(&some, "/"))
}

} // verus!
