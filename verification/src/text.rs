//! Text as a sequence of characters: searching, trimming, splitting, joining.
//!
//! The executable functions walk the characters of a `str` once, into a
//! vector, and work there by index. What they compute is stated over
//! `Seq<char>`.

use vstd::prelude::*;

verus! {

/// `String::push` appends the given character to the end of the string.
pub assume_specification[ String::push ](s: &mut String, c: char)
    ensures
        final(s)@ == old(s)@.push(c),
;

/// The views of a sequence of strings.
pub open spec fn texts(v: Seq<String>) -> Seq<Seq<char>> {
    v.map_values(|s: String| s@)
}

/// The view of an optional string.
pub open spec fn opt(s: Option<String>) -> Option<Seq<char>> {
    match s {
        Some(s) => Some(s@),
        None => None,
    }
}

/// The view of an optional string slice.
pub open spec fn opt_str(s: Option<&str>) -> Option<Seq<char>> {
    match s {
        Some(s) => Some(s@),
        None => None,
    }
}

/// The characters of a string, in order.
pub fn chars_of(s: &str) -> (r: Vec<char>)
    ensures
        r@ == s@,
{
    let mut out: Vec<char> = Vec::new();
    for c in it: s.chars()
        invariant
            it.seq() == s@,
            out@ == s@.take(it.index()),
    {
        out.push(c);
        assert(s@.take(it.index() + 1) == s@.take(it.index()).push(c));
    }
    assert(s@.take(s@.len() as int) == s@);
    out
}

/// The string of the characters from `from` up to, not including, `to`.
pub fn part(t: &[char], from: usize, to: usize) -> (r: String)
    requires
        from <= to <= t@.len(),
    ensures
        r@ == t@.subrange(from as int, to as int),
{
    let mut out: String = String::new();
    let mut i: usize = from;
    while i < to
        invariant
            from <= i <= to <= t@.len(),
            out@ == t@.subrange(from as int, i as int),
        decreases to - i,
    {
        out.push(t[i]);
        assert(t@.subrange(from as int, i + 1) == t@.subrange(from as int, i as int).push(t@[i as int]));
        i += 1;
    }
    out
}

/// The string of all the characters.
pub fn string_of(t: &[char]) -> (r: String)
    ensures
        r@ == t@,
{
    assert(t@.subrange(0, t@.len() as int) == t@);
    part(t, 0, t.len())
}

/// A copy of a string.
pub fn owned(s: &str) -> (r: String)
    ensures
        r@ == s@,
{
    s.to_owned()
}

/// Whether two strings hold the same characters.
pub fn same(a: &str, b: &str) -> (r: bool)
    ensures
        r == (a@ == b@),
{
    a.to_owned() == b.to_owned()
}

// ---------------------------------------------------------------------------
// Searching
// ---------------------------------------------------------------------------

/// Whether `p` stands in `t` at position `i`.
pub open spec fn at(t: Seq<char>, p: Seq<char>, i: int) -> bool {
    0 <= i && i + p.len() <= t.len() && t.subrange(i, i + p.len()) == p
}

/// The first position not before `from` at which `p` stands in `t`.
pub open spec fn find_from(t: Seq<char>, p: Seq<char>, from: int) -> Option<int>
    decreases t.len() + 1 - from,
{
    if from < 0 || from + p.len() > t.len() {
        None
    } else if at(t, p, from) {
        Some(from)
    } else {
        find_from(t, p, from + 1)
    }
}

/// The first position at which `p` stands in `t`.
pub open spec fn find(t: Seq<char>, p: Seq<char>) -> Option<int> {
    find_from(t, p, 0)
}

/// The last position before `end` at which `c` stands in `t`.
pub open spec fn rfind_before(t: Seq<char>, c: char, end: int) -> Option<int>
    decreases end,
{
    if end <= 0 || end > t.len() {
        None
    } else if t[end - 1] == c {
        Some(end - 1)
    } else {
        rfind_before(t, c, end - 1)
    }
}

/// Whether `p` stands somewhere in `t`.
pub open spec fn has(t: Seq<char>, p: Seq<char>) -> bool {
    find(t, p) is Some
}

/// Whether `t` begins with `p`.
pub open spec fn starts(t: Seq<char>, p: Seq<char>) -> bool {
    p.len() <= t.len() && t.take(p.len() as int) == p
}

/// Whether `t` ends with `p`.
pub open spec fn ends(t: Seq<char>, p: Seq<char>) -> bool {
    p.len() <= t.len() && t.skip(t.len() - p.len()) == p
}

/// A position that `find_from` names is one, and the first one.
pub proof fn lemma_find_from(t: Seq<char>, p: Seq<char>, from: int)
    requires
        0 <= from,
    ensures
        match find_from(t, p, from) {
            Some(i) => from <= i && at(t, p, i) && forall|j: int| from <= j < i ==> !at(t, p, j),
            None => forall|j: int| from <= j ==> !at(t, p, j),
        },
    decreases t.len() + 1 - from,
{
    if from + p.len() <= t.len() && !at(t, p, from) {
        lemma_find_from(t, p, from + 1);
    }
}

/// The first position is the only one that is a position with none before it.
pub proof fn lemma_find_is(t: Seq<char>, p: Seq<char>, from: int, i: int)
    requires
        0 <= from <= i,
        at(t, p, i),
        forall|j: int| from <= j < i ==> !at(t, p, j),
    ensures
        find_from(t, p, from) == Some(i),
{
    lemma_find_from(t, p, from);
}

/// Where nothing matches, nothing is found.
pub proof fn lemma_find_none(t: Seq<char>, p: Seq<char>, from: int)
    requires
        0 <= from,
        forall|j: int| from <= j ==> !at(t, p, j),
    ensures
        find_from(t, p, from) is None,
{
    lemma_find_from(t, p, from);
}

/// A position that `rfind_before` names holds the character, and none after it does.
pub proof fn lemma_rfind(t: Seq<char>, c: char, end: int)
    requires
        0 <= end <= t.len(),
    ensures
        match rfind_before(t, c, end) {
            Some(i) => 0 <= i < end && t[i] == c && forall|j: int| i < j < end ==> t[j] != c,
            None => forall|j: int| 0 <= j < end ==> t[j] != c,
        },
    decreases end,
{
    if end > 0 && t[end - 1] != c {
        lemma_rfind(t, c, end - 1);
    }
}

/// Whether `p` stands in `t` at `i`.
pub fn matches_at(t: &[char], p: &[char], i: usize) -> (r: bool)
    ensures
        r == at(t@, p@, i as int),
{
    let n: usize = t.len();
    if i > n || p.len() > n - i {
        return false;
    }
    let mut k: usize = 0;
    while k < p.len()
        invariant
            n == t@.len(),
            i + p@.len() <= n,
            k <= p@.len(),
            forall|j: int| 0 <= j < k ==> t@[i + j] == p@[j],
        decreases p@.len() - k,
    {
        if t[i + k] != p[k] {
            assert(t@.subrange(i as int, i + p@.len())[k as int] != p@[k as int]);
            return false;
        }
        k += 1;
    }
    assert(t@.subrange(i as int, i + p@.len()) == p@);
    true
}

/// The first position not before `from` at which `p` stands in `t`.
pub fn position_from(t: &[char], p: &[char], from: usize) -> (r: Option<usize>)
    ensures
        match r {
            Some(i) => find_from(t@, p@, from as int) == Some(i as int) && from <= i && i + p@.len()
                <= t@.len(),
            None => find_from(t@, p@, from as int) is None,
        },
{
    let n: usize = t.len();
    let mut i: usize = from;
    while i <= n && p.len() <= n - i
        invariant
            n == t@.len(),
            from <= i,
            find_from(t@, p@, from as int) == find_from(t@, p@, i as int),
        decreases t@.len() + 1 - i,
    {
        if matches_at(t, p, i) {
            return Some(i);
        }
        assert(i < n) by {
            if i == n {
                assert(t@.subrange(n as int, n as int) =~= p@);
            }
        }
        i += 1;
    }
    None
}

/// The last position before `end` at which `c` stands in `t`.
pub fn last_before(t: &[char], c: char, end: usize) -> (r: Option<usize>)
    requires
        end <= t@.len(),
    ensures
        match r {
            Some(i) => rfind_before(t@, c, end as int) == Some(i as int) && i < end,
            None => rfind_before(t@, c, end as int) is None,
        },
{
    let mut i: usize = end;
    while i > 0
        invariant
            i <= end <= t@.len(),
            rfind_before(t@, c, end as int) == rfind_before(t@, c, i as int),
        decreases i,
    {
        if t[i - 1] == c {
            return Some(i - 1);
        }
        i -= 1;
    }
    None
}

/// Whether `p` stands somewhere in `t`.
pub fn contains(t: &str, p: &str) -> (r: bool)
    ensures
        r == has(t@, p@),
{
    let t = chars_of(t);
    let p = chars_of(p);
    position_from(&t, &p, 0).is_some()
}

/// Whether `t` begins with `p`.
pub fn starts_with(t: &str, p: &str) -> (r: bool)
    ensures
        r == starts(t@, p@),
{
    let t = chars_of(t);
    let p = chars_of(p);
    assert(t@.take(p@.len() as int) =~= t@.subrange(0, p@.len() as int));
    matches_at(&t, &p, 0)
}

/// Whether `t` ends with `p`.
pub fn ends_with(t: &str, p: &str) -> (r: bool)
    ensures
        r == ends(t@, p@),
{
    let t = chars_of(t);
    let p = chars_of(p);
    if p.len() > t.len() {
        return false;
    }
    assert(t@.skip(t@.len() - p@.len()) =~= t@.subrange(t@.len() - p@.len(), t@.len() as int));
    matches_at(&t, &p, t.len() - p.len())
}

/// What follows `p`, where `t` begins with it.
pub open spec fn after(t: Seq<char>, p: Seq<char>) -> Option<Seq<char>> {
    if starts(t, p) {
        Some(t.skip(p.len() as int))
    } else {
        None
    }
}

/// What follows `p`, where `t` begins with it.
pub fn strip_prefix(t: &str, p: &str) -> (r: Option<String>)
    ensures
        opt(r) == after(t@, p@),
{
    if starts_with(t, p) {
        let t = chars_of(t);
        let p = chars_of(p);
        assert(t@.skip(p@.len() as int) =~= t@.subrange(p@.len() as int, t@.len() as int));
        Some(part(&t, p.len(), t.len()))
    } else {
        None
    }
}

/// The two sides of the first `c` in `t`, where there is one.
pub open spec fn cut(t: Seq<char>, c: char) -> Option<(Seq<char>, Seq<char>)> {
    match find(t, seq![c]) {
        Some(i) => Some((t.take(i), t.skip(i + 1))),
        None => None,
    }
}

/// A text cut at a character comes apart into what stands before it and after it.
pub proof fn lemma_cut_joined(a: Seq<char>, c: char, b: Seq<char>)
    requires
        !a.contains(c),
    ensures
        cut(a + seq![c] + b, c) == Some((a, b)),
{
    let t = a + seq![c] + b;
    assert(t.subrange(a.len() as int, a.len() as int + 1) =~= seq![c]);
    assert forall|j: int| 0 <= j < a.len() implies !at(t, seq![c], j) by {
        assert(t.subrange(j, j + 1)[0] == a[j]);
        assert(seq![c][0] == c);
        assert(a.contains(a[j]));
    }
    lemma_find_is(t, seq![c], 0, a.len() as int);
    assert(t.take(a.len() as int) =~= a);
    assert(t.skip(a.len() as int + 1) =~= b);
}

/// What stands before the first `c` has none.
pub proof fn lemma_cut_first(t: Seq<char>, c: char)
    ensures
        match cut(t, c) {
            Some((a, b)) => !a.contains(c) && t == a + seq![c] + b,
            None => true,
        },
{
    lemma_find_from(t, seq![c], 0);
    if let Some(i) = find(t, seq![c]) {
        let a = t.take(i);
        if a.contains(c) {
            let j = choose|j: int| 0 <= j < a.len() && a[j] == c;
            assert(t.subrange(j, j + 1) =~= seq![c]);
            assert(at(t, seq![c], j));
        }
        assert(t.subrange(i, i + 1)[0] == seq![c][0]);
        assert(t =~= a + seq![c] + t.skip(i + 1));
    }
}

/// The two sides of the first `c` in `t`, where there is one.
pub fn split_once(t: &str, c: char) -> (r: Option<(String, String)>)
    ensures
        match r {
            Some((a, b)) => cut(t@, c) == Some((a@, b@)),
            None => cut(t@, c) is None,
        },
{
    let t = chars_of(t);
    let mut p: Vec<char> = Vec::new();
    p.push(c);
    assert(p@ =~= seq![c]);
    match position_from(&t, &p, 0) {
        Some(i) => {
            assert(t@.take(i as int) =~= t@.subrange(0, i as int));
            assert(t@.skip(i + 1) =~= t@.subrange(i + 1, t@.len() as int));
            let n: usize = t.len();
            Some((part(&t, 0, i), part(&t, i + 1, n)))
        },
        None => None,
    }
}

/// The last position at which `p` stands in `t`, of those not after `i`.
pub open spec fn rfind_from(t: Seq<char>, p: Seq<char>, i: int) -> Option<int>
    decreases i + 1,
{
    if i < 0 {
        None
    } else if at(t, p, i) {
        Some(i)
    } else {
        rfind_from(t, p, i - 1)
    }
}

/// The last position at which `p` stands in `t`.
pub open spec fn rfind(t: Seq<char>, p: Seq<char>) -> Option<int> {
    rfind_from(t, p, t.len() as int)
}

/// The last position at which `p` stands in `t`.
pub fn last_position(t: &[char], p: &[char]) -> (r: Option<usize>)
    ensures
        match r {
            Some(i) => rfind(t@, p@) == Some(i as int) && i + p@.len() <= t@.len(),
            None => rfind(t@, p@) is None,
        },
{
    let mut i: usize = t.len();
    loop
        invariant
            i <= t@.len(),
            rfind(t@, p@) == rfind_from(t@, p@, i as int),
        decreases i,
    {
        if matches_at(t, p, i) {
            return Some(i);
        }
        if i == 0 {
            return None;
        }
        i -= 1;
    }
}

/// A position that `rfind_from` names is one, and the last one.
pub proof fn lemma_rfind_from(t: Seq<char>, p: Seq<char>, i: int)
    ensures
        match rfind_from(t, p, i) {
            Some(k) => k <= i && at(t, p, k) && forall|j: int| k < j <= i ==> !at(t, p, j),
            None => forall|j: int| j <= i ==> !at(t, p, j),
        },
    decreases i + 1,
{
    if i >= 0 && !at(t, p, i) {
        lemma_rfind_from(t, p, i - 1);
    }
}

/// `t` with `r` in place of every `p`, taken from the left.
pub open spec fn replace(t: Seq<char>, p: Seq<char>, r: Seq<char>) -> Seq<char>
    decreases t.len(),
{
    if t.len() == 0 || p.len() == 0 {
        t
    } else if starts(t, p) {
        r + replace(t.skip(p.len() as int), p, r)
    } else {
        seq![t[0]] + replace(t.skip(1), p, r)
    }
}

/// A character that neither a text nor what is put in holds is not in the result.
pub proof fn lemma_replace_holds(t: Seq<char>, p: Seq<char>, r: Seq<char>, c: char)
    requires
        !t.contains(c),
        !r.contains(c),
    ensures
        !replace(t, p, r).contains(c),
    decreases t.len(),
{
    if t.len() > 0 && p.len() > 0 {
        let n = if starts(t, p) {
            p.len() as int
        } else {
            1
        };
        let rest = t.skip(n);
        assert(!rest.contains(c)) by {
            if rest.contains(c) {
                let i = rest.index_of(c);
                assert(t[n + i] == c);
            }
        }
        lemma_replace_holds(rest, p, r, c);
        let more = replace(rest, p, r);
        let head = if starts(t, p) {
            r
        } else {
            seq![t[0]]
        };
        assert(!head.contains(c)) by {
            assert(t.contains(t[0]));
        }
        assert(!(head + more).contains(c)) by {
            if (head + more).contains(c) {
                let i = (head + more).index_of(c);
                if i < head.len() {
                    assert(head[i] == c);
                } else {
                    assert(more[i - head.len()] == c);
                }
            }
        }
    }
}

/// `t` with `r` in place of every `p`, taken from the left.
pub fn replaced(t: &str, p: &str, r: &str) -> (out: String)
    requires
        p@.len() > 0,
    ensures
        out@ == replace(t@, p@, r@),
{
    let c = chars_of(t);
    let q = chars_of(p);
    let n: usize = c.len();
    let mut out: String = String::new();
    let mut i: usize = 0;
    assert(c@.skip(0) =~= c@);
    assert(out@ + replace(c@, p@, r@) =~= replace(c@, p@, r@));
    while i < n
        invariant
            n == c@.len(),
            i <= n,
            c@ == t@,
            q@ == p@,
            p@.len() > 0,
            replace(t@, p@, r@) == out@ + replace(c@.skip(i as int), p@, r@),
        decreases n - i,
    {
        let ghost rest = c@.skip(i as int);
        assert(starts(rest, p@) == at(c@, p@, i as int)) by {
            if p@.len() <= rest.len() {
                assert(rest.take(p@.len() as int) =~= c@.subrange(i as int, i + p@.len()));
            }
        }
        let ghost before = out@;
        if matches_at(&c, &q, i) {
            out.append(r);
            assert(rest.skip(p@.len() as int) =~= c@.skip(i + p@.len()));
            assert(before + (r@ + replace(c@.skip(i + p@.len()), p@, r@)) =~= out@ + replace(
                c@.skip(i + p@.len()),
                p@,
                r@,
            ));
            i += q.len();
        } else {
            out.push(c[i]);
            assert(rest.skip(1) =~= c@.skip(i + 1));
            assert(before + (seq![rest[0]] + replace(c@.skip(i + 1), p@, r@)) =~= out@ + replace(
                c@.skip(i + 1),
                p@,
                r@,
            ));
            i += 1;
        }
    }
    assert(c@.skip(n as int) =~= Seq::<char>::empty());
    assert(replace(Seq::<char>::empty(), p@, r@) =~= Seq::<char>::empty());
    assert(out@ + Seq::<char>::empty() =~= out@);
    out
}

/// `t` without any `p` it begins with, as often as it does.
pub open spec fn strip_all(t: Seq<char>, p: Seq<char>) -> Seq<char>
    decreases t.len(),
{
    if p.len() > 0 && starts(t, p) {
        strip_all(t.skip(p.len() as int), p)
    } else {
        t
    }
}

/// `t` without any `p` it begins with, as often as it does.
pub fn without_prefixes(t: &str, p: &str) -> (r: String)
    requires
        p@.len() > 0,
    ensures
        r@ == strip_all(t@, p@),
{
    let c = chars_of(t);
    let q = chars_of(p);
    let n: usize = c.len();
    let mut i: usize = 0;
    assert(c@.skip(0) =~= c@);
    while matches_at(&c, &q, i)
        invariant
            n == c@.len(),
            i <= n,
            q@ == p@,
            p@.len() > 0,
            strip_all(c@, p@) == strip_all(c@.skip(i as int), p@),
        decreases n - i,
    {
        let ghost rest = c@.skip(i as int);
        assert(rest.take(p@.len() as int) =~= c@.subrange(i as int, i + p@.len()));
        assert(rest.skip(p@.len() as int) =~= c@.skip(i + p@.len()));
        i += q.len();
    }
    proof {
        let rest = c@.skip(i as int);
        if starts(rest, p@) {
            assert(rest.take(p@.len() as int) =~= c@.subrange(i as int, i + p@.len()));
        }
        assert(rest =~= c@.subrange(i as int, n as int));
    }
    part(&c, i, n)
}

/// A character in lower case, as far as it is an ASCII letter.
pub open spec fn lower(c: char) -> char {
    if 'A' <= c && c <= 'Z' {
        ((c as u8 + 32) as u8) as char
    } else {
        c
    }
}

/// A text in lower case, as far as it is ASCII letters.
pub open spec fn lower_text(t: Seq<char>) -> Seq<char> {
    t.map_values(|c: char| lower(c))
}

/// A character in lower case, as far as it is an ASCII letter.
pub fn lower_of(c: char) -> (r: char)
    ensures
        r == lower(c),
{
    if 'A' <= c && c <= 'Z' {
        ((c as u8) + 32) as char
    } else {
        c
    }
}

/// A text in lower case, as far as it is ASCII letters.
pub fn lowered(t: &str) -> (r: String)
    ensures
        r@ == lower_text(t@),
{
    let c = chars_of(t);
    let mut out: String = String::new();
    let mut i: usize = 0;
    while i < c.len()
        invariant
            i <= c@.len(),
            out@ == lower_text(c@.take(i as int)),
        decreases c@.len() - i,
    {
        let ghost before = out@;
        out.push(lower_of(c[i]));
        assert(lower_text(c@.take(i + 1)) =~= before.push(lower(c@[i as int])));
        i += 1;
    }
    assert(c@.take(c@.len() as int) =~= c@);
    out
}

/// The part of a text after its last `c`; all of it where there is none.
pub open spec fn after_last(t: Seq<char>, c: char) -> Seq<char> {
    match rfind_before(t, c, t.len() as int) {
        Some(i) => t.skip(i + 1),
        None => t,
    }
}

/// The part of a text before its last `c`; all of it where there is none.
pub open spec fn before_last(t: Seq<char>, c: char) -> Seq<char> {
    match rfind_before(t, c, t.len() as int) {
        Some(i) => t.take(i),
        None => t,
    }
}

/// The part of a text after its last `c`; all of it where there is none.
pub fn part_after_last(t: &str, c: char) -> (r: String)
    ensures
        r@ == after_last(t@, c),
{
    let v = chars_of(t);
    let n: usize = v.len();
    match last_before(&v, c, n) {
        Some(i) => {
            assert(v@.skip(i + 1) =~= v@.subrange(i + 1, n as int));
            part(&v, i + 1, n)
        },
        None => owned(t),
    }
}

/// The part of a text before its last `c`; all of it where there is none.
pub fn part_before_last(t: &str, c: char) -> (r: String)
    ensures
        r@ == before_last(t@, c),
{
    let v = chars_of(t);
    let n: usize = v.len();
    match last_before(&v, c, n) {
        Some(i) => {
            assert(v@.take(i as int) =~= v@.subrange(0, i as int));
            part(&v, 0, i)
        },
        None => owned(t),
    }
}

// ---------------------------------------------------------------------------
// Trimming
// ---------------------------------------------------------------------------

/// The characters that Unicode calls white space.
pub open spec fn space(c: char) -> bool {
    let u = c as u32;
    ||| 0x9 <= u <= 0xd
    ||| u == 0x20
    ||| u == 0x85
    ||| u == 0xa0
    ||| u == 0x1680
    ||| 0x2000 <= u <= 0x200a
    ||| u == 0x2028
    ||| u == 0x2029
    ||| u == 0x202f
    ||| u == 0x205f
    ||| u == 0x3000
}

/// Whether a character is one that Unicode calls white space.
pub fn is_space(c: char) -> (r: bool)
    ensures
        r == space(c),
{
    let u = c as u32;
    (0x9 <= u && u <= 0xd) || u == 0x20 || u == 0x85 || u == 0xa0 || u == 0x1680 || (0x2000 <= u && u
        <= 0x200a) || u == 0x2028 || u == 0x2029 || u == 0x202f || u == 0x205f || u == 0x3000
}

/// `t` without the white space it begins with.
pub open spec fn trim_start(t: Seq<char>) -> Seq<char>
    decreases t.len(),
{
    if t.len() > 0 && space(t[0]) {
        trim_start(t.skip(1))
    } else {
        t
    }
}

/// `t` without the white space it ends with.
pub open spec fn trim_end(t: Seq<char>) -> Seq<char>
    decreases t.len(),
{
    if t.len() > 0 && space(t.last()) {
        trim_end(t.drop_last())
    } else {
        t
    }
}

/// `t` without the white space around it.
pub open spec fn trim(t: Seq<char>) -> Seq<char> {
    trim_end(trim_start(t))
}

/// `t` without the white space it begins with.
pub fn without_leading(t: &str) -> (r: String)
    ensures
        r@ == trim_start(t@),
{
    let t = chars_of(t);
    let mut i: usize = 0;
    assert(t@.skip(0) =~= t@);
    while i < t.len() && is_space(t[i])
        invariant
            i <= t@.len(),
            trim_start(t@) == trim_start(t@.skip(i as int)),
        decreases t@.len() - i,
    {
        assert(t@.skip(i as int).skip(1) =~= t@.skip(i + 1));
        i += 1;
    }
    assert(t@.skip(i as int) =~= t@.subrange(i as int, t@.len() as int));
    part(&t, i, t.len())
}

/// `t` without the white space it ends with.
pub fn without_trailing(t: &str) -> (r: String)
    ensures
        r@ == trim_end(t@),
{
    let t = chars_of(t);
    let mut i: usize = t.len();
    assert(t@.take(t@.len() as int) =~= t@);
    while i > 0 && is_space(t[i - 1])
        invariant
            i <= t@.len(),
            trim_end(t@) == trim_end(t@.take(i as int)),
        decreases i,
    {
        assert(t@.take(i as int).drop_last() =~= t@.take(i - 1));
        i -= 1;
    }
    assert(t@.take(i as int) =~= t@.subrange(0, i as int));
    part(&t, 0, i)
}

/// `t` without the white space around it.
pub fn trimmed(t: &str) -> (r: String)
    ensures
        r@ == trim(t@),
{
    let t = without_leading(t);
    without_trailing(&t)
}

/// Every character of `t` is white space.
pub open spec fn all_space(t: Seq<char>) -> bool {
    forall|i: int| 0 <= i < t.len() ==> space(#[trigger] t[i])
}

/// What `trim_end` leaves is a prefix that ends in no white space, and what it
/// drops is nothing but white space.
pub proof fn lemma_trim_end(t: Seq<char>)
    ensures
        trim_end(t).len() <= t.len(),
        trim_end(t) == t.take(trim_end(t).len() as int),
        all_space(t.skip(trim_end(t).len() as int)),
        trim_end(t).len() > 0 ==> !space(trim_end(t).last()),
    decreases t.len(),
{
    if t.len() > 0 && space(t.last()) {
        lemma_trim_end(t.drop_last());
        let n = trim_end(t).len() as int;
        assert(t.drop_last().take(n) =~= t.take(n));
        assert forall|i: int| 0 <= i < t.skip(n).len() implies space(#[trigger] t.skip(n)[i]) by {
            if n + i < t.len() - 1 {
                assert(t.drop_last().skip(n)[i] == t[n + i]);
            }
        }
    } else {
        assert(t.take(t.len() as int) =~= t);
    }
}

/// What `trim_start` leaves is a suffix that begins with no white space, and
/// what it drops is nothing but white space.
pub proof fn lemma_trim_start(t: Seq<char>)
    ensures
        trim_start(t).len() <= t.len(),
        trim_start(t) == t.skip(t.len() - trim_start(t).len()),
        all_space(t.take(t.len() - trim_start(t).len())),
        trim_start(t).len() > 0 ==> !space(trim_start(t)[0]),
    decreases t.len(),
{
    if t.len() > 0 && space(t[0]) {
        lemma_trim_start(t.skip(1));
        let n = t.len() - trim_start(t).len();
        assert(t.skip(1).skip(n - 1) =~= t.skip(n));
        assert forall|i: int| 0 <= i < t.take(n).len() implies space(#[trigger] t.take(n)[i]) by {
            if i > 0 {
                assert(t.skip(1).take(n - 1)[i - 1] == t[i]);
            }
        }
    } else {
        assert(t.skip(0) =~= t);
    }
}

/// The prefix that `trim_end` leaves is the only one of its kind.
pub proof fn lemma_trim_end_is(t: Seq<char>, n: int)
    requires
        0 <= n <= t.len(),
        all_space(t.skip(n)),
        n > 0 ==> !space(t[n - 1]),
    ensures
        trim_end(t) == t.take(n),
{
    lemma_trim_end(t);
    let m = trim_end(t).len() as int;
    if m < n {
        assert(t.skip(m)[n - 1 - m] == t[n - 1]);
    } else if m > n {
        assert(t.take(m).last() == t[m - 1]);
        assert(t.skip(n)[m - 1 - n] == t[m - 1]);
    }
}

/// The suffix that `trim_start` leaves is the only one of its kind.
pub proof fn lemma_trim_start_is(t: Seq<char>, n: int)
    requires
        0 <= n <= t.len(),
        all_space(t.take(n)),
        n < t.len() ==> !space(t[n]),
    ensures
        trim_start(t) == t.skip(n),
{
    lemma_trim_start(t);
    let m = t.len() - trim_start(t).len();
    if m < n {
        assert(t.take(n)[m] == t[m]);
        assert(trim_start(t)[0] == t[m]);
    } else if m > n {
        assert(t.take(m)[n] == t[n]);
    }
}

/// White space at the end does not show after trimming.
pub proof fn lemma_trim_end_spaces(a: Seq<char>, b: Seq<char>)
    requires
        all_space(b),
    ensures
        trim_end(a + b) == trim_end(a),
{
    lemma_trim_end(a);
    let n = trim_end(a).len() as int;
    let t = a + b;
    assert forall|i: int| 0 <= i < t.skip(n).len() implies space(#[trigger] t.skip(n)[i]) by {
        if n + i < a.len() {
            assert(a.skip(n)[i] == t[n + i]);
        } else {
            assert(b[n + i - a.len()] == t[n + i]);
        }
    }
    if n > 0 {
        assert(trim_end(a).last() == a[n - 1]);
    }
    lemma_trim_end_is(t, n);
    assert(t.take(n) =~= a.take(n));
}

/// Trimming the end leaves what stands before something that is not blank.
pub proof fn lemma_trim_end_add(a: Seq<char>, b: Seq<char>)
    requires
        trim_end(b).len() > 0,
    ensures
        trim_end(a + b) == a + trim_end(b),
{
    lemma_trim_end(b);
    let n = trim_end(b).len() as int;
    let t = a + b;
    let m = a.len() + n;
    assert(t.skip(m) =~= b.skip(n));
    assert(t[m - 1] == b[n - 1]);
    assert(trim_end(b).last() == b[n - 1]);
    lemma_trim_end_is(t, m);
    assert(t.take(m) =~= a + b.take(n));
}

/// Blank text trims to nothing, and nothing else does.
pub proof fn lemma_blank(t: Seq<char>)
    ensures
        all_space(t) == (trim_end(t).len() == 0),
        all_space(t) == (trim_start(t).len() == 0),
        all_space(t) == (trim(t).len() == 0),
{
    lemma_trim_end(t);
    lemma_trim_start(t);
    if trim_end(t).len() == 0 {
        assert(t.skip(0) =~= t);
    }
    if trim_start(t).len() == 0 {
        assert(t.take(t.len() as int) =~= t);
    }
    if all_space(t) {
        lemma_trim_end_is(t, 0);
        lemma_trim_start_is(t, t.len() as int);
        assert(t.skip(t.len() as int) =~= Seq::<char>::empty());
        assert(trim_end(Seq::<char>::empty()) =~= Seq::<char>::empty());
    } else {
        let s = trim_start(t);
        lemma_trim_end(s);
        if trim_end(s).len() == 0 {
            assert(s.skip(0) =~= s);
            assert(space(s.skip(0)[0]));
        }
    }
}

/// Which side is trimmed first makes no difference.
pub proof fn lemma_trim_commutes(t: Seq<char>)
    ensures
        trim(t) == trim_start(trim_end(t)),
{
    lemma_blank(t);
    lemma_trim_end(t);
    lemma_trim_start(t);
    if all_space(t) {
        assert(trim_end(t) =~= Seq::<char>::empty());
        assert(trim_start(t) =~= Seq::<char>::empty());
    } else {
        let a = t.take(t.len() - trim_start(t).len());
        let s = trim_start(t);
        assert(a + s =~= t);
        lemma_blank(s);
        assert(!all_space(s)) by {
            assert(!space(s[0]));
        }
        lemma_trim_end_add(a, s);
        let u = a + trim_end(s);
        lemma_trim_end(s);
        assert(u.take(a.len() as int) =~= a);
        assert(u[a.len() as int] == s[0]);
        lemma_trim_start_is(u, a.len() as int);
        assert(u.skip(a.len() as int) =~= trim_end(s));
    }
}

/// Texts that differ in the white space they end with trim to the same.
pub proof fn lemma_trim_of_trim_end(t: Seq<char>)
    ensures
        trim(trim_end(t)) == trim(t),
        trim_end(trim_end(t)) == trim_end(t),
{
    lemma_trim_end(t);
    let e = trim_end(t);
    assert(e.skip(e.len() as int) =~= Seq::<char>::empty());
    lemma_trim_end_is(e, e.len() as int);
    assert(e.take(e.len() as int) =~= e);
    lemma_trim_commutes(t);
    lemma_trim_commutes(e);
}

// ---------------------------------------------------------------------------
// Joining and splitting
// ---------------------------------------------------------------------------

/// The parts one after the other, with `sep` between each two.
pub open spec fn join(parts: Seq<Seq<char>>, sep: Seq<char>) -> Seq<char>
    decreases parts.len(),
{
    if parts.len() == 0 {
        Seq::empty()
    } else if parts.len() == 1 {
        parts[0]
    } else {
        join(parts.drop_last(), sep) + sep + parts.last()
    }
}

/// The parts one after the other, with `sep` between each two.
pub fn joined(parts: &Vec<String>, sep: &str) -> (r: String)
    ensures
        r@ == join(texts(parts@), sep@),
{
    let mut out: String = String::new();
    let mut i: usize = 0;
    while i < parts.len()
        invariant
            i <= parts@.len(),
            out@ == join(texts(parts@).take(i as int), sep@),
        decreases parts@.len() - i,
    {
        let ghost sofar = texts(parts@).take(i as int);
        let ghost next = texts(parts@).take(i + 1);
        assert(next.drop_last() =~= sofar);
        if i > 0 {
            out.append(sep);
        }
        out.append(&parts[i]);
        i += 1;
    }
    assert(texts(parts@).take(parts@.len() as int) =~= texts(parts@));
    out
}

/// The pieces of `t` between the occurrences of `c`: one more than there are of them.
pub open spec fn split(t: Seq<char>, c: char) -> Seq<Seq<char>>
    decreases t.len(),
{
    if t.len() == 0 {
        seq![Seq::empty()]
    } else {
        let rest = split(t.drop_last(), c);
        if t.last() == c {
            rest.push(Seq::empty())
        } else {
            rest.update(rest.len() - 1, rest.last().push(t.last()))
        }
    }
}

/// There is always a piece.
pub proof fn lemma_split_len(t: Seq<char>, c: char)
    ensures
        split(t, c).len() >= 1,
    decreases t.len(),
{
    if t.len() > 0 {
        lemma_split_len(t.drop_last(), c);
    }
}

/// The pieces of `t` between the occurrences of `c`.
pub fn pieces(t: &str, c: char) -> (r: Vec<String>)
    ensures
        texts(r@) == split(t@, c),
{
    let t = chars_of(t);
    let mut out: Vec<String> = Vec::new();
    let mut piece: String = String::new();
    let mut i: usize = 0;
    assert(texts(out@).push(piece@) =~= seq![Seq::<char>::empty()]);
    assert(t@.take(0) =~= Seq::<char>::empty());
    while i < t.len()
        invariant
            i <= t@.len(),
            texts(out@).push(piece@) == split(t@.take(i as int), c),
        decreases t@.len() - i,
    {
        let ghost before = texts(out@).push(piece@);
        assert(t@.take(i + 1).drop_last() =~= t@.take(i as int));
        if t[i] == c {
            out.push(piece);
            piece = String::new();
            assert(texts(out@) =~= before);
            assert(texts(out@).push(piece@) =~= before.push(Seq::empty()));
        } else {
            piece.push(t[i]);
            assert(texts(out@).push(piece@) =~= before.update(
                before.len() - 1,
                before.last().push(t@[i as int]),
            ));
        }
        i += 1;
    }
    assert(t@.take(t@.len() as int) =~= t@);
    let ghost before = texts(out@).push(piece@);
    out.push(piece);
    assert(texts(out@) =~= before);
    out
}

/// The words of a text: the runs of characters between white space.
pub open spec fn words(t: Seq<char>) -> Seq<Seq<char>>
    decreases t.len(),
{
    if t.len() == 0 {
        Seq::empty()
    } else {
        let rest = words(t.drop_last());
        let c = t.last();
        if space(c) {
            rest
        } else if t.len() == 1 || space(t[t.len() - 2]) || rest.len() == 0 {
            rest.push(seq![c])
        } else {
            rest.update(rest.len() - 1, rest.last().push(c))
        }
    }
}

/// The words of a text.
pub fn words_of(t: &str) -> (r: Vec<String>)
    ensures
        texts(r@) == words(t@),
{
    let c = chars_of(t);
    let mut out: Vec<String> = Vec::new();
    let mut i: usize = 0;
    assert(texts(out@) =~= words(c@.take(0)));
    while i < c.len()
        invariant
            i <= c@.len(),
            texts(out@) == words(c@.take(i as int)),
        decreases c@.len() - i,
    {
        let ghost before = texts(out@);
        assert(c@.take(i + 1).drop_last() =~= c@.take(i as int));
        if !is_space(c[i]) {
            let n: usize = out.len();
            if i == 0 || is_space(c[i - 1]) || n == 0 {
                let mut w: String = String::new();
                w.push(c[i]);
                assert(w@ =~= seq![c@[i as int]]);
                out.push(w);
                assert(texts(out@) =~= before.push(w@));
            } else {
                let mut w = out[n - 1].clone();
                w.push(c[i]);
                out.set(n - 1, w);
                assert(texts(out@) =~= before.update(n - 1, before.last().push(c@[i as int])));
            }
        }
        i += 1;
    }
    assert(c@.take(c@.len() as int) =~= c@);
    out
}

// ---------------------------------------------------------------------------
// Small things
// ---------------------------------------------------------------------------

/// Whether two optional texts are the same.
pub fn same_option(a: &Option<String>, b: &Option<String>) -> (r: bool)
    ensures
        r == (opt(*a) == opt(*b)),
{
    match (a, b) {
        (Some(a), Some(b)) => same(a, b),
        (None, None) => true,
        _ => false,
    }
}

/// A copy of some of the strings, in their order.
pub fn copied(v: &Vec<String>, from: usize, to: usize) -> (r: Vec<String>)
    requires
        from <= to <= v@.len(),
    ensures
        texts(r@) == texts(v@).subrange(from as int, to as int),
{
    let mut out: Vec<String> = Vec::new();
    let mut i: usize = from;
    let ghost all = texts(v@);
    while i < to
        invariant
            from <= i <= to <= v@.len(),
            all == texts(v@),
            texts(out@) == all.subrange(from as int, i as int),
        decreases to - i,
    {
        let ghost before = texts(out@);
        out.push(v[i].clone());
        assert(texts(out@) =~= before.push(all[i as int]));
        assert(all.subrange(from as int, i + 1) =~= before.push(all[i as int]));
        i += 1;
    }
    out
}

/// Whether a list of strings holds one.
pub fn list_has(v: &Vec<String>, s: &str) -> (r: bool)
    ensures
        r == texts(v@).contains(s@),
{
    let mut i: usize = 0;
    while i < v.len()
        invariant
            i <= v@.len(),
            forall|j: int| 0 <= j < i ==> texts(v@)[j] != s@,
        decreases v@.len() - i,
    {
        if same(&v[i], s) {
            assert(texts(v@)[i as int] == s@);
            return true;
        }
        assert(texts(v@)[i as int] != s@);
        i += 1;
    }
    false
}

/// Whether a string holds nothing.
pub fn is_empty(t: &str) -> (r: bool)
    ensures
        r == (t@.len() == 0),
{
    let c = chars_of(t);
    c.len() == 0
}

// ---------------------------------------------------------------------------
// Bytes
// ---------------------------------------------------------------------------

/// The length of the longest prefix of at most `n` bytes that is UTF-8.
pub open spec fn valid_prefix(b: Seq<u8>, n: int) -> int
    decreases n,
{
    if n <= 0 {
        0
    } else if vstd::utf8::valid_utf8(b.take(n)) {
        n
    } else {
        valid_prefix(b, n - 1)
    }
}

/// `String::from_utf8`: the text that the bytes encode, where they are UTF-8.
/// Where they are not, its error gives the length of the longest prefix that is.
#[verifier::external_body]
fn from_utf8(bytes: Vec<u8>) -> (r: Result<String, usize>)
    ensures
        match r {
            Ok(s) => vstd::utf8::valid_utf8(bytes@) && s@ == vstd::utf8::decode_utf8(bytes@),
            Err(n) => !vstd::utf8::valid_utf8(bytes@) && n < bytes@.len() && vstd::utf8::valid_utf8(
                bytes@.take(n as int),
            ) && forall|m: int|
                n < m <= bytes@.len() ==> !vstd::utf8::valid_utf8(#[trigger] bytes@.take(m)),
        },
{
    match String::from_utf8(bytes) {
        Ok(s) => Ok(s),
        Err(e) => Err(e.utf8_error().valid_up_to()),
    }
}

proof fn lemma_valid_prefix(b: Seq<u8>, n: int, k: int)
    requires
        0 <= k <= n <= b.len(),
        vstd::utf8::valid_utf8(b.take(k)),
        forall|m: int| k < m <= n ==> !vstd::utf8::valid_utf8(#[trigger] b.take(m)),
    ensures
        valid_prefix(b, n) == k,
    decreases n,
{
    if n > k {
        assert(!vstd::utf8::valid_utf8(b.take(n)));
        lemma_valid_prefix(b, n - 1, k);
    }
}

/// The text that bytes encode, or how many of them from the start do.
pub fn decoded(bytes: Vec<u8>) -> (r: Result<String, usize>)
    ensures
        match r {
            Ok(s) => vstd::utf8::valid_utf8(bytes@) && s@ == vstd::utf8::decode_utf8(bytes@),
            Err(n) => !vstd::utf8::valid_utf8(bytes@) && n == valid_prefix(bytes@, bytes@.len() as int),
        },
{
    let ghost b = bytes@;
    match from_utf8(bytes) {
        Ok(s) => Ok(s),
        Err(n) => {
            proof {
                lemma_valid_prefix(b, b.len() as int, n as int);
            }
            Err(n)
        },
    }
}

/// The bytes that encode a text.
pub fn encoded(t: &str) -> (r: Vec<u8>)
    ensures
        r@ == vstd::utf8::encode_utf8(t@),
{
    t.as_bytes_vec()
}

/// Whether two runs of bytes are the same.
pub fn same_bytes(a: &[u8], b: &[u8]) -> (r: bool)
    ensures
        r == (a@ == b@),
{
    if a.len() != b.len() {
        return false;
    }
    let mut i: usize = 0;
    while i < a.len()
        invariant
            a@.len() == b@.len(),
            i <= a@.len(),
            forall|j: int| 0 <= j < i ==> a@[j] == b@[j],
        decreases a@.len() - i,
    {
        if a[i] != b[i] {
            return false;
        }
        i += 1;
    }
    assert(a@ =~= b@);
    true
}

/// A copy of some bytes.
pub fn bytes_of(b: &[u8]) -> (r: Vec<u8>)
    ensures
        r@ == b@,
{
    vstd::slice::slice_to_vec(b)
}

} // verus!
