//! The arguments a process was started with, as the kernel hands them out.

use vstd::prelude::*;
use crate::text;

verus! {

/// The text that bytes stand for, with what is not UTF-8 among them replaced.
pub uninterp spec fn lossy_text(bytes: Seq<u8>) -> Seq<char>;

/// The text of bytes, by `String::from_utf8_lossy`. Where the bytes are UTF-8 it
/// is the text they encode. Which characters stand in for bytes that are not is
/// left to the name.
#[verifier::external_body]
fn lossy(bytes: &[u8]) -> (r: String)
    ensures
        r@ == lossy_text(bytes@),
        vstd::utf8::valid_utf8(bytes@) ==> r@ == vstd::utf8::decode_utf8(bytes@),
{
    String::from_utf8_lossy(bytes).into_owned()
}

/// Where the first NUL is.
pub open spec fn first_nul(raw: Seq<u8>, i: int) -> int
    decreases raw.len() - i,
{
    if i < 0 || i >= raw.len() {
        raw.len() as int
    } else if raw[i] == 0 {
        i
    } else {
        first_nul(raw, i + 1)
    }
}

proof fn lemma_first_nul(raw: Seq<u8>, i: int, n: int)
    requires
        0 <= i <= n <= raw.len(),
        forall|k: int| i <= k < n ==> raw[k] != 0,
        n < raw.len() ==> raw[n] == 0,
    ensures
        first_nul(raw, i) == n,
    decreases n - i,
{
    if i < n {
        lemma_first_nul(raw, i + 1, n);
    }
}

/// The arguments in a command line: the pieces between its NULs that are not
/// empty.
pub open spec fn args(raw: Seq<u8>) -> Seq<Seq<char>>
    decreases raw.len(),
{
    let n = first_nul(raw, 0);
    if raw.len() == 0 || n < 0 {
        Seq::empty()
    } else if n == 0 {
        args(raw.skip(1))
    } else if n >= raw.len() {
        seq![lossy_text(raw)]
    } else {
        seq![lossy_text(raw.take(n))] + args(raw.skip(n + 1))
    }
}

/// The arguments in a command line.
pub fn args_of(raw: &[u8]) -> (r: Vec<String>)
    ensures
        text::texts(r@) == args(raw@),
{
    let mut out: Vec<String> = Vec::new();
    let mut start: usize = 0;
    let n: usize = raw.len();
    let ghost all = raw@;
    proof {
        assert(all.skip(0) =~= all);
        assert(text::texts(out@) + args(all) =~= args(all));
    }
    while start < n
        invariant
            n == raw@.len(),
            all == raw@,
            start <= n,
            text::texts(out@) + args(all.skip(start as int)) == args(all),
        decreases n - start,
    {
        let mut end: usize = start;
        while end < n && raw[end] != 0
            invariant
                n == raw@.len(),
                start <= end <= n,
                forall|k: int| start <= k < end ==> raw@[k] != 0,
            decreases n - end,
        {
            end += 1;
        }
        let ghost rest = all.skip(start as int);
        let ghost before = out@;
        proof {
            assert forall|k: int| 0 <= k < end - start implies rest[k] != 0 by {
                assert(rest[k] == raw@[start + k]);
            }
            lemma_first_nul(rest, 0, end - start);
        }
        if end > start {
            let piece = lossy(vstd::slice::slice_subrange(raw, start, end));
            let ghost said = piece@;
            out.push(piece);
            proof {
                assert(text::texts(out@) =~= text::texts(before).push(said));
                assert(raw@.subrange(start as int, end as int) =~= rest.take(end - start));
                if end == n {
                    assert(rest.take(end - start) =~= rest);
                    assert(all.skip(n as int) =~= Seq::empty());
                    assert(text::texts(out@) + args(all.skip(n as int)) =~= text::texts(before) + args(rest));
                } else {
                    assert(rest.skip(end - start + 1) =~= all.skip(end + 1));
                    assert(text::texts(out@) + args(all.skip(end + 1)) =~= text::texts(before) + args(rest));
                }
            }
        } else {
            proof {
                assert(rest.skip(1) =~= all.skip(end + 1));
            }
        }
        start = if end < n { end + 1 } else { n };
    }
    proof {
        assert(all.skip(start as int) =~= Seq::empty());
        assert(text::texts(out@) + args(all.skip(start as int)) =~= text::texts(out@));
    }
    out
}

/// Whether some text of a list has a part.
pub open spec fn any_has(list: Seq<Seq<char>>, part: Seq<char>) -> bool {
    exists|i: int| 0 <= i < list.len() && text::has(#[trigger] list[i], part)
}

/// Whether some text of a list has a part.
pub fn any_contains(list: &Vec<String>, part: &str) -> (r: bool)
    ensures
        r == any_has(text::texts(list@), part@),
{
    let mut i: usize = 0;
    while i < list.len()
        invariant
            i <= list@.len(),
            forall|k: int| 0 <= k < i ==> text::find((#[trigger] text::texts(list@)[k]), part@) is None,
        decreases list@.len() - i,
    {
        assert(text::texts(list@)[i as int] == list@[i as int]@);
        if text::contains(&list[i], part) {
            return true;
        }
        i += 1;
    }
    false
}

} // verus!
