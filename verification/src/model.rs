//! A page of rows with a cursor in it.

use vstd::prelude::*;
use crate::text;

verus! {

/// What a row is for.
#[derive(Debug)]
pub enum Kind {
    /// Something to read.
    Fact { value: String },
    /// Something to set going, and what came of it last.
    Action { value: String },
    /// Something to turn: the options, the one the device is at, if it is at one,
    /// and the one that was chosen, if one was.
    Dial { options: Vec<String>, live: Option<usize>, chosen: Option<usize> },
}

/// What a row is for, as a value.
pub enum Purpose {
    Fact(Seq<char>),
    Action(Seq<char>),
    Dial { options: Seq<Seq<char>>, live: Option<usize>, chosen: Option<usize> },
}

/// One row of a page.
#[derive(Debug)]
pub struct Row {
    pub id: String,
    pub title: String,
    pub detail: String,
    pub kind: Kind,
}

/// One row of a page, as a value.
pub struct Line {
    pub id: Seq<char>,
    pub title: Seq<char>,
    pub detail: Seq<char>,
    pub kind: Purpose,
}

impl View for Kind {
    type V = Purpose;

    open spec fn view(&self) -> Purpose {
        match self {
            Kind::Fact { value } => Purpose::Fact(value@),
            Kind::Action { value } => Purpose::Action(value@),
            Kind::Dial { options, live, chosen } => Purpose::Dial {
                options: text::texts(options@),
                live: *live,
                chosen: *chosen,
            },
        }
    }
}

impl View for Row {
    type V = Line;

    open spec fn view(&self) -> Line {
        Line { id: self.id@, title: self.title@, detail: self.detail@, kind: self.kind@ }
    }
}

/// The rows, as values.
pub open spec fn rows_of(rows: Seq<Row>) -> Seq<Line> {
    rows.map_values(|r: Row| r@)
}

/// The option at a number, where there is one.
pub open spec fn option_at(options: Seq<Seq<char>>, i: Option<usize>) -> Option<Seq<char>> {
    match i {
        Some(n) => if n < options.len() {
            Some(options[n as int])
        } else {
            None
        },
        None => None,
    }
}

/// What a row shows: the option that was chosen, or else the one the device is at,
/// or that it is at none.
pub open spec fn shown(kind: Purpose) -> Seq<char> {
    match kind {
        Purpose::Fact(value) => value,
        Purpose::Action(value) => value,
        Purpose::Dial { options, live, chosen } => match option_at(options, chosen) {
            Some(o) => o,
            None => match option_at(options, live) {
                Some(o) => o,
                None => "changed"@,
            },
        },
    }
}

/// Whether a row is queued for a change.
pub open spec fn queued(kind: Purpose) -> bool {
    match kind {
        Purpose::Dial { live, chosen, .. } => chosen is Some && chosen != live,
        _ => false,
    }
}

fn same_choice(a: &Option<usize>, b: &Option<usize>) -> (r: bool)
    ensures
        r == (*a == *b),
{
    match (a, b) {
        (Some(x), Some(y)) => *x == *y,
        (None, None) => true,
        _ => false,
    }
}

impl Row {
    /// Something to read.
    pub fn fact(id: &str, title: &str, value: &str) -> (r: Row)
        ensures
            r@ == (Line { id: id@, title: title@, detail: Seq::empty(), kind: Purpose::Fact(value@) }),
    {
        let r = Row {
            id: text::owned(id),
            title: text::owned(title),
            detail: String::new(),
            kind: Kind::Fact { value: text::owned(value) },
        };
        assert(r.detail@ =~= Seq::empty());
        r
    }

    /// Something to set going.
    pub fn action(id: &str, title: &str, detail: &str, value: &str) -> (r: Row)
        ensures
            r@ == (Line { id: id@, title: title@, detail: detail@, kind: Purpose::Action(value@) }),
    {
        Row {
            id: text::owned(id),
            title: text::owned(title),
            detail: text::owned(detail),
            kind: Kind::Action { value: text::owned(value) },
        }
    }

    /// Something to turn, at what the device is at.
    pub fn dial(id: &str, title: &str, detail: &str, options: Vec<String>, live: Option<usize>) -> (r: Row)
        ensures
            r@ == (Line {
                id: id@,
                title: title@,
                detail: detail@,
                kind: Purpose::Dial { options: text::texts(options@), live, chosen: None },
            }),
    {
        Row {
            id: text::owned(id),
            title: text::owned(title),
            detail: text::owned(detail),
            kind: Kind::Dial { options, live, chosen: None },
        }
    }

    /// What the row shows.
    pub fn value(&self) -> (r: String)
        ensures
            r@ == shown(self@.kind),
    {
        match &self.kind {
            Kind::Fact { value } => text::owned(value),
            Kind::Action { value } => text::owned(value),
            Kind::Dial { options, live, chosen } => {
                assert(text::texts(options@).len() == options@.len());
                if let Some(n) = chosen {
                    if *n < options.len() {
                        assert(text::texts(options@)[*n as int] == options@[*n as int]@);
                        return text::owned(&options[*n]);
                    }
                }
                if let Some(n) = live {
                    if *n < options.len() {
                        assert(text::texts(options@)[*n as int] == options@[*n as int]@);
                        return text::owned(&options[*n]);
                    }
                }
                text::owned("changed")
            },
        }
    }

    /// Whether the row is queued for a change.
    pub fn pending(&self) -> (r: bool)
        ensures
            r == queued(self@.kind),
    {
        match &self.kind {
            Kind::Dial { live, chosen, .. } => chosen.is_some() && !same_choice(chosen, live),
            _ => false,
        }
    }

    /// Whether the device is at none of the row's options.
    pub fn adrift(&self) -> (r: bool)
        ensures
            r == (self@.kind matches Purpose::Dial { live, .. } && live is None),
    {
        match &self.kind {
            Kind::Dial { live, .. } => live.is_none(),
            _ => false,
        }
    }

    /// Whether the cursor can stand on the row.
    pub fn selectable(&self) -> (r: bool)
        ensures
            r == !(self@.kind is Fact),
    {
        match self.kind {
            Kind::Fact { .. } => false,
            _ => true,
        }
    }
}

/// A page of rows. The cursor stands on a row that can be selected, if one can.
#[derive(Debug)]
pub struct Page {
    pub rows: Vec<Row>,
    pub cursor: usize,
}

/// The first row that can be selected, or the first.
pub open spec fn first_selectable(rows: Seq<Line>, i: int) -> int
    decreases rows.len() - i,
{
    if i < 0 || i >= rows.len() {
        0
    } else if !(rows[i].kind is Fact) {
        i
    } else {
        first_selectable(rows, i + 1)
    }
}

impl Page {
    /// A page with the cursor on the first row it can stand on.
    pub fn new(rows: Vec<Row>) -> (r: Page)
        ensures
            r.rows == rows,
            r.cursor == first_selectable(rows_of(rows@), 0),
    {
        let ghost all = rows_of(rows@);
        let mut i: usize = 0;
        let mut cursor: usize = 0;
        let mut found = false;
        while i < rows.len() && !found
            invariant
                all == rows_of(rows@),
                i <= rows@.len(),
                !found ==> first_selectable(all, 0) == first_selectable(all, i as int) && cursor == 0,
                found ==> cursor == first_selectable(all, 0),
            decreases rows@.len() - i,
        {
            assert(all[i as int] == rows@[i as int]@);
            if rows[i].selectable() {
                cursor = i;
                found = true;
            }
            i += 1;
        }
        Page { rows, cursor }
    }

    /// The row the cursor is on.
    pub fn selected(&self) -> (r: Option<&Row>)
        ensures
            match r {
                Some(row) => self.cursor < self.rows@.len() && *row == self.rows@[self.cursor as int],
                None => self.cursor >= self.rows@.len(),
            },
    {
        if self.cursor < self.rows.len() {
            Some(&self.rows[self.cursor])
        } else {
            None
        }
    }

    /// The rows that are queued for a change.
    pub fn pending(&self) -> (r: Vec<&Row>)
        ensures
            r@.map_values(|x: &Row| *x) == self.rows@.filter(|x: Row| queued(x@.kind)),
    {
        let ghost f = |x: Row| queued(x@.kind);
        let ghost g = |x: &Row| *x;
        let mut out: Vec<&Row> = Vec::new();
        let mut i: usize = 0;
        proof {
            reveal(Seq::filter);
            assert(out@.map_values(g) =~= self.rows@.take(0).filter(f));
        }
        while i < self.rows.len()
            invariant
                f == (|x: Row| queued(x@.kind)),
                g == (|x: &Row| *x),
                i <= self.rows@.len(),
                out@.map_values(g) == self.rows@.take(i as int).filter(f),
            decreases self.rows@.len() - i,
        {
            let ghost before = out@;
            proof {
                assert(self.rows@.take(i + 1) =~= self.rows@.take(i as int).push(self.rows@[i as int]));
                self.rows@.take(i as int).lemma_filter_push(self.rows@[i as int], f);
            }
            if self.rows[i].pending() {
                out.push(&self.rows[i]);
                assert(out@.map_values(g) =~= before.map_values(g).push(self.rows@[i as int]));
            }
            i += 1;
        }
        assert(self.rows@.take(i as int) =~= self.rows@);
        out
    }
}

proof fn lemma_first_selectable(rows: Seq<Line>, i: int)
    requires
        0 <= i,
        exists|k: int| i <= k < rows.len() && !((#[trigger] rows[k]).kind is Fact),
    ensures
        i <= first_selectable(rows, i) < rows.len(),
        !(rows[first_selectable(rows, i)].kind is Fact),
    decreases rows.len() - i,
{
    let k = choose|k: int| i <= k < rows.len() && !((#[trigger] rows[k]).kind is Fact);
    if i < rows.len() && rows[i].kind is Fact {
        assert(i + 1 <= k);
        lemma_first_selectable(rows, i + 1);
    }
}

/// A page that has something to select opens on something that can be selected.
pub proof fn law_a_page_opens_on_what_can_be_selected(rows: Seq<Line>)
    requires
        exists|k: int| 0 <= k < rows.len() && !((#[trigger] rows[k]).kind is Fact),
    ensures
        0 <= first_selectable(rows, 0) < rows.len(),
        !(rows[first_selectable(rows, 0)].kind is Fact),
{
    lemma_first_selectable(rows, 0);
}

} // verus!
