use vstd::prelude::*;
use crate::vector::Vector2;
use crate::connection::{BlockID, ConnectionID, SegmentID, copy_ids};
use crate::id::Id;

verus! {

/// Something that can be selected on a plot: a block or a waypoint.
#[derive(Debug, PartialEq, Eq)]
pub enum Selectable {
    Block(BlockID),
    Waypoint(SegmentID),
}

/// The value of a selectable item: a block, or a waypoint by its wire and
/// its path of segment identifiers.
pub enum SelView {
    Block(BlockID),
    Waypoint(ConnectionID, Seq<Id>),
}

impl View for Selectable {
    type V = SelView;

    open spec fn view(&self) -> SelView {
        match self {
            Selectable::Block(b) => SelView::Block(*b),
            Selectable::Waypoint(s) => SelView::Waypoint(s.spec_connection_id(), s.spec_location()),
        }
    }
}

impl Clone for Selectable {
    fn clone(&self) -> (c: Self)
        ensures
            c@ == self@,
    {
        match self {
            Selectable::Block(b) => Selectable::Block(*b),
            Selectable::Waypoint(s) => Selectable::Waypoint(s.clone()),
        }
    }
}

/// Whether two lists of identifiers are the same.
pub fn same_ids(a: &Vec<Id>, b: &Vec<Id>) -> (r: bool)
    ensures
        r == (a@ == b@),
{
    if a.len() != b.len() {
        return false;
    }
    let mut i: usize = 0;
    while i < a.len()
        invariant
            0 <= i <= a.len(),
            a.len() == b.len(),
            forall|j: int| 0 <= j < i ==> a@[j] == b@[j],
        decreases a.len() - i,
    {
        if a[i] != b[i] {
            return false;
        }
        i = i + 1;
    }
    proof {
        assert(a@ =~= b@);
    }
    true
}

/// Whether two selectable items are the same item.
pub fn same_selectable(a: &Selectable, b: &Selectable) -> (r: bool)
    ensures
        r == (a@ == b@),
{
    match (a, b) {
        (Selectable::Block(x), Selectable::Block(y)) => x.0 == y.0,
        (Selectable::Waypoint(x), Selectable::Waypoint(y)) => x.connection_id().0 == y.connection_id().0 && same_ids(
            x.location(),
            y.location(),
        ),
        _ => false,
    }
}

/// A copy of a list of selectable items.
pub fn copy_selectables(v: &Vec<Selectable>) -> (out: Vec<Selectable>)
    ensures
        sel_views(out@) == sel_views(v@),
{
    let mut out: Vec<Selectable> = Vec::new();
    let mut i: usize = 0;
    while i < v.len()
        invariant
            0 <= i <= v.len(),
            out@.len() == i,
            sel_views(out@) == sel_views(v@.subrange(0, i as int)),
        decreases v.len() - i,
    {
        let ghost o0 = out@;
        let c = v[i].clone();
        out.push(c);
        proof {
            assert(sel_views(out@) =~= sel_views(v@.subrange(0, i + 1))) by {
                assert forall|j: int| 0 <= j < out@.len() implies #[trigger] sel_views(out@)[j] == sel_views(
                    v@.subrange(0, i + 1),
                )[j] by {
                    assert(o0.len() == i);
                    if j < o0.len() {
                        assert(out@[j] == o0[j]);
                        assert(sel_views(o0)[j] == sel_views(v@.subrange(0, i as int))[j]);
                        assert(v@.subrange(0, i + 1)[j] == v@.subrange(0, i as int)[j]);
                    }
                }
            }
        }
        i = i + 1;
    }
    proof {
        assert(v@.subrange(0, v@.len() as int) =~= v@);
    }
    out
}

/// The values of a list of selectable items.
pub open spec fn sel_views(v: Seq<Selectable>) -> Seq<SelView> {
    v.map_values(|s: Selectable| s@)
}

/// The blocks among selected items, in order.
pub open spec fn sel_blocks(vs: Seq<SelView>) -> Seq<BlockID>
    decreases vs.len(),
{
    if vs.len() == 0 {
        seq![]
    } else {
        match vs.last() {
            SelView::Block(b) => sel_blocks(vs.drop_last()).push(b),
            _ => sel_blocks(vs.drop_last()),
        }
    }
}

/// What the user has selected or is dragging on a plot.
#[derive(Debug)]
pub enum Selection {
    Single(Selectable, Vector2<i32>),
    Many(Vec<Selectable>),
    Area(Vector2<i32>, Vector2<i32>),
    MouseEvent(BlockID),
    Connection { block_id: BlockID, output: u8, start: Vector2<i32>, position: Vector2<i32> },
    Empty,
}

impl Selection {
    pub fn connecting(&self) -> (c: bool)
        ensures
            c == (*self is Connection),
    {
        matches!(self, Selection::Connection { .. })
    }
}

impl Default for Selection {
    fn default() -> (s: Self)
        ensures
            s is Empty,
    {
        Selection::Empty
    }
}

impl Clone for Selection {
    fn clone(&self) -> (s: Self)
        ensures
            match (*self, s) {
                (Selection::Single(a, p), Selection::Single(b, q)) => a@ == b@ && p == q,
                (Selection::Many(a), Selection::Many(b)) => sel_views(a@) == sel_views(b@),
                (Selection::Single(_, _), _) => false,
                (Selection::Many(_), _) => false,
                (x, y) => x == y,
            },
    {
        match self {
            Selection::Single(x, p) => Selection::Single(x.clone(), *p),
            Selection::Many(v) => Selection::Many(copy_selectables(v)),
            Selection::Area(a, b) => Selection::Area(*a, *b),
            Selection::MouseEvent(id) => Selection::MouseEvent(*id),
            Selection::Connection { block_id, output, start, position } => Selection::Connection {
                block_id: *block_id,
                output: *output,
                start: *start,
                position: *position,
            },
            Selection::Empty => Selection::Empty,
        }
    }
}

/// The rectangle spanned by two corners, as its top-left and
/// bottom-right corners.
pub open spec fn area_of(start: Vector2<i32>, end: Vector2<i32>) -> (Vector2<i32>, Vector2<i32>) {
    (
        Vector2(
            if start.0 <= end.0 {
                start.0
            } else {
                end.0
            },
            if start.1 <= end.1 {
                start.1
            } else {
                end.1
            },
        ),
        Vector2(
            if start.0 >= end.0 {
                start.0
            } else {
                end.0
            },
            if start.1 >= end.1 {
                start.1
            } else {
                end.1
            },
        ),
    )
}

pub fn area_of_exec(start: Vector2<i32>, end: Vector2<i32>) -> (a: (Vector2<i32>, Vector2<i32>))
    ensures
        a == area_of(start, end),
{
    (
        Vector2(
            if start.0 <= end.0 {
                start.0
            } else {
                end.0
            },
            if start.1 <= end.1 {
                start.1
            } else {
                end.1
            },
        ),
        Vector2(
            if start.0 >= end.0 {
                start.0
            } else {
                end.0
            },
            if start.1 >= end.1 {
                start.1
            } else {
                end.1
            },
        ),
    )
}

/// The values of the items a selection names.
pub open spec fn selected_views(s: Selection) -> Seq<SelView> {
    match s {
        Selection::Single(x, _) => seq![x@],
        Selection::Many(v) => sel_views(v@),
        _ => Seq::empty(),
    }
}

/// The blocks a selection names.
pub open spec fn selected_ids(s: Selection) -> Seq<BlockID> {
    sel_blocks(selected_views(s))
}

/// Selection handling of a plot.
pub trait SelectionField {
    fn selection(&self) -> &Selection;

    fn set_selection(&mut self, selection: Selection);

    fn select_all(&mut self);

    fn unhighlight(&mut self);

    fn selected(&self) -> Vec<BlockID>;

    fn highlight_area(&mut self);
}


/// A selection rectangle does not depend on the direction of the drag:
/// its corners are the smaller and the larger coordinates of the two
/// points, each taken from one of them.
pub proof fn lemma_area_normalised(start: Vector2<i32>, end: Vector2<i32>)
    ensures
        area_of(start, end) == area_of(end, start),
        area_of(start, end).0.0 <= area_of(start, end).1.0,
        area_of(start, end).0.1 <= area_of(start, end).1.1,
        area_of(start, end).0.0 == start.0 || area_of(start, end).0.0 == end.0,
        area_of(start, end).0.1 == start.1 || area_of(start, end).0.1 == end.1,
        area_of(start, end).1.0 == start.0 || area_of(start, end).1.0 == end.0,
        area_of(start, end).1.1 == start.1 || area_of(start, end).1.1 == end.1,
        area_of(start, end).0.0 <= start.0 && area_of(start, end).0.0 <= end.0,
        area_of(start, end).0.1 <= start.1 && area_of(start, end).0.1 <= end.1,
        area_of(start, end).1.0 >= start.0 && area_of(start, end).1.0 >= end.0,
        area_of(start, end).1.1 >= start.1 && area_of(start, end).1.1 >= end.1,
{
}

} // verus!
