use vstd::prelude::*;
use crate::id::Id;
use crate::vector::Vector2;

verus! {

pub type BlockID = Id;

pub type ConnectionID = Id;

/// One end of a wire: an input or an output pin of a block.
#[derive(Debug, Copy, Clone, PartialEq, Eq, Structural)]
pub enum Port {
    Input(BlockID, u8),
    Output(BlockID, u8),
}

impl Port {
    pub open spec fn spec_index(self) -> u8 {
        match self {
            Port::Input(_, i) => i,
            Port::Output(_, i) => i,
        }
    }

    pub open spec fn spec_block_id(self) -> BlockID {
        match self {
            Port::Input(b, _) => b,
            Port::Output(b, _) => b,
        }
    }

    pub fn index(&self) -> (i: u8)
        ensures
            i == self.spec_index(),
    {
        match self {
            Port::Input(_, index) => *index,
            Port::Output(_, index) => *index,
        }
    }

    pub fn block_id(&self) -> (b: BlockID)
        ensures
            b == self.spec_block_id(),
    {
        match self {
            Port::Input(id, _) => *id,
            Port::Output(id, _) => *id,
        }
    }

    pub fn set_block_id(&mut self, block_id: BlockID)
        ensures
            final(self).spec_block_id() == block_id,
            final(self).spec_index() == old(self).spec_index(),
            (*final(self) is Input) == (*old(self) is Input),
    {
        match self {
            Port::Input(id, _) => *id = block_id,
            Port::Output(id, _) => *id = block_id,
        }
    }
}

/// A pin of a block, without the block.
#[derive(Debug, Copy, Clone, PartialEq, Eq, Structural)]
pub enum Connector {
    Input(u8),
    Output(u8),
}

impl From<Port> for Connector {
    fn from(value: Port) -> (c: Self) {
        match value {
            Port::Input(_, port) => Connector::Input(port),
            Port::Output(_, port) => Connector::Output(port),
        }
    }
}

impl vstd::std_specs::convert::FromSpecImpl<Port> for Connector {
    open spec fn obeys_from_spec() -> bool {
        true
    }

    open spec fn from_spec(value: Port) -> Self {
        match value {
            Port::Input(_, port) => Connector::Input(port),
            Port::Output(_, port) => Connector::Output(port),
        }
    }
}

/// Path from a connection's root down to one of its segments.
pub type SegmentLocation = Vec<Id>;

/// Names one waypoint of one connection.
#[derive(Debug, PartialEq, Eq)]
pub struct SegmentID {
    connection_id: ConnectionID,
    location: SegmentLocation,
}

/// A copy of a list of identifiers.
pub fn copy_ids(ids: &Vec<Id>) -> (out: Vec<Id>)
    ensures
        out@ == ids@,
{
    let mut out: Vec<Id> = Vec::new();
    let mut i: usize = 0;
    while i < ids.len()
        invariant
            0 <= i <= ids.len(),
            out@ == ids@.subrange(0, i as int),
        decreases ids.len() - i,
    {
        out.push(ids[i]);
        i = i + 1;
    }
    out
}

impl SegmentID {
    pub closed spec fn spec_connection_id(&self) -> ConnectionID {
        self.connection_id
    }

    pub closed spec fn spec_location(&self) -> Seq<Id> {
        self.location@
    }

    pub fn new(connection_id: ConnectionID, location: Vec<Id>) -> (s: Self)
        ensures
            s.spec_connection_id() == connection_id,
            s.spec_location() == location@,
    {
        SegmentID { connection_id, location }
    }

    pub fn connection_id(&self) -> (id: &ConnectionID)
        ensures
            *id == self.spec_connection_id(),
    {
        &self.connection_id
    }

    pub fn location(&self) -> (loc: &SegmentLocation)
        ensures
            loc@ == self.spec_location(),
    {
        &self.location
    }
}

impl Clone for SegmentID {
    fn clone(&self) -> (s: Self)
        ensures
            s.spec_connection_id() == self.spec_connection_id(),
            s.spec_location() == self.spec_location(),
    {
        SegmentID { connection_id: self.connection_id, location: copy_ids(&self.location) }
    }
}

/// A piece of a wire: either it ends at an input pin of a block, or it
/// passes a waypoint from which further segments branch off.
#[derive(Debug)]
pub enum Segment {
    Block(BlockID, u8),
    Waypoint(Vec<(Id, Segment)>, Vector2<i32>, bool),
}

/// Half the side of the square around a waypoint that the mouse hits.
pub const HITBOX_SIZE: i32 = 12;

/// The mathematical value of a segment: its branches as a sequence.
pub enum SegView {
    Block(BlockID, u8),
    Waypoint(Seq<(Id, SegView)>, Vector2<i32>, bool),
}

pub open spec fn seg_view(s: Segment) -> SegView
    decreases s,
{
    match s {
        Segment::Block(b, p) => SegView::Block(b, p),
        Segment::Waypoint(cs, pos, h) => SegView::Waypoint(children_view(cs@), pos, h),
    }
}

pub open spec fn children_view(cs: Seq<(Id, Segment)>) -> Seq<(Id, SegView)>
    decreases cs,
{
    if cs.len() == 0 {
        seq![]
    } else {
        children_view(cs.drop_last()).push((cs.last().0, seg_view(cs.last().1)))
    }
}

impl View for Segment {
    type V = SegView;

    open spec fn view(&self) -> SegView {
        seg_view(*self)
    }
}

pub proof fn lemma_children_view(cs: Seq<(Id, Segment)>)
    ensures
        children_view(cs).len() == cs.len(),
        forall|i: int|
            0 <= i < cs.len() ==> #[trigger] children_view(cs)[i] == (cs[i].0, seg_view(cs[i].1)),
    decreases cs.len(),
{
    if cs.len() > 0 {
        lemma_children_view(cs.drop_last());
    }
}

pub proof fn lemma_children_view_prefix(cs: Seq<(Id, Segment)>, i: int)
    requires
        0 <= i < cs.len(),
    ensures
        children_view(cs.subrange(0, i + 1)) == children_view(cs.subrange(0, i)).push(
            (cs[i].0, seg_view(cs[i].1)),
        ),
{
    assert(cs.subrange(0, i + 1).drop_last() =~= cs.subrange(0, i));
}

/// The input pins that a segment leads to, in order.
pub open spec fn seg_destinations(s: SegView) -> Seq<Port>
    decreases s,
{
    match s {
        SegView::Block(b, p) => seq![Port::Input(b, p)],
        SegView::Waypoint(cs, _, _) => children_destinations(cs),
    }
}

pub open spec fn children_destinations(cs: Seq<(Id, SegView)>) -> Seq<Port>
    decreases cs,
{
    if cs.len() == 0 {
        seq![]
    } else {
        children_destinations(cs.drop_last()) + seg_destinations(cs.last().1)
    }
}

/// What is left of a segment once the branches that lead to blocks
/// outside `sel` are cut; `None` when nothing is left.
pub open spec fn seg_prune(s: SegView, sel: Seq<Id>) -> Option<SegView>
    decreases s,
{
    match s {
        SegView::Block(b, p) => if sel.contains(b) {
            Some(SegView::Block(b, p))
        } else {
            None
        },
        SegView::Waypoint(cs, pos, h) => {
            let kept = children_prune(cs, sel);
            if kept.len() == 0 {
                None
            } else {
                Some(SegView::Waypoint(kept, pos, h))
            }
        },
    }
}

pub open spec fn children_prune(cs: Seq<(Id, SegView)>, sel: Seq<Id>) -> Seq<(Id, SegView)>
    decreases cs,
{
    if cs.len() == 0 {
        seq![]
    } else {
        let rest = children_prune(cs.drop_last(), sel);
        match seg_prune(cs.last().1, sel) {
            Some(t) => rest.push((cs.last().0, t)),
            None => rest,
        }
    }
}

/// Wire `c` with block `old_id` renamed to `new_id`: its origin if the
/// wire starts there, otherwise every branch that ends there.
pub open spec fn conn_refactor(c: ConnView, old_id: BlockID, new_id: BlockID) -> ConnView {
    if c.origin.spec_block_id() == old_id {
        ConnView {
            origin: match c.origin {
                Port::Input(_, i) => Port::Input(new_id, i),
                Port::Output(_, i) => Port::Output(new_id, i),
            },
            ..c
        }
    } else {
        ConnView { segments: children_refactor(c.segments, old_id, new_id), ..c }
    }
}

/// A segment with every reference to block `old` replaced by `new`.
pub open spec fn seg_refactor(s: SegView, old: BlockID, new: BlockID) -> SegView
    decreases s,
{
    match s {
        SegView::Block(b, p) => if b == old {
            SegView::Block(new, p)
        } else {
            SegView::Block(b, p)
        },
        SegView::Waypoint(cs, pos, h) => SegView::Waypoint(children_refactor(cs, old, new), pos, h),
    }
}

pub open spec fn children_refactor(cs: Seq<(Id, SegView)>, old: BlockID, new: BlockID) -> Seq<
    (Id, SegView),
>
    decreases cs,
{
    if cs.len() == 0 {
        seq![]
    } else {
        children_refactor(cs.drop_last(), old, new).push(
            (cs.last().0, seg_refactor(cs.last().1, old, new)),
        )
    }
}


/// `a` comes after `b` in the order of points (by x, then by y).
pub open spec fn point_after(a: (int, int), b: (int, int)) -> bool {
    a.0 > b.0 || (a.0 == b.0 && a.1 > b.1)
}

/// The hitbox of the waypoint at `pos` reaches into the area between
/// `area.0` and `area.1` (points compared by x, then by y).
pub open spec fn waypoint_in_area(pos: Vector2<i32>, area: (Vector2<i32>, Vector2<i32>)) -> bool {
    !(point_after((pos.0 - HITBOX_SIZE, pos.1 - HITBOX_SIZE), (area.1.0 as int, area.1.1 as int))
        || point_after((area.0.0 as int, area.0.1 as int), (pos.0 + HITBOX_SIZE, pos.1 + HITBOX_SIZE)))
}

/// The segment with the highlighting of its waypoints set to `h`: all of
/// them without an area, else those whose hitbox reaches into the area.
pub open spec fn seg_mark(s: SegView, area: Option<(Vector2<i32>, Vector2<i32>)>, h: bool) -> SegView
    decreases s,
{
    match s {
        SegView::Block(b, p) => SegView::Block(b, p),
        SegView::Waypoint(cs, pos, hl) => SegView::Waypoint(
            children_mark(cs, area, h),
            pos,
            match area {
                None => h,
                Some(a) => if waypoint_in_area(pos, a) {
                    h
                } else {
                    hl
                },
            },
        ),
    }
}

pub open spec fn children_mark(cs: Seq<(Id, SegView)>, area: Option<(Vector2<i32>, Vector2<i32>)>, h: bool) -> Seq<
    (Id, SegView),
>
    decreases cs,
{
    if cs.len() == 0 {
        seq![]
    } else {
        children_mark(cs.drop_last(), area, h).push((cs.last().0, seg_mark(cs.last().1, area, h)))
    }
}

pub proof fn lemma_seg_mark_destinations(s: SegView, area: Option<(Vector2<i32>, Vector2<i32>)>, h: bool)
    ensures
        seg_destinations(seg_mark(s, area, h)) == seg_destinations(s),
    decreases s,
{
    match s {
        SegView::Block(..) => {},
        SegView::Waypoint(cs, pos, hl) => {
            lemma_children_mark_destinations(cs, area, h);
        },
    }
}

pub proof fn lemma_children_mark_destinations(cs: Seq<(Id, SegView)>, area: Option<(Vector2<i32>, Vector2<i32>)>, h: bool)
    ensures
        children_destinations(children_mark(cs, area, h)) == children_destinations(cs),
    decreases cs,
{
    if cs.len() > 0 {
        assert(decreases_to!(cs => cs.drop_last()));
        lemma_children_mark_destinations(cs.drop_last(), area, h);
        assert(decreases_to!(cs => cs.last().1)) by {
            assert(decreases_to!(cs => cs[cs.len() - 1]));
        }
        lemma_seg_mark_destinations(cs.last().1, area, h);
        let m = children_mark(cs, area, h);
        assert(m.drop_last() =~= children_mark(cs.drop_last(), area, h));
    }
}

fn waypoint_in_area_exec(pos: Vector2<i32>, area: (Vector2<i32>, Vector2<i32>)) -> (b: bool)
    ensures
        b == waypoint_in_area(pos, area),
{
    let lo = (pos.0 as i64 - HITBOX_SIZE as i64, pos.1 as i64 - HITBOX_SIZE as i64);
    let hi = (pos.0 as i64 + HITBOX_SIZE as i64, pos.1 as i64 + HITBOX_SIZE as i64);
    let a0 = (area.0.0 as i64, area.0.1 as i64);
    let a1 = (area.1.0 as i64, area.1.1 as i64);
    let after_end = lo.0 > a1.0 || (lo.0 == a1.0 && lo.1 > a1.1);
    let before_start = a0.0 > hi.0 || (a0.0 == hi.0 && a0.1 > hi.1);
    !(after_end || before_start)
}

/// The point lies in the hitbox around the waypoint at `pos`.
pub open spec fn near(pos: Vector2<i32>, point: Vector2<i32>) -> bool {
    &&& point.0 > pos.0 - HITBOX_SIZE
    &&& point.0 < pos.0 + HITBOX_SIZE
    &&& point.1 > pos.1 - HITBOX_SIZE
    &&& point.1 < pos.1 + HITBOX_SIZE
}

/// Path (below `s`) to the first waypoint hit by `point`, searching a
/// waypoint before its branches and the branches in order.
pub open spec fn seg_find(s: SegView, point: Vector2<i32>) -> Option<Seq<Id>>
    decreases s,
{
    match s {
        SegView::Block(_, _) => None,
        SegView::Waypoint(cs, pos, _) => if near(pos, point) {
            Some(seq![])
        } else {
            children_find(cs, point)
        },
    }
}

pub open spec fn children_find(cs: Seq<(Id, SegView)>, point: Vector2<i32>) -> Option<Seq<Id>>
    decreases cs,
{
    if cs.len() == 0 {
        None
    } else {
        match children_find(cs.drop_last(), point) {
            Some(path) => Some(path),
            None => match seg_find(cs.last().1, point) {
                Some(path) => Some(seq![cs.last().0].add(path)),
                None => None,
            },
        }
    }
}

/// Index of the first branch with identifier `id`.
pub open spec fn lookup_index<S>(cs: Seq<(Id, S)>, id: Id) -> Option<int>
    decreases cs.len(),
{
    if cs.len() == 0 {
        None
    } else {
        match lookup_index(cs.drop_last(), id) {
            Some(i) => Some(i),
            None => if cs.last().0 == id {
                Some(cs.len() - 1)
            } else {
                None
            },
        }
    }
}

pub proof fn lemma_lookup_index<S>(cs: Seq<(Id, S)>, id: Id)
    ensures
        lookup_index(cs, id) matches Some(i) ==> 0 <= i < cs.len() && cs[i].0 == id && forall|
            j: int,
        |
            0 <= j < i ==> cs[j].0 != id,
        lookup_index(cs, id) is None ==> forall|j: int| 0 <= j < cs.len() ==> cs[j].0 != id,
    decreases cs.len(),
{
    if cs.len() > 0 {
        let d = cs.drop_last();
        lemma_lookup_index(d, id);
        assert(forall|j: int| 0 <= j < d.len() ==> d[j] == cs[j]);
    }
}

pub proof fn lemma_lookup_index_first<S>(cs: Seq<(Id, S)>, id: Id, i: int)
    requires
        0 <= i < cs.len(),
        cs[i].0 == id,
        forall|j: int| 0 <= j < i ==> cs[j].0 != id,
    ensures
        lookup_index(cs, id) == Some(i),
{
    lemma_lookup_index(cs, id);
    if let Some(k) = lookup_index(cs, id) {
        assert(k == i);
    }
}

/// The segment reached by following `rest` from `s`; a block segment
/// ends the walk.
pub open spec fn seg_at(s: SegView, rest: Seq<Id>) -> Option<SegView>
    decreases s,
{
    match s {
        SegView::Block(_, _) => Some(s),
        SegView::Waypoint(cs, _, _) => if rest.len() == 0 {
            Some(s)
        } else {
            match lookup_index(cs, rest[0]) {
                Some(i) => if 0 <= i < cs.len() {
                    seg_at(cs[i].1, rest.drop_first())
                } else {
                    None
                },
                None => None,
            }
        },
    }
}

pub proof fn lemma_children_view_push(cs: Seq<(Id, Segment)>, x: (Id, Segment))
    ensures
        children_view(cs.push(x)) == children_view(cs).push((x.0, seg_view(x.1))),
{
    assert(cs.push(x).drop_last() =~= cs);
}

pub proof fn lemma_children_destinations_push(cs: Seq<(Id, SegView)>, x: (Id, SegView))
    ensures
        children_destinations(cs.push(x)) == children_destinations(cs) + seg_destinations(x.1),
{
    assert(cs.push(x).drop_last() =~= cs);
}

/// The sequence without the branches named `id`.
pub open spec fn children_without<S>(cs: Seq<(Id, S)>, id: Id) -> Seq<(Id, S)>
    decreases cs.len(),
{
    if cs.len() == 0 {
        seq![]
    } else if cs.last().0 == id {
        children_without(cs.drop_last(), id)
    } else {
        children_without(cs.drop_last(), id).push(cs.last())
    }
}

/// Both hitbox bounds are computed without overflow in 64 bits.
fn near_exec(pos: Vector2<i32>, point: Vector2<i32>) -> (b: bool)
    ensures
        b == near(pos, point),
{
    let h = HITBOX_SIZE as i64;
    let (px, py) = (pos.0 as i64, pos.1 as i64);
    let (x, y) = (point.0 as i64, point.1 as i64);
    x > px - h && x < px + h && y > py - h && y < py + h
}

pub proof fn lemma_children_view_subrange(cs: Seq<(Id, Segment)>, n: int)
    requires
        0 <= n <= cs.len(),
    ensures
        children_view(cs.subrange(0, n)) == children_view(cs).subrange(0, n),
    decreases cs.len(),
{
    lemma_children_view(cs);
    lemma_children_view(cs.subrange(0, n));
    assert(children_view(cs.subrange(0, n)) =~= children_view(cs).subrange(0, n));
}

/// A search that finds something in a prefix finds the same in the whole.
pub proof fn lemma_children_find_prefix(cs: Seq<(Id, SegView)>, n: int, point: Vector2<i32>)
    requires
        0 <= n <= cs.len(),
        children_find(cs.subrange(0, n), point) is Some,
    ensures
        children_find(cs, point) == children_find(cs.subrange(0, n), point),
    decreases cs.len() - n,
{
    if n < cs.len() {
        lemma_children_find_prefix_step(cs, n, point);
        lemma_children_find_prefix(cs, n + 1, point);
    } else {
        assert(cs.subrange(0, n) =~= cs);
    }
}

proof fn lemma_children_find_prefix_step(cs: Seq<(Id, SegView)>, n: int, point: Vector2<i32>)
    requires
        0 <= n < cs.len(),
        children_find(cs.subrange(0, n), point) is Some,
    ensures
        children_find(cs.subrange(0, n + 1), point) == children_find(cs.subrange(0, n), point),
{
    assert(cs.subrange(0, n + 1).drop_last() =~= cs.subrange(0, n));
}

impl Segment {
    pub fn position(&self) -> (p: Option<&Vector2<i32>>)
        ensures
            match self@ {
                SegView::Waypoint(_, pos, _) => p == Some(&pos),
                SegView::Block(_, _) => p is None,
            },
    {
        match self {
            Segment::Waypoint(_, position, _) => Some(position),
            Segment::Block(_, _) => None,
        }
    }

    pub fn set_position(&mut self, new_position: Vector2<i32>)
        ensures
            final(self)@ == match old(self)@ {
                SegView::Waypoint(cs, _, h) => SegView::Waypoint(cs, new_position, h),
                b => b,
            },
    {
        if let Segment::Waypoint(_, position, _) = self {
            *position = new_position;
        }
    }

    pub fn set_highlighted(&mut self, highlighted: bool)
        ensures
            final(self)@ == match old(self)@ {
                SegView::Waypoint(cs, pos, _) => SegView::Waypoint(cs, pos, highlighted),
                b => b,
            },
    {
        if let Segment::Waypoint(_, _, self_highlighted) = self {
            *self_highlighted = highlighted;
        }
    }

    /// Hangs a new branch under a waypoint and returns the branch's fresh
    /// identifier; a block segment takes no branches.
    pub fn add_segment(&mut self, segment: Segment) -> (id: Option<Id>)
        ensures
            match old(self)@ {
                SegView::Waypoint(cs, pos, h) => id is Some && final(self)@ == SegView::Waypoint(
                    cs.push((id.unwrap(), segment@)),
                    pos,
                    h,
                ),
                SegView::Block(_, _) => id is None && final(self)@ == old(self)@,
            },
    {
        match self {
            Segment::Waypoint(segments, _, _) => {
                let id = Id::new();
                proof {
                    lemma_children_view_push(segments@, (id, segment));
                }
                segments.push((id, segment));
                Some(id)
            },
            Segment::Block(_, _) => None,
        }
    }

    /// Cuts the branches named `id` off a waypoint.
    pub fn remove_segment(&mut self, id: &Id)
        ensures
            final(self)@ == match old(self)@ {
                SegView::Waypoint(cs, pos, h) => SegView::Waypoint(
                    children_without(cs, *id),
                    pos,
                    h,
                ),
                b => b,
            },
    {
        if let Segment::Waypoint(segments, _, _) = self {
            let mut old_segments: Vec<(Id, Segment)> = Vec::new();
            std::mem::swap(&mut old_segments, segments);
            let ghost orig = old_segments@;
            let total = old_segments.len();
            let mut kept: Vec<(Id, Segment)> = Vec::new();
            let mut k: usize = 0;
            while old_segments.len() > 0
                invariant
                    k + old_segments@.len() == orig.len(),
                    orig.len() == total,
                    old_segments@ == orig.subrange(k as int, orig.len() as int),
                    children_view(kept@) == children_without(
                        children_view(orig.subrange(0, k as int)),
                        *id,
                    ),
                decreases old_segments.len(),
            {
                let entry = old_segments.remove(0);
                proof {
                    lemma_children_view_prefix(orig, k as int);
                    let pre = children_view(orig.subrange(0, k as int));
                    let x = (orig[k as int].0, seg_view(orig[k as int].1));
                    assert(pre.push(x).drop_last() =~= pre);
                }
                if entry.0 != *id {
                    proof {
                        lemma_children_view_push(kept@, entry);
                    }
                    kept.push(entry);
                }
                k = k + 1;
                proof {
                    assert(old_segments@ =~= orig.subrange(k as int, orig.len() as int));
                }
            }
            proof {
                assert(orig.subrange(0, k as int) =~= orig);
            }
            *segments = kept;
        }
    }

    /// Turns the segment into one that ends at an input pin.
    pub fn convert(&mut self, block_id: BlockID, port: u8)
        ensures
            final(self)@ == SegView::Block(block_id, port),
    {
        *self = Segment::Block(block_id, port)
    }

    /// Appends the input pins that the segment leads to.
    pub fn destinations(&self, ports: &mut Vec<Port>)
        ensures
            final(ports)@ == old(ports)@ + seg_destinations(self@),
        decreases self,
    {
        match self {
            Segment::Block(block_id, port) => {
                ports.push(Port::Input(*block_id, *port));
                assert(seg_destinations(self@) =~= seq![Port::Input(*block_id, *port)]);
            },
            Segment::Waypoint(segments, pos, h) => {
                let ghost start = ports@;
                let mut i: usize = 0;
                while i < segments.len()
                    invariant
                        0 <= i <= segments.len(),
                        *self == Segment::Waypoint(*segments, *pos, *h),
                        ports@ == start + children_destinations(
                            children_view(segments@.subrange(0, i as int)),
                        ),
                    decreases segments.len() - i,
                {
                    proof {
                        lemma_children_view_prefix(segments@, i as int);
                        lemma_children_destinations_push(
                            children_view(segments@.subrange(0, i as int)),
                            (segments@[i as int].0, seg_view(segments@[i as int].1)),
                        );
                        assert(decreases_to!(*self => segments@[i as int].1)) by {
                            assert(decreases_to!(*self => self->Waypoint_0));
                            assert(decreases_to!(self->Waypoint_0 => segments@));
                            assert(decreases_to!(segments@ => segments@[i as int]));
                            assert(decreases_to!(segments@[i as int] => segments@[i as int].1));
                        }
                    }
                    segments[i].1.destinations(ports);
                    i = i + 1;
                    proof {
                        assert(ports@ =~= start + children_destinations(
                            children_view(segments@.subrange(0, i as int)),
                        ));
                    }
                }
                proof {
                    assert(segments@.subrange(0, segments.len() as int) =~= segments@);
                }
            },
        }
    }

    pub open spec fn spec_is_empty(s: SegView) -> bool {
        s matches SegView::Waypoint(cs, _, _) && cs.len() == 0
    }

    pub fn is_empty(&self) -> (b: bool)
        ensures
            b == Self::spec_is_empty(self@),
    {
        match self {
            Segment::Waypoint(segments, _, _) => {
                proof {
                    lemma_children_view(segments@);
                }
                segments.len() == 0
            },
            Segment::Block(_, _) => false,
        }
    }

    /// Cuts the branches that do not lead to a block of `selection`;
    /// returns whether nothing is left (so the caller drops the segment).
    pub fn remove_unselected_branches(&mut self, selection: &Vec<BlockID>) -> (empty: bool)
        ensures
            empty == (seg_prune(old(self)@, selection@) is None),
            !empty ==> Some(final(self)@) == seg_prune(old(self)@, selection@),
        decreases *old(self),
    {
        match self {
            Segment::Block(block_id, _) => {
                let mut found = false;
                let mut i: usize = 0;
                while i < selection.len()
                    invariant
                        0 <= i <= selection.len(),
                        found == selection@.subrange(0, i as int).contains(*block_id),
                    decreases selection.len() - i,
                {
                    proof {
                        assert(selection@.subrange(0, i + 1) =~= selection@.subrange(
                            0,
                            i as int,
                        ).push(selection@[i as int]));
                    }
                    if selection[i] == *block_id {
                        found = true;
                    }
                    proof {
                        let pre = selection@.subrange(0, i as int);
                        let x = selection@[i as int];
                        if x == *block_id {
                            assert(pre.push(x)[pre.len() as int] == x);
                        }
                        assert(pre.push(x).contains(*block_id) == (pre.contains(*block_id) || x
                            == *block_id)) by {
                            if pre.contains(*block_id) {
                                let j = choose|j: int| 0 <= j < pre.len() && pre[j] == *block_id;
                                assert(pre.push(x)[j] == *block_id);
                            }
                            if pre.push(x).contains(*block_id) {
                                let j = choose|j: int|
                                    0 <= j < pre.push(x).len() && pre.push(x)[j] == *block_id;
                                if j < pre.len() {
                                    assert(pre[j] == *block_id);
                                }
                            }
                        }
                    }
                    i = i + 1;
                }
                proof {
                    assert(selection@.subrange(0, selection.len() as int) =~= selection@);
                }
                !found
            },
            Segment::Waypoint(segments, pos, h) => {
                let ghost whole = *old(self);
                let mut old_segments: Vec<(Id, Segment)> = Vec::new();
                std::mem::swap(&mut old_segments, segments);
                let ghost orig = old_segments@;
                let total = old_segments.len();
                let mut kept: Vec<(Id, Segment)> = Vec::new();
                let mut k: usize = 0;
                while old_segments.len() > 0
                    invariant
                        k + old_segments@.len() == orig.len(),
                        orig.len() == total,
                        old_segments@ == orig.subrange(k as int, orig.len() as int),
                        whole->Waypoint_0@ == orig,
                        whole is Waypoint,
                        whole == *old(self),
                        children_view(kept@) == children_prune(
                            children_view(orig.subrange(0, k as int)),
                            selection@,
                        ),
                    decreases old_segments.len(),
                {
                    let entry = old_segments.remove(0);
                    assert(entry == orig[k as int]);
                    let (id, mut child) = entry;
                    proof {
                        lemma_children_view_prefix(orig, k as int);
                        let pre = children_view(orig.subrange(0, k as int));
                        let x = (orig[k as int].0, seg_view(orig[k as int].1));
                        assert(pre.push(x).drop_last() =~= pre);
                        assert(decreases_to!(whole => orig[k as int].1)) by {
                            assert(decreases_to!(whole => whole->Waypoint_0));
                            assert(decreases_to!(whole->Waypoint_0 => orig));
                            assert(decreases_to!(orig => orig[k as int]));
                            assert(decreases_to!(orig[k as int] => orig[k as int].1));
                        }
                    }
                    proof {
                        assert(child == orig[k as int].1);
                        assert(decreases_to!(*old(self) => child));
                    }
                    let gone = child.remove_unselected_branches(selection);
                    if !gone {
                        proof {
                            lemma_children_view_push(kept@, (id, child));
                        }
                        kept.push((id, child));
                    }
                    k = k + 1;
                    proof {
                        assert(old_segments@ =~= orig.subrange(k as int, orig.len() as int));
                    }
                }
                proof {
                    assert(orig.subrange(0, k as int) =~= orig);
                    lemma_children_view(kept@);
                }
                let empty = kept.len() == 0;
                *segments = kept;
                empty
            },
        }
    }

    /// Points every branch that ends at block `old_id` to block `new_id`.
    pub fn refactor_id(&mut self, old_id: BlockID, new_id: BlockID)
        ensures
            final(self)@ == seg_refactor(old(self)@, old_id, new_id),
        decreases *old(self),
    {
        match self {
            Segment::Block(block_id, _) => {
                if *block_id == old_id {
                    *block_id = new_id;
                }
            },
            Segment::Waypoint(segments, pos, h) => {
                let ghost whole = *old(self);
                let mut old_segments: Vec<(Id, Segment)> = Vec::new();
                std::mem::swap(&mut old_segments, segments);
                let ghost orig = old_segments@;
                let total = old_segments.len();
                let mut done: Vec<(Id, Segment)> = Vec::new();
                let mut k: usize = 0;
                while old_segments.len() > 0
                    invariant
                        k + old_segments@.len() == orig.len(),
                        orig.len() == total,
                        old_segments@ == orig.subrange(k as int, orig.len() as int),
                        whole->Waypoint_0@ == orig,
                        whole is Waypoint,
                        whole == *old(self),
                        children_view(done@) == children_refactor(
                            children_view(orig.subrange(0, k as int)),
                            old_id,
                            new_id,
                        ),
                    decreases old_segments.len(),
                {
                    let entry = old_segments.remove(0);
                    assert(entry == orig[k as int]);
                    let (id, mut child) = entry;
                    proof {
                        lemma_children_view_prefix(orig, k as int);
                        let pre = children_view(orig.subrange(0, k as int));
                        let x = (orig[k as int].0, seg_view(orig[k as int].1));
                        assert(pre.push(x).drop_last() =~= pre);
                        assert(decreases_to!(whole => orig[k as int].1)) by {
                            assert(decreases_to!(whole => whole->Waypoint_0));
                            assert(decreases_to!(whole->Waypoint_0 => orig));
                            assert(decreases_to!(orig => orig[k as int]));
                            assert(decreases_to!(orig[k as int] => orig[k as int].1));
                        }
                    }
                    proof {
                        assert(child == orig[k as int].1);
                        assert(decreases_to!(*old(self) => child));
                    }
                    child.refactor_id(old_id, new_id);
                    proof {
                        lemma_children_view_push(done@, (id, child));
                    }
                    done.push((id, child));
                    k = k + 1;
                    proof {
                        assert(old_segments@ =~= orig.subrange(k as int, orig.len() as int));
                    }
                }
                proof {
                    assert(orig.subrange(0, k as int) =~= orig);
                }
                *segments = done;
            },
        }
    }

    /// Sets the highlighting of the waypoints of the segment: all of them
    /// without an area, else those whose hitbox reaches into the area.
    pub fn mark(&mut self, area: Option<(Vector2<i32>, Vector2<i32>)>, h: bool)
        ensures
            final(self)@ == seg_mark(old(self)@, area, h),
        decreases *old(self),
    {
        match self {
            Segment::Block(_, _) => {},
            Segment::Waypoint(segments, pos, hl) => {
                let ghost whole = *old(self);
                let new_h = match area {
                    None => h,
                    Some(a) => if waypoint_in_area_exec(*pos, a) {
                        h
                    } else {
                        *hl
                    },
                };
                *hl = new_h;
                let mut old_segments: Vec<(Id, Segment)> = Vec::new();
                std::mem::swap(&mut old_segments, segments);
                let ghost orig = old_segments@;
                let total = old_segments.len();
                let mut done: Vec<(Id, Segment)> = Vec::new();
                let mut k: usize = 0;
                while old_segments.len() > 0
                    invariant
                        k + old_segments@.len() == orig.len(),
                        orig.len() == total,
                        old_segments@ == orig.subrange(k as int, orig.len() as int),
                        whole->Waypoint_0@ == orig,
                        whole is Waypoint,
                        whole == *old(self),
                        children_view(done@) == children_mark(
                            children_view(orig.subrange(0, k as int)),
                            area,
                            h,
                        ),
                    decreases old_segments.len(),
                {
                    let entry = old_segments.remove(0);
                    assert(entry == orig[k as int]);
                    let (id, mut child) = entry;
                    proof {
                        lemma_children_view_prefix(orig, k as int);
                        let pre = children_view(orig.subrange(0, k as int));
                        let x = (orig[k as int].0, seg_view(orig[k as int].1));
                        assert(pre.push(x).drop_last() =~= pre);
                        assert(decreases_to!(whole => orig[k as int].1)) by {
                            assert(decreases_to!(whole => whole->Waypoint_0));
                            assert(decreases_to!(whole->Waypoint_0 => orig));
                            assert(decreases_to!(orig => orig[k as int]));
                            assert(decreases_to!(orig[k as int] => orig[k as int].1));
                        }
                    }
                    child.mark(area, h);
                    proof {
                        lemma_children_view_push(done@, (id, child));
                    }
                    done.push((id, child));
                    k = k + 1;
                    proof {
                        assert(old_segments@ =~= orig.subrange(k as int, orig.len() as int));
                    }
                }
                proof {
                    assert(orig.subrange(0, k as int) =~= orig);
                }
                *segments = done;
            },
        }
    }

    /// Whether the hitbox of this waypoint reaches into the area between
    /// `area.0` and `area.1` (block segments never do).
    pub fn is_in_area(&self, area: (Vector2<i32>, Vector2<i32>)) -> (inside: bool)
        ensures
            inside == (self@ matches SegView::Waypoint(_, pos, _) && waypoint_in_area(pos, area)),
    {
        match self {
            Segment::Waypoint(_, position, _) => waypoint_in_area_exec(*position, area),
            Segment::Block(_, _) => false,
        }
    }

    /// Whether `point` hits this waypoint (block segments are never hit).
    pub fn touches(&self, point: Vector2<i32>) -> (hit: bool)
        ensures
            hit == (self@ matches SegView::Waypoint(_, pos, _) && near(pos, point)),
    {
        match self {
            Segment::Waypoint(_, position, _) => near_exec(*position, point),
            Segment::Block(_, _) => false,
        }
    }

    /// The path below this segment to the first waypoint that `point` hits.
    pub fn find_waypoint(&self, point: Vector2<i32>) -> (path: Option<Vec<Id>>)
        ensures
            path is Some == seg_find(self@, point) is Some,
            path matches Some(p) ==> p@ == seg_find(self@, point).unwrap(),
        decreases self,
    {
        match self {
            Segment::Block(_, _) => None,
            Segment::Waypoint(segments, position, h) => {
                if near_exec(*position, point) {
                    return Some(Vec::new());
                }
                let mut i: usize = 0;
                while i < segments.len()
                    invariant
                        0 <= i <= segments.len(),
                        *self == Segment::Waypoint(*segments, *position, *h),
                        !near(*position, point),
                        children_find(children_view(segments@.subrange(0, i as int)), point)
                            is None,
                    decreases segments.len() - i,
                {
                    proof {
                        lemma_children_view_prefix(segments@, i as int);
                        let pre = children_view(segments@.subrange(0, i as int));
                        let x = (segments@[i as int].0, seg_view(segments@[i as int].1));
                        assert(pre.push(x).drop_last() =~= pre);
                        assert(decreases_to!(*self => segments@[i as int].1)) by {
                            assert(decreases_to!(*self => self->Waypoint_0));
                            assert(decreases_to!(self->Waypoint_0 => segments@));
                            assert(decreases_to!(segments@ => segments@[i as int]));
                            assert(decreases_to!(segments@[i as int] => segments@[i as int].1));
                        }
                    }
                    if let Some(mut sub) = segments[i].1.find_waypoint(point) {
                        sub.insert(0, segments[i].0);
                        proof {
                            let cv = children_view(segments@);
                            lemma_children_view(segments@);
                            lemma_children_view_subrange(segments@, i as int + 1);
                            let pre = children_view(segments@.subrange(0, i as int));
                            let x = (segments@[i as int].0, seg_view(segments@[i as int].1));
                            assert(pre.push(x).drop_last() =~= pre);
                            assert(sub@ =~= seq![x.0].add(seg_find(x.1, point).unwrap()));
                            assert(children_find(pre.push(x), point) == Some(sub@));
                            lemma_children_find_prefix(cv, i as int + 1, point);
                            assert(cv.subrange(0, i + 1) == pre.push(x));
                            assert(!near(*position, point));
                            assert(self@ == SegView::Waypoint(cv, *position, *h));
                            assert(seg_find(self@, point) == children_find(cv, point));
                        }
                        return Some(sub);
                    }
                    i = i + 1;
                }
                proof {
                    assert(segments@.subrange(0, segments.len() as int) =~= segments@);
                }
                None
            },
        }
    }

    /// The segment reached by following `location` past index `depth`
    /// (the index of this segment's own identifier).
    pub fn get_segment(&self, location: &SegmentLocation, depth: usize) -> (found: Option<&Segment>)
        requires
            depth < location.len(),
        ensures
            found is Some == seg_at(self@, location@.subrange(depth + 1, location@.len() as int))
                is Some,
            found matches Some(f) ==> Some(f@) == seg_at(
                self@,
                location@.subrange(depth + 1, location@.len() as int),
            ),
        decreases self,
    {
        match self {
            Segment::Block(_, _) => Some(self),
            Segment::Waypoint(segments, _, _) => {
                let next_depth = depth + 1;
                if next_depth >= location.len() {
                    return Some(self);
                }
                let next = location[next_depth];
                proof {
                    lemma_children_view(segments@);
                }
                let mut i: usize = 0;
                #[verifier::loop_isolation(false)]
                while i < segments.len()
                    invariant
                        0 <= i <= segments.len(),
                        forall|j: int| 0 <= j < i ==> segments@[j].0 != next,
                    decreases segments.len() - i,
                {
                    if segments[i].0 == next {
                        proof {
                            let cv = children_view(segments@);
                            lemma_lookup_index_first(cv, next, i as int);
                            let rest = location@.subrange(depth + 1, location@.len() as int);
                            assert(rest[0] == next);
                            assert(rest.drop_first() =~= location@.subrange(
                                next_depth + 1,
                                location@.len() as int,
                            ));
                            assert(decreases_to!(*self => segments@[i as int].1)) by {
                                assert(decreases_to!(*self => self->Waypoint_0));
                                assert(decreases_to!(self->Waypoint_0 => segments@));
                                assert(decreases_to!(segments@ => segments@[i as int]));
                                assert(decreases_to!(segments@[i as int] => segments@[i as int].1));
                            }
                        }
                        return segments[i].1.get_segment(location, next_depth);
                    }
                    i = i + 1;
                }
                proof {
                    let cv = children_view(segments@);
                    lemma_lookup_index(cv, next);
                    let rest = location@.subrange(depth + 1, location@.len() as int);
                    assert(rest[0] == next);
                }
                None
            },
        }
    }
}

impl Clone for Segment {
    fn clone(&self) -> (c: Self)
        ensures
            c@ == self@,
        decreases self,
    {
        match self {
            Segment::Block(b, p) => Segment::Block(*b, *p),
            Segment::Waypoint(segments, pos, h) => {
                let mut copied: Vec<(Id, Segment)> = Vec::new();
                let mut i: usize = 0;
                while i < segments.len()
                    invariant
                        0 <= i <= segments.len(),
                        *self == Segment::Waypoint(*segments, *pos, *h),
                        children_view(copied@) == children_view(segments@.subrange(0, i as int)),
                    decreases segments.len() - i,
                {
                    proof {
                        lemma_children_view_prefix(segments@, i as int);
                        assert(decreases_to!(*self => segments@[i as int].1)) by {
                            assert(decreases_to!(*self => self->Waypoint_0));
                            assert(decreases_to!(self->Waypoint_0 => segments@));
                            assert(decreases_to!(segments@ => segments@[i as int]));
                            assert(decreases_to!(segments@[i as int] => segments@[i as int].1));
                        }
                    }
                    let child = segments[i].1.clone();
                    proof {
                        lemma_children_view_push(copied@, (segments@[i as int].0, child));
                    }
                    copied.push((segments[i].0, child));
                    i = i + 1;
                }
                proof {
                    assert(segments@.subrange(0, segments.len() as int) =~= segments@);
                }
                Segment::Waypoint(copied, *pos, *h)
            },
        }
    }
}

/// A wire: it starts at an output pin and fans out through its segments.
#[derive(Debug)]
pub struct Connection {
    id: ConnectionID,
    active: bool,
    origin: Port,
    segments: Vec<(Id, Segment)>,
}

/// The mathematical value of a connection.
pub struct ConnView {
    pub id: ConnectionID,
    pub active: bool,
    pub origin: Port,
    pub segments: Seq<(Id, SegView)>,
}

impl ConnView {
    /// The input pins that the wire leads to, in order.
    pub open spec fn destinations(self) -> Seq<Port> {
        children_destinations(self.segments)
    }
}

impl View for Connection {
    type V = ConnView;

    closed spec fn view(&self) -> ConnView {
        ConnView {
            id: self.id,
            active: self.active,
            origin: self.origin,
            segments: children_view(self.segments@),
        }
    }
}

impl Connection {
    /// A new inactive wire with a fresh identifier; each given segment
    /// becomes a branch with a fresh identifier, in order.
    pub fn new(origin: Port, segments: Vec<Segment>) -> (c: Self)
        ensures
            c@.origin == origin,
            !c@.active,
            c@.segments.len() == segments@.len(),
            forall|i: int| 0 <= i < segments@.len() ==> #[trigger] c@.segments[i].1 == segments@[i]@,
    {
        let mut rest = segments;
        let ghost orig = rest@;
        let total = rest.len();
        let mut branches: Vec<(Id, Segment)> = Vec::new();
        let mut k: usize = 0;
        while rest.len() > 0
            invariant
                k + rest@.len() == orig.len(),
                orig.len() == total,
                rest@ == orig.subrange(k as int, orig.len() as int),
                branches@.len() == k,
                children_view(branches@).len() == k,
                forall|i: int| 0 <= i < k ==> #[trigger] children_view(branches@)[i].1 == orig[i]@,
            decreases rest.len(),
        {
            let segment = rest.remove(0);
            let id = Id::new();
            proof {
                lemma_children_view_push(branches@, (id, segment));
            }
            branches.push((id, segment));
            k = k + 1;
            proof {
                assert(rest@ =~= orig.subrange(k as int, orig.len() as int));
            }
        }
        Connection { id: Id::new(), active: false, origin, segments: branches }
    }

    /// A new inactive wire straight from one output pin to one input pin.
    pub fn new_basic(
        origin_block: BlockID,
        origin_port: u8,
        destination_block: BlockID,
        destination_port: u8,
    ) -> (c: Self)
        ensures
            c@.origin == Port::Output(origin_block, origin_port),
            !c@.active,
            c@.segments.len() == 1,
            c@.segments[0].1 == SegView::Block(destination_block, destination_port),
            c@.destinations() == seq![Port::Input(destination_block, destination_port)],
    {
        let mut segments: Vec<(Id, Segment)> = Vec::new();
        let seg = Segment::Block(destination_block, destination_port);
        let sid = Id::new();
        proof {
            lemma_children_view_push(segments@, (sid, seg));
        }
        segments.push((sid, seg));
        let c = Connection { id: Id::new(), active: false, origin: Port::Output(origin_block, origin_port), segments };
        proof {
            let cs = c@.segments;
            assert(cs.drop_last() =~= Seq::<(Id, SegView)>::empty());
            assert(children_destinations(cs.drop_last()) =~= Seq::<Port>::empty());
            assert(seg_destinations(cs.last().1) =~= seq![Port::Input(destination_block, destination_port)]);
            assert(c@.destinations() =~= seq![Port::Input(destination_block, destination_port)]);
        }
        c
    }

    pub fn id(&self) -> (id: ConnectionID)
        ensures
            id == self@.id,
    {
        self.id
    }

    pub fn set_id(&mut self, id: ConnectionID)
        ensures
            final(self)@ == (ConnView { id, ..old(self)@ }),
    {
        self.id = id;
    }

    pub fn is_active(&self) -> (a: bool)
        ensures
            a == self@.active,
    {
        self.active
    }

    pub fn set_active(&mut self, is_active: bool)
        ensures
            final(self)@ == (ConnView { active: is_active, ..old(self)@ }),
    {
        self.active = is_active;
    }

    pub fn origin(&self) -> (p: Port)
        ensures
            p == self@.origin,
    {
        self.origin
    }

    pub fn set_origin(&mut self, origin: Port)
        ensures
            final(self)@ == (ConnView { origin, ..old(self)@ }),
    {
        self.origin = origin;
    }

    /// The input pins that the wire leads to, in order.
    pub fn destinations(&self) -> (ports: Vec<Port>)
        ensures
            ports@ == self@.destinations(),
    {
        let mut ports: Vec<Port> = Vec::new();
        let mut i: usize = 0;
        while i < self.segments.len()
            invariant
                0 <= i <= self.segments.len(),
                ports@ == children_destinations(children_view(self.segments@.subrange(0, i as int))),
            decreases self.segments.len() - i,
        {
            proof {
                lemma_children_view_prefix(self.segments@, i as int);
                lemma_children_destinations_push(
                    children_view(self.segments@.subrange(0, i as int)),
                    (self.segments@[i as int].0, seg_view(self.segments@[i as int].1)),
                );
            }
            self.segments[i].1.destinations(&mut ports);
            i = i + 1;
        }
        proof {
            assert(self.segments@.subrange(0, self.segments.len() as int) =~= self.segments@);
        }
        ports
    }

    pub fn is_empty(&self) -> (b: bool)
        ensures
            b == (self@.segments.len() == 0),
    {
        proof {
            lemma_children_view(self.segments@);
        }
        self.segments.len() == 0
    }

    /// Cuts every branch that does not lead to a block of `selected`;
    /// returns whether the wire has no branch left.
    pub fn remove_unselected_branches(&mut self, selected: &Vec<Id>) -> (empty: bool)
        ensures
            final(self)@ == (ConnView {
                segments: children_prune(old(self)@.segments, selected@),
                ..old(self)@
            }),
            empty == (children_prune(old(self)@.segments, selected@).len() == 0),
    {
        let mut old_segments: Vec<(Id, Segment)> = Vec::new();
        std::mem::swap(&mut old_segments, &mut self.segments);
        let ghost orig = old_segments@;
        let total = old_segments.len();
        let mut kept: Vec<(Id, Segment)> = Vec::new();
        let mut k: usize = 0;
        while old_segments.len() > 0
            invariant
                k + old_segments@.len() == orig.len(),
                orig.len() == total,
                old_segments@ == orig.subrange(k as int, orig.len() as int),
                children_view(kept@) == children_prune(
                    children_view(orig.subrange(0, k as int)),
                    selected@,
                ),
            decreases old_segments.len(),
        {
            let entry = old_segments.remove(0);
            let (id, mut child) = entry;
            proof {
                lemma_children_view_prefix(orig, k as int);
                let pre = children_view(orig.subrange(0, k as int));
                let x = (orig[k as int].0, seg_view(orig[k as int].1));
                assert(pre.push(x).drop_last() =~= pre);
            }
            let gone = child.remove_unselected_branches(selected);
            if !gone {
                proof {
                    lemma_children_view_push(kept@, (id, child));
                }
                kept.push((id, child));
            }
            k = k + 1;
            proof {
                assert(old_segments@ =~= orig.subrange(k as int, orig.len() as int));
            }
        }
        proof {
            assert(orig.subrange(0, k as int) =~= orig);
            lemma_children_view(kept@);
        }
        let empty = kept.len() == 0;
        self.segments = kept;
        empty
    }

    /// Renames block `old_id` to `new_id` (see `conn_refactor`).
    pub fn refactor_id(&mut self, old_id: BlockID, new_id: BlockID)
        ensures
            final(self)@ == conn_refactor(old(self)@, old_id, new_id),
    {
        if self.origin.block_id() == old_id {
            self.origin.set_block_id(new_id);
        } else {
            let mut old_segments: Vec<(Id, Segment)> = Vec::new();
            std::mem::swap(&mut old_segments, &mut self.segments);
            let ghost orig = old_segments@;
            let total = old_segments.len();
            let mut done: Vec<(Id, Segment)> = Vec::new();
            let mut k: usize = 0;
            while old_segments.len() > 0
                invariant
                    k + old_segments@.len() == orig.len(),
                    orig.len() == total,
                    old_segments@ == orig.subrange(k as int, orig.len() as int),
                    children_view(done@) == children_refactor(
                        children_view(orig.subrange(0, k as int)),
                        old_id,
                        new_id,
                    ),
                decreases old_segments.len(),
            {
                let entry = old_segments.remove(0);
                let (id, mut child) = entry;
                proof {
                    lemma_children_view_prefix(orig, k as int);
                    let pre = children_view(orig.subrange(0, k as int));
                    let x = (orig[k as int].0, seg_view(orig[k as int].1));
                    assert(pre.push(x).drop_last() =~= pre);
                }
                child.refactor_id(old_id, new_id);
                proof {
                    lemma_children_view_push(done@, (id, child));
                }
                done.push((id, child));
                k = k + 1;
                proof {
                    assert(old_segments@ =~= orig.subrange(k as int, orig.len() as int));
                }
            }
            proof {
                assert(orig.subrange(0, k as int) =~= orig);
            }
            self.segments = done;
        }
    }

    /// Sets the highlighting of the wire's waypoints (see `Segment::mark`).
    pub fn mark(&mut self, area: Option<(Vector2<i32>, Vector2<i32>)>, h: bool)
        ensures
            final(self)@ == (ConnView { segments: children_mark(old(self)@.segments, area, h), ..old(self)@ }),
            final(self)@.destinations() == old(self)@.destinations(),
    {
        let mut old_segments: Vec<(Id, Segment)> = Vec::new();
        std::mem::swap(&mut old_segments, &mut self.segments);
        let ghost orig = old_segments@;
        let total = old_segments.len();
        let mut done: Vec<(Id, Segment)> = Vec::new();
        let mut k: usize = 0;
        while old_segments.len() > 0
            invariant
                k + old_segments@.len() == orig.len(),
                orig.len() == total,
                old_segments@ == orig.subrange(k as int, orig.len() as int),
                children_view(done@) == children_mark(children_view(orig.subrange(0, k as int)), area, h),
            decreases old_segments.len(),
        {
            let entry = old_segments.remove(0);
            let (id, mut child) = entry;
            proof {
                lemma_children_view_prefix(orig, k as int);
                let pre = children_view(orig.subrange(0, k as int));
                let x = (orig[k as int].0, seg_view(orig[k as int].1));
                assert(pre.push(x).drop_last() =~= pre);
            }
            child.mark(area, h);
            proof {
                lemma_children_view_push(done@, (id, child));
            }
            done.push((id, child));
            k = k + 1;
            proof {
                assert(old_segments@ =~= orig.subrange(k as int, orig.len() as int));
            }
        }
        proof {
            assert(orig.subrange(0, k as int) =~= orig);
            lemma_children_mark_destinations(children_view(orig), area, h);
        }
        self.segments = done;
    }

    /// The first waypoint of this wire that `position` hits.
    pub fn waypoint_at(&self, position: Vector2<i32>) -> (found: Option<SegmentID>)
        ensures
            found is Some == children_find(self@.segments, position) is Some,
            found matches Some(sid) ==> sid.spec_connection_id() == self@.id
                && sid.spec_location() == children_find(self@.segments, position).unwrap(),
    {
        let mut i: usize = 0;
        while i < self.segments.len()
            invariant
                0 <= i <= self.segments.len(),
                children_find(children_view(self.segments@.subrange(0, i as int)), position) is None,
            decreases self.segments.len() - i,
        {
            proof {
                lemma_children_view_prefix(self.segments@, i as int);
                let pre = children_view(self.segments@.subrange(0, i as int));
                let x = (self.segments@[i as int].0, seg_view(self.segments@[i as int].1));
                assert(pre.push(x).drop_last() =~= pre);
            }
            if let Some(mut sub) = self.segments[i].1.find_waypoint(position) {
                sub.insert(0, self.segments[i].0);
                proof {
                    let cv = children_view(self.segments@);
                    lemma_children_view(self.segments@);
                    lemma_children_view_subrange(self.segments@, i as int + 1);
                    let pre = children_view(self.segments@.subrange(0, i as int));
                    let x = (self.segments@[i as int].0, seg_view(self.segments@[i as int].1));
                    assert(sub@ =~= seq![x.0].add(seg_find(x.1, position).unwrap()));
                    assert(children_find(pre.push(x), position) == Some(sub@));
                    assert(cv.subrange(0, i + 1) == pre.push(x));
                    lemma_children_find_prefix(cv, i as int + 1, position);
                }
                return Some(SegmentID::new(self.id, sub));
            }
            i = i + 1;
        }
        proof {
            assert(self.segments@.subrange(0, self.segments.len() as int) =~= self.segments@);
        }
        None
    }

    /// Adds a branch with a fresh identifier at the root of the wire.
    pub fn add_segment(&mut self, segment: Segment)
        ensures
            final(self)@.segments.len() == old(self)@.segments.len() + 1,
            final(self)@.segments.drop_last() == old(self)@.segments,
            final(self)@.segments.last().1 == segment@,
            final(self)@.id == old(self)@.id,
            final(self)@.active == old(self)@.active,
            final(self)@.origin == old(self)@.origin,
    {
        let id = Id::new();
        proof {
            lemma_children_view_push(self.segments@, (id, segment));
        }
        self.segments.push((id, segment));
        proof {
            let v = children_view(old(self).segments@).push((id, segment@));
            assert(v.drop_last() =~= children_view(old(self).segments@));
        }
    }

    pub fn segments(&self) -> (s: &Vec<(Id, Segment)>)
        ensures
            children_view(s@) == self@.segments,
    {
        &self.segments
    }

    /// The segment at `location`: the first root branch named
    /// `location[0]`, then down its waypoints.
    pub fn get_segment(&self, location: &SegmentLocation) -> (found: Option<&Segment>)
        ensures
            location@.len() == 0 ==> found is None,
            location@.len() > 0 ==> match lookup_index(self@.segments, location@[0]) {
                Some(i) => {
                    &&& found is Some == seg_at(self@.segments[i].1, location@.drop_first()) is Some
                    &&& found matches Some(f) ==> Some(f@) == seg_at(
                        self@.segments[i].1,
                        location@.drop_first(),
                    )
                },
                None => found is None,
            },
    {
        if location.len() == 0 {
            return None;
        }
        let first = location[0];
        proof {
            lemma_children_view(self.segments@);
        }
        let mut i: usize = 0;
        #[verifier::loop_isolation(false)]
        while i < self.segments.len()
            invariant
                0 <= i <= self.segments.len(),
                forall|j: int| 0 <= j < i ==> self.segments@[j].0 != first,
            decreases self.segments.len() - i,
        {
            if self.segments[i].0 == first {
                proof {
                    lemma_lookup_index_first(self@.segments, first, i as int);
                    assert(location@.drop_first() =~= location@.subrange(1, location@.len() as int));
                }
                return self.segments[i].1.get_segment(location, 0);
            }
            i = i + 1;
        }
        proof {
            lemma_lookup_index(self@.segments, first);
        }
        None
    }
}

impl Clone for Connection {
    fn clone(&self) -> (c: Self)
        ensures
            c@ == self@,
    {
        let mut copied: Vec<(Id, Segment)> = Vec::new();
        let mut i: usize = 0;
        while i < self.segments.len()
            invariant
                0 <= i <= self.segments.len(),
                children_view(copied@) == children_view(self.segments@.subrange(0, i as int)),
            decreases self.segments.len() - i,
        {
            proof {
                lemma_children_view_prefix(self.segments@, i as int);
            }
            let child = self.segments[i].1.clone();
            proof {
                lemma_children_view_push(copied@, (self.segments@[i as int].0, child));
            }
            copied.push((self.segments[i].0, child));
            i = i + 1;
        }
        proof {
            assert(self.segments@.subrange(0, self.segments.len() as int) =~= self.segments@);
        }
        Connection { id: self.id, active: self.active, origin: self.origin, segments: copied }
    }
}

impl Connection {
    /// A wire with every field given, as stored in a project file.
    pub fn from_parts(id: ConnectionID, active: bool, origin: Port, segments: Vec<(Id, Segment)>) -> (c: Self)
        ensures
            c@ == (ConnView { id, active, origin, segments: children_view(segments@) }),
    {
        Connection { id, active, origin, segments }
    }
}

/// A change to one waypoint: its highlighting, or its position.
#[derive(Clone, Copy, Debug)]
pub enum WaypointEdit {
    Highlight(bool),
    Move(Vector2<i32>),
}

/// The segment with the waypoint at path `rest` (below it) changed by `e`;
/// every branch named by the next identifier of the path is followed.
pub open spec fn seg_edit(s: SegView, rest: Seq<Id>, e: WaypointEdit) -> SegView
    decreases s,
{
    match s {
        SegView::Block(b, p) => SegView::Block(b, p),
        SegView::Waypoint(cs, pos, h) => if rest.len() == 0 {
            match e {
                WaypointEdit::Highlight(x) => SegView::Waypoint(cs, pos, x),
                WaypointEdit::Move(p) => SegView::Waypoint(cs, p, h),
            }
        } else {
            SegView::Waypoint(children_edit(cs, rest, e), pos, h)
        },
    }
}

/// The branches with the waypoint at `path` changed by `e` (see
/// `seg_edit`); an empty path changes nothing.
pub open spec fn children_edit(cs: Seq<(Id, SegView)>, path: Seq<Id>, e: WaypointEdit) -> Seq<(Id, SegView)>
    decreases cs,
{
    if cs.len() == 0 {
        seq![]
    } else {
        children_edit(cs.drop_last(), path, e).push(
            (
                cs.last().0,
                if path.len() > 0 && cs.last().0 == path[0] {
                    seg_edit(cs.last().1, path.drop_first(), e)
                } else {
                    cs.last().1
                },
            ),
        )
    }
}

pub proof fn lemma_seg_edit_destinations(s: SegView, rest: Seq<Id>, e: WaypointEdit)
    ensures
        seg_destinations(seg_edit(s, rest, e)) == seg_destinations(s),
    decreases s,
{
    match s {
        SegView::Block(..) => {},
        SegView::Waypoint(cs, pos, hl) => {
            if rest.len() > 0 {
                lemma_children_edit_destinations(cs, rest, e);
            }
        },
    }
}

pub proof fn lemma_children_edit_destinations(cs: Seq<(Id, SegView)>, path: Seq<Id>, e: WaypointEdit)
    ensures
        children_destinations(children_edit(cs, path, e)) == children_destinations(cs),
    decreases cs,
{
    if cs.len() > 0 {
        assert(decreases_to!(cs => cs.drop_last()));
        lemma_children_edit_destinations(cs.drop_last(), path, e);
        assert(decreases_to!(cs => cs.last().1)) by {
            assert(decreases_to!(cs => cs[cs.len() - 1]));
        }
        lemma_seg_edit_destinations(cs.last().1, path.drop_first(), e);
        let m = children_edit(cs, path, e);
        assert(m.drop_last() =~= children_edit(cs.drop_last(), path, e));
    }
}

impl Segment {
    /// Changes the waypoint at the path `path` from position `depth` on
    /// (see `seg_edit`).
    pub fn edit(&mut self, path: &Vec<Id>, depth: usize, e: WaypointEdit)
        requires
            depth <= path@.len(),
        ensures
            final(self)@ == seg_edit(old(self)@, path@.subrange(depth as int, path@.len() as int), e),
        decreases *old(self),
    {
        let ghost rest = path@.subrange(depth as int, path@.len() as int);
        match self {
            Segment::Block(_, _) => {},
            Segment::Waypoint(segments, pos, hl) => {
                if depth == path.len() {
                    match e {
                        WaypointEdit::Highlight(x) => {
                            *hl = x;
                        },
                        WaypointEdit::Move(p) => {
                            *pos = p;
                        },
                    }
                    return;
                }
                let ghost whole = *old(self);
                let plen = path.len();
                let next = path[depth];
                let mut old_segments: Vec<(Id, Segment)> = Vec::new();
                std::mem::swap(&mut old_segments, segments);
                let ghost orig = old_segments@;
                let total = old_segments.len();
                let mut done: Vec<(Id, Segment)> = Vec::new();
                let mut k: usize = 0;
                while old_segments.len() > 0
                    invariant
                        k + old_segments@.len() == orig.len(),
                        orig.len() == total,
                        old_segments@ == orig.subrange(k as int, orig.len() as int),
                        whole->Waypoint_0@ == orig,
                        whole is Waypoint,
                        whole == *old(self),
                        depth < path@.len(),
                        plen == path@.len(),
                        next == path@[depth as int],
                        rest == path@.subrange(depth as int, path@.len() as int),
                        children_view(done@) == children_edit(children_view(orig.subrange(0, k as int)), rest, e),
                    decreases old_segments.len(),
                {
                    let entry = old_segments.remove(0);
                    assert(entry == orig[k as int]);
                    let (id, mut child) = entry;
                    proof {
                        lemma_children_view_prefix(orig, k as int);
                        let pre = children_view(orig.subrange(0, k as int));
                        let x = (orig[k as int].0, seg_view(orig[k as int].1));
                        assert(pre.push(x).drop_last() =~= pre);
                        assert(decreases_to!(whole => orig[k as int].1)) by {
                            assert(decreases_to!(whole => whole->Waypoint_0));
                            assert(decreases_to!(whole->Waypoint_0 => orig));
                            assert(decreases_to!(orig => orig[k as int]));
                            assert(decreases_to!(orig[k as int] => orig[k as int].1));
                        }
                        assert(rest.drop_first() =~= path@.subrange(depth + 1, path@.len() as int));
                    }
                    if id == next {
                        child.edit(path, depth + 1, e);
                    }
                    proof {
                        lemma_children_view_push(done@, (id, child));
                    }
                    done.push((id, child));
                    k = k + 1;
                    proof {
                        assert(old_segments@ =~= orig.subrange(k as int, orig.len() as int));
                    }
                }
                proof {
                    assert(orig.subrange(0, k as int) =~= orig);
                }
                *segments = done;
            },
        }
    }
}

impl Connection {
    /// Changes the waypoint at `path` (see `children_edit`).
    pub fn edit_waypoint(&mut self, path: &Vec<Id>, e: WaypointEdit)
        ensures
            final(self)@ == (ConnView { segments: children_edit(old(self)@.segments, path@, e), ..old(self)@ }),
            final(self)@.destinations() == old(self)@.destinations(),
    {
        if path.len() == 0 {
            proof {
                lemma_children_edit_empty(old(self)@.segments, path@, e);
            }
            return;
        }
        let next = path[0];
        let mut old_segments: Vec<(Id, Segment)> = Vec::new();
        std::mem::swap(&mut old_segments, &mut self.segments);
        let ghost orig = old_segments@;
        let total = old_segments.len();
        let mut done: Vec<(Id, Segment)> = Vec::new();
        let mut k: usize = 0;
        while old_segments.len() > 0
            invariant
                k + old_segments@.len() == orig.len(),
                orig.len() == total,
                old_segments@ == orig.subrange(k as int, orig.len() as int),
                path@.len() > 0,
                next == path@[0],
                children_view(done@) == children_edit(children_view(orig.subrange(0, k as int)), path@, e),
            decreases old_segments.len(),
        {
            let entry = old_segments.remove(0);
            let (id, mut child) = entry;
            proof {
                lemma_children_view_prefix(orig, k as int);
                let pre = children_view(orig.subrange(0, k as int));
                let x = (orig[k as int].0, seg_view(orig[k as int].1));
                assert(pre.push(x).drop_last() =~= pre);
                assert(path@.drop_first() =~= path@.subrange(1, path@.len() as int));
            }
            if id == next {
                child.edit(path, 1, e);
            }
            proof {
                lemma_children_view_push(done@, (id, child));
            }
            done.push((id, child));
            k = k + 1;
            proof {
                assert(old_segments@ =~= orig.subrange(k as int, orig.len() as int));
            }
        }
        proof {
            assert(orig.subrange(0, k as int) =~= orig);
            lemma_children_edit_destinations(children_view(orig), path@, e);
        }
        self.segments = done;
    }
}

pub proof fn lemma_children_edit_empty(cs: Seq<(Id, SegView)>, path: Seq<Id>, e: WaypointEdit)
    requires
        path.len() == 0,
    ensures
        children_edit(cs, path, e) == cs,
    decreases cs.len(),
{
    if cs.len() > 0 {
        lemma_children_edit_empty(cs.drop_last(), path, e);
        assert(cs.drop_last().push(cs.last()) =~= cs);
    }
}

/// The paths, below `prefix`, to the waypoints of segment `s` whose hitbox
/// reaches into `area`: the segment itself first, then its branches in
/// order.
pub open spec fn seg_area_paths(s: SegView, area: (Vector2<i32>, Vector2<i32>), prefix: Seq<Id>) -> Seq<Seq<Id>>
    decreases s,
{
    match s {
        SegView::Block(_, _) => seq![],
        SegView::Waypoint(cs, pos, _) => (if waypoint_in_area(pos, area) {
            seq![prefix]
        } else {
            seq![]
        }) + children_area_paths(cs, area, prefix),
    }
}

/// The paths to the waypoints among branches `cs` (below `prefix`) whose
/// hitbox reaches into `area`, branch by branch.
pub open spec fn children_area_paths(cs: Seq<(Id, SegView)>, area: (Vector2<i32>, Vector2<i32>), prefix: Seq<Id>) -> Seq<
    Seq<Id>,
>
    decreases cs,
{
    if cs.len() == 0 {
        seq![]
    } else {
        children_area_paths(cs.drop_last(), area, prefix) + seg_area_paths(
            cs.last().1,
            area,
            prefix.push(cs.last().0),
        )
    }
}

/// The values of a list of paths.
pub open spec fn paths_view(v: Seq<Vec<Id>>) -> Seq<Seq<Id>> {
    v.map_values(|p: Vec<Id>| p@)
}

impl Segment {
    /// Adds to `out` the paths (below `prefix`) to the waypoints of this
    /// segment in `area` (see `seg_area_paths`).
    pub fn area_paths(&self, area: (Vector2<i32>, Vector2<i32>), prefix: &Vec<Id>, out: &mut Vec<Vec<Id>>)
        ensures
            paths_view(final(out)@) == paths_view(old(out)@) + seg_area_paths(self@, area, prefix@),
        decreases self,
    {
        match self {
            Segment::Block(_, _) => {
                proof {
                    assert(paths_view(out@) =~= paths_view(old(out)@) + seq![]);
                }
            },
            Segment::Waypoint(segments, pos, _) => {
                let ghost start = paths_view(out@);
                let ghost own: Seq<Seq<Id>> = if waypoint_in_area(*pos, area) {
                    seq![prefix@]
                } else {
                    seq![]
                };
                if waypoint_in_area_exec(*pos, area) {
                    out.push(copy_ids(prefix));
                }
                proof {
                    assert(paths_view(out@) =~= start + own);
                    lemma_children_view(segments@);
                }
                let mut i: usize = 0;
                while i < segments.len()
                    invariant
                        0 <= i <= segments.len(),
                        *self == Segment::Waypoint(*segments, *pos, self->Waypoint_2),
                        paths_view(out@) == start + own + children_area_paths(
                            children_view(segments@.subrange(0, i as int)),
                            area,
                            prefix@,
                        ),
                    decreases segments.len() - i,
                {
                    let mut p = copy_ids(prefix);
                    p.push(segments[i].0);
                    let ghost before = paths_view(out@);
                    proof {
                        assert(decreases_to!(*self => segments@[i as int].1)) by {
                            assert(decreases_to!(*self => self->Waypoint_0));
                            assert(decreases_to!(self->Waypoint_0 => segments@));
                            assert(decreases_to!(segments@ => segments@[i as int]));
                            assert(decreases_to!(segments@[i as int] => segments@[i as int].1));
                        }
                    }
                    segments[i].1.area_paths(area, &p, out);
                    proof {
                        lemma_children_view_prefix(segments@, i as int);
                        let pre = children_view(segments@.subrange(0, i as int));
                        let x = (segments@[i as int].0, seg_view(segments@[i as int].1));
                        assert(segments@.subrange(0, i + 1) =~= segments@.subrange(0, i as int).push(segments@[i as int]));
                        lemma_children_view_push(segments@.subrange(0, i as int), segments@[i as int]);
                        assert(pre.push(x).drop_last() =~= pre);
                        assert(p@ == prefix@.push(segments@[i as int].0));
                    }
                    i = i + 1;
                }
                proof {
                    assert(segments@.subrange(0, segments@.len() as int) =~= segments@);
                }
            },
        }
    }
}

impl Connection {
    /// The paths to the waypoints of this wire in `area` (see
    /// `children_area_paths`).
    pub fn area_paths(&self, area: (Vector2<i32>, Vector2<i32>)) -> (out: Vec<Vec<Id>>)
        ensures
            paths_view(out@) == children_area_paths(self@.segments, area, seq![]),
    {
        let mut out: Vec<Vec<Id>> = Vec::new();
        let empty: Vec<Id> = Vec::new();
        let mut i: usize = 0;
        proof {
            assert(paths_view(out@) =~= seq![]);
            lemma_children_view(self.segments@);
        }
        while i < self.segments.len()
            invariant
                0 <= i <= self.segments.len(),
                empty@ == Seq::<Id>::empty(),
                paths_view(out@) == children_area_paths(
                    children_view(self.segments@.subrange(0, i as int)),
                    area,
                    seq![],
                ),
            decreases self.segments.len() - i,
        {
            let mut p = copy_ids(&empty);
            p.push(self.segments[i].0);
            self.segments[i].1.area_paths(area, &p, &mut out);
            proof {
                let pre = children_view(self.segments@.subrange(0, i as int));
                let x = (self.segments@[i as int].0, seg_view(self.segments@[i as int].1));
                assert(self.segments@.subrange(0, i + 1) =~= self.segments@.subrange(0, i as int).push(
                    self.segments@[i as int],
                ));
                lemma_children_view_push(self.segments@.subrange(0, i as int), self.segments@[i as int]);
                assert(pre.push(x).drop_last() =~= pre);
                assert(p@ =~= Seq::<Id>::empty().push(self.segments@[i as int].0));
            }
            i = i + 1;
        }
        proof {
            assert(self.segments@.subrange(0, self.segments@.len() as int) =~= self.segments@);
        }
        out
    }
}

/// No two branches of a waypoint (or of the root) share an identifier,
/// at any depth of the tree.
pub open spec fn children_ids_distinct(cs: Seq<(Id, SegView)>) -> bool
    decreases cs,
{
    if cs.len() == 0 {
        true
    } else {
        &&& children_ids_distinct(cs.drop_last())
        &&& lookup_index(cs.drop_last(), cs.last().0) is None
        &&& seg_ids_distinct(cs.last().1)
    }
}

pub open spec fn seg_ids_distinct(s: SegView) -> bool
    decreases s,
{
    match s {
        SegView::Block(_, _) => true,
        SegView::Waypoint(cs, _, _) => children_ids_distinct(cs),
    }
}

/// The waypoint that the hit test finds below `s` is hit: following the
/// path from `s` leads to a waypoint whose hitbox holds `point`.
pub proof fn lemma_seg_found_near(s: SegView, point: Vector2<i32>)
    requires
        seg_ids_distinct(s),
        seg_find(s, point) is Some,
    ensures
        seg_at(s, seg_find(s, point).unwrap()) matches Some(SegView::Waypoint(_, q, _)) && near(q, point),
    decreases s,
{
    match s {
        SegView::Block(_, _) => {},
        SegView::Waypoint(cs, pos, _) => {
            if !near(pos, point) {
                lemma_children_found_near(cs, point);
            }
        },
    }
}

/// The waypoint that the hit test of a wire's branches finds is hit: its
/// path is not empty, and looking it up from the first branch named by
/// the path leads to a waypoint whose hitbox holds `point` (branch
/// identifiers being distinct).
pub proof fn lemma_children_found_near(cs: Seq<(Id, SegView)>, point: Vector2<i32>)
    requires
        children_ids_distinct(cs),
        children_find(cs, point) is Some,
    ensures
        ({
            let path = children_find(cs, point).unwrap();
            &&& path.len() > 0
            &&& lookup_index(cs, path[0]) matches Some(i) && 0 <= i < cs.len() && (seg_at(
                cs[i].1,
                path.drop_first(),
            ) matches Some(SegView::Waypoint(_, q, _)) && near(q, point))
        }),
    decreases cs,
{
    let d = cs.drop_last();
    assert(decreases_to!(cs => d));
    if children_find(d, point) is Some {
        lemma_children_found_near(d, point);
        let path = children_find(d, point).unwrap();
        let i = lookup_index(d, path[0]).unwrap();
        assert(d[i] == cs[i]);
    } else {
        assert(decreases_to!(cs => cs.last().1)) by {
            assert(decreases_to!(cs => cs[cs.len() - 1]));
        }
        lemma_seg_found_near(cs.last().1, point);
        let rest = seg_find(cs.last().1, point).unwrap();
        let path = seq![cs.last().0].add(rest);
        assert(path[0] == cs.last().0);
        assert(path.drop_first() =~= rest);
    }
}

} // verus!
