use vstd::prelude::*;
use crate::id::Id;
use crate::block::{Block, BlockView, first_pin_hit};
use crate::connection::{BlockID, Connection, Port, Segment, SegView, Connector, WaypointEdit, children_find};
use crate::editor::EditorMode;
use crate::plot::{Plot, PlotDescriptor, touches_spec, unhighlighted, block_at, wires_edited, waypoint_position};
use crate::selection::{Selection, SelectionField, Selectable, SelView, sel_views, same_selectable};
use crate::action::Action;
use crate::vector::Vector2;

verus! {

/// `a + b`, wrapping around on overflow.
pub open spec fn wrapped_sum(a: Vector2<i32>, b: Vector2<i32>) -> Vector2<i32> {
    Vector2(a.0.wrapping_add(b.0), a.1.wrapping_add(b.1))
}

fn wrapped_sum_exec(a: Vector2<i32>, b: Vector2<i32>) -> (v: Vector2<i32>)
    ensures
        v == wrapped_sum(a, b),
{
    Vector2(a.0.wrapping_add(b.0), a.1.wrapping_add(b.1))
}

/// Where output pin `i` of a block sits (coordinates wrap around).
pub open spec fn output_pin_position(b: BlockView, i: u8) -> Vector2<i32> {
    Vector2(b.position.0.wrapping_add(b.size.0), b.position.1.wrapping_add((25 * (i as i32) + 50) as i32))
}

fn output_pin_position_exec(b: &Block, i: u8) -> (v: Vector2<i32>)
    ensures
        v == output_pin_position(b@, i),
{
    let p = b.position();
    let s = b.size();
    Vector2(p.0.wrapping_add(s.0), p.1.wrapping_add(25 * (i as i32) + 50))
}

/// The block that a selection of one item names, if it is a block.
pub open spec fn single_block(s: Selection) -> Option<BlockID> {
    match s {
        Selection::Single(x, _) => match x@ {
            SelView::Block(id) => Some(id),
            _ => None,
        },
        _ => None,
    }
}

/// The waypoint (wire and path) and start position that a selection of
/// one item names, if it is a waypoint.
pub open spec fn single_waypoint(s: Selection) -> Option<(crate::connection::ConnectionID, Seq<Id>, Vector2<i32>)> {
    match s {
        Selection::Single(x, start) => match x@ {
            SelView::Waypoint(c, path) => Some((c, path, start)),
            _ => None,
        },
        _ => None,
    }
}

/// The user presses the pointer at `position` to start a drag: the
/// highlighting goes, and a block under the pointer is either the start of
/// a new wire (when an output pin is hit) or selected to be moved. With
/// shift held, a waypoint under the pointer (where no block is) is
/// selected to be moved and highlighted. Elsewhere a selection rectangle
/// starts.
pub fn drag_begin(plot: &mut Plot, position: Vector2<i32>, shift: bool)
    requires
        old(plot).wf(),
    ensures
        final(plot).wf(),
        final(plot).connections_view().dom() == old(plot).connections_view().dom(),
        final(plot).blocks_view().dom() == old(plot).blocks_view().dom(),
        exists|m: Plot|
            {
                &&& #[trigger] unhighlighted(*old(plot), m)
                &&& final(plot).spec_to_update() == old(plot).spec_to_update()
                &&& single_block(final(plot).spec_selection()) matches Some(id) ==> block_at(
                    m.blocks_view(),
                    position,
                ) == Some(id.0)
                &&& final(plot).spec_selection() matches Selection::Connection { block_id, .. } ==> block_at(
                    m.blocks_view(),
                    position,
                ) == Some(block_id.0)
                &&& final(plot).blocks_view() == match final(plot).spec_selection() {
                    Selection::Single(x, _) => if x@ is Block {
                        m.blocks_view().insert(
                            x@->Block_0.0,
                            BlockView { highlighted: true, ..m.blocks_view()[x@->Block_0.0] },
                        )
                    } else {
                        m.blocks_view()
                    },
                    _ => m.blocks_view(),
                }
                &&& final(plot).connections_view() == match final(plot).spec_selection() {
                    Selection::Single(x, _) => if x@ is Waypoint {
                        wires_edited(
                            m.connections_view(),
                            x@->Waypoint_0.0,
                            x@->Waypoint_1,
                            WaypointEdit::Highlight(true),
                        )
                    } else {
                        m.connections_view()
                    },
                    _ => m.connections_view(),
                }
                &&& single_waypoint(final(plot).spec_selection()) matches Some((c, path, start)) ==> {
                    &&& shift
                    &&& block_at(m.blocks_view(), position) is None
                    &&& m.connections_view().contains_key(c.0)
                    &&& children_find(m.connections_view()[c.0].segments, position) == Some(path)
                    &&& waypoint_position(m.connections_view(), c.0, path) == Some(start)
                }
            },
        match final(plot).spec_selection() {
            Selection::Connection { block_id, output, start, position: p } => {
                &&& final(plot).blocks_view().contains_key(block_id.0)
                &&& touches_spec(final(plot).blocks_view()[block_id.0], position)
                &&& first_pin_hit(final(plot).blocks_view()[block_id.0], position, false) == Some(output)
                &&& start == output_pin_position(final(plot).blocks_view()[block_id.0], output)
                &&& p == start
            },
            Selection::Single(x, start) => match x@ {
                SelView::Block(id) => {
                    &&& final(plot).blocks_view().contains_key(id.0)
                    &&& touches_spec(final(plot).blocks_view()[id.0], position)
                    &&& first_pin_hit(final(plot).blocks_view()[id.0], position, false) is None
                    &&& final(plot).blocks_view()[id.0].highlighted
                    &&& start == final(plot).blocks_view()[id.0].position
                },
                SelView::Waypoint(_, _) => forall|k: u64| #[trigger]
                    final(plot).blocks_view().contains_key(k) ==> !touches_spec(final(plot).blocks_view()[k], position),
            },
            Selection::Area(a, b) => a == position && b == position && forall|k: u64| #[trigger]
                final(plot).blocks_view().contains_key(k) ==> !touches_spec(final(plot).blocks_view()[k], position),
            _ => false,
        },
{
    plot.unhighlight();
    let ghost m = *plot;
    match plot.get_block_at(position) {
        Some(id) => {
            let block = plot.get_block(id).unwrap();
            match block.position_on_connection(position, false) {
                Some(i) => {
                    let start = output_pin_position_exec(block, i);
                    plot.set_selection(
                        Selection::Connection { block_id: id, output: i, start, position: start },
                    );
                },
                None => {
                    let start = block.position();
                    let ghost bv = plot.blocks_view();
                    plot.set_block_highlighted(id, true);
                    plot.set_selection(Selection::Single(Selectable::Block(id), start));
                    proof {
                        assert(plot.blocks_view().dom() =~= bv.dom());
                    }
                },
            }
        },
        None => {
            let hit = if shift {
                plot.get_waypoint_at(position)
            } else {
                None
            };
            match hit {
                Some(w) => match plot.waypoint_position(&w) {
                    Some(start) => {
                        plot.edit_waypoint(&w, WaypointEdit::Highlight(true));
                        proof {
                            assert(plot.connections_view().dom() =~= m.connections_view().dom());
                        }
                        plot.set_selection(Selection::Single(Selectable::Waypoint(w), start));
                    },
                    None => {
                        plot.set_selection(Selection::Area(position, position));
                    },
                },
                None => {
                    plot.set_selection(Selection::Area(position, position));
                },
            }
        },
    }
}

/// The pointer moved by `offset` since the drag started: a selected block
/// follows it (snapped to the grid in grid mode), a new wire or a
/// selection rectangle stretches to it.
pub fn drag_update(plot: &mut Plot, mode: EditorMode, offset: Vector2<i32>)
    requires
        old(plot).wf(),
    ensures
        final(plot).wf(),
        single_waypoint(old(plot).spec_selection()) is None ==> final(plot).connections_view() == old(
            plot,
        ).connections_view(),
        match old(plot).spec_selection() {
            Selection::Single(x, start) => {
                let to = if mode == EditorMode::Grid {
                    Vector2(
                        crate::editor::snap(wrapped_sum(start, offset).0 as int) as i32,
                        crate::editor::snap(wrapped_sum(start, offset).1 as int) as i32,
                    )
                } else {
                    wrapped_sum(start, offset)
                };
                match x@ {
                SelView::Block(id) => if old(plot).blocks_view().contains_key(id.0) {
                    &&& final(plot).blocks_view() == old(plot).blocks_view().insert(
                        id.0,
                        BlockView { position: to, ..old(plot).blocks_view()[id.0] },
                    )
                    &&& final(plot).spec_selection() == old(plot).spec_selection()
                } else {
                    &&& final(plot).blocks_view() == old(plot).blocks_view()
                    &&& final(plot).spec_selection() is Empty
                },
                SelView::Waypoint(c, path) => {
                    &&& final(plot).blocks_view() == old(plot).blocks_view()
                    &&& waypoint_position(old(plot).connections_view(), c.0, path) is Some ==> {
                        &&& final(plot).connections_view() == wires_edited(
                            old(plot).connections_view(),
                            c.0,
                            path,
                            WaypointEdit::Move(to),
                        )
                        &&& final(plot).spec_selection() == old(plot).spec_selection()
                    }
                    &&& waypoint_position(old(plot).connections_view(), c.0, path) is None ==> {
                        &&& final(plot).connections_view() == old(plot).connections_view()
                        &&& final(plot).spec_selection() is Empty
                    }
                },
                }
            },
            Selection::Connection { block_id, output, start, position } => {
                &&& final(plot).connections_view() == old(plot).connections_view()
                &&& final(plot).blocks_view() == old(plot).blocks_view()
                &&& final(plot).spec_selection() == Selection::Connection {
                    block_id,
                    output,
                    start,
                    position: wrapped_sum(start, offset),
                }
            },
            Selection::Area(a, _) => {
                &&& final(plot).blocks_view() == old(plot).blocks_view()
                &&& final(plot).spec_selection() == Selection::Area(a, wrapped_sum(a, offset))
            },
            _ => final(plot).blocks_view() == old(plot).blocks_view() && final(plot).spec_selection()
                == old(plot).spec_selection(),
        },
{
    let current = plot.selection().clone();
    match current {
        Selection::Single(Selectable::Block(id), start) => {
            let to = mode.align(wrapped_sum_exec(start, offset));
            if !plot.set_block_position(id, to) {
                plot.set_selection(Selection::Empty);
            }
        },
        Selection::Single(Selectable::Waypoint(w), start) => {
            let to = mode.align(wrapped_sum_exec(start, offset));
            match plot.waypoint_position(&w) {
                Some(_) => {
                    plot.edit_waypoint(&w, WaypointEdit::Move(to));
                },
                None => {
                    plot.set_selection(Selection::Empty);
                },
            }
        },
        Selection::Connection { block_id, output, start, position: _ } => {
            plot.set_selection(
                Selection::Connection {
                    block_id,
                    output,
                    start,
                    position: wrapped_sum_exec(start, offset),
                },
            );
        },
        Selection::Area(a, _) => {
            plot.set_selection(Selection::Area(a, wrapped_sum_exec(a, offset)));
        },
        _ => {},
    }
}

/// The drag ends after moving the pointer by `offset`. A moved block
/// becomes a move action (none when it did not move); a new wire ends on
/// the input pin under the pointer, or in a loose waypoint there, and
/// becomes a new-wire action; a moved waypoint becomes a waypoint move
/// action; a selection rectangle selects what it covers; a pressed block
/// is released and simulated again.
pub fn drag_end(plot: &mut Plot, descriptor: PlotDescriptor, mode: EditorMode, offset: Vector2<i32>) -> (action:
    Option<Action>)
    requires
        old(plot).wf(),
    ensures
        final(plot).wf(),
        match old(plot).spec_selection() {
            Selection::Single(x, start) => {
                let target = if mode == EditorMode::Grid {
                    Vector2(
                        crate::editor::snap(wrapped_sum(start, offset).0 as int) as i32,
                        crate::editor::snap(wrapped_sum(start, offset).1 as int) as i32,
                    )
                } else {
                    wrapped_sum(start, offset)
                };
                &&& *final(plot) == *old(plot)
                &&& offset == Vector2(0i32, 0i32) ==> action is None
                &&& offset != Vector2(0i32, 0i32) ==> match x@ {
                    SelView::Block(id) => action matches Some(Action::MoveBlock(d, b, from, to)) && d == descriptor
                        && b == id && from == start && to == target,
                    SelView::Waypoint(c, path) => action matches Some(Action::MoveWaypoint(d, w, from, to)) && d
                        == descriptor && w.spec_connection_id() == c && w.spec_location() == path && from == start
                        && to == target,
                }
            },
            Selection::Connection { block_id, output, start: _, position } => {
                &&& final(plot).blocks_view() == old(plot).blocks_view()
                &&& final(plot).connections_view() == old(plot).connections_view()
                &&& final(plot).spec_selection() is Empty
                &&& (action matches Some(Action::NewConnection(d, c)) && d == descriptor && c@.origin
                    == Port::Output(block_id, output) && !c@.active && c@.segments.len() == 1 && (
                c@.segments[0].1 matches SegView::Block(b, i) ==> old(plot).blocks_view().contains_key(b.0)
                    && block_at(old(plot).blocks_view(), position) == Some(b.0)
                    && touches_spec(old(plot).blocks_view()[b.0], position) && first_pin_hit(
                    old(plot).blocks_view()[b.0],
                    position,
                    true,
                ) == Some(i)) && (c@.segments[0].1 matches SegView::Waypoint(cs, p, h) ==> cs.len() == 0
                    && p == position && !h) && (c@.segments[0].1 is Waypoint ==> (block_at(
                    old(plot).blocks_view(),
                    position,
                ) matches Some(b) ==> first_pin_hit(old(plot).blocks_view()[b], position, true) is None)))
            },
            Selection::Area(_, _) => action is None,
            Selection::MouseEvent(id) => {
                &&& action is None
                &&& final(plot).spec_selection() is Empty
                &&& final(plot).blocks_view() == old(plot).blocks_view()
                &&& final(plot).spec_to_update() == old(plot).spec_to_update().insert(id.0)
            },
            _ => action is None && *final(plot) == *old(plot),
        },
{
    let current = plot.selection().clone();
    match current {
        Selection::Single(Selectable::Block(id), start) => {
            if offset.0 == 0 && offset.1 == 0 {
                return None;
            }
            let to = mode.align(wrapped_sum_exec(start, offset));
            Some(Action::MoveBlock(descriptor, id, start, to))
        },
        Selection::Single(Selectable::Waypoint(w), start) => {
            if offset.0 == 0 && offset.1 == 0 {
                return None;
            }
            let to = mode.align(wrapped_sum_exec(start, offset));
            Some(Action::MoveWaypoint(descriptor, w, start, to))
        },
        Selection::Connection { block_id, output, start: _, position } => {
            plot.set_selection(Selection::Empty);
            let target = match plot.get_block_at(position) {
                Some(k) => {
                    let block = plot.get_block(k).unwrap();
                    match block.position_on_connection(position, true) {
                        Some(i) => Some((k, i)),
                        None => None,
                    }
                },
                None => None,
            };
            let connection = match target {
                Some((k, i)) => Connection::new_basic(block_id, output, k, i),
                None => {
                    let mut segments: Vec<Segment> = Vec::new();
                    segments.push(Segment::Waypoint(Vec::new(), position, false));
                    let c = Connection::new(Port::Output(block_id, output), segments);
                    proof {
                        assert(c@.segments[0].1 == segments@[0]@);
                        assert(segments@[0]@ == SegView::Waypoint(crate::connection::children_view(Seq::empty()), position, false));
                        assert(crate::connection::children_view(Seq::<(Id, Segment)>::empty()) =~= Seq::empty());
                    }
                    c
                },
            };
            Some(Action::NewConnection(descriptor, connection))
        },
        Selection::Area(_, _) => {
            plot.highlight_area();
            None
        },
        Selection::MouseEvent(id) => {
            plot.set_selection(Selection::Empty);
            plot.add_block_to_update(id);
            None
        },
        _ => None,
    }
}


/// `selected` with `x` taken out (its first occurrence) when it is in it,
/// and added at the end otherwise.
pub open spec fn toggled(selected: Seq<SelView>, x: SelView) -> Seq<SelView> {
    match selected.index_of_first(x) {
        Some(i) => selected.remove(i),
        None => selected.push(x),
    }
}

/// `selected` with `item` toggled (see `toggled`); also says whether it
/// was in the list.
fn toggle(selected: Vec<Selectable>, item: Selectable) -> (r: (Vec<Selectable>, bool))
    ensures
        sel_views(r.0@) == toggled(sel_views(selected@), item@),
        r.1 == sel_views(selected@).contains(item@),
{
    let mut selected = selected;
    let ghost before = sel_views(selected@);
    let mut i: usize = 0;
    let mut found = false;
    while i < selected.len()
        invariant_except_break
            !found,
        invariant
            sel_views(selected@) == before,
            0 <= i <= selected.len(),
            forall|j: int| 0 <= j < i ==> before[j] != item@,
        ensures
            sel_views(selected@) == before,
            0 <= i <= selected.len(),
            forall|j: int| 0 <= j < i ==> before[j] != item@,
            found ==> i < selected.len() && before[i as int] == item@,
            !found ==> i == selected.len(),
        decreases selected.len() - i,
    {
        if same_selectable(&selected[i], &item) {
            found = true;
            break;
        }
        i = i + 1;
    }
    proof {
        before.index_of_first_ensures(item@);
        if !found {
            assert(!before.contains(item@));
        } else {
            assert(before.contains(item@));
        }
    }
    if found {
        selected.remove(i);
        proof {
            assert(sel_views(selected@) =~= before.remove(i as int));
        }
    } else {
        let ghost iv = item@;
        selected.push(item);
        proof {
            assert(sel_views(selected@) =~= before.push(iv));
        }
    }
    (selected, found)
}

/// A shift-click at `position` while `selected` is the selection. A block
/// under the pointer, or else a waypoint there, leaves the selection (and
/// loses its highlight) if it was selected, and joins it (highlighted)
/// otherwise; the selection becomes the resulting list. Returns whether
/// something was hit; on a miss nothing changes.
pub fn selection_shift_click(plot: &mut Plot, selected: Vec<Selectable>, position: Vector2<i32>) -> (hit: bool)
    requires
        old(plot).wf(),
    ensures
        final(plot).wf(),
        hit == ((exists|k: u64| #[trigger]
            old(plot).blocks_view().contains_key(k) && touches_spec(old(plot).blocks_view()[k], position)) || (
        exists|c: u64| #[trigger]
            old(plot).connections_view().contains_key(c) && children_find(
                old(plot).connections_view()[c].segments,
                position,
            ) is Some)),
        !hit ==> *final(plot) == *old(plot),
        hit && block_at(old(plot).blocks_view(), position) is Some ==> exists|id: BlockID|
            {
                &&& #[trigger] old(plot).blocks_view().contains_key(id.0)
                &&& touches_spec(old(plot).blocks_view()[id.0], position)
                &&& block_at(old(plot).blocks_view(), position) == Some(id.0)
                &&& final(plot).connections_view() == old(plot).connections_view()
                &&& final(plot).blocks_view() == old(plot).blocks_view().insert(
                    id.0,
                    BlockView {
                        highlighted: !sel_views(selected@).contains(SelView::Block(id)),
                        ..old(plot).blocks_view()[id.0]
                    },
                )
                &&& final(plot).spec_selection() matches Selection::Many(v) && sel_views(v@) == toggled(
                    sel_views(selected@),
                    SelView::Block(id),
                )
            },
        hit && block_at(old(plot).blocks_view(), position) is None ==> exists|c: u64, path: Seq<Id>|
            #![trigger toggled(sel_views(selected@), SelView::Waypoint(Id(c), path))]
            {
                &&& old(plot).connections_view().contains_key(c)
                &&& children_find(old(plot).connections_view()[c].segments, position) == Some(path)
                &&& final(plot).blocks_view() == old(plot).blocks_view()
                &&& final(plot).connections_view() == wires_edited(
                    old(plot).connections_view(),
                    c,
                    path,
                    WaypointEdit::Highlight(!sel_views(selected@).contains(SelView::Waypoint(Id(c), path))),
                )
                &&& final(plot).spec_selection() matches Selection::Many(v) && sel_views(v@) == toggled(
                    sel_views(selected@),
                    SelView::Waypoint(Id(c), path),
                )
            },
{
    match plot.get_block_at(position) {
        Some(id) => {
            let (v, was_in) = toggle(selected, Selectable::Block(id));
            plot.set_block_highlighted(id, !was_in);
            let ghost bv = plot.blocks_view();
            plot.set_selection(Selection::Many(v));
            proof {
                assert(plot.blocks_view() == bv);
            }
            true
        },
        None => match plot.get_waypoint_at(position) {
            Some(w) => {
                proof {
                    assert(w.spec_connection_id() == Id(w.spec_connection_id().0));
                }
                let item = Selectable::Waypoint(w.clone());
                let (v, was_in) = toggle(selected, item);
                plot.edit_waypoint(&w, WaypointEdit::Highlight(!was_in));
                plot.set_selection(Selection::Many(v));
                true
            },
            None => false,
        },
    }
}


/// A wire drag starts on the output pin it was begun from: the start is
/// the pin's own position, right of the block and 25 units apart per pin
/// below a margin of 50, and the hit test of the output side there finds
/// that very pin.
pub proof fn lemma_wire_start_on_pin(b: BlockView, i: u8)
    requires
        i < b.outputs.len(),
        i32::MIN <= b.position.0 + b.size.0 <= i32::MAX,
        i32::MIN <= b.position.1 + 25 * i + 50 <= i32::MAX,
    ensures
        output_pin_position(b, i) == Vector2((b.position.0 + b.size.0) as i32, (b.position.1 + 25 * i + 50) as i32),
        first_pin_hit(b, output_pin_position(b, i), false) == Some(i),
{
    assert((25 * (i as i32) + 50) as i32 == 25 * i + 50);
    crate::block::lemma_pin_hit_at_pin(b, false, i as int);
}

} // verus!
