use vstd::prelude::*;
use crate::id::Id;
use crate::block::{Block, BlockView, links_of};
use crate::connection::{BlockID, Connection, ConnView, SegmentID, WaypointEdit};
use crate::modules::Module;
use crate::plot::{
    Plot,
    PlotDescriptor,
    pins_bounded,
    pins_within,
    same_pins,
    connection_fits,
    connection_wired,
    detached,
    removed_wires,
    lemma_detached_none,
    wires_fit,
    link_pins,
    link_pin,
    pin_link,
    lemma_pins_bounded_within,
    lemma_pins_bounded_same_pins,
    lemma_link_pins_pointwise,
    lemma_link_pins_same_pins,
    relinked,
    names_pin,
    port_in_range,
    port_valid,
    wires_named,
};
use crate::connection::Port;
use crate::builtin::{builtin_name, BuiltinKind};
use crate::project::{
    Project,
    plot_at,
    which_plot,
    with_module,
    without_module,
    module_added,
    module_addable,
    names_of,
    find_index,
    names_unique,
};
use crate::collect::MAX_PINS;
use crate::keys::keys_of;
use crate::vector::Vector2;
use crate::clipboard::{views_of_blocks, views_of_wires};

verus! {

/// An edit of a project that can be undone and redone.
#[derive(Debug)]
pub enum Action {
    NewBlock(PlotDescriptor, Block),
    PasteBlocks(PlotDescriptor, Vec<Block>, Vec<Connection>),
    MoveBlock(PlotDescriptor, BlockID, Vector2<i32>, Vector2<i32>),
    MoveWaypoint(PlotDescriptor, SegmentID, Vector2<i32>, Vector2<i32>),
    NewConnection(PlotDescriptor, Connection),
    DeleteSelection(PlotDescriptor, Vec<Block>, Vec<Connection>),
    CreateModule(Module),
    DeleteModule(Module),
}

/// The blocks with block `id` moved to `to`, if it exists.
pub open spec fn moved(bs: Map<u64, BlockView>, id: BlockID, to: Vector2<i32>) -> Map<u64, BlockView> {
    if bs.contains_key(id.0) {
        bs.insert(id.0, BlockView { position: to, ..bs[id.0] })
    } else {
        bs
    }
}

/// The block can be placed on a plot with wires `cs`.
pub open spec fn block_placeable(cs: Map<u64, ConnView>, b: BlockView) -> bool {
    b.inputs.len() <= MAX_PINS && b.outputs.len() <= MAX_PINS && wires_fit(cs, b.id.0, b)
}

/// What deleting block `id` from plot `p` leaves, as `q`.
pub open spec fn block_deleted(p: Plot, id: BlockID, q: Plot) -> bool {
    let ob = p.blocks_view();
    let oc = p.connections_view();
    let links = if ob.contains_key(id.0) {
        links_of(ob[id.0].inputs + ob[id.0].outputs)
    } else {
        Seq::<crate::connection::ConnectionID>::empty()
    };
    let gone = Set::new(|c: u64| oc.contains_key(c) && links.contains(Id(c)));
    let keep = ob.contains_key(id.0) && ob[id.0].unique;
    &&& q.connections_view() == oc.remove_keys(gone)
    &&& q.blocks_view() == if keep {
        detached(ob, oc, gone)
    } else {
        detached(ob, oc, gone).remove(id.0)
    }
}

/// What removing wire `c` from plot `p` leaves, as `q`.
pub open spec fn wire_removed(p: Plot, c: crate::connection::ConnectionID, q: Plot) -> bool {
    let oc = p.connections_view();
    if oc.contains_key(c.0) {
        let ports = seq![oc[c.0].origin] + oc[c.0].destinations();
        &&& q.blocks_view() == link_pins(p.blocks_view(), ports, None)
        &&& q.connections_view() == oc.remove(c.0)
    } else {
        q.blocks_view() == p.blocks_view() && q.connections_view() == oc
    }
}

/// Blocks `blocks` placed one after another on blocks `bs` with wires
/// `cs`, each only when it can be placed.
pub open spec fn blocks_placed(cs: Map<u64, ConnView>, bs: Map<u64, BlockView>, blocks: Seq<BlockView>) -> Map<
    u64,
    BlockView,
>
    decreases blocks.len(),
{
    if blocks.len() == 0 {
        bs
    } else {
        let before = blocks_placed(cs, bs, blocks.drop_last());
        let b = blocks.last();
        if block_placeable(cs, b) {
            before.insert(b.id.0, b)
        } else {
            before
        }
    }
}

/// Wire `c` added to blocks `bs` and wires `cs` when it fits, giving `bs2`
/// and `cs2`.
pub open spec fn wire_step(
    bs: Map<u64, BlockView>,
    cs: Map<u64, ConnView>,
    c: ConnView,
    bs2: Map<u64, BlockView>,
    cs2: Map<u64, ConnView>,
) -> bool {
    if connection_fits(bs, cs, c) {
        connection_wired(bs, cs, c, bs2, cs2)
    } else {
        bs2 == bs && cs2 == cs
    }
}

/// `steps` runs from blocks `bs` and wires `cs` to `bs2` and `cs2`, each
/// step adding the next wire of `conns` where it fits.
pub open spec fn wire_chain(
    steps: Seq<(Map<u64, BlockView>, Map<u64, ConnView>)>,
    bs: Map<u64, BlockView>,
    cs: Map<u64, ConnView>,
    conns: Seq<ConnView>,
    bs2: Map<u64, BlockView>,
    cs2: Map<u64, ConnView>,
) -> bool {
    &&& steps.len() == conns.len() + 1
    &&& steps[0] == (bs, cs)
    &&& steps[conns.len() as int] == (bs2, cs2)
    &&& forall|i: int|
        0 <= i < conns.len() ==> #[trigger] wire_step(steps[i].0, steps[i].1, conns[i], steps[i + 1].0, steps[i + 1].1)
}

/// Wires `conns` added one after another to blocks `bs` and wires `cs`,
/// each only when it fits, give `bs2` and `cs2`.
pub open spec fn wires_added(
    bs: Map<u64, BlockView>,
    cs: Map<u64, ConnView>,
    conns: Seq<ConnView>,
    bs2: Map<u64, BlockView>,
    cs2: Map<u64, ConnView>,
) -> bool {
    exists|steps: Seq<(Map<u64, BlockView>, Map<u64, ConnView>)>| #[trigger] wire_chain(steps, bs, cs, conns, bs2, cs2)
}

/// Plot `q` is plot `p` with `blocks` placed and then `wires` added, each
/// only where it fits.
pub open spec fn placed_and_wired(p: Plot, blocks: Seq<Block>, wires: Seq<Connection>, q: Plot) -> bool {
    wires_added(
        blocks_placed(p.connections_view(), p.blocks_view(), views_of_blocks(blocks)),
        p.connections_view(),
        views_of_wires(wires),
        q.blocks_view(),
        q.connections_view(),
    )
}

/// The identifiers of `blocks`.
pub open spec fn ids_of_blocks(blocks: Seq<Block>) -> Seq<BlockID> {
    blocks.map_values(|b: Block| b@.id)
}

/// The identifiers of `wires`.
pub open spec fn ids_of_wires(wires: Seq<Connection>) -> Seq<crate::connection::ConnectionID> {
    wires.map_values(|c: Connection| c@.id)
}

/// `steps` runs from plot `p` to plot `q`, each step deleting the next
/// block of `ids`.
pub open spec fn deletion_chain(steps: Seq<Plot>, p: Plot, ids: Seq<BlockID>, q: Plot) -> bool {
    &&& steps.len() == ids.len() + 1
    &&& steps[0].blocks_view() == p.blocks_view() && steps[0].connections_view() == p.connections_view()
    &&& steps[ids.len() as int].blocks_view() == q.blocks_view() && steps[ids.len() as int].connections_view()
        == q.connections_view()
    &&& forall|i: int| 0 <= i < ids.len() ==> #[trigger] block_deleted(steps[i], ids[i], steps[i + 1])
}

/// Plot `q` is plot `p` with the blocks `ids` deleted one after another.
pub open spec fn blocks_deleted(p: Plot, ids: Seq<BlockID>, q: Plot) -> bool {
    exists|steps: Seq<Plot>| #[trigger] deletion_chain(steps, p, ids, q)
}

/// `steps` runs from plot `p` to plot `q`, each step removing the next
/// wire of `ids`.
pub open spec fn removal_chain(steps: Seq<Plot>, p: Plot, ids: Seq<crate::connection::ConnectionID>, q: Plot) -> bool {
    &&& steps.len() == ids.len() + 1
    &&& steps[0].blocks_view() == p.blocks_view() && steps[0].connections_view() == p.connections_view()
    &&& steps[ids.len() as int].blocks_view() == q.blocks_view() && steps[ids.len() as int].connections_view()
        == q.connections_view()
    &&& forall|i: int| 0 <= i < ids.len() ==> #[trigger] wire_removed(steps[i], ids[i], steps[i + 1])
}

/// Plot `q` is plot `p` with the wires `ids` removed one after another.
pub open spec fn wires_removed(p: Plot, ids: Seq<crate::connection::ConnectionID>, q: Plot) -> bool {
    exists|steps: Seq<Plot>| #[trigger] removal_chain(steps, p, ids, q)
}

/// What carrying out `a` on plot `p` does, as plot `q` and action `a2`.
pub open spec fn exec_effect(a: Action, a2: Action, p: Plot, q: Plot) -> bool {
    match a {
        Action::MoveBlock(_, id, _, to) => {
            &&& q.blocks_view() == moved(p.blocks_view(), id, to)
            &&& q.connections_view() == p.connections_view()
            &&& a2 == a
        },
        Action::MoveWaypoint(_, w, _, to) => {
            &&& q.blocks_view() == p.blocks_view()
            &&& q.connections_view() == crate::plot::wires_edited(
                p.connections_view(),
                w.spec_connection_id().0,
                w.spec_location(),
                WaypointEdit::Move(to),
            )
            &&& a2 == a
        },
        Action::NewBlock(_, b) => {
            &&& block_placeable(p.connections_view(), b@) ==> q.blocks_view() == p.blocks_view().insert(
                b@.id.0,
                b@,
            )
            &&& !block_placeable(p.connections_view(), b@) ==> q.blocks_view() == p.blocks_view()
            &&& q.connections_view() == p.connections_view()
            &&& a2 == a
        },
        Action::NewConnection(_, c) => {
            &&& connection_fits(p.blocks_view(), p.connections_view(), c@) ==> connection_wired(
                p.blocks_view(),
                p.connections_view(),
                c@,
                q.blocks_view(),
                q.connections_view(),
            )
            &&& !connection_fits(p.blocks_view(), p.connections_view(), c@) ==> q.blocks_view()
                == p.blocks_view() && q.connections_view() == p.connections_view()
            &&& a2 == a
        },
        Action::DeleteSelection(d, blocks, _) => {
            &&& blocks_deleted(p, ids_of_blocks(blocks@), q)
            &&& q.blocks_view().dom() == p.blocks_view().dom().difference(
                Set::new(
                    |k: u64|
                        exists|i: int|
                            0 <= i < blocks@.len() && (#[trigger] blocks@[i])@.id.0 == k && !(
                            p.blocks_view().contains_key(k) && p.blocks_view()[k].unique),
                ),
            )
            &&& a2 matches Action::DeleteSelection(d2, blocks2, incoming2) && d2 == d && blocks2@.len()
                == blocks@.len() && (forall|i: int|
                0 <= i < blocks@.len() ==> (#[trigger] blocks2@[i])@ == (BlockView {
                    highlighted: false,
                    ..blocks@[i]@
                })) && removed_wires(p.connections_view(), q.connections_view(), incoming2@)
                && deleted_in_order(p, ids_of_blocks(blocks@), q, views_of_wires(incoming2@))
        },
        Action::PasteBlocks(_, blocks, wires) => placed_and_wired(p, blocks@, wires@, q) && a2 == a,
        _ => true,
    }
}

/// What undoing `a` on plot `p` does, as plot `q`.
pub open spec fn undo_effect(a: Action, p: Plot, q: Plot) -> bool {
    match a {
        Action::MoveBlock(_, id, from, _) => {
            &&& q.blocks_view() == moved(p.blocks_view(), id, from)
            &&& q.connections_view() == p.connections_view()
        },
        Action::MoveWaypoint(_, w, from, _) => {
            &&& q.blocks_view() == p.blocks_view()
            &&& q.connections_view() == crate::plot::wires_edited(
                p.connections_view(),
                w.spec_connection_id().0,
                w.spec_location(),
                WaypointEdit::Move(from),
            )
        },
        Action::NewBlock(_, b) => block_deleted(p, b@.id, q),
        Action::NewConnection(_, c) => wire_removed(p, c@.id, q),
        Action::PasteBlocks(_, blocks, wires) => exists|m: Plot|
            #[trigger] blocks_deleted(p, ids_of_blocks(blocks@), m) && wires_removed(m, ids_of_wires(wires@), q),
        Action::DeleteSelection(_, blocks, incoming) => placed_and_wired(p, blocks@, incoming@, q),
        _ => true,
    }
}

/// Only the plot that `w` names may differ between the two projects, and
/// it exists in both or in neither.
pub open spec fn only_plot_changed(old: Project, new: Project, w: Option<Seq<char>>) -> bool {
    &&& names_of(new.spec_modules()) == names_of(old.spec_modules())
    &&& forall|w2: Option<Seq<char>>| w2 != w ==> #[trigger] plot_at(new, w2) == plot_at(old, w2)
    &&& plot_at(new, w) is Some == plot_at(old, w) is Some
}

proof fn lemma_wires_added_start(bs: Map<u64, BlockView>, cs: Map<u64, ConnView>, conns: Seq<ConnView>)
    requires
        conns.len() == 0,
    ensures
        wires_added(bs, cs, conns, bs, cs),
{
    assert(wire_chain(seq![(bs, cs)], bs, cs, conns, bs, cs));
}

proof fn lemma_wires_added_push(
    bs: Map<u64, BlockView>,
    cs: Map<u64, ConnView>,
    conns: Seq<ConnView>,
    mb: Map<u64, BlockView>,
    mc: Map<u64, ConnView>,
    c: ConnView,
    bs2: Map<u64, BlockView>,
    cs2: Map<u64, ConnView>,
)
    requires
        wires_added(bs, cs, conns, mb, mc),
        wire_step(mb, mc, c, bs2, cs2),
    ensures
        wires_added(bs, cs, conns.push(c), bs2, cs2),
{
    let steps = choose|steps: Seq<(Map<u64, BlockView>, Map<u64, ConnView>)>| #[trigger] wire_chain(steps, bs, cs, conns, mb, mc);
    let more = steps.push((bs2, cs2));
    let cs_more = conns.push(c);
    assert forall|i: int| 0 <= i < cs_more.len() implies #[trigger] wire_step(
        more[i].0,
        more[i].1,
        cs_more[i],
        more[i + 1].0,
        more[i + 1].1,
    ) by {
        if i < conns.len() {
            assert(more[i] == steps[i]);
            assert(more[i + 1] == steps[i + 1]);
            assert(cs_more[i] == conns[i]);
            assert(wire_step(steps[i].0, steps[i].1, conns[i], steps[i + 1].0, steps[i + 1].1));
        } else {
            assert(more[i] == steps[conns.len() as int]);
        }
    }
    assert(wire_chain(more, bs, cs, cs_more, bs2, cs2));
}

proof fn lemma_blocks_deleted_start(p: Plot, ids: Seq<BlockID>)
    requires
        ids.len() == 0,
    ensures
        blocks_deleted(p, ids, p),
{
    assert(deletion_chain(seq![p], p, ids, p));
}

proof fn lemma_blocks_deleted_push(p: Plot, ids: Seq<BlockID>, m: Plot, id: BlockID, q: Plot)
    requires
        blocks_deleted(p, ids, m),
        block_deleted(m, id, q),
    ensures
        blocks_deleted(p, ids.push(id), q),
{
    let steps = choose|steps: Seq<Plot>| #[trigger] deletion_chain(steps, p, ids, m);
    let more = steps.push(q);
    let ids_more = ids.push(id);
    assert forall|i: int| 0 <= i < ids_more.len() implies #[trigger] block_deleted(more[i], ids_more[i], more[i + 1]) by {
        if i < ids.len() {
            assert(more[i] == steps[i]);
            assert(more[i + 1] == steps[i + 1]);
            assert(ids_more[i] == ids[i]);
            assert(block_deleted(steps[i], ids[i], steps[i + 1]));
        } else {
            assert(more[i] == steps[ids.len() as int]);
        }
    }
    assert(deletion_chain(more, p, ids_more, q));
}

/// The wires that deleting block `id` from plot `s` takes away: those its
/// pins name, input pins first, each once, switched off.
pub open spec fn wires_of_block(s: Plot, id: BlockID) -> Seq<ConnView> {
    let bs = s.blocks_view();
    if bs.contains_key(id.0) {
        wires_named(links_of(bs[id.0].inputs + bs[id.0].outputs), s.connections_view())
    } else {
        seq![]
    }
}

/// The wires that deleting blocks `ids` one after another along the plots
/// `steps` takes away, in that order.
pub open spec fn wires_deleted_along(steps: Seq<Plot>, ids: Seq<BlockID>) -> Seq<ConnView>
    decreases ids.len(),
{
    if ids.len() == 0 {
        seq![]
    } else {
        wires_deleted_along(steps, ids.drop_last()) + wires_of_block(steps[ids.len() - 1], ids.last())
    }
}

/// Deleting blocks `ids` one after another turns plot `p` into plot `q`
/// and takes away the wires `wires`, block by block in that order.
pub open spec fn deleted_in_order(p: Plot, ids: Seq<BlockID>, q: Plot, wires: Seq<ConnView>) -> bool {
    exists|steps: Seq<Plot>| #[trigger] deletion_chain(steps, p, ids, q) && wires_deleted_along(steps, ids) == wires
}

proof fn lemma_wires_deleted_along_prefix(steps: Seq<Plot>, more: Seq<Plot>, ids: Seq<BlockID>)
    requires
        ids.len() < steps.len(),
        steps.len() <= more.len(),
        forall|i: int| 0 <= i < steps.len() ==> more[i] == steps[i],
    ensures
        wires_deleted_along(more, ids) == wires_deleted_along(steps, ids),
    decreases ids.len(),
{
    if ids.len() > 0 {
        lemma_wires_deleted_along_prefix(steps, more, ids.drop_last());
    }
}

proof fn lemma_deleted_in_order_start(p: Plot, ids: Seq<BlockID>)
    requires
        ids.len() == 0,
    ensures
        deleted_in_order(p, ids, p, seq![]),
{
    assert(deletion_chain(seq![p], p, ids, p));
}

proof fn lemma_deleted_in_order_push(p: Plot, ids: Seq<BlockID>, m: Plot, id: BlockID, q: Plot, wires: Seq<ConnView>)
    requires
        deleted_in_order(p, ids, m, wires),
        block_deleted(m, id, q),
    ensures
        deleted_in_order(p, ids.push(id), q, wires + wires_of_block(m, id)),
{
    let steps = choose|steps: Seq<Plot>| #[trigger] deletion_chain(steps, p, ids, m) && wires_deleted_along(steps, ids)
        == wires;
    let more = steps.push(q);
    let ids_more = ids.push(id);
    assert forall|i: int| 0 <= i < ids_more.len() implies #[trigger] block_deleted(more[i], ids_more[i], more[i + 1]) by {
        if i < ids.len() {
            assert(more[i] == steps[i]);
            assert(more[i + 1] == steps[i + 1]);
            assert(ids_more[i] == ids[i]);
            assert(block_deleted(steps[i], ids[i], steps[i + 1]));
        } else {
            assert(more[i] == steps[ids.len() as int]);
        }
    }
    assert(deletion_chain(more, p, ids_more, q));
    lemma_wires_deleted_along_prefix(steps, more, ids);
    assert(ids_more.drop_last() =~= ids);
    assert(wires_of_block(more[ids.len() as int], id) == wires_of_block(m, id)) by {
        assert(more[ids.len() as int] == steps[ids.len() as int]);
        assert(m.blocks_view() == steps[ids.len() as int].blocks_view());
        assert(m.connections_view() == steps[ids.len() as int].connections_view());
    }
}

proof fn lemma_wires_removed_start(p: Plot, ids: Seq<crate::connection::ConnectionID>)
    requires
        ids.len() == 0,
    ensures
        wires_removed(p, ids, p),
{
    assert(removal_chain(seq![p], p, ids, p));
}

proof fn lemma_wires_removed_push(p: Plot, ids: Seq<crate::connection::ConnectionID>, m: Plot, id: crate::connection::ConnectionID, q: Plot)
    requires
        wires_removed(p, ids, m),
        wire_removed(m, id, q),
    ensures
        wires_removed(p, ids.push(id), q),
{
    let steps = choose|steps: Seq<Plot>| #[trigger] removal_chain(steps, p, ids, m);
    let more = steps.push(q);
    let ids_more = ids.push(id);
    assert forall|i: int| 0 <= i < ids_more.len() implies #[trigger] wire_removed(more[i], ids_more[i], more[i + 1]) by {
        if i < ids.len() {
            assert(more[i] == steps[i]);
            assert(more[i + 1] == steps[i + 1]);
            assert(ids_more[i] == ids[i]);
            assert(wire_removed(steps[i], ids[i], steps[i + 1]));
        } else {
            assert(more[i] == steps[ids.len() as int]);
        }
    }
    assert(removal_chain(more, p, ids_more, q));
}

/// Places `blocks` and then adds `wires` to `plot`, each only where it
/// fits.
fn place_and_wire(plot: &mut Plot, blocks: &Vec<Block>, wires: &Vec<Connection>)
    requires
        old(plot).wf(),
        pins_bounded(old(plot).blocks_view()),
    ensures
        final(plot).wf(),
        pins_bounded(final(plot).blocks_view()),
        placed_and_wired(*old(plot), blocks@, wires@, *final(plot)),
        final(plot).spec_selection() == old(plot).spec_selection(),
{
    let ghost cs0 = plot.connections_view();
    let ghost bs0 = plot.blocks_view();
    let mut i: usize = 0;
    while i < blocks.len()
        invariant
            0 <= i <= blocks.len(),
            plot.wf(),
            plot.spec_selection() == old(plot).spec_selection(),
            pins_bounded(plot.blocks_view()),
            plot.connections_view() == cs0,
            plot.blocks_view() == blocks_placed(cs0, bs0, views_of_blocks(blocks@.subrange(0, i as int))),
        decreases blocks.len() - i,
    {
        let ghost prev = blocks@.subrange(0, i as int);
        plot.try_add_block(blocks[i].clone());
        proof {
            let next = blocks@.subrange(0, i + 1);
            assert(views_of_blocks(next).drop_last() =~= views_of_blocks(prev));
            assert(views_of_blocks(next).last() == blocks@[i as int]@);
        }
        i = i + 1;
    }
    proof {
        assert(blocks@.subrange(0, blocks@.len() as int) =~= blocks@);
    }
    let ghost placed = plot.blocks_view();
    proof {
        lemma_wires_added_start(placed, cs0, views_of_wires(wires@.subrange(0, 0)));
    }
    let mut j: usize = 0;
    while j < wires.len()
        invariant
            0 <= j <= wires.len(),
            plot.wf(),
            plot.spec_selection() == old(plot).spec_selection(),
            pins_bounded(plot.blocks_view()),
            placed == blocks_placed(cs0, bs0, views_of_blocks(blocks@)),
            wires_added(
                placed,
                cs0,
                views_of_wires(wires@.subrange(0, j as int)),
                plot.blocks_view(),
                plot.connections_view(),
            ),
        decreases wires.len() - j,
    {
        let ghost before = plot.blocks_view();
        let ghost mc = plot.connections_view();
        let ghost prev = views_of_wires(wires@.subrange(0, j as int));
        plot.try_add_connection(wires[j].clone());
        proof {
            lemma_pins_bounded_same_pins(before, plot.blocks_view());
            let next = views_of_wires(wires@.subrange(0, j + 1));
            assert(next.drop_last() =~= prev);
            assert(next.last() == wires@[j as int]@);
            assert(next =~= prev.push(wires@[j as int]@));
            lemma_wires_added_push(placed, cs0, prev, before, mc, wires@[j as int]@, plot.blocks_view(), plot.connections_view());
        }
        j = j + 1;
    }
    proof {
        assert(wires@.subrange(0, wires@.len() as int) =~= wires@);
    }
}

/// Deletes `blocks` from `plot` one after another.
fn delete_blocks(plot: &mut Plot, blocks: &Vec<Block>)
    requires
        old(plot).wf(),
        pins_bounded(old(plot).blocks_view()),
    ensures
        final(plot).wf(),
        pins_bounded(final(plot).blocks_view()),
        blocks_deleted(*old(plot), ids_of_blocks(blocks@), *final(plot)),
        final(plot).spec_selection() == old(plot).spec_selection(),
{
    proof {
        lemma_blocks_deleted_start(*plot, ids_of_blocks(blocks@.subrange(0, 0)));
    }
    let mut i: usize = 0;
    while i < blocks.len()
        invariant
            0 <= i <= blocks.len(),
            plot.wf(),
            plot.spec_selection() == old(plot).spec_selection(),
            pins_bounded(plot.blocks_view()),
            blocks_deleted(*old(plot), ids_of_blocks(blocks@.subrange(0, i as int)), *plot),
        decreases blocks.len() - i,
    {
        let ghost before = plot.blocks_view();
        let ghost m = *plot;
        let ghost prev = ids_of_blocks(blocks@.subrange(0, i as int));
        plot.delete_block(blocks[i].id());
        proof {
            lemma_pins_bounded_within(before, plot.blocks_view());
            let next = ids_of_blocks(blocks@.subrange(0, i + 1));
            assert(next.drop_last() =~= prev);
            assert(next =~= prev.push(blocks@[i as int]@.id));
            lemma_blocks_deleted_push(*old(plot), prev, m, blocks@[i as int]@.id, *plot);
        }
        i = i + 1;
    }
    proof {
        assert(blocks@.subrange(0, blocks@.len() as int) =~= blocks@);
    }
}

/// Removes `wires` from `plot` one after another.
fn remove_wires(plot: &mut Plot, wires: &Vec<Connection>)
    requires
        old(plot).wf(),
        pins_bounded(old(plot).blocks_view()),
    ensures
        final(plot).wf(),
        pins_bounded(final(plot).blocks_view()),
        wires_removed(*old(plot), ids_of_wires(wires@), *final(plot)),
        final(plot).spec_selection() == old(plot).spec_selection(),
{
    proof {
        lemma_wires_removed_start(*plot, ids_of_wires(wires@.subrange(0, 0)));
    }
    let mut j: usize = 0;
    while j < wires.len()
        invariant
            0 <= j <= wires.len(),
            plot.wf(),
            plot.spec_selection() == old(plot).spec_selection(),
            pins_bounded(plot.blocks_view()),
            wires_removed(*old(plot), ids_of_wires(wires@.subrange(0, j as int)), *plot),
        decreases wires.len() - j,
    {
        let ghost before = plot.blocks_view();
        let ghost m = *plot;
        let ghost prev = ids_of_wires(wires@.subrange(0, j as int));
        plot.remove_connection(wires[j].id());
        proof {
            lemma_pins_bounded_same_pins(before, plot.blocks_view());
            let next = ids_of_wires(wires@.subrange(0, j + 1));
            assert(next.drop_last() =~= prev);
            assert(next =~= prev.push(wires@[j as int]@.id));
            lemma_wires_removed_push(*old(plot), prev, m, wires@[j as int]@.id, *plot);
        }
        j = j + 1;
    }
    proof {
        assert(wires@.subrange(0, wires@.len() as int) =~= wires@);
    }
}

/// What carrying out action `a` does to project `p`, as project `q` and
/// action `a2` (the action as it is recorded afterwards): the plot it names
/// changes as `exec_effect` says and nothing else does; a module action
/// adds or removes its module.
pub open spec fn action_done(a: Action, a2: Action, p: Project, q: Project) -> bool {
    &&& a2.descriptor() == a.descriptor()
    &&& match a.descriptor() {
        Some(d) => {
            let w = which_plot(d);
            &&& only_plot_changed(p, q, w)
            &&& q.spec_main_plot() == p.spec_main_plot() <== w is Some
            &&& plot_at(p, w) matches Some(pp) ==> {
                &&& exec_effect(a, a2, pp, plot_at(q, w).unwrap())
                &&& plot_at(q, w).unwrap().spec_selection() == pp.spec_selection()
            }
            &&& plot_at(p, w) is None ==> match a {
                Action::DeleteSelection(d1, blocks, _) => a2 matches Action::DeleteSelection(d2, blocks2, incoming2)
                    && d2 == d1 && incoming2@.len() == 0 && blocks2@.len() == blocks@.len() && forall|i: int|
                    0 <= i < blocks@.len() ==> (#[trigger] blocks2@[i])@ == (BlockView {
                        highlighted: false,
                        ..blocks@[i]@
                    }),
                _ => a2 == a,
            }
        },
        None => {
            &&& q.spec_main_plot() == p.spec_main_plot()
            &&& a2 == a
            &&& match a {
                Action::CreateModule(m) => if module_addable(p, m) {
                    let i = find_index(q.spec_modules(), m.spec_name());
                    &&& i is Some
                    &&& q.spec_modules() == with_module(p.spec_modules(), q.spec_modules()[i.unwrap()])
                    &&& module_added(m, q.spec_modules()[i.unwrap()], p.spec_modules())
                } else {
                    q.spec_modules() == p.spec_modules()
                },
                Action::DeleteModule(m) => q.spec_modules() == without_module(p.spec_modules(), m.spec_name()),
                _ => true,
            }
        },
    }
}

/// What undoing action `a` does to project `p`, as project `q`: the plot it
/// names changes as `undo_effect` says and nothing else does; a module
/// action removes or puts back its module.
pub open spec fn action_undone(a: Action, p: Project, q: Project) -> bool {
    match a.descriptor() {
        Some(d) => {
            let w = which_plot(d);
            &&& only_plot_changed(p, q, w)
            &&& q.spec_main_plot() == p.spec_main_plot() <== w is Some
            &&& plot_at(p, w) matches Some(pp) ==> {
                &&& undo_effect(a, pp, plot_at(q, w).unwrap())
                &&& plot_at(q, w).unwrap().spec_selection() == pp.spec_selection()
            }
        },
        None => {
            &&& q.spec_main_plot() == p.spec_main_plot()
            &&& match a {
                Action::CreateModule(m) => q.spec_modules() == without_module(p.spec_modules(), m.spec_name()),
                Action::DeleteModule(m) => if module_addable(p, m) {
                    let i = find_index(q.spec_modules(), m.spec_name());
                    &&& i is Some
                    &&& q.spec_modules() == with_module(p.spec_modules(), q.spec_modules()[i.unwrap()])
                    &&& module_added(m, q.spec_modules()[i.unwrap()], p.spec_modules())
                } else {
                    q.spec_modules() == p.spec_modules()
                },
                _ => true,
            }
        },
    }
}

impl Action {
    /// The plot the action edits; `None` for module actions.
    pub open spec fn descriptor(self) -> Option<PlotDescriptor> {
        match self {
            Action::NewBlock(d, _) => Some(d),
            Action::PasteBlocks(d, _, _) => Some(d),
            Action::MoveBlock(d, _, _, _) => Some(d),
            Action::MoveWaypoint(d, _, _, _) => Some(d),
            Action::NewConnection(d, _) => Some(d),
            Action::DeleteSelection(d, _, _) => Some(d),
            _ => None,
        }
    }

    /// The module that a module action carries can be simulated.
    pub open spec fn wf(self) -> bool {
        match self {
            Action::CreateModule(m) => m.module_wf(),
            Action::DeleteModule(m) => m.module_wf(),
            _ => true,
        }
    }

    /// Carries out a plot action on `plot`.
    fn exec_on_plot(&mut self, plot: &mut Plot)
        requires
            old(plot).wf(),
            pins_bounded(old(plot).blocks_view()),
        ensures
            final(plot).wf(),
            pins_bounded(final(plot).blocks_view()),
            exec_effect(*old(self), *final(self), *old(plot), *final(plot)),
            final(plot).spec_selection() == old(plot).spec_selection(),
            old(self).descriptor() == final(self).descriptor(),
            final(self).wf() == old(self).wf(),
    {
        match self {
            Action::NewBlock(_, block) => {
                plot.try_add_block(block.clone());
            },
            Action::PasteBlocks(_, blocks, connections) => {
                place_and_wire(plot, blocks, connections);
            },
            Action::MoveBlock(_, id, _, to) => {
                let ghost before = plot.blocks_view();
                plot.set_block_position(*id, *to);
                proof {
                    assert(plot.blocks_view().dom() =~= before.dom());
                    lemma_pins_bounded_same_pins(before, plot.blocks_view());
                }
            },
            Action::MoveWaypoint(_, w, _, to) => {
                plot.edit_waypoint(w, WaypointEdit::Move(*to));
            },
            Action::NewConnection(_, connection) => {
                if plot.can_add_connection(connection) {
                    let ghost before = plot.blocks_view();
                    plot.add_block_to_update(connection.origin().block_id());
                    let dests = connection.destinations();
                    let mut i: usize = 0;
                    while i < dests.len()
                        invariant
                            0 <= i <= dests.len(),
                            plot.blocks_view() == before,
                            plot.connections_view() == old(plot).connections_view(),
                            plot.wf(),
                            plot.spec_selection() == old(plot).spec_selection(),
                            plot.spec_states() == old(plot).spec_states(),
                        decreases dests.len() - i,
                    {
                        plot.add_block_to_update(dests[i].block_id());
                        i = i + 1;
                    }
                    let ghost c = connection@;
                    plot.try_add_connection(connection.clone());
                    proof {
                        lemma_pins_bounded_same_pins(before, plot.blocks_view());
                    }
                }
            },
            Action::DeleteSelection(_, blocks, incoming) => {
                let ghost p0 = plot.blocks_view();
                let ghost bs0 = blocks@;
                let ghost doomed = Set::new(
                    |k: u64|
                        exists|i: int|
                            0 <= i < bs0.len() && (#[trigger] bs0[i])@.id.0 == k && !(p0.contains_key(k)
                                && p0[k].unique),
                );
                let ghost c0 = plot.connections_view();
                let mut deleted: Vec<Connection> = Vec::new();
                proof {
                    lemma_blocks_deleted_start(*plot, ids_of_blocks(bs0.subrange(0, 0)));
                    lemma_deleted_in_order_start(*plot, ids_of_blocks(bs0.subrange(0, 0)));
                    assert(views_of_wires(deleted@) =~= seq![]);
                }
                let mut i: usize = 0;
                while i < blocks.len()
                    invariant
                        0 <= i <= blocks.len(),
                        blocks@ == bs0,
                        c0 == old(plot).connections_view(),
                        blocks_deleted(*old(plot), ids_of_blocks(bs0.subrange(0, i as int)), *plot),
                        deleted_in_order(
                            *old(plot),
                            ids_of_blocks(bs0.subrange(0, i as int)),
                            *plot,
                            views_of_wires(deleted@),
                        ),
                        forall|c: u64| #[trigger] plot.connections_view().contains_key(c) ==> c0.contains_key(c)
                            && plot.connections_view()[c] == c0[c],
                        removed_wires(c0, plot.connections_view(), deleted@),
                        plot.wf(),
                        plot.spec_selection() == old(plot).spec_selection(),
                        pins_bounded(plot.blocks_view()),
                        pins_within(p0, plot.blocks_view()),
                        forall|k: u64| #[trigger] plot.blocks_view().contains_key(k) ==> plot.blocks_view()[k].unique == p0[k].unique,
                        plot.blocks_view().dom() == p0.dom().difference(
                            Set::new(
                                |k: u64|
                                    exists|j: int|
                                        0 <= j < i && (#[trigger] bs0[j])@.id.0 == k && !(p0.contains_key(k)
                                            && p0[k].unique),
                            ),
                        ),
                    decreases blocks.len() - i,
                {
                    let ghost before = plot.blocks_view();
                    let ghost m = *plot;
                    let ghost cur = plot.connections_view();
                    let ghost d0 = deleted@;
                    let ghost prev = ids_of_blocks(bs0.subrange(0, i as int));
                    let mut gone = plot.delete_block(blocks[i].id());
                    let ghost g = gone@;
                    deleted.append(&mut gone);
                    proof {
                        let next = ids_of_blocks(bs0.subrange(0, i + 1));
                        assert(next =~= prev.push(bs0[i as int]@.id));
                        lemma_blocks_deleted_push(*old(plot), prev, m, bs0[i as int]@.id, *plot);
                        let now = plot.connections_view();
                        assert(deleted@ == d0 + g);
                        assert(views_of_wires(g) == wires_of_block(m, bs0[i as int]@.id));
                        lemma_deleted_in_order_push(*old(plot), prev, m, bs0[i as int]@.id, *plot, views_of_wires(d0));
                        assert(views_of_wires(deleted@) =~= views_of_wires(d0) + views_of_wires(g));
                        assert forall|x: int| 0 <= x < deleted@.len() implies c0.contains_key((#[trigger] deleted@[x])@.id.0)
                            && !now.contains_key(deleted@[x]@.id.0) && deleted@[x]@ == (ConnView {
                            active: false,
                            ..c0[deleted@[x]@.id.0]
                        }) by {
                            if x < d0.len() {
                                assert(deleted@[x] == d0[x]);
                                assert(c0.contains_key(d0[x]@.id.0));
                            } else {
                                assert(deleted@[x] == g[x - d0.len()]);
                                assert(g[x - d0.len()]@.id == deleted@[x]@.id);
                            }
                        }
                        assert forall|c: u64| #[trigger] c0.contains_key(c) && !now.contains_key(c) implies exists|x: int|
                            0 <= x < deleted@.len() && deleted@[x]@.id.0 == c by {
                            if !cur.contains_key(c) {
                                let x = choose|x: int| 0 <= x < d0.len() && d0[x]@.id.0 == c;
                                assert(deleted@[x] == d0[x]);
                            } else {
                                let y = choose|y: int| 0 <= y < g.len() && g[y]@.id.0 == c;
                                assert(deleted@[d0.len() + y] == g[y]);
                            }
                        }
                        lemma_pins_bounded_within(before, plot.blocks_view());
                        let k0 = bs0[i as int]@.id.0;
                        assert forall|k: u64| #[trigger] plot.blocks_view().contains_key(k) implies plot.blocks_view()[k].unique == p0[k].unique by {
                            assert(before.contains_key(k));
                            assert(plot.blocks_view()[k].unique == before[k].unique);
                        }
                        assert(plot.blocks_view().dom() =~= p0.dom().difference(
                            Set::new(
                                |k: u64|
                                    exists|j: int|
                                        0 <= j < i + 1 && (#[trigger] bs0[j])@.id.0 == k && !(p0.contains_key(k)
                                            && p0[k].unique),
                            ),
                        )) by {
                            assert forall|k: u64| plot.blocks_view().dom().contains(k) <==> p0.dom().difference(
                                Set::new(
                                    |k2: u64|
                                        exists|j: int|
                                            0 <= j < i + 1 && (#[trigger] bs0[j])@.id.0 == k2 && !(p0.contains_key(k2)
                                                && p0[k2].unique),
                                ),
                            ).contains(k) by {
                                if k == k0 {
                                    if before.contains_key(k) {
                                        assert(before[k].unique == p0[k].unique);
                                    }
                                    if p0.contains_key(k) && !p0[k].unique {
                                        assert(bs0[i as int]@.id.0 == k);
                                    }
                                } else {
                                    if exists|j: int| 0 <= j < i + 1 && (#[trigger] bs0[j])@.id.0 == k && !(p0.contains_key(k) && p0[k].unique) {
                                        let j = choose|j: int| 0 <= j < i + 1 && (#[trigger] bs0[j])@.id.0 == k && !(p0.contains_key(k) && p0[k].unique);
                                        assert(j != i);
                                    }
                                }
                            }
                        }
                    }
                    i = i + 1;
                }
                proof {
                    assert(bs0.subrange(0, bs0.len() as int) =~= bs0);
                }
                let mut j: usize = 0;
                while j < blocks.len()
                    invariant
                        0 <= j <= blocks.len(),
                        blocks@.len() == bs0.len(),
                        forall|x: int| 0 <= x < j ==> (#[trigger] blocks@[x])@ == (BlockView {
                            highlighted: false,
                            ..bs0[x]@
                        }),
                        forall|x: int| j <= x < blocks@.len() ==> #[trigger] blocks@[x] == bs0[x],
                    decreases blocks.len() - j,
                {
                    blocks[j].set_highlighted(false);
                    j = j + 1;
                }
                *incoming = deleted;
            },
            _ => {},
        }
    }

    /// Undoes a plot action on `plot`.
    fn undo_on_plot(&self, plot: &mut Plot)
        requires
            old(plot).wf(),
            pins_bounded(old(plot).blocks_view()),
        ensures
            final(plot).wf(),
            pins_bounded(final(plot).blocks_view()),
            undo_effect(*self, *old(plot), *final(plot)),
            final(plot).spec_selection() == old(plot).spec_selection(),
    {
        match self {
            Action::NewBlock(_, block) => {
                let ghost before = plot.blocks_view();
                plot.delete_block(block.id());
                proof {
                    lemma_pins_bounded_within(before, plot.blocks_view());
                }
            },
            Action::PasteBlocks(_, blocks, connections) => {
                let ghost p0 = *plot;
                delete_blocks(plot, blocks);
                let ghost mid = *plot;
                remove_wires(plot, connections);
                proof {
                    assert(blocks_deleted(p0, ids_of_blocks(blocks@), mid));
                }
            },
            Action::MoveBlock(_, id, from, _) => {
                let ghost before = plot.blocks_view();
                plot.set_block_position(*id, *from);
                proof {
                    assert(plot.blocks_view().dom() =~= before.dom());
                    lemma_pins_bounded_same_pins(before, plot.blocks_view());
                }
            },
            Action::MoveWaypoint(_, w, from, _) => {
                plot.edit_waypoint(w, WaypointEdit::Move(*from));
            },
            Action::NewConnection(_, connection) => {
                let ghost before = plot.blocks_view();
                plot.remove_connection(connection.id());
                proof {
                    lemma_pins_bounded_same_pins(before, plot.blocks_view());
                }
            },
            Action::DeleteSelection(_, blocks, incoming) => {
                place_and_wire(plot, blocks, incoming);
            },
            _ => {},
        }
    }
}

impl Action {
    fn plot_descriptor(&self) -> (d: Option<PlotDescriptor>)
        ensures
            d == self.descriptor(),
    {
        match self {
            Action::NewBlock(d, _) => Some(d.clone()),
            Action::PasteBlocks(d, _, _) => Some(d.clone()),
            Action::MoveBlock(d, _, _, _) => Some(d.clone()),
            Action::MoveWaypoint(d, _, _, _) => Some(d.clone()),
            Action::NewConnection(d, _) => Some(d.clone()),
            Action::DeleteSelection(d, _, _) => Some(d.clone()),
            _ => None,
        }
    }

    /// Carries out the action on the project. A block or wire that does
    /// not fit the plot is left out, and a module is only added when its
    /// pins fit and the project has its input and output modules.
    pub fn exec(&mut self, project: &mut Project)
        requires
            old(project).wf(),
            old(self).wf(),
        ensures
            final(project).wf(),
            final(self).wf(),
            action_done(*old(self), *final(self), *old(project), *final(project)),
    {
        match self {
            Action::CreateModule(m) => {
                if project.can_add_module(m) {
                    let copy = m.clone();
                    project.add_module(copy);
                }
            },
            Action::DeleteModule(m) => {
                project.remove_module(m.name());
            },
            _ => {
                let d = self.plot_descriptor().unwrap();
                let mut plot = Plot::new();
                if project.swap_plot(&d, &mut plot) {
                    let ghost mid = *project;
                    self.exec_on_plot(&mut plot);
                    project.swap_plot(&d, &mut plot);
                    proof {
                        assert(plot_at(mid, which_plot(d)) is Some);
                    }
                } else {
                    match self {
                        Action::DeleteSelection(_, blocks, incoming) => {
                            let ghost bs0 = blocks@;
                            let mut j: usize = 0;
                            while j < blocks.len()
                                invariant
                                    0 <= j <= blocks.len(),
                                    blocks@.len() == bs0.len(),
                                    forall|x: int| 0 <= x < j ==> (#[trigger] blocks@[x])@ == (BlockView {
                                        highlighted: false,
                                        ..bs0[x]@
                                    }),
                                    forall|x: int| j <= x < blocks@.len() ==> #[trigger] blocks@[x] == bs0[x],
                                decreases blocks.len() - j,
                            {
                                blocks[j].set_highlighted(false);
                                j = j + 1;
                            }
                            *incoming = Vec::new();
                        },
                        _ => {},
                    }
                }
            },
        }
    }

    /// Undoes the action on the project.
    pub fn undo(&self, project: &mut Project)
        requires
            old(project).wf(),
            self.wf(),
        ensures
            final(project).wf(),
            action_undone(*self, *old(project), *final(project)),
    {
        match self {
            Action::CreateModule(m) => {
                project.remove_module(m.name());
            },
            Action::DeleteModule(m) => {
                if project.can_add_module(m) {
                    let copy = m.clone();
                    project.add_module(copy);
                }
            },
            _ => {
                let d = self.plot_descriptor().unwrap();
                let mut plot = Plot::new();
                if project.swap_plot(&d, &mut plot) {
                    self.undo_on_plot(&mut plot);
                    project.swap_plot(&d, &mut plot);
                }
            },
        }
    }
}

/// `t` is history `s` after an undo: one action fewer in effect, if any
/// was, and then changes to save.
pub open spec fn stack_undone(s: ActionStack, t: ActionStack) -> bool {
    &&& t.spec_actions() == s.spec_actions()
    &&& s.spec_next() > 0 ==> t.spec_next() == s.spec_next() - 1 && t.spec_dirty()
    &&& s.spec_next() == 0 ==> t.spec_next() == 0 && t.spec_dirty() == s.spec_dirty()
}

/// `t` is history `s` after a redo: the first undone action, if any, is in
/// effect again (as it was carried out), and then there are changes to
/// save.
pub open spec fn stack_redone(s: ActionStack, t: ActionStack) -> bool {
    &&& t.spec_actions().len() == s.spec_actions().len()
    &&& s.spec_next() < s.spec_actions().len() ==> t.spec_next() == s.spec_next() + 1 && t.spec_dirty()
        && t.spec_actions() == s.spec_actions().update(s.spec_next() as int, t.spec_actions()[s.spec_next() as int])
    &&& s.spec_next() >= s.spec_actions().len() ==> t.spec_next() == s.spec_next() && t.spec_dirty()
        == s.spec_dirty() && t.spec_actions() == s.spec_actions()
}

/// An undo followed by a redo brings the history back to the same number
/// of actions in effect, over the same number of actions.
pub proof fn lemma_undo_then_redo(s: ActionStack, t: ActionStack, u: ActionStack)
    requires
        stack_undone(s, t),
        stack_redone(t, u),
        0 < s.spec_next() <= s.spec_actions().len(),
    ensures
        u.spec_next() == s.spec_next(),
        u.spec_actions().len() == s.spec_actions().len(),
        forall|i: int| 0 <= i < s.spec_actions().len() && i != s.spec_next() - 1 ==> #[trigger] u.spec_actions()[i]
            == s.spec_actions()[i],
{
}

/// The most actions the history keeps.
pub const MAX_ACTION_STACK_SIZE: usize = 100;

/// The undo history: the actions done so far, how many of them are in
/// effect (`next`), and whether there are changes not saved yet.
#[derive(Debug)]
pub struct ActionStack {
    actions: Vec<Action>,
    next: usize,
    dirty: bool,
}

impl ActionStack {
    pub closed spec fn spec_actions(&self) -> Seq<Action> {
        self.actions@
    }

    pub closed spec fn spec_next(&self) -> usize {
        self.next
    }

    pub closed spec fn spec_dirty(&self) -> bool {
        self.dirty
    }

    /// Every action in the history can be carried out.
    pub open spec fn wf(&self) -> bool {
        forall|i: int| 0 <= i < self.spec_actions().len() ==> (#[trigger] self.spec_actions()[i]).wf()
    }

    /// An empty history with nothing to save.
    pub fn new() -> (s: Self)
        ensures
            s.wf(),
            s.spec_actions().len() == 0,
            s.spec_next() == 0,
            !s.spec_dirty(),
    {
        ActionStack { actions: Vec::new(), next: 0, dirty: false }
    }

    /// Undoes the latest action in effect, if any.
    pub fn undo(&mut self, project: &mut Project)
        requires
            old(self).wf(),
            old(project).wf(),
            old(self).spec_next() <= old(self).spec_actions().len(),
        ensures
            final(self).wf(),
            final(project).wf(),
            stack_undone(*old(self), *final(self)),
            old(self).spec_next() == 0 ==> *final(project) == *old(project),
            old(self).spec_next() > 0 ==> action_undone(
                old(self).spec_actions()[old(self).spec_next() - 1],
                *old(project),
                *final(project),
            ),
    {
        if self.next > 0 {
            self.next = self.next - 1;
            self.dirty = true;
            self.actions[self.next].undo(project);
        }
    }

    /// Carries out again the first action undone, if any.
    pub fn redo(&mut self, project: &mut Project)
        requires
            old(self).wf(),
            old(project).wf(),
        ensures
            final(self).wf(),
            final(project).wf(),
            stack_redone(*old(self), *final(self)),
            old(self).spec_next() >= old(self).spec_actions().len() ==> *final(project) == *old(project),
            old(self).spec_next() < old(self).spec_actions().len() ==> action_done(
                old(self).spec_actions()[old(self).spec_next() as int],
                final(self).spec_actions()[old(self).spec_next() as int],
                *old(project),
                *final(project),
            ),
    {
        if self.next < self.actions.len() {
            self.next = self.next + 1;
            self.dirty = true;
            let i = self.next - 1;
            self.actions[i].exec(project);
        }
    }

    /// Carries out a new action and records it: the actions undone before
    /// are dropped, and the oldest ones go once there are more than
    /// `MAX_ACTION_STACK_SIZE`.
    pub fn add(&mut self, project: &mut Project, action: Action)
        requires
            old(self).wf(),
            old(project).wf(),
            action.wf(),
            old(self).spec_next() < usize::MAX,
        ensures
            final(self).spec_actions().len() > 0,
            action_done(action, final(self).spec_actions().last(), *old(project), *final(project)),
            final(self).wf(),
            final(project).wf(),
            final(self).spec_next() == old(self).spec_next() + 1,
            final(self).spec_dirty(),
            ({
                let kept = if old(self).spec_next() <= old(self).spec_actions().len() {
                    old(self).spec_next() as int
                } else {
                    old(self).spec_actions().len() as int
                };
                let total = kept + 1;
                &&& final(self).spec_actions().len() == if total > MAX_ACTION_STACK_SIZE {
                    MAX_ACTION_STACK_SIZE as int
                } else {
                    total
                }
                &&& total <= MAX_ACTION_STACK_SIZE ==> final(self).spec_actions().subrange(0, kept)
                    == old(self).spec_actions().subrange(0, kept)
            }),
    {
        let ghost olds = self.actions@;
        let ghost kept: int = if self.next <= self.actions.len() {
            self.next as int
        } else {
            self.actions.len() as int
        };
        while self.actions.len() > self.next
            invariant
                self.next == old(self).spec_next(),
                kept <= self.actions@.len() <= olds.len(),
                self.actions@ == olds.subrange(0, self.actions@.len() as int),
                kept == if self.next <= olds.len() {
                    self.next as int
                } else {
                    olds.len() as int
                },
                forall|i: int| 0 <= i < olds.len() ==> (#[trigger] olds[i]).wf(),
            decreases self.actions@.len(),
        {
            self.actions.pop();
            proof {
                assert(self.actions@ =~= olds.subrange(0, self.actions@.len() as int));
            }
        }
        let mut action = action;
        action.exec(project);
        self.next = self.next + 1;
        self.dirty = true;
        self.actions.push(action);
        proof {
            assert(self.actions@.len() == kept + 1);
            assert(self.actions@.subrange(0, kept) =~= olds.subrange(0, kept));
        }
        let ghost pushed = self.actions@;
        while self.actions.len() > MAX_ACTION_STACK_SIZE
            invariant
                self.actions@.len() >= MAX_ACTION_STACK_SIZE || self.actions@ == pushed,
                forall|i: int| 0 <= i < self.actions@.len() ==> (#[trigger] self.actions@[i]).wf(),
                kept + 1 > MAX_ACTION_STACK_SIZE ==> self.actions@.len() >= MAX_ACTION_STACK_SIZE,
                kept + 1 <= MAX_ACTION_STACK_SIZE ==> self.actions@ == pushed,
                pushed.len() == kept + 1,
                self.actions@.len() > 0,
                self.actions@.last() == pushed.last(),
                self.next == old(self).spec_next() + 1,
                self.dirty,
            decreases self.actions@.len(),
        {
            let ghost before = self.actions@;
            self.actions.remove(0);
            proof {
                assert forall|i: int| 0 <= i < self.actions@.len() implies (#[trigger] self.actions@[i]).wf() by {
                    assert(self.actions@[i] == before[i + 1]);
                }
            }
        }
    }

    /// Forgets the whole history.
    pub fn reset(&mut self)
        ensures
            final(self).wf(),
            final(self).spec_actions().len() == 0,
            final(self).spec_next() == 0,
            !final(self).spec_dirty(),
    {
        self.next = 0;
        self.dirty = false;
        self.actions.clear();
    }

    pub fn is_dirty(&self) -> (d: bool)
        ensures
            d == self.spec_dirty(),
    {
        self.dirty
    }

    pub fn set_dirty(&mut self, dirty: bool)
        ensures
            final(self).spec_dirty() == dirty,
            final(self).spec_next() == old(self).spec_next(),
            final(self).spec_actions() == old(self).spec_actions(),
    {
        self.dirty = dirty;
    }

    /// How many actions of the history are in effect.
    pub fn next_index(&self) -> (n: usize)
        ensures
            n == self.spec_next(),
    {
        self.next
    }

    /// How many actions the history holds.
    pub fn len(&self) -> (n: usize)
        ensures
            n == self.spec_actions().len(),
    {
        self.actions.len()
    }

    /// Whether there is an action to undo.
    pub fn can_undo(&self) -> (b: bool)
        ensures
            b == (self.spec_next() != 0),
    {
        self.next != 0
    }

    /// Whether there is an undone action to carry out again.
    pub fn can_redo(&self) -> (b: bool)
        ensures
            b == (self.spec_next() < self.spec_actions().len()),
    {
        self.next < self.actions.len()
    }
}

impl Default for ActionStack {
    fn default() -> (s: Self)
        ensures
            s.wf(),
            s.spec_actions().len() == 0,
            s.spec_next() == 0,
            !s.spec_dirty(),
    {
        ActionStack::new()
    }
}

/// Undoing a move puts the block back where it was.
/// Carrying out a block move on a project and undoing it gives back the
/// plot it edits (its blocks and wires) and leaves every other plot as
/// it was, when the block stood at the move's start.
pub proof fn lemma_project_undo_move_block(
    d: PlotDescriptor,
    id: BlockID,
    from: Vector2<i32>,
    to: Vector2<i32>,
    a2: Action,
    p: Project,
    q: Project,
    r: Project,
)
    requires
        action_done(Action::MoveBlock(d, id, from, to), a2, p, q),
        action_undone(a2, q, r),
        plot_at(p, which_plot(d)) matches Some(pp) ==> (pp.blocks_view().contains_key(id.0)
            ==> pp.blocks_view()[id.0].position == from),
    ensures
        forall|w: Option<Seq<char>>| w != which_plot(d) ==> #[trigger] plot_at(r, w) == plot_at(p, w),
        plot_at(r, which_plot(d)) is Some == plot_at(p, which_plot(d)) is Some,
        plot_at(p, which_plot(d)) matches Some(pp) ==> plot_at(r, which_plot(d)).unwrap().blocks_view()
            == pp.blocks_view() && plot_at(r, which_plot(d)).unwrap().connections_view() == pp.connections_view(),
{
    let a = Action::MoveBlock(d, id, from, to);
    let w = which_plot(d);
    if plot_at(p, w) is Some {
        let pp = plot_at(p, w).unwrap();
        assert(a2 == a);
        lemma_undo_move_block(d, id, from, to, pp, plot_at(q, w).unwrap(), plot_at(r, w).unwrap());
    } else {
        assert(a2 == a);
    }
    assert forall|w2: Option<Seq<char>>| w2 != w implies #[trigger] plot_at(r, w2) == plot_at(p, w2) by {
        assert(plot_at(q, w2) == plot_at(p, w2));
        assert(plot_at(r, w2) == plot_at(q, w2));
    }
}

pub proof fn lemma_undo_move_block(
    d: PlotDescriptor,
    id: BlockID,
    from: Vector2<i32>,
    to: Vector2<i32>,
    p: Plot,
    q: Plot,
    r: Plot,
)
    requires
        exec_effect(Action::MoveBlock(d, id, from, to), Action::MoveBlock(d, id, from, to), p, q),
        undo_effect(Action::MoveBlock(d, id, from, to), q, r),
        p.blocks_view().contains_key(id.0) ==> p.blocks_view()[id.0].position == from,
    ensures
        r.blocks_view() == p.blocks_view(),
        r.connections_view() == p.connections_view(),
{
    let bs = p.blocks_view();
    if bs.contains_key(id.0) {
        assert(r.blocks_view() =~= bs);
    }
}

/// Undoing the placement of a new block without wires removes it again.
pub proof fn lemma_undo_new_block(d: PlotDescriptor, b: Block, p: Plot, q: Plot, r: Plot)
    requires
        exec_effect(Action::NewBlock(d, b), Action::NewBlock(d, b), p, q),
        undo_effect(Action::NewBlock(d, b), q, r),
        !p.blocks_view().contains_key(b@.id.0),
        links_of(b@.inputs + b@.outputs).len() == 0,
        !b@.unique,
    ensures
        r.blocks_view() == p.blocks_view(),
        r.connections_view() == p.connections_view(),
{
    let k = b@.id.0;
    let qc = q.connections_view();
    if block_placeable(p.connections_view(), b@) {
        assert(q.blocks_view()[k] == b@);
        let gone = Set::new(|c: u64| qc.contains_key(c) && links_of(b@.inputs + b@.outputs).contains(Id(c)));
        assert(gone =~= Set::empty());
        lemma_detached_none(q.blocks_view(), qc, gone);
        assert(qc.remove_keys(gone) =~= qc);
        assert(q.blocks_view().remove(k) =~= p.blocks_view());
    } else {
        let gone = Set::new(|c: u64| qc.contains_key(c) && Seq::<crate::connection::ConnectionID>::empty().contains(Id(c)));
        assert(gone =~= Set::empty());
        lemma_detached_none(q.blocks_view(), qc, gone);
        assert(qc.remove_keys(gone) =~= qc);
        assert(q.blocks_view().remove(k) =~= p.blocks_view());
    }
}

/// Undoing the creation of a module whose name was free removes it
/// again.
pub proof fn lemma_undo_create_module(ms: Seq<Module>, added: Module)
    requires
        find_index(ms, added.spec_name()) is None,
    ensures
        without_module(with_module(ms, added), added.spec_name()) == ms,
{
    let r = with_module(ms, added);
    assert(r == ms.push(added));
    assert(r[ms.len() as int].spec_name() == added.spec_name());
    assert forall|i: int| 0 <= i < ms.len() implies (#[trigger] ms[i]).spec_name() != added.spec_name() by {}
    let j = find_index(r, added.spec_name()).unwrap();
    assert(j == ms.len()) by {
        if j < ms.len() {
            assert(r[j] == ms[j]);
        }
    }
    assert(r.remove(ms.len() as int) =~= ms);
}

/// The text of the error for a module name that is taken.
pub open spec fn module_exists_error(name: Seq<char>) -> Seq<char> {
    "Module with name \""@ + name + "\" already exists"@
}

/// Builds the error for a module name that is taken.
fn module_exists_message(name: &String) -> (s: String)
    ensures
        s@ == module_exists_error(name@),
{
    let mut s = String::from_str("Module with name \"");
    s.append(name.as_str());
    s.append("\" already exists");
    s
}

/// The action that creates a new custom module, or why it cannot be made:
/// the name must not be empty or taken.
pub fn create_new_module(project: &Project, name: String, num_inputs: u8, num_outputs: u8) -> (r: Result<
    Action,
    String,
>)
    requires
        project.wf(),
        num_inputs <= crate::collect::MAX_PINS,
        num_outputs <= crate::collect::MAX_PINS,
        find_index(project.spec_modules(), builtin_name(BuiltinKind::Input)) is Some,
        find_index(project.spec_modules(), builtin_name(BuiltinKind::Output)) is Some,
    ensures
        name@.len() == 0 ==> (r matches Err(e) && e@ == "Invalid name"@),
        name@.len() > 0 && find_index(project.spec_modules(), name@) is Some ==> (r matches Err(e) && e@
            == module_exists_error(name@)),
        name@.len() > 0 && find_index(project.spec_modules(), name@) is None ==> (r matches Ok(
            Action::CreateModule(m),
        ) && m.spec_name() == name@ && m.spec_num_inputs() == num_inputs && m.spec_num_outputs()
            == num_outputs && !m.spec_builtin() && m.spec_custom() is Some && m.module_wf()
            && crate::project::module_addable(*project, m)),
{
    if name.as_str().is_empty() {
        return Err("Invalid name".to_owned());
    }
    if project.module(&name).is_some() {
        return Err(module_exists_message(&name));
    }
    let m = Module::new(name, num_inputs, num_outputs);
    Ok(Action::CreateModule(m))
}

/// Undoing a new wire between free pins takes the wire away again and
/// leaves every block as it was.
pub proof fn lemma_undo_new_connection(d: PlotDescriptor, c: Connection, p: Plot, q: Plot, r: Plot)
    requires
        p.wf(),
        exec_effect(Action::NewConnection(d, c), Action::NewConnection(d, c), p, q),
        undo_effect(Action::NewConnection(d, c), q, r),
        connection_fits(p.blocks_view(), p.connections_view(), c@),
        !p.connections_view().contains_key(c@.id.0),
        pin_link(p.blocks_view()[c@.origin.spec_block_id().0], c@.origin) is None,
        forall|i: int| 0 <= i < c@.destinations().len() ==> pin_link(
            p.blocks_view()[(#[trigger] c@.destinations()[i]).spec_block_id().0],
            c@.destinations()[i],
        ) is None,
    ensures
        r.blocks_view() == p.blocks_view(),
        r.connections_view() == p.connections_view(),
{
    let bs = p.blocks_view();
    let o = c@.origin;
    let ok = o.spec_block_id().0;
    let dests = c@.destinations();
    let cid = c@.id;
    let mid = bs.insert(ok, link_pin(bs[ok], o, Some(cid)));
    let qb = q.blocks_view();
    let all = seq![o] + dests;
    assert(q.connections_view()[cid.0] == c@);
    assert(r.connections_view() =~= p.connections_view());
    assert(bs.contains_key(ok));
    assert(mid.dom() =~= bs.dom());
    assert(same_pins(bs, mid));
    assert forall|i: int| 0 <= i < dests.len() implies port_in_range(mid, #[trigger] dests[i]) by {
        assert(port_valid(bs, dests[i]));
    }
    lemma_link_pins_pointwise(mid, dests, Some(cid));
    lemma_link_pins_same_pins(mid, dests, Some(cid));
    assert forall|i: int| 0 <= i < all.len() implies port_in_range(qb, #[trigger] all[i]) by {
        if i == 0 {
            assert(all[0] == o);
        } else {
            assert(all[i] == dests[i - 1]);
            assert(port_valid(bs, dests[i - 1]));
        }
    }
    lemma_link_pins_pointwise(qb, all, None);
    assert forall|k: u64| #[trigger] bs.contains_key(k) implies r.blocks_view()[k] == bs[k] by {
        let rk = r.blocks_view()[k];
        assert(rk == relinked(qb, all, None, k));
        assert(qb[k] == relinked(mid, dests, Some(cid), k));
        assert forall|i: int| 0 <= i < bs[k].inputs.len() implies rk.inputs[i] == bs[k].inputs[i] by {
            if names_pin(all, k, i, true) {
                let j = choose|j: int| 0 <= j < all.len() && match #[trigger] all[j] {
                    Port::Input(b, x) => true && b.0 == k && x == i,
                    Port::Output(b, x) => !true && b.0 == k && x == i,
                };
                if j == 0 {
                    assert(all[0] == o);
                } else {
                    assert(all[j] == dests[j - 1]);
                    assert(pin_link(bs[dests[j - 1].spec_block_id().0], dests[j - 1]) is None);
                }
            } else {
                assert(!names_pin(dests, k, i, true)) by {
                    if names_pin(dests, k, i, true) {
                        let j = choose|j: int| 0 <= j < dests.len() && match #[trigger] dests[j] {
                            Port::Input(b, x) => true && b.0 == k && x == i,
                            Port::Output(b, x) => !true && b.0 == k && x == i,
                        };
                        assert(all[j + 1] == dests[j]);
                    }
                }
                if k == ok {
                    match o {
                        Port::Input(b, x) => {
                            if x == i {
                                assert(all[0] == o);
                            }
                        },
                        Port::Output(..) => {},
                    }
                }
            }
        }
        assert forall|i: int| 0 <= i < bs[k].outputs.len() implies rk.outputs[i] == bs[k].outputs[i] by {
            if names_pin(all, k, i, false) {
                let j = choose|j: int| 0 <= j < all.len() && match #[trigger] all[j] {
                    Port::Input(b, x) => false && b.0 == k && x == i,
                    Port::Output(b, x) => !false && b.0 == k && x == i,
                };
                if j == 0 {
                    assert(all[0] == o);
                } else {
                    assert(all[j] == dests[j - 1]);
                    assert(pin_link(bs[dests[j - 1].spec_block_id().0], dests[j - 1]) is None);
                }
            } else {
                assert(!names_pin(dests, k, i, false)) by {
                    if names_pin(dests, k, i, false) {
                        let j = choose|j: int| 0 <= j < dests.len() && match #[trigger] dests[j] {
                            Port::Input(b, x) => false && b.0 == k && x == i,
                            Port::Output(b, x) => !false && b.0 == k && x == i,
                        };
                        assert(all[j + 1] == dests[j]);
                    }
                }
                if k == ok {
                    match o {
                        Port::Output(b, x) => {
                            if x == i {
                                assert(all[0] == o);
                            }
                        },
                        Port::Input(..) => {},
                    }
                }
            }
        }
        assert(rk.inputs =~= bs[k].inputs);
        assert(rk.outputs =~= bs[k].outputs);
    }
    assert(r.blocks_view() =~= bs);
}


proof fn lemma_placed_fresh(cs: Map<u64, ConnView>, bs: Map<u64, BlockView>, vs: Seq<BlockView>)
    requires
        forall|i: int| 0 <= i < vs.len() ==> !bs.contains_key(#[trigger] vs[i].id.0),
    ensures
        forall|k: u64| #[trigger]
            bs.contains_key(k) ==> blocks_placed(cs, bs, vs).contains_key(k) && blocks_placed(cs, bs, vs)[k] == bs[k],
        forall|k: u64| #[trigger]
            blocks_placed(cs, bs, vs).contains_key(k) && !bs.contains_key(k) ==> exists|j: int|
                0 <= j < vs.len() && vs[j].id.0 == k && blocks_placed(cs, bs, vs)[k] == vs[j],
    decreases vs.len(),
{
    if vs.len() > 0 {
        let d = vs.drop_last();
        assert forall|i: int| 0 <= i < d.len() implies !bs.contains_key(#[trigger] d[i].id.0) by {
            assert(d[i] == vs[i]);
        }
        lemma_placed_fresh(cs, bs, d);
        let before = blocks_placed(cs, bs, d);
        let after = blocks_placed(cs, bs, vs);
        assert forall|k: u64| #[trigger] after.contains_key(k) && !bs.contains_key(k) implies exists|j: int|
            0 <= j < vs.len() && vs[j].id.0 == k && after[k] == vs[j] by {
            if block_placeable(cs, vs.last()) && k == vs.last().id.0 {
                assert(vs[vs.len() - 1] == vs.last());
            } else {
                assert(before.contains_key(k));
                let j = choose|j: int| 0 <= j < d.len() && d[j].id.0 == k && before[k] == d[j];
                assert(vs[j] == d[j]);
            }
        }
        assert forall|k: u64| #[trigger] bs.contains_key(k) implies after.contains_key(k) && after[k] == bs[k] by {
            assert(vs[vs.len() - 1] == vs.last());
        }
    }
}

proof fn lemma_fresh_deletions(
    steps: Seq<Plot>,
    vs: Seq<BlockView>,
    ids: Seq<BlockID>,
    placed: Map<u64, BlockView>,
    bs: Map<u64, BlockView>,
    cs: Map<u64, ConnView>,
    i: int,
)
    requires
        0 <= i <= vs.len(),
        steps.len() == vs.len() + 1,
        steps[0].blocks_view() == placed,
        steps[0].connections_view() == cs,
        ids.len() == vs.len(),
        forall|j: int| 0 <= j < vs.len() ==> #[trigger] ids[j] == vs[j].id,
        forall|j: int| 0 <= j < vs.len() ==> #[trigger] block_deleted(steps[j], ids[j], steps[j + 1]),
        forall|j: int|
            0 <= j < vs.len() ==> links_of((#[trigger] vs[j]).inputs + vs[j].outputs).len() == 0 && !vs[j].unique,
        forall|a: int, b: int| 0 <= a < b < vs.len() ==> (#[trigger] vs[a]).id != (#[trigger] vs[b]).id,
        forall|k: u64| #[trigger]
            placed.contains_key(k) && !bs.contains_key(k) ==> exists|j: int|
                0 <= j < vs.len() && vs[j].id.0 == k && placed[k] == vs[j],
        forall|k: u64| #[trigger] bs.contains_key(k) ==> placed.contains_key(k) && placed[k] == bs[k],
        forall|j: int| 0 <= j < vs.len() ==> !bs.contains_key(#[trigger] vs[j].id.0),
    ensures
        steps[i].connections_view() == cs,
        steps[i].blocks_view() == placed.remove_keys(Set::new(|k: u64| exists|j: int| 0 <= j < i && vs[j].id.0 == k)),
    decreases i,
{
    let gone_before = Set::new(|k: u64| exists|j: int| 0 <= j < i - 1 && vs[j].id.0 == k);
    let gone_now = Set::new(|k: u64| exists|j: int| 0 <= j < i && vs[j].id.0 == k);
    if i == 0 {
        assert(gone_now =~= Set::empty());
        assert(placed.remove_keys(gone_now) =~= placed);
    } else {
        lemma_fresh_deletions(steps, vs, ids, placed, bs, cs, i - 1);
        let s = steps[i - 1];
        let t = steps[(i - 1) + 1];
        let id = vs[i - 1].id;
        assert(ids[i - 1] == id);
        assert(block_deleted(s, ids[i - 1], t));
        let ob = s.blocks_view();
        let oc = s.connections_view();
        let links = if ob.contains_key(id.0) {
            links_of(ob[id.0].inputs + ob[id.0].outputs)
        } else {
            Seq::<crate::connection::ConnectionID>::empty()
        };
        if ob.contains_key(id.0) {
            assert(placed.contains_key(id.0));
            assert(!bs.contains_key(id.0));
            let j = choose|j: int| 0 <= j < vs.len() && vs[j].id.0 == id.0 && placed[id.0] == vs[j];
            if j != i - 1 {
                if j < i - 1 {
                    assert(vs[j].id != vs[i - 1].id);
                } else {
                    assert(vs[i - 1].id != vs[j].id);
                }
            }
            assert(ob[id.0] == vs[i - 1]);
        }
        assert(links.len() == 0);
        let gone = Set::new(|c: u64| oc.contains_key(c) && links.contains(Id(c)));
        assert(gone =~= Set::empty());
        lemma_detached_none(ob, oc, gone);
        assert(oc.remove_keys(gone) =~= oc);
        assert(t.blocks_view() == ob.remove(id.0));
        assert(gone_now =~= gone_before.insert(id.0)) by {
            assert forall|k: u64| gone_now.contains(k) implies gone_before.insert(id.0).contains(k) by {
                let j = choose|j: int| 0 <= j < i && vs[j].id.0 == k;
                if j < i - 1 {
                    assert(gone_before.contains(k));
                }
            }
            assert forall|k: u64| gone_before.insert(id.0).contains(k) implies gone_now.contains(k) by {
                if k == id.0 {
                    assert(vs[i - 1].id.0 == k);
                } else {
                    let j = choose|j: int| 0 <= j < i - 1 && vs[j].id.0 == k;
                    assert(0 <= j < i);
                }
            }
        }
        assert(placed.remove_keys(gone_now) =~= placed.remove_keys(gone_before).remove(id.0));
    }
}

/// Undoing the paste of blocks without wires, whose identifiers are
/// distinct and new to the plot, leaves the plot as it was.
pub proof fn lemma_undo_paste_blocks(d: PlotDescriptor, blocks: Vec<Block>, wires: Vec<Connection>, p: Plot, q: Plot, r: Plot)
    requires
        exec_effect(Action::PasteBlocks(d, blocks, wires), Action::PasteBlocks(d, blocks, wires), p, q),
        undo_effect(Action::PasteBlocks(d, blocks, wires), q, r),
        wires@.len() == 0,
        forall|i: int| 0 <= i < blocks@.len() ==> !p.blocks_view().contains_key((#[trigger] blocks@[i])@.id.0),
        forall|i: int|
            0 <= i < blocks@.len() ==> links_of((#[trigger] blocks@[i])@.inputs + blocks@[i]@.outputs).len() == 0
                && !blocks@[i]@.unique,
        forall|a: int, b: int| 0 <= a < b < blocks@.len() ==> (#[trigger] blocks@[a])@.id != (#[trigger] blocks@[b])@.id,
    ensures
        r.blocks_view() == p.blocks_view(),
        r.connections_view() == p.connections_view(),
{
    let bs = p.blocks_view();
    let cs = p.connections_view();
    let vs = views_of_blocks(blocks@);
    let placed = blocks_placed(cs, bs, vs);
    let ws = views_of_wires(wires@);
    // carrying out the paste only places the blocks
    let wsteps = choose|steps: Seq<(Map<u64, BlockView>, Map<u64, ConnView>)>| #[trigger]
        wire_chain(steps, placed, cs, ws, q.blocks_view(), q.connections_view());
    assert(ws.len() == 0);
    assert(q.blocks_view() == placed && q.connections_view() == cs);
    // undoing it deletes them one after another
    let m = choose|m: Plot| #[trigger]
        blocks_deleted(q, ids_of_blocks(blocks@), m) && wires_removed(m, ids_of_wires(wires@), r);
    let dsteps = choose|steps: Seq<Plot>| #[trigger] deletion_chain(steps, q, ids_of_blocks(blocks@), m);
    let rsteps = choose|steps: Seq<Plot>| #[trigger] removal_chain(steps, m, ids_of_wires(wires@), r);
    assert(ids_of_wires(wires@).len() == 0);
    assert(r.blocks_view() == m.blocks_view() && r.connections_view() == m.connections_view());
    assert forall|i: int| 0 <= i < vs.len() implies !bs.contains_key(#[trigger] vs[i].id.0) by {
        assert(vs[i] == blocks@[i]@);
    }
    lemma_placed_fresh(cs, bs, vs);
    let ids = ids_of_blocks(blocks@);
    assert forall|j: int| 0 <= j < vs.len() implies #[trigger] ids[j] == vs[j].id by {
        assert(vs[j] == blocks@[j]@);
    }
    assert forall|j: int| 0 <= j < vs.len() implies links_of((#[trigger] vs[j]).inputs + vs[j].outputs).len() == 0
        && !vs[j].unique by {
        assert(vs[j] == blocks@[j]@);
    }
    assert forall|a: int, b: int| 0 <= a < b < vs.len() implies (#[trigger] vs[a]).id != (#[trigger] vs[b]).id by {
        assert(vs[a] == blocks@[a]@);
        assert(vs[b] == blocks@[b]@);
    }
    assert forall|j: int| 0 <= j < vs.len() implies #[trigger] block_deleted(dsteps[j], ids[j], dsteps[j + 1]) by {
        assert(block_deleted(dsteps[j], ids_of_blocks(blocks@)[j], dsteps[j + 1]));
    }
    lemma_fresh_deletions(dsteps, vs, ids, placed, bs, cs, vs.len() as int);
    let gone = Set::new(|k: u64| exists|j: int| 0 <= j < vs.len() && vs[j].id.0 == k);
    assert(placed.remove_keys(gone) =~= bs) by {
        assert forall|k: u64| placed.remove_keys(gone).contains_key(k) implies bs.contains_key(k) by {
            if !bs.contains_key(k) {
                let j = choose|j: int| 0 <= j < vs.len() && vs[j].id.0 == k && placed[k] == vs[j];
                assert(gone.contains(k));
            }
        }
        assert forall|k: u64| bs.contains_key(k) implies placed.remove_keys(gone).contains_key(k) by {
            if gone.contains(k) {
                let j = choose|j: int| 0 <= j < vs.len() && vs[j].id.0 == k;
            }
        }
    }
}

/// `ids` lists, each once, the blocks of plot `p` that are instances of
/// module `name`.
pub open spec fn lists_instances(p: Plot, name: Seq<char>, ids: Seq<BlockID>) -> bool {
    &&& ids.no_duplicates()
    &&& forall|k: u64|
        (p.blocks_view().contains_key(k) && p.blocks_view()[k].name == name) <==> #[trigger] ids.contains(Id(k))
}

/// Plot `q` is plot `p` with every instance of module `name` deleted, one
/// after another.
pub open spec fn instances_deleted(p: Plot, name: Seq<char>, q: Plot) -> bool {
    exists|ids: Seq<BlockID>| #[trigger] lists_instances(p, name, ids) && blocks_deleted(p, ids, q)
}

/// Deletes every instance of module `name` from `plot`.
fn delete_instances(plot: &mut Plot, name: &String)
    requires
        old(plot).wf(),
        pins_bounded(old(plot).blocks_view()),
    ensures
        final(plot).wf(),
        pins_bounded(final(plot).blocks_view()),
        instances_deleted(*old(plot), name@, *final(plot)),
        final(plot).spec_selection() == old(plot).spec_selection(),
{
    let keys = keys_of(plot.blocks());
    let mut ids: Vec<BlockID> = Vec::new();
    let mut i: usize = 0;
    while i < keys.len()
        invariant
            0 <= i <= keys.len(),
            keys@.no_duplicates(),
            forall|k: u64| plot.blocks_view().contains_key(k) <==> keys@.contains(k),
            ids@.no_duplicates(),
            forall|k: u64|
                (keys@.subrange(0, i as int).contains(k) && plot.blocks_view()[k].name == name@) <==> #[trigger] ids@.contains(Id(k)),
        decreases keys.len() - i,
    {
        let k = keys[i];
        proof {
            assert(keys@[i as int] == k);
            assert(keys@.contains(k));
        }
        let block = plot.blocks().get(&k).unwrap();
        let ghost before = ids@;
        let ghost pre = keys@.subrange(0, i as int);
        proof {
            broadcast use vstd::seq_lib::group_seq_properties;
            assert(keys@.subrange(0, i + 1) =~= pre.push(k));
            assert(!pre.contains(k)) by {
                if pre.contains(k) {
                    let j = choose|j: int| 0 <= j < pre.len() && pre[j] == k;
                    assert(keys@[j] == keys@[i as int]);
                }
            }
        }
        if *block.name() == *name {
            ids.push(Id(k));
            proof {
                broadcast use vstd::seq_lib::group_seq_properties;
                assert(ids@ == before.push(Id(k)));
                assert(!before.contains(Id(k)));
                assert forall|x: u64| (keys@.subrange(0, i + 1).contains(x) && plot.blocks_view()[x].name == name@) <==> #[trigger] ids@.contains(Id(x)) by {
                    assert(keys@.subrange(0, i + 1).contains(x) <==> (pre.contains(x) || x == k));
                    assert(ids@.contains(Id(x)) <==> (before.contains(Id(x)) || Id(x) == Id(k)));
                }
            }
        } else {
            proof {
                broadcast use vstd::seq_lib::group_seq_properties;
                assert forall|x: u64| (keys@.subrange(0, i + 1).contains(x) && plot.blocks_view()[x].name == name@) <==> #[trigger] ids@.contains(Id(x)) by {
                    assert(keys@.subrange(0, i + 1).contains(x) <==> (pre.contains(x) || x == k));
                }
            }
        }
        i = i + 1;
    }
    proof {
        assert(keys@.subrange(0, keys@.len() as int) =~= keys@);
        lemma_blocks_deleted_start(*plot, ids@.subrange(0, 0));
    }
    let ghost all = ids@;
    let ghost p0 = *plot;
    let mut j: usize = 0;
    while j < ids.len()
        invariant
            0 <= j <= ids.len(),
            ids@ == all,
            plot.wf(),
            plot.spec_selection() == old(plot).spec_selection(),
            pins_bounded(plot.blocks_view()),
            blocks_deleted(p0, all.subrange(0, j as int), *plot),
        decreases ids.len() - j,
    {
        let ghost before = plot.blocks_view();
        let ghost m = *plot;
        let ghost prev = all.subrange(0, j as int);
        plot.delete_block(ids[j]);
        proof {
            lemma_pins_bounded_within(before, plot.blocks_view());
            assert(all.subrange(0, j + 1) =~= prev.push(all[j as int]));
            lemma_blocks_deleted_push(p0, prev, m, all[j as int], *plot);
        }
        j = j + 1;
    }
    proof {
        assert(all.subrange(0, all.len() as int) =~= all);
        assert(lists_instances(p0, name@, all));
    }
}


/// Plot `w` is the main plot or the plot of one of the first `i` modules
/// named in `names`.
pub open spec fn plot_among(w: Option<Seq<char>>, names: Seq<Seq<char>>, i: int) -> bool {
    match w {
        None => true,
        Some(s) => exists|j: int| 0 <= j < i && #[trigger] names[j] == s,
    }
}

/// Deletes module `name` from the circuits: every instance of it is deleted
/// from the main plot and from the plot of every module, and the action
/// that removes the module itself (a copy of it as it was) is returned for
/// the history to carry out. Without such a module nothing happens.
pub fn delete_module(project: &mut Project, name: &String) -> (action: Option<Action>)
    requires
        old(project).wf(),
    ensures
        final(project).wf(),
        names_of(final(project).spec_modules()) == names_of(old(project).spec_modules()),
        match find_index(old(project).spec_modules(), name@) {
            None => action is None && *final(project) == *old(project),
            Some(i) => {
                &&& action matches Some(Action::DeleteModule(m)) && m.module_wf() && m.spec_name() == name@
                    && m.spec_builtin() == old(project).spec_modules()[i].spec_builtin()
                    && m.spec_num_inputs() == old(project).spec_modules()[i].spec_num_inputs()
                    && m.spec_num_outputs() == old(project).spec_modules()[i].spec_num_outputs()
                    && (m.spec_custom() is Some == old(project).spec_modules()[i].spec_custom() is Some)
                &&& forall|w: Option<Seq<char>>|
                    #[trigger] plot_at(*final(project), w) is Some == plot_at(*old(project), w) is Some
                &&& forall|w: Option<Seq<char>>|
                    plot_at(*old(project), w) matches Some(p) ==> instances_deleted(
                        p,
                        name@,
                        #[trigger] plot_at(*final(project), w).unwrap(),
                    )
            },
        },
{
    let copy = match project.module(name) {
        Some(m) => m.clone(),
        None => {
            return None;
        },
    };
    let ghost p0 = *project;
    let ghost names = names_of(project.spec_modules());
    let mut plot = Plot::new();
    project.swap_plot(&PlotDescriptor::Main(), &mut plot);
    delete_instances(&mut plot, name);
    project.swap_plot(&PlotDescriptor::Main(), &mut plot);
    let n = project.modules().len();
    let mut i: usize = 0;
    while i < n
        invariant
            0 <= i <= n,
            n == names.len(),
            names == names_of(p0.spec_modules()),
            names_unique(p0.spec_modules()),
            project.wf(),
            names_of(project.spec_modules()) == names,
            forall|w: Option<Seq<char>>| #[trigger] plot_at(*project, w) is Some == plot_at(p0, w) is Some,
            forall|w: Option<Seq<char>>|
                plot_among(w, names, i as int) ==> (plot_at(p0, w) matches Some(p) ==> instances_deleted(
                    p,
                    name@,
                    #[trigger] plot_at(*project, w).unwrap(),
                )),
            forall|w: Option<Seq<char>>| !plot_among(w, names, i as int) ==> #[trigger] plot_at(*project, w) == plot_at(p0, w),
        decreases n - i,
    {
        let mname = project.modules()[i].name().clone();
        let ghost wi = Some(names[i as int]);
        proof {
            assert(names[i as int] == project.spec_modules()[i as int].spec_name());
            assert(!plot_among(wi, names, i as int)) by {
                if plot_among(wi, names, i as int) {
                    let j = choose|j: int| 0 <= j < i && #[trigger] names[j] == names[i as int];
                    assert(p0.spec_modules()[j].spec_name() != p0.spec_modules()[i as int].spec_name());
                }
            }
        }
        let d = PlotDescriptor::Module(mname);
        let ghost before = *project;
        let mut plot = Plot::new();
        if project.swap_plot(&d, &mut plot) {
            let ghost got = plot;
            delete_instances(&mut plot, name);
            let ghost mid = *project;
            let ghost edited = plot;
            proof {
                assert(which_plot(d) == wi);
                assert(plot_at(mid, wi) is Some);
            }
            let back = project.swap_plot(&d, &mut plot);
            proof {
                assert(back);
                assert(plot_at(*project, wi) == Some(edited));
                assert(plot_at(before, wi) == Some(got));
                assert forall|w: Option<Seq<char>>| w != wi implies #[trigger] plot_at(*project, w) == plot_at(before, w) by {
                    assert(plot_at(*project, w) == plot_at(mid, w));
                    assert(plot_at(mid, w) == plot_at(before, w));
                }
            }
        } else {
            proof {
                assert forall|w: Option<Seq<char>>| #[trigger] plot_at(*project, w) == plot_at(before, w) by {
                    if w != wi {
                    } else {
                        assert(plot_at(*project, w) is None);
                    }
                }
            }
        }
        proof {
            assert forall|w: Option<Seq<char>>| plot_among(w, names, i + 1) <==> (plot_among(w, names, i as int) || w == wi) by {
                match w {
                    None => {},
                    Some(s) => {
                        if plot_among(w, names, i + 1) && w != wi {
                            let j = choose|j: int| 0 <= j < i + 1 && #[trigger] names[j] == s;
                            assert(j != i);
                        }
                        if plot_among(w, names, i as int) {
                            let j = choose|j: int| 0 <= j < i && #[trigger] names[j] == s;
                            assert(0 <= j < i + 1 && names[j] == s);
                        }
                        if w == wi {
                            assert(names[i as int] == s);
                        }
                    },
                }
            }
        }
        i = i + 1;
    }
    proof {
        assert forall|w: Option<Seq<char>>| plot_at(p0, w) is Some implies plot_among(w, names, n as int) by {
            if let Some(s) = w {
                let j = find_index(p0.spec_modules(), s).unwrap();
                assert(names[j] == s);
            }
        }
    }
    Some(Action::DeleteModule(copy))
}

} // verus!
