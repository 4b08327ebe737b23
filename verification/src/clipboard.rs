use vstd::prelude::*;
use crate::id::Id;
use crate::block::{Block, BlockView};
use crate::connection::{BlockID, Connection, ConnectionID, ConnView, children_prune, conn_refactor};
use crate::block::rename_link;
use crate::id::is_hashed_uuid;
use crate::action::{ids_of_blocks, ids_of_wires};
use crate::modules::Module;
use crate::plot::{Plot, PlotDescriptor, unhighlighted, block_sels, block_selectables, blocks_of_selectables};
use crate::selection::{Selection, SelectionField, Selectable, SelView, sel_views, sel_blocks};
use crate::action::Action;
use crate::vector::Vector2;
use crate::project::{Project, plot_at, which_plot};

verus! {

/// What was copied or cut: blocks with the wires among them, or a module.
#[derive(Debug)]
pub enum Clipboard {
    Empty,
    Blocks(Vec<Block>, Vec<Connection>),
    Module(Module),
}

impl Default for Clipboard {
    fn default() -> (c: Self)
        ensures
            c is Empty,
    {
        Clipboard::Empty
    }
}

/// A copied output pin keeps its wire only when the wire still reaches a
/// copied block.
pub open spec fn copied_output(link: Option<ConnectionID>, sel: Seq<Id>, cs: Map<u64, ConnView>) -> Option<
    ConnectionID,
> {
    match link {
        Some(c) => if cs.contains_key(c.0) && children_prune(cs[c.0].segments, sel).len() == 0 {
            None
        } else {
            link
        },
        None => None,
    }
}

/// A copied input pin keeps its wire only when the wire comes from a
/// copied block.
pub open spec fn copied_input(link: Option<ConnectionID>, sel: Seq<Id>, cs: Map<u64, ConnView>) -> Option<
    ConnectionID,
> {
    match link {
        Some(c) => if cs.contains_key(c.0) && !sel.contains(cs[c.0].origin.spec_block_id()) {
            None
        } else {
            link
        },
        None => None,
    }
}

/// A block as it is copied along with the blocks `sel`.
pub open spec fn copied_block(b: BlockView, sel: Seq<Id>, cs: Map<u64, ConnView>) -> BlockView {
    BlockView {
        inputs: b.inputs.map_values(|l: Option<ConnectionID>| copied_input(l, sel, cs)),
        outputs: b.outputs.map_values(|l: Option<ConnectionID>| copied_output(l, sel, cs)),
        ..b
    }
}

/// The wires copied from output pins `links`: each existing wire cut down
/// to its branches that reach copied blocks, unless none is left.
pub open spec fn pin_wires(links: Seq<Option<ConnectionID>>, sel: Seq<Id>, cs: Map<u64, ConnView>) -> Seq<
    ConnView,
>
    decreases links.len(),
{
    if links.len() == 0 {
        seq![]
    } else {
        let rest = pin_wires(links.drop_last(), sel, cs);
        match links.last() {
            Some(c) => if cs.contains_key(c.0) && children_prune(cs[c.0].segments, sel).len() > 0 {
                rest.push(ConnView { segments: children_prune(cs[c.0].segments, sel), ..cs[c.0] })
            } else {
                rest
            },
            None => rest,
        }
    }
}

/// The wires copied from a list of blocks, block by block.
pub open spec fn copied_wires(bs: Seq<BlockView>, sel: Seq<Id>, cs: Map<u64, ConnView>) -> Seq<ConnView>
    decreases bs.len(),
{
    if bs.len() == 0 {
        seq![]
    } else {
        copied_wires(bs.drop_last(), sel, cs) + pin_wires(bs.last().outputs, sel, cs)
    }
}

/// The blocks among `ids` that exist and are not unique, in order.
pub open spec fn copyable(ids: Seq<BlockID>, bs: Map<u64, BlockView>) -> Seq<BlockView>
    decreases ids.len(),
{
    if ids.len() == 0 {
        seq![]
    } else {
        let rest = copyable(ids.drop_last(), bs);
        let k = ids.last().0;
        if bs.contains_key(k) && !bs[k].unique {
            rest.push(bs[k])
        } else {
            rest
        }
    }
}

pub open spec fn views_of_blocks(v: Seq<Block>) -> Seq<BlockView> {
    v.map_values(|b: Block| b@)
}

pub open spec fn views_of_wires(v: Seq<Connection>) -> Seq<ConnView> {
    v.map_values(|c: Connection| c@)
}

/// Whether `id` is among `ids`.
pub fn contains_id(ids: &Vec<Id>, id: Id) -> (b: bool)
    ensures
        b == ids@.contains(id),
{
    let mut i: usize = 0;
    while i < ids.len()
        invariant
            0 <= i <= ids.len(),
            forall|j: int| 0 <= j < i ==> ids@[j] != id,
        decreases ids.len() - i,
    {
        if ids[i] == id {
            return true;
        }
        i = i + 1;
    }
    false
}

/// Prepares copied blocks: each output pin keeps its wire (cut down to
/// the branches that reach copied blocks) only when some branch is left,
/// each input pin keeps its wire only when the wire comes from a copied
/// block; returns the cut-down wires.
fn prepare_copying(blocks: &mut Vec<Block>, plot: &Plot, block_ids: &Vec<BlockID>) -> (wires: Vec<Connection>)
    ensures
        views_of_blocks(final(blocks)@) == views_of_blocks(old(blocks)@).map_values(
            |b: BlockView| copied_block(b, block_ids@, plot.connections_view()),
        ),
        views_of_wires(wires@) == copied_wires(views_of_blocks(old(blocks)@), block_ids@, plot.connections_view()),
{
    let ghost cs = plot.connections_view();
    let ghost sel = block_ids@;
    let ghost orig = views_of_blocks(blocks@);
    let mut wires: Vec<Connection> = Vec::new();
    let mut i: usize = 0;
    while i < blocks.len()
        invariant
            0 <= i <= blocks.len(),
            cs == plot.connections_view(),
            sel == block_ids@,
            blocks@.len() == orig.len(),
            forall|x: int| 0 <= x < i ==> (#[trigger] blocks@[x])@ == copied_block(orig[x], sel, cs),
            forall|x: int| i <= x < blocks@.len() ==> (#[trigger] blocks@[x])@ == orig[x],
            views_of_wires(wires@) == copied_wires(orig.subrange(0, i as int), sel, cs),
        decreases blocks.len() - i,
    {
        let ghost b0 = blocks@[i as int]@;
        let outs = blocks[i].outputs();
        let mut new_outs: Vec<Option<ConnectionID>> = Vec::new();
        let ghost w0 = views_of_wires(wires@);
        let mut j: usize = 0;
        while j < outs.len()
            invariant
                0 <= j <= outs.len(),
                outs@ == b0.outputs,
                cs == plot.connections_view(),
                sel == block_ids@,
                new_outs@.len() == j,
                forall|x: int| 0 <= x < j ==> #[trigger] new_outs@[x] == copied_output(outs@[x], sel, cs),
                views_of_wires(wires@) == w0 + pin_wires(outs@.subrange(0, j as int), sel, cs),
            decreases outs.len() - j,
        {
            let link = outs[j];
            let ghost wb = views_of_wires(wires@);
            proof {
                assert(outs@.subrange(0, j + 1).drop_last() =~= outs@.subrange(0, j as int));
                assert(outs@.subrange(0, j + 1).last() == outs@[j as int]);
            }
            let mut kept = link;
            match link {
                Some(c) => match plot.get_connection(&c) {
                    Some(conn) => {
                        let mut copy = conn.clone();
                        let empty = copy.remove_unselected_branches(block_ids);
                        proof {
                            assert(cs.contains_key(c.0));
                            assert(cs[c.0] == conn@);
                        }
                        if empty {
                            kept = None;
                        } else {
                            wires.push(copy);
                        }
                        proof {
                            assert(views_of_wires(wires@) =~= if empty { wb } else { wb.push(copy@) });
                        }
                    },
                    None => {},
                },
                None => {},
            }
            new_outs.push(kept);
            j = j + 1;
            proof {
                assert(views_of_wires(wires@) =~= w0 + pin_wires(outs@.subrange(0, j as int), sel, cs));
            }
        }
        let ins = blocks[i].inputs();
        let mut new_ins: Vec<Option<ConnectionID>> = Vec::new();
        let mut j2: usize = 0;
        while j2 < ins.len()
            invariant
                0 <= j2 <= ins.len(),
                ins@ == b0.inputs,
                cs == plot.connections_view(),
                sel == block_ids@,
                new_ins@.len() == j2,
                forall|x: int| 0 <= x < j2 ==> #[trigger] new_ins@[x] == copied_input(ins@[x], sel, cs),
            decreases ins.len() - j2,
        {
            let link = ins[j2];
            let mut kept = link;
            match link {
                Some(c) => match plot.get_connection(&c) {
                    Some(conn) => {
                        proof {
                            assert(cs.contains_key(c.0));
                            assert(cs[c.0] == conn@);
                        }
                        if !contains_id(block_ids, conn.origin().block_id()) {
                            kept = None;
                        }
                    },
                    None => {},
                },
                None => {},
            }
            new_ins.push(kept);
            j2 = j2 + 1;
        }
        blocks[i].set_outputs(new_outs);
        blocks[i].set_inputs(new_ins);
        proof {
            assert(blocks@[i as int]@.outputs =~= b0.outputs.map_values(|l: Option<ConnectionID>| copied_output(l, sel, cs)));
            assert(blocks@[i as int]@.inputs =~= b0.inputs.map_values(|l: Option<ConnectionID>| copied_input(l, sel, cs)));
            assert(outs@.subrange(0, outs@.len() as int) =~= outs@);
            assert(orig.subrange(0, i + 1).drop_last() =~= orig.subrange(0, i as int));
            assert(orig.subrange(0, i + 1).last() == b0);
        }
        i = i + 1;
    }
    proof {
        assert(orig.subrange(0, orig.len() as int) =~= orig);
        assert(views_of_blocks(blocks@) =~= orig.map_values(|b: BlockView| copied_block(b, sel, cs)));
    }
    wires
}

impl Clipboard {
    /// Copies the selection of a plot: a single block without its wires,
    /// or the selected blocks (those that are not unique) with the wires
    /// among them. Anything else copies nothing.
    pub fn from_plot(plot: &Plot) -> (c: Clipboard)
        requires
            plot.wf(),
        ensures
            match plot.spec_selection() {
                Selection::Single(x, _) => if x@ is Block && plot.blocks_view().contains_key(x@->Block_0.0)
                    && !plot.blocks_view()[x@->Block_0.0].unique {
                    let id = x@->Block_0;
                    let b = plot.blocks_view()[id.0];
                    c matches Clipboard::Blocks(bs, ws) && ws@.len() == 0 && views_of_blocks(bs@) == seq![
                        BlockView {
                            inputs: Seq::new(b.inputs.len(), |i: int| None::<ConnectionID>),
                            outputs: Seq::new(b.outputs.len(), |i: int| None::<ConnectionID>),
                            ..b
                        },
                    ]
                } else {
                    c is Empty
                },
                Selection::Many(v) => {
                    let picked = copyable(sel_blocks(sel_views(v@)), plot.blocks_view());
                    let sel = picked.map_values(|b: BlockView| b.id);
                    c matches Clipboard::Blocks(bs, ws) && views_of_blocks(bs@) == picked.map_values(
                        |b: BlockView| copied_block(b, sel, plot.connections_view()),
                    ) && views_of_wires(ws@) == copied_wires(picked, sel, plot.connections_view())
                },
                _ => c is Empty,
            },
    {
        match plot.selection() {
            Selection::Single(Selectable::Block(id), _) => {
                match plot.get_block(*id) {
                    Some(block) => {
                        if !block.unique() {
                            let mut copy = block.clone();
                            copy.clear_connections();
                            let mut bs: Vec<Block> = Vec::new();
                            bs.push(copy);
                            proof {
                                assert(views_of_blocks(bs@) =~= seq![copy@]);
                            }
                            Clipboard::Blocks(bs, Vec::new())
                        } else {
                            Clipboard::Empty
                        }
                    },
                    None => Clipboard::Empty,
                }
            },
            Selection::Many(v) => {
                let ids = blocks_of_selectables(v);
                let ghost bsv = plot.blocks_view();
                let mut blocks: Vec<Block> = Vec::new();
                let mut block_ids: Vec<BlockID> = Vec::new();
                let mut i: usize = 0;
                while i < ids.len()
                    invariant
                        0 <= i <= ids.len(),
                        plot.wf(),
                        bsv == plot.blocks_view(),
                        views_of_blocks(blocks@) == copyable(ids@.subrange(0, i as int), bsv),
                        block_ids@ == copyable(ids@.subrange(0, i as int), bsv).map_values(|b: BlockView| b.id),
                    decreases ids.len() - i,
                {
                    let id = ids[i];
                    proof {
                        assert(ids@.subrange(0, i + 1).drop_last() =~= ids@.subrange(0, i as int));
                        assert(ids@.subrange(0, i + 1).last() == id);
                    }
                    match plot.get_block(id) {
                        Some(block) => {
                            if !block.unique() {
                                let copy = block.clone();
                                proof {
                                    assert(bsv.contains_key(id.0));
                                    assert(bsv[id.0] == block@);
                                    assert(block@.id.0 == id.0);
                                }
                                block_ids.push(block.id());
                                blocks.push(copy);
                            }
                        },
                        None => {},
                    }
                    proof {
                        assert(views_of_blocks(blocks@) =~= copyable(ids@.subrange(0, i + 1), bsv));
                        assert(block_ids@ =~= copyable(ids@.subrange(0, i + 1), bsv).map_values(|b: BlockView| b.id));
                    }
                    i = i + 1;
                }
                proof {
                    assert(ids@.subrange(0, ids@.len() as int) =~= ids@);
                }
                let wires = prepare_copying(&mut blocks, plot, &block_ids);
                Clipboard::Blocks(blocks, wires)
            },
            _ => Clipboard::Empty,
        }
    }
}

/// `a` comes before `b` (by x, then by y).
pub open spec fn position_before(a: Vector2<i32>, b: Vector2<i32>) -> bool {
    a.0 < b.0 || (a.0 == b.0 && a.1 < b.1)
}

/// The smallest of the positions (by x, then by y); the origin for none.
pub open spec fn min_position(ps: Seq<Vector2<i32>>) -> Vector2<i32>
    decreases ps.len(),
{
    if ps.len() == 0 {
        Vector2(0i32, 0i32)
    } else if ps.len() == 1 {
        ps[0]
    } else {
        let m = min_position(ps.drop_last());
        if position_before(ps.last(), m) {
            ps.last()
        } else {
            m
        }
    }
}

/// `a + b`, wrapping around on overflow.
pub open spec fn shifted(a: Vector2<i32>, b: Vector2<i32>) -> Vector2<i32> {
    Vector2(a.0.wrapping_add(b.0), a.1.wrapping_add(b.1))
}

/// `a - b`, wrapping around on overflow.
pub open spec fn offset_between(a: Vector2<i32>, b: Vector2<i32>) -> Vector2<i32> {
    Vector2(a.0.wrapping_sub(b.0), a.1.wrapping_sub(b.1))
}

/// Wire `w` after the blocks `olds` were renamed to `news`, one after
/// another.
pub open spec fn wire_after_renames(w: ConnView, olds: Seq<BlockID>, news: Seq<BlockID>) -> ConnView
    decreases olds.len(),
{
    if olds.len() == 0 {
        w
    } else {
        conn_refactor(wire_after_renames(w, olds.drop_last(), news.drop_last()), olds.last(), news.last())
    }
}

/// Block `b` after the wires `olds` were renamed to `news`, one after
/// another.
pub open spec fn block_after_renames(b: BlockView, olds: Seq<ConnectionID>, news: Seq<ConnectionID>) -> BlockView
    decreases olds.len(),
{
    if olds.len() == 0 {
        b
    } else {
        let p = block_after_renames(b, olds.drop_last(), news.drop_last());
        BlockView {
            inputs: p.inputs.map_values(|c: Option<ConnectionID>| rename_link(c, olds.last(), news.last())),
            outputs: p.outputs.map_values(|c: Option<ConnectionID>| rename_link(c, olds.last(), news.last())),
            ..p
        }
    }
}

proof fn lemma_wire_after_renames_id(w: ConnView, olds: Seq<BlockID>, news: Seq<BlockID>)
    ensures
        wire_after_renames(w, olds, news).id == w.id,
    decreases olds.len(),
{
    if olds.len() > 0 {
        lemma_wire_after_renames_id(w, olds.drop_last(), news.drop_last());
    }
}

/// Block `b` as it is pasted: identifier `id`, moved by `offset`,
/// highlighted, with the wires `olds` renamed to `news`.
pub open spec fn pasted_view(
    b: BlockView,
    id: BlockID,
    offset: Vector2<i32>,
    olds: Seq<ConnectionID>,
    news: Seq<ConnectionID>,
) -> BlockView {
    BlockView { id, position: shifted(b.position, offset), highlighted: true, ..block_after_renames(b, olds, news) }
}

/// The offset that moves the smallest position of `blocks` onto
/// `position`.
pub open spec fn paste_offset(blocks: Seq<Block>, position: Vector2<i32>) -> Vector2<i32> {
    offset_between(position, min_position(views_of_blocks(blocks).map_values(|b: BlockView| b.position)))
}

/// Moves pasted blocks so that the smallest of their positions lands on
/// `position`, highlights them, and gives every block and wire a new
/// random identifier, renaming the references among them block after
/// block and wire after wire.
pub fn prepare_pasting(blocks: &mut Vec<Block>, wires: &mut Vec<Connection>, position: Vector2<i32>)
    ensures
        final(blocks)@.len() == old(blocks)@.len(),
        final(wires)@.len() == old(wires)@.len(),
        forall|i: int|
            0 <= i < old(blocks)@.len() ==> (#[trigger] final(blocks)@[i])@ == pasted_view(
                old(blocks)@[i]@,
                final(blocks)@[i]@.id,
                paste_offset(old(blocks)@, position),
                ids_of_wires(old(wires)@),
                ids_of_wires(final(wires)@),
            ) && is_hashed_uuid(final(blocks)@[i]@.id.0),
        forall|j: int|
            0 <= j < old(wires)@.len() ==> (#[trigger] final(wires)@[j])@ == (ConnView {
                id: final(wires)@[j]@.id,
                ..wire_after_renames(old(wires)@[j]@, ids_of_blocks(old(blocks)@), ids_of_blocks(final(blocks)@))
            }) && is_hashed_uuid(final(wires)@[j]@.id.0),
{
    let ghost ob = blocks@;
    let ghost ow = wires@;
    let ghost ps = views_of_blocks(ob).map_values(|b: BlockView| b.position);
    let mut min = Vector2(0i32, 0i32);
    let mut k: usize = 0;
    while k < blocks.len()
        invariant
            0 <= k <= blocks.len(),
            blocks@ == ob,
            ps == views_of_blocks(ob).map_values(|b: BlockView| b.position),
            k > 0 ==> min == min_position(ps.subrange(0, k as int)),
            k == 0 ==> min == Vector2(0i32, 0i32),
        decreases blocks.len() - k,
    {
        let p = blocks[k].position();
        proof {
            assert(ps.subrange(0, k + 1).drop_last() =~= ps.subrange(0, k as int));
            assert(ps.subrange(0, k + 1).last() == p);
            assert(ps.subrange(0, k + 1).len() == k + 1);
            if k == 0 {
                assert(ps.subrange(0, 1)[0] == p);
            }
        }
        if k == 0 || p.0 < min.0 || (p.0 == min.0 && p.1 < min.1) {
            min = p;
        }
        k = k + 1;
    }
    proof {
        assert(ps.subrange(0, ps.len() as int) =~= ps);
        if ob.len() == 0 {
            assert(ps.len() == 0);
        }
    }
    let offset = Vector2(position.0.wrapping_sub(min.0), position.1.wrapping_sub(min.1));
    let mut i: usize = 0;
    while i < blocks.len()
        invariant
            0 <= i <= blocks.len(),
            blocks@.len() == ob.len(),
            wires@.len() == ow.len(),
            offset == paste_offset(ob, position),
            forall|x: int|
                0 <= x < i ==> (#[trigger] blocks@[x])@ == (BlockView {
                    id: blocks@[x]@.id,
                    position: shifted(ob[x]@.position, offset),
                    highlighted: true,
                    ..ob[x]@
                }) && is_hashed_uuid(blocks@[x]@.id.0),
            forall|x: int| i <= x < blocks@.len() ==> #[trigger] blocks@[x] == ob[x],
            forall|y: int|
                0 <= y < ow.len() ==> (#[trigger] wires@[y])@ == wire_after_renames(
                    ow[y]@,
                    ids_of_blocks(ob.subrange(0, i as int)),
                    ids_of_blocks(blocks@.subrange(0, i as int)),
                ),
        decreases blocks.len() - i,
    {
        let ghost pre = blocks@;
        let old_id = blocks[i].id();
        let new_id = Id::new();
        let p = blocks[i].position();

        blocks[i].set_id(new_id);

        blocks[i].set_position(Vector2(p.0.wrapping_add(offset.0), p.1.wrapping_add(offset.1)));

        blocks[i].set_highlighted(true);
        let ghost olds = ids_of_blocks(ob.subrange(0, i + 1));
        let ghost news = ids_of_blocks(blocks@.subrange(0, i + 1));
        let ghost bnow = blocks@;
        proof {
            assert(blocks@[i as int]@ == (BlockView {
                id: blocks@[i as int]@.id,
                position: shifted(ob[i as int]@.position, offset),
                highlighted: true,
                ..ob[i as int]@
            }));
            assert(is_hashed_uuid(blocks@[i as int]@.id.0));
            assert forall|x: int| 0 <= x < i implies #[trigger] blocks@[x] == pre[x] by {}
            assert(blocks@.subrange(0, i as int) =~= pre.subrange(0, i as int));
            assert(olds.drop_last() =~= ids_of_blocks(ob.subrange(0, i as int)));
            assert(news.drop_last() =~= ids_of_blocks(blocks@.subrange(0, i as int)));
            assert(olds.last() == old_id);
            assert(news.last() == new_id);
        }
        let mut j: usize = 0;
        while j < wires.len()
            invariant
                0 <= j <= wires.len(),
                wires@.len() == ow.len(),
                blocks@ == bnow,
                olds.len() == i + 1,
                news.len() == i + 1,
                olds.len() > 0,
                olds.last() == old_id,
                news.last() == new_id,
                forall|y: int|
                    0 <= y < j ==> (#[trigger] wires@[y])@ == wire_after_renames(ow[y]@, olds, news),
                forall|y: int|
                    j <= y < ow.len() ==> (#[trigger] wires@[y])@ == wire_after_renames(
                        ow[y]@,
                        olds.drop_last(),
                        news.drop_last(),
                    ),
            decreases wires.len() - j,
        {
            wires[j].refactor_id(old_id, new_id);
            j = j + 1;
        }
        i = i + 1;
    }
    proof {
        assert(ob.subrange(0, ob.len() as int) =~= ob);
        assert(blocks@.subrange(0, ob.len() as int) =~= blocks@);
    }
    let ghost nb = blocks@;
    let mut j: usize = 0;
    while j < wires.len()
        invariant
            0 <= j <= wires.len(),
            blocks@.len() == ob.len(),
            wires@.len() == ow.len(),
            ids_of_blocks(blocks@) == ids_of_blocks(nb),
            nb.len() == ob.len(),
            forall|x: int|
                0 <= x < ob.len() ==> (#[trigger] blocks@[x])@ == pasted_view(
                    ob[x]@,
                    nb[x]@.id,
                    offset,
                    ids_of_wires(ow.subrange(0, j as int)),
                    ids_of_wires(wires@.subrange(0, j as int)),
                ),
            forall|x: int| 0 <= x < ob.len() ==> is_hashed_uuid(#[trigger] nb[x]@.id.0),
            forall|y: int|
                0 <= y < j ==> (#[trigger] wires@[y])@ == (ConnView {
                    id: wires@[y]@.id,
                    ..wire_after_renames(ow[y]@, ids_of_blocks(ob), ids_of_blocks(nb))
                }) && is_hashed_uuid(wires@[y]@.id.0),
            forall|y: int|
                j <= y < ow.len() ==> (#[trigger] wires@[y])@ == wire_after_renames(
                    ow[y]@,
                    ids_of_blocks(ob),
                    ids_of_blocks(nb),
                ),
        decreases wires.len() - j,
    {
        let ghost pre = wires@;
        let old_id = wires[j].id();
        let new_id = Id::new();
        proof {
            lemma_wire_after_renames_id(ow[j as int]@, ids_of_blocks(ob), ids_of_blocks(nb));
        }
        wires[j].set_id(new_id);
        let ghost olds = ids_of_wires(ow.subrange(0, j + 1));
        let ghost news = ids_of_wires(wires@.subrange(0, j + 1));
        let ghost wnow = wires@;
        proof {
            assert(wires@.subrange(0, j as int) =~= pre.subrange(0, j as int));
            assert(olds.drop_last() =~= ids_of_wires(ow.subrange(0, j as int)));
            assert(news.drop_last() =~= ids_of_wires(wires@.subrange(0, j as int)));
            assert(olds.last() == old_id);
            assert(news.last() == new_id);
        }
        let mut x: usize = 0;
        while x < blocks.len()
            invariant
                0 <= x <= blocks.len(),
                blocks@.len() == ob.len(),
                wires@ == wnow,
                nb.len() == ob.len(),
                forall|y: int| 0 <= y < ob.len() ==> is_hashed_uuid(#[trigger] nb[y]@.id.0),
                olds.len() == j + 1,
                news.len() == j + 1,
                olds.len() > 0,
                olds.last() == old_id,
                news.last() == new_id,
                forall|y: int| 0 <= y < ob.len() ==> (#[trigger] blocks@[y])@.id == nb[y]@.id,
                forall|y: int|
                    0 <= y < x ==> (#[trigger] blocks@[y])@ == pasted_view(ob[y]@, nb[y]@.id, offset, olds, news),
                forall|y: int|
                    x <= y < ob.len() ==> (#[trigger] blocks@[y])@ == pasted_view(
                        ob[y]@,
                        nb[y]@.id,
                        offset,
                        olds.drop_last(),
                        news.drop_last(),
                    ),
            decreases blocks.len() - x,
        {
            blocks[x].replace_connection_id(old_id, new_id);
            x = x + 1;
        }
        proof {
            assert(ids_of_blocks(blocks@) =~= ids_of_blocks(nb));
        }
        j = j + 1;
    }
    proof {
        assert(ow.subrange(0, ow.len() as int) =~= ow);
        assert(wires@.subrange(0, ow.len() as int) =~= wires@);
    }
}

impl Clipboard {
    /// Turns copied blocks into an action that pastes them with their
    /// smallest position at `position`; the plot's selection becomes the
    /// pasted blocks. Only copied blocks can be pasted.
    pub fn paste_to(&self, project: &mut Project, descriptor: PlotDescriptor, position: Vector2<i32>) -> (r: Result<
        Action,
        String,
    >)
        requires
            *self is Blocks,
            old(project).wf(),
        ensures
            final(project).wf(),
            *self matches Clipboard::Blocks(obs, ows) && r matches Ok(Action::PasteBlocks(d, bs, ws)) && {
                &&& d == descriptor
                &&& bs@.len() == obs@.len()
                &&& ws@.len() == ows@.len()
                &&& forall|i: int|
                    0 <= i < obs@.len() ==> (#[trigger] bs@[i])@ == pasted_view(
                        obs@[i]@,
                        bs@[i]@.id,
                        paste_offset(obs@, position),
                        ids_of_wires(ows@),
                        ids_of_wires(ws@),
                    ) && is_hashed_uuid(bs@[i]@.id.0)
                &&& forall|j: int|
                    0 <= j < ows@.len() ==> (#[trigger] ws@[j])@ == (ConnView {
                        id: ws@[j]@.id,
                        ..wire_after_renames(ows@[j]@, ids_of_blocks(obs@), ids_of_blocks(bs@))
                    }) && is_hashed_uuid(ws@[j]@.id.0)
                &&& match plot_at(*old(project), which_plot(descriptor)) {
                    Some(p) => plot_at(*final(project), which_plot(descriptor)) matches Some(q) && unhighlighted(p, q)
                        && (q.spec_selection() matches Selection::Many(v) && sel_views(v@) == block_sels(
                        ids_of_blocks(bs@),
                    )),
                    None => plot_at(*final(project), which_plot(descriptor)) is None,
                }
            },
            forall|w: Option<Seq<char>>| w != which_plot(descriptor) ==> #[trigger] plot_at(*final(project), w)
                == plot_at(*old(project), w),
    {
        match self {
            Clipboard::Blocks(blocks, connections) => {
                let mut bs: Vec<Block> = Vec::new();
                let mut i: usize = 0;
                while i < blocks.len()
                    invariant
                        0 <= i <= blocks.len(),
                        bs@.len() == i,
                        forall|x: int| 0 <= x < i ==> (#[trigger] bs@[x])@ == blocks@[x]@,
                    decreases blocks.len() - i,
                {
                    bs.push(blocks[i].clone());
                    i = i + 1;
                }
                let mut ws: Vec<Connection> = Vec::new();
                let mut j: usize = 0;
                while j < connections.len()
                    invariant
                        0 <= j <= connections.len(),
                        ws@.len() == j,
                        forall|x: int| 0 <= x < j ==> (#[trigger] ws@[x])@ == connections@[x]@,
                    decreases connections.len() - j,
                {
                    ws.push(connections[j].clone());
                    j = j + 1;
                }
                let ghost obs = bs@;
                let ghost ows = ws@;
                proof {
                    assert(views_of_blocks(obs) =~= views_of_blocks(blocks@));
                    assert(ids_of_blocks(obs) =~= ids_of_blocks(blocks@));
                    assert(ids_of_wires(ows) =~= ids_of_wires(connections@));
                }
                prepare_pasting(&mut bs, &mut ws, position);
                let mut ids: Vec<BlockID> = Vec::new();
                let mut x: usize = 0;
                while x < bs.len()
                    invariant
                        0 <= x <= bs.len(),
                        ids@ == ids_of_blocks(bs@.subrange(0, x as int)),
                    decreases bs.len() - x,
                {
                    ids.push(bs[x].id());
                    proof {
                        assert(ids_of_blocks(bs@.subrange(0, x + 1)) =~= ids_of_blocks(bs@.subrange(0, x as int)).push(bs@[x as int]@.id));
                    }
                    x = x + 1;
                }
                proof {
                    assert(bs@.subrange(0, bs@.len() as int) =~= bs@);
                }
                let mut plot = Plot::new();
                if project.swap_plot(&descriptor, &mut plot) {
                    let ghost p = plot;
                    plot.unhighlight();
                    plot.set_selection(Selection::Many(block_selectables(&ids)));
                    proof {
                        assert(unhighlighted(p, plot));
                    }
                    project.swap_plot(&descriptor, &mut plot);
                }
                proof {
                    assert forall|i: int| 0 <= i < blocks@.len() implies (#[trigger] bs@[i])@ == pasted_view(
                        blocks@[i]@,
                        bs@[i]@.id,
                        paste_offset(blocks@, position),
                        ids_of_wires(connections@),
                        ids_of_wires(ws@),
                    ) by {
                        assert(obs[i]@ == blocks@[i]@);
                    }
                    assert forall|j: int| 0 <= j < connections@.len() implies (#[trigger] ws@[j])@ == (ConnView {
                        id: ws@[j]@.id,
                        ..wire_after_renames(connections@[j]@, ids_of_blocks(blocks@), ids_of_blocks(bs@))
                    }) by {
                        assert(ows[j]@ == connections@[j]@);
                    }
                }
                Ok(Action::PasteBlocks(descriptor, bs, ws))
            },
            _ => Ok(Action::PasteBlocks(descriptor, Vec::new(), Vec::new())),
        }
    }
}


/// A copied block keeps the wire on an input pin only when that wire
/// starts at a copied block: a pin linked to an existing wire from a block
/// that is not copied comes out free, while a pin linked to a wire from a
/// copied block keeps its link.
pub proof fn lemma_copied_inputs(b: BlockView, sel: Seq<Id>, cs: Map<u64, ConnView>, i: int)
    requires
        0 <= i < b.inputs.len(),
    ensures
        copied_block(b, sel, cs).inputs.len() == b.inputs.len(),
        b.inputs[i] matches Some(c) && cs.contains_key(c.0) && !sel.contains(cs[c.0].origin.spec_block_id())
            ==> copied_block(b, sel, cs).inputs[i] is None,
        b.inputs[i] matches Some(c) && cs.contains_key(c.0) && sel.contains(cs[c.0].origin.spec_block_id())
            ==> copied_block(b, sel, cs).inputs[i] == b.inputs[i],
        b.inputs[i] is None ==> copied_block(b, sel, cs).inputs[i] is None,
{
}

} // verus!
