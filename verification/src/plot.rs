use vstd::prelude::*;
use std::collections::{HashMap, HashSet};
use crate::id::Id;
use crate::vector::Vector2;
use crate::block::{Block, BlockView, links_of};
use crate::connection::{BlockID, ConnectionID, Connection, ConnView, Connector, Port, SegmentID, SegView, children_find, WaypointEdit, children_edit};
use crate::state::{PlotState, State, StateView, assoc_get, lemma_assoc_get_push};
use crate::selection::{Selection, SelectionField, Selectable, SelView, area_of, area_of_exec, selected_ids, sel_views, sel_blocks};
use crate::keys::{keys_of, elems_of};
use crate::project::{Project, names_of, find_index};
use crate::simulator::{SimResult, is_recursion_error, stack_has};
use crate::builtin::kind_of_name;
use crate::modules::{Module, modules_shape_same, lemma_modules_shape_trans};
use crate::block::{block_shape_same, block_ran, step_updates};
use crate::collect::{MAX_PINS, wires_view};
use crate::clipboard::views_of_wires;

verus! {

broadcast use vstd::std_specs::hash::group_hash_axioms;

/// Which plot of a project: the main circuit or the inside of a module.
#[derive(Debug, PartialEq, Eq)]
pub enum PlotDescriptor {
    Main(),
    Module(String),
}

impl Clone for PlotDescriptor {
    fn clone(&self) -> (d: Self)
        ensures
            d == *self,
    {
        match self {
            PlotDescriptor::Main() => PlotDescriptor::Main(),
            PlotDescriptor::Module(name) => PlotDescriptor::Module(name.clone()),
        }
    }
}

/// A circuit: blocks, the wires between them, a stack of state snapshots,
/// the current selection, and the blocks waiting to be simulated.
#[derive(Debug)]
pub struct Plot {
    blocks: HashMap<u64, Block>,
    connections: HashMap<u64, Connection>,
    states: Vec<PlotState>,
    selection: Selection,
    to_update: HashSet<u64>,
}

/// The pin a port names is a pin of a block of `blocks`.
pub open spec fn port_valid(blocks: Map<u64, BlockView>, p: Port) -> bool {
    let k = p.spec_block_id().0;
    &&& blocks.contains_key(k)
    &&& match p {
        Port::Input(_, i) => i < blocks[k].inputs.len(),
        Port::Output(_, i) => i < blocks[k].outputs.len(),
    }
}

/// The pin a port names is a pin of a block of `blocks`, if that block
/// exists.
pub open spec fn port_in_range(blocks: Map<u64, BlockView>, p: Port) -> bool {
    blocks.contains_key(p.spec_block_id().0) ==> port_valid(blocks, p)
}

pub open spec fn ports_valid(blocks: Map<u64, BlockView>, ps: Seq<Port>) -> bool {
    forall|i: int| 0 <= i < ps.len() ==> port_valid(blocks, #[trigger] ps[i])
}

/// The connector of a block that a port names.
pub open spec fn connector_of(p: Port) -> Connector {
    match p {
        Port::Input(_, i) => Connector::Input(i),
        Port::Output(_, i) => Connector::Output(i),
    }
}

/// The block with the pin of `p` attached to `link`.
pub open spec fn link_pin(b: BlockView, p: Port, link: Option<ConnectionID>) -> BlockView {
    match p {
        Port::Input(_, i) => BlockView { inputs: b.inputs.update(i as int, link), ..b },
        Port::Output(_, i) => BlockView { outputs: b.outputs.update(i as int, link), ..b },
    }
}

/// The blocks with the pins of `ps` attached to `link` (pins of blocks
/// that are missing are skipped).
pub open spec fn link_pins(blocks: Map<u64, BlockView>, ps: Seq<Port>, link: Option<ConnectionID>) -> Map<
    u64,
    BlockView,
>
    decreases ps.len(),
{
    if ps.len() == 0 {
        blocks
    } else {
        let before = link_pins(blocks, ps.drop_last(), link);
        let p = ps.last();
        let k = p.spec_block_id().0;
        if before.contains_key(k) {
            before.insert(k, link_pin(before[k], p, link))
        } else {
            before
        }
    }
}

/// Every wire names only existing pins of the blocks that exist.
pub open spec fn links_fit(blocks: Map<u64, BlockView>, conns: Map<u64, ConnView>) -> bool {
    forall|k: u64| #[trigger]
        conns.contains_key(k) ==> {
            let c = conns[k];
            &&& port_in_range(blocks, c.origin)
            &&& forall|i: int|
                0 <= i < c.destinations().len() ==> port_in_range(
                    blocks,
                    #[trigger] c.destinations()[i],
                )
        }
}

/// The same blocks with the same pin counts.
pub open spec fn same_pins(a: Map<u64, BlockView>, b: Map<u64, BlockView>) -> bool {
    &&& a.dom() == b.dom()
    &&& forall|k: u64| #[trigger]
        a.contains_key(k) ==> a[k].inputs.len() == b[k].inputs.len() && a[k].outputs.len()
            == b[k].outputs.len()
}

pub proof fn lemma_links_fit_same_pins(
    a: Map<u64, BlockView>,
    b: Map<u64, BlockView>,
    conns: Map<u64, ConnView>,
)
    requires
        links_fit(a, conns),
        same_pins(a, b),
    ensures
        links_fit(b, conns),
{
    assert forall|k: u64| #[trigger] conns.contains_key(k) implies {
        let c = conns[k];
        &&& port_in_range(b, c.origin)
        &&& forall|i: int|
            0 <= i < c.destinations().len() ==> port_in_range(b, #[trigger] c.destinations()[i])
    } by {
        let c = conns[k];
        assert(port_in_range(a, c.origin));
        assert forall|i: int| 0 <= i < c.destinations().len() implies port_in_range(
            b,
            #[trigger] c.destinations()[i],
        ) by {
            assert(port_in_range(a, c.destinations()[i]));
        }
    }
}


/// Every block has at most `MAX_PINS` pins on each side, so that its
/// signals fit in a `u128`.
pub open spec fn pins_bounded(bs: Map<u64, BlockView>) -> bool {
    forall|k: u64| #[trigger]
        bs.contains_key(k) ==> bs[k].inputs.len() <= crate::collect::MAX_PINS && bs[k].outputs.len()
            <= crate::collect::MAX_PINS
}


/// Every block and wire is stored under its own identifier, and every
/// wire names only existing pins of the blocks that exist.
pub open spec fn views_wf(bs: Map<u64, BlockView>, cs: Map<u64, ConnView>) -> bool {
    &&& forall|k: u64| #[trigger] bs.contains_key(k) ==> bs[k].id.0 == k
    &&& forall|k: u64| #[trigger] cs.contains_key(k) ==> cs[k].id.0 == k
    &&& links_fit(bs, cs)
}

/// The same blocks, up to their dynamic state (bytes, decoration state,
/// stored state).
pub open spec fn same_shape(a: Map<u64, BlockView>, b: Map<u64, BlockView>) -> bool {
    &&& a.dom() == b.dom()
    &&& forall|k: u64| #[trigger] a.contains_key(k) ==> crate::block::block_shape_same(a[k], b[k])
}

pub proof fn lemma_views_wf_same_shape(
    ob: Map<u64, BlockView>,
    oc: Map<u64, ConnView>,
    bs: Map<u64, BlockView>,
    cs: Map<u64, ConnView>,
)
    requires
        views_wf(ob, oc),
        same_shape(ob, bs),
        same_wires(oc, cs),
    ensures
        views_wf(bs, cs),
        same_pins(ob, bs),
{
    assert(same_pins(ob, bs));
    lemma_links_fit_same_pins(ob, bs, oc);
    lemma_links_fit_same_wires(bs, oc, cs);
}


pub proof fn lemma_same_shape_trans(a: Map<u64, BlockView>, b: Map<u64, BlockView>, c: Map<u64, BlockView>)
    requires
        same_shape(a, b),
        same_shape(b, c),
    ensures
        same_shape(a, c),
{
    assert forall|k: u64| #[trigger] a.contains_key(k) implies block_shape_same(a[k], c[k]) by {
        assert(b.contains_key(k));
    }
}

pub proof fn lemma_pins_bounded_same_shape(a: Map<u64, BlockView>, b: Map<u64, BlockView>)
    requires
        same_shape(a, b),
        pins_bounded(a),
    ensures
        pins_bounded(b),
{
    assert forall|k: u64| #[trigger] b.contains_key(k) implies b[k].inputs.len() <= MAX_PINS
        && b[k].outputs.len() <= MAX_PINS by {
        assert(a.contains_key(k));
    }
}

pub proof fn lemma_applied_same_shape(bs: Map<u64, BlockView>, saved: Seq<(u64, StateView)>)
    ensures
        same_shape(bs, applied_blocks(bs, saved)),
{
    assert(applied_blocks(bs, saved).dom() =~= bs.dom());
}


/// A port that names block `k` names one of the pins of `b`.
pub open spec fn port_fits(p: Port, k: u64, b: BlockView) -> bool {
    p.spec_block_id().0 == k ==> match p {
        Port::Input(_, i) => i < b.inputs.len(),
        Port::Output(_, i) => i < b.outputs.len(),
    }
}

/// Every wire that names block `k` names pins of `b`.
pub open spec fn wires_fit(cs: Map<u64, ConnView>, k: u64, b: BlockView) -> bool {
    forall|c: u64| #[trigger]
        cs.contains_key(c) ==> port_fits(cs[c].origin, k, b) && forall|i: int|
            0 <= i < cs[c].destinations().len() ==> port_fits(#[trigger] cs[c].destinations()[i], k, b)
}

pub proof fn lemma_wires_fit_links_fit(bs: Map<u64, BlockView>, cs: Map<u64, ConnView>, k: u64, b: BlockView)
    requires
        links_fit(bs, cs),
        wires_fit(cs, k, b),
    ensures
        links_fit(bs.insert(k, b), cs),
{
    let nb = bs.insert(k, b);
    assert forall|c: u64| #[trigger] cs.contains_key(c) implies {
        let w = cs[c];
        &&& port_in_range(nb, w.origin)
        &&& forall|i: int| 0 <= i < w.destinations().len() ==> port_in_range(nb, #[trigger] w.destinations()[i])
    } by {
        let w = cs[c];
        assert(port_in_range(bs, w.origin));
        assert(port_fits(w.origin, k, b));
        assert forall|i: int| 0 <= i < w.destinations().len() implies port_in_range(nb, #[trigger] w.destinations()[i]) by {
            assert(port_in_range(bs, w.destinations()[i]));
            assert(port_fits(w.destinations()[i], k, b));
        }
    }
}

fn port_fits_exec(p: Port, k: u64, b: &Block) -> (r: bool)
    ensures
        r == port_fits(p, k, b@),
{
    if p.block_id().0 != k {
        return true;
    }
    match p {
        Port::Input(_, i) => (i as usize) < b.inputs().len(),
        Port::Output(_, i) => (i as usize) < b.outputs().len(),
    }
}


/// The wires of `oc` that `links` names, in order and each once, switched
/// off.
pub open spec fn wires_named(links: Seq<ConnectionID>, oc: Map<u64, ConnView>) -> Seq<ConnView>
    decreases links.len(),
{
    if links.len() == 0 {
        seq![]
    } else {
        let rest = wires_named(links.drop_last(), oc);
        let c = links.last();
        if oc.contains_key(c.0) && !links.drop_last().contains(c) {
            rest.push(ConnView { active: false, ..oc[c.0] })
        } else {
            rest
        }
    }
}

/// `removed` lists, switched off, exactly the wires of `before` that are
/// missing from `after`.
pub open spec fn removed_wires(before: Map<u64, ConnView>, after: Map<u64, ConnView>, removed: Seq<Connection>) -> bool {
    &&& forall|i: int|
        0 <= i < removed.len() ==> before.contains_key((#[trigger] removed[i])@.id.0) && !after.contains_key(
            removed[i]@.id.0,
        ) && removed[i]@ == (ConnView { active: false, ..before[removed[i]@.id.0] })
    &&& forall|c: u64| #[trigger]
        before.contains_key(c) && !after.contains_key(c) ==> exists|i: int|
            0 <= i < removed.len() && removed[i]@.id.0 == c
}

/// `q` is plot `p` with a snapshot of its states pushed on its stack.
pub open spec fn state_pushed(p: Plot, q: Plot) -> bool {
    &&& q.spec_states().len() == p.spec_states().len() + 1
    &&& q.spec_states().drop_last() == p.spec_states()
    &&& snapshot_of_blocks(q.spec_states().last().spec_blocks(), p.blocks_view())
    &&& snapshot_of_connections(q.spec_states().last().spec_connections(), p.connections_view())
    &&& q.spec_blocks() == p.spec_blocks()
    &&& q.spec_connections() == p.spec_connections()
    &&& q.spec_to_update() == p.spec_to_update()
    &&& q.spec_selection() == p.spec_selection()
}

/// `q` is plot `p` with the latest snapshot taken off its stack and its
/// states put back (nothing changes when the stack is empty).
pub open spec fn state_popped(p: Plot, q: Plot) -> bool {
    &&& p.spec_states().len() == 0 ==> q.spec_states() == p.spec_states() && q.spec_blocks() == p.spec_blocks()
        && q.spec_connections() == p.spec_connections()
    &&& p.spec_states().len() > 0 ==> {
        let s = p.spec_states().last();
        &&& q.spec_states() == p.spec_states().drop_last()
        &&& q.blocks_view() == applied_blocks(p.blocks_view(), s.spec_blocks())
        &&& q.connections_view() == applied_connections(p.connections_view(), s.spec_connections())
    }
    &&& q.spec_to_update() == p.spec_to_update()
    &&& q.spec_selection() == p.spec_selection()
}

/// Every block of `bs` is an instance of a predefined module of `ms`, or
/// names no module of `ms` while its name is not on `stack`: simulating
/// such blocks cannot fail.
pub open spec fn only_simple_blocks(bs: Map<u64, BlockView>, ms: Seq<Module>, stack: Seq<String>) -> bool {
    forall|k: u64| #[trigger]
        bs.contains_key(k) ==> match find_index(ms, bs[k].name) {
            Some(i) => ms[i].spec_builtin() && kind_of_name(ms[i].spec_name()) is Some,
            None => !stack_has(stack, bs[k].name),
        }
}

/// Blocks of the same shape have the same names, so what
/// `only_simple_blocks` says of one it says of the other.
pub proof fn lemma_only_simple_same_shape(
    a: Map<u64, BlockView>,
    b: Map<u64, BlockView>,
    ms: Seq<Module>,
    stack: Seq<String>,
)
    requires
        same_shape(a, b),
        only_simple_blocks(a, ms, stack),
    ensures
        only_simple_blocks(b, ms, stack),
{
    assert forall|k: u64| #[trigger] b.contains_key(k) implies match find_index(ms, b[k].name) {
        Some(i) => ms[i].spec_builtin() && kind_of_name(ms[i].spec_name()) is Some,
        None => !stack_has(stack, b[k].name),
    } by {
        assert(a.contains_key(k));
        assert(a[k].name == b[k].name);
    }
}

/// One block step: block `id` of blocks `bs` runs against wires `cs` and
/// puts `out` on its output pins (see `block_ran`), giving blocks `bs2` and
/// wires `cs2`; no other block changes.
pub open spec fn block_step(
    ms: Seq<Module>,
    bs: Map<u64, BlockView>,
    cs: Map<u64, ConnView>,
    id: u64,
    out: u128,
    bs2: Map<u64, BlockView>,
    cs2: Map<u64, ConnView>,
) -> bool {
    &&& bs.contains_key(id)
    &&& bs2 == bs.insert(id, bs2[id])
    &&& block_ran(ms, bs[id], cs, out, bs2[id], cs2)
}

/// Step `t` of a run: block `ids[t]` takes the plot from state `t` to
/// state `t + 1`.
pub open spec fn step_at(
    ms: Seq<Module>,
    ids: Seq<u64>,
    outs: Seq<u128>,
    bss: Seq<Map<u64, BlockView>>,
    css: Seq<Map<u64, ConnView>>,
    t: int,
) -> bool {
    block_step(ms, bss[t], css[t], ids[t], outs[t], bss[t + 1], css[t + 1])
}

/// How many steps of `ids` run block `k`.
pub open spec fn runs_of(ids: Seq<u64>, k: u64) -> nat
    decreases ids.len(),
{
    if ids.len() == 0 {
        0
    } else {
        runs_of(ids.drop_last(), k) + if ids.last() == k {
            1nat
        } else {
            0nat
        }
    }
}

proof fn lemma_runs_of_push(ids: Seq<u64>, x: u64)
    ensures
        forall|k: u64| #[trigger] runs_of(ids.push(x), k) == runs_of(ids, k) + if x == k {
            1nat
        } else {
            0nat
        },
{
    assert(ids.push(x).drop_last() =~= ids);
}

/// Block `k` runs at a step after step `t`.
pub open spec fn later(ids: Seq<u64>, t: int, k: u64) -> bool {
    exists|t2: int| t < t2 < ids.len() && #[trigger] ids[t2] == k
}

/// `k` is among the entries of `v` from position `j` on.
pub open spec fn rest_has(v: Seq<u64>, j: int, k: u64) -> bool {
    exists|jj: int| j <= jj < v.len() && #[trigger] v[jj] == k
}

/// States `bss`/`css` of a run of steps `ids` with outputs `outs` lead
/// from blocks `b0` and wires `c0` to blocks `b1` and wires `c1`.
pub open spec fn trace_shape(
    ids: Seq<u64>,
    outs: Seq<u128>,
    bss: Seq<Map<u64, BlockView>>,
    css: Seq<Map<u64, ConnView>>,
    b0: Map<u64, BlockView>,
    c0: Map<u64, ConnView>,
    b1: Map<u64, BlockView>,
    c1: Map<u64, ConnView>,
) -> bool {
    &&& outs.len() == ids.len()
    &&& bss.len() == ids.len() + 1
    &&& css.len() == ids.len() + 1
    &&& bss[0] == b0
    &&& css[0] == c0
    &&& bss.last() == b1
    &&& css.last() == c1
}

/// A run of block steps `ids` (with outputs `outs`) through the states
/// `bss`/`css`, from blocks `b0` and wires `c0` to blocks `b1` and wires
/// `c1`. Every block of the plot that was waiting in `waiting` runs; every
/// block of the plot that a step sends an update runs at a later step or
/// is still waiting in `left`. No block runs more than `RECURSION_CAP + 1`
/// times, and a block left waiting ran that often.
pub open spec fn run_steps(
    ms: Seq<Module>,
    ids: Seq<u64>,
    outs: Seq<u128>,
    bss: Seq<Map<u64, BlockView>>,
    css: Seq<Map<u64, ConnView>>,
    b0: Map<u64, BlockView>,
    c0: Map<u64, ConnView>,
    waiting: Set<u64>,
    b1: Map<u64, BlockView>,
    c1: Map<u64, ConnView>,
    left: Set<u64>,
) -> bool {
    &&& trace_shape(ids, outs, bss, css, b0, c0, b1, c1)
    &&& forall|t: int| 0 <= t < ids.len() ==> #[trigger] step_at(ms, ids, outs, bss, css, t)
    &&& forall|k: u64| #[trigger] waiting.contains(k) && b0.contains_key(k) ==> ids.contains(k)
    &&& forall|t: int, k: u64|
        0 <= t < ids.len() && b0.contains_key(k) && #[trigger] step_updates(ms, bss[t][ids[t]], outs[t], css[t]).contains(k)
            ==> left.contains(k) || later(ids, t, k)
    &&& forall|k: u64| #[trigger] runs_of(ids, k) <= RECURSION_CAP + 1
    &&& forall|k: u64| #[trigger] left.contains(k) ==> runs_of(ids, k) == RECURSION_CAP + 1
}

proof fn lemma_contains_push_kept(a: Seq<u64>, b: Seq<u64>, k: u64)
    requires
        a.contains(k),
        b == a || (b.len() == a.len() + 1 && b.subrange(0, a.len() as int) == a),
    ensures
        b.contains(k),
{
    if b != a {
        let i = choose|i: int| 0 <= i < a.len() && a[i] == k;
        assert(b.subrange(0, a.len() as int)[i] == b[i]);
    }
}

/// Adding a step to a run keeps the steps before it.
proof fn lemma_trace_push(
    ms: Seq<Module>,
    ids: Seq<u64>,
    outs: Seq<u128>,
    bss: Seq<Map<u64, BlockView>>,
    css: Seq<Map<u64, ConnView>>,
    id: u64,
    out: u128,
    b2: Map<u64, BlockView>,
    c2: Map<u64, ConnView>,
)
    requires
        outs.len() == ids.len(),
        bss.len() == ids.len() + 1,
        css.len() == ids.len() + 1,
        forall|t: int| 0 <= t < ids.len() ==> #[trigger] step_at(ms, ids, outs, bss, css, t),
        block_step(ms, bss.last(), css.last(), id, out, b2, c2),
    ensures
        forall|t: int|
            0 <= t < ids.len() + 1 ==> #[trigger] step_at(ms, ids.push(id), outs.push(out), bss.push(b2), css.push(c2), t),
{
    assert forall|t: int| 0 <= t < ids.len() + 1 implies #[trigger] step_at(
        ms,
        ids.push(id),
        outs.push(out),
        bss.push(b2),
        css.push(c2),
        t,
    ) by {
        if t < ids.len() {
            assert(step_at(ms, ids, outs, bss, css, t));
            assert(ids.push(id)[t] == ids[t]);
            assert(outs.push(out)[t] == outs[t]);
            assert(bss.push(b2)[t] == bss[t]);
            assert(bss.push(b2)[t + 1] == bss[t + 1]);
            assert(css.push(c2)[t] == css[t]);
            assert(css.push(c2)[t + 1] == css[t + 1]);
        } else {
            assert(bss.push(b2)[t] == bss.last());
            assert(css.push(c2)[t] == css.last());
        }
    }
}

/// What is owed after entry `j` of a batch `v` was handled: the run went
/// from `ids0` to `ids1` (the same, or one step of block `v[j]` more whose
/// updates are waiting in `tu1`), waiting blocks `tu0`/`q0` only grew to
/// `tu1`/`q1`, and `v[j]`, if a block of the plot, ran or was deferred.
proof fn lemma_inner_obligations(
    ms: Seq<Module>,
    ob: Map<u64, BlockView>,
    w0: Set<u64>,
    v: Seq<u64>,
    j: int,
    ids0: Seq<u64>,
    outs0: Seq<u128>,
    bss0: Seq<Map<u64, BlockView>>,
    css0: Seq<Map<u64, ConnView>>,
    ids1: Seq<u64>,
    outs1: Seq<u128>,
    bss1: Seq<Map<u64, BlockView>>,
    css1: Seq<Map<u64, ConnView>>,
    tu0: Set<u64>,
    tu1: Set<u64>,
    q0: Set<u64>,
    q1: Set<u64>,
)
    requires
        0 <= j < v.len(),
        outs0.len() == ids0.len(),
        bss0.len() == ids0.len() + 1,
        css0.len() == ids0.len() + 1,
        tu0.subset_of(tu1),
        q0.subset_of(q1),
        (ids1 == ids0 && outs1 == outs0 && bss1 == bss0 && css1 == css0) || (ids1 == ids0.push(v[j])
            && outs1.len() == ids1.len() && outs1.subrange(0, ids0.len() as int) == outs0
            && bss1.len() == bss0.len() + 1 && bss1.subrange(0, bss0.len() as int) == bss0
            && css1.len() == css0.len() + 1 && css1.subrange(0, css0.len() as int) == css0
            && step_updates(ms, bss0.last()[v[j]], outs1.last(), css0.last()).subset_of(tu1)),
        ob.contains_key(v[j]) && ids1 == ids0 ==> q1.contains(v[j]) && ids0.contains(v[j]),
        forall|k: u64| #[trigger] w0.contains(k) && ob.contains_key(k) ==> ids0.contains(k) || tu0.contains(k)
            || rest_has(v, j, k),
        forall|t: int, k: u64|
            0 <= t < ids0.len() && ob.contains_key(k) && #[trigger] step_updates(ms, bss0[t][ids0[t]], outs0[t], css0[t]).contains(k)
                ==> tu0.contains(k) || q0.contains(k) || later(ids0, t, k) || rest_has(v, j, k),
    ensures
        forall|k: u64| #[trigger] w0.contains(k) && ob.contains_key(k) ==> ids1.contains(k) || tu1.contains(k)
            || rest_has(v, j + 1, k),
        forall|t: int, k: u64|
            0 <= t < ids1.len() && ob.contains_key(k) && #[trigger] step_updates(ms, bss1[t][ids1[t]], outs1[t], css1[t]).contains(k)
                ==> tu1.contains(k) || q1.contains(k) || later(ids1, t, k) || rest_has(v, j + 1, k),
{
    let grew = ids1 != ids0;
    assert forall|k: u64| #[trigger] w0.contains(k) && ob.contains_key(k) implies ids1.contains(k) || tu1.contains(k)
        || rest_has(v, j + 1, k) by {
        if ids0.contains(k) {
            if grew {
                assert(ids1.subrange(0, ids0.len() as int) =~= ids0);
            }
            lemma_contains_push_kept(ids0, ids1, k);
        } else if !tu0.contains(k) {
            let jj = choose|jj: int| j <= jj < v.len() && #[trigger] v[jj] == k;
            if jj == j {
                if grew {
                    assert(ids1[ids0.len() as int] == k);
                }
            } else {
                assert(rest_has(v, j + 1, k));
            }
        }
    }
    assert forall|t: int, k: u64|
        0 <= t < ids1.len() && ob.contains_key(k) && #[trigger] step_updates(ms, bss1[t][ids1[t]], outs1[t], css1[t]).contains(k)
            implies tu1.contains(k) || q1.contains(k) || later(ids1, t, k) || rest_has(v, j + 1, k) by {
        if t < ids0.len() {
            if grew {
                assert(ids1[t] == ids0[t]);
                assert(outs1.subrange(0, ids0.len() as int)[t] == outs1[t]);
                assert(bss1.subrange(0, bss0.len() as int)[t] == bss1[t]);
                assert(css1.subrange(0, css0.len() as int)[t] == css1[t]);
            }
            assert(step_updates(ms, bss0[t][ids0[t]], outs0[t], css0[t]).contains(k));
            if later(ids0, t, k) {
                let t2 = choose|t2: int| t < t2 < ids0.len() && #[trigger] ids0[t2] == k;
                if grew {
                    assert(ids1[t2] == ids0[t2]);
                }
                assert(later(ids1, t, k));
            } else if rest_has(v, j, k) && !tu0.contains(k) && !q0.contains(k) {
                let jj = choose|jj: int| j <= jj < v.len() && #[trigger] v[jj] == k;
                if jj == j {
                    if grew {
                        assert(ids1[ids0.len() as int] == k);
                        assert(later(ids1, t, k));
                    }
                } else {
                    assert(rest_has(v, j + 1, k));
                }
            }
        } else {
            assert(grew);
            assert(t == ids0.len());
            assert(bss1[t] == bss0.last());
            assert(css1[t] == css0.last());
            assert(ids1[t] == v[j]);
        }
    }
}

/// What a simulation run of plot `p` against the modules `ms`, with result
/// `r`, leaves, as `q`: blocks and wires keep their shape (only states and
/// signals change), snapshots and selection stay; a successful run reports
/// whether blocks were waiting, leaves only blocks of the plot waiting,
/// and is a sequence of block steps (see `run_steps`) from `p` to `q`; a
/// run with nothing waiting changes nothing; a failure is a recursion
/// error.
pub open spec fn plot_run(p: Plot, ms: Seq<Module>, r: SimResult<bool>, q: Plot) -> bool {
    &&& same_shape(p.blocks_view(), q.blocks_view())
    &&& same_wires(p.connections_view(), q.connections_view())
    &&& q.spec_states() == p.spec_states()
    &&& q.spec_selection() == p.spec_selection()
    &&& r matches Ok(changes) ==> changes == (p.spec_to_update().len() > 0) && q.spec_to_update().subset_of(
        p.blocks_view().dom(),
    )
    &&& p.spec_to_update().len() == 0 ==> {
        &&& r == SimResult::<bool>::Ok(false)
        &&& q.blocks_view() == p.blocks_view()
        &&& q.connections_view() == p.connections_view()
        &&& q.spec_to_update().len() == 0
    }
    &&& r matches Err(e) ==> is_recursion_error(e@)
    &&& r is Ok ==> exists|
        ids: Seq<u64>,
        outs: Seq<u128>,
        bss: Seq<Map<u64, BlockView>>,
        css: Seq<Map<u64, ConnView>>,
    |
        #[trigger] run_steps(
            ms,
            ids,
            outs,
            bss,
            css,
            p.blocks_view(),
            p.connections_view(),
            p.spec_to_update(),
            q.blocks_view(),
            q.connections_view(),
            q.spec_to_update(),
        )
}

/// The wires with the waypoint at `path` of wire `c` changed by `e`
/// (nothing changes when there is no such wire).
pub open spec fn wires_edited(cs: Map<u64, ConnView>, c: u64, path: Seq<Id>, e: WaypointEdit) -> Map<u64, ConnView> {
    if cs.contains_key(c) {
        cs.insert(c, ConnView { segments: children_edit(cs[c].segments, path, e), ..cs[c] })
    } else {
        cs
    }
}

/// The wires with the highlight taken off each waypoint among the
/// selected items `vs`, in order.
pub open spec fn wires_unmarked(cs: Map<u64, ConnView>, vs: Seq<SelView>) -> Map<u64, ConnView>
    decreases vs.len(),
{
    if vs.len() == 0 {
        cs
    } else {
        let before = wires_unmarked(cs, vs.drop_last());
        match vs.last() {
            SelView::Waypoint(c, path) => wires_edited(before, c.0, path, WaypointEdit::Highlight(false)),
            _ => before,
        }
    }
}

/// The selected items for a list of blocks.
pub open spec fn block_sels(ids: Seq<BlockID>) -> Seq<SelView> {
    ids.map_values(|i: BlockID| SelView::Block(i))
}

pub proof fn lemma_block_sels(ids: Seq<BlockID>)
    ensures
        forall|x: SelView| #[trigger] block_sels(ids).contains(x) <==> (x matches SelView::Block(b) && ids.contains(b)),
        ids.no_duplicates() ==> block_sels(ids).no_duplicates(),
        sel_blocks(block_sels(ids)) == ids,
    decreases ids.len(),
{
    let bs = block_sels(ids);
    assert forall|x: SelView| #[trigger] bs.contains(x) <==> (x matches SelView::Block(b) && ids.contains(b)) by {
        if bs.contains(x) {
            let j = choose|j: int| 0 <= j < bs.len() && bs[j] == x;
            assert(ids[j] == x->Block_0);
        }
        if x is Block && ids.contains(x->Block_0) {
            let b = x->Block_0;
            let j = choose|j: int| 0 <= j < ids.len() && ids[j] == b;
            assert(bs[j] == x);
        }
    }
    if ids.no_duplicates() {
        assert forall|a: int, b: int| 0 <= a < bs.len() && 0 <= b < bs.len() && a != b implies bs[a] != bs[b] by {
            assert(ids[a] != ids[b]);
        }
    }
    if ids.len() > 0 {
        lemma_block_sels(ids.drop_last());
        assert(bs.drop_last() =~= block_sels(ids.drop_last()));
        assert(ids.drop_last().push(ids.last()) =~= ids);
    }
}

/// The waypoints a selection rectangle `area` takes in: wire `c` and a
/// path to one of its waypoints in the area.
pub open spec fn waypoint_in_selection(cs: Map<u64, ConnView>, area: (Vector2<i32>, Vector2<i32>), c: u64, path: Seq<Id>) -> bool {
    cs.contains_key(c) && crate::connection::children_area_paths(cs[c].segments, area, seq![]).contains(path)
}

/// What dropping the selection of plot `p` does to its blocks and wires,
/// as `q`: the selected blocks and waypoints lose their highlight (for a
/// selection rectangle every block and every waypoint); updates and
/// snapshots stay.
pub open spec fn unhighlighted(p: Plot, q: Plot) -> bool {
    &&& match p.spec_selection() {
        Selection::Single(x, _) => match x@ {
            SelView::Block(id) => q.blocks_view() == highlight_where(p.blocks_view(), |k: u64| k == id.0, false)
                && q.connections_view() == p.connections_view(),
            SelView::Waypoint(c, path) => q.blocks_view() == p.blocks_view() && q.connections_view() == wires_edited(
                p.connections_view(),
                c.0,
                path,
                WaypointEdit::Highlight(false),
            ),
        },
        Selection::Many(v) => q.blocks_view() == highlight_where(
            p.blocks_view(),
            |k: u64| sel_views(v@).contains(SelView::Block(Id(k))),
            false,
        ) && q.connections_view() == wires_unmarked(p.connections_view(), sel_views(v@)),
        Selection::Area(_, _) => q.blocks_view() == highlight_where(p.blocks_view(), |k: u64| true, false)
            && q.connections_view() == mark_wires(p.connections_view(), None, false),
        _ => q.blocks_view() == p.blocks_view() && q.connections_view() == p.connections_view(),
    }
    &&& q.spec_to_update() == p.spec_to_update()
    &&& q.spec_states() == p.spec_states()
}

/// Whether one of the wires `gone` of `cs` names pin `i` of block `k`.
pub open spec fn freed_pin(cs: Map<u64, ConnView>, gone: Set<u64>, k: u64, i: int, input: bool) -> bool {
    exists|c: u64| #[trigger]
        gone.contains(c) && cs.contains_key(c) && names_pin(seq![cs[c].origin] + cs[c].destinations(), k, i, input)
}

/// The blocks with every pin that one of the wires `gone` of `cs` names
/// set free.
pub open spec fn detached(bs: Map<u64, BlockView>, cs: Map<u64, ConnView>, gone: Set<u64>) -> Map<u64, BlockView> {
    Map::new(
        |k: u64| bs.contains_key(k),
        |k: u64|
            BlockView {
                inputs: Seq::new(
                    bs[k].inputs.len(),
                    |i: int|
                        if freed_pin(cs, gone, k, i, true) {
                            None
                        } else {
                            bs[k].inputs[i]
                        },
                ),
                outputs: Seq::new(
                    bs[k].outputs.len(),
                    |i: int|
                        if freed_pin(cs, gone, k, i, false) {
                            None
                        } else {
                            bs[k].outputs[i]
                        },
                ),
                ..bs[k]
            },
    )
}

pub proof fn lemma_detached_none(bs: Map<u64, BlockView>, cs: Map<u64, ConnView>, gone: Set<u64>)
    requires
        forall|c: u64| !(#[trigger] gone.contains(c) && cs.contains_key(c)),
    ensures
        detached(bs, cs, gone) == bs,
{
    let d = detached(bs, cs, gone);
    assert forall|k: u64| #[trigger] bs.contains_key(k) implies d[k] == bs[k] by {
        assert(d[k].inputs =~= bs[k].inputs);
        assert(d[k].outputs =~= bs[k].outputs);
    }
    assert(d =~= bs);
}

proof fn lemma_detached_step(
    ob: Map<u64, BlockView>,
    oc: Map<u64, ConnView>,
    gone: Set<u64>,
    c: u64,
    bb: Map<u64, BlockView>,
)
    requires
        bb == detached(ob, oc, gone),
        oc.contains_key(c),
        forall|i: int| 0 <= i < (seq![oc[c].origin] + oc[c].destinations()).len() ==> port_in_range(
            bb,
            #[trigger] (seq![oc[c].origin] + oc[c].destinations())[i],
        ),
    ensures
        link_pins(bb, seq![oc[c].origin] + oc[c].destinations(), None) == detached(ob, oc, gone.insert(c)),
{
    let ps = seq![oc[c].origin] + oc[c].destinations();
    let more = gone.insert(c);
    lemma_link_pins_pointwise(bb, ps, None);
    let r = link_pins(bb, ps, None);
    let d = detached(ob, oc, more);
    assert forall|k: u64| #[trigger] r.contains_key(k) implies r[k] == d[k] by {
        let rk = relinked(bb, ps, None, k);
        assert forall|i: int| 0 <= i < rk.inputs.len() implies rk.inputs[i] == d[k].inputs[i] by {
            if freed_pin(oc, more, k, i, true) {
                let c2 = choose|c2: u64| #[trigger]
                    more.contains(c2) && oc.contains_key(c2) && names_pin(
                        seq![oc[c2].origin] + oc[c2].destinations(),
                        k,
                        i,
                        true,
                    );
                if c2 != c {
                    assert(gone.contains(c2));
                    assert(freed_pin(oc, gone, k, i, true));
                }
            } else {
                assert(!freed_pin(oc, gone, k, i, true)) by {
                    if freed_pin(oc, gone, k, i, true) {
                        let c2 = choose|c2: u64| #[trigger]
                            gone.contains(c2) && oc.contains_key(c2) && names_pin(
                                seq![oc[c2].origin] + oc[c2].destinations(),
                                k,
                                i,
                                true,
                            );
                        assert(more.contains(c2));
                    }
                }
                assert(!names_pin(ps, k, i, true)) by {
                    if names_pin(ps, k, i, true) {
                        assert(more.contains(c));
                    }
                }
            }
        }
        assert forall|i: int| 0 <= i < rk.outputs.len() implies rk.outputs[i] == d[k].outputs[i] by {
            if freed_pin(oc, more, k, i, false) {
                let c2 = choose|c2: u64| #[trigger]
                    more.contains(c2) && oc.contains_key(c2) && names_pin(
                        seq![oc[c2].origin] + oc[c2].destinations(),
                        k,
                        i,
                        false,
                    );
                if c2 != c {
                    assert(gone.contains(c2));
                    assert(freed_pin(oc, gone, k, i, false));
                }
            } else {
                assert(!freed_pin(oc, gone, k, i, false)) by {
                    if freed_pin(oc, gone, k, i, false) {
                        let c2 = choose|c2: u64| #[trigger]
                            gone.contains(c2) && oc.contains_key(c2) && names_pin(
                                seq![oc[c2].origin] + oc[c2].destinations(),
                                k,
                                i,
                                false,
                            );
                        assert(more.contains(c2));
                    }
                }
                assert(!names_pin(ps, k, i, false)) by {
                    if names_pin(ps, k, i, false) {
                        assert(more.contains(c));
                    }
                }
            }
        }
        assert(rk.inputs =~= d[k].inputs);
        assert(rk.outputs =~= d[k].outputs);
    }
    assert(r =~= d);
}

pub proof fn lemma_wire_ports_in_range(bs: Map<u64, BlockView>, cs: Map<u64, ConnView>, k: u64)
    requires
        links_fit(bs, cs),
        cs.contains_key(k),
    ensures
        forall|i: int| 0 <= i < (seq![cs[k].origin] + cs[k].destinations()).len() ==> port_in_range(
            bs,
            #[trigger] (seq![cs[k].origin] + cs[k].destinations())[i],
        ),
{
    let ports = seq![cs[k].origin] + cs[k].destinations();
    assert forall|i: int| 0 <= i < ports.len() implies port_in_range(bs, #[trigger] ports[i]) by {
        if i > 0 {
            assert(ports[i] == cs[k].destinations()[i - 1]);
        }
    }
}


/// A wire can be added: its output pin and input pins exist, and when the
/// output pin already has a wire, that wire's input pins exist too.
pub open spec fn connection_fits(bs: Map<u64, BlockView>, cs: Map<u64, ConnView>, c: ConnView) -> bool {
    &&& port_valid(bs, c.origin)
    &&& ports_valid(bs, c.destinations())
    &&& match pin_link(bs[c.origin.spec_block_id().0], c.origin) {
        Some(e) => cs.contains_key(e.0) ==> ports_valid(bs, cs[e.0].destinations() + c.destinations()),
        None => true,
    }
}


/// The blocks of `b` are blocks of `a` with the same pin counts.
pub open spec fn pins_within(a: Map<u64, BlockView>, b: Map<u64, BlockView>) -> bool {
    &&& b.dom().subset_of(a.dom())
    &&& forall|k: u64| #[trigger]
        b.contains_key(k) ==> a[k].inputs.len() == b[k].inputs.len() && a[k].outputs.len()
            == b[k].outputs.len() && a[k].unique == b[k].unique
}

pub proof fn lemma_pins_bounded_within(a: Map<u64, BlockView>, b: Map<u64, BlockView>)
    requires
        pins_within(a, b),
        pins_bounded(a),
    ensures
        pins_bounded(b),
{
    assert forall|k: u64| #[trigger] b.contains_key(k) implies b[k].inputs.len() <= MAX_PINS
        && b[k].outputs.len() <= MAX_PINS by {
        assert(a.contains_key(k));
    }
}

pub proof fn lemma_pins_bounded_same_pins(a: Map<u64, BlockView>, b: Map<u64, BlockView>)
    requires
        same_pins(a, b),
        pins_bounded(a),
    ensures
        pins_bounded(b),
{
    assert forall|k: u64| #[trigger] b.contains_key(k) implies b[k].inputs.len() <= MAX_PINS
        && b[k].outputs.len() <= MAX_PINS by {
        assert(a.contains_key(k));
    }
}


/// Some port of `ps` names input pin `i` (or output pin `i`, when
/// `input` is false) of block `k`.
pub open spec fn names_pin(ps: Seq<Port>, k: u64, i: int, input: bool) -> bool {
    exists|j: int|
        0 <= j < ps.len() && match #[trigger] ps[j] {
            Port::Input(b, x) => input && b.0 == k && x == i,
            Port::Output(b, x) => !input && b.0 == k && x == i,
        }
}

/// Block `k` of `bs` with the pins that `ps` names attached to `link`.
pub open spec fn relinked(bs: Map<u64, BlockView>, ps: Seq<Port>, link: Option<ConnectionID>, k: u64) -> BlockView {
    BlockView {
        inputs: Seq::new(
            bs[k].inputs.len(),
            |i: int|
                if names_pin(ps, k, i, true) {
                    link
                } else {
                    bs[k].inputs[i]
                },
        ),
        outputs: Seq::new(
            bs[k].outputs.len(),
            |i: int|
                if names_pin(ps, k, i, false) {
                    link
                } else {
                    bs[k].outputs[i]
                },
        ),
        ..bs[k]
    }
}

/// Attaching `link` to the pins of `ps` sets exactly the pins that `ps`
/// names.
pub proof fn lemma_link_pins_pointwise(bs: Map<u64, BlockView>, ps: Seq<Port>, link: Option<ConnectionID>)
    requires
        forall|i: int| 0 <= i < ps.len() ==> port_in_range(bs, #[trigger] ps[i]),
    ensures
        link_pins(bs, ps, link).dom() == bs.dom(),
        forall|k: u64| #[trigger] bs.contains_key(k) ==> link_pins(bs, ps, link)[k] == relinked(bs, ps, link, k),
    decreases ps.len(),
{
    lemma_link_pins_same_pins(bs, ps, link);
    if ps.len() == 0 {
        assert forall|k: u64| #[trigger] bs.contains_key(k) implies link_pins(bs, ps, link)[k] == relinked(bs, ps, link, k) by {
            assert(relinked(bs, ps, link, k).inputs =~= bs[k].inputs);
            assert(relinked(bs, ps, link, k).outputs =~= bs[k].outputs);
        }
    } else {
        let d = ps.drop_last();
        assert forall|i: int| 0 <= i < d.len() implies port_in_range(bs, #[trigger] d[i]) by {
            assert(d[i] == ps[i]);
        }
        lemma_link_pins_pointwise(bs, d, link);
        let p = ps.last();
        assert(port_in_range(bs, ps[ps.len() - 1]));
        assert forall|k: u64| #[trigger] bs.contains_key(k) implies link_pins(bs, ps, link)[k] == relinked(bs, ps, link, k) by {
            let after = link_pins(bs, ps, link);
            assert forall|i: int, inp: bool| names_pin(ps, k, i, inp) == (names_pin(d, k, i, inp) || match p {
                Port::Input(b, x) => inp && b.0 == k && x == i,
                Port::Output(b, x) => !inp && b.0 == k && x == i,
            }) by {
                if names_pin(ps, k, i, inp) {
                    let j = choose|j: int| 0 <= j < ps.len() && match #[trigger] ps[j] {
                        Port::Input(b, x) => inp && b.0 == k && x == i,
                        Port::Output(b, x) => !inp && b.0 == k && x == i,
                    };
                    if j < d.len() {
                        assert(d[j] == ps[j]);
                    }
                }
                if names_pin(d, k, i, inp) {
                    let j = choose|j: int| 0 <= j < d.len() && match #[trigger] d[j] {
                        Port::Input(b, x) => inp && b.0 == k && x == i,
                        Port::Output(b, x) => !inp && b.0 == k && x == i,
                    };
                    assert(ps[j] == d[j]);
                }
                if match p {
                    Port::Input(b, x) => inp && b.0 == k && x == i,
                    Port::Output(b, x) => !inp && b.0 == k && x == i,
                } {
                    assert(ps[ps.len() - 1] == p);
                }
            }
            assert(after[k].inputs =~= relinked(bs, ps, link, k).inputs);
            assert(after[k].outputs =~= relinked(bs, ps, link, k).outputs);
        }
    }
}

/// The block identifiers of a list of ports.
pub open spec fn port_blocks(ps: Seq<Port>) -> Set<u64> {
    Set::new(|k: u64| exists|i: int| 0 <= i < ps.len() && ps[i].spec_block_id().0 == k)
}

impl Plot {
    pub closed spec fn spec_blocks(&self) -> Map<u64, Block> {
        self.blocks@
    }

    pub closed spec fn spec_connections(&self) -> Map<u64, Connection> {
        self.connections@
    }

    pub closed spec fn spec_states(&self) -> Seq<PlotState> {
        self.states@
    }

    pub closed spec fn spec_selection(&self) -> Selection {
        self.selection
    }

    pub closed spec fn spec_to_update(&self) -> Set<u64> {
        self.to_update@
    }

    pub open spec fn blocks_view(&self) -> Map<u64, BlockView> {
        self.spec_blocks().map_values(|b: Block| b@)
    }

    pub open spec fn connections_view(&self) -> Map<u64, ConnView> {
        self.spec_connections().map_values(|c: Connection| c@)
    }

    /// Every block and wire is stored under its own identifier, and every
    /// wire names only existing pins of the blocks that exist.
    pub open spec fn wf(&self) -> bool {
        views_wf(self.blocks_view(), self.connections_view())
    }

    /// An empty plot with one empty state snapshot.
    pub fn new() -> (p: Self)
        ensures
            p.wf(),
            p.blocks_view() == Map::<u64, BlockView>::empty(),
            p.connections_view() == Map::<u64, ConnView>::empty(),
            p.spec_states().len() == 1,
            p.spec_selection() is Empty,
            p.spec_to_update() == Set::<u64>::empty(),
    {
        let mut states: Vec<PlotState> = Vec::new();
        states.push(PlotState::new());
        let p = Plot {
            blocks: HashMap::new(),
            connections: HashMap::new(),
            states,
            selection: Selection::Empty,
            to_update: HashSet::new(),
        };
        proof {
            assert(p.blocks_view() =~= Map::<u64, BlockView>::empty());
            assert(p.connections_view() =~= Map::<u64, ConnView>::empty());
        }
        p
    }

    pub fn blocks(&self) -> (b: &HashMap<u64, Block>)
        ensures
            b@ == self.spec_blocks(),
    {
        &self.blocks
    }

    pub fn connections(&self) -> (c: &HashMap<u64, Connection>)
        ensures
            c@ == self.spec_connections(),
    {
        &self.connections
    }

    pub fn to_update(&self) -> (t: &HashSet<u64>)
        ensures
            t@ == self.spec_to_update(),
    {
        &self.to_update
    }

    pub fn states(&self) -> (s: &Vec<PlotState>)
        ensures
            s@ == self.spec_states(),
    {
        &self.states
    }

    /// Places a block on the plot and marks it for simulation.
    pub fn add_block(&mut self, block: Block)
        requires
            old(self).wf(),
            links_fit(old(self).blocks_view().insert(block@.id.0, block@), old(self).connections_view()),
        ensures
            final(self).wf(),
            final(self).blocks_view() == old(self).blocks_view().insert(block@.id.0, block@),
            final(self).connections_view() == old(self).connections_view(),
            final(self).spec_to_update() == old(self).spec_to_update().insert(block@.id.0),
            final(self).spec_states() == old(self).spec_states(),
            final(self).spec_selection() == old(self).spec_selection(),
    {
        let id = block.id();
        let ghost bv = block@;
        self.to_update.insert(id.0);
        self.blocks.insert(id.0, block);
        proof {
            assert(self.blocks_view() =~= old(self).blocks_view().insert(id.0, bv));
        }
    }

    pub fn get_block(&self, id: BlockID) -> (b: Option<&Block>)
        ensures
            b matches Some(blk) ==> self.spec_blocks().contains_key(id.0) && *blk
                == self.spec_blocks()[id.0],
            b is None ==> !self.spec_blocks().contains_key(id.0),
    {
        self.blocks.get(&id.0)
    }

    pub fn get_connection(&self, id: &ConnectionID) -> (c: Option<&Connection>)
        ensures
            c matches Some(conn) ==> self.spec_connections().contains_key(id.0) && *conn
                == self.spec_connections()[id.0],
            c is None ==> !self.spec_connections().contains_key(id.0),
    {
        self.connections.get(&id.0)
    }

    /// Moves a block; returns whether the block exists.
    pub fn set_block_position(&mut self, id: BlockID, position: Vector2<i32>) -> (found: bool)
        requires
            old(self).wf(),
        ensures
            final(self).wf(),
            found == old(self).blocks_view().contains_key(id.0),
            found ==> final(self).blocks_view() == old(self).blocks_view().insert(
                id.0,
                BlockView { position, ..old(self).blocks_view()[id.0] },
            ),
            !found ==> final(self).blocks_view() == old(self).blocks_view(),
            final(self).connections_view() == old(self).connections_view(),
            final(self).spec_to_update() == old(self).spec_to_update(),
            final(self).spec_states() == old(self).spec_states(),
            final(self).spec_selection() == old(self).spec_selection(),
    {
        match self.blocks.remove(&id.0) {
            Some(mut block) => {
                block.set_position(position);
                self.blocks.insert(id.0, block);
                proof {
                    assert(self.blocks_view() =~= old(self).blocks_view().insert(
                        id.0,
                        BlockView { position, ..old(self).blocks_view()[id.0] },
                    ));
                    lemma_links_fit_same_pins(
                        old(self).blocks_view(),
                        self.blocks_view(),
                        self.connections_view(),
                    );
                }
                true
            },
            None => {
                proof {
                    assert(self.blocks_view() =~= old(self).blocks_view());
                }
                false
            },
        }
    }

    /// Marks a block as highlighted or not; returns whether it exists.
    pub fn set_block_highlighted(&mut self, id: BlockID, highlighted: bool) -> (found: bool)
        requires
            old(self).wf(),
        ensures
            final(self).wf(),
            found == old(self).blocks_view().contains_key(id.0),
            found ==> final(self).blocks_view() == old(self).blocks_view().insert(
                id.0,
                BlockView { highlighted, ..old(self).blocks_view()[id.0] },
            ),
            !found ==> final(self).blocks_view() == old(self).blocks_view(),
            final(self).connections_view() == old(self).connections_view(),
            final(self).spec_to_update() == old(self).spec_to_update(),
            final(self).spec_states() == old(self).spec_states(),
            final(self).spec_selection() == old(self).spec_selection(),
    {
        match self.blocks.remove(&id.0) {
            Some(mut block) => {
                block.set_highlighted(highlighted);
                self.blocks.insert(id.0, block);
                proof {
                    assert(self.blocks_view() =~= old(self).blocks_view().insert(
                        id.0,
                        BlockView { highlighted, ..old(self).blocks_view()[id.0] },
                    ));
                    lemma_links_fit_same_pins(
                        old(self).blocks_view(),
                        self.blocks_view(),
                        self.connections_view(),
                    );
                }
                true
            },
            None => {
                proof {
                    assert(self.blocks_view() =~= old(self).blocks_view());
                }
                false
            },
        }
    }

    /// Switches a block's button, switch or lamp; returns whether the block
    /// exists.
    pub fn set_block_active(&mut self, id: BlockID, active: bool) -> (found: bool)
        requires
            old(self).wf(),
        ensures
            final(self).wf(),
            found == old(self).blocks_view().contains_key(id.0),
            found ==> final(self).blocks_view() == old(self).blocks_view().insert(
                id.0,
                BlockView {
                    decoration: old(self).blocks_view()[id.0].decoration.with_active(active),
                    ..old(self).blocks_view()[id.0]
                },
            ),
            !found ==> final(self).blocks_view() == old(self).blocks_view(),
            final(self).connections_view() == old(self).connections_view(),
            final(self).spec_to_update() == old(self).spec_to_update(),
            final(self).spec_states() == old(self).spec_states(),
            final(self).spec_selection() == old(self).spec_selection(),
    {
        match self.blocks.remove(&id.0) {
            Some(mut block) => {
                block.set_active(active);
                self.blocks.insert(id.0, block);
                proof {
                    assert(self.blocks_view() =~= old(self).blocks_view().insert(
                        id.0,
                        BlockView {
                            decoration: old(self).blocks_view()[id.0].decoration.with_active(
                                active,
                            ),
                            ..old(self).blocks_view()[id.0]
                        },
                    ));
                    lemma_links_fit_same_pins(
                        old(self).blocks_view(),
                        self.blocks_view(),
                        self.connections_view(),
                    );
                }
                true
            },
            None => {
                proof {
                    assert(self.blocks_view() =~= old(self).blocks_view());
                }
                false
            },
        }
    }

    /// The block that `position` touches; where blocks overlap, the one
    /// with the smallest identifier.
    pub fn get_block_at(&self, position: Vector2<i32>) -> (found: Option<BlockID>)
        ensures
            found matches Some(id) ==> self.spec_blocks().contains_key(id.0)
                && touches_spec(self.blocks_view()[id.0], position),
            found is None ==> forall|k: u64| #[trigger]
                self.blocks_view().contains_key(k) ==> !touches_spec(self.blocks_view()[k], position),
            found matches Some(id) ==> block_at(self.blocks_view(), position) == Some(id.0),
            found is None ==> block_at(self.blocks_view(), position) is None,
    {
        let keys = keys_of(&self.blocks);
        let ghost bs = self.blocks_view();
        let mut best: Option<u64> = None;
        let mut i: usize = 0;
        while i < keys.len()
            invariant
                0 <= i <= keys.len(),
                bs == self.blocks_view(),
                forall|k: u64| self.blocks@.contains_key(k) <==> keys@.contains(k),
                best is None ==> forall|j: int| 0 <= j < i ==> !touching(bs, position, #[trigger] keys@[j]),
                best matches Some(b) ==> touching(bs, position, b) && forall|j: int|
                    0 <= j < i && touching(bs, position, #[trigger] keys@[j]) ==> b <= keys@[j],
            decreases keys.len() - i,
        {
            let k = keys[i];
            assert(keys@.contains(k));
            let block = self.blocks.get(&k).unwrap();
            if block.touches(position) {
                match best {
                    Some(b) => {
                        if k < b {
                            best = Some(k);
                        }
                    },
                    None => {
                        best = Some(k);
                    },
                }
            }
            i = i + 1;
        }
        proof {
            match best {
                Some(b) => {
                    assert forall|k2: u64| touching(bs, position, k2) implies b <= k2 by {
                        assert(keys@.contains(k2));
                        let j = choose|j: int| 0 <= j < keys@.len() && keys@[j] == k2;
                    }
                    lemma_block_at_min(bs, position, b);
                },
                None => {
                    assert forall|k: u64| #[trigger]
                        bs.contains_key(k) implies !touches_spec(bs[k], position) by {
                        assert(keys@.contains(k));
                        let j = choose|j: int| 0 <= j < keys@.len() && keys@[j] == k;
                        assert(!touching(bs, position, keys@[j]));
                    }
                    reveal(block_at);
                },
            }
        }
        match best {
            Some(b) => Some(Id(b)),
            None => None,
        }
    }

    /// The first waypoint that `position` hits, over all wires.
    pub fn get_waypoint_at(&self, position: Vector2<i32>) -> (found: Option<SegmentID>)
        requires
            self.wf(),
        ensures
            found matches Some(sid) ==> self.spec_connections().contains_key(
                sid.spec_connection_id().0,
            ) && children_find(
                self.connections_view()[sid.spec_connection_id().0].segments,
                position,
            ) == Some(sid.spec_location()),
            found is None ==> forall|k: u64| #[trigger]
                self.connections_view().contains_key(k) ==> children_find(
                    self.connections_view()[k].segments,
                    position,
                ) is None,
    {
        let keys = keys_of(&self.connections);
        let mut i: usize = 0;
        while i < keys.len()
            invariant
                0 <= i <= keys.len(),
                self.wf(),
                forall|k: u64| self.connections@.contains_key(k) <==> keys@.contains(k),
                forall|j: int|
                    0 <= j < i ==> children_find(
                        self.connections_view()[#[trigger] keys@[j]].segments,
                        position,
                    ) is None,
            decreases keys.len() - i,
        {
            let k = keys[i];
            assert(keys@.contains(k));
            let connection = self.connections.get(&k).unwrap();
            if let Some(waypoint) = connection.waypoint_at(position) {
                proof {
                    assert(self.connections_view().contains_key(k));
                    assert(self.connections_view()[k] == connection@);
                    assert(self.connections_view()[k].id.0 == k);
                }
                return Some(waypoint);
            }
            i = i + 1;
        }
        proof {
            assert forall|k: u64| #[trigger]
                self.connections_view().contains_key(k) implies children_find(
                self.connections_view()[k].segments,
                position,
            ) is None by {
                assert(keys@.contains(k));
                let j = choose|j: int| 0 <= j < keys@.len() && keys@[j] == k;
            }
        }
        None
    }

    pub fn add_block_to_update(&mut self, block: BlockID)
        ensures
            final(self).spec_to_update() == old(self).spec_to_update().insert(block.0),
            final(self).spec_blocks() == old(self).spec_blocks(),
            final(self).spec_connections() == old(self).spec_connections(),
            final(self).spec_states() == old(self).spec_states(),
            final(self).spec_selection() == old(self).spec_selection(),
    {
        self.to_update.insert(block.0);
    }

    /// Marks every block for simulation.
    pub fn update_all_blocks(&mut self)
        ensures
            final(self).spec_to_update() == old(self).spec_to_update().union(
                old(self).spec_blocks().dom(),
            ),
            final(self).spec_blocks() == old(self).spec_blocks(),
            final(self).spec_connections() == old(self).spec_connections(),
            final(self).spec_states() == old(self).spec_states(),
            final(self).spec_selection() == old(self).spec_selection(),
    {
        let keys = keys_of(&self.blocks);
        let mut i: usize = 0;
        while i < keys.len()
            invariant
                0 <= i <= keys.len(),
                forall|k: u64| old(self).blocks@.contains_key(k) <==> keys@.contains(k),
                self.blocks@ == old(self).blocks@,
                self.connections@ == old(self).connections@,
                self.states@ == old(self).states@,
                self.selection == old(self).selection,
                self.to_update@ == old(self).to_update@.union(keys@.subrange(0, i as int).to_set()),
            decreases keys.len() - i,
        {
            self.to_update.insert(keys[i]);
            i = i + 1;
            proof {
                broadcast use vstd::seq_lib::group_seq_properties;

                assert(keys@.subrange(0, i as int) =~= keys@.subrange(0, i - 1).push(keys@[i - 1]));
                assert(keys@.subrange(0, i as int).to_set() =~= keys@.subrange(
                    0,
                    i - 1,
                ).to_set().insert(keys@[i - 1]));
                assert(self.to_update@ =~= old(self).to_update@.union(
                    keys@.subrange(0, i as int).to_set(),
                ));
            }
        }
        proof {
            assert(keys@.subrange(0, keys@.len() as int) =~= keys@);
            assert(keys@.to_set() =~= old(self).blocks@.dom());
            assert(self.to_update@ =~= old(self).to_update@.union(old(self).blocks@.dom()));
        }
    }
}

/// The connector that a port names.
pub fn port_connector(p: Port) -> (c: Connector)
    ensures
        c == connector_of(p),
{
    match p {
        Port::Input(_, i) => Connector::Input(i),
        Port::Output(_, i) => Connector::Output(i),
    }
}

/// The link at the pin of `b` that `p` names.
pub open spec fn pin_link(b: BlockView, p: Port) -> Option<ConnectionID> {
    match p {
        Port::Input(_, i) => b.inputs[i as int],
        Port::Output(_, i) => b.outputs[i as int],
    }
}

pub proof fn lemma_link_pins_same_pins(blocks: Map<u64, BlockView>, ps: Seq<Port>, link: Option<ConnectionID>)
    requires
        forall|i: int| 0 <= i < ps.len() ==> port_in_range(blocks, #[trigger] ps[i]),
    ensures
        same_pins(blocks, link_pins(blocks, ps, link)),
        forall|k: u64| #[trigger] link_pins(blocks, ps, link).contains_key(k) ==> link_pins(blocks, ps, link)[k].id == blocks[k].id
            && link_pins(blocks, ps, link)[k].unique == blocks[k].unique,
    decreases ps.len(),
{
    if ps.len() > 0 {
        let d = ps.drop_last();
        assert forall|i: int| 0 <= i < d.len() implies port_in_range(blocks, #[trigger] d[i]) by {
            assert(d[i] == ps[i]);
        }
        lemma_link_pins_same_pins(blocks, d, link);
        assert(port_in_range(blocks, ps[ps.len() - 1]));
        let before = link_pins(blocks, d, link);
        let after = link_pins(blocks, ps, link);
        assert(after.dom() =~= blocks.dom());
    }
}

impl Plot {
    /// Attaches `link` to every pin of `ports` whose block exists.
    fn link_ports(&mut self, ports: &Vec<Port>, link: Option<ConnectionID>)
        requires
            forall|i: int| 0 <= i < ports@.len() ==> port_in_range(old(self).blocks_view(), #[trigger] ports@[i]),
        ensures
            final(self).blocks_view() == link_pins(old(self).blocks_view(), ports@, link),
            final(self).spec_connections() == old(self).spec_connections(),
            final(self).spec_to_update() == old(self).spec_to_update(),
            final(self).spec_states() == old(self).spec_states(),
            final(self).spec_selection() == old(self).spec_selection(),
    {
        proof {
            lemma_link_pins_same_pins(old(self).blocks_view(), ports@, link);
        }
        let mut i: usize = 0;
        while i < ports.len()
            invariant
                0 <= i <= ports.len(),
                forall|j: int| 0 <= j < ports@.len() ==> port_in_range(old(self).blocks_view(), #[trigger] ports@[j]),
                self.blocks_view() == link_pins(old(self).blocks_view(), ports@.subrange(0, i as int), link),
                same_pins(old(self).blocks_view(), self.blocks_view()),
                self.connections@ == old(self).connections@,
                self.to_update@ == old(self).to_update@,
                self.states@ == old(self).states@,
                self.selection == old(self).selection,
            decreases ports.len() - i,
        {
            let p = ports[i];
            let k = p.block_id().0;
            let ghost before = self.blocks_view();
            proof {
                assert(ports@.subrange(0, i + 1).drop_last() =~= ports@.subrange(0, i as int));
                assert(port_in_range(old(self).blocks_view(), p));
            }
            match self.blocks.remove(&k) {
                Some(mut block) => {
                    block.set_connection(port_connector(p), link);
                    self.blocks.insert(k, block);
                    proof {
                        assert(self.blocks_view() =~= before.insert(k, link_pin(before[k], p, link)));
                    }
                },
                None => {
                    proof {
                        assert(self.blocks_view() =~= before);
                    }
                },
            }
            i = i + 1;
        }
        proof {
            assert(ports@.subrange(0, ports@.len() as int) =~= ports@);
        }
    }
}

impl Plot {
    /// Stores a wire as it is, without touching the pins it names.
    pub fn add_connection_unchecked(&mut self, connection: Connection)
        requires
            old(self).wf(),
            links_fit(old(self).blocks_view(), old(self).connections_view().insert(connection@.id.0, connection@)),
        ensures
            final(self).wf(),
            final(self).blocks_view() == old(self).blocks_view(),
            final(self).connections_view() == old(self).connections_view().insert(connection@.id.0, connection@),
            final(self).spec_to_update() == old(self).spec_to_update().insert(connection@.origin.spec_block_id().0),
            final(self).spec_states() == old(self).spec_states(),
            final(self).spec_selection() == old(self).spec_selection(),
    {
        let ghost cv = connection@;
        self.to_update.insert(connection.origin().block_id().0);
        self.connections.insert(connection.id().0, connection);
        proof {
            assert(self.connections_view() =~= old(self).connections_view().insert(cv.id.0, cv));
        }
    }

    /// Adds the branches of `connection` to wire `existing` and attaches
    /// every pin that the grown wire reaches.
    fn add_to_existing_connection(&mut self, existing: ConnectionID, connection: &Connection)
        requires
            old(self).wf(),
            old(self).connections_view().contains_key(existing.0) ==> ports_valid(
                old(self).blocks_view(),
                old(self).connections_view()[existing.0].destinations() + connection@.destinations(),
            ),
        ensures
            final(self).wf(),
            !old(self).connections_view().contains_key(existing.0) ==> final(self).blocks_view() == old(self).blocks_view()
                && final(self).connections_view() == old(self).connections_view(),
            old(self).connections_view().contains_key(existing.0) ==> merged_into(
                old(self).connections_view()[existing.0],
                connection@,
                final(self).connections_view()[existing.0],
            ) && final(self).connections_view() == old(self).connections_view().insert(
                existing.0,
                final(self).connections_view()[existing.0],
            ) && final(self).blocks_view() == link_pins(
                old(self).blocks_view(),
                old(self).connections_view()[existing.0].destinations() + connection@.destinations(),
                Some(existing),
            ),
            final(self).spec_to_update() == old(self).spec_to_update(),
            final(self).spec_states() == old(self).spec_states(),
            final(self).spec_selection() == old(self).spec_selection(),
    {
        match self.connections.remove(&existing.0) {
            Some(mut e) => {
                let ghost ev = e@;
                let ghost cs = connection@.segments;
                let segments = connection.segments();
                proof {
                    crate::connection::lemma_children_view(segments@);
                }
                let mut i: usize = 0;
                while i < segments.len()
                    invariant
                        0 <= i <= segments.len(),
                        crate::connection::children_view(segments@) == cs,
                        cs.len() == segments@.len(),
                        forall|j: int| 0 <= j < segments@.len() ==> #[trigger] cs[j] == (segments@[j].0, segments@[j].1@),
                        e@.id == ev.id,
                        e@.active == ev.active,
                        e@.origin == ev.origin,
                        e@.segments.len() == ev.segments.len() + i,
                        e@.segments.subrange(0, ev.segments.len() as int) == ev.segments,
                        forall|j: int| 0 <= j < i ==> #[trigger] e@.segments[ev.segments.len() + j].1 == cs[j].1,
                        e@.destinations() == ev.destinations() + crate::connection::children_destinations(cs.subrange(0, i as int)),
                    decreases segments.len() - i,
                {
                    let seg = segments[i].1.clone();
                    let ghost before = e@;
                    e.add_segment(seg);
                    proof {
                        let after = e@;
                        assert(after.segments =~= before.segments.push(after.segments.last()));
                        crate::connection::lemma_children_destinations_push(before.segments, after.segments.last());
                        assert(cs.subrange(0, i + 1).drop_last() =~= cs.subrange(0, i as int));
                        assert(cs.subrange(0, i + 1).last() == cs[i as int]);
                        assert(after.segments.subrange(0, ev.segments.len() as int) =~= before.segments.subrange(0, ev.segments.len() as int));
                        assert forall|j: int| 0 <= j < i + 1 implies #[trigger] after.segments[ev.segments.len() + j].1 == cs[j].1 by {
                            if j < i {
                                assert(after.segments[ev.segments.len() + j] == before.segments[ev.segments.len() + j]);
                            }
                        }
                        assert(after.destinations() =~= ev.destinations() + crate::connection::children_destinations(cs.subrange(0, i + 1)));
                    }
                    i = i + 1;
                }
                proof {
                    assert(cs.subrange(0, segments@.len() as int) =~= cs);
                }
                let destinations = e.destinations();
                let id = e.id();
                let ghost merged = e@;
                self.connections.insert(existing.0, e);
                proof {
                    assert(self.connections_view() =~= old(self).connections_view().insert(existing.0, merged));
                    assert(old(self).connections_view().contains_key(existing.0));
                    assert(old(self).connections_view()[existing.0] == ev);
                    assert(ev.id.0 == existing.0);
                    assert forall|j: int| 0 <= j < destinations@.len() implies port_in_range(
                        old(self).blocks_view(),
                        #[trigger] destinations@[j],
                    ) by {
                        assert(port_valid(old(self).blocks_view(), destinations@[j]));
                    }
                }
                self.link_ports(&destinations, Some(id));
                proof {
                    let nb = self.blocks_view();
                    lemma_link_pins_same_pins(old(self).blocks_view(), destinations@, Some(id));
                    lemma_links_fit_same_pins(old(self).blocks_view(), nb, old(self).connections_view());
                    assert(old(self).connections_view().contains_key(existing.0));
                    assert(port_in_range(nb, ev.origin));
                    assert forall|j: int| 0 <= j < merged.destinations().len() implies port_in_range(
                        nb,
                        #[trigger] merged.destinations()[j],
                    ) by {
                        let p = merged.destinations()[j];
                        assert(port_valid(old(self).blocks_view(), p));
                        assert(nb.contains_key(p.spec_block_id().0));
                    }
                    self.lemma_links_fit_insert(old(self).connections_view(), existing.0, merged);
                }
            },
            None => {
                proof {
                    assert(self.connections_view() =~= old(self).connections_view());
                }
            },
        }
    }

    proof fn lemma_links_fit_insert(self, conns: Map<u64, ConnView>, k: u64, c: ConnView)
        requires
            links_fit(self.blocks_view(), conns),
            self.connections_view() == conns.insert(k, c),
            port_in_range(self.blocks_view(), c.origin),
            forall|i: int| 0 <= i < c.destinations().len() ==> port_in_range(self.blocks_view(), #[trigger] c.destinations()[i]),
        ensures
            links_fit(self.blocks_view(), self.connections_view()),
    {
    }

    /// Wires an output pin to input pins. If the output pin already has a
    /// wire, the new branches are added to that wire instead.
    pub fn add_connection(&mut self, connection: Connection)
        requires
            old(self).wf(),
            connection_fits(old(self).blocks_view(), old(self).connections_view(), connection@),
        ensures
            final(self).wf(),
            connection_wired(
                old(self).blocks_view(),
                old(self).connections_view(),
                connection@,
                final(self).blocks_view(),
                final(self).connections_view(),
            ),
            final(self).spec_to_update() == match pin_link(
                old(self).blocks_view()[connection@.origin.spec_block_id().0],
                connection@.origin,
            ) {
                Some(_) => old(self).spec_to_update(),
                None => old(self).spec_to_update().insert(connection@.origin.spec_block_id().0),
            },
            final(self).spec_states() == old(self).spec_states(),
            final(self).spec_selection() == old(self).spec_selection(),
    {
        let origin = connection.origin();
        let k = origin.block_id().0;
        let existing = self.blocks.get(&k).unwrap().connection(port_connector(origin));
        if let Some(existing) = existing {
            self.add_to_existing_connection(existing, &connection);
            return;
        }
        let ghost before = self.blocks_view();
        let mut origin_block = self.blocks.remove(&k).unwrap();
        origin_block.set_connection(port_connector(origin), Some(connection.id()));
        self.blocks.insert(k, origin_block);
        let ghost mid = before.insert(k, link_pin(before[k], origin, Some(connection@.id)));
        proof {
            assert(self.blocks_view() =~= mid);
            assert(same_pins(before, mid));
            lemma_links_fit_same_pins(before, mid, self.connections_view());
            assert forall|i: int| 0 <= i < connection@.destinations().len() implies port_in_range(
                self.blocks_view(),
                #[trigger] connection@.destinations()[i],
            ) by {
                assert(port_valid(before, connection@.destinations()[i]));
            }
        }
        let destinations = connection.destinations();
        self.link_ports(&destinations, Some(connection.id()));
        self.to_update.insert(k);
        let ghost cv = connection@;
        self.connections.insert(connection.id().0, connection);
        proof {
            lemma_link_pins_same_pins(mid, destinations@, Some(cv.id));
            lemma_links_fit_same_pins(mid, self.blocks_view(), old(self).connections_view());
            assert(self.connections_view() =~= old(self).connections_view().insert(cv.id.0, cv));
            assert forall|i: int| 0 <= i < cv.destinations().len() implies port_in_range(
                self.blocks_view(),
                #[trigger] cv.destinations()[i],
            ) by {
                assert(port_valid(before, cv.destinations()[i]));
            }
            self.lemma_links_fit_insert(old(self).connections_view(), cv.id.0, cv);
        }
    }

    /// Removes a wire and detaches it from the pins it names; the removed
    /// wire comes back switched off.
    pub fn remove_connection(&mut self, id: ConnectionID) -> (removed: Option<Connection>)
        requires
            old(self).wf(),
        ensures
            final(self).wf(),
            removed is Some == old(self).connections_view().contains_key(id.0),
            removed matches Some(c) ==> {
                let old_c = old(self).connections_view()[id.0];
                let ports = seq![old_c.origin] + old_c.destinations();
                &&& c@ == ConnView { active: false, ..old_c }
                &&& final(self).blocks_view() == link_pins(old(self).blocks_view(), ports, None)
                &&& final(self).connections_view() == old(self).connections_view().remove(id.0)
                &&& final(self).spec_to_update() == old(self).spec_to_update().union(port_blocks(ports))
            },
            removed is None ==> final(self).blocks_view() == old(self).blocks_view()
                && final(self).connections_view() == old(self).connections_view()
                && final(self).spec_to_update() == old(self).spec_to_update(),
            same_pins(old(self).blocks_view(), final(self).blocks_view()),
            final(self).spec_states() == old(self).spec_states(),
            final(self).spec_selection() == old(self).spec_selection(),
    {
        let mut connection = match self.connections.get(&id.0) {
            Some(c) => c.clone(),
            None => {
                return None;
            },
        };
        let ghost old_c = connection@;
        let mut ports: Vec<Port> = Vec::new();
        ports.push(connection.origin());
        let mut dests = connection.destinations();
        ports.append(&mut dests);
        proof {
            assert(ports@ =~= seq![old_c.origin] + old_c.destinations());
            assert(old(self).connections_view().contains_key(id.0));
            assert forall|i: int| 0 <= i < ports@.len() implies port_in_range(
                old(self).blocks_view(),
                #[trigger] ports@[i],
            ) by {
                if i > 0 {
                    assert(ports@[i] == old_c.destinations()[i - 1]);
                }
            }
        }
        self.link_ports(&ports, None);
        let ghost linked = self.blocks@;
        let mut i: usize = 0;
        while i < ports.len()
            invariant
                0 <= i <= ports.len(),
                self.blocks@ == linked,
                self.connections@ == old(self).connections@,
                self.states@ == old(self).states@,
                self.selection == old(self).selection,
                self.to_update@ == old(self).to_update@.union(port_blocks(ports@.subrange(0, i as int))),
            decreases ports.len() - i,
        {
            self.to_update.insert(ports[i].block_id().0);
            i = i + 1;
            proof {
                let a = ports@.subrange(0, i as int);
                let b = ports@.subrange(0, i - 1);
                assert forall|k: u64| port_blocks(a).contains(k) == (port_blocks(b).contains(k) || k == ports@[i - 1].spec_block_id().0) by {
                    if port_blocks(a).contains(k) {
                        let j = choose|j: int| 0 <= j < a.len() && a[j].spec_block_id().0 == k;
                        if j < i - 1 {
                            assert(b[j] == a[j]);
                        }
                    }
                    if port_blocks(b).contains(k) {
                        let j = choose|j: int| 0 <= j < b.len() && b[j].spec_block_id().0 == k;
                        assert(a[j] == b[j]);
                    }
                    if k == ports@[i - 1].spec_block_id().0 {
                        assert(a[i - 1] == ports@[i - 1]);
                    }
                }
                assert(self.to_update@ =~= old(self).to_update@.union(port_blocks(a)));
            }
        }
        self.connections.remove(&id.0);
        connection.set_active(false);
        proof {
            assert(ports@.subrange(0, ports@.len() as int) =~= ports@);
            assert(self.connections_view() =~= old(self).connections_view().remove(id.0));
            lemma_link_pins_same_pins(old(self).blocks_view(), ports@, None);
            lemma_links_fit_same_pins(old(self).blocks_view(), self.blocks_view(), old(self).connections_view());
            assert(links_fit(self.blocks_view(), self.connections_view()));
        }
        Some(connection)
    }
}

/// Wiring `c` into blocks `bs` and wires `cs` gives `bs2` and `cs2`: when
/// its output pin is free, `c` is stored and its pins link to it; when the
/// pin already has a wire, the branches of `c` are appended to that wire
/// and the new input pins link to it (nothing changes when that wire is
/// missing).
pub open spec fn connection_wired(
    bs: Map<u64, BlockView>,
    cs: Map<u64, ConnView>,
    c: ConnView,
    bs2: Map<u64, BlockView>,
    cs2: Map<u64, ConnView>,
) -> bool {
    let o = c.origin;
    let k = o.spec_block_id().0;
    match pin_link(bs[k], o) {
        Some(e) => {
            &&& !cs.contains_key(e.0) ==> bs2 == bs && cs2 == cs
            &&& cs.contains_key(e.0) ==> merged_into(cs[e.0], c, cs2[e.0]) && cs2 == cs.insert(e.0, cs2[e.0])
                && bs2 == link_pins(bs, cs[e.0].destinations() + c.destinations(), Some(e))
        },
        None => {
            &&& bs2 == link_pins(bs.insert(k, link_pin(bs[k], o, Some(c.id))), c.destinations(), Some(c.id))
            &&& cs2 == cs.insert(c.id.0, c)
        },
    }
}

/// `merged` is wire `e` with the branches of `c` appended.
pub open spec fn merged_into(e: ConnView, c: ConnView, merged: ConnView) -> bool {
    &&& merged.id == e.id
    &&& merged.active == e.active
    &&& merged.origin == e.origin
    &&& merged.segments.len() == e.segments.len() + c.segments.len()
    &&& merged.segments.subrange(0, e.segments.len() as int) == e.segments
    &&& forall|i: int| 0 <= i < c.segments.len() ==> #[trigger] merged.segments[e.segments.len() + i].1 == c.segments[i].1
    &&& merged.destinations() == e.destinations() + c.destinations()
}

/// Block `k` of `bs` is under `position`.
pub open spec fn touching(bs: Map<u64, BlockView>, position: Vector2<i32>, k: u64) -> bool {
    bs.contains_key(k) && touches_spec(bs[k], position)
}

/// The block under `position` with the smallest identifier, if any.
#[verifier::opaque]
pub open spec fn block_at(bs: Map<u64, BlockView>, position: Vector2<i32>) -> Option<u64> {
    if exists|k: u64| #[trigger] touching(bs, position, k) {
        Some(
            choose|k: u64|
                #[trigger] touching(bs, position, k) && forall|k2: u64| #[trigger] touching(bs, position, k2) ==> k <= k2,
        )
    } else {
        None
    }
}

pub proof fn lemma_block_at_min(bs: Map<u64, BlockView>, position: Vector2<i32>, b: u64)
    requires
        touching(bs, position, b),
        forall|k2: u64| #[trigger] touching(bs, position, k2) ==> b <= k2,
    ensures
        block_at(bs, position) == Some(b),
{
    reveal(block_at);
    let c = choose|k: u64|
        #[trigger] touching(bs, position, k) && forall|k2: u64| #[trigger] touching(bs, position, k2) ==> k <= k2;
    assert(touching(bs, position, c) && forall|k2: u64| #[trigger] touching(bs, position, k2) ==> c <= k2);
    assert(c <= b);
    assert(b <= c);
}

pub open spec fn touches_spec(b: BlockView, point: Vector2<i32>) -> bool {
    point.0 > b.position.0 - 3 && point.0 < b.position.0 + b.size.0 + 3 && point.1 > b.position.1
        - 3 && point.1 < b.position.1 + b.size.1 + 3
}

/// The blocks with each stored state of `saved` put back.
pub open spec fn applied_blocks(bs: Map<u64, BlockView>, saved: Seq<(u64, StateView)>) -> Map<u64, BlockView> {
    Map::new(
        |k: u64| bs.contains_key(k),
        |k: u64|
            match assoc_get(saved, k) {
                Some(st) => BlockView { state: st, ..bs[k] },
                None => bs[k],
            },
    )
}

/// The wires with each stored signal of `saved` put back.
pub open spec fn applied_connections(cs: Map<u64, ConnView>, saved: Seq<(u64, bool)>) -> Map<u64, ConnView> {
    Map::new(
        |k: u64| cs.contains_key(k),
        |k: u64|
            match assoc_get(saved, k) {
                Some(a) => ConnView { active: a, ..cs[k] },
                None => cs[k],
            },
    )
}

/// `saved` records the state of exactly the blocks of `bs`.
pub open spec fn snapshot_of_blocks(saved: Seq<(u64, StateView)>, bs: Map<u64, BlockView>) -> bool {
    forall|k: u64| #[trigger]
        assoc_get(saved, k) == if bs.contains_key(k) {
            Some(bs[k].state)
        } else {
            None::<StateView>
        }
}

/// `saved` records the signal of exactly the wires of `cs`.
pub open spec fn snapshot_of_connections(saved: Seq<(u64, bool)>, cs: Map<u64, ConnView>) -> bool {
    forall|k: u64| #[trigger]
        assoc_get(saved, k) == if cs.contains_key(k) {
            Some(cs[k].active)
        } else {
            None::<bool>
        }
}

/// Putting back a snapshot of a plot leaves the plot as it is.
pub proof fn lemma_apply_snapshot_restores(
    bs: Map<u64, BlockView>,
    cs: Map<u64, ConnView>,
    saved_blocks: Seq<(u64, StateView)>,
    saved_connections: Seq<(u64, bool)>,
)
    requires
        snapshot_of_blocks(saved_blocks, bs),
        snapshot_of_connections(saved_connections, cs),
    ensures
        applied_blocks(bs, saved_blocks) == bs,
        applied_connections(cs, saved_connections) == cs,
{
    assert forall|k: u64| bs.contains_key(k) implies #[trigger] applied_blocks(bs, saved_blocks)[k] == bs[k] by {
        assert(assoc_get(saved_blocks, k) == Some(bs[k].state));
    }
    assert forall|k: u64| cs.contains_key(k) implies #[trigger] applied_connections(cs, saved_connections)[k] == cs[k] by {
        assert(assoc_get(saved_connections, k) == Some(cs[k].active));
    }
    assert(applied_blocks(bs, saved_blocks) =~= bs);
    assert(applied_connections(cs, saved_connections) =~= cs);
}

/// Saving the states of a plot and putting them straight back leaves the
/// plot as it was.
/// Pushing a snapshot, then changing only block states and wire signals,
/// then popping gives back the plot as it was at the push.
pub proof fn lemma_push_change_pop(p: Plot, q: Plot, q2: Plot, r: Plot)
    requires
        state_pushed(p, q),
        q2.blocks_view().dom() == q.blocks_view().dom(),
        forall|k: u64| #[trigger]
            q2.blocks_view().contains_key(k) ==> q2.blocks_view()[k] == (BlockView {
                state: q2.blocks_view()[k].state,
                ..q.blocks_view()[k]
            }),
        q2.connections_view().dom() == q.connections_view().dom(),
        forall|k: u64| #[trigger]
            q2.connections_view().contains_key(k) ==> q2.connections_view()[k] == (ConnView {
                active: q2.connections_view()[k].active,
                ..q.connections_view()[k]
            }),
        q2.spec_states() == q.spec_states(),
        state_popped(q2, r),
    ensures
        r.blocks_view() == p.blocks_view(),
        r.connections_view() == p.connections_view(),
        r.spec_states() == p.spec_states(),
{
    let snap = q.spec_states().last();
    assert(q.blocks_view() == p.blocks_view());
    assert(q.connections_view() == p.connections_view());
    assert forall|k: u64| p.blocks_view().contains_key(k) implies #[trigger] r.blocks_view()[k] == p.blocks_view()[k] by {
        assert(assoc_get(snap.spec_blocks(), k) == Some(p.blocks_view()[k].state));
    }
    assert forall|k: u64| p.connections_view().contains_key(k) implies #[trigger] r.connections_view()[k]
        == p.connections_view()[k] by {
        assert(assoc_get(snap.spec_connections(), k) == Some(p.connections_view()[k].active));
    }
    assert(r.blocks_view() =~= p.blocks_view());
    assert(r.connections_view() =~= p.connections_view());
}

pub proof fn lemma_push_then_pop(p: Plot, q: Plot, r: Plot)
    requires
        state_pushed(p, q),
        state_popped(q, r),
    ensures
        r.blocks_view() == p.blocks_view(),
        r.connections_view() == p.connections_view(),
        r.spec_states() == p.spec_states(),
        r.spec_to_update() == p.spec_to_update(),
        r.spec_selection() == p.spec_selection(),
{
    let s = q.spec_states().last();
    lemma_apply_snapshot_restores(p.blocks_view(), p.connections_view(), s.spec_blocks(), s.spec_connections());
}

/// The same wires, up to their signals.
pub open spec fn same_wires(a: Map<u64, ConnView>, b: Map<u64, ConnView>) -> bool {
    &&& a.dom() == b.dom()
    &&& forall|k: u64| #[trigger]
        a.contains_key(k) ==> b[k].id == a[k].id && b[k].origin == a[k].origin && b[k].segments
            == a[k].segments
}

pub proof fn lemma_links_fit_same_wires(
    bs: Map<u64, BlockView>,
    a: Map<u64, ConnView>,
    b: Map<u64, ConnView>,
)
    requires
        links_fit(bs, a),
        same_wires(a, b),
    ensures
        links_fit(bs, b),
{
    assert forall|k: u64| #[trigger] b.contains_key(k) implies {
        let c = b[k];
        &&& port_in_range(bs, c.origin)
        &&& forall|i: int|
            0 <= i < c.destinations().len() ==> port_in_range(bs, #[trigger] c.destinations()[i])
    } by {
        assert(a.contains_key(k));
        assert(b[k].destinations() == a[k].destinations());
    }
}

impl Plot {
    /// A snapshot of every block's state and every wire's signal.
    pub fn snapshot(&self) -> (s: PlotState)
        ensures
            snapshot_of_blocks(s.spec_blocks(), self.blocks_view()),
            snapshot_of_connections(s.spec_connections(), self.connections_view()),
    {
        let mut s = PlotState::new();
        let keys = keys_of(&self.blocks);
        let mut i: usize = 0;
        while i < keys.len()
            invariant
                0 <= i <= keys.len(),
                forall|k: u64| self.blocks@.contains_key(k) <==> keys@.contains(k),
                forall|k: u64| #[trigger]
                    assoc_get(s.spec_blocks(), k) == if keys@.subrange(0, i as int).contains(k) {
                        Some(self.blocks_view()[k].state)
                    } else {
                        None::<StateView>
                    },
                s.spec_connections() == Seq::<(u64, bool)>::empty(),
            decreases keys.len() - i,
        {
            let k = keys[i];
            assert(keys@.contains(k));
            let b = self.blocks.get(&k).unwrap();
            let st = b.state().duplicate();
            let ghost before = s.spec_blocks();
            s.push_block(k, st);
            proof {
                assert(keys@.subrange(0, i + 1) =~= keys@.subrange(0, i as int).push(k));
                assert forall|k2: u64| #[trigger]
                    assoc_get(s.spec_blocks(), k2) == if keys@.subrange(0, i + 1).contains(k2) {
                        Some(self.blocks_view()[k2].state)
                    } else {
                        None::<StateView>
                    } by {
                    lemma_assoc_get_push(before, (k, st@), k2);
                    broadcast use vstd::seq_lib::group_seq_properties;
                }
            }
            i = i + 1;
        }
        proof {
            assert(keys@.subrange(0, keys@.len() as int) =~= keys@);
        }
        let ckeys = keys_of(&self.connections);
        let mut j: usize = 0;
        while j < ckeys.len()
            invariant
                0 <= j <= ckeys.len(),
                forall|k: u64| self.connections@.contains_key(k) <==> ckeys@.contains(k),
                forall|k: u64| #[trigger]
                    assoc_get(s.spec_blocks(), k) == if keys@.contains(k) {
                        Some(self.blocks_view()[k].state)
                    } else {
                        None::<StateView>
                    },
                forall|k: u64| #[trigger]
                    assoc_get(s.spec_connections(), k) == if ckeys@.subrange(0, j as int).contains(k) {
                        Some(self.connections_view()[k].active)
                    } else {
                        None::<bool>
                    },
            decreases ckeys.len() - j,
        {
            let k = ckeys[j];
            assert(ckeys@.contains(k));
            let c = self.connections.get(&k).unwrap();
            let a = c.is_active();
            let ghost before = s.spec_connections();
            s.push_connection(k, a);
            proof {
                assert(ckeys@.subrange(0, j + 1) =~= ckeys@.subrange(0, j as int).push(k));
                assert forall|k2: u64| #[trigger]
                    assoc_get(s.spec_connections(), k2) == if ckeys@.subrange(0, j + 1).contains(k2) {
                        Some(self.connections_view()[k2].active)
                    } else {
                        None::<bool>
                    } by {
                    lemma_assoc_get_push(before, (k, a), k2);
                    broadcast use vstd::seq_lib::group_seq_properties;
                }
            }
            j = j + 1;
        }
        proof {
            assert(keys@.subrange(0, keys@.len() as int) =~= keys@);
            assert(ckeys@.subrange(0, ckeys@.len() as int) =~= ckeys@);
        }
        s
    }

    /// Puts back the states and signals that `state` records for the
    /// blocks and wires of the plot.
    pub fn apply_state(&mut self, state: &PlotState)
        requires
            old(self).wf(),
        ensures
            final(self).wf(),
            final(self).blocks_view() == applied_blocks(old(self).blocks_view(), state.spec_blocks()),
            final(self).connections_view() == applied_connections(
                old(self).connections_view(),
                state.spec_connections(),
            ),
            final(self).spec_to_update() == old(self).spec_to_update(),
            final(self).spec_states() == old(self).spec_states(),
            final(self).spec_selection() == old(self).spec_selection(),
    {
        let ghost ob = old(self).blocks_view();
        let ghost oc = old(self).connections_view();
        let keys = keys_of(&self.blocks);
        let mut i: usize = 0;
        while i < keys.len()
            invariant
                0 <= i <= keys.len(),
                keys@.no_duplicates(),
                forall|k: u64| ob.contains_key(k) <==> keys@.contains(k),
                self.blocks_view().dom() == ob.dom(),
                forall|k: u64| #[trigger] self.blocks_view().contains_key(k) ==> self.blocks_view()[k]
                    == if keys@.subrange(0, i as int).contains(k) {
                        applied_blocks(ob, state.spec_blocks())[k]
                    } else {
                        ob[k]
                    },
                self.connections@ == old(self).connections@,
                self.to_update@ == old(self).to_update@,
                self.states@ == old(self).states@,
                self.selection == old(self).selection,
            decreases keys.len() - i,
        {
            let k = keys[i];
            proof {
                assert(keys@.subrange(0, i + 1) =~= keys@.subrange(0, i as int).push(k));
                assert(!keys@.subrange(0, i as int).contains(k)) by {
                    if keys@.subrange(0, i as int).contains(k) {
                        let j = choose|j: int| 0 <= j < i && keys@.subrange(0, i as int)[j] == k;
                        assert(keys@[j] == keys@[i as int]);
                    }
                }
                assert(keys@.contains(k));
            }
            match state.block_state(k) {
                Some(st) => {
                    let ghost before = self.blocks_view();
                    let mut b = self.blocks.remove(&k).unwrap();
                    b.set_state(st.duplicate());
                    self.blocks.insert(k, b);
                    proof {
                        assert(self.blocks_view() =~= before.insert(k, applied_blocks(ob, state.spec_blocks())[k]));
                    }
                },
                None => {},
            }
            proof {
                broadcast use vstd::seq_lib::group_seq_properties;
            }
            i = i + 1;
        }
        proof {
            assert(keys@.subrange(0, keys@.len() as int) =~= keys@);
            assert(self.blocks_view() =~= applied_blocks(ob, state.spec_blocks()));
            assert(same_pins(ob, self.blocks_view()));
            lemma_links_fit_same_pins(ob, self.blocks_view(), oc);
        }
        let ghost mb = self.blocks_view();
        let ckeys = keys_of(&self.connections);
        let mut j: usize = 0;
        while j < ckeys.len()
            invariant
                0 <= j <= ckeys.len(),
                ckeys@.no_duplicates(),
                forall|k: u64| oc.contains_key(k) <==> ckeys@.contains(k),
                self.connections_view().dom() == oc.dom(),
                forall|k: u64| #[trigger] self.connections_view().contains_key(k) ==> self.connections_view()[k]
                    == if ckeys@.subrange(0, j as int).contains(k) {
                        applied_connections(oc, state.spec_connections())[k]
                    } else {
                        oc[k]
                    },
                self.blocks_view() == mb,
                self.to_update@ == old(self).to_update@,
                self.states@ == old(self).states@,
                self.selection == old(self).selection,
            decreases ckeys.len() - j,
        {
            let k = ckeys[j];
            proof {
                assert(ckeys@.subrange(0, j + 1) =~= ckeys@.subrange(0, j as int).push(k));
                assert(!ckeys@.subrange(0, j as int).contains(k)) by {
                    if ckeys@.subrange(0, j as int).contains(k) {
                        let x = choose|x: int| 0 <= x < j && ckeys@.subrange(0, j as int)[x] == k;
                        assert(ckeys@[x] == ckeys@[j as int]);
                    }
                }
                assert(ckeys@.contains(k));
            }
            match state.connection_state(k) {
                Some(a) => {
                    let ghost before = self.connections_view();
                    let mut c = self.connections.remove(&k).unwrap();
                    c.set_active(a);
                    self.connections.insert(k, c);
                    proof {
                        assert(self.connections_view() =~= before.insert(k, applied_connections(oc, state.spec_connections())[k]));
                    }
                },
                None => {},
            }
            proof {
                broadcast use vstd::seq_lib::group_seq_properties;
            }
            j = j + 1;
        }
        proof {
            assert(ckeys@.subrange(0, ckeys@.len() as int) =~= ckeys@);
            assert(self.connections_view() =~= applied_connections(oc, state.spec_connections()));
            assert(same_wires(oc, self.connections_view()));
            lemma_links_fit_same_wires(mb, oc, self.connections_view());
        }
    }

    /// Saves a snapshot of the plot's states on the stack.
    pub fn push_state(&mut self)
        ensures
            state_pushed(*old(self), *final(self)),
    {
        let state = self.snapshot();
        self.states.push(state);
        proof {
            assert(self.states@.drop_last() =~= old(self).states@);
        }
    }

    /// Takes the latest snapshot off the stack and puts its states back;
    /// with an empty stack nothing happens.
    pub fn pop_state(&mut self)
        requires
            old(self).wf(),
        ensures
            final(self).wf(),
            state_popped(*old(self), *final(self)),
    {
        match self.states.pop() {
            Some(state) => {
                self.apply_state(&state);
            },
            None => {},
        }
    }
}

/// How often a block may be simulated again within one simulation step
/// before it is put off to the next step.
pub const RECURSION_CAP: u8 = 100;

/// How many more times block `k` may be simulated in this step.
pub open spec fn remaining_runs(counts: Map<u64, u8>, k: u64) -> int {
    if counts.contains_key(k) {
        RECURSION_CAP - counts[k]
    } else {
        RECURSION_CAP + 1
    }
}

/// How many more block simulations this step allows, over the blocks `ks`.
pub open spec fn run_budget(counts: Map<u64, u8>, ks: Seq<u64>) -> int
    decreases ks.len(),
{
    if ks.len() == 0 {
        0
    } else {
        run_budget(counts, ks.drop_last()) + remaining_runs(counts, ks.last())
    }
}

pub proof fn lemma_run_budget_nonneg(counts: Map<u64, u8>, ks: Seq<u64>)
    requires
        forall|k: u64| #[trigger] counts.contains_key(k) ==> counts[k] <= RECURSION_CAP,
    ensures
        run_budget(counts, ks) >= 0,
    decreases ks.len(),
{
    if ks.len() > 0 {
        lemma_run_budget_nonneg(counts, ks.drop_last());
    }
}

pub proof fn lemma_run_budget_other(counts: Map<u64, u8>, ks: Seq<u64>, k: u64, v: u8)
    requires
        !ks.contains(k),
    ensures
        run_budget(counts.insert(k, v), ks) == run_budget(counts, ks),
    decreases ks.len(),
{
    if ks.len() > 0 {
        assert(!ks.drop_last().contains(k)) by {
            if ks.drop_last().contains(k) {
                let i = choose|i: int| 0 <= i < ks.drop_last().len() && ks.drop_last()[i] == k;
                assert(ks[i] == k);
            }
        }
        assert(ks.last() != k) by {
            assert(ks[ks.len() - 1] == ks.last());
        }
        lemma_run_budget_other(counts, ks.drop_last(), k, v);
    }
}

pub proof fn lemma_run_budget_step(counts: Map<u64, u8>, ks: Seq<u64>, k: u64, v: u8)
    requires
        ks.no_duplicates(),
        ks.contains(k),
        remaining_runs(counts.insert(k, v), k) == remaining_runs(counts, k) - 1,
    ensures
        run_budget(counts.insert(k, v), ks) == run_budget(counts, ks) - 1,
    decreases ks.len(),
{
    let d = ks.drop_last();
    if ks.last() == k {
        assert(!d.contains(k)) by {
            if d.contains(k) {
                let i = choose|i: int| 0 <= i < d.len() && d[i] == k;
                assert(ks[i] == ks[ks.len() - 1]);
            }
        }
        lemma_run_budget_other(counts, d, k, v);
    } else {
        assert(d.contains(k)) by {
            let i = choose|i: int| 0 <= i < ks.len() && ks[i] == k;
            assert(i != ks.len() - 1);
            assert(d[i] == k);
        }
        assert(d.no_duplicates()) by {
            assert forall|a: int, b: int| 0 <= a < d.len() && 0 <= b < d.len() && a != b implies d[a] != d[b] by {
                assert(d[a] == ks[a] && d[b] == ks[b]);
            }
        }
        lemma_run_budget_step(counts, d, k, v);
    }
}

impl Plot {
    /// Sets the bytes of a block and whether it passes its inputs through;
    /// returns whether the block exists.
    pub fn set_block_io(&mut self, id: BlockID, bytes: u128, passthrough: bool) -> (found: bool)
        requires
            old(self).wf(),
        ensures
            final(self).wf(),
            found == old(self).blocks_view().contains_key(id.0),
            found ==> final(self).blocks_view() == old(self).blocks_view().insert(
                id.0,
                BlockView { bytes, passthrough, ..old(self).blocks_view()[id.0] },
            ),
            !found ==> final(self).blocks_view() == old(self).blocks_view(),
            same_shape(old(self).blocks_view(), final(self).blocks_view()),
            final(self).spec_connections() == old(self).spec_connections(),
            final(self).spec_to_update() == old(self).spec_to_update(),
            final(self).spec_states() == old(self).spec_states(),
            final(self).spec_selection() == old(self).spec_selection(),
    {
        match self.blocks.remove(&id.0) {
            Some(mut block) => {
                block.set_bytes(bytes);
                block.set_passthrough(passthrough);
                self.blocks.insert(id.0, block);
                proof {
                    assert(self.blocks_view() =~= old(self).blocks_view().insert(
                        id.0,
                        BlockView { bytes, passthrough, ..old(self).blocks_view()[id.0] },
                    ));
                    lemma_links_fit_same_pins(
                        old(self).blocks_view(),
                        self.blocks_view(),
                        self.connections_view(),
                    );
                }
                true
            },
            None => {
                proof {
                    assert(self.blocks_view() =~= old(self).blocks_view());
                }
                false
            },
        }
    }

    /// Simulates the blocks waiting for an update, and the blocks their
    /// changed wires reach, until nothing waits any more. A block that has
    /// been simulated more than `RECURSION_CAP` times in this step waits
    /// for the next one. Returns whether anything was waiting.
    pub fn simulate(&mut self, project: &mut Project, call_stack: &mut Vec<String>) -> (r: SimResult<bool>)
        requires
            old(self).wf(),
            pins_bounded(old(self).blocks_view()),
            old(project).wf(),
        ensures
            final(self).wf(),
            plot_run(*old(self), old(project).spec_modules(), r, *final(self)),
            pins_bounded(final(self).blocks_view()),
            final(project).wf(),
            names_of(final(project).spec_modules()) == names_of(old(project).spec_modules()),
            modules_shape_same(old(project).spec_modules(), final(project).spec_modules()),
            final(project).spec_main_plot() == old(project).spec_main_plot(),
            final(call_stack)@ == old(call_stack)@,
            old(self).spec_to_update().len() == 0 ==> *final(project) == *old(project),
            only_simple_blocks(old(self).blocks_view(), old(project).spec_modules(), old(call_stack)@) ==> r is Ok
                && final(project).spec_modules() == old(project).spec_modules(),
        decreases old(project).spec_modules().len(), 2int,
    {
        let ghost ob = self.blocks_view();
        let ghost oc = self.connections_view();
        let ghost n = project.spec_modules().len();
        let ghost ms0 = project.spec_modules();
        let ghost w0 = self.to_update@;
        let keys = keys_of(&self.blocks);
        let mut counts: HashMap<u64, u8> = HashMap::new();
        let mut queued: HashSet<u64> = HashSet::new();
        let mut changes = false;
        let ghost mut g_ids: Seq<u64> = Seq::empty();
        let ghost mut g_outs: Seq<u128> = Seq::empty();
        let ghost mut g_bss: Seq<Map<u64, BlockView>> = seq![ob];
        let ghost mut g_css: Seq<Map<u64, ConnView>> = seq![oc];
        proof {
            lemma_run_budget_nonneg(counts@, keys@);
        }
        while !self.to_update.is_empty()
            invariant
                ob == old(self).blocks_view(),
                oc == old(self).connections_view(),
                w0 == old(self).to_update@,
                ms0 == old(project).spec_modules(),
                crate::project::names_unique(ms0),
                keys@.no_duplicates(),
                forall|k: u64| ob.contains_key(k) <==> keys@.contains(k),
                views_wf(ob, oc),
                pins_bounded(ob),
                same_shape(ob, self.blocks_view()),
                same_wires(oc, self.connections_view()),
                forall|k: u64| #[trigger] counts@.contains_key(k) ==> ob.contains_key(k) && counts@[k] <= RECURSION_CAP,
                queued@.subset_of(ob.dom()),
                project.wf(),
                project.spec_modules().len() == n,
                n == old(project).spec_modules().len(),
                names_of(project.spec_modules()) == names_of(old(project).spec_modules()),
                modules_shape_same(old(project).spec_modules(), project.spec_modules()),
                project.spec_main_plot() == old(project).spec_main_plot(),
                call_stack@ == old(call_stack)@,
                only_simple_blocks(ob, old(project).spec_modules(), old(call_stack)@) ==> project.spec_modules()
                    == old(project).spec_modules(),
                self.states@ == old(self).states@,
                self.selection == old(self).selection,
                changes ==> old(self).to_update@.len() > 0,
                !changes ==> self.to_update@ == old(self).to_update@,
                !changes ==> self.blocks_view() == ob && self.connections_view() == oc && *project
                    == *old(project) && queued@.len() == 0 && g_ids.len() == 0,
                run_budget(counts@, keys@) >= 0,
                trace_shape(g_ids, g_outs, g_bss, g_css, ob, oc, self.blocks_view(), self.connections_view()),
                forall|t: int| 0 <= t < g_ids.len() ==> #[trigger] step_at(ms0, g_ids, g_outs, g_bss, g_css, t),
                forall|k: u64| #[trigger] counts@.contains_key(k) ==> g_ids.contains(k),
                forall|k: u64| #[trigger] queued@.contains(k) ==> g_ids.contains(k),
                forall|k: u64| #[trigger] queued@.contains(k) ==> counts@.contains_key(k) && counts@[k] == RECURSION_CAP,
                forall|k: u64| #[trigger] runs_of(g_ids, k) == if counts@.contains_key(k) { counts@[k] + 1 } else { 0 },
                forall|k: u64|
                    #[trigger] w0.contains(k) && ob.contains_key(k) ==> g_ids.contains(k) || self.to_update@.contains(
                        k,
                    ),
                forall|t: int, k: u64|
                    0 <= t < g_ids.len() && ob.contains_key(k) && #[trigger] step_updates(
                        ms0,
                        g_bss[t][g_ids[t]],
                        g_outs[t],
                        g_css[t],
                    ).contains(k) ==> self.to_update@.contains(k) || queued@.contains(k) || later(g_ids, t, k),
            decreases 2 * run_budget(counts@, keys@) + if self.to_update@.len() == 0 {
                0int
            } else {
                1int
            },
        {
            let ghost tu = self.to_update@;
            let ids = elems_of(&self.to_update);
            self.to_update = HashSet::new();
            changes = true;
            let ghost b0 = run_budget(counts@, keys@);
            let mut ran = false;
            let mut j: usize = 0;
            proof {
                assert forall|k: u64| #[trigger] w0.contains(k) && ob.contains_key(k) implies g_ids.contains(k)
                    || self.to_update@.contains(k) || rest_has(ids@, 0, k) by {
                    if !g_ids.contains(k) {
                        assert(ids@.contains(k));
                    }
                }
                assert forall|t: int, k: u64|
                    0 <= t < g_ids.len() && ob.contains_key(k) && #[trigger] step_updates(
                        ms0,
                        g_bss[t][g_ids[t]],
                        g_outs[t],
                        g_css[t],
                    ).contains(k) implies self.to_update@.contains(k) || queued@.contains(k) || later(g_ids, t, k)
                    || rest_has(ids@, 0, k) by {
                    if tu.contains(k) {
                        assert(ids@.contains(k));
                    }
                }
            }
            while j < ids.len()
                invariant
                    0 <= j <= ids.len(),
                    ob == old(self).blocks_view(),
                    oc == old(self).connections_view(),
                    w0 == old(self).to_update@,
                    ms0 == old(project).spec_modules(),
                    crate::project::names_unique(ms0),
                    keys@.no_duplicates(),
                    forall|k: u64| ob.contains_key(k) <==> keys@.contains(k),
                    views_wf(ob, oc),
                    pins_bounded(ob),
                    same_shape(ob, self.blocks_view()),
                    same_wires(oc, self.connections_view()),
                    forall|k: u64| #[trigger] counts@.contains_key(k) ==> ob.contains_key(k) && counts@[k] <= RECURSION_CAP,
                    queued@.subset_of(ob.dom()),
                    project.wf(),
                    project.spec_modules().len() == n,
                    n == old(project).spec_modules().len(),
                    names_of(project.spec_modules()) == names_of(old(project).spec_modules()),
                    modules_shape_same(old(project).spec_modules(), project.spec_modules()),
                    project.spec_main_plot() == old(project).spec_main_plot(),
                    call_stack@ == old(call_stack)@,
                    only_simple_blocks(ob, old(project).spec_modules(), old(call_stack)@) ==> project.spec_modules()
                        == old(project).spec_modules(),
                    self.states@ == old(self).states@,
                    self.selection == old(self).selection,
                    changes,
                    changes ==> old(self).to_update@.len() > 0,
                    run_budget(counts@, keys@) >= 0,
                    ran ==> run_budget(counts@, keys@) < b0,
                    !ran ==> run_budget(counts@, keys@) == b0 && self.to_update@.len() == 0,
                    trace_shape(g_ids, g_outs, g_bss, g_css, ob, oc, self.blocks_view(), self.connections_view()),
                    forall|t: int| 0 <= t < g_ids.len() ==> #[trigger] step_at(ms0, g_ids, g_outs, g_bss, g_css, t),
                    forall|k: u64| #[trigger] counts@.contains_key(k) ==> g_ids.contains(k),
                    forall|k: u64| #[trigger] queued@.contains(k) ==> g_ids.contains(k),
                    forall|k: u64| #[trigger] queued@.contains(k) ==> counts@.contains_key(k) && counts@[k] == RECURSION_CAP,
                    forall|k: u64| #[trigger] runs_of(g_ids, k) == if counts@.contains_key(k) { counts@[k] + 1 } else { 0 },
                    forall|k: u64|
                        #[trigger] w0.contains(k) && ob.contains_key(k) ==> g_ids.contains(k)
                            || self.to_update@.contains(k) || rest_has(ids@, j as int, k),
                    forall|t: int, k: u64|
                        0 <= t < g_ids.len() && ob.contains_key(k) && #[trigger] step_updates(
                            ms0,
                            g_bss[t][g_ids[t]],
                            g_outs[t],
                            g_css[t],
                        ).contains(k) ==> self.to_update@.contains(k) || queued@.contains(k) || later(g_ids, t, k)
                            || rest_has(ids@, j as int, k),
                decreases ids.len() - j,
            {
                let id = ids[j];
                let ghost tu0 = self.to_update@;
                let ghost q0 = queued@;
                let ghost ids0 = g_ids;
                let ghost outs0 = g_outs;
                let ghost bss0 = g_bss;
                let ghost css0 = g_css;
                let mut skip = false;
                let ghost c_before = counts@;
                if counts.contains_key(&id) {
                    let occ = *counts.get(&id).unwrap();
                    if occ >= RECURSION_CAP {
                        queued.insert(id);
                        skip = true;
                    } else {
                        counts.insert(id, occ + 1);
                        proof {
                            assert(keys@.contains(id));
                            lemma_run_budget_step(c_before, keys@, id, (occ + 1) as u8);
                        }
                    }
                }
                if !skip {
                    let ghost bv = self.blocks_view();
                    let ghost cv = self.connections_view();
                    match self.blocks.remove(&id) {
                        Some(mut block) => {
                            proof {
                                assert(bv.contains_key(id));
                                assert(block@ == bv[id]);
                                assert(ob.contains_key(id));
                            }
                            let ghost ms_before = project.spec_modules();
                            let ghost upd_before = self.to_update@;
                            let ghost cmap0 = self.connections@;
                            let ghost b_old = block@;
                            let r = block.simulate(&mut self.connections, &mut self.to_update, project, call_stack);
                            self.blocks.insert(id, block);
                            proof {
                                lemma_modules_shape_trans(old(project).spec_modules(), ms_before, project.spec_modules());
                                assert(names_of(project.spec_modules()).len() == project.spec_modules().len());
                                assert(names_of(old(project).spec_modules()).len() == old(project).spec_modules().len());
                                assert(self.blocks_view() =~= bv.insert(id, block@));
                                assert(same_shape(ob, self.blocks_view()));
                            }
                            match r {
                                Err(e) => {
                                    proof {
                                        if only_simple_blocks(ob, old(project).spec_modules(), old(call_stack)@) {
                                            assert(ob.contains_key(id));
                                            assert(false);
                                        }
                                        lemma_views_wf_same_shape(ob, oc, self.blocks_view(), self.connections_view());
                                        assert forall|k: u64| #[trigger] self.blocks_view().contains_key(k) implies
                                            self.blocks_view()[k].inputs.len() <= MAX_PINS
                                            && self.blocks_view()[k].outputs.len() <= MAX_PINS by {
                                            assert(ob.contains_key(k));
                                        }
                                    }
                                    return Err(e);
                                },
                                Ok(_) => {},
                            }
                            proof {
                                let cw = wires_view(cmap0);
                                let cw2 = wires_view(self.connections@);
                                assert(cv =~= cw);
                                assert(self.connections_view() =~= cw2);
                                let out = choose|out: u128|
                                    #[trigger] crate::block::block_ran(ms_before, b_old, cw, out, block@, cw2)
                                        && self.to_update@ == upd_before.union(
                                        step_updates(ms_before, b_old, out, cw),
                                    );
                                crate::block::lemma_block_ran_modules(ms0, ms_before, b_old, cw, out, block@, cw2);
                                assert(block_step(ms0, bv, cv, id, out, self.blocks_view(), self.connections_view()));
                                assert(step_updates(ms0, bv[id], out, cv).subset_of(self.to_update@));
                                g_ids = ids0.push(id);
                                g_outs = outs0.push(out);
                                g_bss = bss0.push(self.blocks_view());
                                g_css = css0.push(self.connections_view());
                                lemma_trace_push(ms0, ids0, outs0, bss0, css0, id, out, self.blocks_view(), self.connections_view());
                                lemma_runs_of_push(ids0, id);
                                assert(g_ids.subrange(0, ids0.len() as int) =~= ids0);
                                assert(g_outs.subrange(0, ids0.len() as int) =~= outs0);
                                assert(g_bss.subrange(0, bss0.len() as int) =~= bss0);
                                assert(g_css.subrange(0, css0.len() as int) =~= css0);
                                assert(g_ids.contains(id)) by {
                                    assert(g_ids[ids0.len() as int] == id);
                                }
                            }
                            if !counts.contains_key(&id) {
                                let ghost c1 = counts@;
                                counts.insert(id, 0);
                                proof {
                                    assert(keys@.contains(id));
                                    lemma_run_budget_step(c1, keys@, id, 0u8);
                                }
                            }
                            ran = true;
                        },
                        None => {
                            proof {
                                assert(self.blocks_view() =~= bv);
                            }
                        },
                    }
                }
                proof {
                    lemma_run_budget_nonneg(counts@, keys@);
                    lemma_inner_obligations(
                        ms0,
                        ob,
                        w0,
                        ids@,
                        j as int,
                        ids0,
                        outs0,
                        bss0,
                        css0,
                        g_ids,
                        g_outs,
                        g_bss,
                        g_css,
                        tu0,
                        self.to_update@,
                        q0,
                        queued@,
                    );
                    assert forall|k: u64| #[trigger] counts@.contains_key(k) implies g_ids.contains(k) by {
                        if k != id {
                            assert(c_before.contains_key(k));
                            assert(ids0.contains(k));
                            lemma_contains_push_kept(ids0, g_ids, k);
                        } else if c_before.contains_key(k) {
                            assert(ids0.contains(k));
                            lemma_contains_push_kept(ids0, g_ids, k);
                        }
                    }
                    assert forall|k: u64| #[trigger] queued@.contains(k) implies g_ids.contains(k) by {
                        if q0.contains(k) {
                            lemma_contains_push_kept(ids0, g_ids, k);
                        } else {
                            assert(c_before.contains_key(k));
                            lemma_contains_push_kept(ids0, g_ids, k);
                        }
                    }
                }
                j = j + 1;
            }
        }
        proof {
            self.to_update@.lemma_len0_is_empty();
        }
        self.to_update = queued;
        proof {
            lemma_views_wf_same_shape(ob, oc, self.blocks_view(), self.connections_view());
            assert forall|k: u64| #[trigger] self.blocks_view().contains_key(k) implies
                self.blocks_view()[k].inputs.len() <= MAX_PINS
                && self.blocks_view()[k].outputs.len() <= MAX_PINS by {
                assert(ob.contains_key(k));
            }
            assert(run_steps(
                ms0,
                g_ids,
                g_outs,
                g_bss,
                g_css,
                ob,
                oc,
                w0,
                self.blocks_view(),
                self.connections_view(),
                self.to_update@,
            ));
            assert(old(self).spec_to_update() == w0);
            assert(self.spec_to_update() == self.to_update@);
            assert(run_steps(
                ms0,
                g_ids,
                g_outs,
                g_bss,
                g_css,
                old(self).blocks_view(),
                old(self).connections_view(),
                old(self).spec_to_update(),
                self.blocks_view(),
                self.connections_view(),
                self.spec_to_update(),
            ));
            assert(plot_run(*old(self), ms0, SimResult::<bool>::Ok(changes), *self));
        }
        Ok(changes)
    }
}

impl Plot {
    /// Whether every wire that names the identifier of `block` names pins
    /// that `block` has, so that the block can be placed.
    pub fn block_fits(&self, block: &Block) -> (fits: bool)
        ensures
            fits == wires_fit(self.connections_view(), block@.id.0, block@),
    {
        let k = block.id().0;
        let keys = keys_of(&self.connections);
        let mut i: usize = 0;
        while i < keys.len()
            invariant
                0 <= i <= keys.len(),
                forall|c: u64| self.connections@.contains_key(c) <==> keys@.contains(c),
                k == block@.id.0,
                forall|j: int| 0 <= j < i ==> {
                    let w = self.connections_view()[#[trigger] keys@[j]];
                    port_fits(w.origin, k, block@) && forall|x: int|
                        0 <= x < w.destinations().len() ==> port_fits(#[trigger] w.destinations()[x], k, block@)
                },
            decreases keys.len() - i,
        {
            let c = keys[i];
            assert(keys@.contains(c));
            let conn = self.connections.get(&c).unwrap();
            if !port_fits_exec(conn.origin(), k, block) {
                proof {
                    assert(self.connections_view().contains_key(c));
                }
                return false;
            }
            let dests = conn.destinations();
            let mut j: usize = 0;
            #[verifier::loop_isolation(false)]
            while j < dests.len()
                invariant
                    0 <= j <= dests.len(),
                    forall|x: int| 0 <= x < j ==> port_fits(#[trigger] dests@[x], k, block@),
                decreases dests.len() - j,
            {
                if !port_fits_exec(dests[j], k, block) {
                    proof {
                        assert(self.connections_view().contains_key(c));
                        assert(self.connections_view()[c] == conn@);
                        assert(dests@[j as int] == self.connections_view()[c].destinations()[j as int]);
                    }
                    return false;
                }
                j = j + 1;
            }
            proof {
                assert(self.connections_view()[c] == conn@);
            }
            i = i + 1;
        }
        proof {
            assert forall|c: u64| #[trigger] self.connections_view().contains_key(c) implies
                port_fits(self.connections_view()[c].origin, k, block@) && forall|x: int|
                    0 <= x < self.connections_view()[c].destinations().len() ==> port_fits(
                        #[trigger] self.connections_view()[c].destinations()[x],
                        k,
                        block@,
                    ) by {
                assert(keys@.contains(c));
                let j = choose|j: int| 0 <= j < keys@.len() && keys@[j] == c;
            }
        }
        true
    }
}

/// The blocks with the highlighting of those that `pick` names set to `h`.
pub open spec fn highlight_where(bs: Map<u64, BlockView>, pick: spec_fn(u64) -> bool, h: bool) -> Map<
    u64,
    BlockView,
> {
    Map::new(
        |k: u64| bs.contains_key(k),
        |k: u64|
            if pick(k) {
                BlockView { highlighted: h, ..bs[k] }
            } else {
                bs[k]
            },
    )
}

/// The wires with the highlighting of their waypoints set (see
/// `seg_mark`).
pub open spec fn mark_wires(cs: Map<u64, ConnView>, area: Option<(Vector2<i32>, Vector2<i32>)>, h: bool) -> Map<
    u64,
    ConnView,
> {
    Map::new(
        |k: u64| cs.contains_key(k),
        |k: u64| ConnView { segments: crate::connection::children_mark(cs[k].segments, area, h), ..cs[k] },
    )
}

impl Plot {
    /// Sets the highlighting of the blocks that `pick` names (by their
    /// keys, in the order of `keys`).
    fn highlight_blocks(&mut self, keys: &Vec<u64>, h: bool, Ghost(pick): Ghost<spec_fn(u64) -> bool>)
        requires
            forall|k: u64| #[trigger] keys@.contains(k) ==> pick(k),
            forall|k: u64| #[trigger] pick(k) && old(self).blocks_view().contains_key(k) ==> keys@.contains(k),
        ensures
            final(self).blocks_view() == highlight_where(old(self).blocks_view(), pick, h),
            old(self).wf() ==> final(self).wf(),
            final(self).spec_connections() == old(self).spec_connections(),
            final(self).spec_to_update() == old(self).spec_to_update(),
            final(self).spec_states() == old(self).spec_states(),
            final(self).spec_selection() == old(self).spec_selection(),
    {
        let ghost ob = self.blocks_view();
        let mut i: usize = 0;
        while i < keys.len()
            invariant
                0 <= i <= keys.len(),
                forall|k: u64| #[trigger] keys@.contains(k) ==> pick(k),
                forall|k: u64| #[trigger] pick(k) && ob.contains_key(k) ==> keys@.contains(k),
                self.blocks_view().dom() == ob.dom(),
                forall|k: u64| #[trigger] self.blocks_view().contains_key(k) ==> self.blocks_view()[k]
                    == if keys@.subrange(0, i as int).contains(k) {
                        BlockView { highlighted: h, ..ob[k] }
                    } else {
                        ob[k]
                    },
                ob == old(self).blocks_view(),
                self.connections@ == old(self).connections@,
                self.to_update@ == old(self).to_update@,
                self.states@ == old(self).states@,
                self.selection == old(self).selection,
            decreases keys.len() - i,
        {
            let k = keys[i];
            let ghost before = self.blocks_view();
            match self.blocks.remove(&k) {
                Some(mut b) => {
                    b.set_highlighted(h);
                    self.blocks.insert(k, b);
                    proof {
                        assert(self.blocks_view() =~= before.insert(k, BlockView { highlighted: h, ..ob[k] }));
                    }
                },
                None => {
                    proof {
                        assert(self.blocks_view() =~= before);
                    }
                },
            }
            proof {
                broadcast use vstd::seq_lib::group_seq_properties;

                assert(keys@.subrange(0, i + 1) =~= keys@.subrange(0, i as int).push(k));
            }
            i = i + 1;
        }
        proof {
            assert(keys@.subrange(0, keys@.len() as int) =~= keys@);
            assert forall|k: u64| #[trigger] self.blocks_view().contains_key(k) implies self.blocks_view()[k]
                == highlight_where(ob, pick, h)[k] by {
                if pick(k) {
                    assert(keys@.contains(k));
                }
            }
            assert(self.blocks_view() =~= highlight_where(ob, pick, h));
            assert(same_pins(ob, self.blocks_view()));
            if old(self).wf() {
                lemma_links_fit_same_pins(ob, self.blocks_view(), self.connections_view());
            }
        }
    }

    /// Sets the highlighting of the waypoints of every wire.
    fn mark_connections(&mut self, area: Option<(Vector2<i32>, Vector2<i32>)>, h: bool)
        ensures
            final(self).connections_view() == mark_wires(old(self).connections_view(), area, h),
            old(self).wf() ==> final(self).wf(),
            final(self).spec_blocks() == old(self).spec_blocks(),
            final(self).spec_to_update() == old(self).spec_to_update(),
            final(self).spec_states() == old(self).spec_states(),
            final(self).spec_selection() == old(self).spec_selection(),
    {
        let ghost oc = self.connections_view();
        let keys = keys_of(&self.connections);
        let mut i: usize = 0;
        while i < keys.len()
            invariant
                0 <= i <= keys.len(),
                keys@.no_duplicates(),
                forall|k: u64| oc.contains_key(k) <==> keys@.contains(k),
                self.connections_view().dom() == oc.dom(),
                forall|k: u64| #[trigger] self.connections_view().contains_key(k) ==> self.connections_view()[k]
                    == if keys@.subrange(0, i as int).contains(k) {
                        mark_wires(oc, area, h)[k]
                    } else {
                        oc[k]
                    },
                oc == old(self).connections_view(),
                self.blocks@ == old(self).blocks@,
                self.to_update@ == old(self).to_update@,
                self.states@ == old(self).states@,
                self.selection == old(self).selection,
            decreases keys.len() - i,
        {
            let k = keys[i];
            proof {
                assert(keys@.contains(k));
                assert(!keys@.subrange(0, i as int).contains(k)) by {
                    if keys@.subrange(0, i as int).contains(k) {
                        let j = choose|j: int| 0 <= j < i && keys@.subrange(0, i as int)[j] == k;
                        assert(keys@[j] == keys@[i as int]);
                    }
                }
            }
            let ghost before = self.connections_view();
            let mut c = self.connections.remove(&k).unwrap();
            c.mark(area, h);
            self.connections.insert(k, c);
            proof {
                assert(self.connections_view() =~= before.insert(k, mark_wires(oc, area, h)[k]));
                broadcast use vstd::seq_lib::group_seq_properties;

                assert(keys@.subrange(0, i + 1) =~= keys@.subrange(0, i as int).push(k));
            }
            i = i + 1;
        }
        proof {
            assert(keys@.subrange(0, keys@.len() as int) =~= keys@);
            assert(self.connections_view() =~= mark_wires(oc, area, h));
            if old(self).wf() {
                let bs = self.blocks_view();
                let cs = self.connections_view();
                assert forall|k: u64| #[trigger] cs.contains_key(k) implies {
                    let c = cs[k];
                    &&& port_in_range(bs, c.origin)
                    &&& forall|j: int| 0 <= j < c.destinations().len() ==> port_in_range(bs, #[trigger] c.destinations()[j])
                } by {
                    crate::connection::lemma_children_mark_destinations(oc[k].segments, area, h);
                    assert(cs[k].destinations() == oc[k].destinations());
                    assert(oc.contains_key(k));
                }
            }
        }
    }
}

/// The position of the waypoint that wire `c` has at `path` (the first
/// root branch named `path[0]`, then down its waypoints), if any.
pub open spec fn waypoint_position(cs: Map<u64, ConnView>, c: u64, path: Seq<Id>) -> Option<Vector2<i32>> {
    if cs.contains_key(c) && path.len() > 0 {
        match crate::connection::lookup_index(cs[c].segments, path[0]) {
            Some(i) => match crate::connection::seg_at(cs[c].segments[i].1, path.drop_first()) {
                Some(SegView::Waypoint(_, p, _)) => Some(p),
                _ => None,
            },
            None => None,
        }
    } else {
        None
    }
}

impl Plot {
    /// The position of the waypoint that `sid` names, if there is one.
    pub fn waypoint_position(&self, sid: &SegmentID) -> (p: Option<Vector2<i32>>)
        ensures
            p == waypoint_position(self.connections_view(), sid.spec_connection_id().0, sid.spec_location()),
    {
        match self.get_connection(sid.connection_id()) {
            Some(conn) => {
                proof {
                    assert(self.connections_view()[sid.spec_connection_id().0] == conn@);
                }
                match conn.get_segment(sid.location()) {
                    Some(seg) => match seg.position() {
                        Some(p) => Some(*p),
                        None => None,
                    },
                    None => None,
                }
            },
            None => None,
        }
    }
}

/// The selectable items for a list of blocks.
pub fn block_selectables(ids: &Vec<BlockID>) -> (v: Vec<Selectable>)
    ensures
        sel_views(v@) == block_sels(ids@),
{
    let mut v: Vec<Selectable> = Vec::new();
    let mut i: usize = 0;
    while i < ids.len()
        invariant
            0 <= i <= ids.len(),
            sel_views(v@) == block_sels(ids@.subrange(0, i as int)),
        decreases ids.len() - i,
    {
        let ghost v0 = v@;
        v.push(Selectable::Block(ids[i]));
        proof {
            assert(sel_views(v@) =~= sel_views(v0).push(SelView::Block(ids@[i as int]))) by {
                assert forall|j: int| 0 <= j < v@.len() implies #[trigger] sel_views(v@)[j] == sel_views(v0).push(
                    SelView::Block(ids@[i as int]),
                )[j] by {
                    if j < v0.len() {
                        assert(v@[j] == v0[j]);
                    }
                }
            }
            assert(block_sels(ids@.subrange(0, i + 1)) =~= block_sels(ids@.subrange(0, i as int)).push(
                SelView::Block(ids@[i as int]),
            ));
        }
        i = i + 1;
    }
    proof {
        assert(ids@.subrange(0, ids@.len() as int) =~= ids@);
    }
    v
}

/// The blocks among selected items, in order.
pub fn blocks_of_selectables(v: &Vec<Selectable>) -> (ids: Vec<BlockID>)
    ensures
        ids@ == sel_blocks(sel_views(v@)),
{
    let ghost vs = sel_views(v@);
    let mut ids: Vec<BlockID> = Vec::new();
    let mut i: usize = 0;
    while i < v.len()
        invariant
            0 <= i <= v.len(),
            vs == sel_views(v@),
            ids@ == sel_blocks(vs.subrange(0, i as int)),
        decreases v.len() - i,
    {
        proof {
            assert(vs.subrange(0, i + 1).drop_last() =~= vs.subrange(0, i as int));
        }
        match &v[i] {
            Selectable::Block(id) => {
                ids.push(*id);
            },
            _ => {},
        }
        i = i + 1;
    }
    proof {
        assert(vs.subrange(0, vs.len() as int) =~= vs);
    }
    ids
}

impl Plot {
    /// Changes the waypoint that `sid` names (see `wires_edited`).
    pub fn edit_waypoint(&mut self, sid: &SegmentID, e: WaypointEdit)
        ensures
            final(self).connections_view() == wires_edited(
                old(self).connections_view(),
                sid.spec_connection_id().0,
                sid.spec_location(),
                e,
            ),
            final(self).spec_blocks() == old(self).spec_blocks(),
            final(self).spec_to_update() == old(self).spec_to_update(),
            final(self).spec_states() == old(self).spec_states(),
            final(self).spec_selection() == old(self).spec_selection(),
            old(self).wf() ==> final(self).wf(),
    {
        let k = sid.connection_id().0;
        let ghost oc = self.connections_view();
        match self.connections.remove(&k) {
            Some(mut c) => {
                proof {
                    assert(c@ == oc[k]);
                }
                c.edit_waypoint(sid.location(), e);
                self.connections.insert(k, c);
                proof {
                    let nc = wires_edited(oc, k, sid.spec_location(), e);
                    assert(self.connections_view() =~= nc);
                    if old(self).wf() {
                        let bs = self.blocks_view();
                        assert forall|j: u64| #[trigger] nc.contains_key(j) implies {
                            let w = nc[j];
                            &&& port_in_range(bs, w.origin)
                            &&& forall|i: int|
                                0 <= i < w.destinations().len() ==> port_in_range(bs, #[trigger] w.destinations()[i])
                        } by {
                            assert(oc.contains_key(j));
                            assert(nc[j].destinations() == oc[j].destinations());
                        }
                    }
                }
            },
            None => {
                proof {
                    assert(self.connections_view() =~= oc);
                }
            },
        }
    }

    /// The waypoints that a selection rectangle `area` takes in, as
    /// selectable items (see `waypoint_in_selection`).
    pub fn waypoints_in(&self, area: (Vector2<i32>, Vector2<i32>)) -> (w: Vec<Selectable>)
        ensures
            forall|x: SelView| #[trigger]
                sel_views(w@).contains(x) <==> (x matches SelView::Waypoint(c, path) && waypoint_in_selection(
                    self.connections_view(),
                    area,
                    c.0,
                    path,
                )),
    {
        let ghost cs = self.connections_view();
        let keys = keys_of(&self.connections);
        let mut w: Vec<Selectable> = Vec::new();
        let mut i: usize = 0;
        while i < keys.len()
            invariant
                0 <= i <= keys.len(),
                cs == self.connections_view(),
                keys@.no_duplicates(),
                forall|k: u64| self.connections@.contains_key(k) <==> keys@.contains(k),
                forall|x: SelView| #[trigger]
                    sel_views(w@).contains(x) <==> (x matches SelView::Waypoint(c, path) && keys@.subrange(
                        0,
                        i as int,
                    ).contains(c.0) && waypoint_in_selection(cs, area, c.0, path)),
            decreases keys.len() - i,
        {
            let k = keys[i];
            assert(keys@.contains(k));
            let conn = self.connections.get(&k).unwrap();
            proof {
                assert(cs.contains_key(k) && cs[k] == conn@);
            }
            let paths = conn.area_paths(area);
            let ghost w0 = sel_views(w@);
            let mut j: usize = 0;
            while j < paths.len()
                invariant
                    0 <= j <= paths.len(),
                    cs.contains_key(k) && cs[k] == conn@,
                    crate::connection::paths_view(paths@) == crate::connection::children_area_paths(
                        cs[k].segments,
                        area,
                        seq![],
                    ),
                    sel_views(w@) == w0 + crate::connection::paths_view(paths@).subrange(0, j as int).map_values(
                        |p: Seq<Id>| SelView::Waypoint(Id(k), p),
                    ),
                decreases paths.len() - j,
            {
                let loc = crate::connection::copy_ids(&paths[j]);
                let ghost wa = w@;
                let item = Selectable::Waypoint(SegmentID::new(Id(k), loc));
                proof {
                    assert(item@ == SelView::Waypoint(Id(k), paths@[j as int]@));
                }
                w.push(item);
                proof {
                    let pv = crate::connection::paths_view(paths@);
                    let f = |p: Seq<Id>| SelView::Waypoint(Id(k), p);
                    assert(pv[j as int] == paths@[j as int]@);
                    assert(sel_views(w@) =~= sel_views(wa).push(item@)) by {
                        assert forall|t: int| 0 <= t < w@.len() implies #[trigger] sel_views(w@)[t] == sel_views(wa).push(
                            item@,
                        )[t] by {
                            if t < wa.len() {
                                assert(w@[t] == wa[t]);
                            }
                        }
                    }
                    assert(pv.subrange(0, j + 1).map_values(f) =~= pv.subrange(0, j as int).map_values(f).push(f(pv[j as int])));
                    assert(sel_views(w@) =~= w0 + pv.subrange(0, j + 1).map_values(f));
                }
                j = j + 1;
            }
            proof {
                let pv = crate::connection::paths_view(paths@);
                let added = pv.map_values(|p: Seq<Id>| SelView::Waypoint(Id(k), p));
                assert(pv.subrange(0, pv.len() as int) =~= pv);
                assert(sel_views(w@) == w0 + added);
                assert(keys@.subrange(0, i + 1) =~= keys@.subrange(0, i as int).push(k));
                assert forall|x: SelView| #[trigger] sel_views(w@).contains(x) <==> (x matches SelView::Waypoint(c, path)
                    && keys@.subrange(0, i + 1).contains(c.0) && waypoint_in_selection(cs, area, c.0, path)) by {
                    broadcast use vstd::seq_lib::group_seq_properties;

                    assert(sel_views(w@).contains(x) <==> (w0.contains(x) || added.contains(x)));
                    if added.contains(x) {
                        let t = choose|t: int| 0 <= t < added.len() && added[t] == x;
                        assert(pv.contains(pv[t]));
                    }
                    if x is Waypoint {
                        let c = x->Waypoint_0;
                        let path = x->Waypoint_1;
                        if c.0 == k && waypoint_in_selection(cs, area, c.0, path) {
                            let t = choose|t: int| 0 <= t < pv.len() && pv[t] == path;
                            assert(added[t] == SelView::Waypoint(Id(k), path));
                            assert(c == Id(k));
                        }
                    }
                }
            }
            i = i + 1;
        }
        proof {
            assert(keys@.subrange(0, keys@.len() as int) =~= keys@);
            assert forall|x: SelView| #[trigger] sel_views(w@).contains(x) implies (x matches SelView::Waypoint(c, path)
                && waypoint_in_selection(cs, area, c.0, path)) by {}
            assert forall|x: SelView| (x matches SelView::Waypoint(c, path) && waypoint_in_selection(cs, area, c.0, path))
                implies #[trigger] sel_views(w@).contains(x) by {
                assert(keys@.contains(x->Waypoint_0.0));
            }
        }
        w
    }
}

impl SelectionField for Plot {
    fn selection(&self) -> (s: &Selection)
        ensures
            *s == self.spec_selection(),
    {
        &self.selection
    }

    fn set_selection(&mut self, selection: Selection)
        ensures
            final(self).spec_selection() == selection,
            final(self).spec_blocks() == old(self).spec_blocks(),
            final(self).spec_connections() == old(self).spec_connections(),
            final(self).spec_to_update() == old(self).spec_to_update(),
            final(self).spec_states() == old(self).spec_states(),
    {
        self.selection = selection;
    }

    /// Selects and highlights every block, and highlights every waypoint.
    fn select_all(&mut self)
        ensures
            old(self).wf() ==> final(self).wf(),
            final(self).spec_selection() matches Selection::Many(v) && sel_views(v@).no_duplicates() && forall|
                x: SelView,
            | #[trigger]
                sel_views(v@).contains(x) <==> (x matches SelView::Block(b) && old(self).blocks_view().contains_key(
                    b.0,
                )),
            final(self).blocks_view() == highlight_where(old(self).blocks_view(), |k: u64| true, true),
            final(self).connections_view() == mark_wires(old(self).connections_view(), None, true),
            final(self).spec_to_update() == old(self).spec_to_update(),
            final(self).spec_states() == old(self).spec_states(),
    {
        let keys = keys_of(&self.blocks);
        let mut ids: Vec<BlockID> = Vec::new();
        let mut i: usize = 0;
        while i < keys.len()
            invariant
                0 <= i <= keys.len(),
                ids@.len() == i,
                forall|j: int| 0 <= j < i ==> #[trigger] ids@[j] == Id(keys@[j]),
            decreases keys.len() - i,
        {
            ids.push(Id(keys[i]));
            i = i + 1;
        }
        proof {
            assert forall|a: int, b: int| 0 <= a < ids@.len() && 0 <= b < ids@.len() && a != b implies ids@[a] != ids@[b] by {
                assert(keys@[a] != keys@[b]);
            }
            assert forall|k: u64| old(self).blocks_view().contains_key(k) <==> ids@.contains(Id(k)) by {
                if old(self).blocks_view().contains_key(k) {
                    assert(keys@.contains(k));
                    let j = choose|j: int| 0 <= j < keys@.len() && keys@[j] == k;
                    assert(ids@[j] == Id(k));
                }
                if ids@.contains(Id(k)) {
                    let j = choose|j: int| 0 <= j < ids@.len() && ids@[j] == Id(k);
                    assert(keys@[j] == k);
                    assert(keys@.contains(k));
                }
            }
            lemma_block_sels(ids@);
        }
        let v = block_selectables(&ids);
        self.selection = Selection::Many(v);
        self.highlight_blocks(&keys, true, Ghost(|k: u64| true));
        self.mark_connections(None, true);
    }

    /// Takes the highlighting off what is selected and clears the
    /// selection.
    fn unhighlight(&mut self)
        ensures
            old(self).wf() ==> final(self).wf(),
            final(self).spec_selection() is Empty,
            unhighlighted(*old(self), *final(self)),
            final(self).connections_view().dom() == old(self).connections_view().dom(),
    {
        let ghost ob = self.blocks_view();
        let ghost oc = self.connections_view();
        let ghost sel = self.selection;
        let mut current = Selection::Empty;
        std::mem::swap(&mut current, &mut self.selection);
        match current {
            Selection::Single(Selectable::Block(id), _) => {
                let mut keys: Vec<u64> = Vec::new();
                keys.push(id.0);
                proof {
                    assert forall|k: u64| #[trigger] keys@.contains(k) implies k == id.0 by {
                        let j = choose|j: int| 0 <= j < keys@.len() && keys@[j] == k;
                    }
                    assert(keys@[0] == id.0);
                }
                self.highlight_blocks(&keys, false, Ghost(|k: u64| k == id.0));
            },
            Selection::Single(Selectable::Waypoint(w), _) => {
                self.edit_waypoint(&w, WaypointEdit::Highlight(false));
            },
            Selection::Many(v) => {
                let ghost vs = sel_views(v@);
                let mut keys: Vec<u64> = Vec::new();
                let mut i: usize = 0;
                while i < v.len()
                    invariant
                        0 <= i <= v.len(),
                        vs == sel_views(v@),
                        forall|k: u64| #[trigger] keys@.contains(k) <==> vs.subrange(0, i as int).contains(SelView::Block(Id(k))),
                    decreases v.len() - i,
                {
                    let ghost k0 = keys@;
                    proof {
                        assert(vs[i as int] == v@[i as int]@);
                    }
                    match &v[i] {
                        Selectable::Block(id) => {
                            keys.push(id.0);
                        },
                        _ => {},
                    }
                    proof {
                        assert(vs.subrange(0, i + 1) =~= vs.subrange(0, i as int).push(vs[i as int]));
                        assert forall|k: u64| #[trigger] keys@.contains(k) <==> vs.subrange(0, i + 1).contains(SelView::Block(Id(k))) by {
                            assert(vs.subrange(0, i + 1).contains(SelView::Block(Id(k))) <==> (vs.subrange(0, i as int).contains(SelView::Block(Id(k))) || vs[i as int] == SelView::Block(Id(k)))) by {
                                broadcast use vstd::seq_lib::group_seq_properties;
                            }
                            if v@[i as int] is Block {
                                assert(keys@ == k0.push(v@[i as int]->Block_0.0));
                                assert(vs[i as int] == SelView::Block(v@[i as int]->Block_0));
                                assert(keys@.contains(k) <==> (k0.contains(k) || k == v@[i as int]->Block_0.0)) by {
                                    broadcast use vstd::seq_lib::group_seq_properties;
                                }
                            }
                        }
                    }
                    i = i + 1;
                }
                proof {
                    assert(vs.subrange(0, vs.len() as int) =~= vs);
                }
                self.highlight_blocks(&keys, false, Ghost(|k: u64| vs.contains(SelView::Block(Id(k)))));
                let ghost mid = self.blocks_view();
                let mut j: usize = 0;
                while j < v.len()
                    invariant
                        0 <= j <= v.len(),
                        vs == sel_views(v@),
                        self.connections_view() == wires_unmarked(oc, vs.subrange(0, j as int)),
                        self.connections_view().dom() == oc.dom(),
                        self.blocks_view() == mid,
                        ob.dom() == mid.dom(),
                        old(self).wf() ==> views_wf(mid, oc),
                        old(self).wf() ==> self.wf(),
                        self.spec_to_update() == old(self).spec_to_update(),
                        self.spec_states() == old(self).spec_states(),
                        self.spec_selection() is Empty,
                    decreases v.len() - j,
                {
                    proof {
                        assert(vs.subrange(0, j + 1).drop_last() =~= vs.subrange(0, j as int));
                    }
                    match &v[j] {
                        Selectable::Waypoint(w) => {
                            self.edit_waypoint(w, WaypointEdit::Highlight(false));
                        },
                        _ => {},
                    }
                    j = j + 1;
                }
                proof {
                    assert(vs.subrange(0, vs.len() as int) =~= vs);
                }
            },
            Selection::Area(_, _) => {
                let keys = keys_of(&self.blocks);
                self.highlight_blocks(&keys, false, Ghost(|k: u64| true));
                self.mark_connections(None, false);
            },
            _ => {},
        }
    }

    /// The selected blocks.
    fn selected(&self) -> (ids: Vec<BlockID>)
        ensures
            ids@ == selected_ids(self.spec_selection()),
    {
        match &self.selection {
            Selection::Single(x, _) => {
                let mut out: Vec<BlockID> = Vec::new();
                match x {
                    Selectable::Block(id) => {
                        out.push(*id);
                    },
                    _ => {},
                }
                proof {
                    let one = seq![x@];
                    assert(one.drop_last() =~= Seq::<SelView>::empty());
                    assert(one.last() == x@);
                    assert(sel_blocks(Seq::<SelView>::empty()) =~= Seq::<BlockID>::empty());
                    assert(out@ =~= sel_blocks(one));
                }
                out
            },
            Selection::Many(v) => blocks_of_selectables(v),
            _ => Vec::new(),
        }
    }

    /// Turns a selection rectangle into a selection of the blocks that
    /// overlap it and the waypoints it reaches, highlighting them.
    fn highlight_area(&mut self)
        ensures
            old(self).wf() ==> final(self).wf(),
            match old(self).spec_selection() {
                Selection::Area(start, end) => {
                    let a = area_of(start, end);
                    &&& final(self).blocks_view() == highlight_where(
                        old(self).blocks_view(),
                        |k: u64| crate::block::block_in_area(old(self).blocks_view()[k], a),
                        true,
                    )
                    &&& final(self).connections_view() == mark_wires(old(self).connections_view(), Some(a), true)
                    &&& final(self).spec_selection() matches Selection::Many(v) && forall|x: SelView| #[trigger]
                        sel_views(v@).contains(x) <==> match x {
                            SelView::Block(b) => old(self).blocks_view().contains_key(b.0)
                                && crate::block::block_in_area(old(self).blocks_view()[b.0], a),
                            SelView::Waypoint(c, path) => waypoint_in_selection(
                                old(self).connections_view(),
                                a,
                                c.0,
                                path,
                            ),
                        }
                },
                _ => final(self).blocks_view() == old(self).blocks_view() && final(self).connections_view()
                    == old(self).connections_view() && final(self).spec_selection() == old(self).spec_selection(),
            },
            final(self).spec_to_update() == old(self).spec_to_update(),
            final(self).spec_states() == old(self).spec_states(),
    {
        let (start, end) = match &self.selection {
            Selection::Area(s, e) => (*s, *e),
            _ => {
                return;
            },
        };
        let area = area_of_exec(start, end);
        let ghost ob = self.blocks_view();
        let ghost oc = self.connections_view();
        let ghost pick = |k: u64| crate::block::block_in_area(ob[k], area);
        let all = keys_of(&self.blocks);
        let mut keys: Vec<u64> = Vec::new();
        let mut ids: Vec<BlockID> = Vec::new();
        let mut i: usize = 0;
        while i < all.len()
            invariant
                0 <= i <= all.len(),
                all@.no_duplicates(),
                forall|k: u64| ob.contains_key(k) <==> all@.contains(k),
                ob == self.blocks_view(),
                pick == (|k: u64| crate::block::block_in_area(ob[k], area)),
                keys@.len() == ids@.len(),
                forall|j: int| 0 <= j < keys@.len() ==> #[trigger] ids@[j] == Id(keys@[j]),
                forall|k: u64| #[trigger] keys@.contains(k) <==> all@.subrange(0, i as int).contains(k) && pick(k),
                keys@.no_duplicates(),
            decreases all.len() - i,
        {
            let k = all[i];
            proof {
                assert(all@.contains(k));
                assert(!all@.subrange(0, i as int).contains(k)) by {
                    if all@.subrange(0, i as int).contains(k) {
                        let j = choose|j: int| 0 <= j < i && all@.subrange(0, i as int)[j] == k;
                        assert(all@[j] == all@[i as int]);
                    }
                }
                broadcast use vstd::seq_lib::group_seq_properties;

                assert(all@.subrange(0, i + 1) =~= all@.subrange(0, i as int).push(k));
            }
            let b = self.blocks.get(&k).unwrap();
            let ghost keys0 = keys@;
            let inside = b.is_in_area(area);
            proof {
                assert(b@ == ob[k]);
                assert(inside == pick(k));
            }
            if inside {
                proof {
                    assert(!keys@.contains(k));
                }
                keys.push(k);
                ids.push(Id(k));
            }
            proof {
                assert forall|k2: u64| #[trigger] keys@.contains(k2) <==> all@.subrange(0, i + 1).contains(k2) && pick(k2) by {
                    broadcast use vstd::seq_lib::group_seq_properties;

                    assert(all@.subrange(0, i + 1).contains(k2) <==> (all@.subrange(0, i as int).contains(k2) || k2 == k));
                    if inside {
                        assert(keys@ == keys0.push(k));
                        assert(keys@.contains(k2) <==> (keys0.contains(k2) || k2 == k));
                    }
                }
            }
            i = i + 1;
        }
        proof {
            assert(all@.subrange(0, all@.len() as int) =~= all@);
            assert forall|k: u64| #[trigger] keys@.contains(k) implies pick(k) by {}
            assert forall|k: u64| #[trigger] pick(k) && ob.contains_key(k) implies keys@.contains(k) by {
                assert(all@.contains(k));
            }
            assert forall|a: int, b: int| 0 <= a < ids@.len() && 0 <= b < ids@.len() && a != b implies ids@[a] != ids@[b] by {
                assert(keys@[a] != keys@[b]);
            }
            assert forall|k: u64| ids@.contains(Id(k)) <==> ob.contains_key(k) && pick(k) by {
                if ids@.contains(Id(k)) {
                    let j = choose|j: int| 0 <= j < ids@.len() && ids@[j] == Id(k);
                    assert(keys@[j] == k);
                    assert(keys@.contains(k));
                    assert(all@.contains(k));
                }
                if ob.contains_key(k) && pick(k) {
                    assert(all@.contains(k));
                    assert(keys@.contains(k));
                    let j = choose|j: int| 0 <= j < keys@.len() && keys@[j] == k;
                    assert(ids@[j] == Id(k));
                }
            }
        }
        let wps = self.waypoints_in(area);
        proof {
            lemma_block_sels(ids@);
        }
        let mut v = block_selectables(&ids);
        let ghost bsel = sel_views(v@);
        let mut wv = wps;
        let ghost wsel = sel_views(wv@);
        v.append(&mut wv);
        proof {
            assert(sel_views(v@) =~= bsel + wsel);
            assert forall|x: SelView| #[trigger] sel_views(v@).contains(x) <==> match x {
                SelView::Block(b) => ob.contains_key(b.0) && crate::block::block_in_area(ob[b.0], area),
                SelView::Waypoint(c, path) => waypoint_in_selection(oc, area, c.0, path),
            } by {
                broadcast use vstd::seq_lib::group_seq_properties;

                assert(sel_views(v@).contains(x) <==> (bsel.contains(x) || wsel.contains(x)));
                if x is Block {
                    assert(!wsel.contains(x));
                    assert(bsel.contains(x) <==> ids@.contains(x->Block_0));
                    assert(ids@.contains(x->Block_0) <==> ob.contains_key(x->Block_0.0) && pick(x->Block_0.0));
                } else {
                    assert(!bsel.contains(x));
                }
            }
        }
        self.highlight_blocks(&keys, true, Ghost(pick));
        self.mark_connections(Some(area), true);
        self.selection = Selection::Many(v);
    }
}

impl Plot {
    /// Deletes a block together with every wire attached to it, and
    /// returns the deleted wires (switched off), in the order the block's
    /// pins name them. A unique block (an input or output block of a
    /// module) keeps its place; only its wires go.
    pub fn delete_block(&mut self, id: BlockID) -> (deleted: Vec<Connection>)
        requires
            old(self).wf(),
        ensures
            final(self).wf(),
            ({
                let ob = old(self).blocks_view();
                let oc = old(self).connections_view();
                let links = if ob.contains_key(id.0) {
                    links_of(ob[id.0].inputs + ob[id.0].outputs)
                } else {
                    Seq::<ConnectionID>::empty()
                };
                let gone = Set::new(|c: u64| oc.contains_key(c) && links.contains(Id(c)));
                let keep = ob.contains_key(id.0) && ob[id.0].unique;
                &&& final(self).connections_view() == oc.remove_keys(gone)
                &&& removed_wires(oc, final(self).connections_view(), deleted@)
                &&& views_of_wires(deleted@) == wires_named(links, oc)
                &&& final(self).blocks_view().dom() == if keep {
                    ob.dom()
                } else {
                    ob.dom().remove(id.0)
                }
                &&& final(self).blocks_view() == if keep {
                    detached(ob, oc, gone)
                } else {
                    detached(ob, oc, gone).remove(id.0)
                }
                &&& links.len() == 0 ==> deleted@.len() == 0 && final(self).blocks_view() == if keep {
                    ob
                } else {
                    ob.remove(id.0)
                }
            }),
            old(self).spec_to_update().subset_of(final(self).spec_to_update()),
            pins_within(old(self).blocks_view(), final(self).blocks_view()),
            final(self).spec_states() == old(self).spec_states(),
            final(self).spec_selection() == old(self).spec_selection(),
    {
        let ghost ob = self.blocks_view();
        let ghost oc = self.connections_view();
        let mut deleted: Vec<Connection> = Vec::new();
        let mut unique = false;
        let links: Vec<ConnectionID> = match self.blocks.get(&id.0) {
            Some(block) => {
                unique = block.unique();
                block.connected_to()
            },
            None => Vec::new(),
        };
        let ghost gone = Set::new(|c: u64| oc.contains_key(c) && links@.contains(Id(c)));
        proof {
            lemma_detached_none(
                ob,
                oc,
                Set::new(|c: u64| oc.contains_key(c) && links@.subrange(0, 0).contains(Id(c))),
            );
        }
        let mut i: usize = 0;
        while i < links.len()
            invariant
                0 <= i <= links.len(),
                self.wf(),
                ob == old(self).blocks_view(),
                oc == old(self).connections_view(),
                gone == Set::new(|c: u64| oc.contains_key(c) && links@.contains(Id(c))),
                self.connections_view() == oc.remove_keys(
                    Set::new(|c: u64| oc.contains_key(c) && links@.subrange(0, i as int).contains(Id(c))),
                ),
                self.blocks_view().dom() == ob.dom(),
                self.blocks_view() == detached(
                    ob,
                    oc,
                    Set::new(|c: u64| oc.contains_key(c) && links@.subrange(0, i as int).contains(Id(c))),
                ),
                same_pins(ob, self.blocks_view()),
                forall|k: u64| #[trigger] self.blocks_view().contains_key(k) ==> self.blocks_view()[k].unique == ob[k].unique,
                forall|j: int| 0 <= j < deleted@.len() ==> gone.contains((#[trigger] deleted@[j])@.id.0)
                    && deleted@[j]@ == (ConnView { active: false, ..oc[deleted@[j]@.id.0] }),
                forall|c: u64| #[trigger] oc.contains_key(c) && links@.subrange(0, i as int).contains(Id(c))
                    ==> exists|j: int| 0 <= j < deleted@.len() && deleted@[j]@.id.0 == c,
                links@.len() == 0 ==> self.blocks_view() == ob && deleted@.len() == 0,
                views_of_wires(deleted@) == wires_named(links@.subrange(0, i as int), oc),
                old(self).spec_to_update().subset_of(self.spec_to_update()),
                self.states@ == old(self).states@,
                self.selection == old(self).selection,
            decreases links.len() - i,
        {
            let c = links[i];
            let ghost before = self.connections_view();
            let ghost bb = self.blocks_view();
            let ghost d0 = deleted@;
            let ghost pre_set = Set::new(|x: u64| oc.contains_key(x) && links@.subrange(0, i as int).contains(Id(x)));
            let ghost mut hit = false;
            match self.remove_connection(c) {
                Some(conn) => {
                    proof {
                        hit = true;
                        lemma_wire_ports_in_range(bb, before, c.0);
                        assert(before[c.0] == oc[c.0]);
                        lemma_detached_step(ob, oc, pre_set, c.0, bb);
                        lemma_wire_ports_in_range(bb, before, c.0);
                        lemma_link_pins_same_pins(bb, seq![before[c.0].origin] + before[c.0].destinations(), None);
                        assert(before.contains_key(c.0));
                        assert(oc.contains_key(c.0));
                        assert(links@.contains(Id(c.0)));
                        assert(before[c.0] == oc[c.0]);
                        assert(conn@.id.0 == c.0);
                    }
                    deleted.push(conn);
                    proof {
                        assert(deleted@[deleted@.len() - 1]@.id.0 == c.0);
                    }
                },
                None => {},
            }
            proof {
                let pre = links@.subrange(0, i as int);
                let post = links@.subrange(0, i + 1);
                assert(post =~= pre.push(c));
                assert(post.drop_last() =~= pre);
                if hit {
                    assert(oc.contains_key(c.0) && !pre.contains(c));
                    assert(views_of_wires(deleted@) =~= views_of_wires(d0).push(deleted@[deleted@.len() - 1]@));
                } else {
                    assert(!(oc.contains_key(c.0) && !pre.contains(c)));
                    assert(views_of_wires(deleted@) =~= views_of_wires(d0));
                }
                assert forall|x: u64| post.contains(Id(x)) <==> (pre.contains(Id(x)) || c == Id(x)) by {
                    broadcast use vstd::seq_lib::group_seq_properties;
                }
                assert(self.connections_view() =~= oc.remove_keys(
                    Set::new(|x: u64| oc.contains_key(x) && post.contains(Id(x))),
                ));
                let post_set = Set::new(|x: u64| oc.contains_key(x) && post.contains(Id(x)));
                if hit {
                    assert(post_set =~= pre_set.insert(c.0));
                } else {
                    assert(!before.contains_key(c.0));
                    assert(post_set =~= pre_set);
                }
                assert forall|x: u64| #[trigger] oc.contains_key(x) && post.contains(Id(x)) implies exists|j: int|
                    0 <= j < deleted@.len() && deleted@[j]@.id.0 == x by {
                    if pre.contains(Id(x)) {
                        let j = choose|j: int| 0 <= j < d0.len() && d0[j]@.id.0 == x;
                        assert(deleted@[j] == d0[j]);
                    } else {
                        assert(c == Id(x));
                        assert(deleted@[deleted@.len() - 1]@.id.0 == x);
                    }
                }
                assert forall|j: int| 0 <= j < deleted@.len() implies gone.contains((#[trigger] deleted@[j])@.id.0)
                    && deleted@[j]@ == (ConnView { active: false, ..oc[deleted@[j]@.id.0] }) by {
                    if j < d0.len() {
                        assert(deleted@[j] == d0[j]);
                    }
                }
            }
            i = i + 1;
        }
        proof {
            assert(links@.subrange(0, links@.len() as int) =~= links@);
        }
        if !unique {
            let ghost before = self.blocks_view();
            self.blocks.remove(&id.0);
            proof {
                assert(self.blocks_view() =~= before.remove(id.0));
                let bs = self.blocks_view();
                let cs = self.connections_view();
                assert forall|k: u64| #[trigger] cs.contains_key(k) implies {
                    let w = cs[k];
                    &&& port_in_range(bs, w.origin)
                    &&& forall|j: int| 0 <= j < w.destinations().len() ==> port_in_range(bs, #[trigger] w.destinations()[j])
                } by {
                    assert(port_in_range(before, cs[k].origin));
                    assert forall|j: int| 0 <= j < cs[k].destinations().len() implies port_in_range(bs, #[trigger] cs[k].destinations()[j]) by {
                        assert(port_in_range(before, cs[k].destinations()[j]));
                    }
                }
            }
        }
        proof {
            assert(ob.dom().remove(id.0) =~= if ob.contains_key(id.0) { ob.dom().remove(id.0) } else { ob.dom() });
        }
        deleted
    }
}

impl Clone for Plot {
    /// A copy with the same blocks, wires, pending updates, selection and
    /// snapshots.
    fn clone(&self) -> (p: Self)
        ensures
            p.blocks_view() == self.blocks_view(),
            p.connections_view() == self.connections_view(),
            p.spec_to_update() == self.spec_to_update(),
            p.spec_states().len() == self.spec_states().len(),
            forall|i: int| 0 <= i < p.spec_states().len() ==> (#[trigger] p.spec_states()[i]).spec_blocks()
                == self.spec_states()[i].spec_blocks() && p.spec_states()[i].spec_connections()
                == self.spec_states()[i].spec_connections(),
            selected_ids(p.spec_selection()) == selected_ids(self.spec_selection()),
    {
        let mut blocks: HashMap<u64, Block> = HashMap::new();
        let keys = keys_of(&self.blocks);
        let mut i: usize = 0;
        while i < keys.len()
            invariant
                0 <= i <= keys.len(),
                forall|k: u64| self.blocks@.contains_key(k) <==> keys@.contains(k),
                forall|k: u64| #[trigger] blocks@.contains_key(k) <==> keys@.subrange(0, i as int).contains(k),
                forall|k: u64| #[trigger] blocks@.contains_key(k) ==> blocks@[k]@ == self.blocks@[k]@,
            decreases keys.len() - i,
        {
            let k = keys[i];
            assert(keys@.contains(k));
            let b = self.blocks.get(&k).unwrap().clone();
            blocks.insert(k, b);
            proof {
                broadcast use vstd::seq_lib::group_seq_properties;

                assert(keys@.subrange(0, i + 1) =~= keys@.subrange(0, i as int).push(k));
            }
            i = i + 1;
        }
        let mut connections: HashMap<u64, Connection> = HashMap::new();
        let ckeys = keys_of(&self.connections);
        let mut j: usize = 0;
        while j < ckeys.len()
            invariant
                0 <= j <= ckeys.len(),
                forall|k: u64| self.connections@.contains_key(k) <==> ckeys@.contains(k),
                forall|k: u64| #[trigger] connections@.contains_key(k) <==> ckeys@.subrange(0, j as int).contains(k),
                forall|k: u64| #[trigger] connections@.contains_key(k) ==> connections@[k]@ == self.connections@[k]@,
            decreases ckeys.len() - j,
        {
            let k = ckeys[j];
            assert(ckeys@.contains(k));
            let c = self.connections.get(&k).unwrap().clone();
            connections.insert(k, c);
            proof {
                broadcast use vstd::seq_lib::group_seq_properties;

                assert(ckeys@.subrange(0, j + 1) =~= ckeys@.subrange(0, j as int).push(k));
            }
            j = j + 1;
        }
        let mut states: Vec<PlotState> = Vec::new();
        let mut x: usize = 0;
        while x < self.states.len()
            invariant
                0 <= x <= self.states.len(),
                states@.len() == x,
                forall|y: int| 0 <= y < x ==> (#[trigger] states@[y]).spec_blocks() == self.states@[y].spec_blocks()
                    && states@[y].spec_connections() == self.states@[y].spec_connections(),
            decreases self.states.len() - x,
        {
            states.push(self.states[x].clone());
            x = x + 1;
        }
        let mut to_update: HashSet<u64> = HashSet::new();
        let es = elems_of(&self.to_update);
        let mut y: usize = 0;
        while y < es.len()
            invariant
                0 <= y <= es.len(),
                to_update@ == es@.subrange(0, y as int).to_set(),
            decreases es.len() - y,
        {
            to_update.insert(es[y]);
            proof {
                broadcast use vstd::seq_lib::group_seq_properties;

                assert(es@.subrange(0, y + 1) =~= es@.subrange(0, y as int).push(es@[y as int]));
            }
            y = y + 1;
            proof {
                broadcast use vstd::seq_lib::group_seq_properties;

                assert(to_update@ =~= es@.subrange(0, y as int).to_set());
            }
        }
        let p = Plot { blocks, connections, states, selection: self.selection.clone(), to_update };
        proof {
            assert(keys@.subrange(0, keys@.len() as int) =~= keys@);
            assert(ckeys@.subrange(0, ckeys@.len() as int) =~= ckeys@);
            assert(es@.subrange(0, es@.len() as int) =~= es@);
            assert(p.blocks_view() =~= self.blocks_view());
            assert(p.connections_view() =~= self.connections_view());
            assert forall|k: u64| p.to_update@.contains(k) <==> self.to_update@.contains(k) by {
                broadcast use vstd::seq_lib::group_seq_properties;
            }
            assert(p.to_update@ =~= self.to_update@);
        }
        p
    }
}

impl Plot {
    fn port_valid_exec(&self, p: Port) -> (b: bool)
        ensures
            b == port_valid(self.blocks_view(), p),
    {
        match self.blocks.get(&p.block_id().0) {
            Some(block) => match p {
                Port::Input(_, i) => (i as usize) < block.inputs().len(),
                Port::Output(_, i) => (i as usize) < block.outputs().len(),
            },
            None => false,
        }
    }

    fn ports_valid_exec(&self, ps: &Vec<Port>) -> (b: bool)
        ensures
            b == ports_valid(self.blocks_view(), ps@),
    {
        let mut i: usize = 0;
        while i < ps.len()
            invariant
                0 <= i <= ps.len(),
                forall|j: int| 0 <= j < i ==> port_valid(self.blocks_view(), #[trigger] ps@[j]),
            decreases ps.len() - i,
        {
            if !self.port_valid_exec(ps[i]) {
                return false;
            }
            i = i + 1;
        }
        true
    }

    /// Whether `connection` can be added (see `connection_fits`).
    pub fn can_add_connection(&self, connection: &Connection) -> (b: bool)
        ensures
            b == connection_fits(self.blocks_view(), self.connections_view(), connection@),
    {
        let origin = connection.origin();
        if !self.port_valid_exec(origin) {
            return false;
        }
        let dests = connection.destinations();
        if !self.ports_valid_exec(&dests) {
            return false;
        }
        let block = self.blocks.get(&origin.block_id().0).unwrap();
        match block.connection(port_connector(origin)) {
            Some(e) => match self.connections.get(&e.0) {
                Some(existing) => {
                    let mut all = existing.destinations();
                    let mut more = connection.destinations();
                    all.append(&mut more);
                    let ok = self.ports_valid_exec(&all);
                    proof {
                        assert(self.connections_view().contains_key(e.0));
                        assert(self.connections_view()[e.0] == existing@);
                    }
                    ok
                },
                None => true,
            },
            None => true,
        }
    }

    /// Places a block when its pins fit the simulator and no wire names its
    /// identifier with pins it lacks; returns whether it was placed.
    pub fn try_add_block(&mut self, block: Block) -> (added: bool)
        requires
            old(self).wf(),
            pins_bounded(old(self).blocks_view()),
        ensures
            final(self).wf(),
            pins_bounded(final(self).blocks_view()),
            added == (block@.inputs.len() <= MAX_PINS && block@.outputs.len() <= MAX_PINS && wires_fit(
                old(self).connections_view(),
                block@.id.0,
                block@,
            )),
            added ==> final(self).blocks_view() == old(self).blocks_view().insert(block@.id.0, block@)
                && final(self).spec_to_update() == old(self).spec_to_update().insert(block@.id.0),
            !added ==> final(self).blocks_view() == old(self).blocks_view() && final(self).spec_to_update()
                == old(self).spec_to_update(),
            final(self).connections_view() == old(self).connections_view(),
            final(self).spec_states() == old(self).spec_states(),
            final(self).spec_selection() == old(self).spec_selection(),
    {
        if block.inputs().len() <= MAX_PINS && block.outputs().len() <= MAX_PINS && self.block_fits(&block) {
            proof {
                lemma_wires_fit_links_fit(self.blocks_view(), self.connections_view(), block@.id.0, block@);
            }
            let ghost bv = block@;
            self.add_block(block);
            proof {
                assert forall|k: u64| #[trigger] self.blocks_view().contains_key(k) implies self.blocks_view()[k].inputs.len()
                    <= MAX_PINS && self.blocks_view()[k].outputs.len() <= MAX_PINS by {
                    if k != bv.id.0 {
                        assert(old(self).blocks_view().contains_key(k));
                    }
                }
            }
            true
        } else {
            false
        }
    }

    /// Adds a wire when it fits (see `connection_fits`); returns whether it
    /// was added.
    pub fn try_add_connection(&mut self, connection: Connection) -> (added: bool)
        requires
            old(self).wf(),
        ensures
            final(self).wf(),
            same_pins(old(self).blocks_view(), final(self).blocks_view()),
            added == connection_fits(old(self).blocks_view(), old(self).connections_view(), connection@),
            !added ==> final(self).blocks_view() == old(self).blocks_view() && final(self).connections_view()
                == old(self).connections_view() && final(self).spec_to_update() == old(self).spec_to_update(),
            added ==> connection_wired(
                old(self).blocks_view(),
                old(self).connections_view(),
                connection@,
                final(self).blocks_view(),
                final(self).connections_view(),
            ),
            old(self).spec_to_update().subset_of(final(self).spec_to_update()),
            final(self).spec_states() == old(self).spec_states(),
            final(self).spec_selection() == old(self).spec_selection(),
    {
        if self.can_add_connection(&connection) {
            let ghost ob = self.blocks_view();
            let ghost c = connection@;
            self.add_connection(connection);
            proof {
                let o = c.origin;
                let k = o.spec_block_id().0;
                match pin_link(ob[k], o) {
                    Some(e) => {
                        if old(self).connections_view().contains_key(e.0) {
                            let ps = old(self).connections_view()[e.0].destinations() + c.destinations();
                            assert forall|i: int| 0 <= i < ps.len() implies port_in_range(ob, #[trigger] ps[i]) by {
                                assert(port_valid(ob, ps[i]));
                            }
                            lemma_link_pins_same_pins(ob, ps, Some(e));
                        }
                    },
                    None => {
                        let mid = ob.insert(k, link_pin(ob[k], o, Some(c.id)));
                        assert(ob.contains_key(k));
                        assert(mid.dom() =~= ob.dom());
                        assert(same_pins(ob, mid));
                        assert forall|i: int| 0 <= i < c.destinations().len() implies port_in_range(mid, #[trigger] c.destinations()[i]) by {
                            assert(port_valid(ob, c.destinations()[i]));
                        }
                        lemma_link_pins_same_pins(mid, c.destinations(), Some(c.id));
                    },
                }
            }
            true
        } else {
            false
        }
    }
}

impl PlotState {
    /// Puts the recorded states back into `plot` (see `Plot::apply_state`).
    pub fn apply(&self, plot: &mut Plot)
        requires
            old(plot).wf(),
        ensures
            final(plot).wf(),
            final(plot).blocks_view() == applied_blocks(old(plot).blocks_view(), self.spec_blocks()),
            final(plot).connections_view() == applied_connections(
                old(plot).connections_view(),
                self.spec_connections(),
            ),
            final(plot).spec_to_update() == old(plot).spec_to_update(),
            final(plot).spec_states() == old(plot).spec_states(),
    {
        plot.apply_state(self);
    }
}

impl State {
    /// Puts the plot snapshot of an instance of a custom module back into
    /// `plot`; other states change nothing.
    pub fn apply(&self, plot: &mut Plot)
        requires
            old(plot).wf(),
        ensures
            final(plot).wf(),
            match *self {
                State::Inherit(ps) => final(plot).blocks_view() == applied_blocks(
                    old(plot).blocks_view(),
                    ps.spec_blocks(),
                ) && final(plot).connections_view() == applied_connections(
                    old(plot).connections_view(),
                    ps.spec_connections(),
                ),
                _ => final(plot).blocks_view() == old(plot).blocks_view() && final(plot).connections_view()
                    == old(plot).connections_view(),
            },
            final(plot).spec_to_update() == old(plot).spec_to_update(),
            final(plot).spec_states() == old(plot).spec_states(),
    {
        match self {
            State::Inherit(ps) => plot.apply_state(ps),
            _ => {},
        }
    }
}

/// The blocks of a list by identifier (a later block replaces an earlier
/// one with the same identifier).
pub open spec fn blocks_by_id(bs: Seq<Block>) -> Map<u64, BlockView>
    decreases bs.len(),
{
    if bs.len() == 0 {
        Map::empty()
    } else {
        blocks_by_id(bs.drop_last()).insert(bs.last()@.id.0, bs.last()@)
    }
}

/// The wires of a list by identifier (a later wire replaces an earlier
/// one with the same identifier).
pub open spec fn wires_by_id(cs: Seq<Connection>) -> Map<u64, ConnView>
    decreases cs.len(),
{
    if cs.len() == 0 {
        Map::empty()
    } else {
        wires_by_id(cs.drop_last()).insert(cs.last()@.id.0, cs.last()@)
    }
}

impl Plot {
    /// A plot with the given blocks, wires and snapshots, stored by their
    /// identifiers, with nothing selected or waiting for an update.
    pub fn from_parts(blocks: Vec<Block>, connections: Vec<Connection>, states: Vec<PlotState>) -> (p: Self)
        ensures
            p.blocks_view() == blocks_by_id(blocks@),
            p.connections_view() == wires_by_id(connections@),
            p.spec_states() == states@,
            p.spec_selection() is Empty,
            p.spec_to_update() == Set::<u64>::empty(),
    {
        let ghost bs = blocks@;
        let ghost cs = connections@;
        assert(bs.len() <= usize::MAX && cs.len() <= usize::MAX) by {
            assert(blocks@.len() == blocks.len());
            assert(connections@.len() == connections.len());
        }
        let mut block_map: HashMap<u64, Block> = HashMap::new();
        let mut rest = blocks;
        let mut taken: Vec<Block> = Vec::new();
        while rest.len() > 0
            invariant
                rest@.len() <= bs.len(),
                rest@ == bs.subrange(0, rest@.len() as int),
                taken@ == bs.subrange(rest@.len() as int, bs.len() as int).reverse(),
            decreases rest@.len(),
        {
            let b = rest.pop().unwrap();
            taken.push(b);
            proof {
                assert(taken@ =~= bs.subrange(rest@.len() as int, bs.len() as int).reverse());
                assert(rest@ =~= bs.subrange(0, rest@.len() as int));
            }
        }
        let mut i: usize = 0;
        while taken.len() > 0
            invariant
                i + taken@.len() == bs.len(),
                bs.len() <= usize::MAX,
                taken@ == bs.subrange(i as int, bs.len() as int).reverse(),
                block_map@.map_values(|b: Block| b@) == blocks_by_id(bs.subrange(0, i as int)),
            decreases taken@.len(),
        {
            let b = taken.pop().unwrap();
            let ghost before = block_map@.map_values(|b: Block| b@);
            proof {
                assert(b == bs[i as int]);
                assert(bs.subrange(0, i + 1).drop_last() =~= bs.subrange(0, i as int));
                assert(bs.subrange(0, i + 1).last() == bs[i as int]);
                assert(taken@ =~= bs.subrange(i + 1, bs.len() as int).reverse());
            }
            let ghost bv = b@;
            block_map.insert(b.id().0, b);
            proof {
                assert(block_map@.map_values(|b: Block| b@) =~= before.insert(bv.id.0, bv));
            }
            i = i + 1;
        }
        proof {
            assert(bs.subrange(0, bs.len() as int) =~= bs);
        }
        let mut conn_map: HashMap<u64, Connection> = HashMap::new();
        let mut crest = connections;
        let mut ctaken: Vec<Connection> = Vec::new();
        while crest.len() > 0
            invariant
                crest@.len() <= cs.len(),
                crest@ == cs.subrange(0, crest@.len() as int),
                ctaken@ == cs.subrange(crest@.len() as int, cs.len() as int).reverse(),
            decreases crest@.len(),
        {
            let c = crest.pop().unwrap();
            ctaken.push(c);
            proof {
                assert(ctaken@ =~= cs.subrange(crest@.len() as int, cs.len() as int).reverse());
                assert(crest@ =~= cs.subrange(0, crest@.len() as int));
            }
        }
        let mut j: usize = 0;
        while ctaken.len() > 0
            invariant
                j + ctaken@.len() == cs.len(),
                cs.len() <= usize::MAX,
                ctaken@ == cs.subrange(j as int, cs.len() as int).reverse(),
                conn_map@.map_values(|c: Connection| c@) == wires_by_id(cs.subrange(0, j as int)),
            decreases ctaken@.len(),
        {
            let c = ctaken.pop().unwrap();
            let ghost before = conn_map@.map_values(|c: Connection| c@);
            proof {
                assert(c == cs[j as int]);
                assert(cs.subrange(0, j + 1).drop_last() =~= cs.subrange(0, j as int));
                assert(cs.subrange(0, j + 1).last() == cs[j as int]);
                assert(ctaken@ =~= cs.subrange(j + 1, cs.len() as int).reverse());
            }
            let ghost cv = c@;
            conn_map.insert(c.id().0, c);
            proof {
                assert(conn_map@.map_values(|c: Connection| c@) =~= before.insert(cv.id.0, cv));
            }
            j = j + 1;
        }
        proof {
            assert(cs.subrange(0, cs.len() as int) =~= cs);
        }
        let p = Plot {
            blocks: block_map,
            connections: conn_map,
            states,
            selection: Selection::Empty,
            to_update: HashSet::new(),
        };
        p
    }

    fn port_in_range_exec(&self, p: Port) -> (b: bool)
        ensures
            b == port_in_range(self.blocks_view(), p),
    {
        match self.blocks.get(&p.block_id().0) {
            Some(block) => match p {
                Port::Input(_, i) => (i as usize) < block.inputs().len(),
                Port::Output(_, i) => (i as usize) < block.outputs().len(),
            },
            None => true,
        }
    }

    /// Whether the plot is well formed and its pins fit the simulator.
    pub fn is_sound(&self) -> (b: bool)
        ensures
            b == (self.wf() && pins_bounded(self.blocks_view())),
    {
        let keys = keys_of(&self.blocks);
        let mut i: usize = 0;
        while i < keys.len()
            invariant
                0 <= i <= keys.len(),
                forall|k: u64| self.blocks@.contains_key(k) <==> keys@.contains(k),
                forall|j: int| 0 <= j < i ==> {
                    let b = #[trigger] self.blocks_view()[keys@[j]];
                    b.id.0 == keys@[j] && b.inputs.len() <= MAX_PINS && b.outputs.len() <= MAX_PINS
                },
            decreases keys.len() - i,
        {
            let k = keys[i];
            assert(keys@.contains(k));
            let b = self.blocks.get(&k).unwrap();
            if b.id().0 != k || b.inputs().len() > MAX_PINS || b.outputs().len() > MAX_PINS {
                proof {
                    assert(self.blocks_view().contains_key(k));
                }
                return false;
            }
            i = i + 1;
        }
        let ckeys = keys_of(&self.connections);
        let mut j: usize = 0;
        while j < ckeys.len()
            invariant
                0 <= j <= ckeys.len(),
                forall|k: u64| self.connections@.contains_key(k) <==> ckeys@.contains(k),
                forall|x: int| 0 <= x < j ==> {
                    let c = #[trigger] self.connections_view()[ckeys@[x]];
                    &&& c.id.0 == ckeys@[x]
                    &&& port_in_range(self.blocks_view(), c.origin)
                    &&& forall|y: int| 0 <= y < c.destinations().len() ==> port_in_range(
                        self.blocks_view(),
                        #[trigger] c.destinations()[y],
                    )
                },
            decreases ckeys.len() - j,
        {
            let k = ckeys[j];
            assert(ckeys@.contains(k));
            let c = self.connections.get(&k).unwrap();
            proof {
                assert(self.connections_view().contains_key(k));
                assert(self.connections_view()[k] == c@);
            }
            if c.id().0 != k || !self.port_in_range_exec(c.origin()) {
                return false;
            }
            let dests = c.destinations();
            let mut y: usize = 0;
            #[verifier::loop_isolation(false)]
            while y < dests.len()
                invariant
                    0 <= y <= dests.len(),
                    forall|z: int| 0 <= z < y ==> port_in_range(self.blocks_view(), #[trigger] dests@[z]),
                decreases dests.len() - y,
            {
                if !self.port_in_range_exec(dests[y]) {
                    proof {
                        assert(dests@[y as int] == self.connections_view()[k].destinations()[y as int]);
                    }
                    return false;
                }
                y = y + 1;
            }
            j = j + 1;
        }
        proof {
            assert forall|k: u64| #[trigger] self.blocks_view().contains_key(k) implies self.blocks_view()[k].id.0 == k
                && self.blocks_view()[k].inputs.len() <= MAX_PINS && self.blocks_view()[k].outputs.len() <= MAX_PINS by {
                assert(keys@.contains(k));
                let x = choose|x: int| 0 <= x < keys@.len() && keys@[x] == k;
            }
            assert forall|k: u64| #[trigger] self.connections_view().contains_key(k) implies self.connections_view()[k].id.0 == k by {
                assert(ckeys@.contains(k));
                let x = choose|x: int| 0 <= x < ckeys@.len() && ckeys@[x] == k;
            }
            assert forall|k: u64| #[trigger] self.connections_view().contains_key(k) implies {
                let c = self.connections_view()[k];
                &&& port_in_range(self.blocks_view(), c.origin)
                &&& forall|y: int| 0 <= y < c.destinations().len() ==> port_in_range(self.blocks_view(), #[trigger] c.destinations()[y])
            } by {
                assert(ckeys@.contains(k));
                let x = choose|x: int| 0 <= x < ckeys@.len() && ckeys@[x] == k;
            }
        }
        true
    }
}

} // verus!
