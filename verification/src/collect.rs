use vstd::prelude::*;
use std::collections::{HashMap, HashSet};
use crate::connection::{Connection, ConnectionID, ConnView};
use crate::plot::port_blocks;

verus! {

broadcast use vstd::std_specs::hash::group_hash_axioms;

/// The most pins on one side of a block whose signals fit in a `u128`.
pub const MAX_PINS: usize = 128;

/// The wires of a map of connections, by identifier.
pub open spec fn wires_view(m: Map<u64, Connection>) -> Map<u64, ConnView> {
    m.map_values(|c: Connection| c@)
}

/// Whether the pin linked by `link` carries a signal.
pub open spec fn link_active(link: Option<ConnectionID>, conns: Map<u64, ConnView>) -> bool {
    match link {
        Some(c) => conns.contains_key(c.0) && conns[c.0].active,
        None => false,
    }
}

/// The signals on a block's pins as bits: bit `i` is set when pin `i` is
/// linked to an existing wire that carries a signal.
pub open spec fn collect_inputs(links: Seq<Option<ConnectionID>>, conns: Map<u64, ConnView>) -> u128
    decreases links.len(),
{
    if links.len() == 0 {
        0
    } else {
        collect_inputs(links.drop_last(), conns) | (if link_active(links.last(), conns) {
            1u128
        } else {
            0u128
        } << ((links.len() - 1) as u128))
    }
}

/// The wires after a block has put `outputs` on its output pins: the wire
/// on pin `i` carries a signal when bit `i` is set.
pub open spec fn dissect_conns(links: Seq<Option<ConnectionID>>, outputs: u128, conns: Map<u64, ConnView>) -> Map<
    u64,
    ConnView,
>
    decreases links.len(),
{
    if links.len() == 0 {
        conns
    } else {
        let before = dissect_conns(links.drop_last(), outputs, conns);
        let i = links.len() - 1;
        match links.last() {
            Some(c) => if before.contains_key(c.0) {
                before.insert(c.0, ConnView { active: (outputs >> (i as u128)) & 1 != 0, ..before[c.0] })
            } else {
                before
            },
            None => before,
        }
    }
}

/// The blocks that a change of output signals reaches: the destinations
/// of every wire whose signal changed.
pub open spec fn dissect_updates(links: Seq<Option<ConnectionID>>, outputs: u128, conns: Map<u64, ConnView>) -> Set<
    u64,
>
    decreases links.len(),
{
    if links.len() == 0 {
        Set::empty()
    } else {
        let before = dissect_conns(links.drop_last(), outputs, conns);
        let earlier = dissect_updates(links.drop_last(), outputs, conns);
        let i = links.len() - 1;
        match links.last() {
            Some(c) => if before.contains_key(c.0) && ((outputs >> (i as u128)) & 1 != 0) != before[c.0].active {
                earlier.union(port_blocks(before[c.0].destinations()))
            } else {
                earlier
            },
            None => earlier,
        }
    }
}

/// Gathers a value out of `D`.
pub trait Collect<T, D> {
    spec fn can_collect(&self, data: &D) -> bool;

    fn collect(&self, data: &D) -> T
        requires
            self.can_collect(data),
    ;
}

impl Collect<u128, HashMap<u64, Connection>> for Vec<Option<ConnectionID>> {
    open spec fn can_collect(&self, data: &HashMap<u64, Connection>) -> bool {
        self@.len() <= MAX_PINS
    }

    /// The signals on the pins as bits (see `collect_inputs`).
    fn collect(&self, connections: &HashMap<u64, Connection>) -> (inputs: u128)
        ensures
            inputs == collect_inputs(self@, wires_view(connections@)),
    {
        let mut inputs: u128 = 0;
        let mut i: usize = 0;
        while i < self.len()
            invariant
                0 <= i <= self.len(),
                self@.len() <= MAX_PINS,
                inputs == collect_inputs(self@.subrange(0, i as int), wires_view(connections@)),
            decreases self.len() - i,
        {
            let active = match self[i] {
                Some(c) => match connections.get(&c.0) {
                    Some(conn) => conn.is_active(),
                    None => false,
                },
                None => false,
            };
            proof {
                let s = self@.subrange(0, i + 1);
                assert(s.drop_last() =~= self@.subrange(0, i as int));
                assert(s.last() == self@[i as int]);
                assert(active == link_active(self@[i as int], wires_view(connections@)));
            }
            inputs = inputs | ((if active {
                1u128
            } else {
                0u128
            }) << (i as u128));
            i = i + 1;
        }
        proof {
            assert(self@.subrange(0, self@.len() as int) =~= self@);
        }
        inputs
    }
}

/// Puts `outputs` on the wires of the pins `links` (pin `i` gets bit `i`)
/// and marks the destinations of every wire whose signal changed.
pub fn dissect_outputs(
    links: &Vec<Option<ConnectionID>>,
    outputs: u128,
    connections: &mut HashMap<u64, Connection>,
    to_update: &mut HashSet<u64>,
)
    requires
        links@.len() <= MAX_PINS,
    ensures
        wires_view(final(connections)@) == dissect_conns(links@, outputs, wires_view(old(connections)@)),
        final(to_update)@ == old(to_update)@.union(
            dissect_updates(links@, outputs, wires_view(old(connections)@)),
        ),
{
    let ghost c0 = wires_view(connections@);
    let mut i: usize = 0;
    while i < links.len()
        invariant
            0 <= i <= links.len(),
            links@.len() <= MAX_PINS,
            wires_view(connections@) == dissect_conns(links@.subrange(0, i as int), outputs, c0),
            to_update@ == old(to_update)@.union(dissect_updates(links@.subrange(0, i as int), outputs, c0)),
        decreases links.len() - i,
    {
        let ghost s = links@.subrange(0, i + 1);
        proof {
            assert(s.drop_last() =~= links@.subrange(0, i as int));
            assert(s.last() == links@[i as int]);
        }
        let ghost before = wires_view(connections@);
        match links[i] {
            Some(c) => {
                match connections.remove(&c.0) {
                    Some(mut conn) => {
                        let active = (outputs >> (i as u128)) & 1 != 0;
                        if active != conn.is_active() {
                            let dests = conn.destinations();
                            let mut j: usize = 0;
                            let ghost t0 = to_update@;
                            while j < dests.len()
                                invariant
                                    0 <= j <= dests.len(),
                                    to_update@ == t0.union(port_blocks(dests@.subrange(0, j as int))),
                                decreases dests.len() - j,
                            {
                                to_update.insert(dests[j].block_id().0);
                                j = j + 1;
                                proof {
                                    let a = dests@.subrange(0, j as int);
                                    let b = dests@.subrange(0, j - 1);
                                    assert forall|k: u64| port_blocks(a).contains(k) == (port_blocks(b).contains(k)
                                        || k == dests@[j - 1].spec_block_id().0) by {
                                        if port_blocks(a).contains(k) {
                                            let x = choose|x: int| 0 <= x < a.len() && a[x].spec_block_id().0 == k;
                                            if x < j - 1 {
                                                assert(b[x] == a[x]);
                                            }
                                        }
                                        if port_blocks(b).contains(k) {
                                            let x = choose|x: int| 0 <= x < b.len() && b[x].spec_block_id().0 == k;
                                            assert(a[x] == b[x]);
                                        }
                                        if k == dests@[j - 1].spec_block_id().0 {
                                            assert(a[j - 1] == dests@[j - 1]);
                                        }
                                    }
                                    assert(to_update@ =~= t0.union(port_blocks(a)));
                                }
                            }
                            proof {
                                assert(dests@.subrange(0, dests@.len() as int) =~= dests@);
                            }
                            conn.set_active(active);
                        }
                        connections.insert(c.0, conn);
                        proof {
                            assert(before.contains_key(c.0));
                            assert(wires_view(connections@) =~= before.insert(
                                c.0,
                                ConnView { active, ..before[c.0] },
                            ));
                            assert(to_update@ =~= old(to_update)@.union(dissect_updates(s, outputs, c0)));
                        }
                    },
                    None => {
                        proof {
                            assert(wires_view(connections@) =~= before);
                        }
                    },
                }
            },
            None => {},
        }
        i = i + 1;
    }
    proof {
        assert(links@.subrange(0, links@.len() as int) =~= links@);
    }
}


proof fn lemma_or_top_bit(x: u128, b: u128, k: u128, i: u128)
    by (bit_vector)
    requires
        k < 128,
        x >> k == 0,
        b == 0 || b == 1,
        i <= k,
    ensures
        i < k ==> ((x | (b << k)) >> i) & 1 == (x >> i) & 1,
        i == k ==> ((x | (b << k)) >> i) & 1 == b,
        k + 1 < 128 ==> (x | (b << k)) >> (k + 1) == 0,
{
}

/// The signal on input pin `i` is bit `i` of the collected inputs: bit `i`
/// is set exactly when pin `i` is linked to an existing wire that carries a
/// signal, and no bit at or above the number of pins is set.
pub proof fn lemma_collect_bits(links: Seq<Option<ConnectionID>>, conns: Map<u64, ConnView>)
    requires
        links.len() <= 128,
    ensures
        forall|i: int|
            0 <= i < links.len() ==> (((collect_inputs(links, conns) >> (i as u128)) & 1 == 1) <==> (
            #[trigger] links[i] matches Some(c) && conns.contains_key(c.0) && conns[c.0].active)),
        links.len() < 128 ==> collect_inputs(links, conns) >> (links.len() as u128) == 0,
    decreases links.len(),
{
    if links.len() == 0 {
        assert(0u128 >> 0u128 == 0) by (bit_vector);
    } else {
        let d = links.drop_last();
        lemma_collect_bits(d, conns);
        let x = collect_inputs(d, conns);
        let k = (links.len() - 1) as u128;
        let b: u128 = if link_active(links.last(), conns) {
            1u128
        } else {
            0u128
        };
        assert(collect_inputs(links, conns) == x | (b << k));
        if d.len() == 0 {
            assert(x == 0);
            assert(0u128 >> 0u128 == 0) by (bit_vector);
        }
        assert(x >> k == 0);
        assert forall|i: int|
            0 <= i < links.len() implies (((collect_inputs(links, conns) >> (i as u128)) & 1 == 1) <==> (
            #[trigger] links[i] matches Some(c) && conns.contains_key(c.0) && conns[c.0].active)) by {
            lemma_or_top_bit(x, b, k, i as u128);
            if i < k {
                assert(d[i] == links[i]);
            }
        }
        lemma_or_top_bit(x, b, k, k);
    }
}

} // verus!
