use vstd::prelude::*;
use crate::id::{Id, is_hashed_uuid};
use crate::vector::Vector2;
use crate::decoration::Decoration;
use std::collections::{HashMap, HashSet};
use crate::connection::{BlockID, ConnectionID, ConnView, Connection, Connector, HITBOX_SIZE};
use crate::state::{State, StateView};
use crate::modules::Module;
use crate::project::{Project, names_of, find_index};
use crate::simulator::{SimResult, stack_has, stack_contains, recursion_message, recursion_error, is_recursion_error};
use crate::builtin::{kind_of_name, gate_output, gate_instance};
use crate::collect::{Collect, MAX_PINS, wires_view, collect_inputs, dissect_conns, dissect_updates, dissect_outputs};
use crate::plot::same_wires;

verus! {

/// An instance of a module placed on a plot.
#[derive(Debug)]
pub struct Block {
    id: BlockID,
    name: String,
    position: Vector2<i32>,
    size: Vector2<i32>,
    highlighted: bool,
    unique: bool,
    inputs: Vec<Option<ConnectionID>>,
    outputs: Vec<Option<ConnectionID>>,
    decoration: Decoration,
    bytes: u128,
    passthrough: bool,
    state: State,
}

/// The mathematical value of a block.
pub struct BlockView {
    pub id: BlockID,
    pub name: Seq<char>,
    pub position: Vector2<i32>,
    pub size: Vector2<i32>,
    pub highlighted: bool,
    pub unique: bool,
    pub inputs: Seq<Option<ConnectionID>>,
    pub outputs: Seq<Option<ConnectionID>>,
    pub decoration: Decoration,
    pub bytes: u128,
    pub passthrough: bool,
    pub state: StateView,
}

impl View for Block {
    type V = BlockView;

    closed spec fn view(&self) -> BlockView {
        BlockView {
            id: self.id,
            name: self.name@,
            position: self.position,
            size: self.size,
            highlighted: self.highlighted,
            unique: self.unique,
            inputs: self.inputs@,
            outputs: self.outputs@,
            decoration: self.decoration,
            bytes: self.bytes,
            passthrough: self.passthrough,
            state: self.state@,
        }
    }
}

/// `b` is a fresh block of `module` at `position` with the given pin
/// counts, all free, sized to fit its name and pins (whatever its
/// identifier).
pub open spec fn is_new_sized(
    b: BlockView,
    module: Module,
    position: Vector2<i32>,
    unique: bool,
    num_inputs: u8,
    num_outputs: u8,
) -> bool {
    &&& b.name == module.spec_name()
    &&& b.position == position
    &&& b.size == Vector2(block_width(module.name_bytes()), block_height(num_inputs, num_outputs) as i32)
    &&& !b.highlighted
    &&& b.unique == unique
    &&& b.inputs == Seq::new(num_inputs as nat, |i: int| None::<ConnectionID>)
    &&& b.outputs == Seq::new(num_outputs as nat, |i: int| None::<ConnectionID>)
    &&& b.decoration == module.spec_decoration()
    &&& b.bytes == 0
    &&& b.passthrough
    &&& b.state == StateView::Empty
}

/// The width that a block gets for a name of `name_bytes` bytes.
pub open spec fn block_width(name_bytes: usize) -> i32 {
    let w = name_bytes.wrapping_mul(10) as i32;
    if w < 75 {
        75
    } else {
        w
    }
}

/// The height that a block gets for its number of pins.
pub open spec fn block_height(num_inputs: u8, num_outputs: u8) -> int {
    let n = if num_inputs >= num_outputs {
        num_inputs
    } else {
        num_outputs
    };
    n * 25 + 50
}

/// Where pin `i` sits along the side of a block at height `top`.
pub open spec fn pin_y(top: i32, i: int) -> int {
    top + 25 * i + 50
}

/// The point hits the pin at `pin`.
pub open spec fn on_pin(point: Vector2<i32>, pin_x: int, pin_y: int) -> bool {
    &&& -HITBOX_SIZE < point.0 - pin_x < HITBOX_SIZE
    &&& -HITBOX_SIZE < point.1 - pin_y < HITBOX_SIZE
}

/// A copy of a list of optional identifiers.
pub fn copy_links(v: &Vec<Option<ConnectionID>>) -> (out: Vec<Option<ConnectionID>>)
    ensures
        out@ == v@,
{
    let mut out: Vec<Option<ConnectionID>> = Vec::new();
    let mut i: usize = 0;
    while i < v.len()
        invariant
            0 <= i <= v.len(),
            out@ == v@.subrange(0, i as int),
        decreases v.len() - i,
    {
        let x = match v[i] {
            Some(id) => Some(id),
            None => None,
        };
        out.push(x);
        i = i + 1;
    }
    out
}

/// The links with wire `old_id` renamed to `new_id`.
fn renamed_links(v: &Vec<Option<ConnectionID>>, old_id: ConnectionID, new_id: ConnectionID) -> (out: Vec<
    Option<ConnectionID>,
>)
    ensures
        out@ == v@.map_values(|c: Option<ConnectionID>| rename_link(c, old_id, new_id)),
{
    let mut out: Vec<Option<ConnectionID>> = Vec::new();
    let mut i: usize = 0;
    while i < v.len()
        invariant
            0 <= i <= v.len(),
            out@ == v@.subrange(0, i as int).map_values(
                |c: Option<ConnectionID>| rename_link(c, old_id, new_id),
            ),
        decreases v.len() - i,
    {
        let x = if v[i] == Some(old_id) {
            Some(new_id)
        } else {
            v[i]
        };
        out.push(x);
        proof {
            assert(v@.subrange(0, i + 1).map_values(
                |c: Option<ConnectionID>| rename_link(c, old_id, new_id),
            ) =~= v@.subrange(0, i as int).map_values(
                |c: Option<ConnectionID>| rename_link(c, old_id, new_id),
            ).push(rename_link(v@[i as int], old_id, new_id)));
        }
        i = i + 1;
    }
    proof {
        assert(v@.subrange(0, v.len() as int) =~= v@);
    }
    out
}

/// A vector of `n` empty links.
fn none_links(n: usize) -> (out: Vec<Option<ConnectionID>>)
    ensures
        out@ == Seq::new(n as nat, |i: int| None::<ConnectionID>),
{
    let mut out: Vec<Option<ConnectionID>> = Vec::new();
    let mut i: usize = 0;
    while i < n
        invariant
            0 <= i <= n,
            out@ == Seq::new(i as nat, |j: int| None::<ConnectionID>),
        decreases n - i,
    {
        out.push(None);
        i = i + 1;
        proof {
            assert(out@ =~= Seq::new(i as nat, |j: int| None::<ConnectionID>));
        }
    }
    out
}

/// A vector of `n` empty links.
fn empty_links(n: u8) -> (out: Vec<Option<ConnectionID>>)
    ensures
        out@ == Seq::new(n as nat, |i: int| None::<ConnectionID>),
{
    let mut out: Vec<Option<ConnectionID>> = Vec::new();
    let mut i: u8 = 0;
    while i < n
        invariant
            0 <= i <= n,
            out@ == Seq::new(i as nat, |j: int| None::<ConnectionID>),
        decreases n - i,
    {
        out.push(None);
        i = i + 1;
        proof {
            assert(out@ =~= Seq::new(i as nat, |j: int| None::<ConnectionID>));
        }
    }
    out
}

impl Block {
    pub const MAX_CONNECTIONS: u8 = 128;

    /// A block of `module` at `position` with the given pin counts and a
    /// fresh identifier; it is sized to fit its name and pins.
    pub fn new_sized(
        module: &Module,
        position: Vector2<i32>,
        unique: bool,
        num_inputs: u8,
        num_outputs: u8,
    ) -> (b: Self)
        ensures
            is_new_sized(b@, *module, position, unique, num_inputs, num_outputs),
            is_hashed_uuid(b@.id.0),
    {
        let name = module.name().clone();
        let len = name.as_str().len();
        assert(len == module.name_bytes());
        let w = len.wrapping_mul(10) as i32;
        let width = if w < 75 {
            75
        } else {
            w
        };
        let n = if num_inputs >= num_outputs {
            num_inputs
        } else {
            num_outputs
        };
        let height = (n as i32) * 25 + 50;
        Block {
            id: Id::new(),
            position,
            size: Vector2(width, height),
            highlighted: false,
            unique,
            inputs: empty_links(num_inputs),
            outputs: empty_links(num_outputs),
            name,
            decoration: module.decoration().clone(),
            bytes: 0,
            passthrough: true,
            state: State::new_empty(),
        }
    }

    /// A block of `module` at `position`, with the module's pins.
    pub fn new(module: &Module, position: Vector2<i32>) -> (b: Self)
        ensures
            b@.name == module.spec_name(),
            b@.position == position,
            b@.size == Vector2(
                block_width(module.name_bytes()),
                block_height(module.spec_num_inputs(), module.spec_num_outputs()) as i32,
            ),
            !b@.highlighted,
            !b@.unique,
            b@.inputs.len() == module.spec_num_inputs(),
            b@.outputs.len() == module.spec_num_outputs(),
            forall|i: int| 0 <= i < b@.inputs.len() ==> b@.inputs[i] is None,
            forall|i: int| 0 <= i < b@.outputs.len() ==> b@.outputs[i] is None,
            b@.decoration == module.spec_decoration(),
            b@.bytes == 0,
            b@.passthrough,
            b@.state == StateView::Empty,
    {
        Self::new_sized(module, position, false, module.get_num_inputs(), module.get_num_outputs())
    }

    pub fn name(&self) -> (n: &String)
        ensures
            n@ == self@.name,
    {
        &self.name
    }

    /// The name of the module this block is an instance of.
    pub fn module_id(&self) -> (n: &String)
        ensures
            n@ == self@.name,
    {
        &self.name
    }

    pub fn unique(&self) -> (u: bool)
        ensures
            u == self@.unique,
    {
        self.unique
    }

    pub fn id(&self) -> (id: BlockID)
        ensures
            id == self@.id,
    {
        self.id
    }

    pub fn set_id(&mut self, id: BlockID)
        ensures
            final(self)@ == (BlockView { id, ..old(self)@ }),
    {
        self.id = id;
    }

    /// Whether the block overlaps the rectangle from `area.0` to `area.1`.
    pub fn is_in_area(&self, area: (Vector2<i32>, Vector2<i32>)) -> (inside: bool)
        ensures
            inside == block_in_area(self@, area),
    {
        let (px, py) = (self.position.0 as i64, self.position.1 as i64);
        let (sx, sy) = (self.size.0 as i64, self.size.1 as i64);
        !(px > area.1.0 as i64 || py > area.1.1 as i64 || px + sx < area.0.0 as i64 || py + sy
            < area.0.1 as i64)
    }

    /// Whether `point` lies on the block or within three pixels of it.
    pub fn touches(&self, point: Vector2<i32>) -> (hit: bool)
        ensures
            hit == (point.0 > self@.position.0 - 3 && point.0 < self@.position.0 + self@.size.0 + 3
                && point.1 > self@.position.1 - 3 && point.1 < self@.position.1 + self@.size.1
                + 3),
    {
        let (px, py) = (self.position.0 as i64, self.position.1 as i64);
        let (sx, sy) = (self.size.0 as i64, self.size.1 as i64);
        let (x, y) = (point.0 as i64, point.1 as i64);
        x > px - 3 && x < px + sx + 3 && y > py - 3 && y < py + sy + 3
    }

    pub fn set_highlighted(&mut self, highlighted: bool)
        ensures
            final(self)@ == (BlockView { highlighted, ..old(self)@ }),
    {
        self.highlighted = highlighted;
    }

    pub fn highlighted(&self) -> (h: bool)
        ensures
            h == self@.highlighted,
    {
        self.highlighted
    }

    pub fn set_position(&mut self, position: Vector2<i32>)
        ensures
            final(self)@ == (BlockView { position, ..old(self)@ }),
    {
        self.position = position;
    }

    pub fn position(&self) -> (p: Vector2<i32>)
        ensures
            p == self@.position,
    {
        self.position
    }

    pub fn size(&self) -> (s: Vector2<i32>)
        ensures
            s == self@.size,
    {
        self.size
    }

    /// The wires attached to the block: those at its inputs, then those
    /// at its outputs, each in pin order.
    pub fn connected_to(&self) -> (ids: Vec<ConnectionID>)
        ensures
            ids@ == links_of(self@.inputs + self@.outputs),
    {
        let mut ids: Vec<ConnectionID> = Vec::new();
        let ghost all = self.inputs@ + self.outputs@;
        let mut i: usize = 0;
        while i < self.inputs.len()
            invariant
                0 <= i <= self.inputs.len(),
                all == self.inputs@ + self.outputs@,
                ids@ == links_of(all.subrange(0, i as int)),
            decreases self.inputs.len() - i,
        {
            proof {
                assert(all.subrange(0, i + 1).drop_last() =~= all.subrange(0, i as int));
            }
            if let Some(id) = self.inputs[i] {
                ids.push(id);
            }
            i = i + 1;
        }
        let mut j: usize = 0;
        while j < self.outputs.len()
            invariant
                0 <= j <= self.outputs.len(),
                all == self.inputs@ + self.outputs@,
                ids@ == links_of(all.subrange(0, self.inputs@.len() + j)),
            decreases self.outputs.len() - j,
        {
            proof {
                let k = self.inputs@.len() + j;
                assert(all.subrange(0, k + 1).drop_last() =~= all.subrange(0, k));
                assert(all[k] == self.outputs@[j as int]);
            }
            if let Some(id) = self.outputs[j] {
                ids.push(id);
            }
            j = j + 1;
        }
        proof {
            assert(all.subrange(0, all.len() as int) =~= all);
        }
        ids
    }

    /// Where the given pin sits on the canvas.
    pub fn get_connector_pos(&self, connector: Connector) -> (p: Vector2<i32>)
        requires
            match connector {
                Connector::Input(i) => i32::MIN <= pin_y(self@.position.1, i as int) <= i32::MAX,
                Connector::Output(i) => i32::MIN <= pin_y(self@.position.1, i as int) <= i32::MAX
                    && i32::MIN <= self@.position.0 + self@.size.0 <= i32::MAX,
            },
        ensures
            match connector {
                Connector::Input(i) => p == Vector2(
                    self@.position.0,
                    pin_y(self@.position.1, i as int) as i32,
                ),
                Connector::Output(i) => p == Vector2(
                    (self@.position.0 + self@.size.0) as i32,
                    pin_y(self@.position.1, i as int) as i32,
                ),
            },
    {
        match connector {
            Connector::Input(i) => Vector2(self.position.0, self.position.1 + 25 * (i as i32) + 50),
            Connector::Output(i) => Vector2(
                self.position.0 + self.size.0,
                self.position.1 + 25 * (i as i32) + 50,
            ),
        }
    }

    /// The wire at the given pin, if any.
    pub fn connection(&self, connector: Connector) -> (c: Option<ConnectionID>)
        requires
            match connector {
                Connector::Input(i) => i < self@.inputs.len(),
                Connector::Output(i) => i < self@.outputs.len(),
            },
        ensures
            c == match connector {
                Connector::Input(i) => self@.inputs[i as int],
                Connector::Output(i) => self@.outputs[i as int],
            },
    {
        match connector {
            Connector::Input(i) => self.inputs[i as usize],
            Connector::Output(i) => self.outputs[i as usize],
        }
    }

    /// Attaches a wire to (or detaches it from) the given pin.
    pub fn set_connection(&mut self, connector: Connector, connection: Option<ConnectionID>)
        requires
            match connector {
                Connector::Input(i) => i < old(self)@.inputs.len(),
                Connector::Output(i) => i < old(self)@.outputs.len(),
            },
        ensures
            final(self)@ == match connector {
                Connector::Input(i) => BlockView {
                    inputs: old(self)@.inputs.update(i as int, connection),
                    ..old(self)@
                },
                Connector::Output(i) => BlockView {
                    outputs: old(self)@.outputs.update(i as int, connection),
                    ..old(self)@
                },
            },
    {
        match connector {
            Connector::Input(index) => self.inputs.set(index as usize, connection),
            Connector::Output(index) => self.outputs.set(index as usize, connection),
        }
    }

    /// Renames wire `old_id` to `new_id` at every pin.
    pub fn replace_connection_id(&mut self, old_id: ConnectionID, new_id: ConnectionID)
        ensures
            final(self)@ == (BlockView {
                inputs: old(self)@.inputs.map_values(
                    |c: Option<ConnectionID>| rename_link(c, old_id, new_id),
                ),
                outputs: old(self)@.outputs.map_values(
                    |c: Option<ConnectionID>| rename_link(c, old_id, new_id),
                ),
                ..old(self)@
            }),
    {
        self.inputs = renamed_links(&self.inputs, old_id, new_id);
        self.outputs = renamed_links(&self.outputs, old_id, new_id);
    }

    pub fn outputs(&self) -> (o: &Vec<Option<ConnectionID>>)
        ensures
            o@ == self@.outputs,
    {
        &self.outputs
    }

    pub fn inputs(&self) -> (i: &Vec<Option<ConnectionID>>)
        ensures
            i@ == self@.inputs,
    {
        &self.inputs
    }

    /// Detaches every wire from the block.
    pub fn clear_connections(&mut self)
        ensures
            final(self)@ == (BlockView {
                inputs: Seq::new(old(self)@.inputs.len(), |i: int| None::<ConnectionID>),
                outputs: Seq::new(old(self)@.outputs.len(), |i: int| None::<ConnectionID>),
                ..old(self)@
            }),
    {
        self.inputs = none_links(self.inputs.len());
        self.outputs = none_links(self.outputs.len());
    }

    pub fn is_active(&self) -> (a: bool)
        ensures
            a == self@.decoration.active(),
    {
        self.decoration.is_active()
    }

    pub fn set_active(&mut self, is_active: bool)
        ensures
            final(self)@ == (BlockView {
                decoration: old(self)@.decoration.with_active(is_active),
                ..old(self)@
            }),
    {
        self.decoration.set_active(is_active)
    }

    pub fn decoration(&self) -> (d: &Decoration)
        ensures
            *d == self@.decoration,
    {
        &self.decoration
    }

    /// The first input (or output) pin that `position` hits.
    pub fn position_on_connection(&self, position: Vector2<i32>, is_input: bool) -> (pin: Option<u8>)
        ensures
            pin == first_pin_hit(self@, position, is_input),
    {
        let n = if is_input {
            self.inputs.len()
        } else {
            self.outputs.len()
        };
        let x: i64 = if is_input {
            self.position.0 as i64
        } else {
            self.position.0 as i64 + self.size.0 as i64
        };
        let mut i: usize = 0;
        while i < n
            invariant
                0 <= i <= n,
                n == if is_input {
                    self@.inputs.len()
                } else {
                    self@.outputs.len()
                },
                x == pin_x(self@, is_input),
                forall|j: int| 0 <= j < i ==> !on_pin(position, x as int, pin_y(self@.position.1, j)),
            decreases n - i,
        {
            let y: i128 = self.position.1 as i128 + 25 * (i as i128) + 50;
            let dx: i128 = position.0 as i128 - x as i128;
            let dy: i128 = position.1 as i128 - y;
            if -(HITBOX_SIZE as i128) < dx && dx < HITBOX_SIZE as i128 && -(HITBOX_SIZE as i128)
                < dy && dy < HITBOX_SIZE as i128 {
                proof {
                    lemma_first_pin_hit(self@, position, is_input, i as int);
                }
                return Some(i as u8);
            }
            i = i + 1;
        }
        proof {
            lemma_first_pin_hit_none(self@, position, is_input);
        }
        None
    }

    pub fn bytes(&self) -> (b: u128)
        ensures
            b == self@.bytes,
    {
        self.bytes
    }

    pub fn set_bytes(&mut self, bytes: u128)
        ensures
            final(self)@ == (BlockView { bytes, ..old(self)@ }),
    {
        self.bytes = bytes;
    }

    pub fn passthrough(&self) -> (p: bool)
        ensures
            p == self@.passthrough,
    {
        self.passthrough
    }

    pub fn set_passthrough(&mut self, passthrough: bool)
        ensures
            final(self)@ == (BlockView { passthrough, ..old(self)@ }),
    {
        self.passthrough = passthrough;
    }

    pub fn state(&self) -> (s: &State)
        ensures
            s@ == self@.state,
    {
        &self.state
    }

    pub fn set_state(&mut self, state: State)
        ensures
            final(self)@ == (BlockView { state: state@, ..old(self)@ }),
    {
        self.state = state;
    }
}



/// The block overlaps the area between the corners `area.0` (top left)
/// and `area.1` (bottom right).
pub open spec fn block_in_area(b: BlockView, area: (Vector2<i32>, Vector2<i32>)) -> bool {
    !(b.position.0 > area.1.0 || b.position.1 > area.1.1 || b.position.0 + b.size.0 < area.0.0
        || b.position.1 + b.size.1 < area.0.1)
}

/// The same block up to its dynamic state: identifier, name, place,
/// size, highlighting and pins agree.
pub open spec fn block_shape_same(a: BlockView, b: BlockView) -> bool {
    &&& a.id == b.id
    &&& a.name == b.name
    &&& a.position == b.position
    &&& a.size == b.size
    &&& a.highlighted == b.highlighted
    &&& a.unique == b.unique
    &&& a.inputs == b.inputs
    &&& a.outputs == b.outputs
}

/// The wire identifiers among optional links, in order.
pub open spec fn links_of(s: Seq<Option<ConnectionID>>) -> Seq<ConnectionID>
    decreases s.len(),
{
    if s.len() == 0 {
        seq![]
    } else {
        let rest = links_of(s.drop_last());
        match s.last() {
            Some(id) => rest.push(id),
            None => rest,
        }
    }
}

pub open spec fn rename_link(c: Option<ConnectionID>, old_id: ConnectionID, new_id: ConnectionID) -> Option<
    ConnectionID,
> {
    if c == Some(old_id) {
        Some(new_id)
    } else {
        c
    }
}

/// The x coordinate of the inputs (left side) or the outputs (right side).
pub open spec fn pin_x(b: BlockView, is_input: bool) -> int {
    if is_input {
        b.position.0 as int
    } else {
        b.position.0 + b.size.0
    }
}

/// The first pin on the chosen side that `position` hits.
pub open spec fn first_pin_hit(b: BlockView, position: Vector2<i32>, is_input: bool) -> Option<u8> {
    let n = if is_input {
        b.inputs.len()
    } else {
        b.outputs.len()
    };
    if exists|i: int| 0 <= i < n && on_pin(position, pin_x(b, is_input), pin_y(b.position.1, i)) {
        let i = choose|i: int|
            0 <= i < n && on_pin(position, pin_x(b, is_input), pin_y(b.position.1, i)) && forall|
                j: int,
            |
                0 <= j < i ==> !on_pin(position, pin_x(b, is_input), pin_y(b.position.1, j));
        Some(i as u8)
    } else {
        None
    }
}

proof fn lemma_first_pin_hit(b: BlockView, position: Vector2<i32>, is_input: bool, i: int)
    requires
        0 <= i < (if is_input {
            b.inputs.len()
        } else {
            b.outputs.len()
        }),
        on_pin(position, pin_x(b, is_input), pin_y(b.position.1, i)),
        forall|j: int| 0 <= j < i ==> !on_pin(position, pin_x(b, is_input), pin_y(b.position.1, j)),
    ensures
        first_pin_hit(b, position, is_input) == Some(i as u8),
{
    let n = if is_input {
        b.inputs.len()
    } else {
        b.outputs.len()
    };
    let k = choose|k: int|
        0 <= k < n && on_pin(position, pin_x(b, is_input), pin_y(b.position.1, k)) && forall|j: int|
            0 <= j < k ==> !on_pin(position, pin_x(b, is_input), pin_y(b.position.1, j));
    assert(0 <= k < n && on_pin(position, pin_x(b, is_input), pin_y(b.position.1, k)) && forall|
        j: int,
    |
        0 <= j < k ==> !on_pin(position, pin_x(b, is_input), pin_y(b.position.1, j)));
    if k < i {
    } else if k > i {
    }
    assert(k == i);
}

proof fn lemma_first_pin_hit_none(b: BlockView, position: Vector2<i32>, is_input: bool)
    requires
        forall|j: int|
            0 <= j < (if is_input {
                b.inputs.len()
            } else {
                b.outputs.len()
            }) ==> !on_pin(position, pin_x(b, is_input), pin_y(b.position.1, j)),
    ensures
        first_pin_hit(b, position, is_input) is None,
{
}

impl Clone for Block {
    fn clone(&self) -> (b: Self)
        ensures
            b@ == self@,
    {
        Block {
            id: self.id,
            name: self.name.clone(),
            position: self.position,
            size: self.size,
            highlighted: self.highlighted,
            unique: self.unique,
            inputs: copy_links(&self.inputs),
            outputs: copy_links(&self.outputs),
            decoration: self.decoration.clone(),
            bytes: self.bytes,
            passthrough: self.passthrough,
            state: self.state.duplicate(),
        }
    }
}

impl Block {
    /// Simulates the block: gathers the signals on its input pins, runs
    /// its module, and puts the module's output bits on the wires of its
    /// output pins, marking the destinations of every wire that changed.
    /// A block whose module is missing is left as it is.
    pub fn simulate(
        &mut self,
        connections: &mut HashMap<u64, Connection>,
        to_update: &mut HashSet<u64>,
        project: &mut Project,
        call_stack: &mut Vec<String>,
    ) -> (r: SimResult<()>)
        requires
            old(self)@.inputs.len() <= MAX_PINS,
            old(self)@.outputs.len() <= MAX_PINS,
            old(project).wf(),
        ensures
            block_shape_same(old(self)@, final(self)@),
            same_wires(wires_view(old(connections)@), wires_view(final(connections)@)),
            old(to_update)@.subset_of(final(to_update)@),
            final(project).wf(),
            names_of(final(project).spec_modules()) == names_of(old(project).spec_modules()),
            crate::modules::modules_shape_same(old(project).spec_modules(), final(project).spec_modules()),
            final(project).spec_main_plot() == old(project).spec_main_plot(),
            final(call_stack)@ == old(call_stack)@,
            r matches Err(e) ==> is_recursion_error(e@),
            r is Ok ==> exists|out: u128|
                #[trigger] block_ran(
                    old(project).spec_modules(),
                    old(self)@,
                    wires_view(old(connections)@),
                    out,
                    final(self)@,
                    wires_view(final(connections)@),
                ) && final(to_update)@ == old(to_update)@.union(
                    step_updates(old(project).spec_modules(), old(self)@, out, wires_view(old(connections)@)),
                ),
            ({
                let c0 = wires_view(old(connections)@);
                let inputs = collect_inputs(old(self)@.inputs, c0);
                match find_index(old(project).spec_modules(), old(self)@.name) {
                    None => {
                        &&& stack_has(old(call_stack)@, old(self)@.name) ==> (r matches Err(e) && e@
                            == recursion_error(old(self)@.name))
                        &&& !stack_has(old(call_stack)@, old(self)@.name) ==> r is Ok
                        &&& final(self)@ == old(self)@
                        &&& final(connections)@ == old(connections)@
                        &&& final(to_update)@ == old(to_update)@
                        &&& final(project).spec_modules() == old(project).spec_modules()
                    },
                    Some(i) => {
                        let m = old(project).spec_modules()[i];
                        &&& m.spec_builtin() && kind_of_name(m.spec_name()) is Some ==> {
                            let k = kind_of_name(m.spec_name()).unwrap();
                            let out = gate_output(k, inputs, old(self)@);
                            &&& r is Ok
                            &&& final(self)@ == gate_instance(k, inputs, old(self)@)
                            &&& wires_view(final(connections)@) == dissect_conns(old(self)@.outputs, out, c0)
                            &&& final(to_update)@ == old(to_update)@.union(
                                dissect_updates(old(self)@.outputs, out, c0),
                            )
                            &&& final(project).spec_modules() == old(project).spec_modules()
                        }
                        &&& r is Ok ==> exists|out: u128|
                            wires_view(final(connections)@) == #[trigger] dissect_conns(old(self)@.outputs, out, c0)
                                && final(to_update)@ == old(to_update)@.union(
                                dissect_updates(old(self)@.outputs, out, c0),
                            )
                        &&& r is Err ==> final(connections)@ == old(connections)@ && final(to_update)@
                            == old(to_update)@
                    },
                }
            }),
        decreases old(project).spec_modules().len(), 1int,
    {
        let inputs = self.inputs.collect(connections);
        match project.index_of(&self.name) {
            Some(i) => {
                let ghost names = names_of(project.spec_modules());
                let mut module = project.take_module(i);
                proof {
                    assert(names_of(project.spec_modules()) =~= names.remove(i as int));
                }
                let ghost taken = module;
                let ghost rest = project.spec_modules();
                let r = module.simulate(inputs, self, project, call_stack);
                let ghost rest2 = project.spec_modules();
                project.restore_module(i, module, Ghost(names));
                proof {
                    assert(project.spec_modules().len() == old(project).spec_modules().len());
                    crate::modules::lemma_modules_shape_reinsert(old(project).spec_modules(), i as int, rest2, module);
                }
                match r {
                    Ok(outputs) => {
                        dissect_outputs(&self.outputs, outputs, connections, to_update);
                        proof {
                            lemma_dissect_same_wires(self@.outputs, outputs, wires_view(old(connections)@));
                            let _ = dissect_conns(old(self)@.outputs, outputs, wires_view(old(connections)@));
                            assert(old(project).spec_modules()[i as int].spec_builtin() && kind_of_name(
                                old(project).spec_modules()[i as int].spec_name(),
                            ) is Some ==> project.spec_modules() =~= old(project).spec_modules());
                            assert(block_ran(
                                old(project).spec_modules(),
                                old(self)@,
                                wires_view(old(connections)@),
                                outputs,
                                self@,
                                wires_view(connections@),
                            ));
                        }
                        Ok(())
                    },
                    Err(e) => Err(e),
                }
            },
            None => {
                if stack_contains(call_stack, &self.name) {
                    Err(recursion_message(&self.name))
                } else {
                    proof {
                        assert(to_update@ =~= old(to_update)@.union(Set::empty()));
                        assert(block_ran(
                            old(project).spec_modules(),
                            old(self)@,
                            wires_view(old(connections)@),
                            0,
                            self@,
                            wires_view(connections@),
                        ));
                    }
                    Ok(())
                }
            },
        }
    }
}

/// The wires after block `b` ran with output bits `out`: the wires on its
/// output pins carry those bits. A block of no module of `ms` leaves them.
pub open spec fn step_wires(ms: Seq<Module>, b: BlockView, out: u128, cs: Map<u64, ConnView>) -> Map<u64, ConnView> {
    if find_index(ms, b.name) is None {
        cs
    } else {
        dissect_conns(b.outputs, out, cs)
    }
}

/// The blocks that block `b` sends an update when it runs with output bits
/// `out`: those the wires reach whose signal changes.
pub open spec fn step_updates(ms: Seq<Module>, b: BlockView, out: u128, cs: Map<u64, ConnView>) -> Set<u64> {
    if find_index(ms, b.name) is None {
        Set::empty()
    } else {
        dissect_updates(b.outputs, out, cs)
    }
}

/// Block `b` ran once against wires `cs` and the modules `ms`, putting
/// `out` on its output pins: it became `b2` (changed in its dynamic state
/// only) and the wires became `cs2`. An instance of a predefined module
/// computes its gate from the signals on its input pins; an instance of a
/// custom module changes only in its saved state; a block of no module
/// stays as it is.
pub open spec fn block_ran(
    ms: Seq<Module>,
    b: BlockView,
    cs: Map<u64, ConnView>,
    out: u128,
    b2: BlockView,
    cs2: Map<u64, ConnView>,
) -> bool {
    &&& block_shape_same(b, b2)
    &&& cs2 == step_wires(ms, b, out, cs)
    &&& match find_index(ms, b.name) {
        None => b2 == b,
        Some(i) => {
            &&& ms[i].spec_builtin() && kind_of_name(ms[i].spec_name()) is Some ==> {
                let k = kind_of_name(ms[i].spec_name()).unwrap();
                let inputs = collect_inputs(b.inputs, cs);
                &&& b2 == gate_instance(k, inputs, b)
                &&& out == gate_output(k, inputs, b)
            }
            &&& !(ms[i].spec_builtin() && kind_of_name(ms[i].spec_name()) is Some) ==> b2 == (BlockView {
                state: b2.state,
                ..b
            })
        },
    }
}

/// What `block_ran` says over one list of modules it says over another of
/// the same shape.
pub proof fn lemma_block_ran_modules(
    ms: Seq<Module>,
    ms1: Seq<Module>,
    b: BlockView,
    cs: Map<u64, ConnView>,
    out: u128,
    b2: BlockView,
    cs2: Map<u64, ConnView>,
)
    requires
        crate::modules::modules_shape_same(ms, ms1),
        crate::project::names_unique(ms),
        block_ran(ms1, b, cs, out, b2, cs2),
    ensures
        block_ran(ms, b, cs, out, b2, cs2),
        step_updates(ms, b, out, cs) == step_updates(ms1, b, out, cs),
{
    crate::modules::lemma_modules_shape_find(ms, ms1, b.name);
    match find_index(ms, b.name) {
        Some(i) => {
            assert(crate::modules::module_shape_same(ms[i], ms1[i]));
        },
        None => {},
    }
}

/// The hit test of a pin side, at the very position of pin `i`, finds pin
/// `i`: pins lie 25 apart, farther than the hitbox reaches.
pub proof fn lemma_pin_hit_at_pin(b: BlockView, is_input: bool, i: int)
    requires
        0 <= i < (if is_input {
            b.inputs.len()
        } else {
            b.outputs.len()
        }),
        i < 256,
        i32::MIN <= pin_x(b, is_input) <= i32::MAX,
        i32::MIN <= pin_y(b.position.1, i) <= i32::MAX,
    ensures
        first_pin_hit(
            b,
            Vector2(pin_x(b, is_input) as i32, pin_y(b.position.1, i) as i32),
            is_input,
        ) == Some(i as u8),
{
    let p = Vector2(pin_x(b, is_input) as i32, pin_y(b.position.1, i) as i32);
    let n = if is_input {
        b.inputs.len()
    } else {
        b.outputs.len()
    };
    assert(on_pin(p, pin_x(b, is_input), pin_y(b.position.1, i)));
    let c = choose|c: int|
        0 <= c < n && on_pin(p, pin_x(b, is_input), pin_y(b.position.1, c)) && forall|j: int|
            0 <= j < c ==> !on_pin(p, pin_x(b, is_input), pin_y(b.position.1, j));
    assert(0 <= c < n && on_pin(p, pin_x(b, is_input), pin_y(b.position.1, c)));
    if c < i {
        assert(pin_y(b.position.1, i) - pin_y(b.position.1, c) >= 25);
    }
    if c > i {
        assert(pin_y(b.position.1, c) - pin_y(b.position.1, i) >= 25);
    }
}

pub proof fn lemma_dissect_same_wires(links: Seq<Option<ConnectionID>>, outputs: u128, conns: Map<u64, ConnView>)
    ensures
        same_wires(conns, dissect_conns(links, outputs, conns)),
    decreases links.len(),
{
    if links.len() > 0 {
        lemma_dissect_same_wires(links.drop_last(), outputs, conns);
        let before = dissect_conns(links.drop_last(), outputs, conns);
        let after = dissect_conns(links, outputs, conns);
        assert(after.dom() =~= before.dom());
    }
}

impl Block {
    /// Replaces the links of the input pins.
    pub fn set_inputs(&mut self, inputs: Vec<Option<ConnectionID>>)
        ensures
            final(self)@ == (BlockView { inputs: inputs@, ..old(self)@ }),
    {
        self.inputs = inputs;
    }

    /// Replaces the links of the output pins.
    pub fn set_outputs(&mut self, outputs: Vec<Option<ConnectionID>>)
        ensures
            final(self)@ == (BlockView { outputs: outputs@, ..old(self)@ }),
    {
        self.outputs = outputs;
    }
}

impl Block {
    /// A block with every field given, as stored in a project file.
    pub fn from_parts(
        id: BlockID,
        name: String,
        position: Vector2<i32>,
        size: Vector2<i32>,
        unique: bool,
        inputs: Vec<Option<ConnectionID>>,
        outputs: Vec<Option<ConnectionID>>,
        decoration: Decoration,
        bytes: u128,
        passthrough: bool,
        state: State,
    ) -> (b: Self)
        ensures
            b@ == (BlockView {
                id,
                name: name@,
                position,
                size,
                highlighted: false,
                unique,
                inputs: inputs@,
                outputs: outputs@,
                decoration,
                bytes,
                passthrough,
                state: state@,
            }),
    {
        Block {
            id,
            name,
            position,
            size,
            highlighted: false,
            unique,
            inputs,
            outputs,
            decoration,
            bytes,
            passthrough,
            state,
        }
    }
}

} // verus!
