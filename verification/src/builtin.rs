use vstd::prelude::*;
use crate::block::{Block, BlockView};
use crate::decoration::Decoration;
use crate::modules::{Category, Module};

verus! {

/// The gates, latches and input/output blocks that every project has.
#[derive(Debug, Clone, Copy, PartialEq, Eq, Structural)]
pub enum BuiltinKind {
    Low,
    High,
    And,
    Nand,
    Or,
    Nor,
    Not,
    Xor,
    Xnor,
    Button,
    Switch,
    Lamp,
    Input,
    Output,
    Mux,
    Demux,
    SrNandLatch,
    SrLatch,
    JkLatch,
    TFlipFlop,
}

/// `1` for `true`, `0` for `false`.
pub open spec fn bit(b: bool) -> u128 {
    if b {
        1
    } else {
        0
    }
}

/// The stored bit of an SR latch after `input` (bit 0 sets, bit 1
/// resets; reset wins).
pub open spec fn sr_next(input: u128, stored: u128) -> u128 {
    if input & 2 > 0 {
        0
    } else if input & 1 > 0 {
        1
    } else {
        stored
    }
}

/// The stored bit of an SR latch made of NAND gates: its inputs are
/// active low, and set wins.
pub open spec fn sr_nand_next(input: u128, stored: u128) -> u128 {
    if input & 1 == 0 {
        1
    } else if input & 2 == 0 {
        0
    } else {
        stored
    }
}

/// The stored bit of a JK latch after `input` (bit 0 is J, bit 1 is K).
pub open spec fn jk_next(input: u128, stored: u128) -> u128 {
    let j = input & 1 > 0;
    let k = input & 2 > 0;
    if j && k {
        bit(stored == 0)
    } else if j {
        1
    } else if k {
        0
    } else {
        stored
    }
}

/// The state of a T flip-flop after `input`: bit 0 is the output, which
/// flips on a rising edge of the input; bit 1 remembers the input.
pub open spec fn t_next(input: u128, stored: u128) -> u128 {
    let toggled = if input & 1 > 0 && stored & 2 == 0 {
        stored ^ 1
    } else {
        stored
    };
    (toggled & !2u128) | (input << 1u128)
}

/// What a predefined block puts on its output pins (bit `i` for pin `i`)
/// when its input pins carry `input` and it is in state `b`.
pub open spec fn gate_output(kind: BuiltinKind, input: u128, b: BlockView) -> u128 {
    match kind {
        BuiltinKind::Low => 0,
        BuiltinKind::High => u128::MAX,
        BuiltinKind::And => bit(input == 3),
        BuiltinKind::Nand => bit(input != 3),
        BuiltinKind::Or => bit(input != 0),
        BuiltinKind::Nor => bit(input == 0),
        BuiltinKind::Not => !input,
        BuiltinKind::Xor => bit(input == 1 || input == 2),
        BuiltinKind::Xnor => bit(input == 0 || input == 3),
        BuiltinKind::Button => bit(b.decoration.active()),
        BuiltinKind::Switch => bit(b.decoration.active()),
        BuiltinKind::Lamp => 0,
        BuiltinKind::Input => if b.passthrough {
            input
        } else {
            b.bytes
        },
        BuiltinKind::Output => input,
        BuiltinKind::Mux => bit(input & 5 == 1 || input & 6 == 6),
        BuiltinKind::Demux => (bit(input == 3) << 1u128) | bit(input == 1),
        BuiltinKind::SrNandLatch => {
            let q = sr_nand_next(input, b.bytes);
            q | (bit(q == 0) << 1u128)
        },
        BuiltinKind::SrLatch => sr_next(input, b.bytes),
        BuiltinKind::JkLatch => jk_next(input, b.bytes),
        BuiltinKind::TFlipFlop => t_next(input, b.bytes) & 1,
    }
}

/// The block after a predefined has simulated it: lamps show input bit 0,
/// output blocks and latches store their state in the block's bytes.
pub open spec fn gate_instance(kind: BuiltinKind, input: u128, b: BlockView) -> BlockView {
    match kind {
        BuiltinKind::Lamp => BlockView { decoration: b.decoration.with_active(input & 1 == 1), ..b },
        BuiltinKind::Output => BlockView { bytes: input, ..b },
        BuiltinKind::SrNandLatch => BlockView { bytes: sr_nand_next(input, b.bytes), ..b },
        BuiltinKind::SrLatch => BlockView { bytes: sr_next(input, b.bytes), ..b },
        BuiltinKind::JkLatch => BlockView { bytes: jk_next(input, b.bytes), ..b },
        BuiltinKind::TFlipFlop => BlockView { bytes: t_next(input, b.bytes), ..b },
        _ => b,
    }
}

/// The module name of each predefined.
pub open spec fn builtin_name(kind: BuiltinKind) -> Seq<char> {
    match kind {
        BuiltinKind::Low => "Low"@,
        BuiltinKind::High => "High"@,
        BuiltinKind::And => "And"@,
        BuiltinKind::Nand => "Nand"@,
        BuiltinKind::Or => "Or"@,
        BuiltinKind::Nor => "Nor"@,
        BuiltinKind::Not => "Not"@,
        BuiltinKind::Xor => "Xor"@,
        BuiltinKind::Xnor => "Xnor"@,
        BuiltinKind::Button => "Button"@,
        BuiltinKind::Switch => "Switch"@,
        BuiltinKind::Lamp => "Lamp"@,
        BuiltinKind::Input => "Input"@,
        BuiltinKind::Output => "Output"@,
        BuiltinKind::Mux => "Mux"@,
        BuiltinKind::Demux => "Demux"@,
        BuiltinKind::SrNandLatch => "SR Nand Latch"@,
        BuiltinKind::SrLatch => "SR Latch"@,
        BuiltinKind::JkLatch => "JK Latch"@,
        BuiltinKind::TFlipFlop => "T Flip-Flop"@,
    }
}

/// The predefined that a module name names, if any.
pub open spec fn kind_of_name(name: Seq<char>) -> Option<BuiltinKind> {
    if name == "Low"@ {
        Some(BuiltinKind::Low)
    } else if name == "High"@ {
        Some(BuiltinKind::High)
    } else if name == "And"@ {
        Some(BuiltinKind::And)
    } else if name == "Nand"@ {
        Some(BuiltinKind::Nand)
    } else if name == "Or"@ {
        Some(BuiltinKind::Or)
    } else if name == "Nor"@ {
        Some(BuiltinKind::Nor)
    } else if name == "Not"@ {
        Some(BuiltinKind::Not)
    } else if name == "Xor"@ {
        Some(BuiltinKind::Xor)
    } else if name == "Xnor"@ {
        Some(BuiltinKind::Xnor)
    } else if name == "Button"@ {
        Some(BuiltinKind::Button)
    } else if name == "Switch"@ {
        Some(BuiltinKind::Switch)
    } else if name == "Lamp"@ {
        Some(BuiltinKind::Lamp)
    } else if name == "Input"@ {
        Some(BuiltinKind::Input)
    } else if name == "Output"@ {
        Some(BuiltinKind::Output)
    } else if name == "Mux"@ {
        Some(BuiltinKind::Mux)
    } else if name == "Demux"@ {
        Some(BuiltinKind::Demux)
    } else if name == "SR Nand Latch"@ {
        Some(BuiltinKind::SrNandLatch)
    } else if name == "SR Latch"@ {
        Some(BuiltinKind::SrLatch)
    } else if name == "JK Latch"@ {
        Some(BuiltinKind::JkLatch)
    } else if name == "T Flip-Flop"@ {
        Some(BuiltinKind::TFlipFlop)
    } else {
        None
    }
}

/// The category, pin counts and decoration of each predefined.
pub open spec fn builtin_category(kind: BuiltinKind) -> Category {
    match kind {
        BuiltinKind::Low | BuiltinKind::High => Category::Basic,
        BuiltinKind::And | BuiltinKind::Nand | BuiltinKind::Or | BuiltinKind::Nor | BuiltinKind::Not
        | BuiltinKind::Xor | BuiltinKind::Xnor => Category::Gate,
        BuiltinKind::Button | BuiltinKind::Switch | BuiltinKind::Lamp => Category::InputOutput,
        BuiltinKind::Input | BuiltinKind::Output => Category::Hidden,
        BuiltinKind::Mux | BuiltinKind::Demux => Category::Combinational,
        BuiltinKind::SrNandLatch | BuiltinKind::SrLatch | BuiltinKind::JkLatch => Category::Latch,
        BuiltinKind::TFlipFlop => Category::FlipFlop,
    }
}

pub open spec fn builtin_inputs(kind: BuiltinKind) -> u8 {
    match kind {
        BuiltinKind::Low | BuiltinKind::High | BuiltinKind::Button | BuiltinKind::Switch => 0,
        BuiltinKind::Not | BuiltinKind::Lamp | BuiltinKind::TFlipFlop => 1,
        BuiltinKind::Input | BuiltinKind::Output => MAX_CONNECTIONS,
        BuiltinKind::Mux => 3,
        _ => 2,
    }
}

pub open spec fn builtin_outputs(kind: BuiltinKind) -> u8 {
    match kind {
        BuiltinKind::Lamp => 0,
        BuiltinKind::Input | BuiltinKind::Output => MAX_CONNECTIONS,
        BuiltinKind::Demux | BuiltinKind::SrNandLatch => 2,
        _ => 1,
    }
}

/// The most pins a block can have on one side.
pub const MAX_CONNECTIONS: u8 = 128;

/// The module that describes a predefined.
pub fn builtin_module(kind: BuiltinKind) -> (m: Module)
    ensures
        m.spec_name() == builtin_name(kind),
        m.spec_category() == builtin_category(kind),
        m.spec_builtin(),
        m.spec_num_inputs() == builtin_inputs(kind),
        m.spec_num_outputs() == builtin_outputs(kind),
        m.spec_custom() is None,
{
    match kind {
        BuiltinKind::Low => Module::new_builtin("Low", Category::Basic, 0, 1, Decoration::Label("0".to_owned())),
        BuiltinKind::High => Module::new_builtin("High", Category::Basic, 0, 1, Decoration::Label("1".to_owned())),
        BuiltinKind::And => Module::new_builtin("And", Category::Gate, 2, 1, Decoration::Label("&".to_owned())),
        BuiltinKind::Nand => Module::new_builtin("Nand", Category::Gate, 2, 1, Decoration::NotLabel("&".to_owned())),
        BuiltinKind::Or => Module::new_builtin("Or", Category::Gate, 2, 1, Decoration::Label("≥1".to_owned())),
        BuiltinKind::Nor => Module::new_builtin("Nor", Category::Gate, 2, 1, Decoration::NotLabel("≥1".to_owned())),
        BuiltinKind::Not => Module::new_builtin("Not", Category::Gate, 1, 1, Decoration::NotLabel("1".to_owned())),
        BuiltinKind::Xor => Module::new_builtin("Xor", Category::Gate, 2, 1, Decoration::Label("=1".to_owned())),
        BuiltinKind::Xnor => Module::new_builtin("Xnor", Category::Gate, 2, 1, Decoration::NotLabel("=1".to_owned())),
        BuiltinKind::Button => Module::new_builtin("Button", Category::InputOutput, 0, 1, Decoration::Button(false)),
        BuiltinKind::Switch => Module::new_builtin("Switch", Category::InputOutput, 0, 1, Decoration::Switch(false)),
        BuiltinKind::Lamp => Module::new_builtin("Lamp", Category::InputOutput, 1, 0, Decoration::Lamp(false)),
        BuiltinKind::Input => Module::new_builtin(
            "Input",
            Category::Hidden,
            MAX_CONNECTIONS,
            MAX_CONNECTIONS,
            Decoration::Label("|>".to_owned()),
        ),
        BuiltinKind::Output => Module::new_builtin(
            "Output",
            Category::Hidden,
            MAX_CONNECTIONS,
            MAX_CONNECTIONS,
            Decoration::Label(">|".to_owned()),
        ),
        BuiltinKind::Mux => Module::new_builtin("Mux", Category::Combinational, 3, 1, Decoration::Label("Mux".to_owned())),
        BuiltinKind::Demux => Module::new_builtin("Demux", Category::Combinational, 2, 2, Decoration::Label("Demux".to_owned())),
        BuiltinKind::SrNandLatch => Module::new_builtin(
            "SR Nand Latch",
            Category::Latch,
            2,
            2,
            Decoration::NotLabel("SR".to_owned()),
        ),
        BuiltinKind::SrLatch => Module::new_builtin("SR Latch", Category::Latch, 2, 1, Decoration::Label("SR".to_owned())),
        BuiltinKind::JkLatch => Module::new_builtin("JK Latch", Category::Latch, 2, 1, Decoration::Label("JK".to_owned())),
        BuiltinKind::TFlipFlop => Module::new_builtin("T Flip-Flop", Category::FlipFlop, 1, 1, Decoration::Label("T".to_owned())),
    }
}

/// Whether a name equals a literal.
fn name_is(name: &String, literal: &str) -> (b: bool)
    ensures
        b == (name@ == literal@),
{
    let s = literal.to_owned();
    *name == s
}

/// The predefined that a module name names, if any.
pub fn builtin_kind(name: &String) -> (kind: Option<BuiltinKind>)
    ensures
        kind == kind_of_name(name@),
{
    if name_is(name, "Low") {
        Some(BuiltinKind::Low)
    } else if name_is(name, "High") {
        Some(BuiltinKind::High)
    } else if name_is(name, "And") {
        Some(BuiltinKind::And)
    } else if name_is(name, "Nand") {
        Some(BuiltinKind::Nand)
    } else if name_is(name, "Or") {
        Some(BuiltinKind::Or)
    } else if name_is(name, "Nor") {
        Some(BuiltinKind::Nor)
    } else if name_is(name, "Not") {
        Some(BuiltinKind::Not)
    } else if name_is(name, "Xor") {
        Some(BuiltinKind::Xor)
    } else if name_is(name, "Xnor") {
        Some(BuiltinKind::Xnor)
    } else if name_is(name, "Button") {
        Some(BuiltinKind::Button)
    } else if name_is(name, "Switch") {
        Some(BuiltinKind::Switch)
    } else if name_is(name, "Lamp") {
        Some(BuiltinKind::Lamp)
    } else if name_is(name, "Input") {
        Some(BuiltinKind::Input)
    } else if name_is(name, "Output") {
        Some(BuiltinKind::Output)
    } else if name_is(name, "Mux") {
        Some(BuiltinKind::Mux)
    } else if name_is(name, "Demux") {
        Some(BuiltinKind::Demux)
    } else if name_is(name, "SR Nand Latch") {
        Some(BuiltinKind::SrNandLatch)
    } else if name_is(name, "SR Latch") {
        Some(BuiltinKind::SrLatch)
    } else if name_is(name, "JK Latch") {
        Some(BuiltinKind::JkLatch)
    } else if name_is(name, "T Flip-Flop") {
        Some(BuiltinKind::TFlipFlop)
    } else {
        None
    }
}

fn bit_of(b: bool) -> (r: u128)
    ensures
        r == bit(b),
{
    if b {
        1
    } else {
        0
    }
}

fn jk_latch(input: u128, instance: &mut Block) -> (out: u128)
    ensures
        out == jk_next(input, old(instance)@.bytes),
        final(instance)@ == (BlockView { bytes: out, ..old(instance)@ }),
{
    let j = input & 1 > 0;
    let k = input & 2 > 0;
    if j && k {
        let b = instance.bytes();
        instance.set_bytes(bit_of(b == 0));
    } else if j {
        instance.set_bytes(1);
    } else if k {
        instance.set_bytes(0);
    }
    instance.bytes()
}

fn sr_latch(input: u128, instance: &mut Block) -> (out: u128)
    ensures
        out == sr_next(input, old(instance)@.bytes),
        final(instance)@ == (BlockView { bytes: out, ..old(instance)@ }),
{
    if input & 2 > 0 {
        instance.set_bytes(0);
    } else if input & 1 > 0 {
        instance.set_bytes(1);
    }
    instance.bytes()
}

fn sr_nand_latch(input: u128, instance: &mut Block) -> (out: u128)
    ensures
        final(instance)@ == (BlockView { bytes: sr_nand_next(input, old(instance)@.bytes), ..old(instance)@ }),
        out == gate_output(BuiltinKind::SrNandLatch, input, old(instance)@),
{
    if input & 1 == 0 {
        instance.set_bytes(1);
    } else if input & 2 == 0 {
        instance.set_bytes(0);
    }
    let q = instance.bytes();
    q | (bit_of(q == 0) << 1u128)
}

fn t_flip_flop(input: u128, instance: &mut Block) -> (out: u128)
    ensures
        final(instance)@ == (BlockView { bytes: t_next(input, old(instance)@.bytes), ..old(instance)@ }),
        out == t_next(input, old(instance)@.bytes) & 1,
{
    if input & 1 > 0 && instance.bytes() & 2 == 0 {
        let b = instance.bytes();
        instance.set_bytes(b ^ 1);
    }
    let b = instance.bytes();
    instance.set_bytes((b & !2u128) | (input << 1u128));
    instance.bytes() & 1
}

impl BuiltinKind {
    /// Runs the predefined on a block whose input pins carry `inputs`;
    /// returns the output pins' bits.
    pub fn simulate(self, inputs: u128, instance: &mut Block) -> (outputs: u128)
        ensures
            outputs == gate_output(self, inputs, old(instance)@),
            final(instance)@ == gate_instance(self, inputs, old(instance)@),
    {
        match self {
            BuiltinKind::Low => 0,
            BuiltinKind::High => u128::MAX,
            BuiltinKind::And => bit_of(inputs == 3),
            BuiltinKind::Nand => bit_of(inputs != 3),
            BuiltinKind::Or => bit_of(inputs != 0),
            BuiltinKind::Nor => bit_of(inputs == 0),
            BuiltinKind::Not => !inputs,
            BuiltinKind::Xor => bit_of(inputs == 1 || inputs == 2),
            BuiltinKind::Xnor => bit_of(inputs == 0 || inputs == 3),
            BuiltinKind::Button | BuiltinKind::Switch => bit_of(instance.is_active()),
            BuiltinKind::Lamp => {
                instance.set_active(inputs & 1 == 1);
                0
            },
            BuiltinKind::Input => if instance.passthrough() {
                inputs
            } else {
                instance.bytes()
            },
            BuiltinKind::Output => {
                instance.set_bytes(inputs);
                inputs
            },
            BuiltinKind::Mux => bit_of(inputs & 5 == 1 || inputs & 6 == 6),
            BuiltinKind::Demux => (bit_of(inputs == 3) << 1u128) | bit_of(inputs == 1),
            BuiltinKind::SrNandLatch => sr_nand_latch(inputs, instance),
            BuiltinKind::SrLatch => sr_latch(inputs, instance),
            BuiltinKind::JkLatch => jk_latch(inputs, instance),
            BuiltinKind::TFlipFlop => t_flip_flop(inputs, instance),
        }
    }
}

/// A predefined module together with the logic function that simulates it.
#[derive(Debug)]
pub struct Builtin {
    module: Module,
    kind: BuiltinKind,
}

impl Builtin {
    pub closed spec fn spec_module(&self) -> Module {
        self.module
    }

    pub closed spec fn spec_kind(&self) -> BuiltinKind {
        self.kind
    }

    pub fn new(module: Module, kind: BuiltinKind) -> (b: Self)
        ensures
            b.spec_module() == module,
            b.spec_kind() == kind,
    {
        Builtin { module, kind }
    }

    pub fn module(&self) -> (m: &Module)
        ensures
            *m == self.spec_module(),
    {
        &self.module
    }

    pub fn simulate(&self, inputs: u128, instance: &mut Block) -> (outputs: u128)
        ensures
            outputs == gate_output(self.spec_kind(), inputs, old(instance)@),
            final(instance)@ == gate_instance(self.spec_kind(), inputs, old(instance)@),
    {
        self.kind.simulate(inputs, instance)
    }
}

/// Every predefined, in the order the module panel lists them.
pub open spec fn all_kinds() -> Seq<BuiltinKind> {
    seq![
        BuiltinKind::Low,
        BuiltinKind::High,
        BuiltinKind::And,
        BuiltinKind::Nand,
        BuiltinKind::Or,
        BuiltinKind::Nor,
        BuiltinKind::Not,
        BuiltinKind::Xor,
        BuiltinKind::Xnor,
        BuiltinKind::Button,
        BuiltinKind::Switch,
        BuiltinKind::Lamp,
        BuiltinKind::Input,
        BuiltinKind::Output,
        BuiltinKind::Mux,
        BuiltinKind::Demux,
        BuiltinKind::SrNandLatch,
        BuiltinKind::SrLatch,
        BuiltinKind::JkLatch,
        BuiltinKind::TFlipFlop,
    ]
}

fn kinds() -> (v: Vec<BuiltinKind>)
    ensures
        v@ == all_kinds(),
{
    let v = vec![
        BuiltinKind::Low,
        BuiltinKind::High,
        BuiltinKind::And,
        BuiltinKind::Nand,
        BuiltinKind::Or,
        BuiltinKind::Nor,
        BuiltinKind::Not,
        BuiltinKind::Xor,
        BuiltinKind::Xnor,
        BuiltinKind::Button,
        BuiltinKind::Switch,
        BuiltinKind::Lamp,
        BuiltinKind::Input,
        BuiltinKind::Output,
        BuiltinKind::Mux,
        BuiltinKind::Demux,
        BuiltinKind::SrNandLatch,
        BuiltinKind::SrLatch,
        BuiltinKind::JkLatch,
        BuiltinKind::TFlipFlop,
    ];
    assert(v@ =~= all_kinds());
    v
}

/// Every predefined with its module.
pub fn builtins() -> (v: Vec<Builtin>)
    ensures
        v@.len() == all_kinds().len(),
        forall|i: int| 0 <= i < v@.len() ==> (#[trigger] v@[i]).spec_kind() == all_kinds()[i]
            && v@[i].spec_module().spec_name() == builtin_name(all_kinds()[i])
            && v@[i].spec_module().spec_builtin(),
{
    let ks = kinds();
    let mut v: Vec<Builtin> = Vec::new();
    for i in 0..ks.len()
        invariant
            ks@ == all_kinds(),
            v@.len() == i,
            forall|j: int| 0 <= j < i ==> (#[trigger] v@[j]).spec_kind() == all_kinds()[j]
                && v@[j].spec_module().spec_name() == builtin_name(all_kinds()[j])
                && v@[j].spec_module().spec_builtin(),
    {
        v.push(Builtin::new(builtin_module(ks[i]), ks[i]));
    }
    v
}

/// The modules of every predefined, in order.
pub fn builtin_modules() -> (v: Vec<Module>)
    ensures
        v@.len() == all_kinds().len(),
        forall|i: int| 0 <= i < v@.len() ==> (#[trigger] v@[i]).spec_name() == builtin_name(all_kinds()[i])
            && v@[i].spec_builtin() && v@[i].spec_custom() is None
            && v@[i].spec_num_inputs() == builtin_inputs(all_kinds()[i])
            && v@[i].spec_num_outputs() == builtin_outputs(all_kinds()[i])
            && v@[i].spec_category() == builtin_category(all_kinds()[i]),
{
    let ks = kinds();
    let mut v: Vec<Module> = Vec::new();
    for i in 0..ks.len()
        invariant
            ks@ == all_kinds(),
            v@.len() == i,
            forall|j: int| 0 <= j < i ==> (#[trigger] v@[j]).spec_name() == builtin_name(all_kinds()[j])
                && v@[j].spec_builtin() && v@[j].spec_custom() is None
                && v@[j].spec_num_inputs() == builtin_inputs(all_kinds()[j])
                && v@[j].spec_num_outputs() == builtin_outputs(all_kinds()[j])
                && v@[j].spec_category() == builtin_category(all_kinds()[j]),
    {
        v.push(builtin_module(ks[i]));
    }
    v
}

/// The name of the module whose blocks carry a custom module's inputs.
pub fn input_module_name() -> (s: String)
    ensures
        s@ == builtin_name(BuiltinKind::Input),
{
    "Input".to_owned()
}

/// The name of the module whose blocks carry a custom module's outputs.
pub fn output_module_name() -> (s: String)
    ensures
        s@ == builtin_name(BuiltinKind::Output),
{
    "Output".to_owned()
}

/// NAND and NOR give the inverse of AND and OR; on two input pins XNOR
/// gives the inverse of XOR.
pub proof fn lemma_inverted_gates(input: u128, b: BlockView)
    ensures
        gate_output(BuiltinKind::Nand, input, b) == 1 - gate_output(BuiltinKind::And, input, b),
        gate_output(BuiltinKind::Nor, input, b) == 1 - gate_output(BuiltinKind::Or, input, b),
        input < 4 ==> gate_output(BuiltinKind::Xnor, input, b) == 1 - gate_output(
            BuiltinKind::Xor,
            input,
            b,
        ),
{
}

/// Two-input gates: the truth tables of AND, OR and XOR over the bits of
/// the two input pins.
pub proof fn lemma_two_input_gates(input: u128, b: BlockView)
    requires
        input < 4,
    ensures
        gate_output(BuiltinKind::And, input, b) == bit(input & 1 == 1 && input & 2 == 2),
        gate_output(BuiltinKind::Or, input, b) == bit(input & 1 == 1 || input & 2 == 2),
        gate_output(BuiltinKind::Xor, input, b) == bit((input & 1 == 1) != (input & 2 == 2)),
{
    assert(input < 4 ==> (input == 3) == (input & 1 == 1 && input & 2 == 2)) by (bit_vector);
    assert(input < 4 ==> (input != 0) == (input & 1 == 1 || input & 2 == 2)) by (bit_vector);
    assert(input < 4 ==> (input == 1 || input == 2) == ((input & 1 == 1) != (input & 2 == 2))) by (bit_vector);
}

/// The output pin of NOT carries the inverse of its input pin.
pub proof fn lemma_not_inverts(input: u128, b: BlockView)
    ensures
        (gate_output(BuiltinKind::Not, input, b) & 1 == 1) == (input & 1 == 0),
{
    assert(((!input) & 1 == 1) == (input & 1 == 0)) by (bit_vector);
}

/// A multiplexer passes input pin 0 when its select pin (pin 2) is low
/// and input pin 1 when it is high.
pub proof fn lemma_mux_selects(input: u128, b: BlockView)
    requires
        input < 8,
    ensures
        gate_output(BuiltinKind::Mux, input, b) == if input & 4 == 4 {
            (input >> 1u128) & 1
        } else {
            input & 1
        },
{
    assert(input < 8 ==> bit(input & 5 == 1 || input & 6 == 6) == if input & 4 == 4 {
        (input >> 1u128) & 1
    } else {
        input & 1
    }) by (bit_vector);
}

/// A demultiplexer routes its data pin (pin 0) to output pin 0 when its
/// select pin (pin 1) is low and to output pin 1 when it is high.
pub proof fn lemma_demux_routes(input: u128, b: BlockView)
    requires
        input < 4,
    ensures
        gate_output(BuiltinKind::Demux, input, b) == if input & 2 == 2 {
            (input & 1) << 1u128
        } else {
            input & 1
        },
{
    assert(input < 4 ==> (bit(input == 3) << 1u128) | bit(input == 1) == if input & 2 == 2 {
        (input & 1) << 1u128
    } else {
        input & 1
    }) by (bit_vector);
}

/// An SR latch: reset wins, set stores a one, and with neither it keeps
/// its state.
pub proof fn lemma_sr_latch(input: u128, b: BlockView)
    ensures
        input & 2 == 2 ==> gate_output(BuiltinKind::SrLatch, input, b) == 0,
        input & 3 == 1 ==> gate_output(BuiltinKind::SrLatch, input, b) == 1,
        input & 3 == 0 ==> gate_output(BuiltinKind::SrLatch, input, b) == b.bytes
            && gate_instance(BuiltinKind::SrLatch, input, b) == b,
        gate_instance(BuiltinKind::SrLatch, input, b).bytes == gate_output(BuiltinKind::SrLatch, input, b),
{
    assert(input & 2 == 2 ==> input & 2 > 0) by (bit_vector);
    assert(input & 3 == 1 ==> !(input & 2 > 0) && input & 1 > 0) by (bit_vector);
    assert(input & 3 == 0 ==> !(input & 2 > 0) && !(input & 1 > 0)) by (bit_vector);
}

/// An SR latch of NAND gates holds one bit and shows it on output pin 0
/// and its inverse on output pin 1.
pub proof fn lemma_sr_nand_latch_complementary(input: u128, b: BlockView)
    requires
        b.bytes <= 1,
    ensures
        ({
            let q = gate_instance(BuiltinKind::SrNandLatch, input, b).bytes;
            let out = gate_output(BuiltinKind::SrNandLatch, input, b);
            &&& q <= 1
            &&& out & 1 == q
            &&& (out >> 1u128) & 1 == 1 - q
        }),
{
    let q = sr_nand_next(input, b.bytes);
    assert(q <= 1 ==> (q | (bit(q == 0) << 1u128)) & 1 == q && ((q | (bit(q == 0) << 1u128)) >> 1u128) & 1 == 1 - q) by (bit_vector);
}

/// A JK latch: J alone sets, K alone resets, neither holds, and both
/// toggle, so two toggles restore the stored bit.
pub proof fn lemma_jk_latch(stored: u128)
    requires
        stored <= 1,
    ensures
        jk_next(1, stored) == 1,
        jk_next(2, stored) == 0,
        jk_next(0, stored) == stored,
        jk_next(3, stored) == 1 - stored,
        jk_next(3, jk_next(3, stored)) == stored,
{
    assert((1u128 & 1 > 0) && !(1u128 & 2 > 0)) by (bit_vector);
    assert(!(2u128 & 1 > 0) && (2u128 & 2 > 0)) by (bit_vector);
    assert(!(0u128 & 1 > 0) && !(0u128 & 2 > 0)) by (bit_vector);
    assert((3u128 & 1 > 0) && (3u128 & 2 > 0)) by (bit_vector);
}

/// A T flip-flop toggles its output on a rising edge of its input and
/// holds it while the input stays high; a whole clock pulse (high, then
/// low) leaves it toggled and ready for the next edge.
pub proof fn lemma_t_flip_flop(stored: u128)
    requires
        stored <= 1,
    ensures
        t_next(1, stored) & 1 == 1 - stored,
        t_next(1, t_next(1, stored)) & 1 == 1 - stored,
        t_next(0, t_next(1, stored)) == 1 - stored,
        t_next(0, stored) == stored,
{
    assert(stored <= 1 ==> t_next(1, stored) == (stored ^ 1) | 2) by (bit_vector);
    assert(stored <= 1 ==> ((stored ^ 1) | 2) & 1 == 1 - stored) by (bit_vector);
    assert(stored <= 1 ==> t_next(1, (stored ^ 1) | 2) == (stored ^ 1) | 2) by (bit_vector);
    assert(stored <= 1 ==> t_next(0, (stored ^ 1) | 2) == 1 - stored) by (bit_vector);
    assert(stored <= 1 ==> t_next(0, stored) == stored) by (bit_vector);
}

/// A lamp lights exactly when its input pin is high; an output block
/// stores what it receives, which an input block that does not pass its
/// pins through gives back.
pub proof fn lemma_io_blocks(input: u128, b: BlockView)
    ensures
        b.decoration is Lamp ==> gate_instance(BuiltinKind::Lamp, input, b).decoration.active() == (input & 1 == 1),
        gate_output(BuiltinKind::Input, gate_output(BuiltinKind::Output, input, b), BlockView {
            passthrough: false,
            ..gate_instance(BuiltinKind::Output, input, b)
        }) == input,
        gate_instance(BuiltinKind::Output, input, b).bytes == input,
{
}


/// A button, like a switch, puts its state on its output pin: pressed (or
/// on) gives a high output, released (or off) a low one, whatever the
/// inputs.
pub proof fn lemma_button_like_switch(input: u128, b: BlockView)
    ensures
        gate_output(BuiltinKind::Button, input, b) == gate_output(BuiltinKind::Switch, input, b),
        b.decoration == Decoration::Button(true) ==> gate_output(BuiltinKind::Button, input, b) == 1,
        b.decoration == Decoration::Button(false) ==> gate_output(BuiltinKind::Button, input, b) == 0,
        b.decoration == Decoration::Switch(true) ==> gate_output(BuiltinKind::Switch, input, b) == 1,
        b.decoration == Decoration::Switch(false) ==> gate_output(BuiltinKind::Switch, input, b) == 0,
{
}

} // verus!
