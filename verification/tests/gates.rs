use logicrs::block::Block;
use logicrs::builtin::{builtin_kind, builtin_module, builtin_modules, builtins, BuiltinKind, MAX_CONNECTIONS};
use logicrs::decoration::Decoration;
use logicrs::modules::Category;
use logicrs::vector::Vector2;

fn instance(kind: BuiltinKind) -> Block {
    let module = builtin_module(kind);
    Block::new(&module, Vector2(0, 0))
}

fn run(kind: BuiltinKind, input: u128) -> u128 {
    let mut b = instance(kind);
    kind.simulate(input, &mut b)
}

#[test]
fn and_gate_truth_table() {
    assert_eq!(run(BuiltinKind::And, 0b00), 0);
    assert_eq!(run(BuiltinKind::And, 0b01), 0);
    assert_eq!(run(BuiltinKind::And, 0b10), 0);
    assert_eq!(run(BuiltinKind::And, 0b11), 1);
}

#[test]
fn nand_gate_truth_table() {
    assert_eq!(run(BuiltinKind::Nand, 0b00), 1);
    assert_eq!(run(BuiltinKind::Nand, 0b01), 1);
    assert_eq!(run(BuiltinKind::Nand, 0b10), 1);
    assert_eq!(run(BuiltinKind::Nand, 0b11), 0);
}

#[test]
fn or_and_nor_gates() {
    assert_eq!(run(BuiltinKind::Or, 0b00), 0);
    assert_eq!(run(BuiltinKind::Or, 0b01), 1);
    assert_eq!(run(BuiltinKind::Or, 0b10), 1);
    assert_eq!(run(BuiltinKind::Or, 0b11), 1);
    assert_eq!(run(BuiltinKind::Nor, 0b00), 1);
    assert_eq!(run(BuiltinKind::Nor, 0b01), 0);
    assert_eq!(run(BuiltinKind::Nor, 0b11), 0);
}

#[test]
fn xor_and_xnor_gates() {
    assert_eq!(run(BuiltinKind::Xor, 0b00), 0);
    assert_eq!(run(BuiltinKind::Xor, 0b01), 1);
    assert_eq!(run(BuiltinKind::Xor, 0b10), 1);
    assert_eq!(run(BuiltinKind::Xor, 0b11), 0);
    assert_eq!(run(BuiltinKind::Xnor, 0b00), 1);
    assert_eq!(run(BuiltinKind::Xnor, 0b01), 0);
    assert_eq!(run(BuiltinKind::Xnor, 0b10), 0);
    assert_eq!(run(BuiltinKind::Xnor, 0b11), 1);
}

#[test]
fn inverted_gates_invert_on_two_pins() {
    for input in 0u128..4 {
        assert_eq!(run(BuiltinKind::Nand, input), 1 - run(BuiltinKind::And, input));
        assert_eq!(run(BuiltinKind::Nor, input), 1 - run(BuiltinKind::Or, input));
        assert_eq!(run(BuiltinKind::Xnor, input), 1 - run(BuiltinKind::Xor, input));
    }
}

#[test]
fn not_gate_inverts_bit_zero() {
    assert_eq!(run(BuiltinKind::Not, 0) & 1, 1);
    assert_eq!(run(BuiltinKind::Not, 1) & 1, 0);
    assert_eq!(run(BuiltinKind::Not, 0), u128::MAX);
}

#[test]
fn constants() {
    assert_eq!(run(BuiltinKind::Low, 0b11), 0);
    assert_eq!(run(BuiltinKind::High, 0), u128::MAX);
}

#[test]
fn mux_selects_by_pin_two() {
    for input in 0u128..8 {
        let expected = if input & 4 == 4 { (input >> 1) & 1 } else { input & 1 };
        assert_eq!(run(BuiltinKind::Mux, input), expected, "input {input:#b}");
    }
}

#[test]
fn demux_routes_by_pin_one() {
    assert_eq!(run(BuiltinKind::Demux, 0b00), 0b00);
    assert_eq!(run(BuiltinKind::Demux, 0b01), 0b01);
    assert_eq!(run(BuiltinKind::Demux, 0b10), 0b00);
    assert_eq!(run(BuiltinKind::Demux, 0b11), 0b10);
}

#[test]
fn sr_latch_sets_resets_and_holds() {
    let mut b = instance(BuiltinKind::SrLatch);
    assert_eq!(BuiltinKind::SrLatch.simulate(0b01, &mut b), 1);
    assert_eq!(BuiltinKind::SrLatch.simulate(0b00, &mut b), 1);
    assert_eq!(BuiltinKind::SrLatch.simulate(0b11, &mut b), 0);
    assert_eq!(BuiltinKind::SrLatch.simulate(0b00, &mut b), 0);
    assert_eq!(b.bytes(), 0);
}

#[test]
fn sr_nand_latch_gives_complementary_outputs() {
    let mut b = instance(BuiltinKind::SrNandLatch);
    // active-low set
    assert_eq!(BuiltinKind::SrNandLatch.simulate(0b10, &mut b), 0b01);
    assert_eq!(BuiltinKind::SrNandLatch.simulate(0b11, &mut b), 0b01);
    // active-low reset
    assert_eq!(BuiltinKind::SrNandLatch.simulate(0b01, &mut b), 0b10);
    assert_eq!(BuiltinKind::SrNandLatch.simulate(0b11, &mut b), 0b10);
}

#[test]
fn jk_latch_toggles_on_both() {
    let mut b = instance(BuiltinKind::JkLatch);
    assert_eq!(BuiltinKind::JkLatch.simulate(0b01, &mut b), 1);
    assert_eq!(BuiltinKind::JkLatch.simulate(0b00, &mut b), 1);
    assert_eq!(BuiltinKind::JkLatch.simulate(0b11, &mut b), 0);
    assert_eq!(BuiltinKind::JkLatch.simulate(0b11, &mut b), 1);
    assert_eq!(BuiltinKind::JkLatch.simulate(0b10, &mut b), 0);
}

#[test]
fn t_flip_flop_toggles_on_rising_edges() {
    let mut b = instance(BuiltinKind::TFlipFlop);
    assert_eq!(BuiltinKind::TFlipFlop.simulate(1, &mut b), 1);
    // input stays high: holds
    assert_eq!(BuiltinKind::TFlipFlop.simulate(1, &mut b), 1);
    assert_eq!(BuiltinKind::TFlipFlop.simulate(0, &mut b), 1);
    assert_eq!(b.bytes(), 1);
    assert_eq!(BuiltinKind::TFlipFlop.simulate(1, &mut b), 0);
    assert_eq!(BuiltinKind::TFlipFlop.simulate(0, &mut b), 0);
    assert_eq!(b.bytes(), 0);
}

#[test]
fn lamp_follows_its_input() {
    let mut b = instance(BuiltinKind::Lamp);
    assert!(!b.is_active());
    assert_eq!(BuiltinKind::Lamp.simulate(1, &mut b), 0);
    assert!(b.is_active());
    BuiltinKind::Lamp.simulate(0, &mut b);
    assert!(!b.is_active());
}

#[test]
fn switch_outputs_its_state() {
    let mut b = instance(BuiltinKind::Switch);
    assert_eq!(BuiltinKind::Switch.simulate(0, &mut b), 0);
    b.set_active(true);
    assert_eq!(BuiltinKind::Switch.simulate(0, &mut b), 1);
}

#[test]
fn output_stores_and_input_replays() {
    let mut out = instance(BuiltinKind::Output);
    assert_eq!(BuiltinKind::Output.simulate(0b1011, &mut out), 0b1011);
    assert_eq!(out.bytes(), 0b1011);
    let mut inp = instance(BuiltinKind::Input);
    assert!(inp.passthrough());
    assert_eq!(BuiltinKind::Input.simulate(0b110, &mut inp), 0b110);
    inp.set_passthrough(false);
    inp.set_bytes(out.bytes());
    assert_eq!(BuiltinKind::Input.simulate(0, &mut inp), 0b1011);
}

#[test]
fn builtin_names_and_shapes() {
    assert_eq!(builtin_kind(&"And".to_string()), Some(BuiltinKind::And));
    assert_eq!(builtin_kind(&"T Flip-Flop".to_string()), Some(BuiltinKind::TFlipFlop));
    assert_eq!(builtin_kind(&"and".to_string()), None);
    let m = builtin_module(BuiltinKind::Input);
    assert_eq!(m.get_num_inputs(), MAX_CONNECTIONS);
    assert_eq!(m.category(), Category::Hidden);
    assert!(m.hidden());
    let lamp = builtin_module(BuiltinKind::Lamp);
    assert_eq!(lamp.get_num_outputs(), 0);
    assert!(matches!(lamp.decoration(), Decoration::Lamp(false)));
    assert_eq!(builtin_modules().len(), 20);
    let all = builtins();
    assert_eq!(all.len(), 20);
    assert_eq!(all[2].module().name(), "And");
    let mut b = instance(BuiltinKind::Or);
    assert_eq!(all[4].simulate(0b10, &mut b), 1);
}
