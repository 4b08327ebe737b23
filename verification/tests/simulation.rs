use logicrs::block::Block;
use logicrs::connection::{BlockID, Connection};
use logicrs::modules::Module;
use logicrs::plot::{Plot, PlotDescriptor};
use logicrs::project::Project;
use logicrs::simulator::UICallback;
use logicrs::vector::Vector2;

fn block_of(project: &Project, name: &str, x: i32) -> Block {
    let m = project.module(&name.to_string()).unwrap();
    Block::new(m, Vector2(x, 0))
}

fn wire(plot: &mut Plot, from: BlockID, out: u8, to: BlockID, inp: u8) {
    let c = Connection::new_basic(from, out, to, inp);
    assert!(plot.can_add_connection(&c));
    plot.add_connection(c);
}

/// switch -> not -> lamp on the main plot.
fn inverter_project() -> (Project, BlockID, BlockID) {
    let mut project = Project::default();
    let sw = block_of(&project, "Switch", 0);
    let not = block_of(&project, "Not", 100);
    let lamp = block_of(&project, "Lamp", 200);
    let (sw_id, not_id, lamp_id) = (sw.id(), not.id(), lamp.id());
    let mut plot = Plot::new();
    assert!(plot.try_add_block(sw));
    assert!(plot.try_add_block(not));
    assert!(plot.try_add_block(lamp));
    wire(&mut plot, sw_id, 0, not_id, 0);
    wire(&mut plot, not_id, 0, lamp_id, 0);
    assert!(project.swap_plot(&PlotDescriptor::Main(), &mut plot));
    (project, sw_id, lamp_id)
}

fn lamp_on(project: &Project, lamp: BlockID) -> bool {
    project.main_plot().get_block(lamp).unwrap().is_active()
}

#[test]
fn inverter_lights_lamp_when_switch_is_off() {
    let (mut project, _sw, lamp) = inverter_project();
    assert!(!lamp_on(&project, lamp));
    let callbacks = project.simulate();
    assert!(lamp_on(&project, lamp));
    assert_eq!(callbacks.len(), 1);
    assert!(matches!(callbacks[0], UICallback::Redraw));
    // nothing waits any more: no redraw
    let callbacks = project.simulate();
    assert!(callbacks.is_empty());
}

#[test]
fn switching_on_turns_lamp_off() {
    let (mut project, sw, lamp) = inverter_project();
    project.simulate();
    let mut plot = Plot::new();
    project.swap_plot(&PlotDescriptor::Main(), &mut plot);
    assert!(plot.set_block_active(sw, true));
    plot.add_block_to_update(sw);
    project.swap_plot(&PlotDescriptor::Main(), &mut plot);
    project.simulate();
    assert!(!lamp_on(&project, lamp));
}

#[test]
fn custom_module_inverts() {
    let mut project = Project::default();
    // the module's own input and output blocks
    let mut module = Module::new("Inv".to_string(), 1, 1);
    let input = Block::new_sized(project.module(&"Input".to_string()).unwrap(), Vector2(0, 0), true, 0, 1);
    let output = Block::new_sized(project.module(&"Output".to_string()).unwrap(), Vector2(300, 0), true, 1, 0);
    let (in_id, out_id) = (input.id(), output.id());
    assert!(module.add_block_to_plot(input));
    assert!(module.add_block_to_plot(output));
    module.set_io_blocks(in_id, out_id);
    assert!(module.has_io_blocks());
    assert!(project.can_add_module(&module));
    project.add_module(module);
    // four blocks: the two above and the two that add_module places
    assert_eq!(project.plot(&"Inv".to_string()).unwrap().blocks().len(), 4);

    let desc = PlotDescriptor::Module("Inv".to_string());
    let mut inner = Plot::new();
    assert!(project.swap_plot(&desc, &mut inner));
    let not = block_of(&project, "Not", 150);
    let not_id = not.id();
    assert!(inner.try_add_block(not));
    wire(&mut inner, in_id, 0, not_id, 0);
    wire(&mut inner, not_id, 0, out_id, 0);
    assert!(project.swap_plot(&desc, &mut inner));

    let sw = block_of(&project, "Switch", 0);
    let inv = block_of(&project, "Inv", 100);
    let lamp = block_of(&project, "Lamp", 200);
    let (sw_id, inv_id, lamp_id) = (sw.id(), inv.id(), lamp.id());
    let mut main = Plot::new();
    main.try_add_block(sw);
    main.try_add_block(inv);
    main.try_add_block(lamp);
    wire(&mut main, sw_id, 0, inv_id, 0);
    wire(&mut main, inv_id, 0, lamp_id, 0);
    project.swap_plot(&PlotDescriptor::Main(), &mut main);

    let callbacks = project.simulate();
    assert!(callbacks.iter().all(|c| !matches!(c, UICallback::Error(_))));
    assert!(lamp_on(&project, lamp_id));
}

#[test]
fn module_inside_itself_is_an_error() {
    let mut project = Project::default();
    project.add_module(Module::new("Rec".to_string(), 1, 1));
    let desc = PlotDescriptor::Module("Rec".to_string());
    let mut inner = Plot::new();
    assert!(project.swap_plot(&desc, &mut inner));
    let nested = block_of(&project, "Rec", 100);
    assert!(inner.try_add_block(nested));
    project.swap_plot(&desc, &mut inner);

    let outer = block_of(&project, "Rec", 0);
    let mut main = Plot::new();
    main.try_add_block(outer);
    project.swap_plot(&PlotDescriptor::Main(), &mut main);

    let callbacks = project.simulate();
    let expected = "Recursion detected; Block of module \"Rec\" is already on the call stack.";
    assert!(callbacks.iter().any(|c| matches!(c, UICallback::Error(e) if e == expected)));
}

#[test]
fn block_of_missing_module_is_skipped() {
    let mut project = Project::default();
    let ghost = Block::new(&Module::new("Gone".to_string(), 1, 1), Vector2(0, 0));
    let mut main = Plot::new();
    main.try_add_block(ghost);
    project.swap_plot(&PlotDescriptor::Main(), &mut main);
    let callbacks = project.simulate();
    assert_eq!(callbacks.len(), 1);
    assert!(matches!(callbacks[0], UICallback::Redraw));
}

#[test]
fn snapshot_push_and_pop_restore_signals() {
    let (mut project, _sw, lamp) = inverter_project();
    project.simulate();
    let mut plot = Plot::new();
    project.swap_plot(&PlotDescriptor::Main(), &mut plot);
    let before: Vec<bool> = {
        let mut v: Vec<(u64, bool)> = plot.connections().iter().map(|(k, c)| (*k, c.is_active())).collect();
        v.sort();
        v.into_iter().map(|(_, a)| a).collect()
    };
    plot.push_state();
    assert_eq!(plot.states().len(), 2);
    // flip every wire, then restore
    let ids: Vec<u64> = plot.connections().keys().copied().collect();
    for id in ids {
        let mut c = plot.remove_connection(logicrs::id::Id(id)).unwrap();
        c.set_active(true);
        plot.add_connection_unchecked(c);
    }
    plot.pop_state();
    assert_eq!(plot.states().len(), 1);
    let after: Vec<bool> = {
        let mut v: Vec<(u64, bool)> = plot.connections().iter().map(|(k, c)| (*k, c.is_active())).collect();
        v.sort();
        v.into_iter().map(|(_, a)| a).collect()
    };
    assert_eq!(before, after);
    assert!(plot.get_block(lamp).is_some());
}

#[test]
fn nothing_pending_means_nothing_reported() {
    let mut project = Project::default();
    assert!(project.simulate().is_empty());
    let (mut project, _, _) = inverter_project();
    project.simulate();
    project.simulate();
    // once every signal has settled, another step reports nothing
    assert!(project.simulate().is_empty());
}

#[test]
fn empty_custom_module_gives_no_output() {
    let mut m = Module::new("Half".to_string(), 1, 1);
    let mut b = Block::new(&m, Vector2(0, 0));
    let mut p = Project::default();
    let mut cs: Vec<String> = Vec::new();
    let r = m.simulate(0b1, &mut b, &mut p, &mut cs);
    assert_eq!(r, Ok(0));
    assert!(cs.is_empty());
}

#[test]
fn module_on_the_call_stack_is_refused() {
    let mut m = Module::new("Half".to_string(), 1, 1);
    let mut b = Block::new(&m, Vector2(0, 0));
    let mut p = Project::default();
    let mut cs: Vec<String> = vec!["Half".to_string()];
    let r = m.simulate(0, &mut b, &mut p, &mut cs);
    assert_eq!(
        r,
        Err("Recursion detected; Block of module \"Half\" is already on the call stack.".to_string())
    );
    assert_eq!(cs, vec!["Half".to_string()]);
}
