use logicrs::action::{create_new_module, delete_module, Action, ActionStack, MAX_ACTION_STACK_SIZE};
use logicrs::block::Block;
use logicrs::clipboard::Clipboard;
use logicrs::connection::{BlockID, Connection, Port, Segment};
use logicrs::editing::{drag_begin, drag_end, drag_update, selection_shift_click};
use logicrs::editor::EditorMode;
use logicrs::modules::Module;
use logicrs::plot::{Plot, PlotDescriptor};
use logicrs::project::Project;
use logicrs::selection::{Selectable, Selection, SelectionField};
use logicrs::vector::Vector2;

fn block_of(project: &Project, name: &str, x: i32, y: i32) -> Block {
    let m = project.module(&name.to_string()).unwrap();
    Block::new(m, Vector2(x, y))
}

fn main_plot_with(project: &mut Project, blocks: Vec<Block>) {
    let mut plot = Plot::new();
    for b in blocks {
        assert!(plot.try_add_block(b));
    }
    project.swap_plot(&PlotDescriptor::Main(), &mut plot);
}

fn position_of(project: &Project, id: BlockID) -> Vector2<i32> {
    project.main_plot().get_block(id).unwrap().position()
}

#[test]
fn move_block_undo_and_redo() {
    let mut project = Project::default();
    let b = block_of(&project, "And", 10, 20);
    let id = b.id();
    main_plot_with(&mut project, vec![b]);
    let mut stack = ActionStack::new();
    stack.add(&mut project, Action::MoveBlock(PlotDescriptor::Main(), id, Vector2(10, 20), Vector2(50, 75)));
    assert_eq!(position_of(&project, id), Vector2(50, 75));
    assert!(stack.can_undo());
    assert!(!stack.can_redo());
    assert!(stack.is_dirty());
    stack.undo(&mut project);
    assert_eq!(position_of(&project, id), Vector2(10, 20));
    assert!(stack.can_redo());
    assert!(!stack.can_undo());
    stack.redo(&mut project);
    assert_eq!(position_of(&project, id), Vector2(50, 75));
    stack.set_dirty(false);
    assert!(!stack.is_dirty());
    stack.reset();
    assert!(!stack.can_undo() && !stack.can_redo());
}

#[test]
fn new_block_undo_removes_it() {
    let mut project = Project::default();
    let mut stack = ActionStack::default();
    let b = block_of(&project, "Or", 0, 0);
    let id = b.id();
    stack.add(&mut project, Action::NewBlock(PlotDescriptor::Main(), b));
    assert!(project.main_plot().get_block(id).is_some());
    stack.undo(&mut project);
    assert!(project.main_plot().get_block(id).is_none());
    assert_eq!(project.main_plot().blocks().len(), 0);
}

#[test]
fn new_connection_undo_restores_pins() {
    let mut project = Project::default();
    let a = block_of(&project, "Switch", 0, 0);
    let l = block_of(&project, "Lamp", 200, 0);
    let (a_id, l_id) = (a.id(), l.id());
    main_plot_with(&mut project, vec![a, l]);
    let c = Connection::new_basic(a_id, 0, l_id, 0);
    let c_id = c.id();
    let mut stack = ActionStack::new();
    stack.add(&mut project, Action::NewConnection(PlotDescriptor::Main(), c));
    assert_eq!(project.main_plot().get_block(a_id).unwrap().outputs()[0], Some(c_id));
    assert_eq!(project.main_plot().get_block(l_id).unwrap().inputs()[0], Some(c_id));
    stack.undo(&mut project);
    assert_eq!(project.main_plot().get_block(a_id).unwrap().outputs()[0], None);
    assert_eq!(project.main_plot().get_block(l_id).unwrap().inputs()[0], None);
    assert!(project.main_plot().get_connection(&c_id).is_none());
}

#[test]
fn wire_to_missing_pin_is_left_out() {
    let mut project = Project::default();
    let a = block_of(&project, "Switch", 0, 0);
    let l = block_of(&project, "Lamp", 200, 0);
    let (a_id, l_id) = (a.id(), l.id());
    main_plot_with(&mut project, vec![a, l]);
    // the lamp has one input pin only
    let c = Connection::new_basic(a_id, 0, l_id, 5);
    assert!(!project.main_plot().can_add_connection(&c));
    let mut stack = ActionStack::new();
    stack.add(&mut project, Action::NewConnection(PlotDescriptor::Main(), c));
    assert_eq!(project.main_plot().connections().len(), 0);
}

#[test]
fn delete_selection_returns_wires_and_undo_restores() {
    let mut project = Project::default();
    let a = block_of(&project, "Switch", 0, 0);
    let l = block_of(&project, "Lamp", 200, 0);
    let (a_id, l_id) = (a.id(), l.id());
    let copy = a.clone();
    main_plot_with(&mut project, vec![a, l]);
    let mut stack = ActionStack::new();
    stack.add(&mut project, Action::NewConnection(PlotDescriptor::Main(), Connection::new_basic(a_id, 0, l_id, 0)));
    stack.add(&mut project, Action::DeleteSelection(PlotDescriptor::Main(), vec![copy], Vec::new()));
    assert!(project.main_plot().get_block(a_id).is_none());
    assert_eq!(project.main_plot().connections().len(), 0);
    assert_eq!(project.main_plot().get_block(l_id).unwrap().inputs()[0], None);
    stack.undo(&mut project);
    assert!(project.main_plot().get_block(a_id).is_some());
    assert_eq!(project.main_plot().connections().len(), 1);
}

#[test]
fn history_keeps_at_most_its_limit() {
    let mut project = Project::default();
    let b = block_of(&project, "And", 0, 0);
    let id = b.id();
    main_plot_with(&mut project, vec![b]);
    let mut stack = ActionStack::new();
    for i in 0..(MAX_ACTION_STACK_SIZE as i32 + 5) {
        stack.add(&mut project, Action::MoveBlock(PlotDescriptor::Main(), id, Vector2(i, 0), Vector2(i + 1, 0)));
    }
    assert_eq!(position_of(&project, id), Vector2(MAX_ACTION_STACK_SIZE as i32 + 5, 0));
    assert!(!stack.can_redo());
}

#[test]
fn create_module_and_undo() {
    let mut project = Project::default();
    let n = project.modules().len();
    let action = create_new_module(&project, "Adder".to_string(), 2, 1).unwrap();
    let mut stack = ActionStack::new();
    stack.add(&mut project, action);
    assert_eq!(project.modules().len(), n + 1);
    let plot = project.plot(&"Adder".to_string()).unwrap();
    assert_eq!(plot.blocks().len(), 2);
    assert!(plot.blocks().values().all(|b| b.unique()));
    stack.undo(&mut project);
    assert_eq!(project.modules().len(), n);
    assert!(project.module(&"Adder".to_string()).is_none());
}

#[test]
fn create_module_errors() {
    let project = Project::default();
    match create_new_module(&project, String::new(), 1, 1) {
        Err(e) => assert_eq!(e, "Invalid name"),
        Ok(_) => panic!("empty name accepted"),
    }
    match create_new_module(&project, "And".to_string(), 1, 1) {
        Err(e) => assert_eq!(e, "Module with name \"And\" already exists"),
        Ok(_) => panic!("taken name accepted"),
    }
}

#[test]
fn delete_module_and_undo() {
    let mut project = Project::default();
    project.add_module(Module::new("Tmp".to_string(), 1, 1));
    let m = Module::new("Tmp".to_string(), 1, 1);
    let mut stack = ActionStack::new();
    stack.add(&mut project, Action::DeleteModule(m));
    assert!(project.module(&"Tmp".to_string()).is_none());
    stack.undo(&mut project);
    assert!(project.module(&"Tmp".to_string()).is_some());
}

#[test]
fn drag_a_block_on_the_grid() {
    let mut project = Project::default();
    let b = block_of(&project, "And", 100, 100);
    let id = b.id();
    let mut plot = Plot::new();
    plot.try_add_block(b);
    drag_begin(&mut plot, Vector2(110, 110), false);
    assert!(matches!(plot.selection(), Selection::Single(Selectable::Block(s), p) if *s == id && *p == Vector2(100, 100)));
    assert!(plot.get_block(id).unwrap().highlighted());
    drag_update(&mut plot, EditorMode::Grid, Vector2(30, 7));
    assert_eq!(plot.get_block(id).unwrap().position(), Vector2(125, 100));
    let action = drag_end(&mut plot, PlotDescriptor::Main(), EditorMode::Grid, Vector2(30, 7));
    match action {
        Some(Action::MoveBlock(PlotDescriptor::Main(), moved, from, to)) => {
            assert_eq!(moved, id);
            assert_eq!(from, Vector2(100, 100));
            assert_eq!(to, Vector2(125, 100));
        },
        _ => panic!("expected a move"),
    }
    let none = drag_end(&mut plot, PlotDescriptor::Main(), EditorMode::Normal, Vector2(0, 0));
    assert!(none.is_none());
    let _ = &mut project;
}

#[test]
fn drag_a_wire_from_an_output_pin() {
    let project = Project::default();
    let sw = block_of(&project, "Switch", 0, 0);
    let lamp = block_of(&project, "Lamp", 300, 0);
    let (sw_id, lamp_id) = (sw.id(), lamp.id());
    let out_pin = Vector2(sw.position().0 + sw.size().0, 50);
    let mut plot = Plot::new();
    plot.try_add_block(sw);
    plot.try_add_block(lamp);
    drag_begin(&mut plot, out_pin, false);
    assert!(matches!(plot.selection(), Selection::Connection { block_id, output: 0, .. } if *block_id == sw_id));
    let target = Vector2(300, 50);
    let offset = Vector2(target.0 - out_pin.0, target.1 - out_pin.1);
    drag_update(&mut plot, EditorMode::Normal, offset);
    let action = drag_end(&mut plot, PlotDescriptor::Main(), EditorMode::Normal, offset);
    match action {
        Some(Action::NewConnection(_, c)) => {
            assert_eq!(c.origin().block_id(), sw_id);
            let dests = c.destinations();
            assert_eq!(dests.len(), 1);
            assert_eq!(dests[0].block_id(), lamp_id);
        },
        _ => panic!("expected a new wire"),
    }
    assert!(matches!(plot.selection(), Selection::Empty));
}

#[test]
fn drag_a_selection_rectangle() {
    let project = Project::default();
    let a = block_of(&project, "And", 0, 0);
    let b = block_of(&project, "Or", 500, 500);
    let a_id = a.id();
    let mut plot = Plot::new();
    plot.try_add_block(a);
    plot.try_add_block(b);
    drag_begin(&mut plot, Vector2(-50, -50), false);
    assert!(matches!(plot.selection(), Selection::Area(..)));
    drag_update(&mut plot, EditorMode::Normal, Vector2(150, 150));
    assert!(drag_end(&mut plot, PlotDescriptor::Main(), EditorMode::Normal, Vector2(150, 150)).is_none());
    assert_eq!(plot.selected(), vec![a_id]);
    assert!(plot.get_block(a_id).unwrap().highlighted());
    plot.unhighlight();
    assert!(!plot.get_block(a_id).unwrap().highlighted());
    assert!(plot.selected().is_empty());
    plot.select_all();
    assert_eq!(plot.selected().len(), 2);
}

#[test]
fn copy_and_paste_blocks_with_their_wire() {
    let mut project = Project::default();
    let a = block_of(&project, "Switch", 100, 100);
    let l = block_of(&project, "Lamp", 300, 100);
    let x = block_of(&project, "Not", 600, 100);
    let (a_id, l_id, x_id) = (a.id(), l.id(), x.id());
    let mut plot = Plot::new();
    plot.try_add_block(a);
    plot.try_add_block(l);
    plot.try_add_block(x);
    plot.add_connection(Connection::new_basic(a_id, 0, l_id, 0));
    plot.set_selection(Selection::Many(vec![Selectable::Block(a_id), Selectable::Block(l_id)]));
    let clip = Clipboard::from_plot(&plot);
    match &clip {
        Clipboard::Blocks(bs, ws) => {
            assert_eq!(bs.len(), 2);
            assert_eq!(ws.len(), 1);
        },
        _ => panic!("expected blocks"),
    }
    // a selection of the unconnected block alone drops the wire
    plot.set_selection(Selection::Many(vec![Selectable::Block(a_id), Selectable::Block(x_id)]));
    match Clipboard::from_plot(&plot) {
        Clipboard::Blocks(bs, ws) => {
            assert_eq!(ws.len(), 0);
            assert!(bs.iter().all(|b| b.outputs().iter().all(|c| c.is_none())));
        },
        _ => panic!("expected blocks"),
    }
    project.swap_plot(&PlotDescriptor::Main(), &mut plot);
    let action = clip.paste_to(&mut project, PlotDescriptor::Main(), Vector2(1000, 1000)).unwrap();
    match &action {
        Action::PasteBlocks(_, bs, ws) => {
            assert_eq!(bs.len(), 2);
            assert_eq!(ws.len(), 1);
            let mut ps: Vec<Vector2<i32>> = bs.iter().map(|b| b.position()).collect();
            ps.sort();
            assert_eq!(ps, vec![Vector2(1000, 1000), Vector2(1200, 1000)]);
            assert!(bs.iter().all(|b| b.highlighted() && b.id() != a_id && b.id() != l_id));
        },
        _ => panic!("expected a paste"),
    }
    let mut stack = ActionStack::new();
    stack.add(&mut project, action);
    assert_eq!(project.main_plot().blocks().len(), 5);
    // the pasted output pin already names the pasted wire, so adding the
    // wire looks for that wire to grow and finds none: it is not stored
    assert_eq!(project.main_plot().connections().len(), 1);
    stack.undo(&mut project);
    assert_eq!(project.main_plot().blocks().len(), 3);
    assert_eq!(project.main_plot().connections().len(), 1);
}

#[test]
fn single_copy_clears_wires_and_unique_blocks_are_not_copied() {
    let project = Project::default();
    let a = block_of(&project, "Switch", 0, 0);
    let l = block_of(&project, "Lamp", 200, 0);
    let (a_id, l_id) = (a.id(), l.id());
    let io = Block::new_sized(project.module(&"Input".to_string()).unwrap(), Vector2(0, 300), true, 0, 1);
    let io_id = io.id();
    let mut plot = Plot::new();
    plot.try_add_block(a);
    plot.try_add_block(l);
    plot.try_add_block(io);
    plot.add_connection(Connection::new_basic(a_id, 0, l_id, 0));
    plot.set_selection(Selection::Single(Selectable::Block(a_id), Vector2(0, 0)));
    match Clipboard::from_plot(&plot) {
        Clipboard::Blocks(bs, ws) => {
            assert_eq!(bs.len(), 1);
            assert!(ws.is_empty());
            assert_eq!(bs[0].outputs()[0], None);
        },
        _ => panic!("expected a block"),
    }
    plot.set_selection(Selection::Single(Selectable::Block(io_id), Vector2(0, 300)));
    assert!(matches!(Clipboard::from_plot(&plot), Clipboard::Empty));
    plot.set_selection(Selection::Empty);
    assert!(matches!(Clipboard::from_plot(&plot), Clipboard::Empty));
}

#[test]
fn shift_click_toggles_a_block_in_the_selection() {
    let project = Project::default();
    let a = block_of(&project, "And", 0, 0);
    let b = block_of(&project, "Or", 300, 0);
    let (a_id, b_id) = (a.id(), b.id());
    let mut plot = Plot::new();
    assert!(plot.try_add_block(a));
    assert!(plot.try_add_block(b));

    // b joins the selection and is highlighted
    assert!(selection_shift_click(&mut plot, vec![Selectable::Block(a_id)], Vector2(310, 10)));
    match plot.selection() {
        Selection::Many(ids) => assert_eq!(ids, &vec![Selectable::Block(a_id), Selectable::Block(b_id)]),
        _ => panic!("expected a list of blocks"),
    }
    assert!(plot.get_block(b_id).unwrap().highlighted());

    // a leaves it and loses its highlight
    assert!(selection_shift_click(&mut plot, vec![Selectable::Block(a_id), Selectable::Block(b_id)], Vector2(5, 5)));
    match plot.selection() {
        Selection::Many(ids) => assert_eq!(ids, &vec![Selectable::Block(b_id)]),
        _ => panic!("expected a list of blocks"),
    }
    assert!(!plot.get_block(a_id).unwrap().highlighted());

    // a click on empty space changes nothing
    assert!(!selection_shift_click(&mut plot, vec![Selectable::Block(b_id)], Vector2(1000, 1000)));
    match plot.selection() {
        Selection::Many(ids) => assert_eq!(ids, &vec![Selectable::Block(b_id)]),
        _ => panic!("expected a list of blocks"),
    }
}

#[test]
fn pasted_blocks_and_wires_are_renamed_together() {
    let mut project = Project::default();
    let a = block_of(&project, "Switch", 100, 100);
    let l = block_of(&project, "Lamp", 300, 100);
    let (a_id, l_id) = (a.id(), l.id());
    let mut plot = Plot::new();
    plot.try_add_block(a);
    plot.try_add_block(l);
    let wire = Connection::new_basic(a_id, 0, l_id, 0);
    let wire_id = wire.id();
    plot.add_connection(wire);
    plot.set_selection(Selection::Many(vec![Selectable::Block(a_id), Selectable::Block(l_id)]));
    let clip = Clipboard::from_plot(&plot);
    project.swap_plot(&PlotDescriptor::Main(), &mut plot);
    let action = clip.paste_to(&mut project, PlotDescriptor::Main(), Vector2(0, 0)).unwrap();
    match &action {
        Action::PasteBlocks(_, bs, ws) => {
            let sw = bs.iter().find(|b| b.name() == "Switch").unwrap();
            let lamp = bs.iter().find(|b| b.name() == "Lamp").unwrap();
            let w = &ws[0];
            assert_ne!(w.id(), wire_id);
            assert_eq!(w.origin().block_id(), sw.id());
            assert_eq!(w.destinations()[0].block_id(), lamp.id());
            assert_eq!(sw.outputs()[0], Some(w.id()));
            assert_eq!(lamp.inputs()[0], Some(w.id()));
            assert_eq!(sw.position(), Vector2(0, 0));
            assert_eq!(lamp.position(), Vector2(200, 0));
            // the pasted blocks become the selection
            match project.main_plot().selection() {
                Selection::Many(ids) => {
                    assert_eq!(ids.len(), 2);
                    assert!(ids.contains(&Selectable::Block(sw.id())) && ids.contains(&Selectable::Block(lamp.id())));
                },
                _ => panic!("expected the pasted blocks to be selected"),
            }
        },
        _ => panic!("expected a paste"),
    }
}

#[test]
fn deleting_a_block_frees_the_pins_of_its_wires() {
    let project = Project::default();
    let a = block_of(&project, "Switch", 0, 0);
    let l = block_of(&project, "Lamp", 200, 0);
    let (a_id, l_id) = (a.id(), l.id());
    let mut plot = Plot::new();
    plot.try_add_block(a);
    plot.try_add_block(l);
    let wire = Connection::new_basic(a_id, 0, l_id, 0);
    let wire_id = wire.id();
    plot.add_connection(wire);
    assert_eq!(plot.get_block(l_id).unwrap().inputs()[0], Some(wire_id));
    let deleted = plot.delete_block(a_id);
    assert_eq!(deleted.len(), 1);
    assert_eq!(deleted[0].id(), wire_id);
    assert!(!deleted[0].is_active());
    assert!(plot.get_block(a_id).is_none());
    assert_eq!(plot.get_block(l_id).unwrap().inputs()[0], None);
    assert_eq!(plot.connections().len(), 0);
}

#[test]
fn undoing_a_paste_of_unwired_blocks_restores_the_plot() {
    let mut project = Project::default();
    let a = block_of(&project, "And", 0, 0);
    let a_id = a.id();
    main_plot_with(&mut project, vec![a]);
    let extra = vec![block_of(&project, "Or", 300, 0), block_of(&project, "Not", 500, 0)];
    let mut stack = ActionStack::new();
    stack.add(&mut project, Action::PasteBlocks(PlotDescriptor::Main(), extra, Vec::new()));
    assert_eq!(project.main_plot().blocks().len(), 3);
    stack.undo(&mut project);
    assert_eq!(project.main_plot().blocks().len(), 1);
    assert!(project.main_plot().get_block(a_id).is_some());
    assert_eq!(project.main_plot().connections().len(), 0);
}

#[test]
fn deleting_a_module_removes_its_instances_everywhere() {
    let mut project = Project::default();
    project.add_module(Module::new("Adder".to_string(), 2, 1));
    let adder = block_of(&project, "Adder", 0, 0);
    let and = block_of(&project, "And", 300, 0);
    let (adder_id, and_id) = (adder.id(), and.id());
    main_plot_with(&mut project, vec![adder, and]);
    let wire = Connection::new_basic(adder_id, 0, and_id, 0);
    let mut stack = ActionStack::new();
    stack.add(&mut project, Action::NewConnection(PlotDescriptor::Main(), wire));
    assert_eq!(project.main_plot().get_block(and_id).unwrap().inputs()[0].is_some(), true);

    let action = delete_module(&mut project, &"Adder".to_string()).unwrap();
    assert!(project.main_plot().get_block(adder_id).is_none());
    assert!(project.main_plot().get_block(and_id).is_some());
    assert_eq!(project.main_plot().get_block(and_id).unwrap().inputs()[0], None);
    assert_eq!(project.main_plot().connections().len(), 0);
    assert!(matches!(&action, Action::DeleteModule(m) if m.name() == "Adder"));
    stack.add(&mut project, action);
    assert!(project.module(&"Adder".to_string()).is_none());
    stack.undo(&mut project);
    assert!(project.module(&"Adder".to_string()).is_some());

    assert!(delete_module(&mut project, &"Nothing".to_string()).is_none());
}

#[test]
fn overlapping_blocks_pick_the_smallest_id() {
    let project = Project::default();
    let a = block_of(&project, "And", 0, 0);
    let b = block_of(&project, "Or", 10, 10);
    let smaller = if a.id().0 < b.id().0 { a.id() } else { b.id() };
    let mut plot = Plot::new();
    assert!(plot.try_add_block(a));
    assert!(plot.try_add_block(b));
    assert_eq!(plot.get_block_at(Vector2(20, 20)), Some(smaller));
    assert_eq!(plot.get_block_at(Vector2(-500, -500)), None);
}

#[test]
fn deleted_wires_come_in_pin_order() {
    let mut project = Project::default();
    let s1 = block_of(&project, "Switch", 0, 0);
    let s2 = block_of(&project, "Switch", 0, 200);
    let and = block_of(&project, "And", 300, 0);
    let (s1_id, s2_id, and_id) = (s1.id(), s2.id(), and.id());
    let copy = and.clone();
    main_plot_with(&mut project, vec![s1, s2, and]);
    let c2 = Connection::new_basic(s2_id, 0, and_id, 1);
    let c1 = Connection::new_basic(s1_id, 0, and_id, 0);
    let (c1_id, c2_id) = (c1.id(), c2.id());
    let mut stack = ActionStack::new();
    stack.add(&mut project, Action::NewConnection(PlotDescriptor::Main(), c2));
    stack.add(&mut project, Action::NewConnection(PlotDescriptor::Main(), c1));
    let mut action = Action::DeleteSelection(PlotDescriptor::Main(), vec![copy], Vec::new());
    action.exec(&mut project);
    match action {
        Action::DeleteSelection(_, _, incoming) => {
            let ids: Vec<_> = incoming.iter().map(|c| c.id()).collect();
            assert_eq!(ids, vec![c1_id, c2_id]);
        },
        _ => panic!("the action changed its kind"),
    }
    assert_eq!(project.main_plot().connections().len(), 0);
}

/// A switch with a wire ending in a loose waypoint at (500, 500).
fn plot_with_waypoint() -> (Plot, Connection) {
    let project = Project::default();
    let sw = block_of(&project, "Switch", 0, 0);
    let sw_id = sw.id();
    let mut plot = Plot::new();
    assert!(plot.try_add_block(sw));
    let c = Connection::new(Port::Output(sw_id, 0), vec![Segment::Waypoint(vec![], Vector2(500, 500), false)]);
    assert!(plot.can_add_connection(&c));
    plot.add_connection(c.clone());
    (plot, c)
}

#[test]
fn shift_click_toggles_a_waypoint() {
    let (mut plot, c) = plot_with_waypoint();
    assert!(selection_shift_click(&mut plot, Vec::new(), Vector2(505, 495)));
    let selected = match plot.selection() {
        Selection::Many(items) => items.clone(),
        _ => panic!("expected a selection of items"),
    };
    assert_eq!(selected.len(), 1);
    match &selected[0] {
        Selectable::Waypoint(w) => {
            assert_eq!(*w.connection_id(), c.id());
            assert_eq!(plot.waypoint_position(w), Some(Vector2(500, 500)));
        },
        _ => panic!("expected a waypoint"),
    }
    assert!(selection_shift_click(&mut plot, selected, Vector2(500, 500)));
    assert!(matches!(plot.selection(), Selection::Many(items) if items.is_empty()));
}

#[test]
fn selection_rectangle_takes_in_waypoints() {
    let (mut plot, c) = plot_with_waypoint();
    plot.set_selection(Selection::Area(Vector2(480, 480), Vector2(520, 520)));
    plot.highlight_area();
    match plot.selection() {
        Selection::Many(items) => {
            assert_eq!(items.len(), 1);
            assert!(matches!(&items[0], Selectable::Waypoint(w) if *w.connection_id() == c.id()));
        },
        _ => panic!("expected a selection of items"),
    }
}

#[test]
fn shift_drag_moves_a_waypoint() {
    let (mut plot, _c) = plot_with_waypoint();
    drag_begin(&mut plot, Vector2(500, 500), true);
    let w = match plot.selection() {
        Selection::Single(Selectable::Waypoint(w), start) => {
            assert_eq!(*start, Vector2(500, 500));
            w.clone()
        },
        _ => panic!("expected the waypoint to be selected"),
    };
    drag_update(&mut plot, EditorMode::Normal, Vector2(30, 40));
    assert_eq!(plot.waypoint_position(&w), Some(Vector2(530, 540)));
    let action = drag_end(&mut plot, PlotDescriptor::Main(), EditorMode::Normal, Vector2(30, 40)).unwrap();
    assert!(matches!(&action, Action::MoveWaypoint(_, id, from, to)
        if id == &w && *from == Vector2(500, 500) && *to == Vector2(530, 540)));
    let mut project = Project::default();
    let mut main = plot.clone();
    project.swap_plot(&PlotDescriptor::Main(), &mut main);
    let mut stack = ActionStack::new();
    stack.add(&mut project, action);
    assert_eq!(project.main_plot().waypoint_position(&w), Some(Vector2(530, 540)));
    stack.undo(&mut project);
    assert_eq!(project.main_plot().waypoint_position(&w), Some(Vector2(500, 500)));
    // without shift the press on the waypoint starts a selection rectangle
    drag_begin(&mut plot, Vector2(530, 540), false);
    assert!(matches!(plot.selection(), Selection::Area(..)));
}
