use logicrs::block::Block;
use logicrs::collect::Collect;
use logicrs::connection::{Connection, Port, Segment};
use logicrs::decoration::Decoration;
use logicrs::id::Id;
use logicrs::modules::Module;
use logicrs::module_file::ModuleFile;
use logicrs::plot::Plot;
use logicrs::project::Project;
use logicrs::vector::Vector2;
use std::collections::HashMap;

fn block_of(project: &Project, name: &str, x: i32, y: i32) -> Block {
    Block::new(project.module(&name.to_string()).unwrap(), Vector2(x, y))
}

#[test]
fn second_wire_from_an_output_grows_the_first() {
    let project = Project::default();
    let s = block_of(&project, "Switch", 0, 0);
    let a = block_of(&project, "Lamp", 200, 0);
    let b = block_of(&project, "Lamp", 200, 200);
    let (s_id, a_id, b_id) = (s.id(), a.id(), b.id());
    let mut plot = Plot::new();
    plot.try_add_block(s);
    plot.try_add_block(a);
    plot.try_add_block(b);
    let first = Connection::new_basic(s_id, 0, a_id, 0);
    let first_id = first.id();
    plot.add_connection(first);
    let second = Connection::new_basic(s_id, 0, b_id, 0);
    assert!(plot.can_add_connection(&second));
    plot.add_connection(second);
    assert_eq!(plot.connections().len(), 1);
    let wire = plot.get_connection(&first_id).unwrap();
    let dests: Vec<Id> = wire.destinations().iter().map(|p| p.block_id()).collect();
    assert_eq!(dests, vec![a_id, b_id]);
    assert_eq!(plot.get_block(b_id).unwrap().inputs()[0], Some(first_id));
}

#[test]
fn removing_a_wire_detaches_its_pins() {
    let project = Project::default();
    let s = block_of(&project, "Switch", 0, 0);
    let a = block_of(&project, "Lamp", 200, 0);
    let (s_id, a_id) = (s.id(), a.id());
    let mut plot = Plot::new();
    plot.try_add_block(s);
    plot.try_add_block(a);
    let c = Connection::new_basic(s_id, 0, a_id, 0);
    let c_id = c.id();
    plot.add_connection(c);
    let removed = plot.remove_connection(c_id).unwrap();
    assert!(!removed.is_active());
    assert_eq!(plot.get_block(s_id).unwrap().outputs()[0], None);
    assert_eq!(plot.get_block(a_id).unwrap().inputs()[0], None);
    assert!(plot.to_update().contains(&s_id.0) && plot.to_update().contains(&a_id.0));
    assert!(plot.remove_connection(c_id).is_none());
}

#[test]
fn deleting_a_unique_block_keeps_it() {
    let project = Project::default();
    let io = Block::new_sized(project.module(&"Output".to_string()).unwrap(), Vector2(0, 0), true, 1, 0);
    let s = block_of(&project, "Switch", -200, 0);
    let (io_id, s_id) = (io.id(), s.id());
    let mut plot = Plot::new();
    plot.try_add_block(io);
    plot.try_add_block(s);
    plot.add_connection(Connection::new_basic(s_id, 0, io_id, 0));
    let gone = plot.delete_block(io_id);
    assert_eq!(gone.len(), 1);
    assert!(plot.get_block(io_id).is_some());
    assert_eq!(plot.connections().len(), 0);
    let gone = plot.delete_block(s_id);
    assert!(gone.is_empty());
    assert!(plot.get_block(s_id).is_none());
}

#[test]
fn finding_blocks_and_waypoints() {
    let project = Project::default();
    let s = block_of(&project, "Switch", 0, 0);
    let s_id = s.id();
    let mut plot = Plot::new();
    plot.try_add_block(s);
    assert_eq!(plot.get_block_at(Vector2(10, 10)), Some(s_id));
    assert_eq!(plot.get_block_at(Vector2(-10, -10)), None);
    let c = Connection::new(Port::Output(s_id, 0), vec![Segment::Waypoint(Vec::new(), Vector2(400, 400), false)]);
    let c_id = c.id();
    plot.add_connection_unchecked(c);
    let hit = plot.get_waypoint_at(Vector2(405, 395)).unwrap();
    assert_eq!(*hit.connection_id(), c_id);
    assert_eq!(hit.location().len(), 1);
    assert!(plot.get_waypoint_at(Vector2(450, 450)).is_none());
    let w = plot.get_connection(&c_id).unwrap().get_segment(hit.location()).unwrap();
    assert_eq!(w.position(), Some(&Vector2(400, 400)));
}

#[test]
fn pins_collect_into_bits() {
    let a = Connection::new_basic(Id(1), 0, Id(2), 0);
    let mut b = Connection::new_basic(Id(1), 1, Id(2), 1);
    b.set_active(true);
    let (a_id, b_id) = (a.id(), b.id());
    let mut conns = HashMap::new();
    conns.insert(a_id.0, a);
    conns.insert(b_id.0, b);
    let links = vec![Some(a_id), Some(b_id), None, Some(b_id), Some(Id(777))];
    assert_eq!(links.collect(&conns), 0b01010);
}

#[test]
fn pruning_and_renaming_branches() {
    let mut seg = Segment::Waypoint(Vec::new(), Vector2(0, 0), false);
    seg.add_segment(Segment::Block(Id(5), 0));
    seg.add_segment(Segment::Block(Id(6), 1));
    let mut ports = Vec::new();
    seg.destinations(&mut ports);
    assert_eq!(ports, vec![Port::Input(Id(5), 0), Port::Input(Id(6), 1)]);
    seg.refactor_id(Id(6), Id(9));
    let mut ports = Vec::new();
    seg.destinations(&mut ports);
    assert_eq!(ports, vec![Port::Input(Id(5), 0), Port::Input(Id(9), 1)]);
    assert!(!seg.remove_unselected_branches(&vec![Id(9)]));
    let mut ports = Vec::new();
    seg.destinations(&mut ports);
    assert_eq!(ports, vec![Port::Input(Id(9), 1)]);
    assert!(seg.remove_unselected_branches(&vec![Id(1)]));
    assert!(seg.is_empty());
    let mut c = Connection::new(Port::Output(Id(1), 0), vec![Segment::Block(Id(2), 0)]);
    assert!(c.remove_unselected_branches(&vec![Id(3)]));
    assert!(c.is_empty());
}

#[test]
fn waypoint_in_area_and_hits() {
    let w = Segment::Waypoint(Vec::new(), Vector2(100, 100), false);
    assert!(w.is_in_area((Vector2(0, 0), Vector2(200, 200))));
    assert!(!w.is_in_area((Vector2(150, 150), Vector2(200, 200))));
    assert!(w.touches(Vector2(105, 95)));
    assert!(!w.touches(Vector2(120, 100)));
    assert!(!Segment::Block(Id(1), 0).is_in_area((Vector2(0, 0), Vector2(200, 200))));
}

#[test]
fn decorations_and_blocks() {
    let mut d = Decoration::Switch(false);
    d.set_active(true);
    assert!(d.is_active());
    let mut l = Decoration::Label("x".to_string());
    l.set_active(true);
    assert!(!l.is_active());
    let m = Module::new("Wide Module Name".to_string(), 3, 1);
    let b = Block::new(&m, Vector2(0, 0));
    assert_eq!(b.size(), Vector2(160, 125));
    assert_eq!(b.inputs().len(), 3);
    assert!(b.is_in_area((Vector2(100, 100), Vector2(300, 300))));
    assert!(!b.is_in_area((Vector2(200, 200), Vector2(300, 300))));
    assert_eq!(b.position_on_connection(Vector2(0, 75), true), Some(1));
    assert_eq!(b.position_on_connection(Vector2(160, 50), false), Some(0));
    assert_eq!(b.position_on_connection(Vector2(80, 50), true), None);
    let small = Block::new(&Module::new("X".to_string(), 1, 1), Vector2(0, 0));
    assert_eq!(small.size(), Vector2(75, 75));
}

#[test]
fn vectors_and_ids() {
    let v = Vector2::new(3, -4);
    assert_eq!((v.x(), v.y()), (3, -4));
    assert_eq!(v.plus(Vector2(1, 1)), Vector2(4, -3));
    assert_eq!(v.minus(Vector2(1, 1)), Vector2(2, -5));
    assert_eq!(v.times(Vector2(2, 3)), Vector2(6, -12));
    assert_eq!(Vector2(-7, 7).divided_by(Vector2(2, 2)), Vector2(-3, 3));
    assert_eq!(Vector2::from((1, 2)), Vector2(1, 2));
    assert_eq!(Id::empty(), Id(0));
    let a = Id::new();
    let b = Id::new();
    assert_ne!(a, b);
    assert_eq!(a.value(), a.0);
}

#[test]
fn division_by_negative_components_truncates() {
    assert_eq!(Vector2(7, -7).divided_by(Vector2(-2, -2)), Vector2(-3, 3));
    assert_eq!(Vector2(i32::MIN, 9).divided_by(Vector2(1, -3)), Vector2(i32::MIN, -3));
}

#[test]
fn module_file_merges_new_modules() {
    let mut project = Project::default();
    let file = ModuleFile { main_name: "Half".to_string(), modules: vec![Module::new("Half".to_string(), 1, 1)] };
    assert!(file.check_compat(&project).is_empty());
    assert_eq!(file.merge(&mut project), Ok(()));
    assert!(project.module(&"Half".to_string()).is_some());
}

#[test]
fn module_file_names_clashing_modules() {
    let mut project = Project::default();
    let and = project.module(&"And".to_string()).unwrap().clone();
    let or = project.module(&"Or".to_string()).unwrap().clone();
    let file = ModuleFile {
        main_name: "Half".to_string(),
        modules: vec![and, Module::new("Half".to_string(), 1, 1), or],
    };
    assert_eq!(file.check_compat(&project), vec!["And".to_string(), "Or".to_string()]);
    let before = project.modules().len();
    assert_eq!(
        file.merge(&mut project),
        Err("Error importing `Half`; Conflicting modules exist:\n\tAnd,\n\tOr".to_string())
    );
    assert_eq!(project.modules().len(), before);
    assert!(project.module(&"Half".to_string()).is_none());
}
