use pulsar::backend::agen::{
    agen_applicable, AccessExtraction, AccessPort, AddressGeneratorContext, AddressGeneratorTransform, Direction,
    MEMORY_ACCESS_LATENCY,
};
use pulsar::ir::cell::Cell;
use pulsar::ir::component::Component;
use pulsar::ir::control::{Control, For, Par};
use pulsar::ir::instr::Ir;
use pulsar::ir::label::{Label, Name, Visibility};
use pulsar::ir::memory::Memory;
use pulsar::ir::pass::PassError;
use pulsar::ir::pass::well_formed::WellFormedError;
use pulsar::ir::port::{Port, Variable};

fn var(id: usize) -> Variable {
    Variable::from(id)
}

fn access(id: usize, index: i64) -> Port {
    Port::Access(var(id), vec![Port::Constant(index)])
}

/// `i1[2] = i2` then `i3 = i1[0] + i2`, one after the other.
fn store_then_load() -> Control {
    Control::seq(vec![
        Control::Enable(Ir::Assign(access(1, 2), Port::Variable(var(2)))),
        Control::Enable(Ir::Add(Port::Variable(var(3)), access(1, 0), Port::Variable(var(2)))),
    ])
}

fn component(cfg: Control) -> Component {
    let label = Label::from(Name::from("f"), Visibility::Private);
    let inputs = vec![(var(1), Cell::Memory(Memory::new(4, 64, 1))), (var(2), Cell::Register(64))];
    Component::new(label, inputs, Vec::new(), cfg)
}

fn same(a: &Control, b: &Control) -> bool {
    a.lines(0) == b.lines(0)
}

fn empty_step() -> Control {
    Control::Par(Par::new())
}

#[test]
fn accesses_come_in_walk_order_with_their_direction() {
    let comp = component(store_then_load());
    let ports = AccessExtraction::from(&comp).access_ports;
    assert_eq!(ports.len(), 2);
    assert_eq!(ports[0].source, 0);
    assert!(ports[0].direction == Direction::WriteTo);
    assert!(ports[0].port.equals(&access(1, 2)));
    assert_eq!(ports[1].source, 1);
    assert!(ports[1].direction == Direction::ReadFrom);
    assert!(ports[1].port.equals(&access(1, 0)));
}

#[test]
fn plain_ports_are_no_accesses() {
    let cfg = Control::Enable(Ir::Add(Port::Variable(var(3)), Port::Constant(1), Port::Variable(var(2))));
    let comp = component(cfg);
    assert_eq!(AccessExtraction::from(&comp).access_ports.len(), 0);
}

#[test]
fn accesses_inside_loops_are_found() {
    let body = Control::Enable(Ir::Assign(Port::Variable(var(3)), access(1, 1)));
    let cfg = Control::For(For::new(var(4), Port::Constant(0), Port::Constant(4), body));
    let comp = component(Control::seq(vec![cfg]));
    let ports = AccessExtraction::from(&comp).access_ports;
    assert_eq!(ports.len(), 1);
    assert_eq!(ports[0].source, 0);
    assert!(ports[0].direction == Direction::ReadFrom);
}

#[test]
fn a_thread_leaves_out_its_own_operation() {
    let comp = component(store_then_load());
    let mut context = AddressGeneratorContext::new(MEMORY_ACCESS_LATENCY);
    let port = AccessPort { port: access(1, 0), source: 1, direction: Direction::ReadFrom };
    context.build_address_thread(&comp, port);
    let expected = Control::par(vec![Control::seq(vec![
        Control::par(vec![Control::Enable(Ir::Assign(access(1, 2), Port::Variable(var(2))))]),
        Control::par(vec![empty_step()]),
        empty_step(),
    ])]);
    assert_eq!(context.threads.len(), 1);
    assert!(same(&context.threads[0].control, &expected));
}

#[test]
fn reads_start_early_by_the_memory_latency() {
    let comp = component(store_then_load());
    let mut context = AddressGeneratorContext::new(10);
    for port in AccessExtraction::from(&comp).access_ports {
        context.build_address_thread(&comp, port);
    }
    let write_thread = context.threads[0].control.duplicate();
    let read_thread = context.threads[1].control.duplicate();
    let (control, shift) = context.schedule();
    assert_eq!(shift, 10);
    let expected = Control::par(vec![
        Control::seq(vec![Control::Delay(10), write_thread]),
        Control::seq(vec![Control::Delay(0), read_thread]),
    ]);
    assert!(same(&control, &expected));
}

#[test]
fn writes_alone_need_no_lead() {
    let mut context = AddressGeneratorContext::new(7);
    let comp = component(Control::Enable(Ir::Assign(access(1, 0), Port::Constant(3))));
    let port = AccessPort { port: access(1, 0), source: 0, direction: Direction::WriteTo };
    context.build_address_thread(&comp, port);
    let (_, shift) = context.schedule();
    assert_eq!(shift, 0);
}

#[test]
fn no_threads_schedule_to_an_empty_par() {
    let context = AddressGeneratorContext::new(10);
    let (control, shift) = context.schedule();
    assert_eq!(shift, 0);
    assert!(same(&control, &Control::par(Vec::new())));
}

#[test]
fn address_generator_is_named_after_its_component() {
    let label = Label::from(Name::from("f"), Visibility::Private);
    let comp = Component::new(label, Vec::new(), Vec::new(), Control::Empty);
    let agen = AddressGeneratorTransform.apply(&comp).ok().unwrap();
    assert_eq!(agen.label.name.unmangled, "f_agen");
    assert_eq!(agen.label.name.mangled, "f_agen");
    assert!(agen.label.visibility == Visibility::Public);
    assert_eq!(agen.inputs.len(), 0);
    assert_eq!(agen.outputs.len(), 0);
}

#[test]
fn an_address_register_left_unwritten_is_not_well_formed() {
    let comp = component(Control::Empty);
    let result = AddressGeneratorTransform.apply(&comp);
    assert!(matches!(
        result,
        Err(PassError::NotWellFormed(WellFormedError::OutputNotAssigned(v))) if v == var(1)
    ));
}

#[test]
fn delays_rule_out_address_generation_when_there_are_accesses() {
    let with_delay = Control::seq(vec![Control::Delay(2), store_then_load()]);
    assert!(!agen_applicable(&component(with_delay)));
    let quiet = Control::seq(vec![Control::Delay(2)]);
    assert!(agen_applicable(&component(quiet)));
    assert!(agen_applicable(&component(store_then_load())));
}

#[test]
fn a_lone_access_is_not_applicable() {
    let cfg = Control::Enable(Ir::Assign(access(1, 0), Port::Constant(3)));
    assert!(!agen_applicable(&component(cfg)));
}
