use pulsar::ir::cell::Cell;
use pulsar::ir::component::Component;
use pulsar::ir::control::Control;
use pulsar::ir::instr::Ir;
use pulsar::ir::label::{Label, Name, Visibility};
use pulsar::ir::port::{Port, Variable};
use pulsar::ir::visitor::{traverse_component, traverse_control, WalkEvent};

fn add() -> Control {
    Control::Enable(Ir::Add(Port::Variable(Variable::from(1)), Port::Constant(1), Port::Constant(2)))
}

/// Each event as `start` or `finish` with the first line of its node.
fn describe(events: &[WalkEvent]) -> Vec<(bool, String)> {
    events
        .iter()
        .map(|e| match e {
            WalkEvent::Start(c) => (true, c.lines(0)[0].1.clone()),
            WalkEvent::Finish(c) => (false, c.lines(0)[0].1.clone()),
        })
        .collect()
}

#[test]
fn walk_enters_and_leaves_each_node_in_order() {
    let cfg = Control::seq(vec![add(), Control::Delay(3)]);
    let mut out = Vec::new();
    traverse_control(&cfg, false, &mut out);
    let seq_line = cfg.lines(0)[0].1.clone();
    let add_line = add().lines(0)[0].1.clone();
    let delay_line = Control::Delay(3).lines(0)[0].1.clone();
    assert_eq!(
        describe(&out),
        vec![
            (true, seq_line.clone()),
            (true, add_line.clone()),
            (false, add_line),
            (true, delay_line.clone()),
            (false, delay_line),
            (false, seq_line),
        ]
    );
}

#[test]
fn reverse_walk_takes_children_last_to_first() {
    let cfg = Control::par(vec![add(), Control::Delay(3)]);
    let mut out = Vec::new();
    traverse_control(&cfg, true, &mut out);
    let par_line = cfg.lines(0)[0].1.clone();
    let add_line = add().lines(0)[0].1.clone();
    let delay_line = Control::Delay(3).lines(0)[0].1.clone();
    assert_eq!(
        describe(&out),
        vec![
            (true, par_line.clone()),
            (true, delay_line.clone()),
            (false, delay_line),
            (true, add_line.clone()),
            (false, add_line),
            (false, par_line),
        ]
    );
}

#[test]
fn walking_a_component_walks_its_control() {
    let label = Label::from(Name::from("f"), Visibility::Private);
    let inputs = vec![(Variable::from(2), Cell::Register(8))];
    let comp = Component::new(label, inputs, Vec::new(), Control::Empty);
    let events = traverse_component(&comp, false);
    assert_eq!(events.len(), 2);
    assert!(matches!(events[0], WalkEvent::Start(Control::Empty)));
    assert!(matches!(events[1], WalkEvent::Finish(Control::Empty)));
}
