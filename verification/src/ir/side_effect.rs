use super::cell::Cell;
use super::component::Component;
use super::control::{controls_view, lemma_controls_view, Control, ControlV};
use super::instr::{spec_gen, spec_kill, IrV};
use super::port::{
    lemma_ports_view, lemma_ports_view_append, port_view, ports_view, spec_ports_used_all, spec_root_var, Port,
    PortV, Variable,
};
use vstd::prelude::*;

verus! {

/// Whether an operation writes (the root variable of) a port in `live`.
pub open spec fn kill_live(ir: IrV, live: Seq<PortV>) -> bool {
    match spec_root_var(spec_kill(ir)) {
        Some(v) => live.contains(PortV::Variable(v)),
        None => false,
    }
}

/// Side effects of a control tree visited in reverse, starting from the
/// ports `live` whose values are needed: the needed ports afterwards, and
/// whether the tree has an effect. An operation has an effect when it writes
/// a needed variable, and then every port it reads is needed too; a delay
/// of some cycles has an effect; other control has one when a part has one.
pub open spec fn spec_effects(c: ControlV, live: Seq<PortV>) -> (Seq<PortV>, bool)
    decreases c,
{
    match c {
        ControlV::Empty => (live, false),
        ControlV::Delay(d) => (live, d > 0),
        ControlV::Enable(ir) => if kill_live(ir, live) {
            (live + spec_ports_used_all(spec_gen(ir)), true)
        } else {
            (live, false)
        },
        ControlV::For(_, _, _, body) => spec_effects(*body, live),
        ControlV::Sequence(cs) => spec_effects_rev(cs, live),
        ControlV::Par(cs) => spec_effects_rev(cs, live),
        ControlV::IfElse(_, t, f) => {
            let a = spec_effects(*t, live);
            let b = spec_effects(*f, a.0);
            (b.0, a.1 || b.1)
        },
    }
}

/// Side effects of a list of control trees visited from the last to the
/// first.
pub open spec fn spec_effects_rev(cs: Seq<ControlV>, live: Seq<PortV>) -> (Seq<PortV>, bool)
    decreases cs,
{
    if cs.len() == 0 {
        (live, false)
    } else {
        let a = spec_effects(cs.last(), live);
        let b = spec_effects_rev(cs.drop_last(), a.0);
        (b.0, a.1 || b.1)
    }
}

/// The ports of a component's outputs: their values are needed at the end.
pub open spec fn output_ports(outputs: Seq<(Variable, Cell)>) -> Seq<PortV> {
    outputs.map_values(|e: (Variable, Cell)| PortV::Variable(e.0))
}

/// Whether `p` is one of `ports`.
pub fn contains_port(ports: &Vec<Port>, p: &Port) -> (result: bool)
    ensures
        result == ports_view(ports@).contains(p@),
{
    proof {
        lemma_ports_view(ports@);
    }
    let n = ports.len();
    let mut i: usize = 0;
    while i < n
        invariant
            0 <= i <= n,
            n == ports@.len(),
            ports_view(ports@).len() == n,
            forall|j: int| 0 <= j < n ==> #[trigger] ports_view(ports@)[j] == ports@[j]@,
            forall|j: int| 0 <= j < i ==> ports_view(ports@)[j] != p@,
        decreases n - i,
    {
        if ports[i].equals(p) {
            proof {
                assert(ports_view(ports@)[i as int] == p@);
            }
            return true;
        }
        i = i + 1;
    }
    false
}

/// The ports of the outputs of `comp`.
pub fn live_outputs(comp: &Component) -> (result: Vec<Port>)
    ensures
        ports_view(result@) == output_ports(comp.outputs@),
{
    let mut result: Vec<Port> = Vec::new();
    let n = comp.outputs.len();
    let mut i: usize = 0;
    while i < n
        invariant
            0 <= i <= n,
            n == comp.outputs@.len(),
            ports_view(result@) == output_ports(comp.outputs@.subrange(0, i as int)),
        decreases n - i,
    {
        let ghost before = result@;
        let var = comp.outputs[i].0;
        result.push(Port::Variable(var));
        proof {
            assert(result@.drop_last() =~= before);
            assert(result@.last() == Port::Variable(var));
            assert(port_view(Port::Variable(var)) == PortV::Variable(var));
            assert(ports_view(result@) == ports_view(result@.drop_last()).push(
                port_view(result@.last()),
            ));
            assert(ports_view(result@) == ports_view(before).push(PortV::Variable(var)));
            assert(var == comp.outputs@[i as int].0);
            assert(output_ports(comp.outputs@.subrange(0, i + 1)) =~= output_ports(
                comp.outputs@.subrange(0, i as int),
            ).push(PortV::Variable(comp.outputs@[i as int].0)));
        }
        i = i + 1;
    }
    proof {
        assert(comp.outputs@.subrange(0, n as int) =~= comp.outputs@);
    }
    result
}

/// Adds to `live` the ports `ir` reads when it writes one of them, and says
/// whether it did.
pub fn enable_effects(ir: &super::instr::Ir, live: &mut Vec<Port>) -> (result: bool)
    ensures
        (ports_view(final(live)@), result) == spec_effects(
            ControlV::Enable(ir@),
            ports_view(old(live)@),
        ),
{
    match ir.kill_var() {
        Some(v) => {
            let p = Port::Variable(v);
            if contains_port(live, &p) {
                let mut used = ir.gen_used();
                let ghost before = live@;
                let ghost used_v = used@;
                live.append(&mut used);
                proof {
                    lemma_ports_view_append(before, used_v);
                }
                true
            } else {
                false
            }
        },
        None => false,
    }
}

/// Side effects of a control tree (see [`spec_effects`]): extends `live`
/// with the ports whose values become needed, and says whether the tree has
/// an effect.
pub fn effects(control: &Control, live: &mut Vec<Port>) -> (result: bool)
    ensures
        (ports_view(final(live)@), result) == spec_effects(control@, ports_view(old(live)@)),
    decreases *control, 0int,
{
    match control {
        Control::Empty => false,
        Control::Delay(d) => *d > 0,
        Control::Enable(ir) => enable_effects(ir, live),
        Control::For(for_) => effects(&for_.body, live),
        Control::Sequence(seq) => {
            proof {
                assert(seq.children@.subrange(0, seq.children@.len() as int) =~= seq.children@);
            }
            effects_rev(&seq.children, seq.children.len(), live)
        },
        Control::Par(par) => {
            proof {
                assert(par.children@.subrange(0, par.children@.len() as int) =~= par.children@);
            }
            effects_rev(&par.children, par.children.len(), live)
        },
        Control::IfElse(if_else) => {
            let a = effects(&if_else.true_branch, live);
            let b = effects(&if_else.false_branch, live);
            a || b
        },
    }
}

/// Side effects of the first `len` of `children`, visited from the last to
/// the first.
pub fn effects_rev(children: &Vec<Control>, len: usize, live: &mut Vec<Port>) -> (result: bool)
    requires
        len <= children@.len(),
    ensures
        (ports_view(final(live)@), result) == spec_effects_rev(
            controls_view(children@.subrange(0, len as int)),
            ports_view(old(live)@),
        ),
    decreases children@, len,
{
    let ghost cs = controls_view(children@.subrange(0, len as int));
    proof {
        lemma_controls_view(children@.subrange(0, len as int));
    }
    if len == 0 {
        false
    } else {
        let ghost live0 = ports_view(live@);
        let ghost sub = children@.subrange(0, len as int);
        proof {
            assert(decreases_to!(children@ => children@[len - 1]));
            assert(children@.subrange(0, len - 1) =~= sub.drop_last());
            assert(cs.last() == children@[len - 1]@);
            assert(controls_view(sub).drop_last() =~= controls_view(sub.drop_last()));
        }
        let a = effects(&children[len - 1], live);
        let ghost live1 = ports_view(live@);
        let b = effects_rev(children, len - 1, live);
        proof {
            let ea = spec_effects(cs.last(), live0);
            assert(ea == (live1, a));
            let eb = spec_effects_rev(cs.drop_last(), live1);
            assert(eb == (ports_view(live@), b));
            assert(spec_effects_rev(cs, live0) == (eb.0, ea.1 || eb.1));
        }
        a || b
    }
}

/// What a component's control does that matters: the ports whose values it
/// needs, starting from its outputs, and whether it has any effect.
pub struct SideEffectAnalysis {
    pub effectual_ports: Vec<Port>,
    pub effectual: bool,
}

impl SideEffectAnalysis {
    /// Analyses the control of `comp`.
    pub fn from(comp: &Component) -> (result: Self)
        ensures
            (ports_view(result.effectual_ports@), result.effectual) == spec_effects(
                comp.cfg@,
                output_ports(comp.outputs@),
            ),
    {
        let mut live = live_outputs(comp);
        let effectual = effects(&comp.cfg, &mut live);
        SideEffectAnalysis { effectual_ports: live, effectual }
    }
}

} // verus!
