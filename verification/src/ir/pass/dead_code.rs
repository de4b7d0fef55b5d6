use crate::ir::control::{
    controls_view, lemma_controls_view, Control, ControlV, For, IfElse, Par, Sequence,
};
use crate::ir::from_ast::{port_value, run_controls, run_ir};
use crate::ir::instr::{spec_gen, spec_kill, IrV};
use crate::ir::port::{ports_view, spec_ports_used_all, Port, PortV, Variable};
use crate::ir::component::Component;
use crate::ir::pass::{preserves_timing, PassOptions};
use crate::ir::side_effect::{
    enable_effects, live_outputs, output_ports, spec_effects, spec_effects_rev,
};
use crate::ir::timing::{
    spec_timing, spec_timing_par, spec_timing_seq, timing_defined, timing_defined_all, timing_of,
};
use vstd::prelude::*;

verus! {

/// What dead control becomes: a delay as long as its latency when timing is
/// preserved and the latency is not zero, otherwise nothing.
pub open spec fn spec_replacement(c: ControlV, preserve_timing: bool) -> ControlV {
    if preserve_timing && spec_timing(c).1 > 0 {
        ControlV::Delay(spec_timing(c).1 as usize)
    } else {
        ControlV::Empty
    }
}

/// A control tree with its dead parts replaced (see [`spec_replacement`]),
/// visited in reverse from the needed ports `live`, and whether anything was
/// replaced. Control without effect (as per [`spec_effects`]) is replaced as
/// a whole; control with an effect keeps its shape and has its parts
/// examined.
pub open spec fn spec_dead_code(c: ControlV, live: Seq<PortV>, preserve_timing: bool) -> (
    ControlV,
    bool,
)
    decreases c,
{
    if c is Empty {
        (c, false)
    } else if !spec_effects(c, live).1 {
        (spec_replacement(c, preserve_timing), true)
    } else {
        match c {
            ControlV::For(v, l, u, body) => {
                let b = spec_dead_code(*body, live, preserve_timing);
                (ControlV::For(v, l, u, Box::new(b.0)), b.1)
            },
            ControlV::Sequence(cs) => {
                let r = spec_dead_code_rev(cs, live, preserve_timing);
                (ControlV::Sequence(r.0), r.1)
            },
            ControlV::Par(cs) => {
                let r = spec_dead_code_rev(cs, live, preserve_timing);
                (ControlV::Par(r.0), r.1)
            },
            ControlV::IfElse(p, t, f) => {
                let a = spec_dead_code(*t, live, preserve_timing);
                let b = spec_dead_code(*f, spec_effects(*t, live).0, preserve_timing);
                (ControlV::IfElse(p, Box::new(a.0), Box::new(b.0)), a.1 || b.1)
            },
            _ => (c, false),
        }
    }
}

/// A list of control trees with their dead parts replaced, visited from the
/// last to the first.
pub open spec fn spec_dead_code_rev(cs: Seq<ControlV>, live: Seq<PortV>, preserve_timing: bool) -> (
    Seq<ControlV>,
    bool,
)
    decreases cs,
{
    if cs.len() == 0 {
        (Seq::empty(), false)
    } else {
        let last = spec_dead_code(cs.last(), live, preserve_timing);
        let rest = spec_dead_code_rev(
            cs.drop_last(),
            spec_effects(cs.last(), live).0,
            preserve_timing,
        );
        (rest.0.push(last.0), rest.1 || last.1)
    }
}

/// The replacement of dead control whose timing is `latency`.
fn replacement(latency: usize, preserve_timing: bool) -> (result: Control)
    ensures
        result@ == (if preserve_timing && latency > 0 {
            ControlV::Delay(latency)
        } else {
            ControlV::Empty
        }),
{
    if preserve_timing && latency > 0 {
        Control::Delay(latency)
    } else {
        Control::Empty
    }
}

/// Replaces the dead parts of a control tree (see [`spec_dead_code`]),
/// extending `live` as the side-effect analysis does; returns the new tree,
/// whether anything was replaced, and whether the tree has an effect.
pub fn eliminate(control: Control, live: &mut Vec<Port>, preserve_timing: bool) -> (result: (
    Control,
    bool,
    bool,
))
    requires
        preserve_timing ==> timing_defined(control@),
    ensures
        (result.0@, result.1) == spec_dead_code(control@, ports_view(old(live)@), preserve_timing),
        (ports_view(final(live)@), result.2) == spec_effects(control@, ports_view(old(live)@)),
    decreases control, 0int,
{
    let ghost c = control@;
    let latency = if preserve_timing {
        timing_of(&control).latency()
    } else {
        0
    };
    match control {
        Control::Empty => (Control::Empty, false, false),
        Control::Delay(d) => {
            if d > 0 {
                (Control::Delay(d), false, true)
            } else {
                (replacement(latency, preserve_timing), true, false)
            }
        },
        Control::Enable(ir) => {
            if enable_effects(&ir, live) {
                (Control::Enable(ir), false, true)
            } else {
                (replacement(latency, preserve_timing), true, false)
            }
        },
        Control::For(for_) => {
            let For { variant, lower, exclusive_upper, body } = for_;
            let (new_body, modified, effectual) = eliminate(*body, live, preserve_timing);
            if effectual {
                (
                    Control::For(For { variant, lower, exclusive_upper, body: Box::new(new_body) }),
                    modified,
                    true,
                )
            } else {
                (replacement(latency, preserve_timing), true, false)
            }
        },
        Control::Sequence(seq) => {
            let (children, modified, effectual) = eliminate_rev(
                seq.children,
                live,
                preserve_timing,
            );
            if effectual {
                (Control::Sequence(Sequence { children }), modified, true)
            } else {
                (replacement(latency, preserve_timing), true, false)
            }
        },
        Control::Par(par) => {
            let (children, modified, effectual) = eliminate_rev(par.children, live, preserve_timing);
            if effectual {
                (Control::Par(Par { children }), modified, true)
            } else {
                (replacement(latency, preserve_timing), true, false)
            }
        },
        Control::IfElse(if_else) => {
            let IfElse { cond, true_branch, false_branch } = if_else;
            let (t, m1, e1) = eliminate(*true_branch, live, preserve_timing);
            let (f, m2, e2) = eliminate(*false_branch, live, preserve_timing);
            if e1 || e2 {
                (
                    Control::IfElse(
                        IfElse { cond, true_branch: Box::new(t), false_branch: Box::new(f) },
                    ),
                    m1 || m2,
                    true,
                )
            } else {
                (replacement(latency, preserve_timing), true, false)
            }
        },
    }
}

/// Replaces the dead parts of a list of control trees, visited from the last
/// to the first; returns the new list, whether anything was replaced, and
/// whether any tree has an effect.
pub fn eliminate_rev(children: Vec<Control>, live: &mut Vec<Port>, preserve_timing: bool) -> (result: (
    Vec<Control>,
    bool,
    bool,
))
    requires
        preserve_timing ==> timing_defined_all(controls_view(children@)),
    ensures
        (controls_view(result.0@), result.1) == spec_dead_code_rev(
            controls_view(children@),
            ports_view(old(live)@),
            preserve_timing,
        ),
        (ports_view(final(live)@), result.2) == spec_effects_rev(
            controls_view(children@),
            ports_view(old(live)@),
        ),
    decreases children@, children@.len(),
{
    let ghost cs = controls_view(children@);
    let ghost live0 = ports_view(live@);
    proof {
        lemma_controls_view(children@);
    }
    let mut rest = children;
    if rest.len() == 0 {
        return (rest, false, false);
    }
    let last = rest.pop().unwrap();
    proof {
        assert(rest@ =~= children@.drop_last());
        assert(decreases_to!(children@ => children@[children@.len() - 1]));
        assert(controls_view(children@).drop_last() =~= controls_view(rest@));
        assert(last@ == cs.last());
    }
    let (new_last, m1, e1) = eliminate(last, live, preserve_timing);
    let ghost live1 = ports_view(live@);
    let (mut out, m2, e2) = eliminate_rev(rest, live, preserve_timing);
    let ghost before = out@;
    out.push(new_last);
    proof {
        assert(out@.drop_last() =~= before);
        assert(spec_effects(cs.last(), live0).0 == live1);
    }
    (out, m2 || m1, e1 || e2)
}

/// Conservative dead-code elimination, as per the side-effect analysis.
pub struct DeadCode {
    pub preserve_timing: bool,
}

impl DeadCode {
    /// The pass configured by `options`.
    pub fn from(options: PassOptions) -> (result: Self)
        ensures
            result.preserve_timing == preserves_timing(options),
    {
        DeadCode { preserve_timing: options.contains(PassOptions::preserve_timing()) }
    }

    /// The name of the pass.
    pub fn name() -> (result: &'static str)
        ensures
            result@ == "dead-code"@,
    {
        "dead-code"
    }

    /// Replaces the dead parts of the control of `comp`, starting from its
    /// outputs (see [`spec_dead_code`]), and says whether anything was
    /// replaced.
    pub fn run(&self, comp: &mut Component) -> (result: bool)
        requires
            self.preserve_timing ==> timing_defined(old(comp).cfg@),
        ensures
            (final(comp).cfg@, result) == spec_dead_code(
                old(comp).cfg@,
                output_ports(old(comp).outputs@),
                self.preserve_timing,
            ),
            final(comp).label == old(comp).label,
            final(comp).attributes == old(comp).attributes,
            final(comp).inputs@ == old(comp).inputs@,
            final(comp).outputs@ == old(comp).outputs@,
            final(comp).cell_alloc@ == old(comp).cell_alloc@,
    {
        let mut live = live_outputs(comp);
        let mut cfg = Control::Empty;
        std::mem::swap(&mut cfg, &mut comp.cfg);
        let (new_cfg, modified, _) = eliminate(cfg, &mut live, self.preserve_timing);
        comp.cfg = new_cfg;
        modified
    }
}

/// With timing preserved, removing dead code keeps the latency of control:
/// dead parts become delays of their own latency.
pub proof fn law_dead_code_keeps_latency(c: ControlV, live: Seq<PortV>)
    requires
        timing_defined(c),
    ensures
        spec_timing(spec_dead_code(c, live, true).0).1 == spec_timing(c).1,
    decreases c, 0int,
{
    if c is Empty {
    } else if !spec_effects(c, live).1 {
    } else {
        match c {
            ControlV::For(v, l, u, body) => {
                law_dead_code_keeps_latency(*body, live);
            },
            ControlV::Sequence(cs) => {
                lemma_dead_code_seq_latency(cs, live);
            },
            ControlV::Par(cs) => {
                lemma_dead_code_par_latency(cs, live);
            },
            ControlV::IfElse(p, t, f) => {
                law_dead_code_keeps_latency(*t, live);
                law_dead_code_keeps_latency(*f, spec_effects(*t, live).0);
            },
            _ => {},
        }
    }
}

proof fn lemma_dead_code_seq_latency(cs: Seq<ControlV>, live: Seq<PortV>)
    requires
        timing_defined_all(cs),
    ensures
        spec_timing_seq(spec_dead_code_rev(cs, live, true).0).1 == spec_timing_seq(cs).1,
        spec_dead_code_rev(cs, live, true).0.len() == cs.len(),
    decreases cs, 1int,
{
    if cs.len() > 0 {
        let next = spec_effects(cs.last(), live).0;
        law_dead_code_keeps_latency(cs.last(), live);
        lemma_dead_code_seq_latency(cs.drop_last(), next);
        let rest = spec_dead_code_rev(cs.drop_last(), next, true).0;
        let last = spec_dead_code(cs.last(), live, true).0;
        assert(rest.push(last).drop_last() =~= rest);
    }
}

proof fn lemma_dead_code_par_latency(cs: Seq<ControlV>, live: Seq<PortV>)
    requires
        timing_defined_all(cs),
    ensures
        spec_timing_par(spec_dead_code_rev(cs, live, true).0).1 == spec_timing_par(cs).1,
        spec_dead_code_rev(cs, live, true).0.len() == cs.len(),
    decreases cs, 1int,
{
    if cs.len() > 0 {
        let next = spec_effects(cs.last(), live).0;
        law_dead_code_keeps_latency(cs.last(), live);
        lemma_dead_code_par_latency(cs.drop_last(), next);
        let rest = spec_dead_code_rev(cs.drop_last(), next, true).0;
        let last = spec_dead_code(cs.last(), live, true).0;
        assert(rest.push(last).drop_last() =~= rest);
    }
}

/// Whether `p` is a constant or a variable.
pub open spec fn scalar_port(p: PortV) -> bool {
    p is Constant || p is Variable
}

/// Whether `c` is an operation that writes a variable and reads only
/// constants and variables.
pub open spec fn scalar_op(c: ControlV) -> bool {
    c matches ControlV::Enable(ir) && spec_kill(ir) is Variable && match ir {
        IrV::Add(_, a, b) => scalar_port(a) && scalar_port(b),
        IrV::Mul(_, a, b) => scalar_port(a) && scalar_port(b),
        IrV::Assign(_, a) => scalar_port(a),
    }
}

/// Constants and variables read only themselves.
proof fn lemma_used_scalars(ports: Seq<PortV>)
    requires
        forall|i: int| 0 <= i < ports.len() ==> scalar_port(#[trigger] ports[i]),
    ensures
        spec_ports_used_all(ports) == ports,
    decreases ports.len(),
{
    if ports.len() > 0 {
        lemma_used_scalars(ports.drop_last());
        assert(ports.drop_last().push(ports.last()) =~= ports);
        assert(spec_ports_used_all(ports.drop_last()) + seq![ports.last()] =~= ports.drop_last().push(
            ports.last(),
        ));
    }
}

/// Removing dead code from a list of operations on constants and variables
/// keeps the values of the needed variables: running what is left leaves
/// every variable in `live` holding what running the whole list leaves in
/// it, from any starting values.
pub proof fn law_dead_code_keeps_live_values(
    cs: Seq<ControlV>,
    live: Seq<PortV>,
    preserve_timing: bool,
    s: spec_fn(Variable) -> int,
)
    requires
        forall|i: int| 0 <= i < cs.len() ==> scalar_op(#[trigger] cs[i]),
    ensures
        forall|v: Variable|
            live.contains(PortV::Variable(v)) ==> #[trigger] run_controls(
                spec_dead_code_rev(cs, live, preserve_timing).0,
                s,
            )(v) == run_controls(cs, s)(v),
    decreases cs.len(),
{
    if cs.len() > 0 {
        let rest = cs.drop_last();
        let last = cs.last();
        assert(scalar_op(cs[cs.len() - 1]));
        let ir = last->Enable_0;
        let a = spec_effects(last, live);
        assert forall|i: int| 0 <= i < rest.len() implies scalar_op(#[trigger] rest[i]) by {
            assert(rest[i] == cs[i]);
        }
        law_dead_code_keeps_live_values(rest, a.0, preserve_timing, s);
        let kept = spec_dead_code_rev(rest, a.0, preserve_timing).0;
        let out = spec_dead_code_rev(cs, live, preserve_timing).0;
        let lastd = spec_dead_code(last, live, preserve_timing).0;
        assert(out == kept.push(lastd));
        assert(out.drop_last() =~= kept);
        let t1 = run_controls(kept, s);
        let t2 = run_controls(rest, s);
        let k = spec_kill(ir)->Variable_0;
        lemma_used_scalars(spec_gen(ir));
        if spec_effects(last, live).1 {
            assert(lastd == last);
            assert(a.0 == live + spec_gen(ir));
            assert(run_controls(out, s) == run_ir(ir, t1));
            assert(run_controls(cs, s) == run_ir(ir, t2));
            assert forall|v: Variable| live.contains(PortV::Variable(v)) implies #[trigger] run_controls(
                out,
                s,
            )(v) == run_controls(cs, s)(v) by {
                assert(a.0.contains(PortV::Variable(v))) by {
                    let j = choose|j: int| 0 <= j < live.len() && live[j] == PortV::Variable(v);
                    assert(a.0[j] == live[j]);
                }
                assert(t1(v) == t2(v));
                assert forall|g: PortV| #[trigger] spec_gen(ir).contains(g) implies port_value(g, t1)
                    == port_value(g, t2) by {
                    let j = choose|j: int| 0 <= j < spec_gen(ir).len() && spec_gen(ir)[j] == g;
                    assert(a.0[live.len() + j] == g);
                    if let PortV::Variable(x) = g {
                        assert(t1(x) == t2(x));
                    }
                }
                match ir {
                    IrV::Add(_, x, y) => {
                        assert(spec_gen(ir)[0] == x);
                        assert(spec_gen(ir)[1] == y);
                        assert(spec_gen(ir).contains(x));
                        assert(spec_gen(ir).contains(y));
                        assert(port_value(x, t1) == port_value(x, t2));
                        assert(port_value(y, t1) == port_value(y, t2));
                    },
                    IrV::Mul(_, x, y) => {
                        assert(spec_gen(ir)[0] == x);
                        assert(spec_gen(ir)[1] == y);
                        assert(spec_gen(ir).contains(x));
                        assert(spec_gen(ir).contains(y));
                        assert(port_value(x, t1) == port_value(x, t2));
                        assert(port_value(y, t1) == port_value(y, t2));
                    },
                    IrV::Assign(_, x) => {
                        assert(spec_gen(ir)[0] == x);
                        assert(spec_gen(ir).contains(x));
                        assert(port_value(x, t1) == port_value(x, t2));
                    },
                }
                assert(run_ir(ir, t1)(v) == run_ir(ir, t2)(v));
            }
        } else {
            assert(!live.contains(PortV::Variable(k)));
            assert(lastd is Delay || lastd is Empty);
            assert(run_controls(out, s) == t1);
            assert(run_controls(cs, s) == run_ir(ir, t2));
            assert forall|v: Variable| live.contains(PortV::Variable(v)) implies #[trigger] run_controls(
                out,
                s,
            )(v) == run_controls(cs, s)(v) by {
                assert(v != k);
                assert(t1(v) == t2(v));
            }
        }
    }
}

} // verus!
