use super::instr::{spec_ir_text, Ir, IrV};
use super::port::{spec_port_text, spec_var_text, Port, PortV, Variable};
use crate::frontend::ast::{spec_decimal, usize_text};
use crate::utils::format::{lines_view, push_line, Line};
use vstd::prelude::*;

verus! {

/// A counted loop: `variant` runs from `lower` up to (excluding)
/// `exclusive_upper`.
pub struct For {
    pub variant: Variable,
    pub lower: Port,
    pub exclusive_upper: Port,
    pub body: Box<Control>,
}

/// Children run one after another.
pub struct Sequence {
    pub children: Vec<Control>,
}

/// Children run in the same logical time step.
pub struct Par {
    pub children: Vec<Control>,
}

/// Runs one of two branches depending on `cond`.
pub struct IfElse {
    pub cond: Port,
    pub true_branch: Box<Control>,
    pub false_branch: Box<Control>,
}

/// Only [`Sequence`]s and [`Par`]s can hold [`Ir`] operations.
pub enum Control {
    Empty,
    Delay(usize),
    For(For),
    Sequence(Sequence),
    Par(Par),
    IfElse(IfElse),
    Enable(Ir),
}

/// The mathematical value of a [`Control`] tree.
pub enum ControlV {
    Empty,
    Delay(usize),
    For(Variable, PortV, PortV, Box<ControlV>),
    Sequence(Seq<ControlV>),
    Par(Seq<ControlV>),
    IfElse(PortV, Box<ControlV>, Box<ControlV>),
    Enable(IrV),
}

/// The value of a control tree.
pub open spec fn control_view(c: Control) -> ControlV
    decreases c,
{
    match c {
        Control::Empty => ControlV::Empty,
        Control::Delay(d) => ControlV::Delay(d),
        Control::For(f) => ControlV::For(
            f.variant,
            f.lower@,
            f.exclusive_upper@,
            Box::new(control_view(*f.body)),
        ),
        Control::Sequence(s) => ControlV::Sequence(controls_view(s.children@)),
        Control::Par(p) => ControlV::Par(controls_view(p.children@)),
        Control::IfElse(i) => ControlV::IfElse(
            i.cond@,
            Box::new(control_view(*i.true_branch)),
            Box::new(control_view(*i.false_branch)),
        ),
        Control::Enable(ir) => ControlV::Enable(ir@),
    }
}

/// The values of a list of control trees.
pub open spec fn controls_view(s: Seq<Control>) -> Seq<ControlV>
    decreases s,
{
    if s.len() == 0 {
        Seq::empty()
    } else {
        controls_view(s.drop_last()).push(control_view(s.last()))
    }
}

pub proof fn lemma_controls_view(s: Seq<Control>)
    ensures
        controls_view(s).len() == s.len(),
        forall|i: int| 0 <= i < s.len() ==> #[trigger] controls_view(s)[i] == control_view(s[i]),
    decreases s.len(),
{
    if s.len() > 0 {
        lemma_controls_view(s.drop_last());
        assert forall|i: int| 0 <= i < s.len() implies #[trigger] controls_view(s)[i]
            == control_view(s[i]) by {
            if i < s.len() - 1 {
                assert(s.drop_last()[i] == s[i]);
            }
        }
    }
}

/// Two lists of control trees with the same values entry by entry have the
/// same value.
pub proof fn lemma_controls_view_ext(a: Seq<Control>, b: Seq<Control>)
    requires
        a.len() == b.len(),
        forall|i: int| 0 <= i < a.len() ==> control_view(#[trigger] a[i]) == control_view(b[i]),
    ensures
        controls_view(a) == controls_view(b),
{
    lemma_controls_view(a);
    lemma_controls_view(b);
    assert(controls_view(a) =~= controls_view(b));
}

/// Removing an entry commutes with taking values.
pub proof fn lemma_controls_view_remove(s: Seq<Control>, i: int)
    requires
        0 <= i < s.len(),
    ensures
        controls_view(s.remove(i)) == controls_view(s).remove(i),
{
    lemma_controls_view(s);
    lemma_controls_view(s.remove(i));
    assert(controls_view(s.remove(i)) =~= controls_view(s).remove(i));
}

/// Replacing an entry commutes with taking values.
pub proof fn lemma_controls_view_update(s: Seq<Control>, i: int, c: Control)
    requires
        0 <= i < s.len(),
    ensures
        controls_view(s.update(i, c)) == controls_view(s).update(i, control_view(c)),
{
    lemma_controls_view(s);
    lemma_controls_view(s.update(i, c));
    assert(controls_view(s.update(i, c)) =~= controls_view(s).update(i, control_view(c)));
}

impl View for Control {
    type V = ControlV;

    open spec fn view(&self) -> ControlV {
        control_view(*self)
    }
}

impl For {
    /// A for control takes exclusive ownership of its upper and lower bound
    /// ports.
    pub fn new(variant: Variable, lower: Port, exclusive_upper: Port, body: Control) -> (result: Self)
        ensures
            result.variant() == variant,
            result.lower_bound()@ == lower@,
            result.exclusive_upper_bound()@ == exclusive_upper@,
            result.body@ == body@,
    {
        For { variant, lower, exclusive_upper, body: Box::new(body) }
    }

    pub open spec fn variant(&self) -> Variable {
        self.variant
    }

    pub open spec fn lower_bound(&self) -> Port {
        self.lower
    }

    pub open spec fn exclusive_upper_bound(&self) -> Port {
        self.exclusive_upper
    }

    /// The loop's variable.
    pub fn get_variant(&self) -> (result: Variable)
        ensures
            result == self.variant(),
    {
        self.variant
    }

    /// The first value of the loop's variable.
    pub fn get_lower_bound(&self) -> (result: &Port)
        ensures
            *result == self.lower_bound(),
    {
        &self.lower
    }

    /// The value at which the loop stops.
    pub fn get_exclusive_upper_bound(&self) -> (result: &Port)
        ensures
            *result == self.exclusive_upper_bound(),
    {
        &self.exclusive_upper
    }

    /// The loop's body.
    pub fn get_body(&self) -> (result: &Control)
        ensures
            *result == *self.body,
    {
        &self.body
    }

    /// The number of cycles needed to initialize the loop variant to the lower
    /// bound.
    pub fn init_latency(&self) -> (result: usize)
        ensures
            result == 1,
    {
        1
    }
}

impl Sequence {
    /// A sequence with no children.
    pub fn new() -> (result: Self)
        ensures
            result.children@ == Seq::<Control>::empty(),
    {
        Sequence { children: Vec::new() }
    }

    /// Appends `child` as the last step.
    pub fn push(&mut self, child: Control)
        ensures
            final(self).children@ == old(self).children@.push(child),
    {
        self.children.push(child);
    }

    /// The children, in order.
    pub fn get_children(&self) -> (result: &Vec<Control>)
        ensures
            *result == self.children,
    {
        &self.children
    }
}

impl Par {
    /// A par with no children.
    pub fn new() -> (result: Self)
        ensures
            result.children@ == Seq::<Control>::empty(),
    {
        Par { children: Vec::new() }
    }

    /// A par holding just `child`.
    pub fn singleton(child: Control) -> (result: Self)
        ensures
            result.children@ == seq![child],
    {
        let mut result = Par::new();
        result.push(child);
        proof {
            assert(result.children@ =~= seq![child]);
        }
        result
    }

    /// Adds `child` to the par.
    pub fn push(&mut self, child: Control)
        ensures
            final(self).children@ == old(self).children@.push(child),
    {
        self.children.push(child);
    }

    /// The children, in order.
    pub fn get_children(&self) -> (result: &Vec<Control>)
        ensures
            *result == self.children,
    {
        &self.children
    }
}

impl IfElse {
    pub fn new(cond: Port, true_branch: Control, false_branch: Control) -> (result: Self)
        ensures
            result.cond()@ == cond@,
            result.true_branch@ == true_branch@,
            result.false_branch@ == false_branch@,
    {
        IfElse { cond, true_branch: Box::new(true_branch), false_branch: Box::new(false_branch) }
    }

    pub open spec fn cond(&self) -> Port {
        self.cond
    }
}

/// A copy of a list of control trees.
pub fn duplicate_controls(children: &Vec<Control>) -> (result: Vec<Control>)
    ensures
        controls_view(result@) == controls_view(children@),
    decreases children@,
{
    let mut result: Vec<Control> = Vec::new();
    let n = children.len();
    let mut i: usize = 0;
    while i < n
        invariant
            0 <= i <= n,
            n == children@.len(),
            result@.len() == i,
            forall|j: int| 0 <= j < i ==> control_view(#[trigger] result@[j]) == control_view(
                children@[j],
            ),
        decreases n - i,
    {
        proof {
            assert(decreases_to!(children@ => children@[i as int]));
        }
        result.push(children[i].duplicate());
        i = i + 1;
    }
    proof {
        lemma_controls_view_ext(result@, children@);
    }
    result
}

impl Control {
    /// A copy of this control tree.
    pub fn duplicate(&self) -> (result: Self)
        ensures
            result@ == self@,
        decreases *self,
    {
        match self {
            Control::Empty => Control::Empty,
            Control::Delay(d) => Control::Delay(*d),
            Control::For(f) => Control::For(
                For::new(
                    f.variant,
                    f.lower.duplicate(),
                    f.exclusive_upper.duplicate(),
                    f.body.duplicate(),
                ),
            ),
            Control::Sequence(s) => Control::Sequence(
                Sequence { children: duplicate_controls(&s.children) },
            ),
            Control::Par(p) => Control::Par(Par { children: duplicate_controls(&p.children) }),
            Control::IfElse(i) => Control::IfElse(
                IfElse::new(i.cond.duplicate(), i.true_branch.duplicate(), i.false_branch.duplicate()),
            ),
            Control::Enable(ir) => Control::Enable(ir.duplicate()),
        }
    }

    /// A control that enables `ir`.
    pub fn from_ir(ir: Ir) -> (result: Self)
        ensures
            result@ == ControlV::Enable(ir@),
    {
        Control::Enable(ir)
    }

    /// A sequence of the given controls.
    pub fn seq(children: Vec<Control>) -> (result: Self)
        ensures
            result@ == ControlV::Sequence(controls_view(children@)),
    {
        Control::Sequence(Sequence { children })
    }

    /// A par of the given controls.
    pub fn par(children: Vec<Control>) -> (result: Self)
        ensures
            result@ == ControlV::Par(controls_view(children@)),
    {
        Control::Par(Par { children })
    }
}

/// Builds control step by step: each logical time step is a [`Par`], and
/// the steps run in sequence.
pub struct ControlBuilder {
    /// Never empty.
    pars: Vec<Par>,
}

/// The control that a builder with the given steps produces: the only step
/// as a par, or the steps in sequence, each a par.
pub open spec fn spec_built(steps: Seq<Seq<ControlV>>) -> ControlV {
    if steps.len() == 1 {
        ControlV::Par(steps[0])
    } else {
        ControlV::Sequence(Seq::new(steps.len(), |i: int| ControlV::Par(steps[i])))
    }
}

impl ControlBuilder {
    /// The children of each step, in order.
    pub closed spec fn steps(&self) -> Seq<Seq<ControlV>> {
        Seq::new(self.pars@.len(), |i: int| controls_view(self.pars@[i].children@))
    }

    pub closed spec fn wf(&self) -> bool {
        self.pars@.len() >= 1
    }

    /// A well-formed builder has a step to push to.
    pub proof fn lemma_has_step(&self)
        requires
            self.wf(),
        ensures
            self.steps().len() >= 1,
    {
    }

    /// A builder with one empty step.
    pub fn new() -> (result: Self)
        ensures
            result.wf(),
            result.steps() == seq![Seq::<ControlV>::empty()],
    {
        let mut pars = Vec::new();
        pars.push(Par::new());
        let result = ControlBuilder { pars };
        proof {
            assert(controls_view(Seq::<Control>::empty()) =~= Seq::<ControlV>::empty());
            assert(result.steps() =~= seq![Seq::<ControlV>::empty()]);
        }
        result
    }

    /// Enables `control` in the current logical time step.
    pub fn push(&mut self, control: Control)
        requires
            old(self).wf(),
        ensures
            final(self).wf(),
            final(self).steps() == old(self).steps().update(
                old(self).steps().len() - 1,
                old(self).steps().last().push(control@),
            ),
    {
        let last = self.pars.len() - 1;
        let mut par = self.pars.remove(last);
        let ghost before = par.children@;
        par.push(control);
        self.pars.push(par);
        proof {
            assert(par.children@.drop_last() =~= before);
            assert(self.steps() =~= old(self).steps().update(
                old(self).steps().len() - 1,
                old(self).steps().last().push(control@),
            )) by {
                assert forall|i: int| 0 <= i < self.pars@.len() - 1 implies self.pars@[i] == old(
                    self,
                ).pars@[i] by {}
            }
        }
    }

    /// Marks all later pushes as occuring in a subsequent logical time step.
    pub fn split(&mut self)
        requires
            old(self).wf(),
        ensures
            final(self).wf(),
            final(self).steps() == old(self).steps().push(Seq::empty()),
    {
        self.pars.push(Par::new());
        proof {
            assert(controls_view(Seq::<Control>::empty()) =~= Seq::<ControlV>::empty());
            assert(self.steps() =~= old(self).steps().push(Seq::empty()));
        }
    }

    /// [`Ir::Add`] followed by [`ControlBuilder::push`].
    pub fn push_add(&mut self, result: Port, port: Port, port2: Port)
        requires
            old(self).wf(),
        ensures
            final(self).wf(),
            final(self).steps() == old(self).steps().update(
                old(self).steps().len() - 1,
                old(self).steps().last().push(ControlV::Enable(IrV::Add(result@, port@, port2@))),
            ),
    {
        self.push(Control::Enable(Ir::Add(result, port, port2)));
    }

    /// [`Ir::Mul`] followed by [`ControlBuilder::push`].
    pub fn push_mul(&mut self, result: Port, port: Port, port2: Port)
        requires
            old(self).wf(),
        ensures
            final(self).wf(),
            final(self).steps() == old(self).steps().update(
                old(self).steps().len() - 1,
                old(self).steps().last().push(ControlV::Enable(IrV::Mul(result@, port@, port2@))),
            ),
    {
        self.push(Control::Enable(Ir::Mul(result, port, port2)));
    }

    /// [`Ir::Assign`] followed by [`ControlBuilder::push`].
    pub fn push_assign(&mut self, result: Port, port: Port)
        requires
            old(self).wf(),
        ensures
            final(self).wf(),
            final(self).steps() == old(self).steps().update(
                old(self).steps().len() - 1,
                old(self).steps().last().push(ControlV::Enable(IrV::Assign(result@, port@))),
            ),
    {
        self.push(Control::Enable(Ir::Assign(result, port)));
    }

    /// The built control: the only step as a par, or all steps in sequence.
    pub fn take(self) -> (result: Control)
        requires
            self.wf(),
        ensures
            result@ == spec_built(self.steps()),
    {
        let ghost steps = self.steps();
        let mut pars = self.pars;
        if pars.len() == 1 {
            let par = pars.pop().unwrap();
            Control::Par(par)
        } else {
            let n = pars.len();
            let mut children: Vec<Control> = Vec::new();
            let ghost all = pars@;
            while pars.len() > 0
                invariant
                    pars@.len() + children@.len() == n,
                    n == all.len(),
                    n >= 2,
                    steps == Seq::new(all.len(), |i: int| controls_view(all[i].children@)),
                    pars@ == all.subrange(children@.len() as int, n as int),
                    forall|j: int|
                        0 <= j < children@.len() ==> control_view(#[trigger] children@[j])
                            == ControlV::Par(steps[j]),
                decreases pars@.len(),
            {
                let par = pars.remove(0);
                children.push(Control::Par(par));
                proof {
                    assert(pars@ =~= all.subrange(children@.len() as int, n as int));
                }
            }
            proof {
                lemma_controls_view(children@);
                assert(controls_view(children@) =~= Seq::new(
                    steps.len(),
                    |i: int| ControlV::Par(steps[i]),
                ));
            }
            Control::Sequence(Sequence { children })
        }
    }
}

/// The lines of a child inside a block: its own lines, or one empty line
/// when it shows nothing.
pub open spec fn spec_child_lines(c: ControlV, depth: nat) -> Seq<(nat, Seq<char>)>
    decreases c, 1nat,
{
    let lines = spec_control_lines(c, depth);
    if lines.len() == 0 {
        seq![(depth, Seq::empty())]
    } else {
        lines
    }
}

/// The lines that show a control tree at nesting depth `depth`: nothing for
/// empty control, `delay` and its cycles, an operation's text, and for a
/// loop, a sequence, a par or a branch a header line, the lines of its
/// parts one level deeper, and a closing brace.
pub open spec fn spec_control_lines(c: ControlV, depth: nat) -> Seq<(nat, Seq<char>)>
    decreases c, 0nat,
{
    match c {
        ControlV::Empty => Seq::empty(),
        ControlV::Delay(d) => seq![(depth, "delay "@ + spec_decimal(d as nat))],
        ControlV::Enable(ir) => seq![(depth, spec_ir_text(ir))],
        ControlV::For(v, lower, upper, body) => seq![
            (
                depth,
                "for "@ + spec_var_text(v) + " in "@ + spec_port_text(lower) + " ..< "@
                    + spec_port_text(upper) + " {"@,
            ),
        ] + spec_child_lines(*body, depth + 1) + seq![(depth, "}"@)],
        ControlV::Sequence(cs) => seq![(depth, "seq {"@)] + spec_children_lines(cs, depth + 1)
            + seq![(depth, "}"@)],
        ControlV::Par(cs) => seq![(depth, "par {"@)] + spec_children_lines(cs, depth + 1) + seq![
            (depth, "}"@),
        ],
        ControlV::IfElse(cond, t, f) => seq![(depth, "if "@ + spec_port_text(cond) + " {"@)]
            + spec_child_lines(*t, depth + 1) + seq![(depth, "} else {"@)] + spec_child_lines(
            *f,
            depth + 1,
        ) + seq![(depth, "}"@)],
    }
}

/// The lines of each child of `cs` in turn.
pub open spec fn spec_children_lines(cs: Seq<ControlV>, depth: nat) -> Seq<(nat, Seq<char>)>
    decreases cs, 2nat,
{
    if cs.len() == 0 {
        Seq::empty()
    } else {
        spec_children_lines(cs.drop_last(), depth) + spec_child_lines(cs.last(), depth)
    }
}

/// How many levels of nesting a control tree has below it.
pub open spec fn spec_nesting(c: ControlV) -> nat
    decreases c, 0nat,
{
    match c {
        ControlV::For(_, _, _, body) => 1 + spec_nesting(*body),
        ControlV::Sequence(cs) => 1 + spec_nesting_all(cs),
        ControlV::Par(cs) => 1 + spec_nesting_all(cs),
        ControlV::IfElse(_, t, f) => 1 + if spec_nesting(*t) >= spec_nesting(*f) {
            spec_nesting(*t)
        } else {
            spec_nesting(*f)
        },
        _ => 0,
    }
}

/// The largest nesting of the trees of `cs`.
pub open spec fn spec_nesting_all(cs: Seq<ControlV>) -> nat
    decreases cs, 1nat,
{
    if cs.len() == 0 {
        0
    } else {
        let rest = spec_nesting_all(cs.drop_last());
        let last = spec_nesting(cs.last());
        if rest >= last {
            rest
        } else {
            last
        }
    }
}

proof fn lemma_nesting_all(cs: Seq<ControlV>, i: int)
    requires
        0 <= i < cs.len(),
    ensures
        spec_nesting(cs[i]) <= spec_nesting_all(cs),
    decreases cs.len(),
{
    if i < cs.len() - 1 {
        assert(cs.drop_last()[i] == cs[i]);
        lemma_nesting_all(cs.drop_last(), i);
    }
}

/// Appends the lines of `control` at `depth` to `out` (see
/// [`spec_control_lines`]).
fn append_control_lines(control: &Control, depth: usize, out: &mut Vec<Line>)
    requires
        depth + spec_nesting(control@) < usize::MAX,
    ensures
        lines_view(final(out)@) == lines_view(old(out)@) + spec_control_lines(control@, depth as nat),
    decreases control, 0nat,
{
    let ghost start = lines_view(out@);
    match control {
        Control::Empty => {
            assert(start + Seq::<(nat, Seq<char>)>::empty() =~= start);
        },
        Control::Delay(d) => {
            let mut text = "delay ".to_owned();
            proof {
                reveal_strlit("delay ");
            }
            text.append(usize_text(*d).as_str());
            push_line(out, depth, text);
        },
        Control::Enable(ir) => {
            push_line(out, depth, ir.to_text());
        },
        Control::For(f) => {
            proof {
                reveal_strlit("for ");
                reveal_strlit(" in ");
                reveal_strlit(" ..< ");
                reveal_strlit(" {");
                reveal_strlit("}");
            }
            let mut header = "for ".to_owned();
            header.append(f.variant.to_text().as_str());
            header.append(" in ");
            header.append(f.lower.to_text().as_str());
            header.append(" ..< ");
            header.append(f.exclusive_upper.to_text().as_str());
            header.append(" {");
            push_line(out, depth, header);
            let ghost mid = lines_view(out@);
            append_child_lines(&f.body, depth + 1, out);
            push_line(out, depth, "}".to_owned());
            proof {
                assert(lines_view(out@) =~= start + spec_control_lines(control@, depth as nat));
            }
        },
        Control::Sequence(sq) => {
            proof {
                reveal_strlit("seq {");
                reveal_strlit("}");
            }
            push_line(out, depth, "seq {".to_owned());
            append_children_lines(&sq.children, depth + 1, out);
            push_line(out, depth, "}".to_owned());
            proof {
                assert(lines_view(out@) =~= start + spec_control_lines(control@, depth as nat));
            }
        },
        Control::Par(p) => {
            proof {
                reveal_strlit("par {");
                reveal_strlit("}");
            }
            push_line(out, depth, "par {".to_owned());
            append_children_lines(&p.children, depth + 1, out);
            push_line(out, depth, "}".to_owned());
            proof {
                assert(lines_view(out@) =~= start + spec_control_lines(control@, depth as nat));
            }
        },
        Control::IfElse(i) => {
            proof {
                reveal_strlit("if ");
                reveal_strlit(" {");
                reveal_strlit("} else {");
                reveal_strlit("}");
            }
            let mut header = "if ".to_owned();
            header.append(i.cond.to_text().as_str());
            header.append(" {");
            push_line(out, depth, header);
            append_child_lines(&i.true_branch, depth + 1, out);
            push_line(out, depth, "} else {".to_owned());
            append_child_lines(&i.false_branch, depth + 1, out);
            push_line(out, depth, "}".to_owned());
            proof {
                assert(lines_view(out@) =~= start + spec_control_lines(control@, depth as nat));
            }
        },
    }
}

/// Appends the lines of `control` as a child at `depth` (see
/// [`spec_child_lines`]).
fn append_child_lines(control: &Control, depth: usize, out: &mut Vec<Line>)
    requires
        depth + spec_nesting(control@) < usize::MAX,
    ensures
        lines_view(final(out)@) == lines_view(old(out)@) + spec_child_lines(control@, depth as nat),
    decreases control, 1nat,
{
    let ghost start = lines_view(out@);
    let before = out.len();
    append_control_lines(control, depth, out);
    proof {
        assert(lines_view(out@).len() == out@.len());
        assert(start.len() == before);
    }
    if out.len() == before {
        push_line(out, depth, String::new());
        proof {
            assert(spec_control_lines(control@, depth as nat).len() == 0);
            assert(lines_view(out@) =~= start + seq![(depth as nat, Seq::<char>::empty())]);
        }
    }
}

/// Appends the lines of each child of `children` in turn (see
/// [`spec_children_lines`]).
fn append_children_lines(children: &Vec<Control>, depth: usize, out: &mut Vec<Line>)
    requires
        depth + spec_nesting_all(controls_view(children@)) < usize::MAX,
    ensures
        lines_view(final(out)@) == lines_view(old(out)@) + spec_children_lines(
            controls_view(children@),
            depth as nat,
        ),
    decreases children@, 2nat,
{
    let ghost start = lines_view(out@);
    let n = children.len();
    let mut k: usize = 0;
    proof {
        lemma_controls_view(children@);
        assert(controls_view(children@).subrange(0, 0) =~= Seq::<ControlV>::empty());
        assert(start + Seq::<(nat, Seq<char>)>::empty() =~= start);
    }
    while k < n
        invariant
            0 <= k <= n,
            n == children@.len(),
            depth + spec_nesting_all(controls_view(children@)) < usize::MAX,
            controls_view(children@).len() == n,
            forall|j: int| 0 <= j < n ==> #[trigger] controls_view(children@)[j] == children@[j]@,
            lines_view(out@) == start + spec_children_lines(
                controls_view(children@).subrange(0, k as int),
                depth as nat,
            ),
        decreases n - k,
    {
        proof {
            assert(decreases_to!(children@ => children@[k as int]));
            let pre = controls_view(children@).subrange(0, k + 1);
            assert(pre.drop_last() =~= controls_view(children@).subrange(0, k as int));
            assert(pre.last() == children@[k as int]@);
            lemma_nesting_all(controls_view(children@), k as int);
        }
        append_child_lines(&children[k], depth, out);
        proof {
            let pre = controls_view(children@).subrange(0, k + 1);
            assert(lines_view(out@) =~= start + spec_children_lines(pre, depth as nat));
        }
        k = k + 1;
    }
    proof {
        assert(controls_view(children@).subrange(0, n as int) =~= controls_view(children@));
    }
}

impl Control {
    /// The lines that show this control tree at depth `depth` (see
    /// [`spec_control_lines`]).
    pub fn lines(&self, depth: usize) -> (result: Vec<Line>)
        requires
            depth + spec_nesting(self@) < usize::MAX,
        ensures
            lines_view(result@) == spec_control_lines(self@, depth as nat),
    {
        let mut out: Vec<Line> = Vec::new();
        proof {
            assert(lines_view(out@) =~= Seq::<(nat, Seq<char>)>::empty());
        }
        append_control_lines(self, depth, &mut out);
        proof {
            assert(Seq::<(nat, Seq<char>)>::empty() + spec_control_lines(self@, depth as nat)
                =~= spec_control_lines(self@, depth as nat));
        }
        out
    }
}

/// The nesting of `control` (see [`spec_nesting`]) when it fits in a
/// machine word, and `None` otherwise.
pub fn checked_nesting(control: &Control) -> (result: Option<usize>)
    ensures
        match result {
            Some(n) => n == spec_nesting(control@),
            None => spec_nesting(control@) > usize::MAX,
        },
    decreases control, 0nat,
{
    let inner = match control {
        Control::For(f) => checked_nesting(&f.body),
        Control::Sequence(sq) => checked_nesting_all(&sq.children),
        Control::Par(p) => checked_nesting_all(&p.children),
        Control::IfElse(i) => match (checked_nesting(&i.true_branch), checked_nesting(
            &i.false_branch,
        )) {
            (Some(t), Some(f)) => Some(
                if t >= f {
                    t
                } else {
                    f
                },
            ),
            _ => None,
        },
        _ => {
            return Some(0);
        },
    };
    match inner {
        Some(n) => if n < usize::MAX {
            Some(n + 1)
        } else {
            None
        },
        None => None,
    }
}

/// The largest nesting of the trees of `children` when it fits in a machine
/// word, and `None` otherwise.
pub fn checked_nesting_all(children: &Vec<Control>) -> (result: Option<usize>)
    ensures
        match result {
            Some(n) => n == spec_nesting_all(controls_view(children@)),
            None => spec_nesting_all(controls_view(children@)) > usize::MAX,
        },
    decreases children@, 1nat,
{
    let n = children.len();
    let mut k: usize = 0;
    let mut most: usize = 0;
    proof {
        lemma_controls_view(children@);
        assert(controls_view(children@).subrange(0, 0) =~= Seq::<ControlV>::empty());
    }
    while k < n
        invariant
            0 <= k <= n,
            n == children@.len(),
            controls_view(children@).len() == n,
            forall|j: int| 0 <= j < n ==> #[trigger] controls_view(children@)[j] == children@[j]@,
            most == spec_nesting_all(controls_view(children@).subrange(0, k as int)),
        decreases n - k,
    {
        proof {
            assert(decreases_to!(children@ => children@[k as int]));
            let pre = controls_view(children@).subrange(0, k + 1);
            assert(pre.drop_last() =~= controls_view(children@).subrange(0, k as int));
            assert(pre.last() == children@[k as int]@);
        }
        match checked_nesting(&children[k]) {
            Some(m) => {
                if m > most {
                    most = m;
                }
            },
            None => {
                proof {
                    lemma_nesting_all(controls_view(children@), k as int);
                }
                return None;
            },
        }
        k = k + 1;
    }
    proof {
        assert(controls_view(children@).subrange(0, n as int) =~= controls_view(children@));
    }
    Some(most)
}

} // verus!
