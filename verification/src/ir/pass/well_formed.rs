use crate::ir::cell::Cell;
use crate::ir::component::Component;
use crate::ir::control::{controls_view, lemma_controls_view, Control, ControlV};
use crate::ir::instr::{spec_gen, spec_kill, Ir, IrV};
use crate::ir::pass::PassOptions;
use crate::ir::port::{
    ports_view, spec_ports_used_all, spec_root_var, spec_vars_all, vars_all, Port, PortV, Variable,
};
use crate::ir::side_effect::contains_port;
use vstd::prelude::*;

verus! {

/// Why a component is not well formed.
#[derive(PartialEq, Eq, Structural)]
pub enum WellFormedError {
    /// An operation writes a constant.
    NotAnLvalue,
    /// Two operations in the same par write the same port.
    ParConflict,
    /// An output is never written.
    OutputNotAssigned(Variable),
    /// An output is read.
    OutputRead(Variable),
    /// An input is never read.
    InputNotRead(Variable),
    /// An input is written.
    InputWritten(Variable),
}

/// What the check has seen so far: the variables read and written, in
/// order, and for each enclosing par the ports written in it.
#[verifier::ext_equal]
pub struct WfState {
    pub reads: Seq<Variable>,
    pub writes: Seq<Variable>,
    pub scopes: Seq<Seq<PortV>>,
}

/// Whether `p` was written in one of the enclosing pars.
pub open spec fn taken(scopes: Seq<Seq<PortV>>, p: PortV) -> bool {
    exists|i: int| 0 <= i < scopes.len() && #[trigger] scopes[i].contains(p)
}

/// The check of one operation: it reads the variables of its read ports,
/// must not write a constant, writes the root variable of its written port,
/// and must not write a port already written in an enclosing par.
pub open spec fn spec_check_ir(ir: IrV, st: WfState) -> Result<WfState, WellFormedError> {
    let reads = st.reads + spec_vars_all(spec_ports_used_all(spec_gen(ir)));
    let kill = spec_kill(ir);
    if kill is Constant {
        Err(WellFormedError::NotAnLvalue)
    } else {
        let writes = match spec_root_var(kill) {
            Some(v) => st.writes.push(v),
            None => st.writes,
        };
        if st.scopes.len() == 0 {
            Ok(WfState { reads, writes, scopes: st.scopes })
        } else if taken(st.scopes, kill) {
            Err(WellFormedError::ParConflict)
        } else {
            let top = st.scopes.len() - 1;
            Ok(WfState { reads, writes, scopes: st.scopes.update(top, st.scopes[top].push(kill)) })
        }
    }
}

/// The check of a control tree, visited in order.
pub open spec fn spec_check(c: ControlV, st: WfState) -> Result<WfState, WellFormedError>
    decreases c,
{
    match c {
        ControlV::Enable(ir) => spec_check_ir(ir, st),
        ControlV::Sequence(cs) => spec_check_all(cs, st),
        ControlV::Par(cs) => match spec_check_all(
            cs,
            WfState { scopes: st.scopes.push(Seq::empty()), ..st },
        ) {
            Ok(inner) => Ok(WfState { scopes: inner.scopes.drop_last(), ..inner }),
            Err(e) => Err(e),
        },
        ControlV::For(_, _, _, body) => spec_check(*body, st),
        ControlV::IfElse(_, t, f) => match spec_check(*t, st) {
            Ok(mid) => spec_check(*f, mid),
            Err(e) => Err(e),
        },
        _ => Ok(st),
    }
}

/// The check of each of `cs`, in order.
pub open spec fn spec_check_all(cs: Seq<ControlV>, st: WfState) -> Result<WfState, WellFormedError>
    decreases cs,
{
    if cs.len() == 0 {
        Ok(st)
    } else {
        match spec_check_all(cs.drop_last(), st) {
            Ok(mid) => spec_check(cs.last(), mid),
            Err(e) => Err(e),
        }
    }
}

/// The check of the interface: each output is written and never read, then
/// each input is read and never written; the first failure is the error.
pub open spec fn spec_check_interface(
    outputs: Seq<Variable>,
    inputs: Seq<Variable>,
    reads: Seq<Variable>,
    writes: Seq<Variable>,
) -> Result<(), WellFormedError>
    decreases outputs.len() + inputs.len(),
{
    if outputs.len() > 0 {
        let v = outputs[0];
        if !writes.contains(v) {
            Err(WellFormedError::OutputNotAssigned(v))
        } else if reads.contains(v) {
            Err(WellFormedError::OutputRead(v))
        } else {
            spec_check_interface(outputs.drop_first(), inputs, reads, writes)
        }
    } else if inputs.len() > 0 {
        let v = inputs[0];
        if !reads.contains(v) {
            Err(WellFormedError::InputNotRead(v))
        } else if writes.contains(v) {
            Err(WellFormedError::InputWritten(v))
        } else {
            spec_check_interface(outputs, inputs.drop_first(), reads, writes)
        }
    } else {
        Ok(())
    }
}

/// The variables of an interface, in order.
pub open spec fn interface_vars(entries: Seq<(Variable, Cell)>) -> Seq<Variable> {
    entries.map_values(|e: (Variable, Cell)| e.0)
}

/// Whether a component is well formed: its control checks (see
/// [`spec_check`]), starting outside any par, and then its interface does.
pub open spec fn spec_well_formed(
    cfg: ControlV,
    inputs: Seq<(Variable, Cell)>,
    outputs: Seq<(Variable, Cell)>,
) -> Result<(), WellFormedError> {
    match spec_check(cfg, WfState { reads: Seq::empty(), writes: Seq::empty(), scopes: Seq::empty() }) {
        Ok(st) => spec_check_interface(
            interface_vars(outputs),
            interface_vars(inputs),
            st.reads,
            st.writes,
        ),
        Err(e) => Err(e),
    }
}

/// The state of the check as exec values.
struct Checker {
    reads: Vec<Variable>,
    writes: Vec<Variable>,
    scopes: Vec<Vec<Port>>,
}

impl Checker {
    spec fn state(&self) -> WfState {
        WfState {
            reads: self.reads@,
            writes: self.writes@,
            scopes: Seq::new(self.scopes@.len(), |i: int| ports_view(self.scopes@[i]@)),
        }
    }
}

/// Whether `v` is among `vars`.
fn contains_var(vars: &Vec<Variable>, v: Variable) -> (result: bool)
    ensures
        result == vars@.contains(v),
{
    let n = vars.len();
    let mut i: usize = 0;
    while i < n
        invariant
            0 <= i <= n,
            n == vars@.len(),
            forall|j: int| 0 <= j < i ==> vars@[j] != v,
        decreases n - i,
    {
        if vars[i] == v {
            return true;
        }
        i = i + 1;
    }
    false
}

/// Whether `p` was written in one of the enclosing pars.
fn is_taken(scopes: &Vec<Vec<Port>>, p: &Port) -> (result: bool)
    ensures
        result == taken(Seq::new(scopes@.len(), |i: int| ports_view(scopes@[i]@)), p@),
{
    let ghost sv = Seq::new(scopes@.len(), |i: int| ports_view(scopes@[i]@));
    let n = scopes.len();
    let mut i: usize = 0;
    while i < n
        invariant
            0 <= i <= n,
            n == scopes@.len(),
            sv == Seq::new(scopes@.len(), |i: int| ports_view(scopes@[i]@)),
            forall|j: int| 0 <= j < i ==> !sv[j].contains(p@),
        decreases n - i,
    {
        if contains_port(&scopes[i], p) {
            proof {
                assert(sv[i as int].contains(p@));
            }
            return true;
        }
        i = i + 1;
    }
    false
}

/// Checks one operation (see [`spec_check_ir`]).
fn check_ir(ir: &Ir, st: &mut Checker) -> (result: Result<(), WellFormedError>)
    ensures
        match result {
            Ok(()) => spec_check_ir(ir@, old(st).state()) == Ok::<WfState, WellFormedError>(
                final(st).state(),
            ) && final(st).scopes@.len() == old(st).scopes@.len(),
            Err(e) => spec_check_ir(ir@, old(st).state()) == Err::<WfState, WellFormedError>(e),
        },
{
    let used = ir.gen_used();
    let mut vars = vars_all(&used);
    let ghost reads0 = st.reads@;
    st.reads.append(&mut vars);
    let kill = ir.kill();
    match kill {
        Port::Constant(_) => {
            return Err(WellFormedError::NotAnLvalue);
        },
        _ => {},
    }
    match ir.kill_var() {
        Some(v) => {
            st.writes.push(v);
        },
        None => {},
    }
    let ghost sv = Seq::new(st.scopes@.len(), |i: int| ports_view(st.scopes@[i]@));
    if st.scopes.len() == 0 {
        proof {
            assert(st.state().scopes =~= old(st).state().scopes);
        }
        Ok(())
    } else if is_taken(&st.scopes, kill) {
        Err(WellFormedError::ParConflict)
    } else {
        let top = st.scopes.len() - 1;
        let mut last = st.scopes.pop().unwrap();
        let ghost before = last@;
        last.push(kill.duplicate());
        st.scopes.push(last);
        proof {
            assert(last@.drop_last() =~= before);
            assert(st.state().scopes =~= sv.update(top as int, sv[top as int].push(kill@)));
        }
        Ok(())
    }
}

/// Checks a control tree (see [`spec_check`]).
fn check(control: &Control, st: &mut Checker) -> (result: Result<(), WellFormedError>)
    ensures
        match result {
            Ok(()) => spec_check(control@, old(st).state()) == Ok::<WfState, WellFormedError>(
                final(st).state(),
            ) && final(st).scopes@.len() == old(st).scopes@.len(),
            Err(e) => spec_check(control@, old(st).state()) == Err::<WfState, WellFormedError>(e),
        },
    decreases *control,
{
    match control {
        Control::Enable(ir) => check_ir(ir, st),
        Control::Sequence(seq) => check_all(&seq.children, st),
        Control::Par(par) => {
            let ghost st0 = st.state();
            st.scopes.push(Vec::new());
            proof {
                assert(ports_view(Seq::<Port>::empty()) =~= Seq::<PortV>::empty());
                assert(st.state() =~= WfState { scopes: st0.scopes.push(Seq::empty()), ..st0 });
            }
            match check_all(&par.children, st) {
                Ok(()) => {
                    let ghost inner = st.state();
                    let ghost inner_scopes = st.scopes@;
                    st.scopes.pop();
                    proof {
                        assert(st.scopes@ =~= inner_scopes.drop_last());
                        assert(st.state().scopes =~= inner.scopes.drop_last());
                        assert(st.state() =~= WfState { scopes: inner.scopes.drop_last(), ..inner });
                    }
                    Ok(())
                },
                Err(e) => Err(e),
            }
        },
        Control::For(for_) => check(&for_.body, st),
        Control::IfElse(if_else) => match check(&if_else.true_branch, st) {
            Ok(()) => check(&if_else.false_branch, st),
            Err(e) => Err(e),
        },
        _ => Ok(()),
    }
}

/// Checks each of `children`, in order.
fn check_all(children: &Vec<Control>, st: &mut Checker) -> (result: Result<(), WellFormedError>)
    ensures
        match result {
            Ok(()) => spec_check_all(controls_view(children@), old(st).state()) == Ok::<
                WfState,
                WellFormedError,
            >(final(st).state()) && final(st).scopes@.len() == old(st).scopes@.len(),
            Err(e) => spec_check_all(controls_view(children@), old(st).state()) == Err::<
                WfState,
                WellFormedError,
            >(e),
        },
    decreases children@,
{
    let ghost cs = controls_view(children@);
    let ghost st0 = st.state();
    proof {
        lemma_controls_view(children@);
    }
    let n = children.len();
    let mut i: usize = 0;
    while i < n
        invariant
            0 <= i <= n,
            n == children@.len(),
            cs == controls_view(children@),
            cs.len() == n,
            forall|j: int| 0 <= j < n ==> #[trigger] cs[j] == children@[j]@,
            spec_check_all(cs.subrange(0, i as int), st0) == Ok::<WfState, WellFormedError>(
                st.state(),
            ),
            st0 == old(st).state(),
            st.scopes@.len() == old(st).scopes@.len(),
        decreases n - i,
    {
        proof {
            assert(decreases_to!(children@ => children@[i as int]));
            assert(cs.subrange(0, i + 1).drop_last() =~= cs.subrange(0, i as int));
            assert(cs.subrange(0, i + 1).last() == cs[i as int]);
        }
        match check(&children[i], st) {
            Ok(()) => {},
            Err(e) => {
                proof {
                    lemma_check_all_err(cs, i as int, st0, e);
                }
                return Err(e);
            },
        }
        i = i + 1;
    }
    proof {
        assert(cs.subrange(0, n as int) =~= cs);
    }
    Ok(())
}

/// Once a prefix fails the check with `e`, the whole list does.
proof fn lemma_check_all_err(cs: Seq<ControlV>, i: int, st: WfState, e: WellFormedError)
    requires
        0 <= i < cs.len(),
        spec_check_all(cs.subrange(0, i + 1), st) == Err::<WfState, WellFormedError>(e),
    ensures
        spec_check_all(cs, st) == Err::<WfState, WellFormedError>(e),
    decreases cs.len(),
{
    if i + 1 < cs.len() {
        assert(cs.drop_last().subrange(0, i + 1) =~= cs.subrange(0, i + 1));
        lemma_check_all_err(cs.drop_last(), i, st, e);
    } else {
        assert(cs.subrange(0, i + 1) =~= cs);
    }
}

/// Checks the interface (see [`spec_check_interface`]).
fn check_interface(comp: &Component, reads: &Vec<Variable>, writes: &Vec<Variable>) -> (result:
    Result<(), WellFormedError>)
    ensures
        result == spec_check_interface(
            interface_vars(comp.outputs@),
            interface_vars(comp.inputs@),
            reads@,
            writes@,
        ),
{
    let ghost outs = interface_vars(comp.outputs@);
    let ghost ins = interface_vars(comp.inputs@);
    let n = comp.outputs.len();
    let mut i: usize = 0;
    proof {
        assert(outs.subrange(0, n as int) =~= outs);
    }
    while i < n
        invariant
            0 <= i <= n,
            n == comp.outputs@.len(),
            outs == interface_vars(comp.outputs@),
            ins == interface_vars(comp.inputs@),
            spec_check_interface(outs, ins, reads@, writes@) == spec_check_interface(
                outs.subrange(i as int, n as int),
                ins,
                reads@,
                writes@,
            ),
        decreases n - i,
    {
        let v = comp.outputs[i].0;
        let ghost rest = outs.subrange(i as int, n as int);
        proof {
            assert(rest[0] == v);
            assert(rest.drop_first() =~= outs.subrange(i + 1, n as int));
        }
        if !contains_var(writes, v) {
            return Err(WellFormedError::OutputNotAssigned(v));
        }
        if contains_var(reads, v) {
            return Err(WellFormedError::OutputRead(v));
        }
        i = i + 1;
    }
    let m = comp.inputs.len();
    let mut j: usize = 0;
    proof {
        assert(outs.subrange(n as int, n as int) =~= Seq::<Variable>::empty());
        assert(ins.subrange(0, m as int) =~= ins);
    }
    while j < m
        invariant
            0 <= j <= m,
            m == comp.inputs@.len(),
            ins == interface_vars(comp.inputs@),
            outs == interface_vars(comp.outputs@),
            spec_check_interface(outs, ins, reads@, writes@) == spec_check_interface(
                Seq::empty(),
                ins.subrange(j as int, m as int),
                reads@,
                writes@,
            ),
        decreases m - j,
    {
        let v = comp.inputs[j].0;
        let ghost rest = ins.subrange(j as int, m as int);
        proof {
            assert(rest[0] == v);
            assert(rest.drop_first() =~= ins.subrange(j + 1, m as int));
            assert(Seq::<Variable>::empty().len() == 0);
            assert(rest.len() > 0);
        }
        if !contains_var(reads, v) {
            proof {
                assert(spec_check_interface(Seq::<Variable>::empty(), rest, reads@, writes@) == Err::<
                    (),
                    WellFormedError,
                >(WellFormedError::InputNotRead(v)));
            }
            return Err(WellFormedError::InputNotRead(v));
        }
        if contains_var(writes, v) {
            return Err(WellFormedError::InputWritten(v));
        }
        j = j + 1;
    }
    Ok(())
}

/// Checks the invariants every other pass relies on: every output is
/// written and never read, every input is read and never written, no
/// operation writes a constant, and no port is written twice within a par.
pub struct WellFormed;

impl WellFormed {
    /// The pass; it takes no options.
    pub fn from(_options: PassOptions) -> (result: Self) {
        WellFormed
    }

    /// The name of the pass.
    pub fn name() -> (result: &'static str)
        ensures
            result@ == "well-formed"@,
    {
        "well-formed"
    }

    /// Checks `comp` (see [`spec_well_formed`]); it changes nothing.
    pub fn run(&self, comp: &Component) -> (result: Result<(), WellFormedError>)
        ensures
            result == spec_well_formed(comp.cfg@, comp.inputs@, comp.outputs@),
    {
        let mut st = Checker { reads: Vec::new(), writes: Vec::new(), scopes: Vec::new() };
        proof {
            assert(st.state() =~= WfState {
                reads: Seq::empty(),
                writes: Seq::empty(),
                scopes: Seq::empty(),
            });
        }
        match check(&comp.cfg, &mut st) {
            Ok(()) => check_interface(comp, &st.reads, &st.writes),
            Err(e) => Err(e),
        }
    }
}

/// Whether the par scopes `b` hold at least what `a` holds, scope by scope.
pub open spec fn scopes_grow(a: Seq<Seq<PortV>>, b: Seq<Seq<PortV>>) -> bool {
    &&& b.len() == a.len()
    &&& forall|i: int, p: PortV| 0 <= i < a.len() && #[trigger] a[i].contains(p) ==> b[i].contains(p)
}

/// Checking never forgets a port written in an enclosing par.
proof fn lemma_check_grows(c: ControlV, st: WfState)
    ensures
        spec_check(c, st) matches Ok(st2) ==> scopes_grow(st.scopes, st2.scopes),
    decreases c,
{
    match c {
        ControlV::Enable(ir) => {
            if let Ok(st2) = spec_check(c, st) {
                if st.scopes.len() > 0 {
                    let top = st.scopes.len() - 1;
                    assert forall|i: int, p: PortV| 0 <= i < st.scopes.len() && #[trigger] st.scopes[i].contains(p)
                        implies st2.scopes[i].contains(p) by {
                        if i == top {
                            assert(st.scopes[top].push(spec_kill(ir)).contains(p)) by {
                                let k = choose|k: int| 0 <= k < st.scopes[top].len() && st.scopes[top][k] == p;
                                assert(st.scopes[top].push(spec_kill(ir))[k] == p);
                            }
                        }
                    }
                }
            }
        },
        ControlV::Sequence(cs) => lemma_check_all_grows(cs, st),
        ControlV::Par(cs) => {
            let inner_st = WfState { scopes: st.scopes.push(Seq::empty()), ..st };
            lemma_check_all_grows(cs, inner_st);
            if let Ok(inner) = spec_check_all(cs, inner_st) {
                assert forall|i: int, p: PortV| 0 <= i < st.scopes.len() && #[trigger] st.scopes[i].contains(p)
                    implies inner.scopes.drop_last()[i].contains(p) by {
                    assert(inner_st.scopes[i] == st.scopes[i]);
                }
            }
        },
        ControlV::For(_, _, _, body) => lemma_check_grows(*body, st),
        ControlV::IfElse(_, t, f) => {
            lemma_check_grows(*t, st);
            if let Ok(mid) = spec_check(*t, st) {
                lemma_check_grows(*f, mid);
            }
        },
        _ => {},
    }
}

/// [`lemma_check_grows`] for a list of children.
proof fn lemma_check_all_grows(cs: Seq<ControlV>, st: WfState)
    ensures
        spec_check_all(cs, st) matches Ok(st2) ==> scopes_grow(st.scopes, st2.scopes),
    decreases cs,
{
    if cs.len() > 0 {
        lemma_check_all_grows(cs.drop_last(), st);
        if let Ok(mid) = spec_check_all(cs.drop_last(), st) {
            lemma_check_grows(cs.last(), mid);
        }
    }
}

/// Checking a list succeeds on each of its prefixes when it succeeds on the
/// whole, and later prefixes hold at least what earlier ones hold.
proof fn lemma_check_prefixes(cs: Seq<ControlV>, st: WfState, k1: int, k2: int)
    requires
        0 <= k1 <= k2 <= cs.len(),
        spec_check_all(cs, st) is Ok,
    ensures
        spec_check_all(cs.subrange(0, k1), st) is Ok,
        spec_check_all(cs.subrange(0, k2), st) is Ok,
        scopes_grow(
            spec_check_all(cs.subrange(0, k1), st)->Ok_0.scopes,
            spec_check_all(cs.subrange(0, k2), st)->Ok_0.scopes,
        ),
    decreases cs.len(),
{
    if k2 == cs.len() {
        assert(cs.subrange(0, k2) =~= cs);
        if k1 == k2 {
        } else {
            lemma_check_prefixes(cs.drop_last(), st, k1, k2 - 1);
            assert(cs.subrange(0, k1) =~= cs.drop_last().subrange(0, k1));
            assert(cs.drop_last().subrange(0, k2 - 1) =~= cs.drop_last());
            let mid = spec_check_all(cs.drop_last(), st)->Ok_0;
            lemma_check_grows(cs.last(), mid);
        }
    } else {
        lemma_check_prefixes(cs.drop_last(), st, k1, k2);
        assert(cs.subrange(0, k1) =~= cs.drop_last().subrange(0, k1));
        assert(cs.subrange(0, k2) =~= cs.drop_last().subrange(0, k2));
    }
}

/// Two operations directly in one par that write the same port make the
/// component ill-formed: checking the par fails.
pub proof fn law_par_conflict_rejected(cs: Seq<ControlV>, st: WfState, i: int, j: int)
    requires
        0 <= i < j < cs.len(),
        cs[i] matches ControlV::Enable(a) && cs[j] matches ControlV::Enable(b) && spec_kill(a) == spec_kill(b),
    ensures
        spec_check(ControlV::Par(cs), st) is Err,
{
    let inner_st = WfState { scopes: st.scopes.push(Seq::empty()), ..st };
    if spec_check_all(cs, inner_st) is Ok {
        lemma_check_prefixes(cs, inner_st, i, i + 1);
        lemma_check_prefixes(cs, inner_st, i + 1, j);
        lemma_check_prefixes(cs, inner_st, j, j + 1);
        lemma_check_all_grows(cs.subrange(0, i), inner_st);
        lemma_check_all_grows(cs.subrange(0, j), inner_st);
        let mi = spec_check_all(cs.subrange(0, i), inner_st)->Ok_0;
        let mi1 = spec_check_all(cs.subrange(0, i + 1), inner_st)->Ok_0;
        let mj = spec_check_all(cs.subrange(0, j), inner_st)->Ok_0;
        assert(cs.subrange(0, i + 1).drop_last() =~= cs.subrange(0, i));
        assert(cs.subrange(0, j + 1).drop_last() =~= cs.subrange(0, j));
        assert(cs.subrange(0, i + 1).last() == cs[i]);
        assert(cs.subrange(0, j + 1).last() == cs[j]);
        let kill = spec_kill(cs[i]->Enable_0);
        let top = mi.scopes.len() - 1;
        assert(mi.scopes.len() == inner_st.scopes.len());
        assert(spec_check_all(cs.subrange(0, i + 1), inner_st) == spec_check(cs[i], mi));
        assert(spec_check(cs[i], mi) == spec_check_ir(cs[i]->Enable_0, mi));
        assert(mi1.scopes[top] == mi.scopes[top].push(kill));
        assert(mi1.scopes[top].contains(kill)) by {
            assert(mi1.scopes[top][mi.scopes[top].len() as int] == kill);
        }
        assert(mj.scopes[top].contains(kill));
        assert(taken(mj.scopes, kill));
        assert(spec_check_all(cs.subrange(0, j + 1), inner_st) == spec_check(cs[j], mj));
        assert(spec_check(cs[j], mj) == spec_check_ir(cs[j]->Enable_0, mj));
        assert(spec_kill(cs[j]->Enable_0) == kill);
        assert(spec_check_ir(cs[j]->Enable_0, mj) is Err);
    }
}

/// The interface passes exactly when every output is written and never
/// read, and every input is read and never written; when it fails, the
/// error names a variable of the interface that breaks this.
pub proof fn law_interface_checks_each_variable(
    outputs: Seq<Variable>,
    inputs: Seq<Variable>,
    reads: Seq<Variable>,
    writes: Seq<Variable>,
)
    ensures
        spec_check_interface(outputs, inputs, reads, writes) is Ok <==> (forall|i: int|
            0 <= i < outputs.len() ==> writes.contains(#[trigger] outputs[i]) && !reads.contains(outputs[i]))
            && (forall|i: int|
            0 <= i < inputs.len() ==> reads.contains(#[trigger] inputs[i]) && !writes.contains(inputs[i])),
        match spec_check_interface(outputs, inputs, reads, writes) {
            Err(WellFormedError::OutputNotAssigned(v)) => outputs.contains(v) && !writes.contains(v),
            Err(WellFormedError::OutputRead(v)) => outputs.contains(v) && reads.contains(v),
            Err(WellFormedError::InputNotRead(v)) => inputs.contains(v) && !reads.contains(v),
            Err(WellFormedError::InputWritten(v)) => inputs.contains(v) && writes.contains(v),
            Err(_) => false,
            Ok(()) => true,
        },
    decreases outputs.len() + inputs.len(),
{
    if outputs.len() > 0 {
        let v = outputs[0];
        assert(outputs.contains(v));
        if writes.contains(v) && !reads.contains(v) {
            let rest = outputs.drop_first();
            law_interface_checks_each_variable(rest, inputs, reads, writes);
            assert forall|i: int| 0 <= i < rest.len() implies #[trigger] rest[i] == outputs[i + 1] by {}
            if let Err(e) = spec_check_interface(rest, inputs, reads, writes) {
                match e {
                    WellFormedError::OutputNotAssigned(w) => {
                        let k = choose|k: int| 0 <= k < rest.len() && rest[k] == w;
                        assert(outputs[k + 1] == w);
                    },
                    WellFormedError::OutputRead(w) => {
                        let k = choose|k: int| 0 <= k < rest.len() && rest[k] == w;
                        assert(outputs[k + 1] == w);
                    },
                    _ => {},
                }
            }
            if (forall|i: int|
                0 <= i < rest.len() ==> writes.contains(#[trigger] rest[i]) && !reads.contains(rest[i])) {
                assert forall|i: int| 0 <= i < outputs.len() implies writes.contains(#[trigger] outputs[i])
                    && !reads.contains(outputs[i]) by {
                    if i > 0 {
                        assert(outputs[i] == rest[i - 1]);
                    }
                }
            }
        }
    } else if inputs.len() > 0 {
        let v = inputs[0];
        assert(inputs.contains(v));
        if reads.contains(v) && !writes.contains(v) {
            let rest = inputs.drop_first();
            law_interface_checks_each_variable(outputs, rest, reads, writes);
            assert forall|i: int| 0 <= i < rest.len() implies #[trigger] rest[i] == inputs[i + 1] by {}
            if let Err(e) = spec_check_interface(outputs, rest, reads, writes) {
                match e {
                    WellFormedError::InputNotRead(w) => {
                        let k = choose|k: int| 0 <= k < rest.len() && rest[k] == w;
                        assert(inputs[k + 1] == w);
                    },
                    WellFormedError::InputWritten(w) => {
                        let k = choose|k: int| 0 <= k < rest.len() && rest[k] == w;
                        assert(inputs[k + 1] == w);
                    },
                    _ => {},
                }
            }
            if (forall|i: int|
                0 <= i < rest.len() ==> reads.contains(#[trigger] rest[i]) && !writes.contains(rest[i])) {
                assert forall|i: int| 0 <= i < inputs.len() implies reads.contains(#[trigger] inputs[i])
                    && !writes.contains(inputs[i]) by {
                    if i > 0 {
                        assert(inputs[i] == rest[i - 1]);
                    }
                }
            }
        }
    }
}

} // verus!
