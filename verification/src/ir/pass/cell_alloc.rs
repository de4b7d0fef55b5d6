use crate::ir::cell::{Cell, CellV};
use crate::ir::component::Component;
use crate::ir::control::{controls_view, lemma_controls_view, Control, ControlV};
use crate::ir::instr::{spec_kill, Ir, IrV};
use crate::ir::memory::{min_bits_to_represent, spec_min_bits};
use crate::ir::pass::PassOptions;
use crate::ir::port::{Port, PortV, Variable};
use vstd::prelude::*;

verus! {

/// The width of the register of a loop's variable: enough bits for a
/// constant upper bound, taken as a machine word, and 64 otherwise.
pub open spec fn index_bits(upper: PortV) -> usize {
    match upper {
        PortV::Constant(value) => spec_min_bits((value as usize) as nat) as usize,
        _ => 64,
    }
}

/// The registers for the variables that the operations among `cs` write
/// directly.
pub open spec fn kill_allocs(cs: Seq<ControlV>) -> Seq<(Variable, CellV)>
    decreases cs.len(),
{
    if cs.len() == 0 {
        Seq::empty()
    } else {
        kill_allocs(cs.drop_last()) + match cs.last() {
            ControlV::Enable(ir) => match spec_kill(ir) {
                PortV::Variable(var) => seq![(var, CellV::Register(64))],
                _ => Seq::empty(),
            },
            _ => Seq::empty(),
        }
    }
}

/// The cells allocated for a control tree, in the order of allocation (a
/// later allocation of a variable replaces an earlier one): a register for
/// each loop variable, and a 64-bit register for each variable written
/// directly in a sequence.
pub open spec fn spec_allocs(c: ControlV) -> Seq<(Variable, CellV)>
    decreases c,
{
    match c {
        ControlV::For(v, _, u, body) => seq![(v, CellV::Register(index_bits(u)))] + spec_allocs(
            *body,
        ),
        ControlV::Sequence(cs) => kill_allocs(cs) + spec_allocs_all(cs),
        ControlV::Par(cs) => spec_allocs_all(cs),
        ControlV::IfElse(_, t, f) => spec_allocs(*t) + spec_allocs(*f),
        _ => Seq::empty(),
    }
}

/// [`spec_allocs`] of each of `cs`, in order.
pub open spec fn spec_allocs_all(cs: Seq<ControlV>) -> Seq<(Variable, CellV)>
    decreases cs,
{
    if cs.len() == 0 {
        Seq::empty()
    } else {
        spec_allocs_all(cs.drop_last()) + spec_allocs(cs.last())
    }
}

/// Whether a control tree has a sequence (the pass reports each as a
/// modification).
pub open spec fn has_sequence(c: ControlV) -> bool
    decreases c,
{
    match c {
        ControlV::Sequence(_) => true,
        ControlV::For(_, _, _, body) => has_sequence(*body),
        ControlV::Par(cs) => has_sequence_all(cs),
        ControlV::IfElse(_, t, f) => has_sequence(*t) || has_sequence(*f),
        _ => false,
    }
}

/// Whether any of `cs` has a sequence.
pub open spec fn has_sequence_all(cs: Seq<ControlV>) -> bool
    decreases cs,
{
    if cs.len() == 0 {
        false
    } else {
        has_sequence_all(cs.drop_last()) || has_sequence(cs.last())
    }
}

/// `cells` with the allocations made in order.
pub open spec fn apply_allocs(cells: Map<Variable, CellV>, allocs: Seq<(Variable, CellV)>) -> Map<
    Variable,
    CellV,
>
    decreases allocs.len(),
{
    if allocs.len() == 0 {
        cells
    } else {
        apply_allocs(cells, allocs.drop_last()).insert(allocs.last().0, allocs.last().1)
    }
}

/// Allocations as values.
pub open spec fn allocs_view(allocs: Seq<(Variable, Cell)>) -> Seq<(Variable, CellV)> {
    allocs.map_values(|e: (Variable, Cell)| (e.0, e.1@))
}

proof fn lemma_allocs_view_push(allocs: Seq<(Variable, Cell)>, e: (Variable, Cell))
    ensures
        allocs_view(allocs.push(e)) == allocs_view(allocs).push((e.0, e.1@)),
{
    assert(allocs_view(allocs.push(e)) =~= allocs_view(allocs).push((e.0, e.1@)));
}

/// Adds the registers of the variables that the operations among `children`
/// write directly.
fn collect_kill_allocs(children: &Vec<Control>, out: &mut Vec<(Variable, Cell)>)
    ensures
        allocs_view(final(out)@) == allocs_view(old(out)@) + kill_allocs(controls_view(children@)),
{
    let ghost cs = controls_view(children@);
    proof {
        lemma_controls_view(children@);
        assert(allocs_view(old(out)@) + kill_allocs(cs.subrange(0, 0)) =~= allocs_view(old(out)@));
    }
    let n = children.len();
    let mut i: usize = 0;
    while i < n
        invariant
            0 <= i <= n,
            n == children@.len(),
            cs == controls_view(children@),
            cs.len() == n,
            forall|j: int| 0 <= j < n ==> #[trigger] cs[j] == children@[j]@,
            allocs_view(out@) == allocs_view(old(out)@) + kill_allocs(cs.subrange(0, i as int)),
        decreases n - i,
    {
        let ghost before = out@;
        proof {
            assert(cs.subrange(0, i + 1).drop_last() =~= cs.subrange(0, i as int));
            assert(cs.subrange(0, i + 1).last() == cs[i as int]);
        }
        match &children[i] {
            Control::Enable(ir) => match ir.kill() {
                Port::Variable(var) => {
                    out.push((*var, Cell::Register(64)));
                    proof {
                        lemma_allocs_view_push(before, (*var, Cell::Register(64)));
                        assert(allocs_view(out@) =~= allocs_view(old(out)@) + kill_allocs(
                            cs.subrange(0, i + 1),
                        ));
                    }
                },
                _ => {
                    proof {
                        assert(allocs_view(out@) =~= allocs_view(old(out)@) + kill_allocs(
                            cs.subrange(0, i + 1),
                        ));
                    }
                },
            },
            _ => {
                proof {
                    assert(allocs_view(out@) =~= allocs_view(old(out)@) + kill_allocs(
                        cs.subrange(0, i + 1),
                    ));
                }
            },
        }
        i = i + 1;
    }
    proof {
        assert(cs.subrange(0, n as int) =~= cs);
    }
}

/// Adds the allocations of a control tree (see [`spec_allocs`]) and says
/// whether it has a sequence.
pub fn collect_allocs(control: &Control, out: &mut Vec<(Variable, Cell)>) -> (result: bool)
    ensures
        allocs_view(final(out)@) == allocs_view(old(out)@) + spec_allocs(control@),
        result == has_sequence(control@),
    decreases *control,
{
    match control {
        Control::For(for_) => {
            let bits = match &for_.exclusive_upper {
                Port::Constant(value) => min_bits_to_represent(*value as usize),
                _ => 64,
            };
            let ghost before = out@;
            out.push((for_.variant, Cell::Register(bits)));
            proof {
                lemma_allocs_view_push(before, (for_.variant, Cell::Register(bits)));
            }
            let ghost mid = out@;
            let r = collect_allocs(&for_.body, out);
            proof {
                assert(allocs_view(out@) =~= allocs_view(old(out)@) + spec_allocs(control@));
            }
            r
        },
        Control::Sequence(seq) => {
            let ghost start = out@;
            collect_kill_allocs(&seq.children, out);
            let ghost mid = out@;
            collect_allocs_all(&seq.children, out);
            proof {
                assert(allocs_view(out@) =~= allocs_view(start) + spec_allocs(control@));
            }
            true
        },
        Control::Par(par) => collect_allocs_all(&par.children, out),
        Control::IfElse(if_else) => {
            let ghost start = out@;
            let a = collect_allocs(&if_else.true_branch, out);
            let b = collect_allocs(&if_else.false_branch, out);
            proof {
                assert(allocs_view(out@) =~= allocs_view(start) + spec_allocs(control@));
            }
            a || b
        },
        _ => {
            proof {
                assert(allocs_view(out@) =~= allocs_view(old(out)@) + spec_allocs(control@));
            }
            false
        },
    }
}

/// Adds the allocations of each of `children`, in order, and says whether
/// any has a sequence.
pub fn collect_allocs_all(children: &Vec<Control>, out: &mut Vec<(Variable, Cell)>) -> (result:
    bool)
    ensures
        allocs_view(final(out)@) == allocs_view(old(out)@) + spec_allocs_all(
            controls_view(children@),
        ),
        result == has_sequence_all(controls_view(children@)),
    decreases children@,
{
    let ghost cs = controls_view(children@);
    proof {
        lemma_controls_view(children@);
        assert(allocs_view(old(out)@) + spec_allocs_all(cs.subrange(0, 0)) =~= allocs_view(
            old(out)@,
        ));
    }
    let n = children.len();
    let mut i: usize = 0;
    let mut any = false;
    while i < n
        invariant
            0 <= i <= n,
            n == children@.len(),
            cs == controls_view(children@),
            cs.len() == n,
            forall|j: int| 0 <= j < n ==> #[trigger] cs[j] == children@[j]@,
            allocs_view(out@) == allocs_view(old(out)@) + spec_allocs_all(cs.subrange(0, i as int)),
            any == has_sequence_all(cs.subrange(0, i as int)),
        decreases n - i,
    {
        proof {
            assert(decreases_to!(children@ => children@[i as int]));
            assert(cs.subrange(0, i + 1).drop_last() =~= cs.subrange(0, i as int));
            assert(cs.subrange(0, i + 1).last() == cs[i as int]);
        }
        let ghost before = out@;
        let s = collect_allocs(&children[i], out);
        any = any || s;
        proof {
            assert(allocs_view(out@) =~= allocs_view(old(out)@) + spec_allocs_all(
                cs.subrange(0, i + 1),
            ));
        }
        i = i + 1;
    }
    proof {
        assert(cs.subrange(0, n as int) =~= cs);
    }
    any
}

/// Allocates registers: one for each loop variable, sized for its bound, and
/// a 64-bit one for each variable written directly in a sequence.
pub struct CellAlloc;

impl CellAlloc {
    /// The pass; it takes no options.
    pub fn from(_options: PassOptions) -> (result: Self) {
        CellAlloc
    }

    /// The name of the pass.
    pub fn name() -> (result: &'static str)
        ensures
            result@ == "cell-alloc"@,
    {
        "cell-alloc"
    }

    /// Allocates the registers of the control of `comp` and says whether it
    /// has a sequence.
    pub fn run(&self, comp: &mut Component) -> (result: bool)
        requires
            old(comp).wf(),
        ensures
            final(comp).wf(),
            final(comp).spec_cells() == apply_allocs(old(comp).spec_cells(), spec_allocs(old(comp).cfg@)),
            result == has_sequence(old(comp).cfg@),
            final(comp).cfg == old(comp).cfg,
            final(comp).label == old(comp).label,
            final(comp).attributes == old(comp).attributes,
            final(comp).inputs@ == old(comp).inputs@,
            final(comp).outputs@ == old(comp).outputs@,
    {
        let mut allocs: Vec<(Variable, Cell)> = Vec::new();
        proof {
            assert(allocs_view(allocs@) =~= Seq::<(Variable, CellV)>::empty());
        }
        let modified = collect_allocs(&comp.cfg, &mut allocs);
        let ghost all = allocs_view(allocs@);
        proof {
            assert(all =~= spec_allocs(comp.cfg@));
        }
        let ghost cells0 = comp.spec_cells();
        let n = allocs.len();
        let mut i: usize = 0;
        while i < n
            invariant
                0 <= i <= n,
                n == allocs@.len(),
                all == allocs_view(allocs@),
                comp.wf(),
                comp.spec_cells() == apply_allocs(cells0, all.subrange(0, i as int)),
                comp.cfg == old(comp).cfg,
                comp.label == old(comp).label,
                comp.attributes == old(comp).attributes,
                comp.inputs@ == old(comp).inputs@,
                comp.outputs@ == old(comp).outputs@,
            decreases n - i,
        {
            let var = allocs[i].0;
            let cell = allocs[i].1.duplicate();
            proof {
                assert(all.subrange(0, i + 1).drop_last() =~= all.subrange(0, i as int));
                assert(all.subrange(0, i + 1).last() == (var, cell@));
            }
            comp.insert_cell(var, cell);
            i = i + 1;
        }
        proof {
            assert(all.subrange(0, n as int) =~= all);
        }
        modified
    }
}

/// Whether the child `c` is an operation that writes the variable `v`
/// itself.
pub open spec fn writes_var(c: ControlV, v: Variable) -> bool {
    c matches ControlV::Enable(ir) && spec_kill(ir) == PortV::Variable(v)
}

/// Whether some operation directly inside a sequence of `c` writes the
/// variable `v`.
pub open spec fn written_in_sequence(c: ControlV, v: Variable) -> bool
    decreases c,
{
    match c {
        ControlV::Sequence(cs) => (exists|i: int| 0 <= i < cs.len() && #[trigger] writes_var(cs[i], v))
            || written_in_sequence_all(cs, v),
        ControlV::Par(cs) => written_in_sequence_all(cs, v),
        ControlV::For(_, _, _, body) => written_in_sequence(*body, v),
        ControlV::IfElse(_, t, f) => written_in_sequence(*t, v) || written_in_sequence(*f, v),
        _ => false,
    }
}

/// Whether [`written_in_sequence`] holds of one of `cs`.
pub open spec fn written_in_sequence_all(cs: Seq<ControlV>, v: Variable) -> bool
    decreases cs,
{
    cs.len() > 0 && (written_in_sequence_all(cs.drop_last(), v) || written_in_sequence(cs.last(), v))
}

/// Whether `v` is the variable of some loop of `c`.
pub open spec fn loop_var(c: ControlV, v: Variable) -> bool
    decreases c,
{
    match c {
        ControlV::For(w, _, _, body) => w == v || loop_var(*body, v),
        ControlV::Sequence(cs) => loop_var_all(cs, v),
        ControlV::Par(cs) => loop_var_all(cs, v),
        ControlV::IfElse(_, t, f) => loop_var(*t, v) || loop_var(*f, v),
        _ => false,
    }
}

/// Whether [`loop_var`] holds of one of `cs`.
pub open spec fn loop_var_all(cs: Seq<ControlV>, v: Variable) -> bool
    decreases cs,
{
    cs.len() > 0 && (loop_var_all(cs.drop_last(), v) || loop_var(cs.last(), v))
}

/// Whether `allocs` allocates `v`.
pub open spec fn allocates(allocs: Seq<(Variable, CellV)>, v: Variable) -> bool {
    exists|j: int| 0 <= j < allocs.len() && (#[trigger] allocs[j]).0 == v
}

/// Whether every allocation of `v` among `allocs` is a 64-bit register.
pub open spec fn all_wide(allocs: Seq<(Variable, CellV)>, v: Variable) -> bool {
    forall|j: int| 0 <= j < allocs.len() && (#[trigger] allocs[j]).0 == v ==> allocs[j].1 == CellV::Register(64)
}

proof fn lemma_concat_allocates(a: Seq<(Variable, CellV)>, b: Seq<(Variable, CellV)>, v: Variable)
    ensures
        allocates(a + b, v) <==> allocates(a, v) || allocates(b, v),
        all_wide(a + b, v) <==> all_wide(a, v) && all_wide(b, v),
{
    let c = a + b;
    if allocates(a, v) {
        let j = choose|j: int| 0 <= j < a.len() && (#[trigger] a[j]).0 == v;
        assert(c[j] == a[j]);
    }
    if allocates(b, v) {
        let j = choose|j: int| 0 <= j < b.len() && (#[trigger] b[j]).0 == v;
        assert(c[a.len() + j] == b[j]);
    }
    if allocates(c, v) {
        let j = choose|j: int| 0 <= j < c.len() && (#[trigger] c[j]).0 == v;
        if j < a.len() {
            assert(c[j] == a[j]);
        } else {
            assert(c[j] == b[j - a.len()]);
        }
    }
    if all_wide(c, v) {
        assert forall|j: int| 0 <= j < a.len() && (#[trigger] a[j]).0 == v implies a[j].1 == CellV::Register(64) by {
            assert(c[j] == a[j]);
        }
        assert forall|j: int| 0 <= j < b.len() && (#[trigger] b[j]).0 == v implies b[j].1 == CellV::Register(64) by {
            assert(c[a.len() + j] == b[j]);
        }
    }
    if all_wide(a, v) && all_wide(b, v) {
        assert forall|j: int| 0 <= j < c.len() && (#[trigger] c[j]).0 == v implies c[j].1 == CellV::Register(64) by {
            if j < a.len() {
                assert(c[j] == a[j]);
            } else {
                assert(c[j] == b[j - a.len()]);
            }
        }
    }
}

/// The registers for direct writes are 64 bits wide, and there is one for
/// each variable that an operation among `cs` writes.
proof fn lemma_kill_allocs(cs: Seq<ControlV>, v: Variable)
    ensures
        all_wide(kill_allocs(cs), v),
        allocates(kill_allocs(cs), v) <==> exists|i: int| 0 <= i < cs.len() && #[trigger] writes_var(cs[i], v),
    decreases cs.len(),
{
    if cs.len() > 0 {
        let rest = cs.drop_last();
        lemma_kill_allocs(rest, v);
        let tail = match cs.last() {
            ControlV::Enable(ir) => match spec_kill(ir) {
                PortV::Variable(var) => seq![(var, CellV::Register(64))],
                _ => Seq::empty(),
            },
            _ => Seq::empty(),
        };
        assert(kill_allocs(cs) == kill_allocs(rest) + tail);
        lemma_concat_allocates(kill_allocs(rest), tail, v);
        if exists|i: int| 0 <= i < cs.len() && #[trigger] writes_var(cs[i], v) {
            let i = choose|i: int| 0 <= i < cs.len() && #[trigger] writes_var(cs[i], v);
            if i < cs.len() - 1 {
                assert(rest[i] == cs[i]);
            } else {
                assert(tail[0].0 == v);
            }
        }
        if exists|i: int| 0 <= i < rest.len() && #[trigger] writes_var(rest[i], v) {
            let i = choose|i: int| 0 <= i < rest.len() && #[trigger] writes_var(rest[i], v);
            assert(rest[i] == cs[i]);
        }
        if allocates(tail, v) {
            assert(writes_var(cs[cs.len() - 1], v));
        }
    }
}

/// What the allocations of a control tree say of a variable: every
/// allocation of a variable that is no loop variable is a 64-bit register;
/// a variable written directly in a sequence is allocated; and only
/// variables written directly in a sequence and loop variables are.
proof fn lemma_allocs(c: ControlV, v: Variable)
    ensures
        !loop_var(c, v) ==> all_wide(spec_allocs(c), v),
        written_in_sequence(c, v) ==> allocates(spec_allocs(c), v),
        allocates(spec_allocs(c), v) ==> written_in_sequence(c, v) || loop_var(c, v),
    decreases c,
{
    match c {
        ControlV::For(w, _, u, body) => {
            lemma_allocs(*body, v);
            let head = seq![(w, CellV::Register(index_bits(u)))];
            lemma_concat_allocates(head, spec_allocs(*body), v);
            if allocates(head, v) {
                assert(head[0].0 == v);
            }
        },
        ControlV::Sequence(cs) => {
            lemma_kill_allocs(cs, v);
            lemma_allocs_all(cs, v);
            lemma_concat_allocates(kill_allocs(cs), spec_allocs_all(cs), v);
        },
        ControlV::Par(cs) => {
            lemma_allocs_all(cs, v);
        },
        ControlV::IfElse(_, t, f) => {
            lemma_allocs(*t, v);
            lemma_allocs(*f, v);
            lemma_concat_allocates(spec_allocs(*t), spec_allocs(*f), v);
        },
        _ => {},
    }
}

/// [`lemma_allocs`] for a list of children.
proof fn lemma_allocs_all(cs: Seq<ControlV>, v: Variable)
    ensures
        !loop_var_all(cs, v) ==> all_wide(spec_allocs_all(cs), v),
        written_in_sequence_all(cs, v) ==> allocates(spec_allocs_all(cs), v),
        allocates(spec_allocs_all(cs), v) ==> written_in_sequence_all(cs, v) || loop_var_all(cs, v),
    decreases cs,
{
    if cs.len() > 0 {
        lemma_allocs_all(cs.drop_last(), v);
        lemma_allocs(cs.last(), v);
        lemma_concat_allocates(spec_allocs_all(cs.drop_last()), spec_allocs(cs.last()), v);
    }
}

/// Applying allocations: a variable that none allocates keeps its cell
/// (or stays absent); one that they allocate, only ever as a 64-bit
/// register, ends up with a 64-bit register.
proof fn lemma_apply_allocs(cells: Map<Variable, CellV>, allocs: Seq<(Variable, CellV)>, v: Variable)
    ensures
        !allocates(allocs, v) ==> apply_allocs(cells, allocs).contains_key(v) == cells.contains_key(v)
            && apply_allocs(cells, allocs)[v] == cells[v],
        allocates(allocs, v) ==> apply_allocs(cells, allocs).contains_key(v),
        allocates(allocs, v) && all_wide(allocs, v) ==> apply_allocs(cells, allocs)[v] == CellV::Register(64),
    decreases allocs.len(),
{
    if allocs.len() > 0 {
        let rest = allocs.drop_last();
        lemma_apply_allocs(cells, rest, v);
        lemma_concat_allocates(rest, seq![allocs.last()], v);
        assert(rest + seq![allocs.last()] =~= allocs);
        if allocates(seq![allocs.last()], v) {
            assert(seq![allocs.last()][0].0 == v);
        }
        if allocs.last().0 == v {
            assert(seq![allocs.last()][0] == allocs.last());
        }
    }
}

/// Cell allocation gives each variable written directly in a sequence, and
/// used as no loop's variable, a register as wide as its 64-bit value; it
/// leaves the cell of every variable that is neither written directly in a
/// sequence nor a loop variable as it was.
pub proof fn law_direct_writes_get_wide_registers(cells: Map<Variable, CellV>, c: ControlV, v: Variable)
    ensures
        written_in_sequence(c, v) && !loop_var(c, v) ==> apply_allocs(cells, spec_allocs(c)).contains_key(v)
            && apply_allocs(cells, spec_allocs(c))[v] == CellV::Register(64),
        !written_in_sequence(c, v) && !loop_var(c, v) ==> apply_allocs(cells, spec_allocs(c)).contains_key(
            v,
        ) == cells.contains_key(v) && apply_allocs(cells, spec_allocs(c))[v] == cells[v],
{
    lemma_allocs(c, v);
    lemma_apply_allocs(cells, spec_allocs(c), v);
}

/// A loop's variable gets the first allocation of the loop: for a constant
/// bound `n`, a register with just enough bits to tell apart `n` indices
/// (no fewer bits would do); for any other bound, a 64-bit register.
pub proof fn law_loop_register_fits_bound(v: Variable, lower: PortV, upper: PortV, body: ControlV)
    requires
        upper matches PortV::Constant(n) ==> 0 <= n <= usize::MAX,
    ensures
        spec_allocs(ControlV::For(v, lower, upper, Box::new(body)))[0].0 == v,
        spec_allocs(ControlV::For(v, lower, upper, Box::new(body)))[0].1 matches CellV::Register(w) && match upper {
            PortV::Constant(n) => n <= vstd::arithmetic::power2::pow2(w as nat) && (n > 1
                ==> vstd::arithmetic::power2::pow2((w - 1) as nat) < n),
            _ => w == 64,
        },
{
    if let PortV::Constant(n) = upper {
        let value = (n as usize) as nat;
        assert(value == n);
        crate::ir::memory::law_min_bits_enough(value);
        if value > 0 {
            crate::ir::memory::lemma_bit_length_le((value - 1) as nat);
        }
        if value > 1 {
            crate::ir::memory::law_min_bits_fewest(value);
        }
    }
}

} // verus!
