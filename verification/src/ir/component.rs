use super::cell::{spec_cell_text, Cell, CellV};
use super::control::{spec_control_lines, spec_nesting, Control};
use super::label::{spec_label_text, Label};
use super::port::{spec_var_text, Variable};
use crate::frontend::ast::text_of;
use crate::frontend::attribute::{Attribute, Attributes};
use crate::utils::format::{lines_view, push_line, Line};
use vstd::prelude::*;

verus! {

/// The cells of an association list, as a map: a later entry for a variable
/// overrides an earlier one.
pub open spec fn cells_map(entries: Seq<(Variable, Cell)>) -> Map<Variable, CellV>
    decreases entries.len(),
{
    if entries.len() == 0 {
        Map::empty()
    } else {
        cells_map(entries.drop_last()).insert(entries.last().0, entries.last().1@)
    }
}

/// The variables of an association list, in order.
pub open spec fn entry_vars(entries: Seq<(Variable, Cell)>) -> Seq<Variable> {
    entries.map_values(|e: (Variable, Cell)| e.0)
}

/// A hardware component: its interface, its cells and its control.
pub struct Component {
    pub label: Label,
    pub attributes: Attributes,
    pub inputs: Vec<(Variable, Cell)>,
    pub outputs: Vec<(Variable, Cell)>,
    /// Like register allocation but for cells: one entry per variable.
    pub cell_alloc: Vec<(Variable, Cell)>,
    pub cfg: Control,
}

impl Component {
    pub open spec fn spec_label(&self) -> Label {
        self.label
    }

    pub open spec fn spec_inputs(&self) -> Seq<(Variable, Cell)> {
        self.inputs@
    }

    pub open spec fn spec_outputs(&self) -> Seq<(Variable, Cell)> {
        self.outputs@
    }

    /// The cell allocated to each variable.
    pub open spec fn spec_cells(&self) -> Map<Variable, CellV> {
        cells_map(self.cell_alloc@)
    }

    pub open spec fn spec_attributes(&self) -> Attributes {
        self.attributes
    }

    /// Each variable has one entry in the cell allocation.
    pub open spec fn wf(&self) -> bool {
        entry_vars(self.cell_alloc@).no_duplicates()
    }

    /// A component with the given interface and control, whose cells are
    /// initially those of its inputs and outputs.
    pub fn new(
        label: Label,
        inputs: Vec<(Variable, Cell)>,
        outputs: Vec<(Variable, Cell)>,
        cfg: Control,
    ) -> (result: Self)
        ensures
            result.wf(),
            result.spec_label() == label,
            result.spec_inputs() == inputs@,
            result.spec_outputs() == outputs@,
            result.spec_cells() == cells_map(inputs@ + outputs@),
            result.cfg == cfg,
            forall|a: Attribute| !result.spec_attributes().contains(a),
    {
        let mut cell_alloc: Vec<(Variable, Cell)> = Vec::new();
        proof {
            assert(entry_vars(cell_alloc@) =~= Seq::<Variable>::empty());
            assert(Seq::<(Variable, Cell)>::empty() + inputs@ =~= inputs@);
        }
        alloc_insert_all(&mut cell_alloc, &inputs, Ghost(Seq::empty()));
        alloc_insert_all(&mut cell_alloc, &outputs, Ghost(inputs@));
        Component { label, attributes: Attributes::empty(), inputs, outputs, cell_alloc, cfg }
    }

    pub fn label(&self) -> (result: &Label)
        ensures
            *result == self.spec_label(),
    {
        &self.label
    }

    pub fn inputs(&self) -> (result: &Vec<(Variable, Cell)>)
        ensures
            result@ == self.spec_inputs(),
    {
        &self.inputs
    }

    pub fn outputs(&self) -> (result: &Vec<(Variable, Cell)>)
        ensures
            result@ == self.spec_outputs(),
    {
        &self.outputs
    }

    /// The cell allocation, one entry per variable.
    pub fn cells(&self) -> (result: &Vec<(Variable, Cell)>)
        requires
            self.wf(),
        ensures
            cells_map(result@) == self.spec_cells(),
            entry_vars(result@).no_duplicates(),
    {
        &self.cell_alloc
    }

    pub fn cfg(&self) -> (result: &Control)
        ensures
            *result == self.cfg,
    {
        &self.cfg
    }

    /// Whether the component has the attribute `attr`.
    pub fn has_attribute(&self, attr: Attribute) -> (result: bool)
        ensures
            result == self.spec_attributes().contains(attr),
    {
        self.attributes.has(attr)
    }

    /// Annotates the component with the attribute `attr`.
    pub fn add_attribute(&mut self, attr: Attribute)
        ensures
            final(self).spec_attributes().contains(attr),
            forall|a: Attribute|
                a != attr ==> final(self).spec_attributes().contains(a) == old(
                    self,
                ).spec_attributes().contains(a),
            final(self).spec_cells() == old(self).spec_cells(),
            final(self).cfg == old(self).cfg,
            final(self).wf() == old(self).wf(),
    {
        self.attributes.add(attr);
    }

    /// Allocates `cell` to `var`, replacing any cell it had.
    pub fn insert_cell(&mut self, var: Variable, cell: Cell)
        requires
            old(self).wf(),
        ensures
            final(self).wf(),
            final(self).spec_cells() == old(self).spec_cells().insert(var, cell@),
            final(self).cfg == old(self).cfg,
            final(self).spec_inputs() == old(self).spec_inputs(),
            final(self).spec_outputs() == old(self).spec_outputs(),
            final(self).label == old(self).label,
            final(self).attributes == old(self).attributes,
            final(self).inputs@ == old(self).inputs@,
            final(self).outputs@ == old(self).outputs@,
    {
        alloc_insert(&mut self.cell_alloc, var, cell);
    }

    /// The allocated cells of variables that are neither inputs nor outputs:
    /// each such variable once, with its cell.
    pub fn internal_cells(&self) -> (result: Vec<(Variable, Cell)>)
        requires
            self.wf(),
        ensures
            forall|k: int|
                0 <= k < result@.len() ==> self.spec_cells().contains_key(#[trigger] result@[k].0)
                    && !entry_vars(self.spec_inputs()).contains(result@[k].0) && !entry_vars(
                    self.spec_outputs(),
                ).contains(result@[k].0) && result@[k].1@ == self.spec_cells()[result@[k].0],
            forall|v: Variable|
                #![trigger self.spec_cells().contains_key(v)]
                self.spec_cells().contains_key(v) && !entry_vars(self.spec_inputs()).contains(v)
                    && !entry_vars(self.spec_outputs()).contains(v) ==> exists|k: int|
                    0 <= k < result@.len() && #[trigger] result@[k].0 == v,
            entry_vars(result@).no_duplicates(),
    {
        let mut result: Vec<(Variable, Cell)> = Vec::new();
        let n = self.cell_alloc.len();
        let mut i: usize = 0;
        let ghost alloc = self.cell_alloc@;
        proof {
            lemma_cells_map_entries(alloc);
            assert(entry_vars(result@) =~= Seq::<Variable>::empty());
        }
        while i < n
            invariant
                0 <= i <= n,
                n == alloc.len(),
                alloc == self.cell_alloc@,
                entry_vars(alloc).no_duplicates(),
                forall|k: int|
                    0 <= k < result@.len() ==> exists|j: int|
                        0 <= j < i && alloc[j].0 == #[trigger] result@[k].0 && result@[k].1@
                            == alloc[j].1@,
                forall|k: int|
                    0 <= k < result@.len() ==> !entry_vars(self.inputs@).contains(
                        #[trigger] result@[k].0,
                    ) && !entry_vars(self.outputs@).contains(result@[k].0),
                forall|j: int|
                    0 <= j < i && !entry_vars(self.inputs@).contains(#[trigger] alloc[j].0)
                        && !entry_vars(self.outputs@).contains(alloc[j].0) ==> exists|k: int|
                        0 <= k < result@.len() && result@[k].0 == alloc[j].0,
                forall|k: int, j: int|
                    0 <= k < result@.len() && i <= j < n ==> #[trigger] result@[k].0
                        != #[trigger] alloc[j].0,
                entry_vars(result@).no_duplicates(),
            decreases n - i,
        {
            let var = self.cell_alloc[i].0;
            if !contains_var(&self.inputs, var) && !contains_var(&self.outputs, var) {
                let ghost before = result@;
                result.push((var, self.cell_alloc[i].1.duplicate()));
                proof {
                    assert(alloc[i as int].0 == var);
                    assert forall|k: int| 0 <= k < result@.len() implies exists|j: int|
                        0 <= j < i + 1 && alloc[j].0 == #[trigger] result@[k].0 && result@[k].1@
                            == alloc[j].1@ by {
                        if k < before.len() {
                            assert(result@[k] == before[k]);
                        } else {
                            assert(alloc[i as int].0 == result@[k].0);
                        }
                    }
                    assert forall|k: int| 0 <= k < result@.len() implies !entry_vars(
                        self.inputs@,
                    ).contains(#[trigger] result@[k].0) && !entry_vars(self.outputs@).contains(
                        result@[k].0,
                    ) by {
                        if k < before.len() {
                            assert(result@[k] == before[k]);
                        }
                    }
                    assert forall|j: int|
                        0 <= j < i + 1 && !entry_vars(self.inputs@).contains(#[trigger] alloc[j].0)
                            && !entry_vars(self.outputs@).contains(alloc[j].0) implies exists|k: int|
                        0 <= k < result@.len() && result@[k].0 == alloc[j].0 by {
                        if j < i {
                            let k = choose|k: int| 0 <= k < before.len() && before[k].0 == alloc[j].0;
                            assert(result@[k] == before[k]);
                        } else {
                            assert(result@[before.len() as int].0 == alloc[j].0);
                        }
                    }
                    assert forall|k: int, j: int|
                        0 <= k < result@.len() && i + 1 <= j < n implies #[trigger] result@[k].0
                            != #[trigger] alloc[j].0 by {
                        if k < before.len() {
                            assert(result@[k] == before[k]);
                        } else {
                            assert(entry_vars(alloc)[i as int] == alloc[i as int].0);
                            assert(entry_vars(alloc)[j] == alloc[j].0);
                        }
                    }
                    assert(entry_vars(result@) =~= entry_vars(before).push(var));
                    assert forall|a: int, b: int|
                        0 <= a < entry_vars(result@).len() && 0 <= b < entry_vars(result@).len()
                            && a != b implies entry_vars(result@)[a] != entry_vars(result@)[b] by {
                        if a < before.len() && b < before.len() {
                            assert(entry_vars(before)[a] == entry_vars(result@)[a]);
                            assert(entry_vars(before)[b] == entry_vars(result@)[b]);
                        } else if a < before.len() {
                            assert(result@[a] == before[a]);
                        } else {
                            assert(result@[b] == before[b]);
                        }
                    }
                }
            }
            i = i + 1;
        }
        proof {
            assert forall|k: int| 0 <= k < result@.len() implies self.spec_cells().contains_key(
                #[trigger] result@[k].0,
            ) && result@[k].1@ == self.spec_cells()[result@[k].0] by {
                let j = choose|j: int|
                    0 <= j < n && alloc[j].0 == result@[k].0 && result@[k].1@ == alloc[j].1@;
                assert(alloc[j].0 == result@[k].0);
            }
            assert forall|v: Variable|
                #![trigger self.spec_cells().contains_key(v)]
                self.spec_cells().contains_key(v) && !entry_vars(self.spec_inputs()).contains(v)
                    && !entry_vars(self.spec_outputs()).contains(v) implies exists|k: int|
                    0 <= k < result@.len() && #[trigger] result@[k].0 == v by {
                let j = choose|j: int| 0 <= j < alloc.len() && #[trigger] alloc[j].0 == v;
                assert(alloc[j].0 == v);
            }
        }
        result
    }
}

/// Sets the entry of `var` in an association list to `cell`, adding one if
/// `var` has none.
fn alloc_insert(alloc: &mut Vec<(Variable, Cell)>, var: Variable, cell: Cell)
    requires
        entry_vars(old(alloc)@).no_duplicates(),
    ensures
        entry_vars(final(alloc)@).no_duplicates(),
        cells_map(final(alloc)@) == cells_map(old(alloc)@).insert(var, cell@),
{
    let ghost old_alloc = alloc@;
    let n = alloc.len();
    let mut j: usize = 0;
    while j < n && alloc[j].0 != var
        invariant
            0 <= j <= n,
            n == alloc@.len(),
            alloc@ == old_alloc,
            forall|k: int| 0 <= k < j ==> #[trigger] alloc@[k].0 != var,
        decreases n - j,
    {
        j = j + 1;
    }
    proof {
        lemma_cells_map_entries(old_alloc);
    }
    if j < n {
        alloc.set(j, (var, cell));
        proof {
            let new_alloc = alloc@;
            assert(new_alloc == old_alloc.update(j as int, (var, cell)));
            assert(entry_vars(new_alloc) =~= entry_vars(old_alloc));
            lemma_cells_map_entries(new_alloc);
            assert forall|v: Variable| #[trigger]
                cells_map(new_alloc).contains_key(v) == cells_map(old_alloc).insert(
                    var,
                    cell@,
                ).contains_key(v) by {
                assert(new_alloc[j as int].0 == var);
                assert(old_alloc[j as int].0 == var);
                if v != var && cells_map(old_alloc).contains_key(v) {
                    let k = choose|k: int| 0 <= k < old_alloc.len() && #[trigger] old_alloc[k].0 == v;
                    assert(new_alloc[k].0 == v);
                }
                if cells_map(new_alloc).contains_key(v) {
                    let k = choose|k: int| 0 <= k < new_alloc.len() && #[trigger] new_alloc[k].0 == v;
                    if k != j {
                        assert(old_alloc[k].0 == v);
                    }
                }
            }
            assert forall|v: Variable| #[trigger]
                cells_map(new_alloc).contains_key(v) implies cells_map(new_alloc)[v] == cells_map(
                old_alloc,
            ).insert(var, cell@)[v] by {
                let k = choose|k: int| 0 <= k < new_alloc.len() && #[trigger] new_alloc[k].0 == v;
                assert(cells_map(new_alloc)[new_alloc[k].0] == new_alloc[k].1@);
                assert(new_alloc[j as int].0 == var);
                if k != j {
                    assert(entry_vars(new_alloc)[k] != entry_vars(new_alloc)[j as int]);
                    assert(v != var);
                    assert(old_alloc[k] == new_alloc[k]);
                    assert(cells_map(old_alloc)[old_alloc[k].0] == old_alloc[k].1@);
                }
            }
            assert(cells_map(new_alloc) =~= cells_map(old_alloc).insert(var, cell@));
        }
    } else {
        alloc.push((var, cell));
        proof {
            assert(alloc@.drop_last() =~= old_alloc);
            assert(entry_vars(alloc@) =~= entry_vars(old_alloc).push(var));
            assert(!entry_vars(old_alloc).contains(var)) by {
                if entry_vars(old_alloc).contains(var) {
                    let k = choose|k: int|
                        0 <= k < entry_vars(old_alloc).len() && entry_vars(old_alloc)[k] == var;
                    assert(old_alloc[k].0 == var);
                }
            }
        }
    }
}

/// Enters each of `entries`, in order, into an association list whose cells
/// are those of `pre`.
fn alloc_insert_all(
    alloc: &mut Vec<(Variable, Cell)>,
    entries: &Vec<(Variable, Cell)>,
    Ghost(pre): Ghost<Seq<(Variable, Cell)>>,
)
    requires
        entry_vars(old(alloc)@).no_duplicates(),
        cells_map(old(alloc)@) == cells_map(pre),
    ensures
        entry_vars(final(alloc)@).no_duplicates(),
        cells_map(final(alloc)@) == cells_map(pre + entries@),
{
    let n = entries.len();
    let mut i: usize = 0;
    proof {
        assert(pre + entries@.subrange(0, 0) =~= pre);
    }
    while i < n
        invariant
            0 <= i <= n,
            n == entries@.len(),
            entry_vars(alloc@).no_duplicates(),
            cells_map(alloc@) == cells_map(pre + entries@.subrange(0, i as int)),
        decreases n - i,
    {
        let var = entries[i].0;
        let cell = entries[i].1.duplicate();
        proof {
            let next = pre + entries@.subrange(0, i + 1);
            assert(next.drop_last() =~= pre + entries@.subrange(0, i as int));
            assert(next.last() == entries@[i as int]);
        }
        alloc_insert(alloc, var, cell);
        i = i + 1;
    }
    proof {
        assert(entries@.subrange(0, n as int) =~= entries@);
    }
}

/// The keys of the cell map are the variables of the entries, and a variable
/// entered once maps to its entry's cell.
/// A component has no internal cells when it is made: every variable that
/// [`Component::new`] allocates a cell to is one of its inputs or outputs,
/// so [`Component::internal_cells`] of a new component is empty.
pub proof fn law_new_has_no_internal_cells(inputs: Seq<(Variable, Cell)>, outputs: Seq<(Variable, Cell)>)
    ensures
        forall|v: Variable|
            #[trigger] cells_map(inputs + outputs).contains_key(v) ==> entry_vars(inputs).contains(v)
                || entry_vars(outputs).contains(v),
{
    lemma_cells_map_entries(inputs + outputs);
    assert forall|v: Variable|
        #[trigger] cells_map(inputs + outputs).contains_key(v) implies entry_vars(inputs).contains(v)
            || entry_vars(outputs).contains(v) by {
        let k = choose|k: int| 0 <= k < (inputs + outputs).len() && #[trigger] (inputs + outputs)[k].0 == v;
        if k < inputs.len() {
            assert(entry_vars(inputs)[k] == v);
        } else {
            assert(entry_vars(outputs)[k - inputs.len()] == v);
        }
    }
}

pub proof fn lemma_cells_map_entries(entries: Seq<(Variable, Cell)>)
    ensures
        forall|v: Variable|
            cells_map(entries).contains_key(v) <==> exists|k: int|
                0 <= k < entries.len() && #[trigger] entries[k].0 == v,
        entry_vars(entries).no_duplicates() ==> forall|k: int|
            0 <= k < entries.len() ==> #[trigger] cells_map(entries)[entries[k].0] == entries[k].1@,
    decreases entries.len(),
{
    if entries.len() > 0 {
        let rest = entries.drop_last();
        lemma_cells_map_entries(rest);
        assert forall|v: Variable|
            cells_map(entries).contains_key(v) <==> exists|k: int|
                0 <= k < entries.len() && #[trigger] entries[k].0 == v by {
            if cells_map(entries).contains_key(v) && v != entries.last().0 {
                assert(cells_map(rest).contains_key(v));
                let k = choose|k: int| 0 <= k < rest.len() && #[trigger] rest[k].0 == v;
                assert(rest[k] == entries[k]);
                assert(entries[k].0 == v);
            }
            if exists|k: int| 0 <= k < entries.len() && #[trigger] entries[k].0 == v {
                let k = choose|k: int| 0 <= k < entries.len() && #[trigger] entries[k].0 == v;
                if k < entries.len() - 1 {
                    assert(rest[k] == entries[k]);
                    assert(rest[k].0 == v);
                    assert(cells_map(rest).contains_key(v));
                }
            }
        }
        if entry_vars(entries).no_duplicates() {
            assert(entry_vars(rest) =~= entry_vars(entries).drop_last());
            assert(entry_vars(rest).no_duplicates()) by {
                assert forall|a: int, b: int|
                    0 <= a < entry_vars(rest).len() && 0 <= b < entry_vars(rest).len() && a != b implies
                    entry_vars(rest)[a] != entry_vars(rest)[b] by {
                    assert(entry_vars(rest)[a] == entry_vars(entries)[a]);
                    assert(entry_vars(rest)[b] == entry_vars(entries)[b]);
                }
            }
            assert forall|k: int| 0 <= k < entries.len() implies #[trigger] cells_map(entries)[entries[k].0]
                == entries[k].1@ by {
                if k < entries.len() - 1 {
                    assert(rest[k] == entries[k]);
                    assert(entry_vars(entries)[k] != entry_vars(entries)[entries.len() - 1]);
                    assert(cells_map(rest)[rest[k].0] == rest[k].1@);
                }
            }
        }
    }
}

/// Whether `var` has an entry in `entries`.
pub fn contains_var(entries: &Vec<(Variable, Cell)>, var: Variable) -> (result: bool)
    ensures
        result == entry_vars(entries@).contains(var),
{
    let n = entries.len();
    let mut i: usize = 0;
    while i < n
        invariant
            0 <= i <= n,
            n == entries@.len(),
            forall|k: int| 0 <= k < i ==> #[trigger] entries@[k].0 != var,
        decreases n - i,
    {
        if entries[i].0 == var {
            proof {
                assert(entry_vars(entries@)[i as int] == var);
            }
            return true;
        }
        i = i + 1;
    }
    proof {
        if entry_vars(entries@).contains(var) {
            let k = choose|k: int| 0 <= k < entry_vars(entries@).len() && entry_vars(entries@)[k] == var;
            assert(entries@[k].0 == var);
        }
    }
    false
}


/// How many entries have a variable numbered below `id`: where an entry for
/// a variable numbered `id` goes when the entries are listed in increasing
/// order of their variables' numbers.
pub open spec fn count_below(entries: Seq<(Variable, Cell)>, id: usize) -> nat
    decreases entries.len(),
{
    if entries.len() == 0 {
        0
    } else {
        count_below(entries.drop_last(), id) + if entries.last().0.id < id {
            1nat
        } else {
            0nat
        }
    }
}

/// Counting below a larger number counts no fewer entries, and counting
/// below the number of an entry leaves that entry out.
pub proof fn lemma_count_below(entries: Seq<(Variable, Cell)>, a: usize, b: usize)
    ensures
        count_below(entries, a) <= entries.len(),
        a <= b ==> count_below(entries, a) <= count_below(entries, b),
        forall|k: int|
            0 <= k < entries.len() && a <= #[trigger] entries[k].0.id < b ==> count_below(
                entries,
                a,
            ) < count_below(entries, b),
        forall|k: int|
            0 <= k < entries.len() && #[trigger] entries[k].0.id >= a ==> count_below(entries, a)
                < entries.len(),
    decreases entries.len(),
{
    if entries.len() > 0 {
        let rest = entries.drop_last();
        lemma_count_below(rest, a, b);
        assert forall|k: int|
            0 <= k < entries.len() && a <= #[trigger] entries[k].0.id < b implies count_below(
            entries,
            a,
        ) < count_below(entries, b) by {
            if k < entries.len() - 1 {
                assert(rest[k] == entries[k]);
            }
        }
        assert forall|k: int|
            0 <= k < entries.len() && #[trigger] entries[k].0.id >= a implies count_below(
            entries,
            a,
        ) < entries.len() by {
            if k < entries.len() - 1 {
                assert(rest[k] == entries[k]);
            }
        }
    }
}

/// How a cell entry is displayed: its variable, ` = ` and its cell.
pub open spec fn spec_entry_text(entry: (Variable, Cell)) -> Seq<char> {
    spec_var_text(entry.0) + seq![' ', '=', ' '] + spec_cell_text(entry.1@)
}

/// Whether every cell of the entries has a port at least one bit wide.
pub open spec fn widths_positive(entries: Seq<(Variable, Cell)>) -> bool {
    forall|i: int| 0 <= i < entries.len() ==> (#[trigger] entries[i]).1.port_width_spec() > 0
}

/// The number of entries whose variable is numbered below `id` (see
/// [`count_below`]).
fn rank_of(entries: &Vec<(Variable, Cell)>, id: usize) -> (result: usize)
    ensures
        result == count_below(entries@, id),
{
    let n = entries.len();
    let mut count: usize = 0;
    let mut k: usize = 0;
    proof {
        assert(entries@.subrange(0, 0) =~= Seq::<(Variable, Cell)>::empty());
    }
    while k < n
        invariant
            0 <= k <= n,
            n == entries@.len(),
            count == count_below(entries@.subrange(0, k as int), id),
            count <= k,
        decreases n - k,
    {
        proof {
            let pre = entries@.subrange(0, k + 1);
            assert(pre.drop_last() =~= entries@.subrange(0, k as int));
            assert(pre.last() == entries@[k as int]);
        }
        if entries[k].0.id < id {
            count = count + 1;
        }
        k = k + 1;
    }
    proof {
        assert(entries@.subrange(0, n as int) =~= entries@);
    }
    count
}

/// The lines of cell entries at depth `depth`, in increasing order of their
/// variables' numbers: the entry with `r` entries numbered below it is on
/// line `r`.
pub fn cell_lines(entries: &Vec<(Variable, Cell)>, depth: usize) -> (result: Vec<Line>)
    requires
        entry_vars(entries@).no_duplicates(),
        widths_positive(entries@),
    ensures
        lines_view(result@).len() == entries@.len(),
        forall|i: int|
            0 <= i < entries@.len() ==> lines_view(result@)[count_below(
                entries@,
                #[trigger] entries@[i].0.id,
            ) as int] == (depth as nat, spec_entry_text(entries@[i])),
{
    let n = entries.len();
    let mut out: Vec<Line> = Vec::new();
    let mut k: usize = 0;
    while k < n
        invariant
            0 <= k <= n,
            out@.len() == k,
        decreases n - k,
    {
        out.push((depth, String::new()));
        k = k + 1;
    }
    let equals = " = ";
    proof {
        reveal_strlit(" = ");
        assert(equals@ =~= seq![' ', '=', ' ']);
    }
    let mut i: usize = 0;
    while i < n
        invariant
            0 <= i <= n,
            n == entries@.len(),
            out@.len() == n,
            equals@ == seq![' ', '=', ' '],
            entry_vars(entries@).no_duplicates(),
            widths_positive(entries@),
            forall|j: int|
                0 <= j < i ==> lines_view(out@)[count_below(
                    entries@,
                    #[trigger] entries@[j].0.id,
                ) as int] == (depth as nat, spec_entry_text(entries@[j])),
        decreases n - i,
    {
        let (var, cell) = &entries[i];
        let mut text = var.to_text();
        text.append(equals);
        proof {
            assert(widths_positive(entries@));
            assert(entries@[i as int].1.port_width_spec() > 0);
        }
        let cell_text = cell.to_text();
        text.append(cell_text.as_str());
        let r = rank_of(entries, var.id);
        proof {
            lemma_count_below(entries@, var.id, var.id);
            assert(entries@[i as int].0.id >= var.id);
        }
        let ghost before = out@;
        let ghost line = (depth as nat, text@);
        proof {
            assert(text@ == spec_entry_text(entries@[i as int]));
        }
        out.set(r, (depth, text));
        proof {
            assert(lines_view(out@)[r as int] == line);
            assert forall|j: int|
                0 <= j < i + 1 implies lines_view(out@)[count_below(
                entries@,
                #[trigger] entries@[j].0.id,
            ) as int] == (depth as nat, spec_entry_text(entries@[j])) by {
                if j < i {
                    let a = entries@[j].0.id;
                    assert(entry_vars(entries@)[j] == entries@[j].0);
                    assert(entry_vars(entries@)[i as int] == entries@[i as int].0);
                    assert(a != var.id);
                    if a < var.id {
                        lemma_count_below(entries@, a, var.id);
                        assert(entries@[j].0.id < var.id);
                    } else {
                        lemma_count_below(entries@, var.id, a);
                        assert(var.id <= entries@[i as int].0.id < a);
                    }
                    lemma_count_below(entries@, a, a);
                    assert(entries@[j].0.id >= a);
                    assert(count_below(entries@, a) != r);
                    assert(out@[count_below(entries@, a) as int] == before[count_below(
                        entries@,
                        a,
                    ) as int]);
                    assert(lines_view(before)[count_below(entries@, a) as int] == (
                        depth as nat,
                        spec_entry_text(entries@[j]),
                    ));
                }
            }
        }
        i = i + 1;
    }
    out
}

/// The texts of variables joined by `, `.
pub open spec fn spec_vars_text(vars: Seq<Variable>) -> Seq<char>
    decreases vars.len(),
{
    if vars.len() == 0 {
        Seq::empty()
    } else if vars.len() == 1 {
        spec_var_text(vars[0])
    } else {
        spec_vars_text(vars.drop_last()) + seq![',', ' '] + spec_var_text(vars.last())
    }
}

/// The variables of entries joined by `, ` (see [`spec_vars_text`]).
fn entry_vars_text(entries: &Vec<(Variable, Cell)>) -> (result: String)
    ensures
        result@ == spec_vars_text(entry_vars(entries@)),
{
    let mut result = String::new();
    let sep = ", ";
    proof {
        reveal_strlit(", ");
        assert(sep@ =~= seq![',', ' ']);
    }
    let n = entries.len();
    let mut i: usize = 0;
    let ghost vars = entry_vars(entries@);
    proof {
        assert(vars.subrange(0, 0) =~= Seq::<Variable>::empty());
    }
    while i < n
        invariant
            0 <= i <= n,
            n == entries@.len(),
            vars == entry_vars(entries@),
            sep@ == seq![',', ' '],
            result@ == spec_vars_text(vars.subrange(0, i as int)),
        decreases n - i,
    {
        proof {
            let pre = vars.subrange(0, i + 1);
            assert(pre.drop_last() =~= vars.subrange(0, i as int));
            assert(pre.last() == entries@[i as int].0);
            if i == 0 {
                assert(pre[0] == pre.last());
            }
        }
        if i > 0 {
            result.append(sep);
        }
        let text = entries[i].0.to_text();
        result.append(text.as_str());
        i = i + 1;
    }
    proof {
        assert(vars.subrange(0, n as int) =~= vars);
    }
    result
}

/// The first line of a component: `comp`, its label, the variables of its
/// inputs and of its outputs in parentheses, and an opening brace.
pub open spec fn spec_comp_header(
    label: Label,
    inputs: Seq<(Variable, Cell)>,
    outputs: Seq<(Variable, Cell)>,
) -> Seq<char> {
    seq!['c', 'o', 'm', 'p', ' '] + spec_label_text(label) + seq!['('] + spec_vars_text(
        entry_vars(inputs),
    ) + seq![')', ' ', '-', '>', ' ', '('] + spec_vars_text(entry_vars(outputs)) + seq![
        ')',
        ' ',
        '{',
    ]
}

/// The lines of a component's control inside its `control` block at depth
/// `depth`: the control's own lines one level deeper, or one empty line at
/// the block's depth when the control shows nothing.
pub open spec fn spec_control_block(c: Control, depth: nat) -> Seq<(nat, Seq<char>)> {
    let lines = spec_control_lines(c@, depth + 1);
    if lines.len() == 0 {
        seq![(depth, Seq::empty())]
    } else {
        lines
    }
}

impl Component {
    /// The lines that show this component at depth `depth`: the header;
    /// a `cells` block listing each allocated cell, in increasing order of
    /// the variables' numbers (see [`cell_lines`]); a `control` block (see
    /// [`spec_control_block`]); and the closing brace.
    pub fn lines(&self, depth: usize) -> (result: Vec<Line>)
        requires
            self.wf(),
            widths_positive(self.cell_alloc@),
            depth + 2 + spec_nesting(self.cfg@) < usize::MAX,
        ensures
            ({
                let v = lines_view(result@);
                let n = self.cell_alloc@.len();
                let d = depth as nat;
                &&& v.len() >= n + 4
                &&& v.subrange(0, 2) == seq![
                    (d, spec_comp_header(self.label, self.inputs@, self.outputs@)),
                    (d + 1, seq!['c', 'e', 'l', 'l', 's', ' ', '{']),
                ]
                &&& forall|i: int|
                    0 <= i < n ==> v[2 + count_below(self.cell_alloc@, #[trigger] self.cell_alloc@[i].0.id) as int]
                        == (d + 2, spec_entry_text(self.cell_alloc@[i]))
                &&& v.subrange(2 + n as int, v.len() as int) == seq![
                    (d + 1, seq!['}']),
                    (d + 1, seq!['c', 'o', 'n', 't', 'r', 'o', 'l', ' ', '{']),
                ] + spec_control_block(self.cfg, d + 1) + seq![(d + 1, seq!['}']), (d, seq!['}'])]
            }),
    {
        let comp = "comp ";
        let open = "(";
        let arrow = ") -> (";
        let close = ") {";
        let cells_open = "cells {";
        let control_open = "control {";
        let brace = "}";
        proof {
            reveal_strlit("comp ");
            reveal_strlit("(");
            reveal_strlit(") -> (");
            reveal_strlit(") {");
            reveal_strlit("cells {");
            reveal_strlit("control {");
            reveal_strlit("}");
            assert(cells_open@ =~= seq!['c', 'e', 'l', 'l', 's', ' ', '{']);
            assert(control_open@ =~= seq!['c', 'o', 'n', 't', 'r', 'o', 'l', ' ', '{']);
            assert(brace@ =~= seq!['}']);
        }
        let mut header = text_of(comp);
        let label = self.label.to_text();
        header.append(label.as_str());
        header.append(open);
        let ins = entry_vars_text(&self.inputs);
        header.append(ins.as_str());
        header.append(arrow);
        let outs = entry_vars_text(&self.outputs);
        header.append(outs.as_str());
        header.append(close);
        proof {
            assert(header@ =~= spec_comp_header(self.label, self.inputs@, self.outputs@));
        }
        let mut out: Vec<Line> = Vec::new();
        proof {
            assert(lines_view(out@) =~= Seq::<(nat, Seq<char>)>::empty());
        }
        push_line(&mut out, depth, header);
        push_line(&mut out, depth + 1, text_of(cells_open));
        let ghost top = lines_view(out@);
        let cells = cell_lines(&self.cell_alloc, depth + 2);
        let n = cells.len();
        let mut i: usize = 0;
        while i < n
            invariant
                0 <= i <= n,
                n == cells@.len(),
                lines_view(out@) == top + lines_view(cells@).subrange(0, i as int),
            decreases n - i,
        {
            let (d, text) = &cells[i];
            push_line(&mut out, *d, text.clone());
            proof {
                assert(lines_view(cells@).subrange(0, i + 1) =~= lines_view(cells@).subrange(
                    0,
                    i as int,
                ).push((*d as nat, text@)));
            }
            i = i + 1;
        }
        proof {
            assert(lines_view(cells@).subrange(0, n as int) =~= lines_view(cells@));
        }
        let ghost mid = lines_view(out@);
        push_line(&mut out, depth + 1, text_of(brace));
        push_line(&mut out, depth + 1, text_of(control_open));
        let control = self.cfg.lines(depth + 2);
        let ghost after_open = lines_view(out@);
        if control.len() == 0 {
            push_line(&mut out, depth + 1, String::new());
        } else {
            let m = control.len();
            let mut j: usize = 0;
            while j < m
                invariant
                    0 <= j <= m,
                    m == control@.len(),
                    lines_view(out@) == after_open + lines_view(control@).subrange(0, j as int),
                decreases m - j,
            {
                let (d, text) = &control[j];
                push_line(&mut out, *d, text.clone());
                proof {
                    assert(lines_view(control@).subrange(0, j + 1) =~= lines_view(
                        control@,
                    ).subrange(0, j as int).push((*d as nat, text@)));
                }
                j = j + 1;
            }
            proof {
                assert(lines_view(control@).subrange(0, m as int) =~= lines_view(control@));
            }
        }
        push_line(&mut out, depth + 1, text_of(brace));
        push_line(&mut out, depth, text_of(brace));
        proof {
            let v = lines_view(out@);
            let nc = self.cell_alloc@.len();
            let d = depth as nat;
            let block = spec_control_block(self.cfg, d + 1);
            assert(lines_view(control@).len() == control@.len());
            if control@.len() == 0 {
                assert(after_open + seq![(d + 1, Seq::<char>::empty())] =~= after_open + block);
            } else {
                assert(block == lines_view(control@));
            }
            assert(after_open =~= mid + seq![
                (d + 1, seq!['}']),
                (d + 1, seq!['c', 'o', 'n', 't', 'r', 'o', 'l', ' ', '{']),
            ]);
            assert(v =~= mid + seq![
                (d + 1, seq!['}']),
                (d + 1, seq!['c', 'o', 'n', 't', 'r', 'o', 'l', ' ', '{']),
            ] + block + seq![(d + 1, seq!['}']), (d, seq!['}'])]);
            assert(mid.len() == 2 + nc);
            assert(v.subrange(0, 2) =~= top);
            assert forall|i: int| 0 <= i < nc implies v[2 + count_below(
                self.cell_alloc@,
                #[trigger] self.cell_alloc@[i].0.id,
            ) as int] == ((depth + 2) as nat, spec_entry_text(self.cell_alloc@[i])) by {
                lemma_count_below(self.cell_alloc@, self.cell_alloc@[i].0.id, 0);
                assert(self.cell_alloc@[i].0.id >= self.cell_alloc@[i].0.id);
                assert(v[2 + count_below(self.cell_alloc@, self.cell_alloc@[i].0.id) as int] == mid[2
                    + count_below(self.cell_alloc@, self.cell_alloc@[i].0.id) as int]);
            }
            assert(v.subrange(2 + nc as int, v.len() as int) =~= seq![
                ((depth + 1) as nat, seq!['}']),
                ((depth + 1) as nat, seq!['c', 'o', 'n', 't', 'r', 'o', 'l', ' ', '{']),
            ] + spec_control_block(self.cfg, (depth + 1) as nat) + seq![
                ((depth + 1) as nat, seq!['}']),
                (depth as nat, seq!['}']),
            ]);
        }
        out
    }
}

} // verus!
