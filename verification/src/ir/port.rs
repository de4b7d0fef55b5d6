use crate::frontend::ast::{i64_text, spec_decimal, spec_signed_decimal, usize_text};
use crate::utils::id::Id;
use vstd::prelude::*;

verus! {

/// An IR variable, named by an identifier.
#[derive(PartialEq, Eq, Structural, Clone, Copy)]
pub struct Variable {
    pub id: Id,
}

impl Variable {
    pub fn from(id: Id) -> (result: Self)
        ensures
            result.id == id,
    {
        Variable { id }
    }
}

/// A port represents a constant or an lvalue.
pub enum Port {
    Constant(i64),
    Variable(Variable),
    /// Non-canonical: the canonicalize pass collapses these into
    /// [`Port::Access`].
    PartialAccess(Box<Port>, Box<Port>),
    Access(Variable, Vec<Port>),
    LoweredAccess(Variable),
}

/// The mathematical value of a [`Port`].
pub enum PortV {
    Constant(i64),
    Variable(Variable),
    PartialAccess(Box<PortV>, Box<PortV>),
    Access(Variable, Seq<PortV>),
    LoweredAccess(Variable),
}

/// The value of a port.
pub open spec fn port_view(p: Port) -> PortV
    decreases p,
{
    match p {
        Port::Constant(c) => PortV::Constant(c),
        Port::Variable(v) => PortV::Variable(v),
        Port::PartialAccess(a, i) => PortV::PartialAccess(Box::new(port_view(*a)), Box::new(port_view(*i))),
        Port::Access(v, indices) => PortV::Access(v, ports_view(indices@)),
        Port::LoweredAccess(v) => PortV::LoweredAccess(v),
    }
}

/// The values of a list of ports.
pub open spec fn ports_view(s: Seq<Port>) -> Seq<PortV>
    decreases s,
{
    if s.len() == 0 {
        Seq::empty()
    } else {
        ports_view(s.drop_last()).push(port_view(s.last()))
    }
}

pub proof fn lemma_ports_view(s: Seq<Port>)
    ensures
        ports_view(s).len() == s.len(),
        forall|i: int| 0 <= i < s.len() ==> #[trigger] ports_view(s)[i] == port_view(s[i]),
    decreases s.len(),
{
    if s.len() > 0 {
        lemma_ports_view(s.drop_last());
        assert forall|i: int| 0 <= i < s.len() implies #[trigger] ports_view(s)[i] == port_view(s[i]) by {
            if i < s.len() - 1 {
                assert(s.drop_last()[i] == s[i]);
            }
        }
    }
}

impl View for Port {
    type V = PortV;

    open spec fn view(&self) -> PortV {
        port_view(*self)
    }
}

/// The variable at the root of an lvalue port, if it has one.
pub open spec fn spec_root_var(p: PortV) -> Option<Variable>
    decreases p,
{
    match p {
        PortV::Variable(v) => Some(v),
        PortV::Access(v, _) => Some(v),
        PortV::LoweredAccess(v) => Some(v),
        PortV::PartialAccess(inner, _) => spec_root_var(*inner),
        PortV::Constant(_) => None,
    }
}

/// The variables a port references, in order of appearance.
pub open spec fn spec_vars(p: PortV) -> Seq<Variable>
    decreases p,
{
    match p {
        PortV::Variable(v) => seq![v],
        PortV::Access(v, indices) => seq![v] + spec_vars_all(indices),
        PortV::PartialAccess(array, index) => spec_vars(*array) + spec_vars(*index),
        PortV::LoweredAccess(v) => seq![v],
        PortV::Constant(_) => Seq::empty(),
    }
}

/// The variables referenced by a list of ports, in order.
pub open spec fn spec_vars_all(ports: Seq<PortV>) -> Seq<Variable>
    decreases ports,
{
    if ports.len() == 0 {
        Seq::empty()
    } else {
        spec_vars_all(ports.drop_last()) + spec_vars(ports.last())
    }
}

/// A port and the ports nested directly inside it that it reads: the index
/// of a partial access, or the indices of an access.
pub open spec fn spec_ports_used(p: PortV) -> Seq<PortV> {
    match p {
        PortV::PartialAccess(_, index) => seq![p, *index],
        PortV::Access(_, indices) => seq![p] + indices,
        _ => seq![p],
    }
}

/// Concatenates `spec_ports_used` over a list of ports.
pub open spec fn spec_ports_used_all(ports: Seq<PortV>) -> Seq<PortV>
    decreases ports.len(),
{
    if ports.len() == 0 {
        Seq::empty()
    } else {
        spec_ports_used_all(ports.drop_last()) + spec_ports_used(ports.last())
    }
}

proof fn lemma_vars_all_push(ports: Seq<PortV>, p: PortV)
    ensures
        spec_vars_all(ports.push(p)) == spec_vars_all(ports) + spec_vars(p),
{
    assert(ports.push(p).drop_last() =~= ports);
}

proof fn lemma_ports_used_all_push(ports: Seq<PortV>, p: PortV)
    ensures
        spec_ports_used_all(ports.push(p)) == spec_ports_used_all(ports) + spec_ports_used(p),
{
    assert(ports.push(p).drop_last() =~= ports);
}

proof fn lemma_ports_view_prefix(s: Seq<Port>, i: int)
    requires
        0 <= i < s.len(),
    ensures
        ports_view(s.subrange(0, i + 1)) == ports_view(s.subrange(0, i)).push(port_view(s[i])),
{
    assert(s.subrange(0, i + 1).drop_last() =~= s.subrange(0, i));
}

/// Copies a list of ports.
pub fn duplicate_ports(ports: &Vec<Port>) -> (result: Vec<Port>)
    ensures
        ports_view(result@) == ports_view(ports@),
    decreases ports@,
{
    let mut result: Vec<Port> = Vec::new();
    let n = ports.len();
    let mut i: usize = 0;
    while i < n
        invariant
            0 <= i <= n,
            n == ports@.len(),
            ports_view(result@) == ports_view(ports@.subrange(0, i as int)),
        decreases n - i,
    {
        proof {
            assert(decreases_to!(ports@ => ports@[i as int]));
        }
        let ghost before = result@;
        result.push(ports[i].duplicate());
        proof {
            assert(result@.drop_last() =~= before);
            lemma_ports_view_prefix(ports@, i as int);
        }
        i = i + 1;
    }
    proof {
        assert(ports@.subrange(0, n as int) =~= ports@);
    }
    result
}

/// Whether two lists of ports are equal, entry by entry.
pub fn ports_equal(a: &Vec<Port>, b: &Vec<Port>) -> (result: bool)
    ensures
        result == (ports_view(a@) == ports_view(b@)),
    decreases a@,
{
    proof {
        lemma_ports_view(a@);
        lemma_ports_view(b@);
    }
    if a.len() != b.len() {
        return false;
    }
    let n = a.len();
    let mut i: usize = 0;
    while i < n
        invariant
            0 <= i <= n,
            n == a@.len(),
            n == b@.len(),
            ports_view(a@).len() == n,
            ports_view(b@).len() == n,
            forall|j: int| 0 <= j < a@.len() ==> #[trigger] ports_view(a@)[j] == port_view(a@[j]),
            forall|j: int| 0 <= j < b@.len() ==> #[trigger] ports_view(b@)[j] == port_view(b@[j]),
            forall|j: int| 0 <= j < i ==> ports_view(a@)[j] == ports_view(b@)[j],
        decreases n - i,
    {
        proof {
            assert(decreases_to!(a@ => a@[i as int]));
        }
        if !a[i].equals(&b[i]) {
            proof {
                assert(ports_view(a@)[i as int] != ports_view(b@)[i as int]);
            }
            return false;
        }
        i = i + 1;
    }
    proof {
        assert(ports_view(a@) =~= ports_view(b@));
    }
    true
}

/// The variables of every port in `ports`, in order.
pub fn vars_all(ports: &Vec<Port>) -> (result: Vec<Variable>)
    ensures
        result@ == spec_vars_all(ports_view(ports@)),
    decreases ports@,
{
    let mut result: Vec<Variable> = Vec::new();
    let n = ports.len();
    let mut i: usize = 0;
    while i < n
        invariant
            0 <= i <= n,
            n == ports@.len(),
            result@ == spec_vars_all(ports_view(ports@.subrange(0, i as int))),
        decreases n - i,
    {
        proof {
            assert(decreases_to!(ports@ => ports@[i as int]));
        }
        let mut more = ports[i].vars();
        result.append(&mut more);
        proof {
            lemma_ports_view_prefix(ports@, i as int);
            lemma_vars_all_push(ports_view(ports@.subrange(0, i as int)), port_view(ports@[i as int]));
        }
        i = i + 1;
    }
    proof {
        assert(ports@.subrange(0, n as int) =~= ports@);
    }
    result
}

/// The ports used by every port in `ports`, in order (see
/// [`spec_ports_used`]).
pub fn ports_used_all(ports: &Vec<Port>) -> (result: Vec<Port>)
    ensures
        ports_view(result@) == spec_ports_used_all(ports_view(ports@)),
{
    let mut result: Vec<Port> = Vec::new();
    let n = ports.len();
    let mut i: usize = 0;
    while i < n
        invariant
            0 <= i <= n,
            n == ports@.len(),
            ports_view(result@) == spec_ports_used_all(ports_view(ports@.subrange(0, i as int))),
        decreases n - i,
    {
        let ghost before = result@;
        let mut more = ports[i].ports_used();
        let ghost more_v = more@;
        result.append(&mut more);
        proof {
            lemma_ports_view_prefix(ports@, i as int);
            lemma_ports_used_all_push(
                ports_view(ports@.subrange(0, i as int)),
                port_view(ports@[i as int]),
            );
            lemma_ports_view_append(before, more_v);
        }
        i = i + 1;
    }
    proof {
        assert(ports@.subrange(0, n as int) =~= ports@);
    }
    result
}

/// The values of two lists of ports, one after the other.
pub proof fn lemma_ports_view_append(a: Seq<Port>, b: Seq<Port>)
    ensures
        ports_view(a + b) == ports_view(a) + ports_view(b),
    decreases b.len(),
{
    if b.len() == 0 {
        assert(a + b =~= a);
        assert(ports_view(a) + ports_view(b) =~= ports_view(a));
    } else {
        lemma_ports_view_append(a, b.drop_last());
        assert((a + b).drop_last() =~= a + b.drop_last());
        assert((a + b).last() == b.last());
        assert(ports_view(a) + ports_view(b) =~= (ports_view(a) + ports_view(b.drop_last())).push(
            port_view(b.last()),
        ));
    }
}

impl Port {
    /// A copy of this port.
    pub fn duplicate(&self) -> (result: Self)
        ensures
            result@ == self@,
        decreases *self,
    {
        match self {
            Port::Constant(value) => Port::Constant(*value),
            Port::Variable(var) => Port::Variable(*var),
            Port::PartialAccess(array, index) => Port::PartialAccess(
                Box::new(array.duplicate()),
                Box::new(index.duplicate()),
            ),
            Port::Access(var, indices) => Port::Access(*var, duplicate_ports(indices)),
            Port::LoweredAccess(var) => Port::LoweredAccess(*var),
        }
    }

    /// Whether two ports are the same.
    pub fn equals(&self, other: &Port) -> (result: bool)
        ensures
            result == (self@ == other@),
        decreases *self,
    {
        match (self, other) {
            (Port::Constant(a), Port::Constant(b)) => *a == *b,
            (Port::Variable(a), Port::Variable(b)) => *a == *b,
            (Port::PartialAccess(a1, i1), Port::PartialAccess(a2, i2)) => {
                a1.equals(a2) && i1.equals(i2)
            },
            (Port::Access(v1, i1), Port::Access(v2, i2)) => *v1 == *v2 && ports_equal(i1, i2),
            (Port::LoweredAccess(a), Port::LoweredAccess(b)) => *a == *b,
            _ => false,
        }
    }

    /// The variable at the root of this lvalue, if any.
    pub fn root_var(&self) -> (result: Option<Variable>)
        ensures
            result == spec_root_var(self@),
        decreases *self,
    {
        match self {
            Port::Variable(var) => Some(*var),
            Port::Access(var, _) => Some(*var),
            Port::LoweredAccess(var) => Some(*var),
            Port::PartialAccess(port, _) => port.root_var(),
            Port::Constant(_) => None,
        }
    }

    /// The variables this port references.
    pub fn vars(&self) -> (result: Vec<Variable>)
        ensures
            result@ == spec_vars(self@),
        decreases *self,
    {
        match self {
            Port::Variable(var) => {
                let mut result = Vec::new();
                result.push(*var);
                proof {
                    assert(result@ =~= seq![*var]);
                }
                result
            },
            Port::Access(array_var, indices) => {
                let mut result = Vec::new();
                result.push(*array_var);
                let mut rest = vars_all(indices);
                result.append(&mut rest);
                proof {
                    assert(result@ =~= seq![*array_var] + spec_vars_all(ports_view(indices@)));
                }
                result
            },
            Port::PartialAccess(array, index) => {
                let mut result = array.vars();
                let mut rest = index.vars();
                result.append(&mut rest);
                result
            },
            Port::LoweredAccess(var) => {
                let mut result = Vec::new();
                result.push(*var);
                proof {
                    assert(result@ =~= seq![*var]);
                }
                result
            },
            Port::Constant(_) => Vec::new(),
        }
    }

    /// This port followed by the ports nested inside it that it reads.
    pub fn ports_used(&self) -> (result: Vec<Port>)
        ensures
            ports_view(result@) == spec_ports_used(self@),
    {
        let mut result = Vec::new();
        let copy = self.duplicate();
        result.push(copy);
        proof {
            assert(ports_view(result@) =~= seq![self@]) by {
                assert(result@.drop_last() =~= Seq::<Port>::empty());
                assert(ports_view(Seq::<Port>::empty()) =~= Seq::<PortV>::empty());
                assert(result@.last() == copy);
            }
        }
        match self {
            Port::PartialAccess(_, index) => {
                let ghost before = result@;
                result.push(index.duplicate());
                proof {
                    assert(result@.drop_last() =~= before);
                    assert(ports_view(result@) =~= spec_ports_used(self@));
                }
            },
            Port::Access(_, indices) => {
                let ghost before = result@;
                let mut rest = duplicate_ports(indices);
                let ghost rest_v = rest@;
                result.append(&mut rest);
                proof {
                    lemma_ports_view_append(before, rest_v);
                    assert(ports_view(result@) =~= spec_ports_used(self@));
                }
            },
            _ => {},
        }
        result
    }
}

/// How a variable is displayed: `i` followed by its identifier.
pub open spec fn spec_var_text(v: Variable) -> Seq<char> {
    seq!['i'] + spec_decimal(v.id as nat)
}

/// How a port is displayed: a constant in decimal, a variable, an access
/// with each index in brackets, and a lowered access with a placeholder
/// index.
pub open spec fn spec_port_text(p: PortV) -> Seq<char>
    decreases p,
{
    match p {
        PortV::Constant(c) => spec_signed_decimal(c as int),
        PortV::Variable(v) => spec_var_text(v),
        PortV::PartialAccess(m, i) => spec_port_text(*m) + seq!['['] + spec_port_text(*i) + seq![
            ']',
        ],
        PortV::Access(v, indices) => spec_var_text(v) + spec_indices_text(indices),
        PortV::LoweredAccess(v) => spec_var_text(v) + "[<generated>]"@,
    }
}

/// Each index of `indices` in brackets, one after another.
pub open spec fn spec_indices_text(indices: Seq<PortV>) -> Seq<char>
    decreases indices,
{
    if indices.len() == 0 {
        Seq::empty()
    } else {
        spec_indices_text(indices.drop_last()) + seq!['['] + spec_port_text(indices.last())
            + seq![']']
    }
}

impl Variable {
    /// How the variable is displayed (see [`spec_var_text`]).
    pub fn to_text(&self) -> (result: String)
        ensures
            result@ == spec_var_text(*self),
    {
        let prefix = "i";
        proof {
            reveal_strlit("i");
        }
        let mut result = prefix.to_owned();
        let digits = usize_text(self.id);
        result.append(digits.as_str());
        result
    }
}

impl Port {
    /// How the port is displayed (see [`spec_port_text`]).
    pub fn to_text(&self) -> (result: String)
        ensures
            result@ == spec_port_text(self@),
        decreases self,
    {
        let open = "[";
        let close = "]";
        proof {
            reveal_strlit("[");
            reveal_strlit("]");
        }
        match self {
            Port::Constant(c) => i64_text(*c),
            Port::Variable(v) => v.to_text(),
            Port::PartialAccess(m, i) => {
                let mut result = m.to_text();
                result.append(open);
                let index = i.to_text();
                result.append(index.as_str());
                result.append(close);
                result
            },
            Port::Access(v, indices) => {
                let mut result = v.to_text();
                let rest = indices_text(indices);
                result.append(rest.as_str());
                result
            },
            Port::LoweredAccess(v) => {
                let mut result = v.to_text();
                let placeholder = "[<generated>]";
                proof {
                    reveal_strlit("[<generated>]");
                }
                result.append(placeholder);
                result
            },
        }
    }
}

/// Each index of `indices` in brackets (see [`spec_indices_text`]).
pub fn indices_text(indices: &Vec<Port>) -> (result: String)
    ensures
        result@ == spec_indices_text(ports_view(indices@)),
    decreases indices@,
{
    let open = "[";
    let close = "]";
    proof {
        reveal_strlit("[");
        reveal_strlit("]");
        lemma_ports_view(indices@);
        assert(ports_view(indices@).subrange(0, 0) =~= Seq::<PortV>::empty());
    }
    let mut result = String::new();
    let n = indices.len();
    let mut k: usize = 0;
    while k < n
        invariant
            0 <= k <= n,
            n == indices@.len(),
            open@ == seq!['['],
            close@ == seq![']'],
            ports_view(indices@).len() == n,
            forall|j: int| 0 <= j < n ==> #[trigger] ports_view(indices@)[j] == indices@[j]@,
            result@ == spec_indices_text(ports_view(indices@).subrange(0, k as int)),
        decreases n - k,
    {
        proof {
            assert(decreases_to!(indices@ => indices@[k as int]));
            let pre = ports_view(indices@).subrange(0, k + 1);
            assert(pre.drop_last() =~= ports_view(indices@).subrange(0, k as int));
            assert(pre.last() == indices@[k as int]@);
        }
        result.append(open);
        let text = indices[k].to_text();
        result.append(text.as_str());
        result.append(close);
        k = k + 1;
    }
    proof {
        assert(ports_view(indices@).subrange(0, n as int) =~= ports_view(indices@));
    }
    result
}


/// A value an instruction can read directly: a constant or a variable.
#[derive(PartialEq, Eq, Structural, Clone, Copy)]
pub enum Operand {
    Constant(i64),
    Variable(Variable),
}

/// How an operand is displayed: a constant in decimal, or a variable.
pub open spec fn spec_operand_text(o: Operand) -> Seq<char> {
    match o {
        Operand::Constant(c) => spec_signed_decimal(c as int),
        Operand::Variable(v) => spec_var_text(v),
    }
}

impl Operand {
    /// How the operand is displayed (see [`spec_operand_text`]).
    pub fn to_text(&self) -> (result: String)
        ensures
            result@ == spec_operand_text(*self),
    {
        match self {
            Operand::Constant(c) => i64_text(*c),
            Operand::Variable(v) => v.to_text(),
        }
    }
}

} // verus!
