use super::port::{
    lemma_ports_view, port_view, spec_port_text, ports_used_all, ports_view, spec_ports_used_all, spec_root_var, Port, PortV, Variable,
};
use vstd::prelude::*;

verus! {

/// An IR operation.
pub enum Ir {
    /// A combinational addition
    Add(Port, Port, Port),
    /// A pipelined multiply with an II of 1 and latency of 4
    Mul(Port, Port, Port),
    Assign(Port, Port),
}

/// The mathematical value of an [`Ir`].
pub enum IrV {
    Add(PortV, PortV, PortV),
    Mul(PortV, PortV, PortV),
    Assign(PortV, PortV),
}

impl View for Ir {
    type V = IrV;

    open spec fn view(&self) -> IrV {
        match *self {
            Ir::Add(a, b, c) => IrV::Add(a@, b@, c@),
            Ir::Mul(a, b, c) => IrV::Mul(a@, b@, c@),
            Ir::Assign(a, b) => IrV::Assign(a@, b@),
        }
    }
}

/// The port an operation writes.
pub open spec fn spec_kill(ir: IrV) -> PortV {
    match ir {
        IrV::Add(k, _, _) => k,
        IrV::Mul(k, _, _) => k,
        IrV::Assign(k, _) => k,
    }
}

/// The top-level ports an operation reads.
pub open spec fn spec_gen(ir: IrV) -> Seq<PortV> {
    match ir {
        IrV::Add(_, a, b) => seq![a, b],
        IrV::Mul(_, a, b) => seq![a, b],
        IrV::Assign(_, a) => seq![a],
    }
}

/// All top-level ports of an operation, the written one first.
pub open spec fn spec_ports(ir: IrV) -> Seq<PortV> {
    seq![spec_kill(ir)] + spec_gen(ir)
}

/// The operation with its written port replaced by `new_kill`.
pub open spec fn spec_replace_kill(ir: IrV, new_kill: PortV) -> IrV {
    match ir {
        IrV::Add(_, a, b) => IrV::Add(new_kill, a, b),
        IrV::Mul(_, a, b) => IrV::Mul(new_kill, a, b),
        IrV::Assign(_, b) => IrV::Assign(new_kill, b),
    }
}

/// Replaces the port that `ir` assigns to with `new_kill`.
pub fn replace_kill(ir: &Ir, new_kill: Port) -> (result: Ir)
    ensures
        result@ == spec_replace_kill(ir@, new_kill@),
{
    match ir {
        Ir::Add(_, a, b) => Ir::Add(new_kill, a.duplicate(), b.duplicate()),
        Ir::Mul(_, a, b) => Ir::Mul(new_kill, a.duplicate(), b.duplicate()),
        Ir::Assign(_, b) => Ir::Assign(new_kill, b.duplicate()),
    }
}

fn pair(a: Port, b: Port) -> (result: Vec<Port>)
    ensures
        ports_view(result@) == seq![a@, b@],
{
    let mut result = Vec::new();
    result.push(a);
    result.push(b);
    proof {
        lemma_ports_view(result@);
        assert(ports_view(result@) =~= seq![a@, b@]);
    }
    result
}

fn single(a: Port) -> (result: Vec<Port>)
    ensures
        ports_view(result@) == seq![a@],
{
    let mut result = Vec::new();
    result.push(a);
    proof {
        lemma_ports_view(result@);
        assert(ports_view(result@) =~= seq![a@]);
    }
    result
}

fn triple(a: Port, b: Port, c: Port) -> (result: Vec<Port>)
    ensures
        ports_view(result@) == seq![a@, b@, c@],
{
    let mut result = pair(a, b);
    let ghost before = result@;
    result.push(c);
    proof {
        lemma_ports_view(result@);
        lemma_ports_view(before);
        assert(ports_view(result@) =~= seq![a@, b@, c@]);
    }
    result
}

impl Ir {
    /// A copy of this operation.
    pub fn duplicate(&self) -> (result: Self)
        ensures
            result@ == self@,
    {
        match self {
            Ir::Add(a, b, c) => Ir::Add(a.duplicate(), b.duplicate(), c.duplicate()),
            Ir::Mul(a, b, c) => Ir::Mul(a.duplicate(), b.duplicate(), c.duplicate()),
            Ir::Assign(a, b) => Ir::Assign(a.duplicate(), b.duplicate()),
        }
    }

    /// The port this operation writes.
    pub fn kill(&self) -> (result: &Port)
        ensures
            result@ == spec_kill(self@),
    {
        match self {
            Ir::Add(lhs, _, _) => lhs,
            Ir::Mul(lhs, _, _) => lhs,
            Ir::Assign(lhs, _) => lhs,
        }
    }

    /// The variable at the root of the port this operation writes.
    pub fn kill_var(&self) -> (result: Option<Variable>)
        ensures
            result == spec_root_var(spec_kill(self@)),
    {
        self.kill().root_var()
    }

    /// The top-level ports read by this IR instruction.
    pub fn gen_ref(&self) -> (result: Vec<Port>)
        ensures
            ports_view(result@) == spec_gen(self@),
    {
        match self {
            Ir::Add(_, a, b) => pair(a.duplicate(), b.duplicate()),
            Ir::Mul(_, a, b) => pair(a.duplicate(), b.duplicate()),
            Ir::Assign(_, a) => single(a.duplicate()),
        }
    }

    /// Every single port read by this IR instruction, recursively.
    pub fn gen_used(&self) -> (result: Vec<Port>)
        ensures
            ports_view(result@) == spec_ports_used_all(spec_gen(self@)),
    {
        let gens = self.gen_ref();
        ports_used_all(&gens)
    }

    /// The top-level ports in this IR instruction, the written one first.
    pub fn ports_ref(&self) -> (result: Vec<Port>)
        ensures
            ports_view(result@) == spec_ports(self@),
    {
        let result = match self {
            Ir::Add(a, b, c) => triple(a.duplicate(), b.duplicate(), c.duplicate()),
            Ir::Mul(a, b, c) => triple(a.duplicate(), b.duplicate(), c.duplicate()),
            Ir::Assign(a, b) => pair(a.duplicate(), b.duplicate()),
        };
        proof {
            assert(ports_view(result@) =~= spec_ports(self@));
        }
        result
    }

    /// Every single port referenced in this IR instruction.
    pub fn ports_used_ref(&self) -> (result: Vec<Port>)
        ensures
            ports_view(result@) == spec_ports_used_all(spec_ports(self@)),
    {
        let ports = self.ports_ref();
        ports_used_all(&ports)
    }
}

/// How an operation is displayed: the result, `=`, and the operands joined
/// by `+` or `*`.
pub open spec fn spec_ir_text(ir: IrV) -> Seq<char> {
    match ir {
        IrV::Add(r, a, b) => spec_port_text(r) + " = "@ + spec_port_text(a) + " + "@ + spec_port_text(b),
        IrV::Mul(r, a, b) => spec_port_text(r) + " = "@ + spec_port_text(a) + " * "@ + spec_port_text(b),
        IrV::Assign(r, a) => spec_port_text(r) + " = "@ + spec_port_text(a),
    }
}

impl Ir {
    /// How the operation is displayed (see [`spec_ir_text`]).
    pub fn to_text(&self) -> (result: String)
        ensures
            result@ == spec_ir_text(self@),
    {
        let equals = " = ";
        let plus = " + ";
        let times = " * ";
        proof {
            reveal_strlit(" = ");
            reveal_strlit(" + ");
            reveal_strlit(" * ");
        }
        match self {
            Ir::Add(r, a, b) => {
                let mut result = r.to_text();
                result.append(equals);
                result.append(a.to_text().as_str());
                result.append(plus);
                result.append(b.to_text().as_str());
                result
            },
            Ir::Mul(r, a, b) => {
                let mut result = r.to_text();
                result.append(equals);
                result.append(a.to_text().as_str());
                result.append(times);
                result.append(b.to_text().as_str());
                result
            },
            Ir::Assign(r, a) => {
                let mut result = r.to_text();
                result.append(equals);
                result.append(a.to_text().as_str());
                result
            },
        }
    }
}

} // verus!
