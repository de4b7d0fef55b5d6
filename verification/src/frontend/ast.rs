use crate::frontend::attribute::{Attribute, Attributes};
use crate::frontend::parser::str_equals;
use crate::frontend::token::Token;
use crate::utils::id::Id;
use crate::utils::format::{lines_view, push_line, Line};
use crate::utils::loc::utf8_len;
use vstd::prelude::*;

verus! {

/// The decimal digits of `n`.
pub open spec fn spec_decimal(n: nat) -> Seq<char>
    decreases n,
{
    if n < 10 {
        seq![(n + 48) as char]
    } else {
        spec_decimal(n / 10).push(((n % 10) + 48) as char)
    }
}

/// The decimal text of `n`, with a minus sign when negative.
pub open spec fn spec_signed_decimal(n: int) -> Seq<char> {
    if n < 0 {
        seq!['-'] + spec_decimal((-n) as nat)
    } else {
        spec_decimal(n as nat)
    }
}

/// The text of the decimal digit `d`.
fn digit_text(d: u64) -> (result: &'static str)
    requires
        d < 10,
    ensures
        result@ == seq![(d + 48) as char],
{
    proof {
        reveal_strlit("0");
        reveal_strlit("1");
        reveal_strlit("2");
        reveal_strlit("3");
        reveal_strlit("4");
        reveal_strlit("5");
        reveal_strlit("6");
        reveal_strlit("7");
        reveal_strlit("8");
        reveal_strlit("9");
    }
    match d {
        0 => "0",
        1 => "1",
        2 => "2",
        3 => "3",
        4 => "4",
        5 => "5",
        6 => "6",
        7 => "7",
        8 => "8",
        _ => "9",
    }
}

/// The decimal text of `n`.
fn u64_text(n: u64) -> (result: String)
    ensures
        result@ == spec_decimal(n as nat),
    decreases n,
{
    if n < 10 {
        text_of(digit_text(n))
    } else {
        let mut result = u64_text(n / 10);
        result.append(digit_text(n % 10));
        result
    }
}

/// The decimal text of `n`, as `usize::to_string` writes it.
pub fn usize_text(n: usize) -> (result: String)
    ensures
        result@ == spec_decimal(n as nat),
{
    u64_text(n as u64)
}

/// The decimal text of `n`, with a minus sign when negative, as
/// `i64::to_string` writes it.
pub fn i64_text(n: i64) -> (result: String)
    ensures
        result@ == spec_signed_decimal(n as int),
{
    if n < 0 {
        let magnitude: u64 = ((-(n + 1)) as u64) + 1;
        let mut result = text_of("-");
        let digits = u64_text(magnitude);
        result.append(digits.as_str());
        proof {
            reveal_strlit("-");
        }
        result
    } else {
        u64_text(n as u64)
    }
}

/// A size constraint on arrays. This isn't a real liquid type: the only
/// constraint it can express is equality to a given number; `All` is an
/// unknown size, told apart from others by its identifier.
#[derive(PartialEq, Eq, Structural, Clone, Copy)]
pub enum LiquidTypeValue {
    Equal(usize),
    All(Id),
}

/// A size constraint with its attributes and the tokens it spans.
pub struct LiquidType {
    pub value: LiquidTypeValue,
    pub attributes: Attributes,
    pub start_token: Token,
    pub end_token: Token,
}

/// The shapes of types.
pub enum TypeValue {
    Unit,
    Var(Id),
    Name(String),
    Int64,
    Array(Box<Type>, Box<LiquidType>),
    Function { inputs: Vec<Type>, outputs: Vec<Type> },
}

/// A type with its attributes and the tokens it spans.
pub struct Type {
    pub value: TypeValue,
    pub attributes: Attributes,
    pub start_token: Token,
    pub end_token: Token,
}

/// The mathematical value of a type: its shape, without source tokens.
pub enum TypeV {
    Unit,
    Var(Id),
    Name(Seq<char>),
    Int64,
    Array(Box<TypeV>, LiquidTypeValue),
    Function(Seq<TypeV>, Seq<TypeV>),
}

/// The value of a type, from its value alone.
pub open spec fn type_value_view(v: TypeValue) -> TypeV {
    match v {
        TypeValue::Unit => TypeV::Unit,
        TypeValue::Var(id) => TypeV::Var(id),
        TypeValue::Name(name) => TypeV::Name(name@),
        TypeValue::Int64 => TypeV::Int64,
        TypeValue::Array(element, count) => TypeV::Array(Box::new(type_view(*element)), count.value),
        TypeValue::Function { inputs, outputs } => TypeV::Function(
            types_view(inputs@),
            types_view(outputs@),
        ),
    }
}

/// The value of a type.
pub open spec fn type_view(t: Type) -> TypeV
    decreases t,
{
    match t.value {
        TypeValue::Unit => TypeV::Unit,
        TypeValue::Var(id) => TypeV::Var(id),
        TypeValue::Name(name) => TypeV::Name(name@),
        TypeValue::Int64 => TypeV::Int64,
        TypeValue::Array(element, count) => TypeV::Array(Box::new(type_view(*element)), count.value),
        TypeValue::Function { inputs, outputs } => TypeV::Function(
            types_view(inputs@),
            types_view(outputs@),
        ),
    }
}

/// The types directly inside `t`: an array's element type, or a function's
/// inputs then outputs.
pub open spec fn subterm_parts(t: Type) -> Seq<Type> {
    match t.value {
        TypeValue::Array(element, _) => seq![*element],
        TypeValue::Function { inputs, outputs } => inputs@ + outputs@,
        _ => Seq::empty(),
    }
}

/// The values of a list of types.
pub open spec fn types_view(ts: Seq<Type>) -> Seq<TypeV>
    decreases ts,
{
    if ts.len() == 0 {
        Seq::empty()
    } else {
        types_view(ts.drop_last()).push(type_view(ts.last()))
    }
}

impl View for Type {
    type V = TypeV;

    open spec fn view(&self) -> TypeV {
        type_view(*self)
    }
}

pub proof fn lemma_types_view(ts: Seq<Type>)
    ensures
        types_view(ts).len() == ts.len(),
        forall|i: int| 0 <= i < ts.len() ==> #[trigger] types_view(ts)[i] == type_view(ts[i]),
    decreases ts.len(),
{
    if ts.len() > 0 {
        lemma_types_view(ts.drop_last());
        assert forall|i: int| 0 <= i < ts.len() implies #[trigger] types_view(ts)[i] == type_view(
            ts[i],
        ) by {
            if i < ts.len() - 1 {
                assert(ts.drop_last()[i] == ts[i]);
            }
        }
    }
}

/// How a size constraint is displayed: its number, or `?` when unknown.
pub open spec fn spec_liquid_text(l: LiquidTypeValue) -> Seq<char> {
    match l {
        LiquidTypeValue::Equal(n) => spec_decimal(n as nat),
        LiquidTypeValue::All(_) => seq!['?'],
    }
}

/// How a type is displayed: `Unit`, `'t` and its number for a variable, its
/// name, `Int64`, the element type followed by the size in brackets, or the
/// input and output types, each list comma-separated in parentheses, with
/// `->` between them.
pub open spec fn spec_type_text(t: TypeV) -> Seq<char>
    decreases t,
{
    match t {
        TypeV::Unit => seq!['U', 'n', 'i', 't'],
        TypeV::Var(id) => seq!['\'', 't'] + spec_decimal(id as nat),
        TypeV::Name(name) => name,
        TypeV::Int64 => seq!['I', 'n', 't', '6', '4'],
        TypeV::Array(element, count) => spec_type_text(*element) + seq!['['] + spec_liquid_text(
            count,
        ) + seq![']'],
        TypeV::Function(inputs, outputs) => seq!['('] + spec_types_text(inputs, seq![',', ' '])
            + seq![')', ' ', '-', '>', ' ', '('] + spec_types_text(outputs, seq![',', ' '])
            + seq![')'],
    }
}

/// The texts of `ts` joined by `sep`.
pub open spec fn spec_types_text(ts: Seq<TypeV>, sep: Seq<char>) -> Seq<char>
    decreases ts,
{
    if ts.len() == 0 {
        Seq::empty()
    } else if ts.len() == 1 {
        spec_type_text(ts[0])
    } else {
        spec_types_text(ts.drop_last(), sep) + sep + spec_type_text(ts.last())
    }
}

/// The mangled name of a type: `u` for unit, the byte length of a name
/// followed by the name, `q` for `Int64`, `A` followed by the size and the
/// element type's text for an array, and `F` followed by the number and
/// texts of the inputs, then of the outputs, for a function.
pub open spec fn spec_mangle(t: TypeV, name_bytes: nat) -> Seq<char> {
    match t {
        TypeV::Unit => seq!['u'],
        TypeV::Name(name) => spec_decimal(name_bytes) + name,
        TypeV::Int64 => seq!['q'],
        TypeV::Array(element, count) => seq!['A'] + spec_liquid_text(count) + spec_type_text(
            *element,
        ),
        TypeV::Function(inputs, outputs) => seq!['F'] + spec_decimal(inputs.len()) + spec_types_text(
            inputs,
            Seq::empty(),
        ) + spec_decimal(outputs.len()) + spec_types_text(outputs, Seq::empty()),
        TypeV::Var(_) => Seq::empty(),
    }
}

/// Whether the storage size of a type can be computed: no variable, no
/// user-defined name, every array of known size, and every size within a
/// machine word.
pub open spec fn size_defined(t: TypeV) -> bool
    decreases t,
{
    match t {
        TypeV::Var(_) => false,
        TypeV::Name(_) => false,
        TypeV::Array(element, count) => match count {
            LiquidTypeValue::Equal(n) => size_defined(*element) && spec_size(*element) * n
                <= usize::MAX,
            LiquidTypeValue::All(_) => false,
        },
        _ => true,
    }
}

/// The number of bytes to store one value of a type: nothing for unit,
/// eight for an integer or a function, and the element size times the count
/// for an array.
pub open spec fn spec_size(t: TypeV) -> nat
    decreases t,
{
    match t {
        TypeV::Int64 => 8,
        TypeV::Function(_, _) => 8,
        TypeV::Array(element, count) => match count {
            LiquidTypeValue::Equal(n) => spec_size(*element) * (n as nat),
            LiquidTypeValue::All(_) => 0,
        },
        _ => 0,
    }
}

/// Whether two type shapes have the same outermost constructor.
pub open spec fn same_constructor(a: TypeV, b: TypeV) -> bool {
    match (a, b) {
        (TypeV::Unit, TypeV::Unit) => true,
        (TypeV::Var(_), TypeV::Var(_)) => true,
        (TypeV::Name(_), TypeV::Name(_)) => true,
        (TypeV::Int64, TypeV::Int64) => true,
        (TypeV::Array(_, _), TypeV::Array(_, _)) => true,
        (TypeV::Function(_, _), TypeV::Function(_, _)) => true,
        _ => false,
    }
}

/// The types directly inside a type: an array's element type, or a
/// function's inputs followed by its outputs.
pub open spec fn spec_subterms(t: TypeV) -> Seq<TypeV> {
    match t {
        TypeV::Array(element, _) => seq![*element],
        TypeV::Function(inputs, outputs) => inputs + outputs,
        _ => Seq::empty(),
    }
}

/// The size constraints directly inside a type.
pub open spec fn spec_liquid_subterms(t: TypeV) -> Seq<LiquidTypeValue> {
    match t {
        TypeV::Array(_, count) => seq![count],
        _ => Seq::empty(),
    }
}

impl LiquidType {
    /// A copy of this size constraint.
    pub fn duplicate(&self) -> (result: Self)
        ensures
            result == *self,
    {
        LiquidType {
            value: self.value,
            attributes: self.attributes,
            start_token: self.start_token.duplicate(),
            end_token: self.end_token.duplicate(),
        }
    }

    /// How the size constraint is displayed (see [`spec_liquid_text`]).
    pub fn to_text(&self) -> (result: String)
        ensures
            result@ == spec_liquid_text(self.value),
    {
        match self.value {
            LiquidTypeValue::Equal(n) => usize_text(n),
            LiquidTypeValue::All(_) => {
                let text = "?";
                proof {
                    reveal_strlit("?");
                    assert(text@ =~= seq!['?']);
                }
                text.to_owned()
            },
        }
    }
}

/// Copies of a list of types.
/// Whether `a` is a copy of `b` down to its own attributes and tokens.
pub open spec fn same_surface(a: Type, b: Type) -> bool {
    a@ == b@ && a.attributes == b.attributes && a.start_token == b.start_token && a.end_token
        == b.end_token
}

pub fn duplicate_types(ts: &Vec<Type>) -> (result: Vec<Type>)
    ensures
        types_view(result@) == types_view(ts@),
        result@.len() == ts@.len(),
        forall|j: int| 0 <= j < ts@.len() ==> same_surface(#[trigger] result@[j], ts@[j]),
{
    let mut result: Vec<Type> = Vec::new();
    let n = ts.len();
    let mut i: usize = 0;
    proof {
        lemma_types_view(ts@);
    }
    while i < n
        invariant
            0 <= i <= n,
            n == ts@.len(),
            result@.len() == i,
            forall|j: int| 0 <= j < i ==> type_view(#[trigger] result@[j]) == type_view(ts@[j]),
            forall|j: int| 0 <= j < i ==> same_surface(#[trigger] result@[j], ts@[j]),
        decreases n - i,
    {
        result.push(ts[i].duplicate());
        i = i + 1;
    }
    proof {
        lemma_types_view(result@);
        assert(types_view(result@) =~= types_view(ts@));
    }
    result
}

/// The texts of a list of types joined by `sep` (see [`spec_types_text`]).
pub fn types_text(ts: &Vec<Type>, sep: &str) -> (result: String)
    ensures
        result@ == spec_types_text(types_view(ts@), sep@),
    decreases ts@,
{
    proof {
        lemma_types_view(ts@);
    }
    let mut result = String::new();
    let n = ts.len();
    let mut i: usize = 0;
    proof {
        assert(types_view(ts@).subrange(0, 0) =~= Seq::<TypeV>::empty());
    }
    while i < n
        invariant
            0 <= i <= n,
            n == ts@.len(),
            types_view(ts@).len() == n,
            forall|j: int| 0 <= j < n ==> #[trigger] types_view(ts@)[j] == type_view(ts@[j]),
            result@ == spec_types_text(types_view(ts@).subrange(0, i as int), sep@),
        decreases n - i,
    {
        proof {
            assert(decreases_to!(ts@ => ts@[i as int]));
            let pre = types_view(ts@).subrange(0, i + 1);
            assert(pre.drop_last() =~= types_view(ts@).subrange(0, i as int));
            assert(pre.last() == type_view(ts@[i as int]));
            if i == 0 {
                assert(pre =~= seq![type_view(ts@[0])]);
            }
        }
        if i > 0 {
            result.append(sep);
        }
        let text = ts[i].to_text();
        result.append(text.as_str());
        i = i + 1;
    }
    proof {
        assert(types_view(ts@).subrange(0, n as int) =~= types_view(ts@));
    }
    result
}

impl Type {
    /// A copy of this type.
    pub fn duplicate(&self) -> (result: Self)
        ensures
            result@ == self@,
            result.attributes == self.attributes,
            result.start_token == self.start_token,
            result.end_token == self.end_token,
        decreases *self,
    {
        let value = match &self.value {
            TypeValue::Unit => TypeValue::Unit,
            TypeValue::Var(id) => TypeValue::Var(*id),
            TypeValue::Name(name) => TypeValue::Name(name.clone()),
            TypeValue::Int64 => TypeValue::Int64,
            TypeValue::Array(element, count) => TypeValue::Array(
                Box::new(element.duplicate()),
                Box::new(count.duplicate()),
            ),
            TypeValue::Function { inputs, outputs } => TypeValue::Function {
                inputs: duplicate_types_rec(inputs),
                outputs: duplicate_types_rec(outputs),
            },
        };
        Type {
            value,
            attributes: self.attributes,
            start_token: self.start_token.duplicate(),
            end_token: self.end_token.duplicate(),
        }
    }

    /// How the type is displayed (see [`spec_type_text`]).
    pub fn to_text(&self) -> (result: String)
        ensures
            result@ == spec_type_text(self@),
        decreases *self,
    {
        match &self.value {
            TypeValue::Unit => {
                let text = "Unit";
                proof {
                    reveal_strlit("Unit");
                    assert(text@ =~= seq!['U', 'n', 'i', 't']);
                }
                text.to_owned()
            },
            TypeValue::Var(id) => {
                let text = "'t";
                proof {
                    reveal_strlit("'t");
                    assert(text@ =~= seq!['\'', 't']);
                }
                let digits = usize_text(*id);
                let mut result = text.to_owned();
                result.append(digits.as_str());
                result
            },
            TypeValue::Name(name) => name.clone(),
            TypeValue::Int64 => {
                let text = "Int64";
                proof {
                    reveal_strlit("Int64");
                    assert(text@ =~= seq!['I', 'n', 't', '6', '4']);
                }
                text.to_owned()
            },
            TypeValue::Array(element, count) => {
                let mut result = element.to_text();
                let open = "[";
                let close = "]";
                proof {
                    reveal_strlit("[");
                    reveal_strlit("]");
                    assert(open@ =~= seq!['[']);
                    assert(close@ =~= seq![']']);
                }
                result.append(open);
                let size = count.to_text();
                result.append(size.as_str());
                result.append(close);
                result
            },
            TypeValue::Function { inputs, outputs } => {
                let open = "(";
                let sep = ", ";
                let arrow = ") -> (";
                let close = ")";
                proof {
                    reveal_strlit("(");
                    reveal_strlit(", ");
                    reveal_strlit(") -> (");
                    reveal_strlit(")");
                    assert(open@ =~= seq!['(']);
                    assert(sep@ =~= seq![',', ' ']);
                    assert(arrow@ =~= seq![')', ' ', '-', '>', ' ', '(']);
                    assert(close@ =~= seq![')']);
                }
                let mut result = open.to_owned();
                let ins = types_text(inputs, sep);
                result.append(ins.as_str());
                result.append(arrow);
                let outs = types_text(outputs, sep);
                result.append(outs.as_str());
                result.append(close);
                proof {
                    assert(result@ =~= spec_type_text(self@));
                }
                result
            },
        }
    }

    /// The number of bytes to store one value of this type (see
    /// [`spec_size`]).
    pub fn size(&self) -> (result: usize)
        requires
            size_defined(self@),
        ensures
            result == spec_size(self@),
        decreases *self,
    {
        match &self.value {
            TypeValue::Int64 => 8,
            TypeValue::Function { .. } => 8,
            TypeValue::Array(element, count) => match count.value {
                LiquidTypeValue::Equal(n) => element.size() * n,
                LiquidTypeValue::All(_) => 0,
            },
            _ => 0,
        }
    }

    /// The mangled name of this type (see [`spec_mangle`]).
    pub fn mangle(&self) -> (result: String)
        requires
            !(self@ is Var),
        ensures
            result@ == spec_mangle(
                self@,
                match self.value {
                    TypeValue::Name(name) => (utf8_len(name) as usize) as nat,
                    _ => 0,
                },
            ),
    {
        match &self.value {
            TypeValue::Unit => {
                let text = "u";
                proof {
                    reveal_strlit("u");
                    assert(text@ =~= seq!['u']);
                }
                text.to_owned()
            },
            TypeValue::Var(_) => String::new(),
            TypeValue::Name(name) => {
                let mut result = usize_text(name.as_str().len());
                result.append(name.as_str());
                result
            },
            TypeValue::Int64 => {
                let text = "q";
                proof {
                    reveal_strlit("q");
                    assert(text@ =~= seq!['q']);
                }
                text.to_owned()
            },
            TypeValue::Array(element, count) => {
                let text = "A";
                proof {
                    reveal_strlit("A");
                    assert(text@ =~= seq!['A']);
                }
                let mut result = text.to_owned();
                let size = count.to_text();
                result.append(size.as_str());
                let inner = element.to_text();
                result.append(inner.as_str());
                result
            },
            TypeValue::Function { inputs, outputs } => {
                let text = "F";
                let none = "";
                proof {
                    reveal_strlit("F");
                    reveal_strlit("");
                    assert(text@ =~= seq!['F']);
                    assert(none@ =~= Seq::<char>::empty());
                    lemma_types_view(inputs@);
                    lemma_types_view(outputs@);
                }
                let mut result = text.to_owned();
                let n_in = usize_text(inputs.len());
                result.append(n_in.as_str());
                let ins = types_text(inputs, none);
                result.append(ins.as_str());
                let n_out = usize_text(outputs.len());
                result.append(n_out.as_str());
                let outs = types_text(outputs, none);
                result.append(outs.as_str());
                result
            },
        }
    }

    /// Whether this type and `other` have the same outermost constructor.
    pub fn can_unify_with(&self, other: &Self) -> (result: bool)
        ensures
            result == same_constructor(self@, other@),
    {
        match (&self.value, &other.value) {
            (TypeValue::Unit, TypeValue::Unit) => true,
            (TypeValue::Var(_), TypeValue::Var(_)) => true,
            (TypeValue::Name(_), TypeValue::Name(_)) => true,
            (TypeValue::Int64, TypeValue::Int64) => true,
            (TypeValue::Array(_, _), TypeValue::Array(_, _)) => true,
            (TypeValue::Function { .. }, TypeValue::Function { .. }) => true,
            _ => false,
        }
    }

    /// Copies of the types directly inside this one (see
    /// [`spec_subterms`]), each with the attributes and tokens of the part
    /// it copies (see [`subterm_parts`]).
    pub fn subterms(&self) -> (result: Vec<Type>)
        ensures
            types_view(result@) == spec_subterms(self@),
            result@.len() == subterm_parts(*self).len(),
            forall|j: int|
                0 <= j < result@.len() ==> same_surface(#[trigger] result@[j], subterm_parts(*self)[j]),
    {
        match &self.value {
            TypeValue::Array(element, _) => {
                let mut result = Vec::new();
                result.push(element.duplicate());
                proof {
                    lemma_types_view(result@);
                    assert(types_view(result@) =~= seq![type_view(**element)]);
                }
                result
            },
            TypeValue::Function { inputs, outputs } => {
                let mut result = duplicate_types(inputs);
                let mut rest = duplicate_types(outputs);
                let ghost a = result@;
                let ghost b = rest@;
                result.append(&mut rest);
                proof {
                    lemma_types_view(a);
                    lemma_types_view(b);
                    lemma_types_view(result@);
                    lemma_types_view(inputs@);
                    lemma_types_view(outputs@);
                    assert(types_view(result@) =~= types_view(a) + types_view(b));
                    assert forall|j: int| 0 <= j < result@.len() implies same_surface(
                        #[trigger] result@[j],
                        subterm_parts(*self)[j],
                    ) by {
                        if j < a.len() {
                            assert(result@[j] == a[j]);
                        } else {
                            assert(result@[j] == b[j - a.len()]);
                        }
                    }
                }
                result
            },
            _ => {
                let result: Vec<Type> = Vec::new();
                proof {
                    assert(types_view(result@) =~= Seq::<TypeV>::empty());
                }
                result
            },
        }
    }

    /// Copies of the size constraints directly inside this type (see
    /// [`spec_liquid_subterms`]).
    pub fn liquid_subterms(&self) -> (result: Vec<LiquidType>)
        ensures
            result@.map_values(|l: LiquidType| l.value) == spec_liquid_subterms(self@),
    {
        let mut result: Vec<LiquidType> = Vec::new();
        match &self.value {
            TypeValue::Array(_, count) => {
                result.push(count.duplicate());
            },
            _ => {},
        }
        proof {
            assert(result@.map_values(|l: LiquidType| l.value) =~= spec_liquid_subterms(self@));
        }
        result
    }

    /// Whether this type has the attribute `attr`.
    pub fn has_attribute(&self, attr: Attribute) -> (result: bool)
        ensures
            result == self.attributes.contains(attr),
    {
        self.attributes.has(attr)
    }
}

/// Copies of a list of types, for [`Type::duplicate`].
fn duplicate_types_rec(ts: &Vec<Type>) -> (result: Vec<Type>)
    ensures
        types_view(result@) == types_view(ts@),
    decreases ts@,
{
    let mut result: Vec<Type> = Vec::new();
    let n = ts.len();
    let mut i: usize = 0;
    proof {
        lemma_types_view(ts@);
    }
    while i < n
        invariant
            0 <= i <= n,
            n == ts@.len(),
            result@.len() == i,
            forall|j: int| 0 <= j < i ==> type_view(#[trigger] result@[j]) == type_view(ts@[j]),
        decreases n - i,
    {
        proof {
            assert(decreases_to!(ts@ => ts@[i as int]));
        }
        result.push(ts[i].duplicate());
        i = i + 1;
    }
    proof {
        lemma_types_view(result@);
        assert(types_view(result@) =~= types_view(ts@));
    }
    result
}

/// The shapes of expressions.
pub enum ExprValue {
    ConstantInt(i64),
    BoundName(Token),
    MemberAccess(Box<Expr>, Token),
    Call(Token, Vec<Expr>),
    /// `ArrayLiteral(elements, should_continue)` is an array literal
    /// beginning with `elements` and filling the remainder of the array with
    /// zeros if `should_continue.is_some()`.
    ArrayLiteral(Vec<Expr>, Option<Token>),
    PrefixOp(Token, Box<Expr>),
    InfixBop(Box<Expr>, Token, Box<Expr>),
    PostfixBop(Box<Expr>, Token, Box<Expr>, Token),
}

/// An expression with its attributes and the tokens it spans.
pub struct Expr {
    pub value: ExprValue,
    pub attributes: Attributes,
    pub start_token: Token,
    pub end_token: Token,
}

/// The shapes of statements.
pub enum StmtValue {
    Let { name: Token, hint: Option<Type>, value: Expr },
    Assign(Expr, Token, Expr),
    Divider(Token),
}

/// A statement with its attributes and the tokens it spans.
pub struct Stmt {
    pub value: StmtValue,
    pub attributes: Attributes,
    pub start_token: Token,
    pub end_token: Token,
}

/// The shapes of declarations.
pub enum DeclValue {
    Function {
        func: Token,
        name: Token,
        inputs: Vec<(Token, Type)>,
        outputs: Vec<(Token, Type)>,
        body: Vec<Stmt>,
    },
}

/// A declaration with its attributes and the tokens it spans.
pub struct Decl {
    pub value: DeclValue,
    pub attributes: Attributes,
    pub start_token: Token,
    pub end_token: Token,
}

/// How an expression is displayed: a constant in decimal, a name, a member
/// access with a dot, a call with its comma-separated arguments, an array
/// literal in brackets (ending in `...` when the rest is filled with zeros),
/// and operators fully parenthesized.
pub open spec fn spec_expr_text(e: Expr) -> Seq<char>
    decreases e,
{
    match e.value {
        ExprValue::ConstantInt(i) => spec_signed_decimal(i as int),
        ExprValue::BoundName(name) => name.value@,
        ExprValue::MemberAccess(value, member) => spec_expr_text(*value) + seq!['.'] + member.value@,
        ExprValue::Call(name, args) => name.value@ + seq!['('] + spec_exprs_text(args@) + seq![')'],
        ExprValue::ArrayLiteral(elements, should_continue) => seq!['['] + spec_exprs_text(
            elements@,
        ) + (if should_continue is Some {
            (if elements@.len() == 0 {
                Seq::empty()
            } else {
                seq![',', ' ']
            }) + seq!['.', '.', '.']
        } else {
            Seq::empty()
        }) + seq![']'],
        ExprValue::PrefixOp(op, rhs) => seq!['('] + op.value@ + seq![' '] + spec_expr_text(*rhs)
            + seq![')'],
        ExprValue::InfixBop(lhs, op, rhs) => seq!['('] + spec_expr_text(*lhs) + seq![' ']
            + op.value@ + seq![' '] + spec_expr_text(*rhs) + seq![')'],
        ExprValue::PostfixBop(lhs, op1, rhs, op2) => seq!['('] + spec_expr_text(*lhs) + op1.value@
            + spec_expr_text(*rhs) + op2.value@ + seq![')'],
    }
}

/// The texts of `es` joined by a comma and a space.
pub open spec fn spec_exprs_text(es: Seq<Expr>) -> Seq<char>
    decreases es,
{
    if es.len() == 0 {
        Seq::empty()
    } else if es.len() == 1 {
        spec_expr_text(es[0])
    } else {
        spec_exprs_text(es.drop_last()) + seq![',', ' '] + spec_expr_text(es.last())
    }
}

/// A string holding the characters of a literal.
pub fn text_of(literal: &str) -> (result: String)
    ensures
        result@ == literal@,
{
    literal.to_owned()
}

/// The texts of a list of expressions joined by a comma and a space.
pub fn exprs_text(es: &Vec<Expr>) -> (result: String)
    ensures
        result@ == spec_exprs_text(es@),
    decreases es@,
{
    let mut result = String::new();
    let sep = ", ";
    proof {
        reveal_strlit(", ");
        assert(sep@ =~= seq![',', ' ']);
        assert(es@.subrange(0, 0) =~= Seq::<Expr>::empty());
    }
    let n = es.len();
    let mut i: usize = 0;
    while i < n
        invariant
            0 <= i <= n,
            n == es@.len(),
            sep@ == seq![',', ' '],
            result@ == spec_exprs_text(es@.subrange(0, i as int)),
        decreases n - i,
    {
        proof {
            assert(decreases_to!(es@ => es@[i as int]));
            let pre = es@.subrange(0, i + 1);
            assert(pre.drop_last() =~= es@.subrange(0, i as int));
            assert(pre.last() == es@[i as int]);
            if i == 0 {
                assert(pre[0] == es@[0]);
            }
        }
        if i > 0 {
            result.append(sep);
        }
        let text = es[i].to_text();
        result.append(text.as_str());
        i = i + 1;
    }
    proof {
        assert(es@.subrange(0, n as int) =~= es@);
    }
    result
}

impl Expr {
    /// How the expression is displayed (see [`spec_expr_text`]).
    pub fn to_text(&self) -> (result: String)
        ensures
            result@ == spec_expr_text(*self),
        decreases *self,
    {
        let open = "(";
        let close = ")";
        let space = " ";
        proof {
            reveal_strlit("(");
            reveal_strlit(")");
            reveal_strlit(" ");
            assert(open@ =~= seq!['(']);
            assert(close@ =~= seq![')']);
            assert(space@ =~= seq![' ']);
        }
        match &self.value {
            ExprValue::ConstantInt(i) => i64_text(*i),
            ExprValue::BoundName(name) => name.value.clone(),
            ExprValue::MemberAccess(value, member) => {
                let dot = ".";
                proof {
                    reveal_strlit(".");
                    assert(dot@ =~= seq!['.']);
                }
                let mut result = value.to_text();
                result.append(dot);
                result.append(member.value.as_str());
                result
            },
            ExprValue::Call(name, args) => {
                let mut result = name.value.clone();
                result.append(open);
                let inner = exprs_text(args);
                result.append(inner.as_str());
                result.append(close);
                result
            },
            ExprValue::ArrayLiteral(elements, should_continue) => {
                let left = "[";
                let right = "]";
                let sep = ", ";
                let dots = "...";
                proof {
                    reveal_strlit("[");
                    reveal_strlit("]");
                    reveal_strlit(", ");
                    reveal_strlit("...");
                    assert(left@ =~= seq!['[']);
                    assert(right@ =~= seq![']']);
                    assert(sep@ =~= seq![',', ' ']);
                    assert(dots@ =~= seq!['.', '.', '.']);
                }
                let mut result = text_of(left);
                let inner = exprs_text(elements);
                result.append(inner.as_str());
                if should_continue.is_some() {
                    if elements.len() > 0 {
                        result.append(sep);
                    }
                    result.append(dots);
                }
                result.append(right);
                proof {
                    assert(result@ =~= spec_expr_text(*self));
                }
                result
            },
            ExprValue::PrefixOp(op, rhs) => {
                let mut result = text_of(open);
                result.append(op.value.as_str());
                result.append(space);
                let inner = rhs.to_text();
                result.append(inner.as_str());
                result.append(close);
                result
            },
            ExprValue::InfixBop(lhs, op, rhs) => {
                let mut result = text_of(open);
                let left = lhs.to_text();
                result.append(left.as_str());
                result.append(space);
                result.append(op.value.as_str());
                result.append(space);
                let right = rhs.to_text();
                result.append(right.as_str());
                result.append(close);
                result
            },
            ExprValue::PostfixBop(lhs, op1, rhs, op2) => {
                let mut result = text_of(open);
                let left = lhs.to_text();
                result.append(left.as_str());
                result.append(op1.value.as_str());
                let right = rhs.to_text();
                result.append(right.as_str());
                result.append(op2.value.as_str());
                result.append(close);
                result
            },
        }
    }

    /// Whether this expression has the attribute `attr`.
    pub fn has_attribute(&self, attr: Attribute) -> (result: bool)
        ensures
            result == self.attributes.contains(attr),
    {
        self.attributes.has(attr)
    }
}


/// How a statement is displayed: `let`, the name, an optional type hint
/// after `: `, ` = ` and the value; an assignment with its operator between
/// the two sides; or `---` for a divider.
pub open spec fn spec_stmt_text(stmt: Stmt) -> Seq<char> {
    match stmt.value {
        StmtValue::Let { name, hint, value } => seq!['l', 'e', 't', ' '] + name.value@ + (
        match hint {
            Some(t) => seq![':', ' '] + spec_type_text(t@),
            None => Seq::empty(),
        }) + seq![' ', '=', ' '] + spec_expr_text(value),
        StmtValue::Assign(lhs, op, rhs) => spec_expr_text(lhs) + seq![' '] + op.value@ + seq![' ']
            + spec_expr_text(rhs),
        StmtValue::Divider(_) => seq!['-', '-', '-'],
    }
}

impl Stmt {
    /// How the statement is displayed (see [`spec_stmt_text`]).
    pub fn to_text(&self) -> (result: String)
        ensures
            result@ == spec_stmt_text(*self),
    {
        match &self.value {
            StmtValue::Let { name, hint, value } => {
                let keyword = "let ";
                let colon = ": ";
                let equals = " = ";
                proof {
                    reveal_strlit("let ");
                    reveal_strlit(": ");
                    reveal_strlit(" = ");
                    assert(keyword@ =~= seq!['l', 'e', 't', ' ']);
                    assert(colon@ =~= seq![':', ' ']);
                    assert(equals@ =~= seq![' ', '=', ' ']);
                }
                let mut result = text_of(keyword);
                result.append(name.value.as_str());
                match hint {
                    Some(t) => {
                        result.append(colon);
                        let ty = t.to_text();
                        result.append(ty.as_str());
                    },
                    None => {},
                }
                result.append(equals);
                let rhs = value.to_text();
                result.append(rhs.as_str());
                proof {
                    assert(result@ =~= spec_stmt_text(*self));
                }
                result
            },
            StmtValue::Assign(lhs, op, rhs) => {
                let space = " ";
                proof {
                    reveal_strlit(" ");
                    assert(space@ =~= seq![' ']);
                }
                let mut result = lhs.to_text();
                result.append(space);
                result.append(op.value.as_str());
                result.append(space);
                let right = rhs.to_text();
                result.append(right.as_str());
                result
            },
            StmtValue::Divider(_) => {
                let divider = "---";
                proof {
                    reveal_strlit("---");
                    assert(divider@ =~= seq!['-', '-', '-']);
                }
                text_of(divider)
            },
        }
    }
}

/// How a parameter is displayed: its name, `: ` and its type.
pub open spec fn spec_param_text(param: (Token, Type)) -> Seq<char> {
    param.0.value@ + seq![':', ' '] + spec_type_text(param.1@)
}

/// How parameters are displayed: one after another, separated by `, `.
pub open spec fn spec_params_text(params: Seq<(Token, Type)>) -> Seq<char>
    decreases params.len(),
{
    if params.len() == 0 {
        Seq::empty()
    } else if params.len() == 1 {
        spec_param_text(params[0])
    } else {
        spec_params_text(params.drop_last()) + seq![',', ' '] + spec_param_text(params.last())
    }
}

/// The text of a list of parameters (see [`spec_params_text`]).
pub fn params_text(params: &Vec<(Token, Type)>) -> (result: String)
    ensures
        result@ == spec_params_text(params@),
{
    let mut result = String::new();
    let sep = ", ";
    let colon = ": ";
    proof {
        reveal_strlit(", ");
        reveal_strlit(": ");
        assert(sep@ =~= seq![',', ' ']);
        assert(colon@ =~= seq![':', ' ']);
        assert(params@.subrange(0, 0) =~= Seq::<(Token, Type)>::empty());
    }
    let n = params.len();
    let mut i: usize = 0;
    while i < n
        invariant
            0 <= i <= n,
            n == params@.len(),
            sep@ == seq![',', ' '],
            colon@ == seq![':', ' '],
            result@ == spec_params_text(params@.subrange(0, i as int)),
        decreases n - i,
    {
        proof {
            let pre = params@.subrange(0, i + 1);
            assert(pre.drop_last() =~= params@.subrange(0, i as int));
            assert(pre.last() == params@[i as int]);
            if i == 0 {
                assert(pre[0] == params@[0]);
            }
        }
        if i > 0 {
            result.append(sep);
        }
        let (name, ty) = &params[i];
        result.append(name.value.as_str());
        result.append(colon);
        let ty_text = ty.to_text();
        result.append(ty_text.as_str());
        i = i + 1;
    }
    proof {
        assert(params@.subrange(0, n as int) =~= params@);
    }
    result
}

/// The first line of a function: `func`, its name, its inputs and its
/// outputs in parentheses, and an opening brace.
pub open spec fn spec_func_header(
    name: Seq<char>,
    inputs: Seq<(Token, Type)>,
    outputs: Seq<(Token, Type)>,
) -> Seq<char> {
    seq!['f', 'u', 'n', 'c', ' '] + name + seq!['('] + spec_params_text(inputs) + seq![
        ')',
        ' ',
        '-',
        '>',
        ' ',
        '(',
    ] + spec_params_text(outputs) + seq![')', ' ', '{']
}

/// How a declaration is laid out at depth `depth`: the header, then, when
/// the body is not empty, an empty line, each statement one level deeper
/// and another empty line, and finally the closing brace.
pub open spec fn spec_decl_lines(decl: Decl, depth: nat) -> Seq<(nat, Seq<char>)> {
    match decl.value {
        DeclValue::Function { name, inputs, outputs, body, .. } => {
            let header = spec_func_header(name.value@, inputs@, outputs@);
            if body@.len() == 0 {
                seq![(depth, header), (depth, seq!['}'])]
            } else {
                seq![(depth, header), (depth, Seq::empty())] + Seq::new(
                    body@.len(),
                    |i: int| (depth + 1, spec_stmt_text(body@[i])),
                ) + seq![(depth, Seq::empty()), (depth, seq!['}'])]
            }
        },
    }
}

impl Decl {
    /// The lines that show this declaration at depth `depth` (see
    /// [`spec_decl_lines`]).
    pub fn lines(&self, depth: usize) -> (result: Vec<Line>)
        requires
            depth < usize::MAX,
        ensures
            lines_view(result@) == spec_decl_lines(*self, depth as nat),
    {
        match &self.value {
            DeclValue::Function { name, inputs, outputs, body, .. } => {
                let func = "func ";
                let open = "(";
                let arrow = ") -> (";
                let close = ") {";
                proof {
                    reveal_strlit("func ");
                    reveal_strlit("(");
                    reveal_strlit(") -> (");
                    reveal_strlit(") {");
                    assert(func@ =~= seq!['f', 'u', 'n', 'c', ' ']);
                    assert(open@ =~= seq!['(']);
                    assert(arrow@ =~= seq![')', ' ', '-', '>', ' ', '(']);
                    assert(close@ =~= seq![')', ' ', '{']);
                }
                let mut header = text_of(func);
                header.append(name.value.as_str());
                header.append(open);
                let ins = params_text(inputs);
                header.append(ins.as_str());
                header.append(arrow);
                let outs = params_text(outputs);
                header.append(outs.as_str());
                header.append(close);
                let brace = "}";
                proof {
                    reveal_strlit("}");
                    assert(brace@ =~= seq!['}']);
                    assert(header@ =~= spec_func_header(name.value@, inputs@, outputs@));
                }
                let mut out: Vec<Line> = Vec::new();
                proof {
                    assert(lines_view(out@) =~= Seq::<(nat, Seq<char>)>::empty());
                }
                push_line(&mut out, depth, header);
                let n = body.len();
                if n == 0 {
                    push_line(&mut out, depth, text_of(brace));
                    return out;
                }
                push_line(&mut out, depth, String::new());
                let ghost start = lines_view(out@);
                let mut i: usize = 0;
                while i < n
                    invariant
                        0 <= i <= n,
                        n == body@.len(),
                        depth < usize::MAX,
                        lines_view(out@) == start + Seq::new(
                            i as nat,
                            |k: int| ((depth + 1) as nat, spec_stmt_text(body@[k])),
                        ),
                    decreases n - i,
                {
                    let text = body[i].to_text();
                    push_line(&mut out, depth + 1, text);
                    proof {
                        assert(Seq::new(
                            (i + 1) as nat,
                            |k: int| ((depth + 1) as nat, spec_stmt_text(body@[k])),
                        ) =~= Seq::new(
                            i as nat,
                            |k: int| ((depth + 1) as nat, spec_stmt_text(body@[k])),
                        ).push(((depth + 1) as nat, spec_stmt_text(body@[i as int]))));
                    }
                    i = i + 1;
                }
                push_line(&mut out, depth, String::new());
                push_line(&mut out, depth, text_of(brace));
                proof {
                    assert(lines_view(out@) =~= spec_decl_lines(*self, depth as nat));
                }
                out
            },
        }
    }
}


/// The shape of an expression as far as equality goes: its structure with
/// the text of its tokens, without locations, attributes or types.
pub enum ExprShape {
    ConstantInt(i64),
    BoundName(Seq<char>),
    MemberAccess(Box<ExprShape>, Seq<char>),
    Call(Seq<char>, Seq<ExprShape>),
    ArrayLiteral(Seq<ExprShape>, Option<Seq<char>>),
    PrefixOp(Seq<char>, Box<ExprShape>),
    InfixBop(Box<ExprShape>, Seq<char>, Box<ExprShape>),
    PostfixBop(Box<ExprShape>, Seq<char>, Box<ExprShape>, Seq<char>),
}

/// The shape of an expression's value.
pub open spec fn value_shape(v: ExprValue) -> ExprShape
    decreases v,
{
    match v {
        ExprValue::ConstantInt(i) => ExprShape::ConstantInt(i),
        ExprValue::BoundName(name) => ExprShape::BoundName(name.value@),
        ExprValue::MemberAccess(value, member) => ExprShape::MemberAccess(
            Box::new(value_shape(value.value)),
            member.value@,
        ),
        ExprValue::Call(name, args) => ExprShape::Call(name.value@, expr_shapes(args@)),
        ExprValue::ArrayLiteral(elements, should_continue) => ExprShape::ArrayLiteral(
            expr_shapes(elements@),
            match should_continue {
                Some(t) => Some(t.value@),
                None => None,
            },
        ),
        ExprValue::PrefixOp(op, rhs) => ExprShape::PrefixOp(
            op.value@,
            Box::new(value_shape(rhs.value)),
        ),
        ExprValue::InfixBop(lhs, op, rhs) => ExprShape::InfixBop(
            Box::new(value_shape(lhs.value)),
            op.value@,
            Box::new(value_shape(rhs.value)),
        ),
        ExprValue::PostfixBop(lhs, op1, rhs, op2) => ExprShape::PostfixBop(
            Box::new(value_shape(lhs.value)),
            op1.value@,
            Box::new(value_shape(rhs.value)),
            op2.value@,
        ),
    }
}

/// The shapes of a list of expressions.
pub open spec fn expr_shapes(es: Seq<Expr>) -> Seq<ExprShape>
    decreases es,
{
    if es.len() == 0 {
        Seq::empty()
    } else {
        expr_shapes(es.drop_last()).push(value_shape(es.last().value))
    }
}

/// The shape of an expression.
pub open spec fn expr_shape(e: Expr) -> ExprShape {
    value_shape(e.value)
}

/// The shapes of a list of expressions, one for each.
pub proof fn lemma_expr_shapes(es: Seq<Expr>)
    ensures
        expr_shapes(es).len() == es.len(),
        forall|i: int| 0 <= i < es.len() ==> #[trigger] expr_shapes(es)[i] == expr_shape(es[i]),
    decreases es.len(),
{
    if es.len() > 0 {
        lemma_expr_shapes(es.drop_last());
        assert forall|i: int| 0 <= i < es.len() implies #[trigger] expr_shapes(es)[i] == expr_shape(
            es[i],
        ) by {
            if i < es.len() - 1 {
                assert(es.drop_last()[i] == es[i]);
            }
        }
    }
}

/// Whether two lists of expressions have the same shapes, element by
/// element.
fn exprs_eq(a: &Vec<Expr>, b: &Vec<Expr>) -> (result: bool)
    ensures
        result == (expr_shapes(a@) == expr_shapes(b@)),
    decreases a@,
{
    proof {
        lemma_expr_shapes(a@);
        lemma_expr_shapes(b@);
    }
    let n = a.len();
    if n != b.len() {
        proof {
            assert(expr_shapes(a@).len() != expr_shapes(b@).len());
        }
        return false;
    }
    let mut i: usize = 0;
    while i < n
        invariant
            0 <= i <= n,
            n == a@.len(),
            n == b@.len(),
            forall|j: int| 0 <= j < i ==> expr_shape(a@[j]) == expr_shape(b@[j]),
            expr_shapes(a@).len() == n,
            expr_shapes(b@).len() == n,
            forall|j: int| 0 <= j < n ==> #[trigger] expr_shapes(a@)[j] == expr_shape(a@[j]),
            forall|j: int| 0 <= j < n ==> #[trigger] expr_shapes(b@)[j] == expr_shape(b@[j]),
        decreases n - i,
    {
        proof {
            assert(decreases_to!(a@ => a@[i as int]));
        }
        if !a[i].value.eq(&b[i].value) {
            proof {
                assert(expr_shapes(a@)[i as int] != expr_shapes(b@)[i as int]);
            }
            return false;
        }
        proof {
            assert(expr_shape(a@[i as int]) == expr_shape(b@[i as int]));
        }
        i = i + 1;
    }
    proof {
        assert(expr_shapes(a@) =~= expr_shapes(b@));
    }
    true
}

/// Whether two optional tokens are both absent or both present with the
/// same text.
fn token_texts_eq(a: &Option<Token>, b: &Option<Token>) -> (result: bool)
    ensures
        result == (match (a, b) {
            (Some(x), Some(y)) => x.value@ == y.value@,
            (None, None) => true,
            _ => false,
        }),
{
    match (a, b) {
        (Some(x), Some(y)) => str_equals(x.value.as_str(), y.value.as_str()),
        (None, None) => true,
        _ => false,
    }
}

impl ExprValue {
    /// Whether two expression values have the same shape (see
    /// [`expr_shape`]): the same structure, constants and token texts,
    /// wherever they stand in the source.
    pub fn eq(&self, other: &ExprValue) -> (result: bool)
        ensures
            result == (value_shape(*self) == value_shape(*other)),
        decreases *self,
    {
        match (self, other) {
            (ExprValue::ConstantInt(a), ExprValue::ConstantInt(b)) => *a == *b,
            (ExprValue::BoundName(a), ExprValue::BoundName(b)) => str_equals(
                a.value.as_str(),
                b.value.as_str(),
            ),
            (ExprValue::MemberAccess(a_expr, a_token), ExprValue::MemberAccess(b_expr, b_token)) => {
                a_expr.value.eq(&b_expr.value) && str_equals(
                    a_token.value.as_str(),
                    b_token.value.as_str(),
                )
            },
            (ExprValue::Call(a_token, a_vec), ExprValue::Call(b_token, b_vec)) => {
                str_equals(a_token.value.as_str(), b_token.value.as_str()) && exprs_eq(
                    a_vec,
                    b_vec,
                )
            },
            (ExprValue::ArrayLiteral(a_vec, a_opt), ExprValue::ArrayLiteral(b_vec, b_opt)) => {
                exprs_eq(a_vec, b_vec) && token_texts_eq(a_opt, b_opt)
            },
            (ExprValue::PrefixOp(a_token, a_expr), ExprValue::PrefixOp(b_token, b_expr)) => {
                str_equals(a_token.value.as_str(), b_token.value.as_str()) && a_expr.value.eq(
                    &b_expr.value,
                )
            },
            (
                ExprValue::InfixBop(a_expr1, a_token, a_expr2),
                ExprValue::InfixBop(b_expr1, b_token, b_expr2),
            ) => {
                a_expr1.value.eq(&b_expr1.value) && str_equals(
                    a_token.value.as_str(),
                    b_token.value.as_str(),
                ) && a_expr2.value.eq(&b_expr2.value)
            },
            (
                ExprValue::PostfixBop(a_expr1, a_token, a_expr2, a_token2),
                ExprValue::PostfixBop(b_expr1, b_token, b_expr2, b_token2),
            ) => {
                a_expr1.value.eq(&b_expr1.value) && str_equals(
                    a_token.value.as_str(),
                    b_token.value.as_str(),
                ) && a_expr2.value.eq(&b_expr2.value) && str_equals(
                    a_token2.value.as_str(),
                    b_token2.value.as_str(),
                )
            },
            _ => false,
        }
    }
}

impl Expr {
    /// Whether two expressions have the same shape (see [`expr_shape`]).
    pub fn eq(&self, other: &Expr) -> (result: bool)
        ensures
            result == (expr_shape(*self) == expr_shape(*other)),
    {
        self.value.eq(&other.value)
    }
}


/// Whether a statement ends a block with a value of some type.
pub enum StmtType {
    Terminal(Type),
    Nonterminal,
}

/// How a statement's kind is displayed: `Terminal` with its type in
/// parentheses, or `Nonterminal`.
pub open spec fn spec_stmt_type_text(t: StmtType) -> Seq<char> {
    match t {
        StmtType::Terminal(ty) => seq!['T', 'e', 'r', 'm', 'i', 'n', 'a', 'l', '('] + spec_type_text(
            ty@,
        ) + seq![')'],
        StmtType::Nonterminal => seq!['N', 'o', 'n', 't', 'e', 'r', 'm', 'i', 'n', 'a', 'l'],
    }
}

impl StmtType {
    /// How the statement's kind is displayed (see [`spec_stmt_type_text`]).
    pub fn to_text(&self) -> (result: String)
        ensures
            result@ == spec_stmt_type_text(*self),
    {
        match self {
            StmtType::Terminal(ty) => {
                let open = "Terminal(";
                let close = ")";
                proof {
                    reveal_strlit("Terminal(");
                    reveal_strlit(")");
                    assert(open@ =~= seq!['T', 'e', 'r', 'm', 'i', 'n', 'a', 'l', '(']);
                    assert(close@ =~= seq![')']);
                }
                let mut result = text_of(open);
                let inner = ty.to_text();
                result.append(inner.as_str());
                result.append(close);
                result
            },
            StmtType::Nonterminal => {
                let text = "Nonterminal";
                proof {
                    reveal_strlit("Nonterminal");
                    assert(text@ =~= seq!['N', 'o', 'n', 't', 'e', 'r', 'm', 'i', 'n', 'a', 'l']);
                }
                text_of(text)
            },
        }
    }
}

} // verus!
