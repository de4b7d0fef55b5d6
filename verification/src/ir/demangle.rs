use crate::frontend::ast::{
    spec_decimal, spec_mangle, types_view, LiquidType, LiquidTypeValue, Type, TypeV, TypeValue,
};
use crate::ir::label::{name_bytes, spec_mangles, spec_native_mangle};
use crate::utils::loc::utf8_len;
use crate::frontend::attribute::Attributes;
use crate::frontend::lexer::{chars_to_string, str_chars};
use crate::frontend::token::{Token, TokenType};
use crate::utils::loc::Loc;
use vstd::prelude::*;

verus! {

/// Why a mangled name could not be read back into a type.
#[derive(PartialEq, Eq, Structural, Clone, Copy, Debug)]
pub enum DemangleError {
    /// The text ended inside the `pulsar_` prefix.
    Eof,
    /// The text does not begin with the `pulsar_` prefix.
    Mismatch,
    /// A number was expected but no digit came.
    NoNumber,
    /// A number does not fit in a machine word.
    NumberTooLarge,
    /// The text ended inside the name of a named type.
    MissingName,
    /// An array size is not followed by `E`.
    MissingElementType,
    /// The text ended inside the name of the function.
    MissingFunctionName,
    /// The symbol kind after `S` is not `F`.
    UnknownSymbol,
    /// The character after the prefix is not `S`.
    UnknownMangledValue,
}

/// An ASCII decimal digit.
pub open spec fn is_ascii_digit(c: char) -> bool {
    '0' <= c && c <= '9'
}

/// The position just past the run of digits that starts at `pos`.
pub open spec fn digits_end(s: Seq<char>, pos: nat) -> nat
    decreases s.len() - pos,
{
    if pos < s.len() && is_ascii_digit(s[pos as int]) {
        digits_end(s, pos + 1)
    } else {
        pos
    }
}

/// The run of digits starting at `pos` ends no earlier than `pos`, and no
/// later than the text when it starts within it.
pub proof fn lemma_digits_end_bounds(s: Seq<char>, pos: nat)
    ensures
        pos <= digits_end(s, pos),
        pos <= s.len() ==> digits_end(s, pos) <= s.len(),
    decreases s.len() - pos,
{
    if pos < s.len() && is_ascii_digit(s[pos as int]) {
        lemma_digits_end_bounds(s, pos + 1);
    }
}

/// The value of a run of decimal digits.
pub open spec fn digits_value(ds: Seq<char>) -> nat
    decreases ds.len(),
{
    if ds.len() == 0 {
        0
    } else {
        digits_value(ds.drop_last()) * 10 + ((ds.last() as int) - 48) as nat
    }
}

/// Reading a number at `pos`: the whole run of digits there, which must be
/// non-empty and fit in a machine word, and the position after the run.
pub open spec fn spec_take_number(s: Seq<char>, pos: nat) -> (Result<usize, DemangleError>, nat) {
    let end = digits_end(s, pos);
    let value = digits_value(s.subrange(pos as int, end as int));
    if end == pos {
        (Err(DemangleError::NoNumber), pos)
    } else if value > usize::MAX {
        (Err(DemangleError::NumberTooLarge), end)
    } else {
        (Ok(value as usize), end)
    }
}

/// Reading `n` characters at `pos`; when fewer are left, the reading stops at
/// the end of the text.
pub open spec fn spec_take_n(s: Seq<char>, pos: nat, n: nat) -> (Option<Seq<char>>, nat) {
    if pos + n <= s.len() {
        (Some(s.subrange(pos as int, (pos + n) as int)), pos + n)
    } else {
        (None, s.len())
    }
}

/// Reading the characters of `prefix` at `pos`.
pub open spec fn spec_take_prefix(s: Seq<char>, pos: nat, prefix: Seq<char>) -> (
    Result<(), DemangleError>,
    nat,
)
    decreases prefix.len(),
{
    if prefix.len() == 0 {
        (Ok(()), pos)
    } else if pos >= s.len() {
        (Err(DemangleError::Eof), pos)
    } else if s[pos as int] == prefix[0] {
        spec_take_prefix(s, pos + 1, prefix.drop_first())
    } else {
        (Err(DemangleError::Mismatch), pos + 1)
    }
}

/// Reading one mangled type at `pos`. The first character is consumed: `u`
/// is unit, `q` is `Int64`, `A` starts an array (its size, `E`, then its
/// element type), and any other character is followed by the length of a
/// name and the name.
pub open spec fn spec_demangle_type(s: Seq<char>, pos: nat) -> (Result<TypeV, DemangleError>, nat)
    decreases s.len() - pos,
{
    if pos >= s.len() {
        spec_named_type(s, pos)
    } else if s[pos as int] == 'u' {
        (Ok(TypeV::Unit), pos + 1)
    } else if s[pos as int] == 'q' {
        (Ok(TypeV::Int64), pos + 1)
    } else if s[pos as int] == 'A' {
        proof {
            lemma_digits_end_bounds(s, pos + 1);
        }
        let (count, p) = spec_take_number(s, pos + 1);
        match count {
            Err(e) => (Err(e), p),
            Ok(n) => if p < s.len() && s[p as int] == 'E' {
                let (element, q) = spec_demangle_type(s, p + 1);
                match element {
                    Err(e) => (Err(e), q),
                    Ok(t) => (Ok(TypeV::Array(Box::new(t), LiquidTypeValue::Equal(n))), q),
                }
            } else if p < s.len() {
                (Err(DemangleError::MissingElementType), p + 1)
            } else {
                (Err(DemangleError::MissingElementType), p)
            },
        }
    } else {
        spec_named_type(s, pos + 1)
    }
}

/// Reading the length of a name and the name at `pos`.
pub open spec fn spec_named_type(s: Seq<char>, pos: nat) -> (Result<TypeV, DemangleError>, nat) {
    let (length, p) = spec_take_number(s, pos);
    match length {
        Err(e) => (Err(e), p),
        Ok(n) => {
            let (name, q) = spec_take_n(s, p, n as nat);
            match name {
                None => (Err(DemangleError::MissingName), q),
                Some(name) => (Ok(TypeV::Name(name)), q),
            }
        },
    }
}

/// Reading `count` mangled types one after another at `pos`, stopping at
/// the first failure.
pub open spec fn spec_demangle_types(s: Seq<char>, pos: nat, count: nat) -> (
    Result<Seq<TypeV>, DemangleError>,
    nat,
)
    decreases count,
{
    if count == 0 {
        (Ok(Seq::empty()), pos)
    } else {
        let (before, p) = spec_demangle_types(s, pos, (count - 1) as nat);
        match before {
            Err(e) => (Err(e), p),
            Ok(ts) => {
                let (t, q) = spec_demangle_type(s, p);
                match t {
                    Err(e) => (Err(e), q),
                    Ok(t) => (Ok(ts.push(t)), q),
                }
            },
        }
    }
}

/// Once reading a list of types has failed, reading more of them fails in
/// the same way at the same position.
pub proof fn lemma_types_failure_sticks(s: Seq<char>, pos: nat, i: nat, j: nat)
    requires
        i <= j,
        spec_demangle_types(s, pos, i).0 is Err,
    ensures
        spec_demangle_types(s, pos, j) == spec_demangle_types(s, pos, i),
    decreases j - i,
{
    if i < j {
        lemma_types_failure_sticks(s, pos, i, (j - 1) as nat);
    }
}

/// Reading a mangled function at `pos`: the length of its name, the name,
/// then the number of inputs and the inputs, and the number of outputs and
/// the outputs. The result is the function's type.
#[verifier::opaque]
pub open spec fn spec_demangle_function(s: Seq<char>, pos: nat) -> (
    Result<TypeV, DemangleError>,
    nat,
) {
    let (length, p1) = spec_take_number(s, pos);
    match length {
        Err(e) => (Err(e), p1),
        Ok(n) => {
            let (name, p2) = spec_take_n(s, p1, n as nat);
            match name {
                None => (Err(DemangleError::MissingFunctionName), p2),
                Some(_) => {
                    let (input_count, p3) = spec_take_number(s, p2);
                    match input_count {
                        Err(e) => (Err(e), p3),
                        Ok(ni) => {
                            let (inputs, p4) = spec_demangle_types(s, p3, ni as nat);
                            match inputs {
                                Err(e) => (Err(e), p4),
                                Ok(inputs) => {
                                    let (output_count, p5) = spec_take_number(s, p4);
                                    match output_count {
                                        Err(e) => (Err(e), p5),
                                        Ok(no) => {
                                            let (outputs, p6) = spec_demangle_types(
                                                s,
                                                p5,
                                                no as nat,
                                            );
                                            match outputs {
                                                Err(e) => (Err(e), p6),
                                                Ok(outputs) => (
                                                    Ok(TypeV::Function(inputs, outputs)),
                                                    p6,
                                                ),
                                            }
                                        },
                                    }
                                },
                            }
                        },
                    }
                },
            }
        },
    }
}

/// The prefix of every mangled symbol.
pub open spec fn mangle_prefix() -> Seq<char> {
    seq!['p', 'u', 'l', 's', 'a', 'r', '_']
}

/// Reading a mangled symbol at `pos`: the prefix `pulsar_`, then `S`, then
/// the kind of symbol, of which only `F` (a function) is known.
#[verifier::opaque]
pub open spec fn spec_demangle(s: Seq<char>, pos: nat) -> (Result<TypeV, DemangleError>, nat) {
    let (prefix, p1) = spec_take_prefix(s, pos, mangle_prefix());
    match prefix {
        Err(e) => (Err(e), p1),
        Ok(_) => if p1 < s.len() && s[p1 as int] == 'S' {
            let p2 = p1 + 1;
            if p2 < s.len() && s[p2 as int] == 'F' {
                spec_demangle_function(s, p2 + 1)
            } else if p2 < s.len() {
                (Err(DemangleError::UnknownSymbol), p2 + 1)
            } else {
                (Err(DemangleError::UnknownSymbol), p2)
            }
        } else if p1 < s.len() {
            (Err(DemangleError::UnknownMangledValue), p1 + 1)
        } else {
            (Err(DemangleError::UnknownMangledValue), p1)
        },
    }
}

/// The decimal text of a number is a non-empty run of digits whose value is
/// the number.
pub proof fn lemma_decimal_digits(n: nat)
    ensures
        spec_decimal(n).len() > 0,
        forall|i: int| 0 <= i < spec_decimal(n).len() ==> is_ascii_digit(#[trigger] spec_decimal(n)[i]),
        digits_value(spec_decimal(n)) == n,
    decreases n,
{
    if n < 10 {
        let d = spec_decimal(n);
        assert(((n + 48) as char) as int == n + 48);
        assert(d.drop_last() =~= Seq::<char>::empty());
        assert(d.last() as int == n + 48);
        assert(digits_value(d.drop_last()) == 0);
        assert(digits_value(d) == digits_value(d.drop_last()) * 10 + ((d.last() as int) - 48) as nat);
    } else {
        lemma_decimal_digits(n / 10);
        let d = spec_decimal(n);
        assert(d.drop_last() =~= spec_decimal(n / 10));
        assert(((n % 10 + 48) as char) as int == n % 10 + 48);
        assert(d.last() as int == n % 10 + 48);
        assert((n / 10) * 10 + n % 10 == n);
        assert(digits_value(d) == digits_value(d.drop_last()) * 10 + ((d.last() as int) - 48) as nat);
    }
}

/// A run of `m` digits at `pos` that the text does not continue with a digit
/// ends at `pos + m`.
pub proof fn lemma_digits_end_run(s: Seq<char>, pos: nat, m: nat)
    requires
        pos + m <= s.len(),
        forall|i: int| pos <= i < pos + m ==> is_ascii_digit(#[trigger] s[i]),
        pos + m == s.len() || !is_ascii_digit(s[(pos + m) as int]),
    ensures
        digits_end(s, pos) == pos + m,
    decreases m,
{
    if m > 0 {
        lemma_digits_end_run(s, pos + 1, (m - 1) as nat);
    }
}

/// Reading a number where the text holds the decimal text of `n`, followed
/// by the end or by something other than a digit, gives `n`.
pub proof fn lemma_take_decimal(s: Seq<char>, pos: nat, n: nat)
    requires
        n <= usize::MAX,
        pos + spec_decimal(n).len() <= s.len(),
        s.subrange(pos as int, (pos + spec_decimal(n).len()) as int) == spec_decimal(n),
        pos + spec_decimal(n).len() == s.len() || !is_ascii_digit(
            s[(pos + spec_decimal(n).len()) as int],
        ),
    ensures
        spec_take_number(s, pos) == (
            Ok::<usize, DemangleError>(n as usize),
            pos + spec_decimal(n).len(),
        ),
{
    let d = spec_decimal(n);
    lemma_decimal_digits(n);
    assert forall|i: int| pos <= i < pos + d.len() implies is_ascii_digit(#[trigger] s[i]) by {
        assert(s[i] == s.subrange(pos as int, (pos + d.len()) as int)[i - pos]);
    }
    lemma_digits_end_run(s, pos, d.len());
}

/// Reading a prefix where the text holds it succeeds just past it.
pub proof fn lemma_take_prefix_match(s: Seq<char>, pos: nat, prefix: Seq<char>)
    requires
        pos + prefix.len() <= s.len(),
        s.subrange(pos as int, (pos + prefix.len()) as int) == prefix,
    ensures
        spec_take_prefix(s, pos, prefix) == (Ok::<(), DemangleError>(()), pos + prefix.len()),
    decreases prefix.len(),
{
    if prefix.len() > 0 {
        assert(s[pos as int] == s.subrange(pos as int, (pos + prefix.len()) as int)[0]);
        assert(s.subrange((pos + 1) as int, (pos + prefix.len()) as int) =~= prefix.drop_first());
        lemma_take_prefix_match(s, pos + 1, prefix.drop_first());
    }
}

/// A type that is `Unit` or `Int64`, whose mangled name is one letter.
pub open spec fn is_scalar_type(t: Type) -> bool {
    t@ is Unit || t@ is Int64
}

/// Mangling types that are each `Unit` or `Int64` gives one letter per type.
pub proof fn lemma_scalar_mangles(ts: Seq<Type>)
    requires
        forall|i: int| 0 <= i < ts.len() ==> is_scalar_type(#[trigger] ts[i]),
    ensures
        spec_mangles(ts).len() == ts.len(),
        forall|i: int|
            0 <= i < ts.len() ==> #[trigger] spec_mangles(ts)[i] == (if ts[i]@ is Unit {
                'u'
            } else {
                'q'
            }),
    decreases ts.len(),
{
    if ts.len() > 0 {
        let rest = ts.drop_last();
        lemma_scalar_mangles(rest);
        assert forall|i: int|
            0 <= i < ts.len() implies #[trigger] spec_mangles(ts)[i] == (if ts[i]@ is Unit {
            'u'
        } else {
            'q'
        }) by {
            if i < ts.len() - 1 {
                assert(rest[i] == ts[i]);
            }
        }
    }
}

/// Reading back the mangled names of types that are each `Unit` or `Int64`
/// gives the types.
pub proof fn lemma_demangle_scalar_types(s: Seq<char>, pos: nat, ts: Seq<Type>)
    requires
        forall|i: int| 0 <= i < ts.len() ==> is_scalar_type(#[trigger] ts[i]),
        pos + ts.len() <= s.len(),
        s.subrange(pos as int, (pos + ts.len()) as int) == spec_mangles(ts),
    ensures
        spec_demangle_types(s, pos, ts.len()) == (
            Ok::<Seq<TypeV>, DemangleError>(types_view(ts)),
            pos + ts.len(),
        ),
    decreases ts.len(),
{
    lemma_scalar_mangles(ts);
    if ts.len() > 0 {
        let rest = ts.drop_last();
        lemma_scalar_mangles(rest);
        assert forall|i: int| 0 <= i < rest.len() implies is_scalar_type(#[trigger] rest[i]) by {
            assert(rest[i] == ts[i]);
        }
        assert(s.subrange(pos as int, (pos + rest.len()) as int) =~= spec_mangles(rest)) by {
            assert forall|i: int| 0 <= i < rest.len() implies s.subrange(
                pos as int,
                (pos + rest.len()) as int,
            )[i] == spec_mangles(rest)[i] by {
                assert(s[pos + i] == s.subrange(pos as int, (pos + ts.len()) as int)[i]);
                assert(rest[i] == ts[i]);
            }
        }
        lemma_demangle_scalar_types(s, pos, rest);
        let last = (ts.len() - 1) as int;
        assert(s[pos + last] == s.subrange(pos as int, (pos + ts.len()) as int)[last]);
    }
}

/// When `x + y` begins the text `s`, so does `x`, and `y` follows it.
pub proof fn lemma_prefix_part(s: Seq<char>, x: Seq<char>, y: Seq<char>)
    requires
        x.len() + y.len() <= s.len(),
        s.subrange(0, (x.len() + y.len()) as int) == x + y,
    ensures
        s.subrange(0, x.len() as int) == x,
        s.subrange(x.len() as int, (x.len() + y.len()) as int) == y,
{
    let p = s.subrange(0, (x.len() + y.len()) as int);
    assert forall|i: int| 0 <= i < x.len() implies s.subrange(0, x.len() as int)[i] == x[i] by {
        assert(p[i] == (x + y)[i]);
    }
    assert forall|i: int| 0 <= i < y.len() implies s.subrange(
        x.len() as int,
        (x.len() + y.len()) as int,
    )[i] == y[i] by {
        assert(p[x.len() + i] == (x + y)[x.len() + i]);
    }
    assert(s.subrange(0, x.len() as int) =~= x);
    assert(s.subrange(x.len() as int, (x.len() + y.len()) as int) =~= y);
}

/// A mangled function read step by step: each part read successfully gives
/// the function's type.
proof fn lemma_function_steps(
    s: Seq<char>,
    p0: nat,
    p1: nat,
    p2: nat,
    p3: nat,
    p4: nat,
    p5: nat,
    p6: nat,
    length: usize,
    input_count: usize,
    output_count: usize,
    inputs: Seq<TypeV>,
    outputs: Seq<TypeV>,
)
    requires
        spec_take_number(s, p0) == (Ok::<usize, DemangleError>(length), p1),
        spec_take_n(s, p1, length as nat).0 is Some,
        spec_take_n(s, p1, length as nat).1 == p2,
        spec_take_number(s, p2) == (Ok::<usize, DemangleError>(input_count), p3),
        spec_demangle_types(s, p3, input_count as nat) == (
            Ok::<Seq<TypeV>, DemangleError>(inputs),
            p4,
        ),
        spec_take_number(s, p4) == (Ok::<usize, DemangleError>(output_count), p5),
        spec_demangle_types(s, p5, output_count as nat) == (
            Ok::<Seq<TypeV>, DemangleError>(outputs),
            p6,
        ),
    ensures
        spec_demangle_function(s, p0) == (
            Ok::<TypeV, DemangleError>(TypeV::Function(inputs, outputs)),
            p6,
        ),
{
    reveal(spec_demangle_function);
}

/// A mangled function symbol: after the prefix come `S` and `F`, and then
/// the function.
proof fn lemma_symbol_steps(s: Seq<char>)
    requires
        spec_take_prefix(s, 0, mangle_prefix()) == (Ok::<(), DemangleError>(()), 7nat),
        s.len() > 8,
        s[7] == 'S',
        s[8] == 'F',
    ensures
        spec_demangle(s, 0) == spec_demangle_function(s, 9),
{
    reveal(spec_demangle);
}

/// Reading back the mangled name of a native function whose name takes one
/// byte per character (see [`law_demangle_native`]).
proof fn lemma_native_mangle_reads(v: Seq<char>, inputs: Seq<Type>, outputs: Seq<Type>)
    requires
        0 < v.len() <= usize::MAX,
        !is_ascii_digit(v[0]),
        0 < inputs.len() <= usize::MAX,
        outputs.len() <= usize::MAX,
        forall|i: int| 0 <= i < inputs.len() ==> is_scalar_type(#[trigger] inputs[i]),
        forall|i: int| 0 <= i < outputs.len() ==> is_scalar_type(#[trigger] outputs[i]),
    ensures
        spec_demangle(spec_native_mangle(v, v.len(), inputs, outputs), 0).0 == Ok::<
            TypeV,
            DemangleError,
        >(TypeV::Function(types_view(inputs), types_view(outputs))),
{
    let lv = v.len();
    reveal_strlit("pulsar_SF");
    let head: Seq<char> = "pulsar_SF"@;
    assert(head =~= seq!['p', 'u', 'l', 's', 'a', 'r', '_', 'S', 'F']);
    let d1 = spec_decimal(lv);
    let d2 = spec_decimal(inputs.len());
    let m1 = spec_mangles(inputs);
    let d3 = spec_decimal(outputs.len());
    let m2 = spec_mangles(outputs);
    let p2 = head + d1;
    let p3 = p2 + v;
    let p4 = p3 + d2;
    let p5 = p4 + m1;
    let p6 = p5 + d3;
    let s = p6 + m2;
    assert(s == spec_native_mangle(v, lv, inputs, outputs));
    let a1: nat = 9;
    let a2: nat = p2.len();
    let a3: nat = p3.len();
    let a4: nat = p4.len();
    let a5: nat = p5.len();
    let a6: nat = p6.len();
    let a7: nat = s.len();
    assert(s.subrange(0, a7 as int) =~= s);
    lemma_prefix_part(s, p6, m2);
    lemma_prefix_part(s, p5, d3);
    lemma_prefix_part(s, p4, m1);
    lemma_prefix_part(s, p3, d2);
    lemma_prefix_part(s, p2, v);
    lemma_prefix_part(s, head, d1);
    assert(s[a2 as int] == v[0]) by {
        assert(s[a2 as int] == s.subrange(a2 as int, a3 as int)[0]);
    }
    assert(spec_take_prefix(s, 0, mangle_prefix()) == (Ok::<(), DemangleError>(()), 7nat)) by {
        assert(s.subrange(0, 7) =~= mangle_prefix()) by {
            assert forall|i: int| 0 <= i < 7 implies s.subrange(0, 7)[i] == mangle_prefix()[i] by {
                assert(s[i] == s.subrange(0, 9)[i]);
            }
        }
        lemma_take_prefix_match(s, 0, mangle_prefix());
    }
    assert(s[7] == 'S' && s[8] == 'F') by {
        assert(s[7] == s.subrange(0, 9)[7]);
        assert(s[8] == s.subrange(0, 9)[8]);
    }
    lemma_take_decimal(s, a1, lv);
    lemma_scalar_mangles(inputs);
    assert(s[a4 as int] == m1[0]) by {
        assert(s[a4 as int] == s.subrange(a4 as int, a5 as int)[0]);
    }
    lemma_take_decimal(s, a3, inputs.len());
    lemma_demangle_scalar_types(s, a4, inputs);
    lemma_scalar_mangles(outputs);
    if outputs.len() > 0 {
        assert(s[a6 as int] == m2[0]) by {
            assert(s[a6 as int] == s.subrange(a6 as int, a7 as int)[0]);
        }
    }
    lemma_take_decimal(s, a5, outputs.len());
    lemma_demangle_scalar_types(s, a6, outputs);
    assert(spec_take_n(s, a2, lv) == (Some(v), a3)) by {
        assert(s.subrange(a2 as int, a3 as int) == v);
    }
    lemma_function_steps(
        s,
        a1,
        a2,
        a3,
        a4,
        a5,
        a6,
        a7,
        lv as usize,
        inputs.len() as usize,
        outputs.len() as usize,
        types_view(inputs),
        types_view(outputs),
    );
    lemma_symbol_steps(s);
    assert(spec_demangle(s, 0) == spec_demangle_function(s, a1));
    assert(spec_demangle_function(s, a1).0 == Ok::<TypeV, DemangleError>(
        TypeV::Function(types_view(inputs), types_view(outputs)),
    ));
}

/// Reading back the mangled name of a native function gives the function's
/// type, when the function's name is non-empty ASCII that does not begin
/// with a digit, the function has at least one input, and every input and
/// output type is `Unit` or `Int64`.
pub proof fn law_demangle_native(value: String, inputs: Seq<Type>, outputs: Seq<Type>)
    requires
        0 < value@.len() <= usize::MAX,
        !is_ascii_digit(value@[0]),
        vstd::utf8::is_ascii_chars(value@),
        0 < inputs.len() <= usize::MAX,
        outputs.len() <= usize::MAX,
        forall|i: int| 0 <= i < inputs.len() ==> is_scalar_type(#[trigger] inputs[i]),
        forall|i: int| 0 <= i < outputs.len() ==> is_scalar_type(#[trigger] outputs[i]),
    ensures
        spec_demangle(
            spec_native_mangle(value@, (utf8_len(value) as usize) as nat, inputs, outputs),
            0,
        ).0 == Ok::<TypeV, DemangleError>(TypeV::Function(types_view(inputs), types_view(outputs))),
{
    lemma_native_mangle_reads(value@, inputs, outputs);
    vstd::utf8::is_ascii_chars_encode_utf8(value@);
}

/// Whether `c` is an ASCII decimal digit.
fn is_digit(c: char) -> (result: bool)
    ensures
        result == is_ascii_digit(c),
{
    c >= '0' && c <= '9'
}

/// A placeholder token for types read back from mangled names.
fn fake_token() -> (result: Token)
    ensures
        result.ty == TokenType::Identifier,
        result.value@ == Seq::<char>::empty(),
        result.loc.line == 0 && result.loc.col == 0 && result.loc.pos == 0,
        *result.loc.source == crate::utils::loc::Source::Unknown,
{
    Token { ty: TokenType::Identifier, value: String::new(), loc: Loc::make_invalid() }
}

/// A type with the shape `value` and placeholder tokens.
fn make_type(value: TypeValue) -> (result: Type)
    ensures
        result.value == value,
{
    Type { value, attributes: Attributes::empty(), start_token: fake_token(), end_token: fake_token() }
}

/// Reads types back from their mangled names.
pub struct Demangler {
    pos: usize,
    buffer: Vec<char>,
}

impl Demangler {
    /// The text being read.
    pub closed spec fn text(&self) -> Seq<char> {
        self.buffer@
    }

    /// How many characters have been read.
    pub closed spec fn position(&self) -> nat {
        self.pos as nat
    }

    /// The reading position lies within the text.
    pub closed spec fn wf(&self) -> bool {
        self.pos <= self.buffer@.len()
    }

    /// A demangler at the start of `label`.
    pub fn new(label: String) -> (result: Self)
        ensures
            result.wf(),
            result.text() == label@,
            result.position() == 0,
    {
        Demangler { pos: 0, buffer: str_chars(label.as_str()) }
    }

    /// Reads the next character, if any.
    fn take(&mut self) -> (result: Option<char>)
        requires
            old(self).pos <= old(self).buffer@.len(),
        ensures
            final(self).buffer@ == old(self).buffer@,
            old(self).pos < old(self).buffer@.len() ==> result == Some(
                old(self).buffer@[old(self).pos as int],
            ) && final(self).pos == old(self).pos + 1,
            old(self).pos >= old(self).buffer@.len() ==> result is None && final(self).pos
                == old(self).pos,
    {
        if self.pos < self.buffer.len() {
            let c = self.buffer[self.pos];
            self.pos = self.pos + 1;
            Some(c)
        } else {
            None
        }
    }

    /// Reads `n` characters (see [`spec_take_n`]).
    fn take_n(&mut self, n: usize) -> (result: Option<String>)
        requires
            old(self).pos <= old(self).buffer@.len(),
        ensures
            final(self).buffer@ == old(self).buffer@,
            final(self).pos <= final(self).buffer@.len(),
            (match result {
                Some(s) => Some(s@),
                None => None,
            }, final(self).pos as nat) == spec_take_n(
                old(self).buffer@,
                old(self).pos as nat,
                n as nat,
            ),
    {
        if n <= self.buffer.len() - self.pos {
            let text = chars_to_string(&self.buffer, self.pos, self.pos + n);
            self.pos = self.pos + n;
            Some(text)
        } else {
            self.pos = self.buffer.len();
            None
        }
    }

    /// Reads a number (see [`spec_take_number`]).
    fn take_number(&mut self) -> (result: Result<usize, DemangleError>)
        requires
            old(self).pos <= old(self).buffer@.len(),
        ensures
            final(self).buffer@ == old(self).buffer@,
            final(self).pos <= final(self).buffer@.len(),
            (result, final(self).pos as nat) == spec_take_number(
                old(self).buffer@,
                old(self).pos as nat,
            ),
    {
        let ghost b = self.buffer@;
        let start = self.pos;
        let n = self.buffer.len();
        let mut value: usize = 0;
        let mut too_large = false;
        proof {
            assert(b.subrange(start as int, start as int) =~= Seq::<char>::empty());
        }
        while self.pos < n && is_digit(self.buffer[self.pos])
            invariant
                self.buffer@ == b,
                b == old(self).buffer@,
                n == b.len(),
                start == old(self).pos,
                start <= self.pos <= n,
                digits_end(b, start as nat) == digits_end(b, self.pos as nat),
                too_large <==> digits_value(b.subrange(start as int, self.pos as int))
                    > usize::MAX,
                !too_large ==> value == digits_value(b.subrange(start as int, self.pos as int)),
            decreases n - self.pos,
        {
            let c = self.buffer[self.pos];
            let d = (c as u32 - '0' as u32) as usize;
            if !too_large {
                match value.checked_mul(10) {
                    Some(m) => match m.checked_add(d) {
                        Some(v) => {
                            value = v;
                        },
                        None => {
                            too_large = true;
                        },
                    },
                    None => {
                        too_large = true;
                    },
                }
            }
            proof {
                let pre = b.subrange(start as int, self.pos + 1);
                assert(pre.drop_last() =~= b.subrange(start as int, self.pos as int));
                assert(pre.last() == c);
            }
            self.pos = self.pos + 1;
        }
        if self.pos == start {
            Err(DemangleError::NoNumber)
        } else if too_large {
            Err(DemangleError::NumberTooLarge)
        } else {
            Ok(value)
        }
    }

    /// Reads the characters of `prefix` (see [`spec_take_prefix`]).
    fn take_prefix(&mut self, prefix: &str) -> (result: Result<(), DemangleError>)
        requires
            old(self).pos <= old(self).buffer@.len(),
        ensures
            final(self).buffer@ == old(self).buffer@,
            final(self).pos <= final(self).buffer@.len(),
            (result, final(self).pos as nat) == spec_take_prefix(
                old(self).buffer@,
                old(self).pos as nat,
                prefix@,
            ),
    {
        let ghost b = self.buffer@;
        let chars = str_chars(prefix);
        let m = chars.len();
        let mut k: usize = 0;
        proof {
            assert(chars@.subrange(0, m as int) =~= prefix@);
        }
        while k < m
            invariant
                self.buffer@ == b,
                b == old(self).buffer@,
                chars@ == prefix@,
                m == chars@.len(),
                0 <= k <= m,
                self.pos <= b.len(),
                spec_take_prefix(b, old(self).pos as nat, prefix@) == spec_take_prefix(
                    b,
                    self.pos as nat,
                    chars@.subrange(k as int, m as int),
                ),
            decreases m - k,
        {
            proof {
                let rest = chars@.subrange(k as int, m as int);
                assert(rest.drop_first() =~= chars@.subrange(k + 1, m as int));
                assert(rest[0] == chars@[k as int]);
            }
            match self.take() {
                None => {
                    return Err(DemangleError::Eof);
                },
                Some(next) => {
                    if next != chars[k] {
                        return Err(DemangleError::Mismatch);
                    }
                },
            }
            k = k + 1;
        }
        proof {
            assert(chars@.subrange(m as int, m as int) =~= Seq::<char>::empty());
        }
        Ok(())
    }

    /// Reads the length of a name and the name (see [`spec_named_type`]).
    fn demangle_named_type(&mut self) -> (result: Result<Type, DemangleError>)
        requires
            old(self).pos <= old(self).buffer@.len(),
        ensures
            final(self).buffer@ == old(self).buffer@,
            final(self).pos <= final(self).buffer@.len(),
            (match result {
                Ok(t) => Ok(t@),
                Err(e) => Err(e),
            }, final(self).pos as nat) == spec_named_type(old(self).buffer@, old(self).pos as nat),
    {
        let length = match self.take_number() {
            Ok(n) => n,
            Err(e) => {
                return Err(e);
            },
        };
        match self.take_n(length) {
            Some(name) => Ok(make_type(TypeValue::Name(name))),
            None => Err(DemangleError::MissingName),
        }
    }

    /// Reads an array's size, `E`, and its element type.
    fn demangle_array_type(&mut self) -> (result: Result<Type, DemangleError>)
        requires
            0 < old(self).pos <= old(self).buffer@.len(),
            old(self).buffer@[old(self).pos - 1] == 'A',
        ensures
            final(self).buffer@ == old(self).buffer@,
            final(self).pos <= final(self).buffer@.len(),
            (match result {
                Ok(t) => Ok(t@),
                Err(e) => Err(e),
            }, final(self).pos as nat) == spec_demangle_type(
                old(self).buffer@,
                (old(self).pos - 1) as nat,
            ),
        decreases old(self).buffer@.len() - old(self).pos, 0nat,
    {
        let ghost b = self.buffer@;
        proof {
            lemma_digits_end_bounds(b, self.pos as nat);
        }
        let length = match self.take_number() {
            Ok(n) => n,
            Err(e) => {
                return Err(e);
            },
        };
        if self.take() != Some('E') {
            return Err(DemangleError::MissingElementType);
        }
        let element = match self.demangle_type() {
            Ok(t) => t,
            Err(e) => {
                return Err(e);
            },
        };
        let count = LiquidType {
            value: LiquidTypeValue::Equal(length),
            attributes: Attributes::empty(),
            start_token: fake_token(),
            end_token: fake_token(),
        };
        Ok(make_type(TypeValue::Array(Box::new(element), Box::new(count))))
    }

    /// Reads one mangled type (see [`spec_demangle_type`]).
    fn demangle_type(&mut self) -> (result: Result<Type, DemangleError>)
        requires
            old(self).pos <= old(self).buffer@.len(),
        ensures
            final(self).buffer@ == old(self).buffer@,
            final(self).pos <= final(self).buffer@.len(),
            (match result {
                Ok(t) => Ok(t@),
                Err(e) => Err(e),
            }, final(self).pos as nat) == spec_demangle_type(
                old(self).buffer@,
                old(self).pos as nat,
            ),
        decreases old(self).buffer@.len() - old(self).pos, 1nat,
    {
        match self.take() {
            Some('u') => Ok(make_type(TypeValue::Unit)),
            Some('q') => Ok(make_type(TypeValue::Int64)),
            Some('A') => self.demangle_array_type(),
            _ => self.demangle_named_type(),
        }
    }

    /// Reads `count` mangled types (see [`spec_demangle_types`]).
    fn demangle_types(&mut self, count: usize) -> (result: Result<Vec<Type>, DemangleError>)
        requires
            old(self).pos <= old(self).buffer@.len(),
        ensures
            final(self).buffer@ == old(self).buffer@,
            final(self).pos <= final(self).buffer@.len(),
            (match result {
                Ok(ts) => Ok(types_view(ts@)),
                Err(e) => Err(e),
            }, final(self).pos as nat) == spec_demangle_types(
                old(self).buffer@,
                old(self).pos as nat,
                count as nat,
            ),
    {
        let ghost b = self.buffer@;
        let ghost start = self.pos as nat;
        let mut result: Vec<Type> = Vec::new();
        let mut i: usize = 0;
        while i < count
            invariant
                self.buffer@ == b,
                b == old(self).buffer@,
                start == old(self).pos,
                0 <= i <= count,
                self.pos <= b.len(),
                spec_demangle_types(b, start, i as nat) == (
                    Ok::<Seq<TypeV>, DemangleError>(types_view(result@)),
                    self.pos as nat,
                ),
            decreases count - i,
        {
            match self.demangle_type() {
                Ok(t) => {
                    let ghost before = result@;
                    result.push(t);
                    proof {
                        assert(result@.drop_last() =~= before);
                    }
                },
                Err(e) => {
                    proof {
                        lemma_types_failure_sticks(b, start, (i + 1) as nat, count as nat);
                    }
                    return Err(e);
                },
            }
            i = i + 1;
        }
        Ok(result)
    }

    /// Reads a mangled function (see [`spec_demangle_function`]).
    fn demangle_function(&mut self) -> (result: Result<Type, DemangleError>)
        requires
            old(self).pos <= old(self).buffer@.len(),
        ensures
            final(self).buffer@ == old(self).buffer@,
            final(self).pos <= final(self).buffer@.len(),
            (match result {
                Ok(t) => Ok(t@),
                Err(e) => Err(e),
            }, final(self).pos as nat) == spec_demangle_function(
                old(self).buffer@,
                old(self).pos as nat,
            ),
    {
        proof {
            reveal(spec_demangle_function);
        }
        let length = match self.take_number() {
            Ok(n) => n,
            Err(e) => {
                return Err(e);
            },
        };
        if self.take_n(length).is_none() {
            return Err(DemangleError::MissingFunctionName);
        }
        let input_count = match self.take_number() {
            Ok(n) => n,
            Err(e) => {
                return Err(e);
            },
        };
        let inputs = match self.demangle_types(input_count) {
            Ok(ts) => ts,
            Err(e) => {
                return Err(e);
            },
        };
        let output_count = match self.take_number() {
            Ok(n) => n,
            Err(e) => {
                return Err(e);
            },
        };
        let outputs = match self.demangle_types(output_count) {
            Ok(ts) => ts,
            Err(e) => {
                return Err(e);
            },
        };
        Ok(make_type(TypeValue::Function { inputs, outputs }))
    }

    /// Reads the kind of a symbol after `S`: only `F`, a function, is known.
    fn demangle_symbol(&mut self) -> (result: Result<Type, DemangleError>)
        requires
            old(self).pos <= old(self).buffer@.len(),
        ensures
            final(self).buffer@ == old(self).buffer@,
            final(self).pos <= final(self).buffer@.len(),
            old(self).pos < old(self).buffer@.len() && old(self).buffer@[old(self).pos as int]
                == 'F' ==> (match result {
                Ok(t) => Ok(t@),
                Err(e) => Err(e),
            }, final(self).pos as nat) == spec_demangle_function(
                old(self).buffer@,
                (old(self).pos + 1) as nat,
            ),
            !(old(self).pos < old(self).buffer@.len() && old(self).buffer@[old(self).pos as int]
                == 'F') ==> result == Err::<Type, DemangleError>(DemangleError::UnknownSymbol)
                && final(self).pos == (if old(self).pos < old(self).buffer@.len() {
                old(self).pos + 1
            } else {
                old(self).pos as int
            }),
    {
        match self.take() {
            Some('F') => self.demangle_function(),
            _ => Err(DemangleError::UnknownSymbol),
        }
    }

    /// Reads the type of the symbol whose mangled name is the rest of the
    /// text (see [`spec_demangle`]).
    pub fn demangle(&mut self) -> (result: Result<Type, DemangleError>)
        requires
            old(self).wf(),
        ensures
            final(self).wf(),
            final(self).text() == old(self).text(),
            (match result {
                Ok(t) => Ok(t@),
                Err(e) => Err(e),
            }, final(self).position()) == spec_demangle(old(self).text(), old(self).position()),
    {
        let prefix = "pulsar_";
        proof {
            reveal(spec_demangle);
            reveal_strlit("pulsar_");
            assert(prefix@ =~= mangle_prefix());
        }
        match self.take_prefix(prefix) {
            Ok(()) => {},
            Err(e) => {
                return Err(e);
            },
        }
        match self.take() {
            Some('S') => self.demangle_symbol(),
            _ => Err(DemangleError::UnknownMangledValue),
        }
    }
}

} // verus!
