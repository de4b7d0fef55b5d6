use crate::frontend::ast::{
    text_of, type_value_view, type_view, TypeV, Decl, DeclValue, Expr, ExprValue, LiquidType, LiquidTypeValue, Stmt, StmtValue, Type,
    TypeValue,
};
use crate::frontend::attribute::{Attribute, Attributes};
use crate::frontend::op::{is_operator, op_of, spec_postfix, Associativity, Op, Precedence};
use crate::frontend::token::{spec_debug_name, text_len, token_span_of, Token, TokenType};
use crate::utils::error::{Error, ErrorBuilder, ErrorCode, ErrorManager, Level, Style};
use crate::utils::loc::Span;
use vstd::prelude::*;
use vstd::string::StrSliceExecFns;

verus! {

/// Whether `c` is an ASCII digit.
pub open spec fn ascii_digit(c: char) -> bool {
    '0' <= c && c <= '9'
}

/// The value of a string of ASCII digits.
pub open spec fn digits_value(s: Seq<char>) -> int
    decreases s.len(),
{
    if s.len() == 0 {
        0
    } else {
        digits_value(s.drop_last()) * 10 + (s.last() as int - 48)
    }
}

/// `s` without a leading `+` or `-`.
pub open spec fn unsigned_part(s: Seq<char>) -> Seq<char> {
    if s.len() > 0 && (s[0] == '-' || s[0] == '+') {
        s.drop_first()
    } else {
        s
    }
}

/// Whether every character of `t` is an ASCII digit.
pub open spec fn all_ascii_digits(t: Seq<char>) -> bool {
    forall|i: int| 0 <= i < t.len() ==> ascii_digit(#[trigger] t[i])
}

/// The 64-bit integer that `s` spells: an optional `+` or `-` followed by
/// at least one ASCII digit, within range; `None` otherwise.
pub open spec fn spec_parse_i64(s: Seq<char>) -> Option<i64> {
    let negative = s.len() > 0 && s[0] == '-';
    let body = unsigned_part(s);
    if body.len() > 0 && all_ascii_digits(body) {
        let v = if negative {
            -digits_value(body)
        } else {
            digits_value(body)
        };
        if i64::MIN <= v <= i64::MAX {
            Some(v as i64)
        } else {
            None
        }
    } else {
        None
    }
}

/// A string of digits is worth at least any of its prefixes.
proof fn lemma_digits_prefix(s: Seq<char>, i: int)
    requires
        0 <= i <= s.len(),
        forall|k: int| 0 <= k < s.len() ==> ascii_digit(#[trigger] s[k]),
    ensures
        0 <= digits_value(s.subrange(0, i)) <= digits_value(s),
    decreases s.len(),
{
    if i == s.len() {
        assert(s.subrange(0, i) =~= s);
        lemma_digits_nonneg(s);
    } else {
        assert(s.subrange(0, i) =~= s.drop_last().subrange(0, i));
        lemma_digits_prefix(s.drop_last(), i);
        lemma_digits_nonneg(s.drop_last());
    }
}

/// A string of digits is worth no less than zero.
proof fn lemma_digits_nonneg(s: Seq<char>)
    requires
        forall|k: int| 0 <= k < s.len() ==> ascii_digit(#[trigger] s[k]),
    ensures
        digits_value(s) >= 0,
    decreases s.len(),
{
    if s.len() > 0 {
        lemma_digits_nonneg(s.drop_last());
    }
}

/// The 64-bit integer that `s` spells (see [`spec_parse_i64`]), as
/// `str::parse::<i64>` reads it.
pub fn parse_i64(s: &str) -> (result: Option<i64>)
    ensures
        result == spec_parse_i64(s@),
{
    let chars = crate::frontend::lexer::str_chars(s);
    let n = chars.len();
    let negative = n > 0 && chars[0] == '-';
    let start: usize = if n > 0 && (chars[0] == '-' || chars[0] == '+') {
        1
    } else {
        0
    };
    let ghost body = if n > 0 && (chars@[0] == '-' || chars@[0] == '+') {
        chars@.drop_first()
    } else {
        chars@
    };
    proof {
        assert(body =~= chars@.subrange(start as int, n as int));
        assert(body == unsigned_part(s@));
    }
    if start >= n {
        return None;
    }
    let mut acc: i128 = 0;
    let mut i: usize = start;
    proof {
        assert(body.subrange(0, 0) =~= Seq::<char>::empty());
    }
    while i < n
        invariant
            start <= i <= n,
            n == chars@.len(),
            body == chars@.subrange(start as int, n as int),
            chars@ == s@,
            body == if n > 0 && (chars@[0] == '-' || chars@[0] == '+') {
                chars@.drop_first()
            } else {
                chars@
            },
            forall|k: int| 0 <= k < i - start ==> ascii_digit(#[trigger] body[k]),
            acc == digits_value(body.subrange(0, i - start)),
            0 <= acc <= 0x8000_0000_0000_0000,
        decreases n - i,
    {
        let c = chars[i];
        if !('0' <= c && c <= '9') {
            proof {
                assert(!ascii_digit(body[i - start]));
                assert(!(forall|k: int| 0 <= k < body.len() ==> ascii_digit(#[trigger] body[k])));
                assert(chars@ == s@);
                assert(spec_parse_i64(s@) is None);
            }
            return None;
        }
        proof {
            assert(body.subrange(0, i + 1 - start).drop_last() =~= body.subrange(0, i - start));
            assert(body.subrange(0, i + 1 - start).last() == c);
        }
        let next: i128 = acc * 10 + ((c as u32) as i128 - 48);
        proof {
            assert(digits_value(body.subrange(0, i + 1 - start)) == next);
        }
        if next > 0x8000_0000_0000_0000 {
            proof {
                assert(chars@ == s@);
                assert(forall|k: int| 0 <= k < i + 1 - start ==> ascii_digit(#[trigger] body[k]));
                if forall|k: int| 0 <= k < body.len() ==> ascii_digit(#[trigger] body[k]) {
                    lemma_digits_prefix(body, i + 1 - start);
                    assert(digits_value(body) > 0x8000_0000_0000_0000);
                }
                assert(spec_parse_i64(s@) is None);
            }
            return None;
        }
        acc = next;
        i = i + 1;
    }
    proof {
        assert(body.subrange(0, n - start) =~= body);
    }
    if negative {
        if acc > 0x8000_0000_0000_0000 {
            return None;
        }
        Some((-acc) as i64)
    } else {
        if acc > 0x7fff_ffff_ffff_ffff {
            return None;
        }
        Some(acc as i64)
    }
}

/// Whether the span of a token can be computed: its location and length
/// stay within machine words.
pub open spec fn spannable(t: Token) -> bool {
    &&& 0 <= t.loc.pos
    &&& text_len(t) <= isize::MAX
    &&& t.loc.pos + text_len(t) <= isize::MAX
    &&& t.loc.col + text_len(t) <= isize::MAX
}

/// Whether a token stream can be parsed without a numeric mishap: every
/// token has a span and every integer token spells a 64-bit integer.
pub open spec fn parsable(tokens: Seq<Token>) -> bool {
    forall|i: int|
        0 <= i < tokens.len() ==> spannable(#[trigger] tokens[i]) && (tokens[i].ty
            == TokenType::Integer ==> spec_parse_i64(tokens[i].value@) is Some)
}

/// Whether the tokens from `pos` are an array size in brackets: `[`, an
/// integer, `]`.
pub open spec fn bracket_group(buf: Seq<Token>, pos: int) -> bool {
    &&& 0 <= pos
    &&& pos + 3 <= buf.len()
    &&& buf[pos].ty == TokenType::LeftBracket
    &&& buf[pos + 1].ty == TokenType::Integer
    &&& buf[pos + 2].ty == TokenType::RightBracket
}

/// The number spelled by the size of the bracket group at `pos`.
pub open spec fn group_size(buf: Seq<Token>, pos: int) -> i64 {
    match spec_parse_i64(buf[pos + 1].value@) {
        Some(n) => n,
        None => 0,
    }
}

/// Whether another bracket group may follow at `pos`: the token there opens
/// one.
pub open spec fn opens_bracket(buf: Seq<Token>, pos: int) -> bool {
    0 <= pos < buf.len() && buf[pos].ty == TokenType::LeftBracket
}

/// Whether array brackets parse from `pos`: a bracket group with a size of
/// at least zero, followed by more such groups as long as a bracket opens.
pub open spec fn array_brackets_ok(buf: Seq<Token>, pos: int) -> bool
    decreases buf.len() - pos,
{
    &&& bracket_group(buf, pos)
    &&& group_size(buf, pos) >= 0
    &&& (opens_bracket(buf, pos + 3) ==> array_brackets_ok(buf, pos + 3))
}

/// The type that array brackets from `pos` make of `inner`, each group
/// wrapping the type so far in an array of its size, and the position after
/// the last group.
pub open spec fn spec_array_brackets(inner: TypeV, buf: Seq<Token>, pos: int) -> (TypeV, int)
    decreases buf.len() - pos,
{
    let wrapped = TypeV::Array(
        Box::new(inner),
        LiquidTypeValue::Equal(group_size(buf, pos) as usize),
    );
    if bracket_group(buf, pos) && opens_bracket(buf, pos + 3) {
        spec_array_brackets(wrapped, buf, pos + 3)
    } else {
        (wrapped, pos + 3)
    }
}

/// The type that the identifier `tok` names: `Int64` and `Int` the integer
/// type, `Unit` the unit type, any other name a named type.
pub open spec fn spec_primary_type(tok: Token) -> TypeV {
    let text = tok.value@;
    if text == "Int64"@ || text == "Int"@ {
        TypeV::Int64
    } else if text == "Unit"@ {
        TypeV::Unit
    } else {
        TypeV::Name(text)
    }
}

/// Whether a type can be read at `pos`: an identifier, then well-formed
/// array brackets where a bracket follows it.
pub open spec fn type_ok(buf: Seq<Token>, pos: int) -> bool {
    &&& 0 <= pos < buf.len()
    &&& buf[pos].ty == TokenType::Identifier
    &&& (opens_bracket(buf, pos + 1) ==> array_brackets_ok(buf, pos + 1))
}

/// The type read at `pos`, and the position after it.
pub open spec fn spec_type(buf: Seq<Token>, pos: int) -> (TypeV, int) {
    if opens_bracket(buf, pos + 1) {
        spec_array_brackets(spec_primary_type(buf[pos]), buf, pos + 1)
    } else {
        (spec_primary_type(buf[pos]), pos + 1)
    }
}

/// The first position at or after `pos` whose token is not a newline, or
/// the end of `buf`.
pub open spec fn first_content(buf: Seq<Token>, pos: int) -> int
    decreases buf.len() - pos,
{
    if 0 <= pos < buf.len() && buf[pos].ty == TokenType::Newline {
        first_content(buf, pos + 1)
    } else {
        pos
    }
}

/// Only newlines lie from `pos` to `end`, and none at `end`: `end` is the
/// first content from `pos`.
proof fn lemma_first_content(buf: Seq<Token>, pos: int, end: int)
    requires
        0 <= pos <= end <= buf.len(),
        forall|i: int| pos <= i < end ==> #[trigger] buf[i].ty == TokenType::Newline,
        end == buf.len() || buf[end].ty != TokenType::Newline,
    ensures
        first_content(buf, pos) == end,
    decreases end - pos,
{
    if pos < end {
        lemma_first_content(buf, pos + 1, end);
    }
}

/// What a statement read at `pos` is, by its first token after newlines: a
/// `let` binding, a divider, or else an assignment.
pub open spec fn stmt_fits(v: StmtValue, buf: Seq<Token>, pos: int) -> bool {
    let k = first_content(buf, pos);
    &&& 0 <= k < buf.len()
    &&& (v is Let <==> buf[k].ty == TokenType::Let)
    &&& (buf[k].ty == TokenType::Divider ==> v == StmtValue::Divider(buf[k]))
    &&& (buf[k].ty != TokenType::Let && buf[k].ty != TokenType::Divider ==> (v matches StmtValue::Assign(
        _,
        op,
        _,
    ) && op.ty == TokenType::Assign))
}

/// What a primary expression read at `pos` is, by its first token: an
/// integer constant, a call where a parenthesis follows a name, a bound name,
/// an array literal, or a parenthesized expression.
pub open spec fn primary_fits(v: ExprValue, buf: Seq<Token>, pos: int) -> bool {
    let tok = buf[pos];
    &&& 0 <= pos < buf.len()
    &&& (tok.ty == TokenType::Integer ==> v == ExprValue::ConstantInt(
        spec_parse_i64(tok.value@)->0,
    ))
    &&& (tok.ty == TokenType::Identifier ==> if pos + 1 < buf.len() && buf[pos + 1].ty
        == TokenType::LeftPar {
        v matches ExprValue::Call(name, _) && name == tok
    } else {
        v == ExprValue::BoundName(tok)
    })
    &&& (tok.ty == TokenType::LeftBracket ==> v is ArrayLiteral)
    &&& (tok.ty == TokenType::Integer || tok.ty == TokenType::Identifier || tok.ty
        == TokenType::LeftBracket || tok.ty == TokenType::LeftPar)
}

/// The precedence of the infix operator token `t`.
pub open spec fn op_prec(t: Token) -> int {
    match crate::frontend::op::spec_infix(t.ty) {
        Some((p, _)) => p as int,
        None => 0,
    }
}

/// The position of the last operator of lowest precedence among `ops`: the
/// root of their tree, since operators of one precedence group to the left.
pub open spec fn last_min(ops: Seq<Token>) -> int
    decreases ops.len(),
{
    if ops.len() <= 1 {
        0
    } else {
        let j = last_min(ops.drop_last());
        if op_prec(ops.last()) <= op_prec(ops[j]) {
            ops.len() - 1
        } else {
            j
        }
    }
}

/// Whether the expression `e` is the tree that the operators `ops` make of
/// the operands `base` then `rands`: the root is the last operator of
/// lowest precedence, its left side the tree of what comes before it, and
/// its right side the tree of what comes after it.
pub open spec fn infix_matches(e: Expr, base: Expr, ops: Seq<Token>, rands: Seq<Expr>) -> bool
    decreases ops.len(),
{
    if ops.len() == 0 {
        e == base
    } else {
        let i = last_min(ops);
        if 0 <= i < ops.len() && rands.len() == ops.len() {
            e.value matches ExprValue::InfixBop(l, op, r) && op == ops[i] && infix_matches(
                *l,
                base,
                ops.subrange(0, i),
                rands.subrange(0, i),
            ) && infix_matches(
                *r,
                rands[i],
                ops.subrange(i + 1, ops.len() as int),
                rands.subrange(i + 1, rands.len() as int),
            )
        } else {
            false
        }
    }
}

/// Whether `e` is an expression as the parser builds it: an operand, or
/// operands joined by infix operators grouped by precedence (see
/// [`climbed`]).
pub open spec fn expr_tree(e: Expr) -> bool {
    exists|base: Expr, ops: Seq<Token>, rands: Seq<Expr>|
        #[trigger] climbed(e, base, ops, rands, -1) && operand_ok(base)
}

/// Whether the expressions of the statement `s` are built as the parser
/// builds them.
pub open spec fn stmt_trees(s: StmtValue) -> bool {
    match s {
        StmtValue::Let { value, .. } => expr_tree(value),
        StmtValue::Assign(lhs, _, rhs) => expr_tree(lhs) && expr_tree(rhs),
        StmtValue::Divider(_) => true,
    }
}

/// Whether the token at `pos` is an infix operator of precedence above `p`.
pub open spec fn tighter_at(buf: Seq<Token>, pos: int, p: int) -> bool {
    0 <= pos < buf.len() && (crate::frontend::op::spec_infix(buf[pos].ty) matches Some((q, _))
        && q > p)
}

/// Whether `e` can be an operand: a primary expression, whose value is an
/// infix operation only when it is parenthesized.
pub open spec fn operand_ok(e: Expr) -> bool {
    e.value is InfixBop ==> e.start_token.ty == TokenType::LeftPar
}

/// Whether `e` is what climbing over the infix operators `ops`, each of
/// precedence at least `min`, makes of `base` and the operands `rands`.
pub open spec fn climbed(e: Expr, base: Expr, ops: Seq<Token>, rands: Seq<Expr>, min: int) -> bool {
    &&& ops.len() == rands.len()
    &&& forall|k: int|
        0 <= k < ops.len() ==> crate::frontend::op::spec_infix((#[trigger] ops[k]).ty) is Some
            && op_prec(ops[k]) >= min
    &&& forall|k: int| 0 <= k < rands.len() ==> operand_ok(#[trigger] rands[k])
    &&& infix_matches(e, base, ops, rands)
}

/// Whether the operators `ops` and the operands `rands` stand in `buf`
/// from `start` on, before `end`: operator `k` is the token at `opos[k]`,
/// the first operator is at `start`, each operand begins right after its
/// operator, and each operand but the last ends right before the next
/// operator.
pub open spec fn positioned(
    buf: Seq<Token>,
    start: int,
    end: int,
    ops: Seq<Token>,
    rands: Seq<Expr>,
    opos: Seq<int>,
) -> bool {
    &&& opos.len() == ops.len()
    &&& rands.len() == ops.len()
    &&& ops.len() > 0 ==> opos[0] == start
    &&& forall|k: int|
        0 <= k < ops.len() ==> start <= #[trigger] opos[k] && opos[k] + 1 < end && ops[k] == buf[opos[k]]
            && rands[k].start_token == buf[opos[k] + 1]
    &&& forall|k: int|
        1 <= k < ops.len() ==> #[trigger] opos[k] >= opos[k - 1] + 2 && rands[k - 1].end_token
            == buf[opos[k] - 1]
}

/// What climbing from `start` to `end` in `buf` makes of `base`: the tree
/// of the operators and operands read there (see [`climbed`] and
/// [`positioned`]), the last operand ending right before `end` unless the
/// tokens ran out.
pub open spec fn climb_result(
    e: Expr,
    base: Expr,
    ops: Seq<Token>,
    rands: Seq<Expr>,
    opos: Seq<int>,
    min: int,
    buf: Seq<Token>,
    start: int,
    end: int,
) -> bool {
    &&& climbed(e, base, ops, rands, min)
    &&& positioned(buf, start, end, ops, rands, opos)
    &&& ops.len() > 0 && end < buf.len() ==> rands.last().end_token == buf[end - 1]
    &&& ops.len() == 0 ==> end == start || end == buf.len()
}

proof fn lemma_positioned_join(
    buf: Seq<Token>,
    start: int,
    p: int,
    q: int,
    end: int,
    ops: Seq<Token>,
    rands: Seq<Expr>,
    opos: Seq<int>,
    op: Token,
    r0: Expr,
    opsr: Seq<Token>,
    randsr: Seq<Expr>,
    oposr: Seq<int>,
)
    requires
        positioned(buf, start, p, ops, rands, opos),
        ops.len() > 0 ==> rands.last().end_token == buf[p - 1],
        ops.len() == 0 ==> p == start,
        start <= p,
        p + 2 <= q <= end,
        op == buf[p],
        r0.start_token == buf[p + 1],
        r0.end_token == buf[q - 1],
        positioned(buf, q, end, opsr, randsr, oposr),
    ensures
        positioned(
            buf,
            start,
            end,
            ops.push(op) + opsr,
            rands.push(r0) + randsr,
            opos.push(p) + oposr,
        ),
{
    let o = ops.push(op) + opsr;
    let r = rands.push(r0) + randsr;
    let ps = opos.push(p) + oposr;
    let n = ops.len() as int;
    assert forall|k: int| 0 <= k < o.len() implies start <= #[trigger] ps[k] && ps[k] + 1 < end
        && o[k] == buf[ps[k]] && r[k].start_token == buf[ps[k] + 1] by {
        if k < n {
            assert(ps[k] == opos[k] && o[k] == ops[k] && r[k] == rands[k]);
        } else if k > n {
            assert(ps[k] == oposr[k - n - 1] && o[k] == opsr[k - n - 1] && r[k] == randsr[k - n - 1]);
        }
    }
    assert forall|k: int| 1 <= k < o.len() implies #[trigger] ps[k] >= ps[k - 1] + 2
        && r[k - 1].end_token == buf[ps[k] - 1] by {
        if k < n {
            assert(ps[k] == opos[k] && ps[k - 1] == opos[k - 1] && r[k - 1] == rands[k - 1]);
        } else if k == n {
            assert(ps[k] == p && ps[k - 1] == opos[k - 1] && r[k - 1] == rands[k - 1]);
            assert(rands.last() == rands[k - 1]);
        } else if k == n + 1 {
            assert(ps[k - 1] == p && r[k - 1] == r0);
            assert(ps[k] == oposr[0]);
        } else {
            assert(ps[k] == oposr[k - n - 1] && ps[k - 1] == oposr[k - n - 2] && r[k - 1] == randsr[k
                - n - 2]);
        }
    }
    if n == 0 {
        assert(ps[0] == p);
    } else {
        assert(ps[0] == opos[0]);
    }
}

proof fn lemma_last_min_range(ops: Seq<Token>)
    requires
        ops.len() > 0,
    ensures
        0 <= last_min(ops) < ops.len(),
    decreases ops.len(),
{
    if ops.len() > 1 {
        lemma_last_min_range(ops.drop_last());
    }
}

/// An operator of precedence at most that of every operator before it and
/// below that of every operator after it is the last of lowest precedence.
proof fn lemma_last_min_at(ops: Seq<Token>, k: int)
    requires
        0 <= k < ops.len(),
        forall|j: int| 0 <= j < k ==> op_prec(#[trigger] ops[j]) >= op_prec(ops[k]),
        forall|j: int| k < j < ops.len() ==> op_prec(#[trigger] ops[j]) > op_prec(ops[k]),
    ensures
        last_min(ops) == k,
    decreases ops.len(),
{
    if ops.len() == 1 {
    } else if k == ops.len() - 1 {
        let d = ops.drop_last();
        lemma_last_min_range(d);
        let j = last_min(d);
        assert(d[j] == ops[j]);
    } else {
        let d = ops.drop_last();
        assert forall|j: int| 0 <= j < k implies op_prec(#[trigger] d[j]) >= op_prec(d[k]) by {
            assert(d[j] == ops[j]);
        }
        assert forall|j: int| k < j < d.len() implies op_prec(#[trigger] d[j]) > op_prec(d[k]) by {
            assert(d[j] == ops[j]);
        }
        lemma_last_min_at(d, k);
        assert(d[k] == ops[k]);
    }
}

/// Joining two trees with an operator that binds no tighter than any
/// operator on its left and looser than every operator on its right gives
/// the tree of the joined operators.
proof fn lemma_infix_join(
    e: Expr,
    l: Expr,
    r: Expr,
    op: Token,
    base: Expr,
    a: Seq<Token>,
    ra: Seq<Expr>,
    y: Expr,
    b: Seq<Token>,
    rb: Seq<Expr>,
)
    requires
        infix_matches(l, base, a, ra),
        infix_matches(r, y, b, rb),
        a.len() == ra.len(),
        b.len() == rb.len(),
        forall|j: int| 0 <= j < a.len() ==> op_prec(#[trigger] a[j]) >= op_prec(op),
        forall|j: int| 0 <= j < b.len() ==> op_prec(#[trigger] b[j]) > op_prec(op),
        e.value == ExprValue::InfixBop(Box::new(l), op, Box::new(r)),
    ensures
        infix_matches(e, base, a.push(op) + b, ra.push(y) + rb),
{
    let ops = a.push(op) + b;
    let rands = ra.push(y) + rb;
    let k = a.len() as int;
    assert(ops[k] == op);
    assert forall|j: int| 0 <= j < k implies op_prec(#[trigger] ops[j]) >= op_prec(ops[k]) by {
        assert(ops[j] == a[j]);
    }
    assert forall|j: int| k < j < ops.len() implies op_prec(#[trigger] ops[j]) > op_prec(ops[k]) by {
        assert(ops[j] == b[j - k - 1]);
    }
    lemma_last_min_at(ops, k);
    assert(ops.subrange(0, k) =~= a);
    assert(rands.subrange(0, k) =~= ra);
    assert(ops.subrange(k + 1, ops.len() as int) =~= b);
    assert(rands.subrange(k + 1, rands.len() as int) =~= rb);
    assert(rands[k] == y);
}

/// Where a parse error happened, and perhaps how to fix it.
pub struct ParseErrorContext {
    pub loc: String,
    pub fix: Option<String>,
}

impl ParseErrorContext {
    /// No location and no fix.
    pub fn new() -> (result: Self)
        ensures
            result.loc@ == Seq::<char>::empty(),
            result.fix is None,
    {
        ParseErrorContext { loc: String::new(), fix: None }
    }

    /// The same context with the fix `msg`.
    pub fn fix(self, msg: &str) -> (result: Self)
        ensures
            result.loc == self.loc,
            result.fix matches Some(f) && f@ == msg@,
    {
        let mut result = self;
        result.fix = Some(msg.to_owned());
        result
    }

    fn located(self, prefix: &str, value: &str) -> (result: Self)
        ensures
            result.loc@ == prefix@ + seq![' '] + value@,
            result.fix == self.fix,
    {
        let space = " ";
        proof {
            reveal_strlit(" ");
            assert(space@ =~= seq![' ']);
        }
        let mut loc = prefix.to_owned();
        loc.append(space);
        loc.append(value);
        ParseErrorContext { loc, fix: self.fix }
    }

    /// The context `in <value>`.
    pub fn in_(self, value: &str) -> (result: Self)
        ensures
            result.loc@ == "in"@ + seq![' '] + value@,
            result.fix == self.fix,
    {
        self.located("in", value)
    }

    /// The context `between <value>`.
    pub fn between(self, value: &str) -> (result: Self)
        ensures
            result.loc@ == "between"@ + seq![' '] + value@,
            result.fix == self.fix,
    {
        self.located("between", value)
    }

    /// The context `for <value>`.
    pub fn for_(self, value: &str) -> (result: Self)
        ensures
            result.loc@ == "for"@ + seq![' '] + value@,
            result.fix == self.fix,
    {
        self.located("for", value)
    }

    /// The context `at start of <value>`.
    pub fn begin(self, value: &str) -> (result: Self)
        ensures
            result.loc@ == "at start of"@ + seq![' '] + value@,
            result.fix == self.fix,
    {
        self.located("at start of", value)
    }

    /// The context `at end of <value>`.
    pub fn end(self, value: &str) -> (result: Self)
        ensures
            result.loc@ == "at end of"@ + seq![' '] + value@,
            result.fix == self.fix,
    {
        self.located("at end of", value)
    }

    /// The context `after <value>`.
    pub fn after(self, value: &str) -> (result: Self)
        ensures
            result.loc@ == "after"@ + seq![' '] + value@,
            result.fix == self.fix,
    {
        self.located("after", value)
    }
}

/// Where the parser may stop when recovering from an error, besides the
/// start of a top-level construct.
#[derive(Clone, Copy, PartialEq, Eq, Structural)]
pub enum RecoveryExit {
    Nowhere,
    At(TokenType),
}

/// A recursive-descent predictive parser over a token buffer.
pub struct Parser {
    pub pos: usize,
    pub buffer: Vec<Token>,
}

impl Parser {
    /// The position is within the buffer and every token can be parsed.
    pub open spec fn wf(&self) -> bool {
        &&& self.pos <= self.buffer@.len()
        &&& parsable(self.buffer@)
    }

    /// What a parsing step keeps: the same well-formed buffer, a position
    /// that only moves forward, and an error manager that stays well-formed
    /// with the same limit and loses no error.
    pub open spec fn step(
        old_self: Parser,
        new_self: Parser,
        old_errors: ErrorManager,
        new_errors: ErrorManager,
    ) -> bool {
        &&& new_self.wf()
        &&& new_self.buffer@ == old_self.buffer@
        &&& old_self.pos <= new_self.pos
        &&& new_errors.wf()
        &&& new_errors.limit() == old_errors.limit()
        &&& new_errors.recorded().len() >= old_errors.recorded().len()
        &&& new_errors.recorded().len() == old_errors.recorded().len() ==> new_errors.recorded()
            == old_errors.recorded()
    }

    /// Constructs a parser for the given token buffer `buffer`.
    pub fn new(buffer: Vec<Token>) -> (result: Self)
        requires
            parsable(buffer@),
        ensures
            result.wf(),
            result.pos == 0,
            result.buffer@ == buffer@,
    {
        Parser { pos: 0, buffer }
    }

    fn is_eof(&self) -> (result: bool)
        requires
            self.pos <= self.buffer@.len(),
        ensures
            result == (self.pos == self.buffer@.len()),
    {
        self.pos == self.buffer.len()
    }

    fn previous(&self) -> (result: &Token)
        requires
            0 < self.pos <= self.buffer@.len(),
        ensures
            *result == self.buffer@[self.pos - 1],
    {
        &self.buffer[self.pos - 1]
    }

    fn current(&self) -> (result: &Token)
        requires
            self.pos < self.buffer@.len(),
        ensures
            *result == self.buffer@[self.pos as int],
    {
        &self.buffer[self.pos]
    }

    /// The type of the current token, if any.
    fn current_ty(&self) -> (result: Option<TokenType>)
        requires
            self.pos <= self.buffer@.len(),
        ensures
            result == (if self.pos < self.buffer@.len() {
                Some(self.buffer@[self.pos as int].ty)
            } else {
                None
            }),
    {
        if self.pos < self.buffer.len() {
            Some(self.buffer[self.pos].ty)
        } else {
            None
        }
    }

    /// Parses the current token as an operator without consuming any tokens.
    fn current_op_opt(&self) -> (result: Option<Op>)
        requires
            self.pos <= self.buffer@.len(),
        ensures
            result is Some <==> self.pos < self.buffer@.len() && is_operator(
                self.buffer@[self.pos as int].ty,
            ),
            result matches Some(op) ==> op_of(op, self.buffer@[self.pos as int].ty),
    {
        match self.current_ty() {
            Some(ty) => Op::from(ty),
            None => None,
        }
    }

    fn is_at(&self, ty: TokenType) -> (result: bool)
        requires
            self.pos <= self.buffer@.len(),
        ensures
            result == (self.pos < self.buffer@.len() && self.buffer@[self.pos as int].ty == ty),
    {
        self.pos < self.buffer.len() && self.buffer[self.pos].ty == ty
    }

    fn next_is(&self, ty: TokenType) -> (result: bool)
        requires
            self.pos <= self.buffer@.len(),
        ensures
            result == (self.pos + 1 < self.buffer@.len() && self.buffer@[self.pos + 1].ty == ty),
    {
        if self.pos < self.buffer.len() && self.pos + 1 < self.buffer.len() {
            self.buffer[self.pos + 1].ty == ty
        } else {
            false
        }
    }

    fn advance(&mut self)
        requires
            old(self).wf(),
            old(self).pos < old(self).buffer@.len(),
        ensures
            final(self).wf(),
            final(self).pos == old(self).pos + 1,
            final(self).buffer@ == old(self).buffer@,
    {
        let n = self.buffer.len();
        self.pos = self.pos + 1;
    }

    fn take(&mut self) -> (result: Token)
        requires
            old(self).wf(),
            old(self).pos < old(self).buffer@.len(),
        ensures
            final(self).wf(),
            final(self).pos == old(self).pos + 1,
            final(self).buffer@ == old(self).buffer@,
            result == old(self).buffer@[old(self).pos as int],
    {
        let result = self.buffer[self.pos].duplicate();
        self.advance();
        result
    }

    /// Reverts an advance, returning `true` unless at the start.
    fn unget(&mut self) -> (result: bool)
        requires
            old(self).wf(),
        ensures
            final(self).wf(),
            final(self).buffer@ == old(self).buffer@,
            result == (old(self).pos > 0),
            final(self).pos == if result {
                old(self).pos - 1
            } else {
                old(self).pos as int
            },
    {
        if self.pos > 0 {
            self.pos = self.pos - 1;
            true
        } else {
            false
        }
    }

    /// Skips past tokens that can be arbitrarily inserted, such as newlines.
    fn consume_ignored(&mut self)
        requires
            old(self).wf(),
        ensures
            final(self).wf(),
            final(self).buffer@ == old(self).buffer@,
            old(self).pos <= final(self).pos,
            final(self).pos == final(self).buffer@.len() || final(self).buffer@[final(self).pos as int].ty
                != TokenType::Newline,
            forall|i: int|
                old(self).pos <= i < final(self).pos ==> #[trigger] final(self).buffer@[i].ty
                    == TokenType::Newline,
            final(self).pos == first_content(old(self).buffer@, old(self).pos as int),
    {
        while self.pos < self.buffer.len() && self.buffer[self.pos].ty == TokenType::Newline
            invariant
                self.wf(),
                self.buffer@ == old(self).buffer@,
                old(self).pos <= self.pos,
                forall|i: int|
                    old(self).pos <= i < self.pos ==> #[trigger] self.buffer@[i].ty
                        == TokenType::Newline,
            decreases self.buffer@.len() - self.pos,
        {
            self.advance();
        }
        proof {
            lemma_first_content(self.buffer@, old(self).pos as int, self.pos as int);
        }
    }

    /// The span of the `i`th token.
    fn token_span(&self, i: usize) -> (result: Span)
        requires
            self.wf(),
            i < self.buffer@.len(),
        ensures
            result == token_span_of(self.buffer@[i as int]),
    {
        self.buffer[i].span()
    }

    fn report(&self, errors: &mut ErrorManager, error: Error)
        requires
            old(errors).wf(),
        ensures
            final(errors).wf(),
            final(errors).limit() == old(errors).limit(),
            primary_errors_before(*old(errors)) ==> final(errors).recorded() == old(
                errors,
            ).recorded().push(error),
            records_one(*old(errors), *final(errors)),
    {
        let ghost before = errors.recorded();
        errors.record(error);
        proof {
            if primary_errors_before(*old(errors)) {
                assert(before.push(error).drop_last() =~= before);
            }
        }
    }

    /// Reports that the end of input came unexpectedly in `context`.
    fn report_unexpected_eof(&self, errors: &mut ErrorManager, context: ParseErrorContext)
        requires
            self.wf(),
            old(errors).wf(),
        ensures
            final(errors).wf(),
            final(errors).limit() == old(errors).limit(),
            records_one(*old(errors), *final(errors)),
            primary_errors_before(*old(errors)) ==> ({
                let e = last_error(*final(errors));
                &&& e.style == Style::Primary && e.level == Level::Error && e.code == ErrorCode::UnexpectedEOF
                &&& e.span == (if self.buffer@.len() > 0 { Some(token_span_of(self.buffer@.last())) } else { None::<Span> })
                &&& e.message@ == Seq::<char>::empty()
                &&& e.explain matches Some(x) && x@ == "Unexpected EOF "@ + context.loc@
                &&& e.fix == context.fix
            }),
    {
        let mut explain = text_of("Unexpected EOF ");
        explain.append(context.loc.as_str());
        let builder = ErrorBuilder::new().of_style(Style::Primary).at_level(Level::Error).with_code(
            ErrorCode::UnexpectedEOF,
        );
        let builder = if self.buffer.len() > 0 {
            builder.span(self.token_span(self.buffer.len() - 1))
        } else {
            builder.without_loc()
        };
        let error = builder.explain(explain).maybe_fix(context.fix).build();
        self.report(errors, error);
    }

    /// Reports that the token at `actual` is not of the expected type
    /// `expected_ty` in the parsing `context`.
    fn report_expected_token(
        &self,
        errors: &mut ErrorManager,
        expected_ty: TokenType,
        actual: usize,
        context: ParseErrorContext,
    )
        requires
            self.wf(),
            old(errors).wf(),
            actual < self.buffer@.len(),
        ensures
            final(errors).wf(),
            final(errors).limit() == old(errors).limit(),
            records_one(*old(errors), *final(errors)),
            primary_errors_before(*old(errors)) ==> ({
                let e = last_error(*final(errors));
                &&& e.style == Style::Primary && e.level == Level::Error && e.code == ErrorCode::UnexpectedToken
                &&& e.span == Some(token_span_of(self.buffer@[actual as int]))
                &&& e.message@ == "Expected '"@ + spec_debug_name(expected_ty) + "' "@ + context.loc@
                &&& e.explain matches Some(x) && x@ == "Received '"@ + spec_debug_name(self.buffer@[actual as int].ty) + "' here"@
                &&& e.fix is None
            }),
    {
        let mut message = text_of("Expected '");
        message.append(expected_ty.debug_name());
        message.append("' ");
        message.append(context.loc.as_str());
        let mut explain = text_of("Received '");
        explain.append(self.buffer[actual].ty.debug_name());
        explain.append("' here");
        let error = ErrorBuilder::new().of_style(Style::Primary).at_level(Level::Error).with_code(
            ErrorCode::UnexpectedToken,
        ).span(self.token_span(actual)).message(message).explain(explain).build();
        self.report(errors, error);
    }

    /// Reports, as a continuation of the previous error, a reference back to
    /// the token at `refback` with the explanation `explain`.
    fn report_refback(&self, errors: &mut ErrorManager, refback: usize, explain: String)
        requires
            self.wf(),
            old(errors).wf(),
            refback < self.buffer@.len(),
        ensures
            final(errors).wf(),
            final(errors).limit() == old(errors).limit(),
            records_one(*old(errors), *final(errors)),
            primary_errors_before(*old(errors)) ==> ({
                let e = last_error(*final(errors));
                &&& e.style == Style::Secondary && e.level == Level::Error && e.code == ErrorCode::WompWomp
                &&& e.span == Some(token_span_of(self.buffer@[refback as int]))
                &&& e.message@ == "   ..."@
                &&& e.explain == Some(explain)
                &&& e.fix is None
            }),
    {
        let error = ErrorBuilder::new().of_style(Style::Secondary).at_level(Level::Error).span(
            self.token_span(refback),
        ).continues().explain(explain).build();
        self.report(errors, error);
    }

    /// Reports a construct at top level that should not be there.
    fn report_invalid_top_level(&self, errors: &mut ErrorManager, token: usize)
        requires
            self.wf(),
            old(errors).wf(),
            token < self.buffer@.len(),
        ensures
            final(errors).wf(),
            final(errors).limit() == old(errors).limit(),
            records_one(*old(errors), *final(errors)),
            primary_errors_before(*old(errors)) ==> ({
                let e = last_error(*final(errors));
                &&& e.style == Style::Primary && e.level == Level::Error && e.code == ErrorCode::InvalidTopLevelConstruct
                &&& e.span == Some(token_span_of(self.buffer@[token as int]))
                &&& e.message@ == "Unexpected "@ + spec_debug_name(self.buffer@[token as int].ty) + " at top level"@
                &&& e.explain is None
                &&& e.fix matches Some(x) && x@ == "Allowed constructs at top level include functions and imports"@
            }),
    {
        let mut message = text_of("Unexpected ");
        message.append(self.buffer[token].ty.debug_name());
        message.append(" at top level");
        let error = ErrorBuilder::new().of_style(Style::Primary).at_level(Level::Error).with_code(
            ErrorCode::InvalidTopLevelConstruct,
        ).span(self.token_span(token)).message(message).fix(
            text_of("Allowed constructs at top level include functions and imports"),
        ).build();
        self.report(errors, error);
    }

    /// Reports a construct that belongs only at top level found nested.
    fn report_unexpected_top_level(&self, errors: &mut ErrorManager, token: usize)
        requires
            self.wf(),
            old(errors).wf(),
            token < self.buffer@.len(),
        ensures
            final(errors).wf(),
            final(errors).limit() == old(errors).limit(),
            records_one(*old(errors), *final(errors)),
            primary_errors_before(*old(errors)) ==> ({
                let e = last_error(*final(errors));
                &&& e.style == Style::Primary && e.level == Level::Error && e.code == ErrorCode::ConstructShouldBeTopLevel
                &&& e.span == Some(token_span_of(self.buffer@[token as int]))
                &&& e.message@ == "Unexpected top-level construct"@
                &&& e.explain is None
                &&& e.fix matches Some(x) && x@ == "Did you mean to place it at the top level?"@
            }),
    {
        let error = ErrorBuilder::new().of_style(Style::Primary).at_level(Level::Error).with_code(
            ErrorCode::ConstructShouldBeTopLevel,
        ).span(self.token_span(token)).message(text_of("Unexpected top-level construct")).fix(
            text_of("Did you mean to place it at the top level?"),
        ).build();
        self.report(errors, error);
    }

    /// Reports a token that cannot start a statement.
    fn report_invalid_token(&self, errors: &mut ErrorManager, token: usize)
        requires
            self.wf(),
            old(errors).wf(),
            token < self.buffer@.len(),
        ensures
            final(errors).wf(),
            final(errors).limit() == old(errors).limit(),
            records_one(*old(errors), *final(errors)),
            primary_errors_before(*old(errors)) ==> ({
                let e = last_error(*final(errors));
                &&& e.style == Style::Primary && e.level == Level::Error && e.code == ErrorCode::InvalidTokenForStatement
                &&& e.span == Some(token_span_of(self.buffer@[token as int]))
                &&& e.message@ == "Invalid token at the start of a statement"@
                &&& e.explain is None
                &&& e.fix is None
            }),
    {
        let error = ErrorBuilder::new().of_style(Style::Primary).at_level(Level::Error).with_code(
            ErrorCode::InvalidTokenForStatement,
        ).span(self.token_span(token)).message(
            text_of("Invalid token at the start of a statement"),
        ).build();
        self.report(errors, error);
    }

    /// Reports a token used as a `usage` operator when it is not one.
    fn report_invalid_operator(&self, errors: &mut ErrorManager, token: usize, usage: &str)
        requires
            self.wf(),
            old(errors).wf(),
            token < self.buffer@.len(),
        ensures
            final(errors).wf(),
            final(errors).limit() == old(errors).limit(),
            records_one(*old(errors), *final(errors)),
            primary_errors_before(*old(errors)) ==> ({
                let e = last_error(*final(errors));
                &&& e.style == Style::Primary && e.level == Level::Error && e.code == ErrorCode::InvalidOperatorSyntax
                &&& e.span == Some(token_span_of(self.buffer@[token as int]))
                &&& e.message@ == self.buffer@[token as int].value@ + " is not an "@ + usage@ + " operator"@
                &&& e.explain matches Some(x) && x@ == "Used here as an "@ + usage@ + " operator"@
                &&& e.fix is None
            }),
    {
        let mut message = self.buffer[token].value.clone();
        message.append(" is not an ");
        message.append(usage);
        message.append(" operator");
        let mut explain = text_of("Used here as an ");
        explain.append(usage);
        explain.append(" operator");
        let error = ErrorBuilder::new().of_style(Style::Primary).at_level(Level::Error).with_code(
            ErrorCode::InvalidOperatorSyntax,
        ).span(self.token_span(token)).message(message).explain(explain).build();
        self.report(errors, error);
    }

    /// Returns the current token if it is of type `token_type`, and reports
    /// an error otherwise.
    fn expect(&mut self, errors: &mut ErrorManager, token_type: TokenType, context: ParseErrorContext)
        -> (result: Option<Token>)
        requires
            old(self).wf(),
            old(errors).wf(),
        ensures
            Parser::step(*old(self), *final(self), *old(errors), *final(errors)),
            result is None ==> fails_visibly(*old(self), *old(errors), *final(errors)),
            match result {
                Some(t) => old(self).pos < old(self).buffer@.len() && t == old(
                    self,
                ).buffer@[old(self).pos as int] && t.ty == token_type && final(self).pos == old(
                    self,
                ).pos + 1,
                None => final(self).pos == old(self).pos && (old(self).pos == old(
                    self,
                ).buffer@.len() || old(self).buffer@[old(self).pos as int].ty != token_type),
            },
    {
        if self.is_eof() {
            self.report_unexpected_eof(errors, context);
            None
        } else if self.buffer[self.pos].ty != token_type {
            self.report_expected_token(errors, token_type, self.pos, context);
            None
        } else {
            Some(self.take())
        }
    }

    /// Advances until the end of input, a token that `exit` names, or the
    /// start of a top-level construct, after reporting that recovery starts.
    fn synchronize(&mut self, errors: &mut ErrorManager, exit: RecoveryExit, description: String)
        requires
            old(self).wf(),
            old(errors).wf(),
        ensures
            Parser::step(*old(self), *final(self), *old(errors), *final(errors)),
            final(self).pos == final(self).buffer@.len() || exit == RecoveryExit::At(
                final(self).buffer@[final(self).pos as int].ty,
            ) || final(self).buffer@[final(self).pos as int].ty == TokenType::Func,
            forall|j: int|
                old(self).pos <= j < final(self).pos ==> (#[trigger] old(self).buffer@[j]).ty
                    != TokenType::Func && exit != RecoveryExit::At(old(self).buffer@[j].ty),
            old(self).pos == old(self).buffer@.len() ==> final(errors).recorded() == old(
                errors,
            ).recorded(),
            old(self).pos < old(self).buffer@.len() ==> records_one(*old(errors), *final(errors)),
            old(self).pos < old(self).buffer@.len() && primary_errors_before(*old(errors)) ==> ({
                let e = last_error(*final(errors));
                &&& e.style == Style::Primary && e.level == Level::Info && e.code
                    == ErrorCode::UnexpectedToken
                &&& e.span == Some(token_span_of(old(self).buffer@[old(self).pos as int]))
                &&& e.message@ == "Attempting to recover understanding of code"@
                &&& e.explain is None
                &&& e.fix == Some(description)
            }),
    {
        if !self.is_eof() {
            let error = ErrorBuilder::new().of_style(Style::Primary).at_level(Level::Info).with_code(
                ErrorCode::UnexpectedToken,
            ).span(self.token_span(self.pos)).message(
                text_of("Attempting to recover understanding of code"),
            ).fix(description).build();
            self.report(errors, error);
        }
        while self.pos < self.buffer.len() && exit != RecoveryExit::At(self.buffer[self.pos].ty)
            && !self.buffer[self.pos].ty.begins_top_level_construct()
            invariant
                self.wf(),
                self.buffer@ == old(self).buffer@,
                old(self).pos <= self.pos,
                forall|j: int|
                    old(self).pos <= j < self.pos ==> (#[trigger] old(self).buffer@[j]).ty
                        != TokenType::Func && exit != RecoveryExit::At(old(self).buffer@[j].ty),
            decreases self.buffer@.len() - self.pos,
        {
            self.advance();
        }
    }

    /// [`Parser::synchronize`] with no custom exit.
    fn attempt_restore_to_top_level(&mut self, errors: &mut ErrorManager)
        requires
            old(self).wf(),
            old(errors).wf(),
        ensures
            Parser::step(*old(self), *final(self), *old(errors), *final(errors)),
            final(self).pos == final(self).buffer@.len() || final(self).buffer@[final(self).pos as int].ty
                == TokenType::Func,
            forall|j: int|
                old(self).pos <= j < final(self).pos ==> (#[trigger] old(self).buffer@[j]).ty
                    != TokenType::Func,
            old(self).pos == old(self).buffer@.len() ==> final(errors).recorded() == old(
                errors,
            ).recorded(),
            old(self).pos < old(self).buffer@.len() ==> records_one(*old(errors), *final(errors)),
            old(self).pos < old(self).buffer@.len() && primary_errors_before(*old(errors)) ==> ({
                let e = last_error(*final(errors));
                &&& e.style == Style::Primary && e.level == Level::Info && e.code
                    == ErrorCode::UnexpectedToken
                &&& e.span == Some(token_span_of(old(self).buffer@[old(self).pos as int]))
                &&& e.message@ == "Attempting to recover understanding of code"@
                &&& e.explain is None
                &&& e.fix matches Some(x) && x@ == "Seeking top-level construct"@
            }),
    {
        self.synchronize(errors, RecoveryExit::Nowhere, text_of("Seeking top-level construct"));
    }
}

/// Whether two strings hold the same characters.
pub fn str_equals(a: &str, b: &str) -> (result: bool)
    ensures
        result == (a@ == b@),
{
    let n = a.unicode_len();
    if n != b.unicode_len() {
        return false;
    }
    let mut i: usize = 0;
    while i < n
        invariant
            0 <= i <= n,
            n == a@.len(),
            n == b@.len(),
            forall|j: int| 0 <= j < i ==> a@[j] == b@[j],
        decreases n - i,
    {
        if a.get_char(i) != b.get_char(i) {
            return false;
        }
        i = i + 1;
    }
    proof {
        assert(a@ =~= b@);
    }
    true
}

/// A node's attributes when the parser makes it: none.
fn no_attributes() -> (result: Attributes)
    ensures
        forall|a: Attribute| !result.contains(a),
{
    Attributes::empty()
}

/// The attributes of a node the parser generates rather than reads.
fn generated() -> (result: Attributes)
    ensures
        result.contains(Attribute::Generated),
{
    Attributes::empty().with(Attribute::Generated)
}

impl Parser {
    /// Reports that the current token is none of `expected_tys`.
    fn report_expected_tokens(
        &self,
        errors: &mut ErrorManager,
        expected_tys: &Vec<TokenType>,
        actual: usize,
        context: ParseErrorContext,
    )
        requires
            self.wf(),
            old(errors).wf(),
            actual < self.buffer@.len(),
        ensures
            final(errors).wf(),
            final(errors).limit() == old(errors).limit(),
            records_one(*old(errors), *final(errors)),
            primary_errors_before(*old(errors)) ==> ({
                let e = last_error(*final(errors));
                &&& e.style == Style::Primary && e.level == Level::Error && e.code == ErrorCode::UnexpectedToken
                &&& e.span == Some(token_span_of(self.buffer@[actual as int]))
                &&& e.message@ == "Expected one of "@ + spec_quoted_types(expected_tys@) + " "@ + context.loc@
                &&& e.explain matches Some(x) && x@ == "Received '"@ + spec_debug_name(self.buffer@[actual as int].ty) + "' here"@
                &&& e.fix is None
            }),
    {
        let mut message = text_of("Expected one of ");
        let n = expected_tys.len();
        let mut i: usize = 0;
        proof {
            assert(expected_tys@.subrange(0, 0) =~= Seq::<TokenType>::empty());
        }
        while i < n
            invariant
                0 <= i <= n,
                n == expected_tys@.len(),
                message@ == "Expected one of "@ + spec_quoted_types(expected_tys@.subrange(0, i as int)),
            decreases n - i,
        {
            let ghost before = message@;
            if i > 0 {
                message.append(", ");
            }
            message.append("'");
            message.append(expected_tys[i].debug_name());
            message.append("'");
            proof {
                let pre = expected_tys@.subrange(0, i + 1);
                assert(pre.drop_last() =~= expected_tys@.subrange(0, i as int));
                assert(pre.last() == expected_tys@[i as int]);
                if i == 0 {
                    assert(pre.len() == 1);
                    assert(pre[0] == expected_tys@[i as int]);
                    assert(message@ =~= "Expected one of "@ + spec_quoted_types(pre));
                } else {
                    assert(message@ =~= "Expected one of "@ + spec_quoted_types(pre));
                }
            }
            i = i + 1;
        }
        proof {
            assert(expected_tys@.subrange(0, n as int) =~= expected_tys@);
        }
        message.append(" ");
        message.append(context.loc.as_str());
        let mut explain = text_of("Received '");
        explain.append(self.buffer[actual].ty.debug_name());
        explain.append("' here");
        let error = ErrorBuilder::new().of_style(Style::Primary).at_level(Level::Error).with_code(
            ErrorCode::UnexpectedToken,
        ).span(self.token_span(actual)).message(message).explain(explain).build();
        self.report(errors, error);
    }

    /// Parses the name of a type: `Int64` or `Int` is the integer type,
    /// `Unit` the unit type, and any other identifier a named type.
    fn parse_primary_type(&mut self, errors: &mut ErrorManager, name: Option<&str>) -> (result:
        Option<TypeValue>)
        requires
            old(self).wf(),
            old(errors).wf(),
        ensures
            Parser::step(*old(self), *final(self), *old(errors), *final(errors)),
            result is None ==> fails_visibly(*old(self), *old(errors), *final(errors)),
            result matches Some(v) ==> ({
                let text = old(self).buffer@[old(self).pos as int].value@;
                if text == "Int64"@ || text == "Int"@ {
                    v == TypeValue::Int64
                } else if text == "Unit"@ {
                    v == TypeValue::Unit
                } else {
                    v matches TypeValue::Name(n) && n@ == text
                }
            }),
            result is Some ==> final(self).pos == old(self).pos + 1 && old(self).buffer@[old(
                self,
            ).pos as int].ty == TokenType::Identifier,
            result is Some <==> old(self).pos < old(self).buffer@.len() && old(self).buffer@[old(
                self,
            ).pos as int].ty == TokenType::Identifier,
            result matches Some(v) ==> type_value_view(v) == spec_primary_type(
                old(self).buffer@[old(self).pos as int],
            ),
    {
        let context = match name {
            Some(n) => ParseErrorContext::new().in_(n),
            None => ParseErrorContext::new().for_("primary type"),
        };
        let type_token = match self.expect(errors, TokenType::Identifier, context) {
            Some(t) => t,
            None => {
                return None;
            },
        };
        let value = type_token.value.as_str();
        if str_equals(value, "Int64") || str_equals(value, "Int") {
            Some(TypeValue::Int64)
        } else if str_equals(value, "Unit") {
            Some(TypeValue::Unit)
        } else {
            Some(TypeValue::Name(type_token.value.clone()))
        }
    }

    /// Parses array brackets after the type `inner`: `[size]`, repeatedly.
    /// A negative size is an error, a zero size a warning.
    fn parse_array_type(&mut self, errors: &mut ErrorManager, inner: Type) -> (result: Option<
        TypeValue,
    >)
        requires
            old(self).wf(),
            old(errors).wf(),
        ensures
            Parser::step(*old(self), *final(self), *old(errors), *final(errors)),
            result is None ==> fails_visibly(*old(self), *old(errors), *final(errors)),
            result matches Some(v) ==> v is Array && final(self).pos >= old(self).pos + 3,
            result is Some <==> array_brackets_ok(old(self).buffer@, old(self).pos as int),
            result matches Some(v) ==> {
                let (t, end) = spec_array_brackets(inner@, old(self).buffer@, old(self).pos as int);
                &&& type_view(Type { value: v, ..inner }) == t
                &&& final(self).pos == end
            },
        decreases old(self).buffer@.len() - old(self).pos,
    {
        let open = match self.expect(
            errors,
            TokenType::LeftBracket,
            ParseErrorContext::new().begin("array type"),
        ) {
            Some(t) => t,
            None => {
                return None;
            },
        };
        let open_pos = self.pos - 1;
        let size_pos = self.pos;
        let size_token = match self.expect(
            errors,
            TokenType::Integer,
            ParseErrorContext::new().for_("array size"),
        ) {
            Some(t) => t,
            None => {
                return None;
            },
        };
        let close_token = match self.expect(
            errors,
            TokenType::RightBracket,
            ParseErrorContext::new().end("array type"),
        ) {
            Some(t) => t,
            None => {
                let mut explain = TokenType::LeftBracket.display();
                explain.append(" opened here");
                self.report_refback(errors, open_pos, explain);
                return None;
            },
        };
        let size = match parse_i64(size_token.value.as_str()) {
            Some(size) => size,
            None => {
                proof {
                    assert(self.buffer@[size_pos as int] == size_token);
                }
                return None;
            },
        };
        if size < 0 {
            let error = ErrorBuilder::new().of_style(Style::Primary).at_level(Level::Error).with_code(
                ErrorCode::MalformedType,
            ).span(self.token_span(size_pos)).message(text_of("Array size cannot be negative")).build();
            self.report(errors, error);
            return None;
        } else if size == 0 {
            let error = ErrorBuilder::new().of_style(Style::Primary).at_level(Level::Warning).with_code(
                ErrorCode::MalformedType,
            ).span(self.token_span(size_pos)).message(text_of("Array size is zero")).build();
            self.report(errors, error);
        }
        let count = LiquidType {
            value: LiquidTypeValue::Equal(size as usize),
            attributes: generated(),
            start_token: size_token.duplicate(),
            end_token: size_token,
        };
        let start_token = inner.start_token.duplicate();
        let result_value = TypeValue::Array(Box::new(inner), Box::new(count));
        if self.is_at(TokenType::LeftBracket) {
            let result = Type {
                value: result_value,
                attributes: no_attributes(),
                start_token,
                end_token: close_token,
            };
            self.parse_array_type(errors, result)
        } else {
            Some(result_value)
        }
    }

    /// Parses a type: a type name, perhaps followed by array brackets.
    fn parse_type(&mut self, errors: &mut ErrorManager, name: Option<&str>) -> (result: Option<
        TypeValue,
    >)
        requires
            old(self).wf(),
            old(errors).wf(),
        ensures
            Parser::step(*old(self), *final(self), *old(errors), *final(errors)),
            result is None ==> fails_visibly(*old(self), *old(errors), *final(errors)),
            result is Some ==> final(self).pos > old(self).pos,
            result is Some <==> type_ok(old(self).buffer@, old(self).pos as int),
            result matches Some(v) ==> type_value_view(v) == spec_type(
                old(self).buffer@,
                old(self).pos as int,
            ).0 && final(self).pos == spec_type(old(self).buffer@, old(self).pos as int).1,
    {
        if self.is_eof() {
            let context = match name {
                Some(n) => ParseErrorContext::new().in_(n),
                None => ParseErrorContext::new().in_("type"),
            };
            self.report_unexpected_eof(errors, context);
            return None;
        }
        let start_token = self.current().duplicate();
        let value = match self.parse_primary_type(errors, name) {
            Some(v) => v,
            None => {
                return None;
            },
        };
        let end_token = self.previous().duplicate();
        let primary = Type { value, attributes: no_attributes(), start_token, end_token };
        if self.is_at(TokenType::LeftBracket) {
            self.parse_array_type(errors, primary)
        } else {
            Some(primary.value)
        }
    }
}

/// The precedence and associativity of a token type as an infix operator.
fn infix_of(ty: TokenType) -> (result: Option<(Precedence, Associativity)>)
    ensures
        result == crate::frontend::op::spec_infix(ty),
{
    match Op::from(ty) {
        Some(op) => match op.infix_binary {
            Some(bop) => Some((bop.precedence, bop.associativity)),
            None => None,
        },
        None => None,
    }
}

/// Whether a token of type `ty` may continue an expression as an infix
/// operator of precedence at least `min_precedence`.
pub open spec fn continues_infix(ty: TokenType, min_precedence: Precedence) -> bool {
    crate::frontend::op::spec_infix(ty) matches Some((p, _)) && p >= min_precedence
}

impl Parser {
    /// Parses an array literal: bracketed, comma-separated expressions,
    /// perhaps ending in `...` to fill the rest with zeros.
    fn parse_array_literal_expr_value(&mut self, errors: &mut ErrorManager) -> (result: Option<
        ExprValue,
    >)
        requires
            old(self).wf(),
            old(errors).wf(),
        ensures
            Parser::step(*old(self), *final(self), *old(errors), *final(errors)),
            result is None ==> fails_visibly(*old(self), *old(errors), *final(errors)),
            result matches Some(v) ==> v is ArrayLiteral,
            result is Some ==> final(self).pos > old(self).pos,
        decreases old(self).buffer@.len() - old(self).pos, 1int,
    {
        let mut elements: Vec<Expr> = Vec::new();
        let mut should_continue: Option<Token> = None;
        let mut i: usize = 0;
        let open_pos = self.pos;
        match self.expect(errors, TokenType::LeftBracket, ParseErrorContext::new().begin("array literal")) {
            Some(_) => {},
            None => {
                return None;
            },
        }
        while !self.is_eof() && self.buffer[self.pos].ty != TokenType::RightBracket
            invariant
                self.wf(),
                errors.wf(),
                errors.limit() == old(errors).limit(),
                errors.recorded().len() >= old(errors).recorded().len(),
                errors.recorded().len() == old(errors).recorded().len() ==> errors.recorded() == old(
                    errors,
                ).recorded(),
                self.buffer@ == old(self).buffer@,
                self.pos > old(self).pos,
                open_pos == old(self).pos,
                open_pos < self.buffer@.len(),
            decreases self.buffer@.len() - self.pos,
        {
            if i > 0 {
                match self.expect(
                    errors,
                    TokenType::Comma,
                    ParseErrorContext::new().between("array elements"),
                ) {
                    Some(_) => {},
                    None => {
                        return None;
                    },
                }
                self.consume_ignored();
            }
            match self.current_ty() {
                Some(TokenType::RightBracket) => {
                    if i > 0 {
                        break;
                    }
                },
                Some(TokenType::Dots) => {
                    should_continue = Some(self.current().duplicate());
                    self.advance();
                    break;
                },
                _ => {},
            }
            let before = self.pos;
            match self.parse_expr(errors) {
                Some(element) => {
                    elements.push(element);
                },
                None => {
                    self.synchronize(
                        errors,
                        RecoveryExit::At(TokenType::RightBrace),
                        text_of("Seeking end of array literal"),
                    );
                    return None;
                },
            }
            if i < usize::MAX {
                i = i + 1;
            }
        }
        match self.expect(errors, TokenType::RightBracket, ParseErrorContext::new().end("array literal")) {
            Some(_) => {},
            None => {
                let mut explain = TokenType::LeftBracket.display();
                explain.append(" opened here");
                self.report_refback(errors, open_pos, explain);
                return None;
            },
        }
        Some(ExprValue::ArrayLiteral(elements, should_continue))
    }

    /// Parses a literal: an integer, an array literal or a name.
    fn parse_literal_expr_value(&mut self, errors: &mut ErrorManager) -> (result: Option<ExprValue>)
        requires
            old(self).wf(),
            old(errors).wf(),
        ensures
            Parser::step(*old(self), *final(self), *old(errors), *final(errors)),
            result is None ==> fails_visibly(*old(self), *old(errors), *final(errors)),
            result matches Some(v) ==> ({
                let tok = old(self).buffer@[old(self).pos as int];
                ||| tok.ty == TokenType::Integer && v == ExprValue::ConstantInt(
                    spec_parse_i64(tok.value@)->0,
                ) && final(self).pos == old(self).pos + 1
                ||| tok.ty == TokenType::Identifier && v == ExprValue::BoundName(tok) && final(self).pos
                    == old(self).pos + 1
                ||| tok.ty == TokenType::LeftBracket && v is ArrayLiteral
            }),
            result is Some ==> final(self).pos > old(self).pos,
        decreases old(self).buffer@.len() - old(self).pos, 2int,
    {
        let context = ParseErrorContext::new().begin("literal expression");
        if self.is_eof() {
            self.report_unexpected_eof(errors, context);
            return None;
        }
        let ty = self.buffer[self.pos].ty;
        match ty {
            TokenType::Integer | TokenType::Float | TokenType::Char | TokenType::LeftBracket
            | TokenType::Identifier => {},
            _ => {
                let mut expected: Vec<TokenType> = Vec::new();
                expected.push(TokenType::Integer);
                expected.push(TokenType::Float);
                expected.push(TokenType::Char);
                expected.push(TokenType::LeftBracket);
                expected.push(TokenType::Identifier);
                self.report_expected_tokens(errors, &expected, self.pos, context);
                return None;
            },
        }
        let literal_pos = self.pos;
        let literal_token = self.take();
        match ty {
            TokenType::Integer => {
                proof {
                    assert(self.buffer@[literal_pos as int] == literal_token);
                }
                match parse_i64(literal_token.value.as_str()) {
                    Some(value) => Some(ExprValue::ConstantInt(value)),
                    None => None,
                }
            },
            TokenType::LeftBracket => {
                self.unget();
                self.parse_array_literal_expr_value(errors)
            },
            TokenType::Identifier => Some(ExprValue::BoundName(literal_token)),
            _ => None,
        }
    }

    /// Parses a prefix operator applied to an expression. Every operator is
    /// rejected here as an invalid unary operator when it can be one.
    fn parse_unary_prefix_expr_value(&mut self, errors: &mut ErrorManager, prefix_op: &Op) -> (result:
        Option<ExprValue>)
        requires
            old(self).wf(),
            old(errors).wf(),
            old(self).pos < old(self).buffer@.len(),
        ensures
            Parser::step(*old(self), *final(self), *old(errors), *final(errors)),
            result is None ==> fails_visibly(*old(self), *old(errors), *final(errors)),
            result matches Some(v) ==> v matches ExprValue::PrefixOp(op, _) && op == old(self).buffer@[old(self).pos as int],
            prefix_op.prefix_unary is Some ==> result is None,
            result is Some ==> final(self).pos > old(self).pos,
        decreases old(self).buffer@.len() - old(self).pos, 2int,
    {
        if prefix_op.is_unary_prefix() {
            self.report_invalid_operator(errors, self.pos, "unary");
            return None;
        }
        let op_token = self.take();
        match self.parse_expr(errors) {
            Some(rhs) => Some(ExprValue::PrefixOp(op_token, Box::new(rhs))),
            None => None,
        }
    }

    /// Parses postfix binary operators, such as subscripts, applied to
    /// `lhs`.
    fn parse_postfix_binary_expr_value(&mut self, errors: &mut ErrorManager, lhs: Expr) -> (result:
        Option<ExprValue>)
        requires
            old(self).wf(),
            old(errors).wf(),
        ensures
            Parser::step(*old(self), *final(self), *old(errors), *final(errors)),
            result is None ==> fails_visibly(*old(self), *old(errors), *final(errors)),
            result matches Some(v) ==> v == lhs.value || v is PostfixBop,
            !(old(self).pos < old(self).buffer@.len() && spec_postfix(
                old(self).buffer@[old(self).pos as int].ty,
            ) is Some) ==> result == Some(lhs.value) && final(self).pos == old(self).pos
                && final(errors).recorded() == old(errors).recorded(),
        decreases old(self).buffer@.len() - old(self).pos, 3int,
    {
        let ghost orig = lhs;
        let mut lhs = lhs;
        loop
            invariant
                lhs.value == orig.value || lhs.value is PostfixBop,
                self.pos == old(self).pos ==> lhs == orig && errors.recorded() == old(
                    errors,
                ).recorded(),
                self.pos > old(self).pos ==> old(self).pos < old(self).buffer@.len() && spec_postfix(
                    old(self).buffer@[old(self).pos as int].ty,
                ) is Some,
                self.wf(),
                errors.wf(),
                errors.limit() == old(errors).limit(),
                errors.recorded().len() >= old(errors).recorded().len(),
                errors.recorded().len() == old(errors).recorded().len() ==> errors.recorded() == old(
                    errors,
                ).recorded(),
                self.buffer@ == old(self).buffer@,
                self.pos >= old(self).pos,
            decreases self.buffer@.len() - self.pos,
        {
            let op = match self.current_op_opt() {
                Some(op) => op,
                None => {
                    break;
                },
            };
            let postfix_bop = match op.postfix_binary {
                Some(b) => b,
                None => {
                    break;
                },
            };
            let op1 = self.take();
            let rhs = match self.parse_expr(errors) {
                Some(rhs) => rhs,
                None => {
                    return None;
                },
            };
            let context = match &postfix_bop.name {
                Some(name) => ParseErrorContext::new().in_(name.as_str()),
                None => ParseErrorContext::new().after(
                    "second subexpression in postfix binary expression",
                ),
            };
            let op2 = match self.expect(errors, postfix_bop.close_token_ty, context) {
                Some(t) => t,
                None => {
                    return None;
                },
            };
            let start_token = lhs.start_token.duplicate();
            lhs = Expr {
                value: ExprValue::PostfixBop(Box::new(lhs), op1, Box::new(rhs), op2.duplicate()),
                attributes: no_attributes(),
                start_token,
                end_token: op2,
            };
        }
        Some(lhs.value)
    }

    /// Parses a call: a name followed by parenthesized, comma-separated
    /// arguments.
    fn parse_call_expr_value(&mut self, errors: &mut ErrorManager) -> (result: Option<ExprValue>)
        requires
            old(self).wf(),
            old(errors).wf(),
        ensures
            Parser::step(*old(self), *final(self), *old(errors), *final(errors)),
            result is None ==> fails_visibly(*old(self), *old(errors), *final(errors)),
            result matches Some(v) ==> v matches ExprValue::Call(name, _) && name == old(self).buffer@[old(self).pos as int],
            result is Some ==> final(self).pos > old(self).pos,
        decreases old(self).buffer@.len() - old(self).pos, 2int,
    {
        let name = match self.expect(
            errors,
            TokenType::Identifier,
            ParseErrorContext::new().begin("call expression"),
        ) {
            Some(t) => t,
            None => {
                return None;
            },
        };
        let mut args: Vec<Expr> = Vec::new();
        let open_pos = self.pos;
        match self.expect(errors, TokenType::LeftPar, ParseErrorContext::new().begin("call expression")) {
            Some(_) => {},
            None => {
                return None;
            },
        }
        let mut i: usize = 0;
        while !self.is_eof() && self.buffer[self.pos].ty != TokenType::RightPar
            invariant
                self.wf(),
                errors.wf(),
                errors.limit() == old(errors).limit(),
                errors.recorded().len() >= old(errors).recorded().len(),
                errors.recorded().len() == old(errors).recorded().len() ==> errors.recorded() == old(
                    errors,
                ).recorded(),
                self.buffer@ == old(self).buffer@,
                self.pos > old(self).pos,
                open_pos < self.buffer@.len(),
            decreases self.buffer@.len() - self.pos,
        {
            if i > 0 {
                match self.expect(errors, TokenType::Comma, ParseErrorContext::new().between("arguments")) {
                    Some(_) => {},
                    None => {
                        return None;
                    },
                }
                self.consume_ignored();
            }
            if self.is_at(TokenType::RightPar) {
                break;
            }
            match self.parse_expr(errors) {
                Some(arg) => {
                    args.push(arg);
                },
                None => {
                    self.synchronize(
                        errors,
                        RecoveryExit::At(TokenType::RightPar),
                        text_of("Seeking end of call arguments"),
                    );
                    return None;
                },
            }
            if i < usize::MAX {
                i = i + 1;
            }
        }
        match self.expect(errors, TokenType::RightPar, ParseErrorContext::new().end("call expression")) {
            Some(_) => {},
            None => {
                let mut explain = TokenType::LeftPar.display();
                explain.append(" opened here");
                self.report_refback(errors, open_pos, explain);
                return None;
            },
        }
        Some(ExprValue::Call(name, args))
    }

    /// Parses a primary expression without postfix operators: a prefix
    /// operation, a parenthesized expression, a call or a literal.
    fn parse_primary_expr_value_aux(&mut self, errors: &mut ErrorManager) -> (result: Option<
        ExprValue,
    >)
        requires
            old(self).wf(),
            old(errors).wf(),
        ensures
            Parser::step(*old(self), *final(self), *old(errors), *final(errors)),
            result is None ==> fails_visibly(*old(self), *old(errors), *final(errors)),
            result is Some ==> final(self).pos > old(self).pos,
            result matches Some(v) ==> primary_fits(v, old(self).buffer@, old(self).pos as int),
        decreases old(self).buffer@.len() - old(self).pos, 3int,
    {
        if self.is_eof() {
            self.report_unexpected_eof(errors, ParseErrorContext::new().begin("primary expression"));
            return None;
        }
        match self.current_op_opt() {
            Some(op) => {
                if op.is_unary_prefix() {
                    return self.parse_unary_prefix_expr_value(errors, &op);
                }
            },
            None => {},
        }
        if self.is_at(TokenType::LeftPar) {
            let open_pos = self.pos;
            self.advance();
            let temp_wrapped = match self.parse_expr(errors) {
                Some(e) => e,
                None => {
                    return None;
                },
            };
            match self.expect(errors, TokenType::RightPar, ParseErrorContext::new().in_("expression")) {
                Some(_) => Some(temp_wrapped.value),
                None => {
                    self.report_refback(errors, open_pos, text_of("Parentheses opened here"));
                    None
                },
            }
        } else if self.is_at(TokenType::Identifier) && self.next_is(TokenType::LeftPar) {
            self.parse_call_expr_value(errors)
        } else {
            self.parse_literal_expr_value(errors)
        }
    }

    /// Parses a primary expression, then any postfix operators after it.
    fn parse_primary_expr_value(&mut self, errors: &mut ErrorManager) -> (result: Option<ExprValue>)
        requires
            old(self).wf(),
            old(errors).wf(),
        ensures
            Parser::step(*old(self), *final(self), *old(errors), *final(errors)),
            result is None ==> fails_visibly(*old(self), *old(errors), *final(errors)),
            result is Some ==> final(self).pos > old(self).pos,
            result matches Some(v) ==> v is PostfixBop || primary_fits(
                v,
                old(self).buffer@,
                old(self).pos as int,
            ),
        decreases old(self).buffer@.len() - old(self).pos, 4int,
    {
        if self.is_eof() {
            self.report_unexpected_eof(errors, ParseErrorContext::new().begin("primary expression"));
            return None;
        }
        let start_token = self.current().duplicate();
        let value = match self.parse_primary_expr_value_aux(errors) {
            Some(v) => v,
            None => {
                return None;
            },
        };
        let end_token = self.previous().duplicate();
        let primary = Expr { value, attributes: no_attributes(), start_token, end_token };
        let postfix = match self.current_op_opt() {
            Some(op) => op.is_postfix_binary(),
            None => false,
        };
        if postfix {
            self.parse_postfix_binary_expr_value(errors, primary)
        } else {
            Some(primary.value)
        }
    }

    /// A primary expression as a node spanning its tokens.
    fn parse_primary_expr(&mut self, errors: &mut ErrorManager) -> (result: Option<Expr>)
        requires
            old(self).wf(),
            old(errors).wf(),
        ensures
            Parser::step(*old(self), *final(self), *old(errors), *final(errors)),
            result is None ==> fails_visibly(*old(self), *old(errors), *final(errors)),
            result matches Some(e) ==> e.start_token == old(self).buffer@[old(self).pos as int]
                && e.end_token == final(self).buffer@[final(self).pos - 1],
            result matches Some(e) ==> operand_ok(e),
            result is Some ==> final(self).pos > old(self).pos,
        decreases old(self).buffer@.len() - old(self).pos, 5int,
    {
        if self.is_eof() {
            self.report_unexpected_eof(errors, ParseErrorContext::new().begin("primary expression"));
            return None;
        }
        let start_token = self.current().duplicate();
        let value = match self.parse_primary_expr_value(errors) {
            Some(v) => v,
            None => {
                return None;
            },
        };
        let end_token = self.previous().duplicate();
        Some(Expr { value, attributes: no_attributes(), start_token, end_token })
    }

    /// Operator-precedence parsing of infix operators after `lhs`, taking
    /// operators of precedence at least `min_precedence`.
    #[verifier::rlimit(100)]
    #[verifier::spinoff_prover]
    fn parse_infix_binary_expr(
        &mut self,
        errors: &mut ErrorManager,
        lhs: Expr,
        min_precedence: Precedence,
    ) -> (result: Option<Expr>)
        requires
            old(self).wf(),
            old(errors).wf(),
        ensures
            Parser::step(*old(self), *final(self), *old(errors), *final(errors)),
            result is None ==> fails_visibly(*old(self), *old(errors), *final(errors)),
            result is Some && old(self).pos < old(self).buffer@.len() && continues_infix(
                old(self).buffer@[old(self).pos as int].ty,
                min_precedence,
            ) ==> final(self).pos > old(self).pos,
            result matches Some(e) ==> e.start_token == lhs.start_token && (e == lhs
                || e.value is InfixBop),
            !(old(self).pos < old(self).buffer@.len() && continues_infix(
                old(self).buffer@[old(self).pos as int].ty,
                min_precedence,
            )) ==> result == Some(lhs) && final(self).pos == old(self).pos
                && final(errors).recorded() == old(errors).recorded(),
            result matches Some(e) ==> exists|ops: Seq<Token>, rands: Seq<Expr>, opos: Seq<int>|
                #[trigger] climb_result(
                    e,
                    lhs,
                    ops,
                    rands,
                    opos,
                    min_precedence as int,
                    old(self).buffer@,
                    old(self).pos as int,
                    final(self).pos as int,
                ),
            result is Some ==> final(self).pos == final(self).buffer@.len() || !continues_infix(
                final(self).buffer@[final(self).pos as int].ty,
                min_precedence,
            ),
        decreases old(self).buffer@.len() - old(self).pos, 6int,
    {
        let ghost orig = lhs;
        let mut lhs = lhs;
        let ghost mut ops: Seq<Token> = Seq::empty();
        let ghost mut rands: Seq<Expr> = Seq::empty();
        let ghost mut last_p: int = 0;
        let ghost mut opos: Seq<int> = Seq::empty();
        loop
            invariant_except_break
                ops.len() == 0 ==> self.pos == old(self).pos,
            invariant
                climbed(lhs, orig, ops, rands, min_precedence as int),
                positioned(self.buffer@, old(self).pos as int, self.pos as int, ops, rands, opos),
                ops.len() > 0 && self.pos < self.buffer@.len() ==> rands.last().end_token
                    == self.buffer@[self.pos - 1],
                forall|k: int| 0 <= k < ops.len() ==> op_prec(#[trigger] ops[k]) >= last_p,
                ops.len() > 0 ==> !tighter_at(self.buffer@, self.pos as int, last_p),
                lhs.start_token == orig.start_token,
                lhs == orig || lhs.value is InfixBop,
                self.pos == old(self).pos ==> lhs == orig && errors.recorded() == old(
                    errors,
                ).recorded(),
                self.wf(),
                errors.wf(),
                errors.limit() == old(errors).limit(),
                errors.recorded().len() >= old(errors).recorded().len(),
                errors.recorded().len() == old(errors).recorded().len() ==> errors.recorded() == old(
                    errors,
                ).recorded(),
                self.buffer@ == old(self).buffer@,
                self.pos >= old(self).pos,
                self.pos == old(self).pos ==> (old(self).pos < old(self).buffer@.len()
                    && continues_infix(old(self).buffer@[old(self).pos as int].ty, min_precedence)
                    ==> self.pos < self.buffer@.len() && continues_infix(
                    self.buffer@[self.pos as int].ty,
                    min_precedence,
                )),
                self.pos > old(self).pos ==> old(self).pos < old(self).buffer@.len()
                    && continues_infix(old(self).buffer@[old(self).pos as int].ty, min_precedence),
            ensures
                ops.len() == 0 ==> self.pos == old(self).pos || self.pos == self.buffer@.len(),
                climbed(lhs, orig, ops, rands, min_precedence as int),
                positioned(self.buffer@, old(self).pos as int, self.pos as int, ops, rands, opos),
                ops.len() > 0 && self.pos < self.buffer@.len() ==> rands.last().end_token
                    == self.buffer@[self.pos - 1],
                self.pos == self.buffer@.len() || !continues_infix(
                    self.buffer@[self.pos as int].ty,
                    min_precedence,
                ),
                lhs.start_token == orig.start_token,
                lhs == orig || lhs.value is InfixBop,
                self.pos == old(self).pos ==> lhs == orig && errors.recorded() == old(
                    errors,
                ).recorded(),
                self.wf(),
                errors.wf(),
                errors.limit() == old(errors).limit(),
                errors.recorded().len() >= old(errors).recorded().len(),
                errors.recorded().len() == old(errors).recorded().len() ==> errors.recorded() == old(
                    errors,
                ).recorded(),
                self.buffer@ == old(self).buffer@,
                self.pos >= old(self).pos,
                old(self).pos < old(self).buffer@.len() && continues_infix(
                    old(self).buffer@[old(self).pos as int].ty,
                    min_precedence,
                ) <==> self.pos > old(self).pos,
            decreases self.buffer@.len() - self.pos,
        {
            if self.is_eof() {
                break;
            }
            let bop = match infix_of(self.buffer[self.pos].ty) {
                Some((prec, assoc)) => {
                    if prec >= min_precedence {
                        (prec, assoc)
                    } else {
                        proof {
                            assert(!continues_infix(self.buffer@[self.pos as int].ty, min_precedence));
                        }
                        break;
                    }
                },
                None => {
                    proof {
                        assert(!continues_infix(self.buffer@[self.pos as int].ty, min_precedence));
                    }
                    break;
                },
            };
            let ghost iter_start = self.pos;
            proof {
                assert(continues_infix(self.buffer@[self.pos as int].ty, min_precedence));
            }
            proof {
                assert forall|k: int| 0 <= k < ops.len() implies op_prec(#[trigger] ops[k]) >= bop.0 by {
                    assert(op_prec(ops[k]) >= last_p);
                }
            }
            let op_token = self.take();
            let mut rhs = match self.parse_primary_expr(errors) {
                Some(rhs) => rhs,
                None => {
                    return None;
                },
            };
            if self.is_eof() {
                break;
            }
            let ghost r0 = rhs;
            let ghost q = self.pos as int;
            let ghost mut oposr: Seq<int> = Seq::empty();
            let ghost mut iterated = false;
            let ghost mut opsr: Seq<Token> = Seq::empty();
            let ghost mut randsr: Seq<Expr> = Seq::empty();
            loop
                invariant_except_break
                    true,
                invariant
                    climbed(lhs, orig, ops, rands, min_precedence as int),
                    forall|k: int| 0 <= k < ops.len() ==> op_prec(#[trigger] ops[k]) >= bop.0,
                    op_token.ty == old(self).buffer@[iter_start as int].ty,
                    crate::frontend::op::spec_infix(op_token.ty) == Some(bop),
                    bop.0 >= min_precedence,
                    operand_ok(r0),
                    climbed(rhs, r0, opsr, randsr, bop.0 + 1),
                    iterated ==> !tighter_at(self.buffer@, self.pos as int, bop.0 as int),
                    !iterated ==> opsr.len() == 0,
                    positioned(self.buffer@, q, self.pos as int, opsr, randsr, oposr),
                    opsr.len() > 0 && self.pos < self.buffer@.len() ==> randsr.last().end_token
                        == self.buffer@[self.pos - 1],
                    opsr.len() == 0 ==> self.pos == q || self.pos == self.buffer@.len(),
                    !iterated ==> self.pos == q,
                    iter_start + 2 <= q <= self.pos,
                    op_token == self.buffer@[iter_start as int],
                    r0.start_token == self.buffer@[iter_start + 1],
                    r0.end_token == self.buffer@[q - 1],
                    positioned(self.buffer@, old(self).pos as int, iter_start as int, ops, rands, opos),
                    ops.len() > 0 ==> rands.last().end_token == self.buffer@[iter_start - 1],
                    ops.len() == 0 ==> iter_start == old(self).pos,
                    old(self).pos <= iter_start,
                    self.wf(),
                    errors.wf(),
                    errors.limit() == old(errors).limit(),
                    errors.recorded().len() >= old(errors).recorded().len(),
                    errors.recorded().len() == old(errors).recorded().len() ==> errors.recorded() == old(
                        errors,
                    ).recorded(),
                    self.buffer@ == old(self).buffer@,
                    self.pos > old(self).pos,
                    self.pos > iter_start,
                    bop.0 == 50 || bop.0 == 100,
                    old(self).pos < old(self).buffer@.len() && continues_infix(
                        old(self).buffer@[old(self).pos as int].ty,
                        min_precedence,
                    ),
                ensures
                    !tighter_at(self.buffer@, self.pos as int, bop.0 as int),
                decreases self.buffer@.len() - self.pos,
            {
                if self.is_eof() {
                    break;
                }
                let next_bop = match infix_of(self.buffer[self.pos].ty) {
                    Some(next) => next,
                    None => {
                        break;
                    },
                };
                let climbs = (next_bop.1 == Associativity::Left && next_bop.0 > bop.0) || (
                next_bop.1 == Associativity::Right && next_bop.0 == bop.0);
                if !climbs {
                    break;
                }
                proof {
                    assert(next_bop.1 == Associativity::Left);
                    assert(next_bop.0 > bop.0);
                    assert(!iterated);
                    assert(rhs == r0);
                }
                let new_min_precedence = bop.0 + if next_bop.0 > bop.0 {
                    1
                } else {
                    0
                };
                rhs = match self.parse_infix_binary_expr(errors, rhs, new_min_precedence) {
                    Some(rhs) => rhs,
                    None => {
                        return None;
                    },
                };
                proof {
                    let (o2, r2, p2) = choose|o2: Seq<Token>, r2: Seq<Expr>, p2: Seq<int>|
                        #[trigger] climb_result(
                            rhs,
                            r0,
                            o2,
                            r2,
                            p2,
                            new_min_precedence as int,
                            self.buffer@,
                            q,
                            self.pos as int,
                        );
                    opsr = o2;
                    randsr = r2;
                    oposr = p2;
                    iterated = true;
                }
            }
            let start_token = lhs.start_token.duplicate();
            let end_token = rhs.end_token.duplicate();
            let ghost prev = lhs;
            lhs = Expr {
                value: ExprValue::InfixBop(Box::new(lhs), op_token, Box::new(rhs)),
                attributes: no_attributes(),
                start_token,
                end_token,
            };
            proof {
                assert(op_prec(op_token) == bop.0);
                assert forall|k: int| 0 <= k < opsr.len() implies op_prec(#[trigger] opsr[k]) > op_prec(
                    op_token,
                ) by {
                    assert(op_prec(opsr[k]) >= bop.0 + 1);
                }
                lemma_infix_join(lhs, prev, rhs, op_token, orig, ops, rands, r0, opsr, randsr);
                lemma_positioned_join(
                    self.buffer@,
                    old(self).pos as int,
                    iter_start as int,
                    q,
                    self.pos as int,
                    ops,
                    rands,
                    opos,
                    op_token,
                    r0,
                    opsr,
                    randsr,
                    oposr,
                );
                opos = opos.push(iter_start as int) + oposr;
                let new_ops = ops.push(op_token) + opsr;
                let new_rands = rands.push(r0) + randsr;
                assert forall|k: int| 0 <= k < new_ops.len() implies crate::frontend::op::spec_infix(
                    (#[trigger] new_ops[k]).ty,
                ) is Some && op_prec(new_ops[k]) >= min_precedence && op_prec(new_ops[k]) >= bop.0 by {
                    if k < ops.len() {
                        assert(new_ops[k] == ops[k]);
                    } else if k > ops.len() {
                        assert(new_ops[k] == opsr[k - ops.len() - 1]);
                    }
                }
                assert forall|k: int| 0 <= k < new_rands.len() implies operand_ok(
                    #[trigger] new_rands[k],
                ) by {
                    if k < rands.len() {
                        assert(new_rands[k] == rands[k]);
                    } else if k > rands.len() {
                        assert(new_rands[k] == randsr[k - rands.len() - 1]);
                    }
                }
                ops = new_ops;
                rands = new_rands;
                last_p = bop.0 as int;
            }
        }
        proof {
            assert(climbed(lhs, orig, ops, rands, min_precedence as int));
            assert(climb_result(
                lhs,
                orig,
                ops,
                rands,
                opos,
                min_precedence as int,
                old(self).buffer@,
                old(self).pos as int,
                self.pos as int,
            ));
        }
        Some(lhs)
    }

    /// Parses an expression: a primary expression, then infix operators.
    fn parse_expr(&mut self, errors: &mut ErrorManager) -> (result: Option<Expr>)
        requires
            old(self).wf(),
            old(errors).wf(),
        ensures
            Parser::step(*old(self), *final(self), *old(errors), *final(errors)),
            result is None ==> fails_visibly(*old(self), *old(errors), *final(errors)),
            result is Some ==> final(self).pos > old(self).pos,
            result matches Some(e) ==> e.start_token == old(self).buffer@[first_content(
                old(self).buffer@,
                old(self).pos as int,
            )],
            result matches Some(e) ==> expr_tree(e),
        decreases old(self).buffer@.len() - old(self).pos, 7int,
    {
        self.consume_ignored();
        let primary = match self.parse_primary_expr(errors) {
            Some(p) => p,
            None => {
                return None;
            },
        };
        match self.current_op_opt() {
            Some(op) => {
                if op.is_infix_binary() {
                    let ghost base = primary;
                    let ghost self_before = *self;
                    let result = self.parse_infix_binary_expr(errors, primary, -1);
                    proof {
                        if result is Some {
                            let e = result->Some_0;
                            let (o, r, ps) = choose|o: Seq<Token>, r: Seq<Expr>, ps: Seq<int>|
                                #[trigger] climb_result(
                                    e,
                                    base,
                                    o,
                                    r,
                                    ps,
                                    -1,
                                    self_before.buffer@,
                                    self_before.pos as int,
                                    self.pos as int,
                                );
                            assert(climbed(e, base, o, r, -1) && operand_ok(base));
                        }
                    }
                    result
                } else {
                    self.report_invalid_operator(errors, self.pos, "binary");
                    None
                }
            },
            None => {
                proof {
                    assert(climbed(primary, primary, Seq::empty(), Seq::empty(), -1));
                }
                Some(primary)
            },
        }
    }
}

/// A brace-enclosed list of statements with its braces.
pub struct Block {
    pub open: Token,
    pub stmts: Vec<Stmt>,
    pub close: Token,
}

/// A parenthesized list of parameters with its parentheses.
pub struct Params {
    pub open: Token,
    pub params: Vec<(Token, Type)>,
    pub close: Token,
}

impl Parser {
    /// Parses `let name = value`, perhaps with a type hint after the name.
    fn parse_let(&mut self, errors: &mut ErrorManager) -> (result: Option<StmtValue>)
        requires
            old(self).wf(),
            old(errors).wf(),
        ensures
            Parser::step(*old(self), *final(self), *old(errors), *final(errors)),
            result is None ==> fails_visibly(*old(self), *old(errors), *final(errors)),
            result matches Some(v) ==> v is Let,
            result matches Some(v) ==> stmt_trees(v),
            result matches Some(v) ==> ({
                let buf = old(self).buffer@;
                let pos = old(self).pos as int;
                v matches StmtValue::Let { name, hint, .. } && name == buf[pos + 1] && name.ty
                    == TokenType::Identifier && (hint is Some <==> (pos + 2 < buf.len() && buf[pos
                    + 2].ty == TokenType::Colon)) && (hint matches Some(h) ==> type_view(h)
                    == spec_type(buf, pos + 3).0)
            }),
            result is Some ==> final(self).pos > old(self).pos,
    {
        match self.expect(errors, TokenType::Let, ParseErrorContext::new().begin("let binding")) {
            Some(_) => {},
            None => {
                return None;
            },
        }
        let name = match self.expect(
            errors,
            TokenType::Identifier,
            ParseErrorContext::new().for_("name in let binding"),
        ) {
            Some(t) => t,
            None => {
                return None;
            },
        };
        let mut hint: Option<Type> = None;
        if self.is_at(TokenType::Colon) {
            self.advance();
            if self.is_eof() {
                self.report_unexpected_eof(errors, ParseErrorContext::new().in_("let binding type hint"));
                return None;
            }
            let start_token = self.current().duplicate();
            let value = match self.parse_type(errors, Some("let binding type hint")) {
                Some(v) => v,
                None => {
                    return None;
                },
            };
            let end_token = self.previous().duplicate();
            hint = Some(Type { value, attributes: no_attributes(), start_token, end_token });
        }
        match self.expect(
            errors,
            TokenType::Assign,
            ParseErrorContext::new().after("name in let binding"),
        ) {
            Some(_) => {},
            None => {
                return None;
            },
        }
        let value = match self.parse_expr(errors) {
            Some(v) => v,
            None => {
                return None;
            },
        };
        Some(StmtValue::Let { name, hint, value })
    }

    /// Parses `= rhs` after the already parsed left-hand side `lhs`.
    fn parse_assign(&mut self, errors: &mut ErrorManager, lhs: Expr) -> (result: Option<StmtValue>)
        requires
            old(self).wf(),
            old(errors).wf(),
        ensures
            Parser::step(*old(self), *final(self), *old(errors), *final(errors)),
            result is None ==> fails_visibly(*old(self), *old(errors), *final(errors)),
            result matches Some(v) ==> v matches StmtValue::Assign(l, op, _) && l == lhs && op.ty == TokenType::Assign,
            result matches Some(v) ==> (v matches StmtValue::Assign(_, _, r) && expr_tree(r)),
            result is Some ==> final(self).pos > old(self).pos,
    {
        let assign = match self.expect(
            errors,
            TokenType::Assign,
            ParseErrorContext::new().between("terms in assignment"),
        ) {
            Some(t) => t,
            None => {
                return None;
            },
        };
        let rhs = match self.parse_expr(errors) {
            Some(v) => v,
            None => {
                return None;
            },
        };
        Some(StmtValue::Assign(lhs, assign, rhs))
    }

    /// Parses a brace-enclosed list of statements; `name` describes it in
    /// errors.
    fn parse_block(&mut self, errors: &mut ErrorManager, name: &str) -> (result: Option<Block>)
        requires
            old(self).wf(),
            old(errors).wf(),
        ensures
            Parser::step(*old(self), *final(self), *old(errors), *final(errors)),
            result is None ==> fails_visibly(*old(self), *old(errors), *final(errors)),
            result matches Some(b) ==> b.open == old(self).buffer@[old(self).pos as int]
                && b.open.ty == TokenType::LeftBrace && b.close == final(self).buffer@[final(self).pos - 1]
                && b.close.ty == TokenType::RightBrace,
            result matches Some(b) ==> forall|k: int|
                0 <= k < b.stmts@.len() ==> stmt_trees((#[trigger] b.stmts@[k]).value),
            result is Some ==> final(self).pos > old(self).pos,
    {
        let open_pos = self.pos;
        let open = match self.expect(errors, TokenType::LeftBrace, ParseErrorContext::new().begin(name)) {
            Some(t) => t,
            None => {
                return None;
            },
        };
        let mut nodes: Vec<Stmt> = Vec::new();
        self.consume_ignored();
        while !self.is_eof() && self.buffer[self.pos].ty != TokenType::RightBrace
            invariant
                self.wf(),
                errors.wf(),
                errors.limit() == old(errors).limit(),
                errors.recorded().len() >= old(errors).recorded().len(),
                errors.recorded().len() == old(errors).recorded().len() ==> errors.recorded() == old(
                    errors,
                ).recorded(),
                self.buffer@ == old(self).buffer@,
                self.pos > old(self).pos,
                open_pos < self.buffer@.len(),
                self.pos == self.buffer@.len() || self.buffer@[self.pos as int].ty != TokenType::Newline,
                forall|k: int| 0 <= k < nodes@.len() ==> stmt_trees((#[trigger] nodes@[k]).value),
            decreases self.buffer@.len() - self.pos,
        {
            match self.parse_stmt(errors) {
                Some(stmt) => {
                    nodes.push(stmt);
                },
                None => {
                    let mut description = text_of("Seeking end of ");
                    description.append(name);
                    self.synchronize(errors, RecoveryExit::At(TokenType::RightBrace), description);
                    return None;
                },
            }
        }
        let close = match self.expect(errors, TokenType::RightBrace, ParseErrorContext::new().end(name)) {
            Some(t) => t,
            None => {
                let mut explain = TokenType::LeftBrace.display();
                explain.append(" opened here");
                self.report_refback(errors, open_pos, explain);
                return None;
            },
        };
        Some(Block { open, stmts: nodes, close })
    }

    /// Ends a statement: at a closing brace, or after a newline and any
    /// further newlines. Returns the statement's last token.
    fn end_stmt(&mut self, errors: &mut ErrorManager) -> (result: Option<Token>)
        requires
            old(self).wf(),
            old(errors).wf(),
            old(self).pos > 0,
        ensures
            Parser::step(*old(self), *final(self), *old(errors), *final(errors)),
            result is None ==> fails_visibly(*old(self), *old(errors), *final(errors)),
            result matches Some(tok) ==> tok == old(self).buffer@[old(self).pos - 1],
            result is Some ==> (final(self).pos == final(self).buffer@.len() || final(self).buffer@[final(self).pos as int].ty
                != TokenType::Newline),
    {
        let ending_token = self.previous().duplicate();
        if self.is_at(TokenType::RightBrace) {
            return Some(ending_token);
        }
        match self.expect(errors, TokenType::Newline, ParseErrorContext::new().after("statement")) {
            Some(_) => {},
            None => {
                return None;
            },
        }
        self.consume_ignored();
        Some(ending_token)
    }

    /// Parses a statement: a let binding, a divider, or an assignment.
    fn parse_stmt_value(&mut self, errors: &mut ErrorManager) -> (result: Option<StmtValue>)
        requires
            old(self).wf(),
            old(errors).wf(),
        ensures
            Parser::step(*old(self), *final(self), *old(errors), *final(errors)),
            result is None ==> fails_visibly(*old(self), *old(errors), *final(errors))
                || only_newlines_from(old(self).buffer@, old(self).pos as int),
            result is Some ==> final(self).pos > old(self).pos,
            result matches Some(v) ==> stmt_fits(v, old(self).buffer@, old(self).pos as int),
            result matches Some(v) ==> stmt_trees(v),
    {
        self.consume_ignored();
        if self.is_eof() || errors.is_full() {
            return None;
        }
        let ty = self.buffer[self.pos].ty;
        match ty {
            TokenType::Let => self.parse_let(errors),
            TokenType::Divider => Some(StmtValue::Divider(self.take())),
            other => {
                match self.parse_expr(errors) {
                    Some(expr) => {
                        return self.parse_assign(errors, expr);
                    },
                    None => {},
                }
                if !self.is_eof() {
                    if other.begins_top_level_construct() {
                        self.report_unexpected_top_level(errors, self.pos);
                    } else {
                        self.report_invalid_token(errors, self.pos);
                    }
                    self.advance();
                }
                None
            },
        }
    }

    /// Parses a statement and its end.
    fn parse_stmt(&mut self, errors: &mut ErrorManager) -> (result: Option<Stmt>)
        requires
            old(self).wf(),
            old(errors).wf(),
        ensures
            Parser::step(*old(self), *final(self), *old(errors), *final(errors)),
            result is None ==> fails_visibly(*old(self), *old(errors), *final(errors))
                || only_newlines_from(old(self).buffer@, old(self).pos as int),
            result is Some ==> final(self).pos > old(self).pos,
            result is Some ==> (final(self).pos == final(self).buffer@.len() || final(self).buffer@[final(self).pos as int].ty
                != TokenType::Newline),
            result matches Some(st) ==> st.start_token == old(self).buffer@[old(self).pos as int]
                && stmt_fits(st.value, old(self).buffer@, old(self).pos as int),
            result matches Some(st) ==> stmt_trees(st.value),
    {
        if self.is_eof() {
            return None;
        }
        let start_token = self.current().duplicate();
        let value = match self.parse_stmt_value(errors) {
            Some(v) => v,
            None => {
                return None;
            },
        };
        let end_token = self.previous().duplicate();
        let node = Stmt { value, attributes: no_attributes(), start_token, end_token };
        match self.end_stmt(errors) {
            Some(_) => Some(node),
            None => {
                if !self.is_eof() {
                    self.advance();
                }
                None
            },
        }
    }

    /// Parses a parenthesized, comma-separated list of `name: type`
    /// parameters of the function `source`; `kind` says which list.
    fn parse_params(&mut self, errors: &mut ErrorManager, source: &str, kind: &str) -> (result:
        Option<Params>)
        requires
            old(self).wf(),
            old(errors).wf(),
        ensures
            Parser::step(*old(self), *final(self), *old(errors), *final(errors)),
            result is None ==> fails_visibly(*old(self), *old(errors), *final(errors)),
            result matches Some(p) ==> p.open == old(self).buffer@[old(self).pos as int]
                && p.open.ty == TokenType::LeftPar && p.close.ty == TokenType::RightPar,
            result matches Some(p) ==> p.close == final(self).buffer@[final(self).pos - 1]
                && forall|k: int|
                0 <= k < p.params@.len() ==> (#[trigger] p.params@[k]).0.ty == TokenType::Identifier,
            result matches Some(p) ==> forall|k: int|
                0 <= k < p.params@.len() ==> type_tree((#[trigger] p.params@[k]).1, old(self).buffer@),
            result is Some ==> final(self).pos > old(self).pos,
    {
        let open_pos = self.pos;
        let open = match self.expect(errors, TokenType::LeftPar, ParseErrorContext::new().begin(source)) {
            Some(t) => t,
            None => {
                return None;
            },
        };
        self.consume_ignored();
        let mut i: usize = 0;
        let mut params: Vec<(Token, Type)> = Vec::new();
        let mut in_source = text_of(" in `");
        in_source.append(source);
        in_source.append("`");
        while !self.is_eof() && self.buffer[self.pos].ty != TokenType::RightPar
            invariant
                self.wf(),
                errors.wf(),
                errors.limit() == old(errors).limit(),
                errors.recorded().len() >= old(errors).recorded().len(),
                errors.recorded().len() == old(errors).recorded().len() ==> errors.recorded() == old(
                    errors,
                ).recorded(),
                self.buffer@ == old(self).buffer@,
                self.pos > old(self).pos,
                open_pos < self.buffer@.len(),
                forall|k: int|
                    0 <= k < params@.len() ==> (#[trigger] params@[k]).0.ty == TokenType::Identifier,
                forall|k: int| 0 <= k < params@.len() ==> type_tree((#[trigger] params@[k]).1, old(self).buffer@),
            decreases self.buffer@.len() - self.pos,
        {
            if i > 0 {
                let mut between = kind.to_owned();
                between.append(" parameters");
                between.append(in_source.as_str());
                match self.expect(
                    errors,
                    TokenType::Comma,
                    ParseErrorContext::new().between(between.as_str()),
                ) {
                    Some(_) => {},
                    None => {
                        return None;
                    },
                }
                self.consume_ignored();
            }
            if self.is_at(TokenType::RightPar) {
                break;
            }
            let mut name_desc = kind.to_owned();
            name_desc.append(" parameter name");
            name_desc.append(in_source.as_str());
            let name = match self.expect(
                errors,
                TokenType::Identifier,
                ParseErrorContext::new().for_(name_desc.as_str()),
            ) {
                Some(t) => t,
                None => {
                    return None;
                },
            };
            match self.expect(
                errors,
                TokenType::Colon,
                ParseErrorContext::new().after(name_desc.as_str()),
            ) {
                Some(_) => {},
                None => {
                    return None;
                },
            }
            let mut type_desc = kind.to_owned();
            type_desc.append(" parameter type");
            if self.is_eof() {
                self.report_unexpected_eof(errors, ParseErrorContext::new().in_(type_desc.as_str()));
                return None;
            }
            let start_token = self.current().duplicate();
            let ghost type_pos = self.pos as int;
            let value = match self.parse_type(errors, Some(type_desc.as_str())) {
                Some(v) => v,
                None => {
                    return None;
                },
            };
            let end_token = self.previous().duplicate();
            let ghost before_push = params@;
            let ty = Type { value, attributes: no_attributes(), start_token, end_token };
            proof {
                assert(type_view(ty) == type_value_view(ty.value));
                assert(type_tree(ty, old(self).buffer@)) by {
                    assert(spec_type(old(self).buffer@, type_pos).0 == type_view(ty));
                }
            }
            params.push((name, ty));
            proof {
                assert forall|k: int| 0 <= k < params@.len() implies type_tree(
                    (#[trigger] params@[k]).1,
                    old(self).buffer@,
                ) by {
                    if k < before_push.len() {
                        assert(params@[k] == before_push[k]);
                    }
                }
            }
            self.consume_ignored();
            if i < usize::MAX {
                i = i + 1;
            }
        }
        let close = match self.expect(errors, TokenType::RightPar, ParseErrorContext::new().end(source)) {
            Some(t) => t,
            None => {
                let mut explain = TokenType::LeftPar.display();
                explain.append(" opened here");
                self.report_refback(errors, open_pos, explain);
                return None;
            },
        };
        Some(Params { open, params, close })
    }

    /// Parses `func name(inputs) -> (outputs) { body }`; the outputs may be
    /// left out.
    fn parse_func(&mut self, errors: &mut ErrorManager) -> (result: Option<DeclValue>)
        requires
            old(self).wf(),
            old(errors).wf(),
        ensures
            Parser::step(*old(self), *final(self), *old(errors), *final(errors)),
            result is None ==> fails_visibly(*old(self), *old(errors), *final(errors)),
            result matches Some(v) ==> v matches DeclValue::Function { func, name, .. } && func
                == old(self).buffer@[old(self).pos as int] && func.ty == TokenType::Func
                && name.ty == TokenType::Identifier,
            result matches Some(v) ==> v matches DeclValue::Function { name, inputs, outputs, .. }
                && name == old(self).buffer@[old(self).pos + 1] && (forall|k: int|
                0 <= k < inputs@.len() ==> (#[trigger] inputs@[k]).0.ty == TokenType::Identifier)
                && (forall|k: int|
                0 <= k < outputs@.len() ==> (#[trigger] outputs@[k]).0.ty == TokenType::Identifier),
            result matches Some(v) ==> decl_value_trees(v),
            result matches Some(v) ==> decl_value_types(v, old(self).buffer@),
            result is Some ==> final(self).pos > old(self).pos,
    {
        let func = match self.expect(
            errors,
            TokenType::Func,
            ParseErrorContext::new().begin("function declaration"),
        ) {
            Some(t) => t,
            None => {
                return None;
            },
        };
        let name = match self.expect(
            errors,
            TokenType::Identifier,
            ParseErrorContext::new().for_("function name"),
        ) {
            Some(t) => t,
            None => {
                return None;
            },
        };
        let inputs = match self.parse_params(errors, name.value.as_str(), "input") {
            Some(p) => p.params,
            None => {
                return None;
            },
        };
        let outputs = if self.is_at(TokenType::Arrow) {
            self.advance();
            match self.parse_params(errors, name.value.as_str(), "output") {
                Some(p) => p.params,
                None => {
                    return None;
                },
            }
        } else {
            Vec::new()
        };
        let body = match self.parse_block(errors, "function body") {
            Some(b) => b.stmts,
            None => {
                return None;
            },
        };
        Some(DeclValue::Function { func, name, inputs, outputs, body })
    }

    /// Parses a top-level declaration; only functions are allowed.
    fn parse_decl_value(&mut self, errors: &mut ErrorManager) -> (result: Option<DeclValue>)
        requires
            old(self).wf(),
            old(errors).wf(),
        ensures
            Parser::step(*old(self), *final(self), *old(errors), *final(errors)),
            result is None ==> fails_visibly(*old(self), *old(errors), *final(errors))
                || only_newlines_from(old(self).buffer@, old(self).pos as int),
            result is Some ==> final(self).pos > old(self).pos,
            result matches Some(v) ==> {
                let k = first_content(old(self).buffer@, old(self).pos as int);
                &&& 0 <= k < old(self).buffer@.len()
                &&& v matches DeclValue::Function { func, name, .. } && func == old(
                    self,
                ).buffer@[k] && func.ty == TokenType::Func && name.ty == TokenType::Identifier
            },
            result matches Some(v) ==> decl_value_trees(v),
            result matches Some(v) ==> decl_value_types(v, old(self).buffer@),
    {
        self.consume_ignored();
        if self.is_eof() || errors.is_full() {
            return None;
        }
        match self.buffer[self.pos].ty {
            TokenType::Func => self.parse_func(errors),
            _ => {
                self.report_invalid_top_level(errors, self.pos);
                None
            },
        }
    }

    /// Parses the next declaration, recovering to the next top-level
    /// construct after an error; `None` at the end of input, or when
    /// recovery makes no progress.
    pub fn parse_decl(&mut self, errors: &mut ErrorManager) -> (result: Option<Decl>)
        requires
            old(self).wf(),
            old(errors).wf(),
        ensures
            Parser::step(*old(self), *final(self), *old(errors), *final(errors)),
            result is None ==> fails_visibly(*old(self), *old(errors), *final(errors))
                || only_newlines_from(old(self).buffer@, old(self).pos as int),
            result is Some ==> final(self).pos > old(self).pos,
            result matches Some(d) ==> d.value matches DeclValue::Function { func, name, .. }
                && func.ty == TokenType::Func && name.ty == TokenType::Identifier
                && d.end_token == final(self).buffer@[final(self).pos - 1],
            result matches Some(d) ==> decl_value_trees(d.value),
            result matches Some(d) ==> decl_value_types(d.value, old(self).buffer@),
        decreases old(self).buffer@.len() - old(self).pos,
    {
        if self.is_eof() {
            return None;
        }
        let start = self.pos;
        let start_token = self.current().duplicate();
        match self.parse_decl_value(errors) {
            Some(value) => {
                let end_token = self.previous().duplicate();
                Some(Decl { value, attributes: no_attributes(), start_token, end_token })
            },
            None => {
                self.attempt_restore_to_top_level(errors);
                if self.pos == start {
                    return None;
                }
                self.parse_decl(errors)
            },
        }
    }

    /// Parses every declaration; the program if no error was recorded.
    pub fn parse(self, errors: &mut ErrorManager) -> (result: Option<Vec<Decl>>)
        requires
            self.wf(),
            old(errors).wf(),
        ensures
            final(errors).wf(),
            final(errors).limit() == old(errors).limit(),
            result is Some <==> final(errors).recorded().len() == 0,
            result matches Some(ds) ==> forall|i: int|
                0 <= i < ds@.len() ==> is_function_decl(#[trigger] ds@[i]),
            result matches Some(ds) ==> forall|i: int|
                0 <= i < ds@.len() ==> decl_value_types((#[trigger] ds@[i]).value, self.buffer@),
            result matches Some(ds) ==> (ds@.len() == 0 && primary_errors_before(*old(errors))
                && !literal_ahead(self.buffer@, self.pos as int) ==> only_newlines_from(
                self.buffer@,
                self.pos as int,
            )),
    {
        let mut parser = self;
        let mut decls: Vec<Decl> = Vec::new();
        let ghost start = self.pos;
        loop
            invariant_except_break
                decls@.len() == 0 ==> parser.pos == start,
            invariant
                parser.wf(),
                errors.wf(),
                errors.limit() == old(errors).limit(),
                errors.recorded().len() >= old(errors).recorded().len(),
                errors.recorded().len() == old(errors).recorded().len() ==> errors.recorded() == old(
                    errors,
                ).recorded(),
                parser.buffer@ == self.buffer@,
                start == self.pos,
                parser.pos >= start,
                forall|i: int| 0 <= i < decls@.len() ==> is_function_decl(#[trigger] decls@[i]),
                forall|i: int|
                    0 <= i < decls@.len() ==> decl_value_types((#[trigger] decls@[i]).value, self.buffer@),
            ensures
                forall|i: int|
                    0 <= i < decls@.len() ==> decl_value_types((#[trigger] decls@[i]).value, self.buffer@),
                parser.buffer@ == self.buffer@,
                parser.pos >= start,
                errors.wf(),
                errors.limit() == old(errors).limit(),
                errors.recorded().len() >= old(errors).recorded().len(),
                errors.recorded().len() == old(errors).recorded().len() ==> errors.recorded() == old(
                    errors,
                ).recorded(),
                forall|i: int| 0 <= i < decls@.len() ==> is_function_decl(#[trigger] decls@[i]),
                decls@.len() == 0 && errors.recorded().len() == old(errors).recorded().len()
                    && primary_errors_before(*old(errors)) && !literal_ahead(self.buffer@, start as int)
                    ==> only_newlines_from(self.buffer@, start as int),
            decreases parser.buffer@.len() - parser.pos,
        {
            match parser.parse_decl(errors) {
                Some(decl) => {
                    decls.push(decl);
                },
                None => {
                    break;
                },
            }
        }
        if errors.has_errors() {
            None
        } else {
            Some(decls)
        }
    }
}

/// Whether every token of `tokens` can be parsed (see [`parsable`]).
pub fn check_parsable(tokens: &Vec<Token>) -> (result: bool)
    ensures
        result == parsable(tokens@),
{
    let n = tokens.len();
    let mut i: usize = 0;
    while i < n
        invariant
            0 <= i <= n,
            n == tokens@.len(),
            forall|j: int|
                0 <= j < i ==> spannable(#[trigger] tokens@[j]) && (tokens@[j].ty
                    == TokenType::Integer ==> spec_parse_i64(tokens@[j].value@) is Some),
        decreases n - i,
    {
        let t = &tokens[i];
        let len = t.length();
        if t.loc.pos < 0 || len > isize::MAX as usize || t.loc.pos > isize::MAX - len as isize
            || t.loc.col > isize::MAX - len as isize {
            return false;
        }
        match t.ty {
            TokenType::Integer => {
                if parse_i64(t.value.as_str()).is_none() {
                    return false;
                }
            },
            _ => {},
        }
        i = i + 1;
    }
    true
}

/// Parses a token stream into declarations: `None`, with nothing recorded,
/// when a token cannot be parsed (see [`parsable`]); otherwise the program
/// if no error was recorded.
pub fn parse_tokens(tokens: Vec<Token>, errors: &mut ErrorManager) -> (result: Option<Vec<Decl>>)
    requires
        old(errors).wf(),
    ensures
        final(errors).wf(),
        final(errors).limit() == old(errors).limit(),
        !parsable(tokens@) ==> result is None && final(errors).recorded() == old(errors).recorded(),
        parsable(tokens@) ==> (result is Some <==> final(errors).recorded().len() == 0),
        result matches Some(ds) ==> forall|i: int|
            0 <= i < ds@.len() ==> is_function_decl(#[trigger] ds@[i]),
        result matches Some(ds) ==> forall|i: int|
            0 <= i < ds@.len() ==> decl_value_types((#[trigger] ds@[i]).value, tokens@),
        result matches Some(ds) ==> (ds@.len() == 0 && primary_errors_before(*old(errors))
            && !literal_ahead(tokens@, 0) ==> only_newlines_from(tokens@, 0)),
{
    if !check_parsable(&tokens) {
        return None;
    }
    Parser::new(tokens).parse(errors)
}

/// Whether `d` is a function introduced by `func` and named by an
/// identifier.
pub open spec fn is_function_decl(d: Decl) -> bool {
    &&& d.value matches DeclValue::Function { func, name, .. } && func.ty == TokenType::Func
        && name.ty == TokenType::Identifier
    &&& decl_value_trees(d.value)
}

/// Whether the type `t` is the type that the tokens of `buf` spell from its
/// first token (see [`spec_type`]).
pub open spec fn type_tree(t: Type, buf: Seq<Token>) -> bool {
    exists|p: int|
        0 <= p < buf.len() && buf[p] == t.start_token && type_ok(buf, p) && #[trigger] spec_type(
            buf,
            p,
        ).0 == type_view(t)
}

/// Whether every parameter type of the function `v` is the type that the
/// tokens of `buf` spell from its first token.
pub open spec fn decl_value_types(v: DeclValue, buf: Seq<Token>) -> bool {
    match v {
        DeclValue::Function { inputs, outputs, .. } => (forall|k: int|
            0 <= k < inputs@.len() ==> type_tree((#[trigger] inputs@[k]).1, buf)) && (forall|k: int|
            0 <= k < outputs@.len() ==> type_tree((#[trigger] outputs@[k]).1, buf)),
    }
}

/// Whether every statement in the body of the function `v` has its
/// expressions built as the parser builds them.
pub open spec fn decl_value_trees(v: DeclValue) -> bool {
    match v {
        DeclValue::Function { body, .. } => forall|k: int|
            0 <= k < body@.len() ==> stmt_trees((#[trigger] body@[k]).value),
    }
}

/// Whether the error manager can still record a primary error.
pub open spec fn primary_errors_before(errors: ErrorManager) -> bool {
    crate::utils::error::primary_errors(errors.recorded()) < errors.limit()
}


/// `new` holds the errors of `old` and one more when `old` had room for a
/// primary error, and exactly those of `old` otherwise.
pub open spec fn records_one(old_e: ErrorManager, new_e: ErrorManager) -> bool {
    if primary_errors_before(old_e) {
        &&& new_e.recorded().len() == old_e.recorded().len() + 1
        &&& new_e.recorded().drop_last() == old_e.recorded()
    } else {
        new_e.recorded() == old_e.recorded()
    }
}

/// The error recorded last.
pub open spec fn last_error(e: ErrorManager) -> Error {
    e.recorded().last()
}

/// Token type names, each in single quotes, separated by `, `.
pub open spec fn spec_quoted_types(tys: Seq<TokenType>) -> Seq<char>
    decreases tys.len(),
{
    if tys.len() == 0 {
        Seq::empty()
    } else if tys.len() == 1 {
        "'"@ + spec_debug_name(tys[0]) + "'"@
    } else {
        spec_quoted_types(tys.drop_last()) + ", "@ + "'"@ + spec_debug_name(tys.last()) + "'"@
    }
}


/// A token that no expression takes: a floating-point or character literal.
pub open spec fn unparsed_literal(t: Token) -> bool {
    t.ty == TokenType::Float || t.ty == TokenType::Char
}

/// Whether a token that no expression takes lies at or after `pos`.
pub open spec fn literal_ahead(buf: Seq<Token>, pos: int) -> bool {
    exists|j: int| pos <= j < buf.len() && unparsed_literal(#[trigger] buf[j])
}

/// How parsing from `old_p` fails: it records an error, unless the error
/// manager had no room for a primary error, or parsing stopped at a token
/// that no expression takes (see [`unparsed_literal`]).
pub open spec fn fails_visibly(old_p: Parser, old_e: ErrorManager, new_e: ErrorManager) -> bool {
    ||| new_e.recorded().len() > old_e.recorded().len()
    ||| !primary_errors_before(old_e)
    ||| literal_ahead(old_p.buffer@, old_p.pos as int)
}


/// Nothing but newlines lies at or after `pos`: there is nothing left to
/// parse.
pub open spec fn only_newlines_from(buf: Seq<Token>, pos: int) -> bool {
    forall|j: int| pos <= j < buf.len() ==> (#[trigger] buf[j]).ty == TokenType::Newline
}

} // verus!
