use super::token::TokenType;
use vstd::prelude::*;

verus! {

/// A precedence value must be strictly nonnegative.
pub type Precedence = i32;

#[derive(PartialEq, Eq, Structural, Clone, Copy)]
pub enum Associativity {
    Left,
    Right,
}

pub struct InfixBinaryOp {
    pub precedence: Precedence,
    pub associativity: Associativity,
}

pub struct PrefixUnaryOp {}

pub struct PostfixBinaryOp {
    pub close_token_ty: TokenType,
    pub name: Option<String>,
}

/// Parsing information for an operator.
pub struct Op {
    pub infix_binary: Option<InfixBinaryOp>,
    pub prefix_unary: Option<PrefixUnaryOp>,
    pub postfix_binary: Option<PostfixBinaryOp>,
}

/// The precedence and associativity of `ty` as an infix binary operator.
pub open spec fn spec_infix(ty: TokenType) -> Option<(Precedence, Associativity)> {
    match ty {
        TokenType::Plus | TokenType::Minus => Some((50, Associativity::Left)),
        TokenType::Times => Some((100, Associativity::Left)),
        _ => None,
    }
}

/// Whether `ty` can be a prefix unary operator.
pub open spec fn spec_prefix(ty: TokenType) -> bool {
    ty == TokenType::Plus || ty == TokenType::Minus
}

/// The closing token type and name of `ty` as a postfix binary operator.
pub open spec fn spec_postfix(ty: TokenType) -> Option<(TokenType, Seq<char>)> {
    match ty {
        TokenType::LeftBracket => Some((TokenType::RightBracket, "subscript"@)),
        _ => None,
    }
}

/// Whether a token of type `ty` can be an operator in some role.
pub open spec fn is_operator(ty: TokenType) -> bool {
    spec_infix(ty) is Some || spec_prefix(ty) || spec_postfix(ty) is Some
}

/// Whether `op` has exactly the roles that a token of type `ty` has as an
/// operator.
pub open spec fn op_of(op: Op, ty: TokenType) -> bool {
    &&& (match (op.infix_binary, spec_infix(ty)) {
        (Some(b), Some((p, a))) => b.precedence == p && b.associativity == a,
        (None, None) => true,
        _ => false,
    })
    &&& (op.prefix_unary is Some <==> spec_prefix(ty))
    &&& (match (op.postfix_binary, spec_postfix(ty)) {
        (Some(b), Some((close, name))) => b.close_token_ty == close && (b.name matches Some(n)
            && n@ == name),
        (None, None) => true,
        _ => false,
    })
}

impl Op {
    /// An operator with no roles.
    pub fn empty() -> (result: Self)
        ensures
            result.infix_binary is None,
            result.prefix_unary is None,
            result.postfix_binary is None,
    {
        Op { infix_binary: None, prefix_unary: None, postfix_binary: None }
    }

    /// This operator, also usable as an infix binary operator.
    pub fn infix_binary(self, precedence: Precedence, associativity: Associativity) -> (result: Self)
        ensures
            result.infix_binary matches Some(b) && b.precedence == precedence && b.associativity
                == associativity,
            result.prefix_unary == self.prefix_unary,
            result.postfix_binary == self.postfix_binary,
    {
        let mut result = self;
        result.infix_binary = Some(InfixBinaryOp { precedence, associativity });
        result
    }

    /// This operator, also usable as a prefix unary operator.
    pub fn prefix_unary(self) -> (result: Self)
        ensures
            result.infix_binary == self.infix_binary,
            result.prefix_unary is Some,
            result.postfix_binary == self.postfix_binary,
    {
        let mut result = self;
        result.prefix_unary = Some(PrefixUnaryOp {});
        result
    }

    /// This operator, also usable as a postfix binary operator closed by a
    /// token of type `close_token_ty`.
    pub fn postfix_binary(self, close_token_ty: TokenType, name: Option<String>) -> (result: Self)
        ensures
            result.infix_binary == self.infix_binary,
            result.prefix_unary == self.prefix_unary,
            result.postfix_binary matches Some(p) && p.close_token_ty == close_token_ty && p.name
                == name,
    {
        let mut result = self;
        result.postfix_binary = Some(PostfixBinaryOp { close_token_ty, name });
        result
    }

    /// Constructs an operator from the given token type `ty` if one exists.
    pub fn from(ty: TokenType) -> (result: Option<Op>)
        ensures
            result is Some <==> is_operator(ty),
            result matches Some(op) ==> op_of(op, ty),
    {
        match ty {
            TokenType::Plus | TokenType::Minus => Some(
                Op::empty().infix_binary(50, Associativity::Left).prefix_unary(),
            ),
            TokenType::Times => Some(Op::empty().infix_binary(100, Associativity::Left)),
            TokenType::LeftBracket => {
                let name = "subscript";
                proof {
                    reveal_strlit("subscript");
                }
                Some(Op::empty().postfix_binary(TokenType::RightBracket, Some(name.to_owned())))
            },
            _ => None,
        }
    }

    pub fn is_unary_prefix(&self) -> (result: bool)
        ensures
            result == self.prefix_unary is Some,
    {
        self.prefix_unary.is_some()
    }

    pub fn is_infix_binary(&self) -> (result: bool)
        ensures
            result == self.infix_binary is Some,
    {
        self.infix_binary.is_some()
    }

    pub fn is_postfix_binary(&self) -> (result: bool)
        ensures
            result == self.postfix_binary is Some,
    {
        self.postfix_binary.is_some()
    }
}

} // verus!
