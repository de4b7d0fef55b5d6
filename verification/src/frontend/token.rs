use crate::frontend::ast::text_of;
use crate::frontend::parser::str_equals;
use crate::utils::loc::{share_source, spec_loc_text, utf8_len, Loc, Span};
use vstd::prelude::*;

verus! {

/// The kinds of lexical units.
#[derive(Clone, Copy, PartialEq, Eq, Structural, Debug)]
pub enum TokenType {
    Identifier,
    /// While it is guaranteed that tokens of this type represent valid
    /// integers, they may not fit within the 64-bit signed or unsigned limit.
    Integer,
    Float,
    Bool,
    Char,
    String,
    Func,
    Let,
    For,
    In,
    Plus,
    Minus,
    Times,
    Assign,
    LeftPar,
    RightPar,
    LeftBrace,
    RightBrace,
    LeftBracket,
    RightBracket,
    LeftAngle,
    RightAngle,
    Dot,
    Dots,
    DotsUntil,
    Divider,
    Colon,
    Comma,
    Arrow,
    Newline,
}

/// The kebab-case name of a token type: the variant name with a hyphen
/// before each inner capital and all capitals lowered.
pub open spec fn spec_name(ty: TokenType) -> Seq<char> {
    match ty {
        TokenType::Identifier => "identifier"@,
        TokenType::Integer => "integer"@,
        TokenType::Float => "float"@,
        TokenType::Bool => "bool"@,
        TokenType::Char => "char"@,
        TokenType::String => "string"@,
        TokenType::Func => "func"@,
        TokenType::Let => "let"@,
        TokenType::For => "for"@,
        TokenType::In => "in"@,
        TokenType::Plus => "plus"@,
        TokenType::Minus => "minus"@,
        TokenType::Times => "times"@,
        TokenType::Assign => "assign"@,
        TokenType::LeftPar => "left-par"@,
        TokenType::RightPar => "right-par"@,
        TokenType::LeftBrace => "left-brace"@,
        TokenType::RightBrace => "right-brace"@,
        TokenType::LeftBracket => "left-bracket"@,
        TokenType::RightBracket => "right-bracket"@,
        TokenType::LeftAngle => "left-angle"@,
        TokenType::RightAngle => "right-angle"@,
        TokenType::Dot => "dot"@,
        TokenType::Dots => "dots"@,
        TokenType::DotsUntil => "dots-until"@,
        TokenType::Divider => "divider"@,
        TokenType::Colon => "colon"@,
        TokenType::Comma => "comma"@,
        TokenType::Arrow => "arrow"@,
        TokenType::Newline => "newline"@,
    }
}

/// How a token type is displayed: the symbol it stands for, or its name.
pub open spec fn spec_display(ty: TokenType) -> Seq<char> {
    match ty {
        TokenType::Plus => "+"@,
        TokenType::Minus => "-"@,
        TokenType::Times => "*"@,
        TokenType::LeftPar => "("@,
        TokenType::RightPar => ")"@,
        TokenType::LeftBrace => "{"@,
        TokenType::RightBrace => "}"@,
        TokenType::LeftBracket => "["@,
        TokenType::RightBracket => "]"@,
        TokenType::LeftAngle => "<"@,
        TokenType::RightAngle => ">"@,
        TokenType::Colon => ":"@,
        TokenType::Assign => "="@,
        TokenType::Dot => "."@,
        TokenType::Dots => "..."@,
        TokenType::DotsUntil => "..<"@,
        TokenType::Divider => "---"@,
        TokenType::Comma => ","@,
        TokenType::Arrow => "->"@,
        _ => spec_name(ty),
    }
}

/// The name of a token type's variant, as debug output shows it.
pub open spec fn spec_debug_name(ty: TokenType) -> Seq<char> {
    match ty {
        TokenType::Identifier => "Identifier"@,
        TokenType::Integer => "Integer"@,
        TokenType::Float => "Float"@,
        TokenType::Bool => "Bool"@,
        TokenType::Char => "Char"@,
        TokenType::String => "String"@,
        TokenType::Func => "Func"@,
        TokenType::Let => "Let"@,
        TokenType::For => "For"@,
        TokenType::In => "In"@,
        TokenType::Plus => "Plus"@,
        TokenType::Minus => "Minus"@,
        TokenType::Times => "Times"@,
        TokenType::Assign => "Assign"@,
        TokenType::LeftPar => "LeftPar"@,
        TokenType::RightPar => "RightPar"@,
        TokenType::LeftBrace => "LeftBrace"@,
        TokenType::RightBrace => "RightBrace"@,
        TokenType::LeftBracket => "LeftBracket"@,
        TokenType::RightBracket => "RightBracket"@,
        TokenType::LeftAngle => "LeftAngle"@,
        TokenType::RightAngle => "RightAngle"@,
        TokenType::Dot => "Dot"@,
        TokenType::Dots => "Dots"@,
        TokenType::DotsUntil => "DotsUntil"@,
        TokenType::Divider => "Divider"@,
        TokenType::Colon => "Colon"@,
        TokenType::Comma => "Comma"@,
        TokenType::Arrow => "Arrow"@,
        TokenType::Newline => "Newline"@,
    }
}

impl TokenType {
    /// The name of this type's variant, as debug output shows it.
    pub fn debug_name(&self) -> (result: &'static str)
        ensures
            result@ == spec_debug_name(*self),
    {
        match self {
            TokenType::Identifier => "Identifier",
            TokenType::Integer => "Integer",
            TokenType::Float => "Float",
            TokenType::Bool => "Bool",
            TokenType::Char => "Char",
            TokenType::String => "String",
            TokenType::Func => "Func",
            TokenType::Let => "Let",
            TokenType::For => "For",
            TokenType::In => "In",
            TokenType::Plus => "Plus",
            TokenType::Minus => "Minus",
            TokenType::Times => "Times",
            TokenType::Assign => "Assign",
            TokenType::LeftPar => "LeftPar",
            TokenType::RightPar => "RightPar",
            TokenType::LeftBrace => "LeftBrace",
            TokenType::RightBrace => "RightBrace",
            TokenType::LeftBracket => "LeftBracket",
            TokenType::RightBracket => "RightBracket",
            TokenType::LeftAngle => "LeftAngle",
            TokenType::RightAngle => "RightAngle",
            TokenType::Dot => "Dot",
            TokenType::Dots => "Dots",
            TokenType::DotsUntil => "DotsUntil",
            TokenType::Divider => "Divider",
            TokenType::Colon => "Colon",
            TokenType::Comma => "Comma",
            TokenType::Arrow => "Arrow",
            TokenType::Newline => "Newline",
        }
    }

    /// The literal for this type's name.
    fn name_str(&self) -> (result: &'static str)
        ensures
            result@ == spec_name(*self),
    {
        match self {
            TokenType::Identifier => "identifier",
            TokenType::Integer => "integer",
            TokenType::Float => "float",
            TokenType::Bool => "bool",
            TokenType::Char => "char",
            TokenType::String => "string",
            TokenType::Func => "func",
            TokenType::Let => "let",
            TokenType::For => "for",
            TokenType::In => "in",
            TokenType::Plus => "plus",
            TokenType::Minus => "minus",
            TokenType::Times => "times",
            TokenType::Assign => "assign",
            TokenType::LeftPar => "left-par",
            TokenType::RightPar => "right-par",
            TokenType::LeftBrace => "left-brace",
            TokenType::RightBrace => "right-brace",
            TokenType::LeftBracket => "left-bracket",
            TokenType::RightBracket => "right-bracket",
            TokenType::LeftAngle => "left-angle",
            TokenType::RightAngle => "right-angle",
            TokenType::Dot => "dot",
            TokenType::Dots => "dots",
            TokenType::DotsUntil => "dots-until",
            TokenType::Divider => "divider",
            TokenType::Colon => "colon",
            TokenType::Comma => "comma",
            TokenType::Arrow => "arrow",
            TokenType::Newline => "newline",
        }
    }

    /// A kebab-case name for this token type.
    pub fn name(&self) -> (result: String)
        ensures
            result@ == spec_name(*self),
    {
        self.name_str().to_owned()
    }

    /// How this token type is displayed: its symbol, or its name for types
    /// without one.
    pub fn display(&self) -> (result: String)
        ensures
            result@ == spec_display(*self),
    {
        let symbol: &str = match self {
            TokenType::Plus => "+",
            TokenType::Minus => "-",
            TokenType::Times => "*",
            TokenType::LeftPar => "(",
            TokenType::RightPar => ")",
            TokenType::LeftBrace => "{",
            TokenType::RightBrace => "}",
            TokenType::LeftBracket => "[",
            TokenType::RightBracket => "]",
            TokenType::LeftAngle => "<",
            TokenType::RightAngle => ">",
            TokenType::Colon => ":",
            TokenType::Assign => "=",
            TokenType::Dot => ".",
            TokenType::Dots => "...",
            TokenType::DotsUntil => "..<",
            TokenType::Divider => "---",
            TokenType::Comma => ",",
            TokenType::Arrow => "->",
            _ => self.name_str(),
        };
        symbol.to_owned()
    }

    /// Whether a construct of this type may only appear at top level.
    pub fn begins_top_level_construct(&self) -> (result: bool)
        ensures
            result == (*self == TokenType::Func),
    {
        match self {
            TokenType::Func => true,
            _ => false,
        }
    }
}

/// The length in bytes of a token's text, as a machine word.
pub open spec fn text_len(t: Token) -> int {
    (utf8_len(t.value) as usize) as int
}

/// The location just past a token's text, on the same line.
pub open spec fn token_end_loc(t: Token) -> Loc {
    Loc {
        line: t.loc.line,
        col: (t.loc.col + text_len(t)) as isize,
        pos: (t.loc.pos + text_len(t)) as isize,
        source: t.loc.source,
    }
}

/// The span of a token's text.
pub open spec fn token_span_of(t: Token) -> Span {
    Span { start: t.loc, end: token_end_loc(t) }
}

/// A lexical unit of source code.
pub struct Token {
    pub ty: TokenType,
    pub value: String,
    pub loc: Loc,
}

impl Token {
    /// The length of the token's text in bytes.
    pub fn length(&self) -> (result: usize)
        ensures
            result == text_len(*self),
    {
        self.value.as_str().len()
    }

    /// A copy of this token.
    pub fn duplicate(&self) -> (result: Self)
        ensures
            result == *self,
    {
        Token { ty: self.ty, value: self.value.clone(), loc: self.loc.duplicate() }
    }

    /// The location just past the token's text.
    pub fn end(&self) -> (result: Loc)
        requires
            text_len(*self) <= isize::MAX,
            self.loc.pos + text_len(*self) <= isize::MAX,
            self.loc.col + text_len(*self) <= isize::MAX,
        ensures
            result.line == self.loc.line,
            result.source == self.loc.source,
            result.pos == self.loc.pos + text_len(*self),
            result.col == self.loc.col + text_len(*self),
    {
        let length = self.length();
        Loc {
            line: self.loc.line,
            col: self.loc.col + length as isize,
            pos: self.loc.pos + length as isize,
            source: share_source(&self.loc.source),
        }
    }

    /// The span of the token's text.
    pub fn span(&self) -> (result: Span)
        requires
            0 <= self.loc.pos,
            text_len(*self) <= isize::MAX,
            self.loc.pos + text_len(*self) <= isize::MAX,
            self.loc.col + text_len(*self) <= isize::MAX,
        ensures
            result.start == self.loc,
            result.end.line == self.loc.line,
            result.end.source == self.loc.source,
            result.end.pos == self.loc.pos + text_len(*self),
            result.end.col == self.loc.col + text_len(*self),
            result == token_span_of(*self),
    {
        let end = self.end();
        proof {
            assert(crate::utils::loc::spec_same_source(*self.loc.source, *end.source)) by {
                match *self.loc.source {
                    crate::utils::loc::Source::File { name, .. } => {},
                    crate::utils::loc::Source::Unknown => {},
                }
            }
        }
        Span::new(self.loc.duplicate(), end)
    }
}


/// How a token's text is shown in debug output: a newline as `\n`, any
/// other text as it is.
pub open spec fn spec_shown_value(value: Seq<char>) -> Seq<char> {
    if value == seq!['\n'] {
        seq!['\\', 'n']
    } else {
        value
    }
}

/// How a token is shown in debug output: its text, its type's name and its
/// location, in parentheses.
pub open spec fn spec_token_debug_text(token: Token) -> Seq<char> {
    seq!['('] + spec_shown_value(token.value@) + seq![',', ' ', 't', 'y', ' ', '=', ' '] + spec_name(
        token.ty,
    ) + seq![',', ' ', 'l', 'o', 'c', ' ', '=', ' '] + spec_loc_text(token.loc) + seq![')']
}

impl Token {
    /// How the token is shown in debug output (see
    /// [`spec_token_debug_text`]).
    pub fn debug_text(&self) -> (result: String)
        ensures
            result@ == spec_token_debug_text(*self),
    {
        let open = "(";
        let newline = "\n";
        let escaped = "\\n";
        let ty = ", ty = ";
        let loc = ", loc = ";
        let close = ")";
        proof {
            reveal_strlit("(");
            reveal_strlit("\n");
            reveal_strlit("\\n");
            reveal_strlit(", ty = ");
            reveal_strlit(", loc = ");
            reveal_strlit(")");
            assert(open@ =~= seq!['(']);
            assert(newline@ =~= seq!['\n']);
            assert(escaped@ =~= seq!['\\', 'n']);
            assert(ty@ =~= seq![',', ' ', 't', 'y', ' ', '=', ' ']);
            assert(loc@ =~= seq![',', ' ', 'l', 'o', 'c', ' ', '=', ' ']);
            assert(close@ =~= seq![')']);
        }
        let mut result = text_of(open);
        if str_equals(self.value.as_str(), newline) {
            result.append(escaped);
        } else {
            result.append(self.value.as_str());
        }
        result.append(ty);
        let name = self.ty.name();
        result.append(name.as_str());
        result.append(loc);
        let place = self.loc.to_text();
        result.append(place.as_str());
        result.append(close);
        result
    }
}

} // verus!
