use crate::frontend::token::{Token, TokenType};
use crate::utils::error::{ErrorBuilder, ErrorCode, ErrorManager, Level, Style};
use crate::utils::loc::{share_source, spec_contents, Loc, Source, Span};
use std::rc::Rc;
use vstd::prelude::*;

verus! {

/// Whether `c` has the Unicode White_Space property: tab through carriage
/// return, space, next line, no-break space, Ogham space mark, the spaces
/// from en quad to hair space, the line and paragraph separators, narrow
/// no-break space, medium mathematical space and ideographic space.
pub open spec fn char_is_whitespace(c: char) -> bool {
    let u = c as u32;
    ||| 0x09 <= u <= 0x0d
    ||| u == 0x20
    ||| u == 0x85
    ||| u == 0xa0
    ||| u == 0x1680
    ||| 0x2000 <= u <= 0x200a
    ||| u == 0x2028
    ||| u == 0x2029
    ||| u == 0x202f
    ||| u == 0x205f
    ||| u == 0x3000
}

/// Whether Unicode counts the non-ASCII character `c` as numeric.
pub uninterp spec fn unicode_numeric(c: char) -> bool;

/// Whether Unicode counts the non-ASCII character `c` as alphabetic.
pub uninterp spec fn unicode_alphabetic(c: char) -> bool;

/// Whether `c` is numeric: among ASCII characters, exactly the digits.
pub open spec fn char_is_numeric(c: char) -> bool {
    if (c as u32) < 128 {
        '0' <= c <= '9'
    } else {
        unicode_numeric(c)
    }
}

/// Whether `c` is alphabetic: among ASCII characters, exactly the letters.
pub open spec fn char_is_alphabetic(c: char) -> bool {
    if (c as u32) < 128 {
        ('a' <= c <= 'z') || ('A' <= c <= 'Z')
    } else {
        unicode_alphabetic(c)
    }
}

/// Whether `c` is alphabetic or numeric.
pub open spec fn char_is_alphanumeric(c: char) -> bool {
    char_is_alphabetic(c) || char_is_numeric(c)
}

/// Whether `c` has the Unicode White_Space property, as `char::is_whitespace`
/// tells it.
fn is_whitespace(c: char) -> (result: bool)
    ensures
        result == char_is_whitespace(c),
{
    let u = c as u32;
    (0x09 <= u && u <= 0x0d) || u == 0x20 || u == 0x85 || u == 0xa0 || u == 0x1680 || (0x2000 <= u
        && u <= 0x200a) || u == 0x2028 || u == 0x2029 || u == 0x202f || u == 0x205f || u == 0x3000
}

/// `char::is_numeric`: whether `c` is in a Unicode numeric category (Nd,
/// Nl or No); among ASCII characters these are the digits.
#[verifier::external_body]
fn is_numeric(c: char) -> (result: bool)
    ensures
        result == char_is_numeric(c),
        (c as u32) >= 128 ==> result == unicode_numeric(c),
{
    c.is_numeric()
}

/// `char::is_alphabetic`: whether `c` has the Unicode Alphabetic property;
/// among ASCII characters it is the letters that have it.
#[verifier::external_body]
fn is_alphabetic(c: char) -> (result: bool)
    ensures
        result == char_is_alphabetic(c),
        (c as u32) >= 128 ==> result == unicode_alphabetic(c),
{
    c.is_alphabetic()
}

/// `char::is_alphanumeric`: documented as whether `c` is alphabetic or
/// numeric.
#[verifier::external_body]
fn is_alphanumeric(c: char) -> (result: bool)
    ensures
        result == char_is_alphanumeric(c),
{
    c.is_alphanumeric()
}

/// `str::chars` collected into a vector: the characters of `s`, in order.
#[verifier::external_body]
pub(crate) fn str_chars(s: &str) -> (result: Vec<char>)
    ensures
        result@ == s@,
{
    s.chars().collect()
}

/// A `String` collected from the characters of `chars` from `start` up to
/// (excluding) `end`: exactly those characters.
#[verifier::external_body]
pub(crate) fn chars_to_string(chars: &Vec<char>, start: usize, end: usize) -> (result: String)
    requires
        start <= end <= chars@.len(),
    ensures
        result@ == chars@.subrange(start as int, end as int),
{
    chars[start..end].iter().collect()
}

/// Characters the lexer skips between tokens: whitespace other than a
/// newline.
pub open spec fn skippable(c: char) -> bool {
    char_is_whitespace(c) && c != '\n'
}

/// Characters that continue an identifier.
pub open spec fn ident_char(c: char) -> bool {
    char_is_alphanumeric(c) || c == '_'
}

/// Whether `pat` occurs in `buf` at `pos`.
pub open spec fn occurs_at(buf: Seq<char>, pos: int, pat: Seq<char>) -> bool {
    0 <= pos && pos + pat.len() <= buf.len() && buf.subrange(pos, pos + pat.len()) == pat
}

/// The first fixed token that occurs at `pos`, in the order they are tried,
/// with its length.
pub open spec fn spec_fixed(buf: Seq<char>, pos: int) -> Option<(TokenType, nat)> {
    if occurs_at(buf, pos, seq!['+']) {
        Some((TokenType::Plus, 1))
    } else if occurs_at(buf, pos, seq!['-', '>']) {
        Some((TokenType::Arrow, 2))
    } else if occurs_at(buf, pos, seq!['-', '-', '-']) {
        Some((TokenType::Divider, 3))
    } else if occurs_at(buf, pos, seq!['-']) {
        Some((TokenType::Minus, 1))
    } else if occurs_at(buf, pos, seq!['*']) {
        Some((TokenType::Times, 1))
    } else if occurs_at(buf, pos, seq!['(']) {
        Some((TokenType::LeftPar, 1))
    } else if occurs_at(buf, pos, seq![')']) {
        Some((TokenType::RightPar, 1))
    } else if occurs_at(buf, pos, seq!['{']) {
        Some((TokenType::LeftBrace, 1))
    } else if occurs_at(buf, pos, seq!['}']) {
        Some((TokenType::RightBrace, 1))
    } else if occurs_at(buf, pos, seq!['[']) {
        Some((TokenType::LeftBracket, 1))
    } else if occurs_at(buf, pos, seq![']']) {
        Some((TokenType::RightBracket, 1))
    } else if occurs_at(buf, pos, seq!['<']) {
        Some((TokenType::LeftAngle, 1))
    } else if occurs_at(buf, pos, seq!['>']) {
        Some((TokenType::RightAngle, 1))
    } else if occurs_at(buf, pos, seq!['=']) {
        Some((TokenType::Assign, 1))
    } else if occurs_at(buf, pos, seq![':']) {
        Some((TokenType::Colon, 1))
    } else if occurs_at(buf, pos, seq!['.', '.', '.']) {
        Some((TokenType::Dots, 3))
    } else if occurs_at(buf, pos, seq!['.']) {
        Some((TokenType::Dot, 1))
    } else if occurs_at(buf, pos, seq![',']) {
        Some((TokenType::Comma, 1))
    } else if occurs_at(buf, pos, seq!['\n']) {
        Some((TokenType::Newline, 1))
    } else if occurs_at(buf, pos, seq!['f', 'u', 'n', 'c']) {
        Some((TokenType::Func, 4))
    } else if occurs_at(buf, pos, seq!['l', 'e', 't']) {
        Some((TokenType::Let, 3))
    } else {
        None
    }
}

/// The first position from `pos` on that is not skippable.
pub open spec fn skip_end(buf: Seq<char>, pos: int) -> int
    decreases buf.len() - pos,
{
    if pos < 0 || pos >= buf.len() || !skippable(buf[pos]) {
        pos
    } else {
        skip_end(buf, pos + 1)
    }
}

/// The length of the run of numeric characters from `pos`.
pub open spec fn numeric_run(buf: Seq<char>, pos: int) -> nat
    decreases buf.len() - pos,
{
    if pos < 0 || pos >= buf.len() || !char_is_numeric(buf[pos]) {
        0
    } else {
        1 + numeric_run(buf, pos + 1)
    }
}

/// The length of the run of identifier characters from `pos`.
pub open spec fn ident_run(buf: Seq<char>, pos: int) -> nat
    decreases buf.len() - pos,
{
    if pos < 0 || pos >= buf.len() || !ident_char(buf[pos]) {
        0
    } else {
        1 + ident_run(buf, pos + 1)
    }
}

/// The token the lexer finds from `pos`, after skipping whitespace: its
/// type, start and length; `None` at the end of the text or at a character
/// that begins no token.
pub open spec fn spec_next(buf: Seq<char>, pos: int) -> Option<(TokenType, int, nat)> {
    let s = skip_end(buf, pos);
    if s >= buf.len() {
        None
    } else {
        match spec_fixed(buf, s) {
            Some((ty, len)) => Some((ty, s, len)),
            None => if char_is_numeric(buf[s]) {
                Some((TokenType::Integer, s, numeric_run(buf, s)))
            } else if char_is_alphabetic(buf[s]) || buf[s] == '_' {
                Some((TokenType::Identifier, s, ident_run(buf, s)))
            } else {
                None
            },
        }
    }
}

/// The tokens of `buf` from `pos` on, as type, start and length, until the
/// end of the text or a character that begins no token.
pub open spec fn spec_lex(buf: Seq<char>, pos: int) -> Seq<(TokenType, int, nat)>
    decreases buf.len() - pos,
{
    if pos < 0 || pos >= buf.len() {
        Seq::empty()
    } else {
        match spec_next(buf, pos) {
            Some((ty, s, len)) => if len > 0 && s >= pos && s + len <= buf.len() {
                seq![(ty, s, len)] + spec_lex(buf, s + len)
            } else {
                Seq::empty()
            },
            None => Seq::empty(),
        }
    }
}

/// Whether lexing from `pos` stops at a character that begins no token.
pub open spec fn spec_lex_fails(buf: Seq<char>, pos: int) -> bool
    decreases buf.len() - pos,
{
    if pos < 0 || pos >= buf.len() {
        false
    } else {
        match spec_next(buf, pos) {
            Some((_, s, len)) => if len > 0 && s >= pos && s + len <= buf.len() {
                spec_lex_fails(buf, s + len)
            } else {
                false
            },
            None => skip_end(buf, pos) < buf.len(),
        }
    }
}

/// The line of position `pos`: one more than the newlines before it.
pub open spec fn line_of(buf: Seq<char>, pos: int) -> int
    decreases pos,
{
    if pos <= 0 {
        1
    } else {
        line_of(buf, pos - 1) + if buf[pos - 1] == '\n' {
            1int
        } else {
            0int
        }
    }
}

/// The column of position `pos`: one more than the characters since the
/// last newline before it.
pub open spec fn col_of(buf: Seq<char>, pos: int) -> int
    decreases pos,
{
    if pos <= 0 {
        1
    } else if buf[pos - 1] == '\n' {
        1
    } else {
        col_of(buf, pos - 1) + 1
    }
}

proof fn lemma_line_col_bounds(buf: Seq<char>, pos: int)
    requires
        0 <= pos,
    ensures
        1 <= line_of(buf, pos) <= pos + 1,
        1 <= col_of(buf, pos) <= pos + 1,
    decreases pos,
{
    if pos > 0 {
        lemma_line_col_bounds(buf, pos - 1);
    }
}

/// Turns source text into tokens.
pub struct Lexer {
    pub buffer: Vec<char>,
    pub pos: usize,
    pub line: isize,
    pub col: isize,
    pub source: Rc<Source>,
}

impl Lexer {
    /// The characters being lexed.
    pub closed spec fn text(&self) -> Seq<char> {
        self.buffer@
    }

    /// The source being lexed.
    pub closed spec fn source(&self) -> Source {
        *self.source
    }

    /// The position of the next character, with its line and column.
    pub closed spec fn wf(&self) -> bool {
        &&& self.buffer@.len() < isize::MAX
        &&& self.pos <= self.buffer@.len()
        &&& self.line == line_of(self.buffer@, self.pos as int)
        &&& self.col == col_of(self.buffer@, self.pos as int)
    }

    /// Constructs a lexer for the given `source`, at its first character.
    pub fn new(source: Rc<Source>) -> (result: Self)
        requires
            spec_contents(*source).len() < isize::MAX,
        ensures
            result.wf(),
            result.text() == spec_contents(*source),
            result.source() == *source,
    {
        let buffer = str_chars(source.contents());
        Lexer { buffer, pos: 0, line: 1, col: 1, source }
    }

    /// Moves past one character, keeping track of its line and column.
    fn advance(&mut self)
        requires
            old(self).wf(),
            old(self).pos < old(self).buffer@.len(),
        ensures
            final(self).wf(),
            final(self).pos == old(self).pos + 1,
            final(self).buffer@ == old(self).buffer@,
            final(self).source == old(self).source,
    {
        proof {
            lemma_line_col_bounds(self.buffer@, self.pos as int);
        }
        if self.buffer[self.pos] == '\n' {
            self.col = 0;
            self.line = self.line + 1;
        }
        self.pos = self.pos + 1;
        self.col = self.col + 1;
    }

    /// Skips past all non-newline whitespace.
    fn skip(&mut self)
        requires
            old(self).wf(),
        ensures
            final(self).wf(),
            final(self).pos == skip_end(old(self).buffer@, old(self).pos as int),
            final(self).buffer@ == old(self).buffer@,
            final(self).source == old(self).source,
    {
        let ghost start = self.pos as int;
        while self.pos < self.buffer.len() && is_whitespace(self.buffer[self.pos])
            && self.buffer[self.pos] != '\n'
            invariant
                self.wf(),
                self.buffer@ == old(self).buffer@,
                self.source == old(self).source,
                skip_end(self.buffer@, self.pos as int) == skip_end(self.buffer@, start),
                start == old(self).pos,
            decreases self.buffer@.len() - self.pos,
        {
            self.advance();
        }
    }

    /// Whether `pat` occurs at the current position.
    fn occurs(&self, pat: &[char]) -> (result: bool)
        ensures
            result == occurs_at(self.buffer@, self.pos as int, pat@),
    {
        let n = pat.len();
        if n > self.buffer.len() || self.pos > self.buffer.len() - n {
            return false;
        }
        let mut i: usize = 0;
        while i < n
            invariant
                0 <= i <= n,
                n == pat@.len(),
                self.pos + n <= self.buffer@.len(),
                self.pos + n <= self.buffer.len(),
                forall|j: int| 0 <= j < i ==> self.buffer@[self.pos + j] == pat@[j],
            decreases n - i,
        {
            if self.buffer[self.pos + i] != pat[i] {
                proof {
                    assert(self.buffer@.subrange(self.pos as int, self.pos + n)[i as int]
                        != pat@[i as int]);
                }
                return false;
            }
            i = i + 1;
        }
        proof {
            assert(self.buffer@.subrange(self.pos as int, self.pos + n) =~= pat@);
        }
        true
    }

    /// The first fixed token at the current position (see [`spec_fixed`]).
    fn fixed(&self) -> (result: Option<(TokenType, usize)>)
        ensures
            match result {
                Some((ty, len)) => spec_fixed(self.buffer@, self.pos as int) == Some(
                    (ty, len as nat),
                ),
                None => spec_fixed(self.buffer@, self.pos as int) is None,
            },
    {
        proof {
            assert(['+']@ =~= seq!['+']);
            assert(['-', '>']@ =~= seq!['-', '>']);
            assert(['-', '-', '-']@ =~= seq!['-', '-', '-']);
            assert(['-']@ =~= seq!['-']);
            assert(['*']@ =~= seq!['*']);
            assert(['(']@ =~= seq!['(']);
            assert([')']@ =~= seq![')']);
            assert(['{']@ =~= seq!['{']);
            assert(['}']@ =~= seq!['}']);
            assert(['[']@ =~= seq!['[']);
            assert([']']@ =~= seq![']']);
            assert(['<']@ =~= seq!['<']);
            assert(['>']@ =~= seq!['>']);
            assert(['=']@ =~= seq!['=']);
            assert([':']@ =~= seq![':']);
            assert(['.', '.', '.']@ =~= seq!['.', '.', '.']);
            assert(['.']@ =~= seq!['.']);
            assert([',']@ =~= seq![',']);
            assert(['\n']@ =~= seq!['\n']);
            assert(['f', 'u', 'n', 'c']@ =~= seq!['f', 'u', 'n', 'c']);
            assert(['l', 'e', 't']@ =~= seq!['l', 'e', 't']);
        }
        if self.occurs(&['+']) {
            Some((TokenType::Plus, 1))
        } else if self.occurs(&['-', '>']) {
            Some((TokenType::Arrow, 2))
        } else if self.occurs(&['-', '-', '-']) {
            Some((TokenType::Divider, 3))
        } else if self.occurs(&['-']) {
            Some((TokenType::Minus, 1))
        } else if self.occurs(&['*']) {
            Some((TokenType::Times, 1))
        } else if self.occurs(&['(']) {
            Some((TokenType::LeftPar, 1))
        } else if self.occurs(&[')']) {
            Some((TokenType::RightPar, 1))
        } else if self.occurs(&['{']) {
            Some((TokenType::LeftBrace, 1))
        } else if self.occurs(&['}']) {
            Some((TokenType::RightBrace, 1))
        } else if self.occurs(&['[']) {
            Some((TokenType::LeftBracket, 1))
        } else if self.occurs(&[']']) {
            Some((TokenType::RightBracket, 1))
        } else if self.occurs(&['<']) {
            Some((TokenType::LeftAngle, 1))
        } else if self.occurs(&['>']) {
            Some((TokenType::RightAngle, 1))
        } else if self.occurs(&['=']) {
            Some((TokenType::Assign, 1))
        } else if self.occurs(&[':']) {
            Some((TokenType::Colon, 1))
        } else if self.occurs(&['.', '.', '.']) {
            Some((TokenType::Dots, 3))
        } else if self.occurs(&['.']) {
            Some((TokenType::Dot, 1))
        } else if self.occurs(&[',']) {
            Some((TokenType::Comma, 1))
        } else if self.occurs(&['\n']) {
            Some((TokenType::Newline, 1))
        } else if self.occurs(&['f', 'u', 'n', 'c']) {
            Some((TokenType::Func, 4))
        } else if self.occurs(&['l', 'e', 't']) {
            Some((TokenType::Let, 3))
        } else {
            None
        }
    }

    /// The length of the run of numeric characters at the current position.
    fn numeric_len(&self) -> (result: usize)
        requires
            self.pos <= self.buffer@.len(),
        ensures
            result == numeric_run(self.buffer@, self.pos as int),
            self.pos + result <= self.buffer@.len(),
    {
        let mut i = self.pos;
        while i < self.buffer.len() && is_numeric(self.buffer[i])
            invariant
                self.pos <= i <= self.buffer@.len(),
                numeric_run(self.buffer@, self.pos as int) == (i - self.pos) + numeric_run(
                    self.buffer@,
                    i as int,
                ),
            decreases self.buffer@.len() - i,
        {
            i = i + 1;
        }
        i - self.pos
    }

    /// The length of the run of identifier characters at the current
    /// position.
    fn ident_len(&self) -> (result: usize)
        requires
            self.pos <= self.buffer@.len(),
        ensures
            result == ident_run(self.buffer@, self.pos as int),
            self.pos + result <= self.buffer@.len(),
    {
        let mut i = self.pos;
        while i < self.buffer.len() && (is_alphanumeric(self.buffer[i]) || self.buffer[i] == '_')
            invariant
                self.pos <= i <= self.buffer@.len(),
                ident_run(self.buffer@, self.pos as int) == (i - self.pos) + ident_run(
                    self.buffer@,
                    i as int,
                ),
            decreases self.buffer@.len() - i,
        {
            i = i + 1;
        }
        i - self.pos
    }

    /// Consumes `length` characters as a token of type `ty`.
    fn make_token(&mut self, ty: TokenType, length: usize) -> (result: Token)
        requires
            old(self).wf(),
            old(self).pos + length <= old(self).buffer@.len(),
        ensures
            final(self).wf(),
            final(self).pos == old(self).pos + length,
            final(self).buffer@ == old(self).buffer@,
            final(self).source == old(self).source,
            result.ty == ty,
            result.value@ == old(self).buffer@.subrange(
                old(self).pos as int,
                old(self).pos + length,
            ),
            result.loc.pos == old(self).pos,
            result.loc.line == line_of(old(self).buffer@, old(self).pos as int),
            result.loc.col == col_of(old(self).buffer@, old(self).pos as int),
            result.loc.source == old(self).source,
    {
        let start = self.pos;
        let value = chars_to_string(&self.buffer, start, start + length);
        let loc = Loc {
            line: self.line,
            col: self.col,
            pos: start as isize,
            source: share_source(&self.source),
        };
        let mut i: usize = 0;
        while i < length
            invariant
                0 <= i <= length,
                self.wf(),
                self.pos == start + i,
                start + length <= self.buffer@.len(),
                self.buffer@ == old(self).buffer@,
                self.source == old(self).source,
            decreases length - i,
        {
            self.advance();
            i = i + 1;
        }
        Token { ty, value, loc }
    }

    /// Finds the next token (see [`spec_next`]), recording an error at a
    /// character that begins no token. Returns `None` at the end of the text,
    /// after such an error, or when errors were already recorded.
    pub fn next_token(&mut self, errors: &mut ErrorManager) -> (result: Option<Token>)
        requires
            old(self).wf(),
            old(errors).wf(),
        ensures
            final(self).wf(),
            final(errors).wf(),
            final(self).text() == old(self).text(),
            final(self).source == old(self).source,
            final(errors).limit() == old(errors).limit(),
            old(errors).recorded().len() > 0 ==> result is None && final(errors).recorded()
                == old(errors).recorded(),
            old(errors).recorded().len() == 0 && old(self).pos >= old(self).text().len() ==> result is None
                && final(errors).recorded() == old(errors).recorded(),
            old(errors).recorded().len() == 0 && old(self).pos < old(self).text().len() ==> match spec_next(
                old(self).text(),
                old(self).pos as int,
            ) {
                Some((ty, s, len)) => result matches Some(t) && t.ty == ty && t.value@
                    == old(self).text().subrange(s, s + len) && t.loc.pos == s && t.loc.line
                    == line_of(old(self).text(), s) && t.loc.col == col_of(old(self).text(), s)
                    && final(self).pos == s + len && final(errors).recorded() == old(
                    errors,
                ).recorded(),
                None => result is None && (skip_end(old(self).text(), old(self).pos as int)
                    < old(self).text().len() ==> (final(errors).recorded().len() > 0 <==> old(
                    errors,
                ).limit() > 0)) && (skip_end(
                    old(self).text(),
                    old(self).pos as int,
                ) >= old(self).text().len() ==> final(errors).recorded() == old(
                    errors,
                ).recorded()),
            },
    {
        if self.pos >= self.buffer.len() || errors.has_errors() {
            return None;
        }
        self.skip();
        if self.pos >= self.buffer.len() {
            return None;
        }
        match self.fixed() {
            Some((ty, len)) => {
                proof {
                    assert(len > 0);
                }
                return Some(self.make_token(ty, len));
            },
            None => {},
        }
        let c = self.buffer[self.pos];
        if is_numeric(c) {
            let len = self.numeric_len();
            Some(self.make_token(TokenType::Integer, len))
        } else if is_alphabetic(c) || c == '_' {
            let len = self.ident_len();
            Some(self.make_token(TokenType::Identifier, len))
        } else {
            proof {
                lemma_line_col_bounds(self.buffer@, self.pos as int);
            }
            let here = Loc {
                line: self.line,
                col: self.col,
                pos: self.pos as isize,
                source: share_source(&self.source),
            };
            let text = "Encountered unrecognized character";
            let error = ErrorBuilder::new().of_style(Style::Primary).at_level(Level::Error).with_code(
                ErrorCode::UnrecognizedCharacter,
            ).span(Span::unit(here)).message(text.to_owned()).build();
            errors.record(error);
            None
        }
    }

    /// All tokens of the text (see [`spec_lex`]), or `None` when lexing
    /// records an error or errors were already recorded.
    pub fn lex(self, errors: &mut ErrorManager) -> (result: Option<Vec<Token>>)
        requires
            self.wf(),
            old(errors).wf(),
            self.pos == 0,
        ensures
            final(errors).wf(),
            final(errors).limit() == old(errors).limit(),
            result is None <==> final(errors).recorded().len() > 0,
            old(errors).recorded().len() == 0 && old(errors).limit() > 0 ==> (result is None
                <==> spec_lex_fails(self.text(), 0)),
            match result {
                Some(tokens) => {
                    &&& old(errors).recorded().len() == 0
                    &&& tokens@.len() == spec_lex(self.text(), 0).len()
                    &&& forall|i: int|
                        0 <= i < tokens@.len() ==> token_at(
                            self.text(),
                            tokens@[i],
                            #[trigger] spec_lex(self.text(), 0)[i],
                        )
                },
                None => true,
            },
    {
        let mut lexer = self;
        let ghost text = lexer.buffer@;
        if errors.has_errors() {
            return None;
        }
        let mut tokens: Vec<Token> = Vec::new();
        let ghost mut done: Seq<(TokenType, int, nat)> = Seq::empty();
        proof {
            assert(done + spec_lex(text, 0) =~= spec_lex(text, 0));
        }
        loop
            invariant_except_break
                spec_lex(text, 0) == done + spec_lex(text, lexer.pos as int),
                spec_lex_fails(text, 0) == spec_lex_fails(text, lexer.pos as int),
            invariant
                lexer.wf(),
                errors.wf(),
                errors.limit() == old(errors).limit(),
                lexer.buffer@ == text,
                text == self.text(),
                old(errors).recorded().len() == 0,
                errors.recorded() == old(errors).recorded(),
                errors.recorded().len() == 0,
                tokens@.len() == done.len(),
                forall|i: int| 0 <= i < done.len() ==> token_at(text, tokens@[i], #[trigger] done[i]),
            ensures
                spec_lex(text, 0) == done,
                errors.limit() > 0 ==> !spec_lex_fails(text, 0),
            decreases text.len() - lexer.pos,
        {
            let ghost pos0 = lexer.pos as int;
            match lexer.next_token(errors) {
                Some(token) => {
                    proof {
                        lemma_skip_end_ge(text, pos0);
                        let (ty, s, len) = spec_next(text, pos0)->Some_0;
                        lemma_next_len(text, pos0);
                        assert(spec_lex(text, pos0) == seq![(ty, s, len)] + spec_lex(text, s + len));
                        assert(done.push((ty, s, len)) + spec_lex(text, s + len) =~= done + spec_lex(
                            text,
                            pos0,
                        ));
                        done = done.push((ty, s, len));
                    }
                    tokens.push(token);
                },
                None => {
                    proof {
                        lemma_skip_end_ge(text, pos0);
                        lemma_next_len(text, pos0);
                    }
                    if errors.has_errors() {
                        return None;
                    }
                    proof {
                        assert(spec_lex(text, pos0) =~= Seq::<(TokenType, int, nat)>::empty());
                        assert(done + spec_lex(text, pos0) =~= done);
                    }
                    break;
                },
            }
        }
        Some(tokens)
    }
}

/// Whether `token` is the token of `buf` with the given type, start and
/// length: its text and its location are those of the characters there.
pub open spec fn token_at(buf: Seq<char>, token: Token, entry: (TokenType, int, nat)) -> bool {
    &&& token.ty == entry.0
    &&& token.value@ == buf.subrange(entry.1, entry.1 + entry.2)
    &&& token.loc.pos == entry.1
    &&& token.loc.line == line_of(buf, entry.1)
    &&& token.loc.col == col_of(buf, entry.1)
}

proof fn lemma_skip_end_ge(buf: Seq<char>, pos: int)
    ensures
        skip_end(buf, pos) >= pos,
    decreases buf.len() - pos,
{
    if !(pos < 0 || pos >= buf.len() || !skippable(buf[pos])) {
        lemma_skip_end_ge(buf, pos + 1);
    }
}

/// A token that the lexer finds is never empty and lies within the text.
proof fn lemma_next_len(buf: Seq<char>, pos: int)
    requires
        0 <= pos,
    ensures
        spec_next(buf, pos) matches Some((_, s, len)) ==> len > 0 && s + len <= buf.len() && s
            >= pos,
{
    lemma_skip_end_ge(buf, pos);
    let s = skip_end(buf, pos);
    if s < buf.len() {
        lemma_runs_bounded(buf, s);
    }
}

proof fn lemma_runs_bounded(buf: Seq<char>, pos: int)
    requires
        0 <= pos <= buf.len(),
    ensures
        pos + numeric_run(buf, pos) <= buf.len(),
        pos + ident_run(buf, pos) <= buf.len(),
    decreases buf.len() - pos,
{
    if pos < buf.len() {
        lemma_runs_bounded(buf, pos + 1);
    }
}

} // verus!
