use super::loc::Span;
use crate::frontend::ast::{spec_decimal, text_of, usize_text};
use vstd::prelude::*;

verus! {

/// The numbered kinds of diagnostics.
#[derive(Clone, Copy, PartialEq, Eq, Structural)]
pub enum ErrorCode {
    WompWomp,
    UnrecognizedCharacter,
    UnexpectedEOF,
    UnexpectedToken,
    InvalidTopLevelConstruct,
    ConstructShouldBeTopLevel,
    InvalidTokenForStatement,
    InvalidOperatorSyntax,
    MalformedType,
    UnboundName,
    StaticAnalysisIssue,
    AmbiguousType,
    UnificationFailure,
}

/// The number printed for a code: its position in the list of codes.
pub open spec fn spec_code_number(code: ErrorCode) -> int {
    match code {
        ErrorCode::WompWomp => 0,
        ErrorCode::UnrecognizedCharacter => 1,
        ErrorCode::UnexpectedEOF => 2,
        ErrorCode::UnexpectedToken => 3,
        ErrorCode::InvalidTopLevelConstruct => 4,
        ErrorCode::ConstructShouldBeTopLevel => 5,
        ErrorCode::InvalidTokenForStatement => 6,
        ErrorCode::InvalidOperatorSyntax => 7,
        ErrorCode::MalformedType => 8,
        ErrorCode::UnboundName => 9,
        ErrorCode::StaticAnalysisIssue => 10,
        ErrorCode::AmbiguousType => 11,
        ErrorCode::UnificationFailure => 12,
    }
}

impl ErrorCode {
    /// The number printed for this code (see [`spec_code_number`]).
    pub fn number(&self) -> (result: i32)
        ensures
            result == spec_code_number(*self),
    {
        match self {
            ErrorCode::WompWomp => 0,
            ErrorCode::UnrecognizedCharacter => 1,
            ErrorCode::UnexpectedEOF => 2,
            ErrorCode::UnexpectedToken => 3,
            ErrorCode::InvalidTopLevelConstruct => 4,
            ErrorCode::ConstructShouldBeTopLevel => 5,
            ErrorCode::InvalidTokenForStatement => 6,
            ErrorCode::InvalidOperatorSyntax => 7,
            ErrorCode::MalformedType => 8,
            ErrorCode::UnboundName => 9,
            ErrorCode::StaticAnalysisIssue => 10,
            ErrorCode::AmbiguousType => 11,
            ErrorCode::UnificationFailure => 12,
        }
    }
}

/// The severity of a diagnostic.
#[derive(Clone, Copy, PartialEq, Eq, Structural)]
pub enum Level {
    Info,
    Note,
    Warning,
    Error,
}

/// The word for a level.
pub open spec fn spec_level_word(level: Level) -> Seq<char> {
    match level {
        Level::Info => seq!['i', 'n', 'f', 'o'],
        Level::Note => seq!['n', 'o', 't', 'e'],
        Level::Warning => seq!['w', 'a', 'r', 'n', 'i', 'n', 'g'],
        Level::Error => seq!['e', 'r', 'r', 'o', 'r'],
    }
}

/// `count` zeros.
pub open spec fn spec_zeros(count: nat) -> Seq<char> {
    Seq::new(count, |i: int| '0')
}

/// The decimal text of `n` padded with leading zeros to at least `width`
/// characters.
pub open spec fn spec_zero_padded(n: nat, width: nat) -> Seq<char> {
    let digits = spec_decimal(n);
    if digits.len() < width {
        spec_zeros((width - digits.len()) as nat) + digits
    } else {
        digits
    }
}

/// The header of a report: the level's word, then in brackets the word's
/// first letter in upper case and the code's number padded to four digits.
pub open spec fn spec_header(level: Level, code: ErrorCode) -> Seq<char> {
    let word = spec_level_word(level);
    word + seq!['['] + seq![spec_upper(word[0])] + spec_zero_padded(
        spec_code_number(code) as nat,
        4,
    ) + seq![']']
}

/// A lower-case ASCII letter in upper case; any other character as it is.
pub open spec fn spec_upper(c: char) -> char {
    if 'a' <= c <= 'z' {
        ((c as int) - 32) as char
    } else {
        c
    }
}

impl Level {
    /// The word for this level (see [`spec_level_word`]).
    pub fn word(&self) -> (result: &'static str)
        ensures
            result@ == spec_level_word(*self),
    {
        proof {
            reveal_strlit("info");
            reveal_strlit("note");
            reveal_strlit("warning");
            reveal_strlit("error");
        }
        match self {
            Level::Info => "info",
            Level::Note => "note",
            Level::Warning => "warning",
            Level::Error => "error",
        }
    }

    /// The header of a report at this level with code `code` (see
    /// [`spec_header`]).
    pub fn form_header(&self, code: ErrorCode) -> (result: String)
        ensures
            result@ == spec_header(*self, code),
    {
        let word = self.word();
        let letter: &str = match self {
            Level::Info => "I",
            Level::Note => "N",
            Level::Warning => "W",
            Level::Error => "E",
        };
        let open = "[";
        let close = "]";
        proof {
            reveal_strlit("I");
            reveal_strlit("N");
            reveal_strlit("W");
            reveal_strlit("E");
            reveal_strlit("[");
            reveal_strlit("]");
            assert(letter@ =~= seq![spec_upper(word@[0])]);
        }
        let mut result = text_of(word);
        result.append(open);
        result.append(letter);
        let number = zero_padded(code.number() as usize, 4);
        result.append(number.as_str());
        result.append(close);
        result
    }
}

/// The decimal text of `n` padded with leading zeros to at least `width`
/// characters (see [`spec_zero_padded`]).
pub fn zero_padded(n: usize, width: usize) -> (result: String)
    ensures
        result@ == spec_zero_padded(n as nat, width as nat),
{
    let digits = usize_text(n);
    let length = digits.as_str().unicode_len();
    let mut result = String::new();
    if length < width {
        let zero = "0";
        proof {
            reveal_strlit("0");
        }
        let mut k: usize = 0;
        while k < width - length
            invariant
                0 <= k <= width - length,
                length < width,
                zero@ == seq!['0'],
                result@ == spec_zeros(k as nat),
            decreases width - length - k,
        {
            result.append(zero);
            proof {
                assert(result@ =~= spec_zeros((k + 1) as nat));
            }
            k = k + 1;
        }
    }
    result.append(digits.as_str());
    proof {
        if length >= width {
            assert(result@ =~= digits@);
        }
    }
    result
}

/// The marker under a highlighted section `length` characters long: a
/// corner followed by a line, or nothing for an empty section.
pub open spec fn spec_error_pointer(length: nat) -> Seq<char> {
    if length == 0 {
        Seq::empty()
    } else {
        seq!['└'] + Seq::new((length - 1) as nat, |i: int| '─')
    }
}

/// The marker under a highlighted section (see [`spec_error_pointer`]).
pub fn create_error_pointer(length: usize) -> (result: String)
    ensures
        result@ == spec_error_pointer(length as nat),
{
    if length == 0 {
        return String::new();
    }
    let corner = "└";
    let line = "─";
    proof {
        reveal_strlit("└");
        reveal_strlit("─");
    }
    let mut result = text_of(corner);
    let mut k: usize = 1;
    while k < length
        invariant
            1 <= k <= length,
            corner@ == seq!['└'],
            line@ == seq!['─'],
            result@ == seq!['└'] + Seq::new((k - 1) as nat, |i: int| '─'),
        decreases length - k,
    {
        result.append(line);
        proof {
            assert(result@ =~= seq!['└'] + Seq::new(k as nat, |i: int| '─'));
        }
        k = k + 1;
    }
    result
}

/// Whether a diagnostic starts a report or continues the previous one.
#[derive(Clone, Copy, PartialEq, Eq, Structural)]
pub enum Style {
    Primary,
    Secondary,
}

/// An error at a given location with various information and diagnostics.
pub struct Error {
    pub style: Style,
    pub level: Level,
    pub code: ErrorCode,
    pub span: Option<Span>,
    pub message: String,
    pub explain: Option<String>,
    pub fix: Option<String>,
}

/// Whether `e` is a primary-style error-level diagnostic, the kind that an
/// [`ErrorManager`] counts against its limit.
pub open spec fn counts_against_limit(e: Error) -> bool {
    e.style == Style::Primary && e.level == Level::Error
}

/// The number of diagnostics in `errors` that count against the limit.
pub open spec fn primary_errors(errors: Seq<Error>) -> nat
    decreases errors.len(),
{
    if errors.len() == 0 {
        0
    } else {
        primary_errors(errors.drop_last()) + if counts_against_limit(errors.last()) {
            1nat
        } else {
            0nat
        }
    }
}

/// An interface for fluently constructing errors.
pub struct ErrorBuilder {
    error: Error,
}

impl ErrorBuilder {
    /// The error under construction.
    pub closed spec fn view(&self) -> Error {
        self.error
    }

    /// Constructs a new error builder: a primary error with the default code,
    /// no location, an empty message, no explanation and no fix.
    pub fn new() -> (result: Self)
        ensures
            result@.style == Style::Primary,
            result@.level == Level::Error,
            result@.code == ErrorCode::WompWomp,
            result@.span is None,
            result@.message@ == Seq::<char>::empty(),
            result@.explain is None,
            result@.fix is None,
    {
        ErrorBuilder {
            error: Error {
                style: Style::Primary,
                level: Level::Error,
                code: ErrorCode::WompWomp,
                span: None,
                message: String::new(),
                explain: None,
                fix: None,
            },
        }
    }

    /// Uses the display style `style`.
    pub fn of_style(self, style: Style) -> (result: Self)
        ensures
            result@ == (Error { style, ..self@ }),
    {
        let mut result = self;
        result.error.style = style;
        result
    }

    /// Uses the severity level `level`.
    pub fn at_level(self, level: Level) -> (result: Self)
        ensures
            result@ == (Error { level, ..self@ }),
    {
        let mut result = self;
        result.error.level = level;
        result
    }

    /// Uses the error code `code`.
    pub fn with_code(self, code: ErrorCode) -> (result: Self)
        ensures
            result@ == (Error { code, ..self@ }),
    {
        let mut result = self;
        result.error.code = code;
        result
    }

    /// Locates the error at `span`.
    pub fn span(self, span: Span) -> (result: Self)
        ensures
            result@ == (Error { span: Some(span), ..self@ }),
    {
        let mut result = self;
        result.error.span = Some(span);
        result
    }

    /// Identifies the error as having no location.
    pub fn without_loc(self) -> (result: Self)
        ensures
            result@ == (Error { span: None, ..self@ }),
    {
        let mut result = self;
        result.error.span = None;
        result
    }

    /// Uses the main error description `message`.
    pub fn message(self, message: String) -> (result: Self)
        ensures
            result@ == (Error { message, ..self@ }),
    {
        let mut result = self;
        result.error.message = message;
        result
    }

    /// Marks this error as without a message and instead continuing a
    /// previous error. The error must already be of secondary style.
    pub fn continues(self) -> (result: Self)
        requires
            self@.style == Style::Secondary,
        ensures
            result@.message@ == "   ..."@,
            result@ == (Error { message: result@.message, ..self@ }),
    {
        let text = "   ...";
        proof {
            reveal_strlit("   ...");
        }
        self.message(text.to_owned())
    }

    /// Uses an explanatory note `explain`.
    pub fn explain(self, explain: String) -> (result: Self)
        ensures
            result@ == (Error { explain: Some(explain), ..self@ }),
    {
        let mut result = self;
        result.error.explain = Some(explain);
        result
    }

    /// Uses a recommendation `fix`.
    pub fn fix(self, fix: String) -> (result: Self)
        ensures
            result@ == (Error { fix: Some(fix), ..self@ }),
    {
        let mut result = self;
        result.error.fix = Some(fix);
        result
    }

    /// Uses the recommendation `fix` if there is one, and none otherwise.
    pub fn maybe_fix(self, fix: Option<String>) -> (result: Self)
        ensures
            result@ == (Error { fix, ..self@ }),
    {
        let mut result = self;
        result.error.fix = fix;
        result
    }

    /// Produces the error.
    pub fn build(self) -> (result: Error)
        ensures
            result == self@,
    {
        self.error
    }
}

/// A shared error manager with an error recording limit.
pub struct ErrorManager {
    max_count: usize,
    primary_count: usize,
    errors: Vec<Error>,
}

impl ErrorManager {
    /// The errors recorded so far, in order.
    pub closed spec fn recorded(&self) -> Seq<Error> {
        self.errors@
    }

    /// The number of primary errors that may be recorded.
    pub closed spec fn limit(&self) -> nat {
        self.max_count as nat
    }

    /// The recorded errors count against the limit without exceeding it.
    pub closed spec fn wf(&self) -> bool {
        &&& self.primary_count == primary_errors(self.errors@)
        &&& self.primary_count <= self.max_count
    }

    /// Constructs an error manager that can record up to `max_count` primary
    /// errors.
    pub fn with_max_count(max_count: usize) -> (result: ErrorManager)
        ensures
            result.wf(),
            result.recorded() == Seq::<Error>::empty(),
            result.limit() == max_count,
    {
        ErrorManager { max_count, primary_count: 0, errors: Vec::new() }
    }

    /// Whether the error manager has recorded an error.
    pub fn has_errors(&self) -> (result: bool)
        ensures
            result == (self.recorded().len() > 0),
    {
        self.errors.len() != 0
    }

    /// Whether the error manager cannot take any further primary errors.
    pub fn is_full(&self) -> (result: bool)
        requires
            self.wf(),
        ensures
            result == (primary_errors(self.recorded()) == self.limit()),
    {
        self.primary_count == self.max_count
    }

    /// Records `error` and returns `true` unless `is_full()`, in which case
    /// nothing is recorded.
    pub fn record(&mut self, error: Error) -> (result: bool)
        requires
            old(self).wf(),
        ensures
            final(self).wf(),
            final(self).limit() == old(self).limit(),
            result == (primary_errors(old(self).recorded()) < old(self).limit()),
            result ==> final(self).recorded() == old(self).recorded().push(error),
            !result ==> final(self).recorded() == old(self).recorded(),
            primary_errors(final(self).recorded()) <= final(self).limit(),
    {
        if self.is_full() {
            false
        } else {
            let counts = match (error.style, error.level) {
                (Style::Primary, Level::Error) => true,
                _ => false,
            };
            let ghost before = self.errors@;
            if counts {
                self.primary_count = self.primary_count + 1;
            }
            self.errors.push(error);
            proof {
                assert(self.errors@.drop_last() == before);
            }
            true
        }
    }

    /// The errors recorded so far.
    pub fn errors(&self) -> (result: &Vec<Error>)
        ensures
            result@ == self.recorded(),
    {
        &self.errors
    }

    /// Clears all recorded errors, after they have been written out.
    pub fn clear(&mut self)
        requires
            old(self).wf(),
        ensures
            final(self).wf(),
            final(self).limit() == old(self).limit(),
            final(self).recorded() == Seq::<Error>::empty(),
    {
        self.errors.clear();
        self.primary_count = 0;
    }
}

} // verus!
