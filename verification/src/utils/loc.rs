use crate::frontend::ast::{i64_text, spec_signed_decimal, text_of};
use crate::frontend::lexer::{chars_to_string, str_chars};
use std::rc::Rc;
use vstd::prelude::*;

verus! {

/// Different sources of text data.
pub enum Source {
    /// `Source::File { name, contents }` is a text file with name `name` and
    /// contents `contents`.
    ///
    /// Invariant: if two [`Source::File`]s have the same `name`, they must
    /// represent the same file. For this reason, it is recommended to use
    /// fully-qualified paths for `name`.
    File { name: String, contents: String },
    Unknown,
}

/// Whether two sources count as the same: two files with one name, or both
/// unknown.
pub open spec fn spec_same_source(a: Source, b: Source) -> bool {
    match (a, b) {
        (Source::Unknown, Source::Unknown) => true,
        (Source::File { name: n1, .. }, Source::File { name: n2, .. }) => n1@ == n2@,
        _ => false,
    }
}

/// The text of a source: the contents of a file, nothing for an unknown one.
pub open spec fn spec_contents(s: Source) -> Seq<char> {
    match s {
        Source::File { contents, .. } => contents@,
        Source::Unknown => Seq::empty(),
    }
}

/// The length in bytes of the UTF-8 encoding of `s`.
pub open spec fn utf8_len(s: String) -> int {
    vstd::utf8::encode_utf8(s@).len() as int
}

/// Shares a source between locations.
#[verifier::external_body]
pub fn share_source(source: &Rc<Source>) -> (result: Rc<Source>)
    ensures
        result == *source,
{
    Rc::clone(source)
}

impl Source {
    /// A shared file source named `name` holding `contents`.
    pub fn file(name: String, contents: String) -> (result: Rc<Source>)
        ensures
            *result == (Source::File { name, contents }),
    {
        Rc::new(Source::File { name, contents })
    }

    /// `contents(source)` is the string contents of `source`.
    pub fn contents(&self) -> (result: &str)
        ensures
            result@ == spec_contents(*self),
    {
        match self {
            Source::File { name: _, contents } => contents.as_str(),
            Source::Unknown => {
                let empty = "";
                proof {
                    reveal_strlit("");
                }
                empty
            },
        }
    }

    /// Whether `self` and `other` are the same source (see
    /// [`spec_same_source`]).
    pub fn same_as(&self, other: &Source) -> (result: bool)
        ensures
            result == spec_same_source(*self, *other),
    {
        match (self, other) {
            (Source::Unknown, Source::Unknown) => true,
            (Source::File { name, contents: _ }, Source::File { name: other_name, contents: _ }) => {
                *name == *other_name
            },
            _ => false,
        }
    }
}

/// `Loc(line, col, pos, source)` is a location referring to line `line` and
/// column `col` of `source`, where the combination of `line` and `col` produces
/// a direct offset `pos`.
pub struct Loc {
    pub line: isize,
    pub col: isize,
    pub pos: isize,
    pub source: Rc<Source>,
}

/// `a` comes no later than `b`: both lie in the same source and `a` is at
/// an offset no greater than `b`'s.
pub open spec fn loc_le(a: Loc, b: Loc) -> bool {
    spec_same_source(*a.source, *b.source) && a.pos <= b.pos
}

impl Loc {
    /// The invalid location: line, column and offset zero in an unknown
    /// source.
    pub fn make_invalid() -> (result: Self)
        ensures
            result.line == 0 && result.col == 0 && result.pos == 0,
            *result.source == Source::Unknown,
    {
        Loc { line: 0, col: 0, pos: 0, source: Rc::new(Source::Unknown) }
    }

    /// Whether this location has the line, column and offset of
    /// [`Loc::make_invalid`].
    pub fn is_invalid(&self) -> (result: bool)
        ensures
            result == (self.line == 0 && self.col == 0 && self.pos == 0),
    {
        let invalid = Loc::make_invalid();
        self.line == invalid.line && self.col == invalid.col && self.pos == invalid.pos
    }

    /// The first character of an unknown source.
    pub fn default_loc() -> (result: Self)
        ensures
            result.line == 1 && result.col == 1 && result.pos == 0,
            *result.source == Source::Unknown,
    {
        Loc { line: 1, col: 1, pos: 0, source: Rc::new(Source::Unknown) }
    }

    /// A copy of this location.
    pub fn duplicate(&self) -> (result: Self)
        ensures
            result == *self,
    {
        Loc { line: self.line, col: self.col, pos: self.pos, source: share_source(&self.source) }
    }

    /// Whether this location comes no later than `other` (see [`loc_le`]).
    pub fn le(&self, other: &Loc) -> (result: bool)
        ensures
            result == loc_le(*self, *other),
    {
        self.source.same_as(&other.source) && self.pos <= other.pos
    }
}

/// The location enclosed by a span begins at `start` and ends exclusively
/// at `end`. Both locations come from the same source and `end` does not
/// precede `start`; [`Span::new`] enforces this.
pub struct Span {
    /// An inclusive lower bound on the span enclosed.
    pub start: Loc,
    /// An exclusive upper bound on the span enclosed.
    pub end: Loc,
}

/// The line section with `start` and `end` represents the characters at
/// positions from lower bound `start` to exclusive upper bound `end` on a line,
/// with `start <= end`.
pub struct LineSpan {
    /// The initial position on the line.
    pub start: isize,
    /// One after the final position contained by this line section.
    pub end: isize,
}

impl LineSpan {
    pub fn new(start: isize, end: isize) -> (result: Self)
        requires
            start <= end,
        ensures
            result.start == start && result.end == end,
    {
        LineSpan { start, end }
    }

    /// The number of positions in the section.
    pub fn length(&self) -> (result: usize)
        requires
            self.start <= self.end,
            self.end - self.start <= isize::MAX,
        ensures
            result == self.end - self.start,
    {
        (self.end - self.start) as usize
    }
}

/// The section of the line numbered `actual_line` (of length `len`) that
/// `span` covers, if it covers any of it.
pub open spec fn line_section(span: Span, actual_line: int, len: int) -> Option<(int, int)> {
    if span.start.line <= actual_line && actual_line <= span.end.line {
        let s = if actual_line == span.start.line {
            span.start.col - 1
        } else {
            0
        };
        let e = if actual_line == span.end.line {
            span.end.col - 1
        } else {
            len
        };
        Some((s, e))
    } else {
        None
    }
}

/// The sections that `span` covers of the lines numbered from `start_line`
/// on, whose lengths are `lens`, in line order.
pub open spec fn sections(span: Span, lens: Seq<int>, start_line: int) -> Seq<(int, int)>
    decreases lens.len(),
{
    if lens.len() == 0 {
        Seq::empty()
    } else {
        let rest = sections(span, lens.drop_last(), start_line);
        match line_section(span, start_line + lens.len() - 1, lens.last()) {
            Some(section) => rest.push(section),
            None => rest,
        }
    }
}

impl Span {
    /// A span from `start` up to (but not including) `end`.
    pub fn new(start: Loc, end: Loc) -> (result: Span)
        requires
            loc_le(start, end),
        ensures
            result.start == start && result.end == end,
    {
        Span { start, end }
    }

    /// A span at `start` of length 1.
    pub fn unit(start: Loc) -> (result: Span)
        requires
            start.pos < isize::MAX,
            start.col < isize::MAX,
        ensures
            result.start == start,
            result.end.pos == start.pos + 1,
            result.end.col == start.col + 1,
            result.end.line == start.line,
            result.end.source == start.source,
    {
        let mut end = start.duplicate();
        end.pos = end.pos + 1;
        end.col = end.col + 1;
        Span::new(start, end)
    }

    /// The source where this span occurs.
    pub fn source(&self) -> (result: Rc<Source>)
        ensures
            result == self.start.source,
    {
        share_source(&self.start.source)
    }

    pub fn start_line(&self) -> (result: isize)
        ensures
            result == self.start.line,
    {
        self.start.line
    }

    pub fn end_line(&self) -> (result: isize)
        ensures
            result == self.end.line,
    {
        self.end.line
    }

    /// Extends this span up to the end of `other`, which may begin before
    /// this span does; the result still runs from this span's start.
    pub fn extend(self, other: Span) -> (result: Span)
        requires
            loc_le(self.start, other.end),
        ensures
            result.start == self.start && result.end == other.end,
    {
        Span::new(self.start, other.end)
    }

    /// Given a set of complete `lines` from the same source and the line
    /// number of the first line in `lines`, `start_line`, computes the
    /// intersection of this span and the given lines: one section per line
    /// that the span touches, in order.
    pub fn find_intersection(&self, lines: &Vec<String>, start_line: isize) -> (result: Vec<LineSpan>)
        requires
            lines@.len() <= isize::MAX,
            start_line + lines@.len() <= isize::MAX,
            self.start.col >= isize::MIN + 1,
            self.end.col >= isize::MIN + 1,
            forall|i: int|
                0 <= i < lines@.len() ==> utf8_len(#[trigger] lines@[i]) <= isize::MAX,
            forall|i: int|
                0 <= i < lines@.len() ==> match line_section(
                    *self,
                    start_line + i,
                    utf8_len(#[trigger] lines@[i]) as int,
                ) {
                    Some((s, e)) => s <= e,
                    None => true,
                },
        ensures
            result@.len() == sections(
                *self,
                Seq::new(lines@.len(), |i: int| utf8_len(lines@[i]) as int),
                start_line as int,
            ).len(),
            forall|k: int|
                0 <= k < result@.len() ==> (#[trigger] result@[k]).start == sections(
                    *self,
                    Seq::new(lines@.len(), |i: int| utf8_len(lines@[i]) as int),
                    start_line as int,
                )[k].0 && result@[k].end == sections(
                    *self,
                    Seq::new(lines@.len(), |i: int| utf8_len(lines@[i]) as int),
                    start_line as int,
                )[k].1,
    {
        let ghost lens = Seq::new(lines@.len(), |i: int| utf8_len(lines@[i]) as int);
        let mut result: Vec<LineSpan> = Vec::new();
        let n = lines.len();
        let mut i: usize = 0;
        while i < n
            invariant
                0 <= i <= n,
                n == lines@.len(),
                start_line + n <= isize::MAX,
                n <= isize::MAX,
                lens == Seq::new(lines@.len(), |i: int| utf8_len(lines@[i]) as int),
                self.start.col >= isize::MIN + 1,
                self.end.col >= isize::MIN + 1,
                forall|i: int|
                    0 <= i < lines@.len() ==> utf8_len(#[trigger] lines@[i]) <= isize::MAX,
                forall|i: int|
                    0 <= i < lines@.len() ==> match line_section(
                        *self,
                        start_line + i,
                        utf8_len(#[trigger] lines@[i]) as int,
                    ) {
                        Some((s, e)) => s <= e,
                        None => true,
                    },
                result@.len() == sections(*self, lens.subrange(0, i as int), start_line as int).len(),
                forall|k: int|
                    0 <= k < result@.len() ==> (#[trigger] result@[k]).start == sections(
                        *self,
                        lens.subrange(0, i as int),
                        start_line as int,
                    )[k].0 && result@[k].end == sections(
                        *self,
                        lens.subrange(0, i as int),
                        start_line as int,
                    )[k].1,
            decreases n - i,
        {
            let actual_line = start_line + (i as isize);
            let line_len = lines[i].as_str().len();
            proof {
                assert(line_len == utf8_len(lines@[i as int]));
                assert(lens[i as int] == line_len as int);
                assert(lens.subrange(0, i + 1).drop_last() =~= lens.subrange(0, i as int));
                assert(lens.subrange(0, i + 1).last() == line_len as int);
            }
            if actual_line >= self.start_line() && actual_line <= self.end_line() {
                let mut start_pos: isize = 0;
                let mut end_pos: isize = line_len as isize;
                if actual_line == self.start_line() {
                    start_pos = self.start.col - 1;
                }
                if actual_line == self.end_line() {
                    end_pos = self.end.col - 1;
                }
                proof {
                    assert(line_section(*self, start_line + i, utf8_len(lines@[i as int]) as int)
                        == Some((start_pos as int, end_pos as int)));
                }
                result.push(LineSpan::new(start_pos, end_pos));
            } else {
                proof {
                    assert(line_section(*self, start_line + i, utf8_len(lines@[i as int]) as int)
                        is None);
                }
            }
            i = i + 1;
        }
        proof {
            assert(lens.subrange(0, n as int) =~= lens);
        }
        result
    }
}

/// The position of the first newline of `text` from `from` on, or the
/// length of `text` when there is none.
pub open spec fn first_newline(text: Seq<char>, from: int) -> int
    decreases text.len() - from,
{
    if from < 0 || from >= text.len() || text[from] == '\n' {
        from
    } else {
        first_newline(text, from + 1)
    }
}

/// The start of the line holding position `pos`: just past the last
/// newline before it, or the start of the text.
pub open spec fn line_start(text: Seq<char>, pos: int) -> int
    decreases pos,
{
    if pos <= 0 || text[pos - 1] == '\n' {
        pos
    } else {
        line_start(text, pos - 1)
    }
}

/// The lines of `text`: the pieces between newlines, where a newline at the
/// very end starts no further line.
pub open spec fn spec_lines(text: Seq<char>) -> Seq<Seq<char>>
    decreases text.len(),
{
    if text.len() == 0 {
        Seq::empty()
    } else {
        proof {
            lemma_first_newline_bounds(text, 0);
        }
        let j = first_newline(text, 0);
        let rest = if j < text.len() {
            text.subrange(j + 1, text.len() as int)
        } else {
            Seq::empty()
        };
        seq![text.subrange(0, j)] + spec_lines(rest)
    }
}

/// The line of `text` holding position `pos`, with up to `before` lines
/// before it and up to `after` lines after it, and the index of that line
/// among them.
pub open spec fn spec_lines_around(text: Seq<char>, pos: int, before: nat, after: nat) -> (
    Seq<Seq<char>>,
    nat,
) {
    let start = line_start(text, pos);
    let end = first_newline(text, start);
    let line = text.subrange(start, end);
    let b = spec_lines(text.subrange(0, start));
    let shown_before = if b.len() > before {
        b.subrange(b.len() - before, b.len() as int)
    } else {
        b
    };
    let a = if end + 1 < text.len() {
        spec_lines(text.subrange(end + 1, text.len() as int))
    } else {
        Seq::empty()
    };
    let shown_after = if a.len() > after {
        a.subrange(0, after as int)
    } else {
        a
    };
    (shown_before + seq![line] + shown_after, shown_before.len())
}

/// The first newline from `from` on lies between `from` and the end.
pub proof fn lemma_first_newline_bounds(text: Seq<char>, from: int)
    requires
        0 <= from <= text.len(),
    ensures
        from <= first_newline(text, from) <= text.len(),
    decreases text.len() - from,
{
    if from < text.len() && text[from] != '\n' {
        lemma_first_newline_bounds(text, from + 1);
    }
}

proof fn lemma_first_newline(text: Seq<char>, from: int, found: int)
    requires
        0 <= from <= found <= text.len(),
        forall|x: int| from <= x < found ==> text[x] != '\n',
        found == text.len() || text[found] == '\n',
    ensures
        first_newline(text, from) == found,
    decreases found - from,
{
    if from < found {
        lemma_first_newline(text, from + 1, found);
    }
}

proof fn lemma_first_newline_sub(text: Seq<char>, lo: int, hi: int, found: int)
    requires
        0 <= lo <= found <= hi <= text.len(),
        forall|x: int| lo <= x < found ==> text[x] != '\n',
        found == hi || text[found] == '\n',
    ensures
        first_newline(text.subrange(lo, hi), 0) == found - lo,
{
    let sub = text.subrange(lo, hi);
    assert forall|x: int| 0 <= x < found - lo implies sub[x] != '\n' by {
        assert(sub[x] == text[lo + x]);
    }
    lemma_first_newline(sub, 0, found - lo);
}

/// The strings of `v`, as character sequences.
pub open spec fn strings_view(v: Seq<String>) -> Seq<Seq<char>> {
    Seq::new(v.len(), |i: int| v[i]@)
}

/// The lines of the characters of `chars` from `from` up to `to` (see
/// [`spec_lines`]).
fn split_lines(chars: &Vec<char>, from: usize, to: usize) -> (result: Vec<String>)
    requires
        from <= to <= chars@.len(),
    ensures
        strings_view(result@) == spec_lines(chars@.subrange(from as int, to as int)),
{
    let mut result: Vec<String> = Vec::new();
    let mut pos = from;
    proof {
        assert(strings_view(result@) =~= Seq::<Seq<char>>::empty());
        assert(Seq::<Seq<char>>::empty() + spec_lines(chars@.subrange(from as int, to as int))
            =~= spec_lines(chars@.subrange(from as int, to as int)));
    }
    while pos < to
        invariant
            from <= pos <= to <= chars@.len(),
            strings_view(result@) + spec_lines(chars@.subrange(pos as int, to as int)) == spec_lines(
                chars@.subrange(from as int, to as int),
            ),
        decreases to - pos,
    {
        let mut j = pos;
        while j < to && chars[j] != '\n'
            invariant
                pos <= j <= to <= chars@.len(),
                forall|x: int| pos <= x < j ==> chars@[x] != '\n',
            decreases to - j,
        {
            j = j + 1;
        }
        let line = chars_to_string(chars, pos, j);
        let ghost before = strings_view(result@);
        result.push(line);
        let next = if j < to {
            j + 1
        } else {
            to
        };
        proof {
            let sub = chars@.subrange(pos as int, to as int);
            lemma_first_newline_sub(chars@, pos as int, to as int, j as int);
            let k = j - pos;
            assert(sub.subrange(0, k) =~= chars@.subrange(pos as int, j as int));
            if j < to {
                assert(sub.subrange(k + 1, sub.len() as int) =~= chars@.subrange(
                    next as int,
                    to as int,
                ));
            } else {
                assert(chars@.subrange(next as int, to as int) =~= Seq::<char>::empty());
            }
            assert(spec_lines(sub) == seq![line@] + spec_lines(
                chars@.subrange(next as int, to as int),
            ));
            assert(strings_view(result@) =~= before.push(line@));
            assert(strings_view(result@) + spec_lines(chars@.subrange(next as int, to as int))
                =~= before + spec_lines(sub));
        }
        pos = next;
    }
    proof {
        assert(chars@.subrange(pos as int, to as int) =~= Seq::<char>::empty());
        assert(strings_view(result@) + Seq::<Seq<char>>::empty() =~= strings_view(result@));
    }
    result
}

impl Source {
    /// The line holding position `pos` of the text, with up to `before`
    /// lines before it and up to `after` lines after it, and the index of
    /// that line among them (see [`spec_lines_around`]); nothing for an
    /// unknown source.
    pub fn lines(&self, pos: usize, before: usize, after: usize) -> (result: (Vec<String>, usize))
        requires
            self is File ==> pos < spec_contents(*self).len(),
        ensures
            self is File ==> (strings_view(result.0@), result.1 as nat) == spec_lines_around(
                spec_contents(*self),
                pos as int,
                before as nat,
                after as nat,
            ),
            self is Unknown ==> result.0@.len() == 0 && result.1 == 0,
    {
        match self {
            Source::Unknown => (Vec::new(), 0),
            Source::File { name: _, contents } => {
                let chars = str_chars(contents.as_str());
                let ghost text = chars@;
                let mut start = pos;
                while start > 0 && chars[start - 1] != '\n'
                    invariant
                        0 <= start <= pos < chars@.len(),
                        text == chars@,
                        line_start(text, pos as int) == line_start(text, start as int),
                    decreases start,
                {
                    start = start - 1;
                }
                let mut end = start;
                while end < chars.len() && chars[end] != '\n'
                    invariant
                        start <= end <= chars@.len(),
                        text == chars@,
                        forall|x: int| start <= x < end ==> text[x] != '\n',
                    decreases chars@.len() - end,
                {
                    end = end + 1;
                }
                proof {
                    lemma_first_newline(text, start as int, end as int);
                }
                let line = chars_to_string(&chars, start, end);
                let all_before = split_lines(&chars, 0, start);
                let mut lines: Vec<String> = Vec::new();
                let skip = if all_before.len() > before {
                    all_before.len() - before
                } else {
                    0
                };
                let mut k = skip;
                while k < all_before.len()
                    invariant
                        skip <= k <= all_before@.len(),
                        strings_view(lines@) == strings_view(all_before@).subrange(
                            skip as int,
                            k as int,
                        ),
                    decreases all_before@.len() - k,
                {
                    let piece = all_before[k].clone();
                    let ghost prev = lines@;
                    lines.push(piece);
                    proof {
                        assert(piece@ == all_before@[k as int]@);
                        assert(lines@ == prev.push(piece));
                        assert(strings_view(lines@) =~= strings_view(prev).push(piece@));
                        assert(strings_view(lines@) =~= strings_view(all_before@).subrange(
                            skip as int,
                            k + 1,
                        ));
                    }
                    k = k + 1;
                }
                let current = lines.len();
                lines.push(line);
                let ghost with_line = strings_view(lines@);
                let all_after = if end < chars.len() && end + 1 < chars.len() {
                    split_lines(&chars, end + 1, chars.len())
                } else {
                    Vec::new()
                };
                let take = if all_after.len() > after {
                    after
                } else {
                    all_after.len()
                };
                let mut k: usize = 0;
                while k < take
                    invariant
                        0 <= k <= take <= all_after@.len(),
                        strings_view(lines@) == with_line + strings_view(all_after@).subrange(
                            0,
                            k as int,
                        ),
                    decreases take - k,
                {
                    let piece = all_after[k].clone();
                    let ghost prev = lines@;
                    lines.push(piece);
                    proof {
                        assert(piece@ == all_after@[k as int]@);
                        assert(lines@ == prev.push(piece));
                        assert(strings_view(lines@) =~= strings_view(prev).push(piece@));
                        assert(strings_view(lines@) =~= with_line + strings_view(
                            all_after@,
                        ).subrange(0, k + 1));
                    }
                    k = k + 1;
                }
                proof {
                    let b = spec_lines(text.subrange(0, start as int));
                    assert(strings_view(all_before@) == b);
                    if b.len() <= before {
                        assert(b.subrange(0, b.len() as int) =~= b);
                    }
                    if end + 1 < chars.len() {
                        let a = spec_lines(text.subrange(end + 1, text.len() as int));
                        if a.len() <= after {
                            assert(a.subrange(0, a.len() as int) =~= a);
                        }
                    } else {
                        assert(strings_view(all_after@) =~= Seq::<Seq<char>>::empty());
                    }
                    let (expected, index) = spec_lines_around(
                        text,
                        pos as int,
                        before as nat,
                        after as nat,
                    );
                    assert(strings_view(lines@) =~= expected);
                }
                (lines, current)
            },
        }
    }
}

impl Loc {
    /// The line of this location with up to `before` lines before it and up
    /// to `after` lines after it, and the index of this location's line
    /// among them (see [`Source::lines`]).
    pub fn lines(&self, before: usize, after: usize) -> (result: (Vec<String>, usize))
        requires
            0 <= self.pos,
            *self.source is File ==> self.pos < spec_contents(*self.source).len(),
        ensures
            *self.source is File ==> (strings_view(result.0@), result.1 as nat) == spec_lines_around(
                spec_contents(*self.source),
                self.pos as int,
                before as nat,
                after as nat,
            ),
            *self.source is Unknown ==> result.0@.len() == 0 && result.1 == 0,
    {
        self.source.lines(self.pos as usize, before, after)
    }
}


/// How a source is displayed: a file's name, or `<unknown>`.
pub open spec fn spec_source_text(source: Source) -> Seq<char> {
    match source {
        Source::File { name, .. } => name@,
        Source::Unknown => seq!['<', 'u', 'n', 'k', 'n', 'o', 'w', 'n', '>'],
    }
}

impl Source {
    /// How the source is displayed (see [`spec_source_text`]).
    pub fn to_text(&self) -> (result: String)
        ensures
            result@ == spec_source_text(*self),
    {
        match self {
            Source::File { name, .. } => name.clone(),
            Source::Unknown => {
                let text = "<unknown>";
                proof {
                    reveal_strlit("<unknown>");
                    assert(text@ =~= seq!['<', 'u', 'n', 'k', 'n', 'o', 'w', 'n', '>']);
                }
                text_of(text)
            },
        }
    }
}

/// How a location is displayed: its source, line and column, separated by
/// colons.
pub open spec fn spec_loc_text(loc: Loc) -> Seq<char> {
    spec_source_text(*loc.source) + seq![':'] + spec_signed_decimal(loc.line as int) + seq![':']
        + spec_signed_decimal(loc.col as int)
}

impl Loc {
    /// How the location is displayed (see [`spec_loc_text`]).
    pub fn to_text(&self) -> (result: String)
        ensures
            result@ == spec_loc_text(*self),
    {
        let colon = ":";
        proof {
            reveal_strlit(":");
            assert(colon@ =~= seq![':']);
        }
        let mut result = self.source.to_text();
        result.append(colon);
        let line = i64_text(self.line as i64);
        result.append(line.as_str());
        result.append(colon);
        let col = i64_text(self.col as i64);
        result.append(col.as_str());
        result
    }
}

} // verus!
