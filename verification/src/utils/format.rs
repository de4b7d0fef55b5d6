use vstd::prelude::*;

verus! {

/// The text of one level of indentation.
pub open spec fn indent_unit() -> Seq<char> {
    seq![' ', ' ', ' ', ' ']
}

/// `level` copies of [`indent_unit`].
pub open spec fn spec_indent(level: nat) -> Seq<char>
    decreases level,
{
    if level == 0 {
        Seq::empty()
    } else {
        spec_indent((level - 1) as nat) + indent_unit()
    }
}

/// The width of one level of indentation.
pub const INDENT_WIDTH: usize = 4;

/// Indentation for nesting depth `level`: four spaces per level.
pub fn make_indent(level: usize) -> (result: String)
    ensures
        result@ == spec_indent(level as nat),
{
    let mut result = String::new();
    let mut i: usize = 0;
    while i < level
        invariant
            0 <= i <= level,
            result@ == spec_indent(i as nat),
        decreases level - i,
    {
        let unit = "    ";
        proof {
            reveal_strlit("    ");
        }
        result.append(unit);
        proof {
            assert(unit@ =~= indent_unit());
        }
        i = i + 1;
    }
    result
}

/// A line of laid-out text: its nesting depth and its text.
pub type Line = (usize, String);

/// The depths and texts of lines.
pub open spec fn lines_view(lines: Seq<Line>) -> Seq<(nat, Seq<char>)> {
    Seq::new(lines.len(), |i: int| (lines[i].0 as nat, lines[i].1@))
}

/// Appends `line` at `depth` to `out`.
pub fn push_line(out: &mut Vec<Line>, depth: usize, line: String)
    ensures
        lines_view(final(out)@) == lines_view(old(out)@).push((depth as nat, line@)),
{
    let ghost before = out@;
    out.push((depth, line));
    assert(lines_view(out@) =~= lines_view(before).push((depth as nat, line@)));
}

/// Lines joined by newlines, each indented for its depth.
pub open spec fn spec_render(lines: Seq<(nat, Seq<char>)>) -> Seq<char>
    decreases lines.len(),
{
    if lines.len() == 0 {
        Seq::empty()
    } else if lines.len() == 1 {
        spec_indent(lines[0].0) + lines[0].1
    } else {
        spec_render(lines.drop_last()) + seq!['\n'] + spec_indent(lines.last().0) + lines.last().1
    }
}

/// The text of `lines`: each indented for its depth, joined by newlines.
pub fn render_lines(lines: &Vec<Line>) -> (result: String)
    ensures
        result@ == spec_render(lines_view(lines@)),
{
    let mut result = String::new();
    let n = lines.len();
    let mut i: usize = 0;
    proof {
        assert(lines_view(lines@).subrange(0, 0) =~= Seq::<(nat, Seq<char>)>::empty());
    }
    while i < n
        invariant
            0 <= i <= n,
            n == lines@.len(),
            result@ == spec_render(lines_view(lines@).subrange(0, i as int)),
        decreases n - i,
    {
        let newline = "\n";
        proof {
            reveal_strlit("\n");
        }
        if i > 0 {
            result.append(newline);
        }
        let indent = make_indent(lines[i].0);
        result.append(indent.as_str());
        result.append(lines[i].1.as_str());
        proof {
            let all = lines_view(lines@);
            let pre = all.subrange(0, i + 1);
            assert(pre.drop_last() =~= all.subrange(0, i as int));
            assert(pre.last() == (lines@[i as int].0 as nat, lines@[i as int].1@));
            if i == 0 {
                assert(pre[0] == pre.last());
            }
            assert(newline@ =~= seq!['\n']);
        }
        i = i + 1;
    }
    proof {
        assert(lines_view(lines@).subrange(0, n as int) =~= lines_view(lines@));
    }
    result
}

} // verus!
