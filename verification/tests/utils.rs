use pulsar::utils::disjoint_sets::DisjointSets;
use pulsar::utils::environment::Environment;
use pulsar::frontend::token::{Token, TokenType};
use pulsar::utils::error::{
    create_error_pointer, zero_padded, ErrorBuilder, ErrorCode, ErrorManager, Level, Style,
};
use pulsar::utils::format::{make_indent, render_lines};
use pulsar::utils::id::Gen;
use pulsar::utils::loc::{Loc, Source, Span};

#[test]
fn disjoint_sets_merge_into_the_second_representative() {
    let mut sets = DisjointSets::new();
    sets.add(1);
    sets.add(2);
    sets.add(3);
    assert_eq!(sets.find(1), Some(1));
    assert_eq!(sets.union(1, 2, false), Some(2));
    assert_eq!(sets.find(1), Some(2));
    assert_eq!(sets.find(2), Some(2));
    assert_eq!(sets.find(3), Some(3));
    assert_eq!(sets.union(3, 1, false), Some(2));
    assert_eq!(sets.find(3), Some(2));
}

#[test]
fn disjoint_sets_refuse_unknown_nodes() {
    let mut sets = DisjointSets::new();
    sets.add(1);
    assert_eq!(sets.find(9), None);
    assert_eq!(sets.union(1, 9, true), None);
    assert_eq!(sets.find(1), Some(1));
}

#[test]
fn disjoint_sets_by_rank_keep_the_deeper_root() {
    let mut sets = DisjointSets::new();
    for v in 0..4 {
        sets.add(v);
    }
    assert_eq!(sets.union(0, 1, true), Some(1));
    assert_eq!(sets.union(1, 2, true), Some(1));
    assert_eq!(sets.union(3, 2, true), Some(1));
    for v in 0..4 {
        assert_eq!(sets.find(v), Some(1));
    }
}

#[test]
fn disjoint_sets_adding_twice_changes_nothing() {
    let mut sets = DisjointSets::new();
    sets.add(5);
    sets.add(6);
    sets.union(5, 6, false);
    sets.add(5);
    assert_eq!(sets.find(5), Some(6));
}

#[test]
fn collapse_points_every_node_at_its_representative() {
    let mut sets = DisjointSets::new();
    for v in 0..5 {
        sets.add(v);
    }
    sets.union(0, 1, false);
    sets.union(1, 2, false);
    sets.union(2, 3, false);
    sets.collapse();
    let pairs = sets.pairs();
    assert_eq!(pairs, vec![(0, 3), (1, 3), (2, 3), (3, 3), (4, 4)]);
}

#[test]
fn environment_scopes_shadow_and_restore() {
    let mut env: Environment<i32> = Environment::new();
    assert_eq!(env.bind("x".to_string(), 1), None);
    assert_eq!(env.find(&"x".to_string()), Some(&1));
    env.push();
    assert_eq!(env.find(&"x".to_string()), Some(&1));
    assert_eq!(env.bind("x".to_string(), 2), None);
    assert_eq!(env.find(&"x".to_string()), Some(&2));
    assert!(env.pop());
    assert_eq!(env.find(&"x".to_string()), Some(&1));
    assert!(!env.pop());
    assert_eq!(env.find(&"y".to_string()), None);
}

#[test]
fn environment_rebinding_returns_the_previous_value() {
    let mut env: Environment<i32> = Environment::new();
    env.bind("x".to_string(), 1);
    assert_eq!(env.bind("x".to_string(), 3), Some(1));
    env.push();
    assert_eq!(env.bind_base("y".to_string(), 4), None);
    assert_eq!(env.find(&"y".to_string()), Some(&4));
}

#[test]
fn error_manager_stops_at_its_limit() {
    let mut manager = ErrorManager::with_max_count(1);
    assert!(!manager.has_errors());
    let secondary = ErrorBuilder::new().of_style(Style::Secondary).at_level(Level::Info).build();
    assert!(manager.record(secondary));
    assert!(!manager.is_full());
    let primary = ErrorBuilder::new().with_code(ErrorCode::UnboundName).build();
    assert!(manager.record(primary));
    assert!(manager.is_full());
    let another = ErrorBuilder::new().build();
    assert!(!manager.record(another));
    assert_eq!(manager.errors().len(), 2);
    manager.clear();
    assert!(!manager.has_errors());
}

#[test]
fn error_codes_are_numbered_in_order() {
    assert_eq!(ErrorCode::WompWomp.number(), 0);
    assert_eq!(ErrorCode::UnboundName.number(), 9);
    assert_eq!(ErrorCode::UnificationFailure.number(), 12);
}

#[test]
fn builder_sets_each_part() {
    let error = ErrorBuilder::new()
        .with_code(ErrorCode::MalformedType)
        .message("m".to_string())
        .explain("e".to_string())
        .fix("f".to_string())
        .build();
    assert!(error.code == ErrorCode::MalformedType);
    assert_eq!(error.message, "m");
    assert_eq!(error.explain.as_deref(), Some("e"));
    assert_eq!(error.fix.as_deref(), Some("f"));
    assert!(error.span.is_none());
}

#[test]
fn identifiers_count_up() {
    let mut gen = Gen::new();
    assert!(gen.has_next());
    assert_eq!(gen.next(), 0);
    assert_eq!(gen.next(), 1);
    assert_eq!(gen.next(), 2);
}

#[test]
fn indentation_is_four_spaces_per_level() {
    assert_eq!(make_indent(0), "");
    assert_eq!(make_indent(2), "        ");
}

#[test]
fn lines_around_a_position() {
    let source = pulsar::utils::loc::Source::file("f".to_string(), "ab\ncd\nef\ngh\n".to_string());
    let (lines, current) = source.lines(4, 1, 1);
    assert_eq!(lines, vec!["ab".to_string(), "cd".to_string(), "ef".to_string()]);
    assert_eq!(current, 1);
    let (lines, current) = source.lines(0, 2, 0);
    assert_eq!(lines, vec!["ab".to_string()]);
    assert_eq!(current, 0);
    let (lines, current) = source.lines(10, 5, 5);
    assert_eq!(lines, vec!["ab".to_string(), "cd".to_string(), "ef".to_string(), "gh".to_string()]);
    assert_eq!(current, 3);
}

#[test]
fn unknown_sources_have_no_lines() {
    let (lines, current) = pulsar::utils::loc::Source::Unknown.lines(0, 1, 1);
    assert!(lines.is_empty());
    assert_eq!(current, 0);
}

#[test]
fn rendered_lines_are_indented_by_depth() {
    let lines = vec![(0, "a {".to_string()), (1, "b".to_string()), (2, String::new()), (0, "}".to_string())];
    assert_eq!(render_lines(&lines), "a {\n    b\n        \n}");
    assert_eq!(render_lines(&Vec::new()), "");
}

#[test]
fn headers_name_the_level_and_padded_code() {
    assert_eq!(Level::Error.form_header(ErrorCode::UnboundName), "error[E0009]");
    assert_eq!(Level::Warning.form_header(ErrorCode::UnificationFailure), "warning[W0012]");
    assert_eq!(Level::Info.form_header(ErrorCode::WompWomp), "info[I0000]");
    assert_eq!(Level::Note.word(), "note");
    assert_eq!(zero_padded(7, 4), "0007");
    assert_eq!(zero_padded(12345, 4), "12345");
    assert_eq!(zero_padded(0, 0), "0");
}

#[test]
fn error_pointers_span_the_section() {
    assert_eq!(create_error_pointer(0), "");
    assert_eq!(create_error_pointer(1), "└");
    assert_eq!(create_error_pointer(4), "└───");
}

#[test]
fn locations_show_source_line_and_column() {
    let source = Source::file("main.plsr".to_string(), "let x = 1\n".to_string());
    let loc = Loc { line: 3, col: 14, pos: 20, source };
    assert_eq!(loc.to_text(), "main.plsr:3:14");
    assert_eq!(Loc::make_invalid().to_text(), "<unknown>:0:0");
    let token = Token { ty: TokenType::Newline, value: "\n".to_string(), loc: Loc::default_loc() };
    assert_eq!(token.debug_text(), "(\\n, ty = newline, loc = <unknown>:1:1)");
}

#[test]
fn extending_reaches_the_end_of_a_span_that_began_earlier() {
    let source = Source::file("main.plsr".to_string(), "let x = 1\n".to_string());
    let first = Loc { line: 1, col: 1, pos: 0, source: source.clone() };
    let middle = Loc { line: 1, col: 5, pos: 4, source: source.clone() };
    let end = Loc { line: 1, col: 10, pos: 9, source };
    let this = Span::new(middle.duplicate(), end.duplicate());
    let other = Span::new(first, end);
    let joined = this.extend(other);
    assert_eq!(joined.start.pos, 4);
    assert_eq!(joined.end.pos, 9);
}

#[test]
fn an_unknown_location_has_no_lines() {
    let (lines, index) = Loc::make_invalid().lines(1, 1);
    assert!(lines.is_empty());
    assert_eq!(index, 0);
}

#[test]
fn environment_pop_after_many_binds_restores_every_name() {
    let mut env: Environment<i32> = Environment::new();
    env.bind("x".to_string(), 1);
    env.push();
    env.bind("x".to_string(), 2);
    env.bind("y".to_string(), 3);
    env.bind("z".to_string(), 4);
    env.bind("y".to_string(), 5);
    assert!(env.pop());
    assert_eq!(env.find(&"x".to_string()), Some(&1));
    assert_eq!(env.find(&"y".to_string()), None);
    assert_eq!(env.find(&"z".to_string()), None);
}
