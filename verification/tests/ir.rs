use pulsar::frontend::ast::{Decl, Type, TypeValue};
use pulsar::frontend::attribute::Attributes;
use pulsar::frontend::token::{Token, TokenType};
use pulsar::ir::demangle::{DemangleError, Demangler};
use pulsar::frontend::lexer::Lexer;
use pulsar::frontend::parser::parse_tokens;
use pulsar::ir::cell::Cell;
use pulsar::ir::component::Component;
use pulsar::ir::control::{checked_nesting, Control, ControlBuilder, Par};
use pulsar::ir::from_ast::{ast_to_ir, GenError};
use pulsar::ir::instr::Ir;
use pulsar::ir::label::{Label, Name, Visibility, MAIN_SYMBOL_PREFIX};
use pulsar::ir::memory::{min_bits_to_represent, Memory};
use pulsar::ir::pass::PassRunner;
use pulsar::ir::port::{Operand, Port, Variable};
use pulsar::ir::timing::Timing;
use pulsar::utils::error::ErrorManager;
use pulsar::utils::id::Gen;
use pulsar::utils::loc::{Loc, Source};

fn placeholder_token() -> Token {
    Token { ty: TokenType::Identifier, value: String::new(), loc: Loc::make_invalid() }
}

fn parse(text: &str) -> Vec<Decl> {
    let mut errors = ErrorManager::with_max_count(10);
    let source = Source::file("test.plsr".to_string(), text.to_string());
    let tokens = Lexer::new(source).lex(&mut errors).unwrap();
    parse_tokens(tokens, &mut errors).unwrap()
}

fn generate(text: &str, runner: &PassRunner) -> Result<Vec<Component>, GenError> {
    let program = parse(text);
    let mut var_gen = Gen::new();
    ast_to_ir(&program, runner, &mut var_gen)
}

fn is_var(port: &Port, id: usize) -> bool {
    matches!(port, Port::Variable(v) if v.id == id)
}

fn is_const(port: &Port, value: i64) -> bool {
    matches!(port, Port::Constant(c) if *c == value)
}

const PROGRAM: &str =
    "func main(x: Int64, a: Int64[4]) -> (y: Int64) {\n    let z = x + 1\n    y = z * a[2]\n}\n";

#[test]
fn generates_the_interface_of_a_function() {
    let comps = generate(PROGRAM, &PassRunner { passes: Vec::new() }).ok().unwrap();
    assert_eq!(comps.len(), 1);
    let comp = &comps[0];
    assert_eq!(comp.label.name.unmangled, "main");
    assert_eq!(comp.label.name.mangled, "pulsar_SF4main2qA4Int641q");
    assert!(comp.label.name.mangled.starts_with(MAIN_SYMBOL_PREFIX));
    assert_eq!(comp.inputs.len(), 2);
    assert_eq!(comp.inputs[0].0.id, 0);
    assert!(matches!(comp.inputs[0].1, Cell::Register(64)));
    assert_eq!(comp.inputs[1].0.id, 1);
    match &comp.inputs[1].1 {
        Cell::Memory(memory) => {
            assert_eq!(memory.levels().len(), 1);
            assert_eq!(memory.levels()[0].length, 4);
            assert_eq!(memory.levels()[0].bank, 1);
            assert_eq!(memory.element(), 64);
        }
        _ => panic!("expected a memory"),
    }
    assert_eq!(comp.outputs.len(), 1);
    assert_eq!(comp.outputs[0].0.id, 2);
}

#[test]
fn generates_one_assignment_per_statement() {
    let comps = generate(PROGRAM, &PassRunner { passes: Vec::new() }).ok().unwrap();
    let children = match &comps[0].cfg {
        Control::Par(par) => par.get_children(),
        _ => panic!("expected one step"),
    };
    assert_eq!(children.len(), 4);
    match &children[0] {
        Control::Enable(Ir::Add(result, lhs, rhs)) => {
            assert!(is_var(result, 3));
            assert!(is_var(lhs, 0));
            assert!(is_const(rhs, 1));
        }
        _ => panic!("expected an addition"),
    }
    match &children[1] {
        Control::Enable(Ir::Assign(result, value)) => {
            assert!(is_var(result, 4));
            assert!(is_var(value, 3));
        }
        _ => panic!("expected an assignment"),
    }
    match &children[2] {
        Control::Enable(Ir::Mul(result, lhs, rhs)) => {
            assert!(is_var(result, 5));
            assert!(is_var(lhs, 4));
            match rhs {
                Port::PartialAccess(array, index) => {
                    assert!(is_var(array, 1));
                    assert!(is_const(index, 2));
                }
                _ => panic!("expected a partial access"),
            }
        }
        _ => panic!("expected a multiplication"),
    }
    match &children[3] {
        Control::Enable(Ir::Assign(result, value)) => {
            assert!(is_var(result, 2));
            assert!(is_var(value, 5));
        }
        _ => panic!("expected an assignment"),
    }
}

#[test]
fn dividers_start_new_steps() {
    let comps = generate(
        "func f(x: Int64) -> (y: Int64) {\n    let z = x\n    ---\n    y = z\n}\n",
        &PassRunner { passes: Vec::new() },
    )
    .ok()
    .unwrap();
    match &comps[0].cfg {
        Control::Sequence(seq) => {
            assert_eq!(seq.get_children().len(), 2);
            assert!(matches!(&seq.get_children()[0], Control::Par(p) if p.get_children().len() == 1));
            assert!(matches!(&seq.get_children()[1], Control::Par(p) if p.get_children().len() == 1));
        }
        _ => panic!("expected a sequence of steps"),
    }
}

#[test]
fn array_literals_assign_each_element() {
    let comps = generate(
        "func f() -> (y: Int64[2]) {\n    y = [7, 8]\n}\n",
        &PassRunner { passes: Vec::new() },
    )
    .ok()
    .unwrap();
    let children = match &comps[0].cfg {
        Control::Par(par) => par.get_children(),
        _ => panic!("expected one step"),
    };
    assert_eq!(children.len(), 3);
    match &children[0] {
        Control::Enable(Ir::Assign(Port::PartialAccess(array, index), value)) => {
            assert!(is_var(array, 1));
            assert!(is_const(index, 0));
            assert!(is_const(value, 7));
        }
        _ => panic!("expected an element assignment"),
    }
    match &children[1] {
        Control::Enable(Ir::Assign(Port::PartialAccess(_, index), value)) => {
            assert!(is_const(index, 1));
            assert!(is_const(value, 8));
        }
        _ => panic!("expected an element assignment"),
    }
}

#[test]
fn unsupported_operators_are_refused() {
    let outcome = generate(
        "func f(x: Int64) -> (y: Int64) {\n    y = x - 1\n}\n",
        &PassRunner { passes: Vec::new() },
    );
    assert!(matches!(outcome, Err(GenError::Unsupported)));
    let outcome = generate("func f() {\n    let a = b\n}\n", &PassRunner { passes: Vec::new() });
    assert!(matches!(outcome, Err(GenError::Unsupported)));
}

#[test]
fn variables_are_numbered_across_functions() {
    let program = parse("func f(x: Int64) {\n}\nfunc g(y: Int64) {\n}\n");
    let mut var_gen = Gen::new();
    let comps = ast_to_ir(&program, &PassRunner { passes: Vec::new() }, &mut var_gen).ok().unwrap();
    assert_eq!(comps[0].inputs[0].0.id, 0);
    assert_eq!(comps[1].inputs[0].0.id, 1);
    assert_eq!(var_gen.next(), 2);
}

#[test]
fn core_passes_canonicalize_accesses() {
    let comps = generate(PROGRAM, &PassRunner::core_passes()).ok().unwrap();
    let children = match &comps[0].cfg {
        Control::Par(par) => par.get_children(),
        _ => panic!("expected one step"),
    };
    match &children[2] {
        Control::Enable(Ir::Mul(_, _, Port::Access(var, indices))) => {
            assert_eq!(var.id, 1);
            assert_eq!(indices.len(), 1);
            assert!(is_const(&indices[0], 2));
        }
        _ => panic!("expected a canonical access"),
    }
}

#[test]
fn builder_makes_a_par_for_one_step() {
    let mut builder = ControlBuilder::new();
    builder.push_assign(Port::Variable(Variable::from(1)), Port::Constant(3));
    match builder.take() {
        Control::Par(par) => assert_eq!(par.get_children().len(), 1),
        _ => panic!("expected a par"),
    }
    let empty = Par::new();
    assert_eq!(empty.get_children().len(), 0);
}

#[test]
fn cells_of_nested_arrays() {
    let program = parse("func f(a: Int64[2][3]) {\n}\n");
    let mut var_gen = Gen::new();
    let comps = ast_to_ir(&program, &PassRunner { passes: Vec::new() }, &mut var_gen).ok().unwrap();
    match &comps[0].inputs[0].1 {
        Cell::Memory(memory) => {
            assert_eq!(memory.levels().len(), 2);
            assert_eq!(memory.element(), 64);
            assert_eq!(memory.flattened_length(), 6);
        }
        _ => panic!("expected a memory"),
    }
}

#[test]
fn min_bits_examples() {
    assert_eq!(min_bits_to_represent(0), 0);
    assert_eq!(min_bits_to_represent(1), 0);
    assert_eq!(min_bits_to_represent(2), 1);
    assert_eq!(min_bits_to_represent(5), 3);
    assert_eq!(min_bits_to_represent(8), 3);
    assert_eq!(min_bits_to_represent(9), 4);
}

#[test]
fn memory_flattening() {
    let memory = Memory::new(8, 64, 1);
    assert_eq!(memory.flattened_length(), 8);
    assert_eq!(memory.flattened_address_width(), 3);
}

#[test]
fn timing_composition() {
    let a = Timing::pipelined(1, 4);
    let b = Timing::sequential(2);
    let c = Timing::compose(a, b);
    assert_eq!(c.latency(), 6);
    let m = Timing::max(a, b);
    assert_eq!(m.latency(), 4);
    assert_eq!(Timing::combinational().latency(), 0);
    assert_eq!(b.times(3).latency(), 6);
}

#[test]
fn ports_and_operations_as_text() {
    let access = Port::PartialAccess(
        Box::new(Port::Variable(Variable::from(3))),
        Box::new(Port::Constant(-2)),
    );
    assert_eq!(access.to_text(), "i3[-2]");
    let lowered = Port::LoweredAccess(Variable::from(7));
    assert_eq!(lowered.to_text(), "i7[<generated>]");
    let full = Port::Access(Variable::from(1), vec![Port::Constant(0), Port::Variable(Variable::from(2))]);
    assert_eq!(full.to_text(), "i1[0][i2]");
    let add = Ir::Add(Port::Variable(Variable::from(5)), Port::Variable(Variable::from(0)), Port::Constant(1));
    assert_eq!(add.to_text(), "i5 = i0 + 1");
    let mul = Ir::Mul(Port::Variable(Variable::from(5)), Port::Constant(2), Port::Constant(3));
    assert_eq!(mul.to_text(), "i5 = 2 * 3");
}

#[test]
fn control_is_laid_out_in_nested_lines() {
    let comps = generate(PROGRAM, &PassRunner { passes: Vec::new() }).ok().unwrap();
    let lines = comps[0].cfg.lines(0);
    let texts: Vec<(usize, String)> = lines;
    assert_eq!(
        texts,
        vec![
            (0, "par {".to_string()),
            (1, "i3 = i0 + 1".to_string()),
            (1, "i4 = i3".to_string()),
            (1, "i5 = i4 * i1[2]".to_string()),
            (1, "i2 = i5".to_string()),
            (0, "}".to_string()),
        ]
    );
    let nested = Control::seq(vec![Control::Empty, Control::Delay(3)]);
    assert_eq!(
        nested.lines(1),
        vec![
            (1, "seq {".to_string()),
            (2, String::new()),
            (2, "delay 3".to_string()),
            (1, "}".to_string()),
        ]
    );
}

#[test]
fn timing_of_every_node() {
    let mul = Control::Enable(Ir::Mul(Port::Variable(Variable::from(0)), Port::Constant(1), Port::Constant(2)));
    let add = Control::Enable(Ir::Add(Port::Variable(Variable::from(1)), Port::Constant(1), Port::Constant(2)));
    let tree = Control::seq(vec![mul, Control::Delay(2), add]);
    let analysis = pulsar::ir::timing::TimingAnalysis::for_control(&tree);
    assert_eq!(analysis.timings.len(), 4);
    assert_eq!(analysis.get(0).latency(), 4);
    assert_eq!(analysis.get(0).init_interval(), 1);
    assert_eq!(analysis.get(1).latency(), 2);
    assert_eq!(analysis.get(2).latency(), 0);
    assert_eq!(analysis.get(3).latency(), 6);
}

#[test]
fn nesting_counts_enclosing_blocks() {
    assert_eq!(checked_nesting(&Control::Empty), Some(0));
    assert_eq!(checked_nesting(&Control::Delay(3)), Some(0));
    let nested = Control::seq(vec![Control::Empty, Control::seq(vec![Control::Delay(1)])]);
    assert_eq!(checked_nesting(&nested), Some(2));
}

#[test]
fn demangles_a_native_function() {
    let int64 = Type {
        value: TypeValue::Int64,
        attributes: Attributes::empty(),
        start_token: placeholder_token(),
        end_token: placeholder_token(),
    };
    let unit = Type {
        value: TypeValue::Unit,
        attributes: Attributes::empty(),
        start_token: placeholder_token(),
        end_token: placeholder_token(),
    };
    let name = Name::from_native(&"main".to_string(), &vec![int64.duplicate()], &vec![unit, int64]);
    assert_eq!(name.mangled(), "pulsar_SF4main1q2uq");
    let ty = Demangler::new(name.mangled().clone()).demangle().ok().unwrap();
    assert_eq!(ty.to_text(), "(Int64) -> (Unit, Int64)");
}

#[test]
fn demangles_arrays_and_names() {
    let ty = Demangler::new("pulsar_SF1f1A3Eq0".to_string()).demangle().ok().unwrap();
    assert_eq!(ty.to_text(), "(Int64[3]) -> ()");
    let ty = Demangler::new("pulsar_SF1f1x3foo0".to_string()).demangle().ok().unwrap();
    assert_eq!(ty.to_text(), "(foo) -> ()");
}

#[test]
fn demangling_reports_each_failure() {
    let cases = vec![
        ("pulsar", DemangleError::Eof),
        ("pulse_SF", DemangleError::Mismatch),
        ("pulsar_X", DemangleError::UnknownMangledValue),
        ("pulsar_SG", DemangleError::UnknownSymbol),
        ("pulsar_S", DemangleError::UnknownSymbol),
        ("pulsar_SF", DemangleError::NoNumber),
        ("pulsar_SF4ma", DemangleError::MissingFunctionName),
        ("pulsar_SF1f1A3q", DemangleError::MissingElementType),
        ("pulsar_SF1f1x9ab", DemangleError::MissingName),
        ("pulsar_SF99999999999999999999999", DemangleError::NumberTooLarge),
        ("pulsar_SF4main00", DemangleError::NoNumber),
    ];
    for (text, expected) in cases {
        let result = Demangler::new(text.to_string()).demangle();
        assert!(matches!(result, Err(e) if e == expected), "{}", text);
    }
}

#[test]
fn components_are_laid_out_in_lines() {
    let comps = generate(PROGRAM, &PassRunner { passes: Vec::new() }).ok().unwrap();
    let expected: Vec<(usize, String)> = vec![
        (0, "comp public native main(i0, i1) -> (i2) {"),
        (1, "cells {"),
        (2, "i0 = [0:63]()"),
        (2, "i1 = [4 bank 1][0:63]()"),
        (2, "i2 = [0:63]()"),
        (1, "}"),
        (1, "control {"),
        (2, "par {"),
        (3, "i3 = i0 + 1"),
        (3, "i4 = i3"),
        (3, "i5 = i4 * i1[2]"),
        (3, "i2 = i5"),
        (2, "}"),
        (1, "}"),
        (0, "}"),
    ]
    .into_iter()
    .map(|(d, t)| (d, t.to_string()))
    .collect();
    assert_eq!(comps[0].lines(0), expected);
}

#[test]
fn cells_are_listed_by_variable_number() {
    let label = Label::from(Name::from("f"), Visibility::Private);
    let inputs = vec![(Variable::from(5), Cell::Register(8)), (Variable::from(2), Cell::Register(1))];
    let comp = Component::new(label, inputs, Vec::new(), Control::Empty);
    assert_eq!(
        comp.lines(1),
        vec![
            (1, "comp private f(i5, i2) -> () {".to_string()),
            (2, "cells {".to_string()),
            (3, "i2 = [0:0]()".to_string()),
            (3, "i5 = [0:7]()".to_string()),
            (2, "}".to_string()),
            (2, "control {".to_string()),
            (2, String::new()),
            (2, "}".to_string()),
            (1, "}".to_string()),
        ]
    );
}

#[test]
fn internal_cells_leave_out_the_interface() {
    let label = Label::from(Name::from("f"), Visibility::Private);
    let inputs = vec![(Variable::from(5), Cell::Register(8))];
    let outputs = vec![(Variable::from(2), Cell::Register(1))];
    let mut comp = Component::new(label, inputs, outputs, Control::Empty);
    assert!(comp.internal_cells().is_empty());
    comp.insert_cell(Variable::from(7), Cell::Register(3));
    let internal = comp.internal_cells();
    assert_eq!(internal.len(), 1);
    assert_eq!(internal[0].0.id, 7);
    assert!(matches!(internal[0].1, Cell::Register(3)));
}

#[test]
fn operands_show_constants_and_variables() {
    assert_eq!(Operand::Constant(-12).to_text(), "-12");
    assert_eq!(Operand::Variable(Variable::from(4)).to_text(), "i4");
}

#[test]
fn min_bits_are_the_fewest() {
    for value in [2usize, 3, 4, 5, 8, 9, 1000] {
        let bits = min_bits_to_represent(value);
        assert!(value <= 1usize << bits);
        assert!((1usize << (bits - 1)) < value);
    }
}

#[test]
fn a_new_component_has_no_internal_cells() {
    let label = Label::from(Name::from("g"), Visibility::Public);
    let inputs = vec![(Variable::from(1), Cell::Register(8))];
    let outputs = vec![(Variable::from(2), Cell::Memory(Memory::new(4, 8, 1)))];
    let comp = Component::new(label, inputs, outputs, Control::Empty);
    assert!(comp.internal_cells().is_empty());
}

#[test]
fn default_attributes_are_empty() {
    let attrs = Attributes::default();
    assert!(!attrs.has(pulsar::frontend::attribute::Attribute::Generated));
    assert!(!attrs.has(pulsar::frontend::attribute::Attribute::Kernel));
    assert!(attrs.with(pulsar::frontend::attribute::Attribute::Kernel).has(pulsar::frontend::attribute::Attribute::Kernel));
}
