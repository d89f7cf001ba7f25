use calc::analyzer::{analyze_program, AnalyzedProgram, SemanticError};
use calc::machine::{input_value, plan_program, plan_statement, Action, BinOp, Instr};
use calc::parser::{parse_program, Statement};
use calc::symbol_table::{SymbolError, SymbolTable};
use calc::{run_interactive, run_source, RunError};

fn name(s: &str) -> Vec<char> {
    s.chars().collect()
}

fn run_code(code: &[Instr], table: &SymbolTable) -> f64 {
    let mut stack: Vec<f64> = Vec::new();
    for instr in code {
        match instr {
            Instr::Load(i) => stack.push(f64::from_bits(table.get(*i))),
            Instr::Push(t) => stack.push(t.iter().collect::<String>().parse::<f64>().unwrap()),
            Instr::Apply(op) => {
                let r = stack.pop().unwrap();
                let l = stack.pop().unwrap();
                stack.push(match op {
                    BinOp::Add => l + r,
                    BinOp::Subtract => l - r,
                    BinOp::Multiply => l * r,
                    BinOp::Divide => l / r,
                });
            }
        }
    }
    assert_eq!(stack.len(), 1);
    stack[0]
}

/// Executes `prog`, reading input lines from `inputs`, and returns what it prints.
fn execute(table: &mut SymbolTable, prog: &AnalyzedProgram, inputs: &[&str]) -> Vec<f64> {
    let mut out = Vec::new();
    let mut lines = inputs.iter();
    for action in plan_program(prog) {
        match action {
            Action::Nothing => {}
            Action::Read(slot) => {
                let line = lines.next().unwrap();
                let parsed = line.trim().parse::<f64>().ok().map(f64::to_bits);
                table.set(slot, input_value(parsed));
            }
            Action::Print(code) => out.push(run_code(&code, table)),
            Action::Store(slot, code) => {
                let v = run_code(&code, table);
                table.set(slot, v.to_bits());
            }
        }
    }
    out
}

fn run_text(source: &str, inputs: &[&str]) -> Vec<f64> {
    let (mut table, prog) = run_source(source).unwrap();
    execute(&mut table, &prog, inputs)
}

#[test]
fn scenario_a_sum_with_product() {
    assert_eq!(run_text("@a\n@b\n\na := 2\nb := 3\n< a + b * 2", &[]), vec![8.0]);
}

#[test]
fn scenario_b_session_keeps_variables() {
    let mut table = SymbolTable::new();
    let prog = run_interactive(&mut table, "@x\nx := (1 + 2) * 3").unwrap();
    assert!(execute(&mut table, &prog, &[]).is_empty());
    let prog = run_interactive(&mut table, "< x").unwrap();
    assert_eq!(execute(&mut table, &prog, &[]), vec![9.0]);
}

#[test]
fn scenario_c_declared_variable_starts_at_zero() {
    assert_eq!(run_text("@y\n< y", &[]), vec![0.0]);
}

#[test]
fn scenario_d_undeclared_output() {
    match run_source("< z") {
        Err(RunError::Semantic(SemanticError::UndefinedIdentifier(n))) => assert_eq!(n, name("z")),
        other => panic!("unexpected {:?}", other),
    }
}

#[test]
fn scenario_e_duplicate_declaration() {
    match run_source("@v\n@v") {
        Err(RunError::Semantic(SemanticError::DuplicateDeclaration(n))) => {
            assert_eq!(n, name("v"))
        }
        other => panic!("unexpected {:?}", other),
    }
    let mut table = SymbolTable::new();
    let (_, prog) = parse_program("@v\n@v");
    assert!(analyze_program(&mut table, &prog).is_err());
    assert_eq!(table.len(), 1);
    assert_eq!(table.name_at(0), &name("v"));
}

#[test]
fn scenario_f_non_numeric_input_stores_zero() {
    assert_eq!(run_text("@a\na := 5\n> a\n< a", &["hello"]), vec![0.0]);
    assert_eq!(input_value(None), 0);
    assert_eq!(input_value(Some(2.5f64.to_bits())), 2.5f64.to_bits());
}

#[test]
fn input_reads_trimmed_number() {
    assert_eq!(run_text("@a @b\n> a\n> b\n< a + b", &[" 1.5\n", "2"]), vec![3.5]);
}

#[test]
fn declarations_take_slots_in_order() {
    let (table, _) = run_source("@alpha @beta\n@gamma").unwrap();
    assert_eq!(table.len(), 3);
    let mut table = table;
    for (i, n) in ["alpha", "beta", "gamma"].iter().enumerate() {
        assert_eq!(table.index_of_symbol(&name(n)), Ok(i));
        assert_eq!(table.get(i), 0);
    }
    assert_eq!(table.insert_symbol(&name("delta")), Ok(3));
}

#[test]
fn undefined_input_target() {
    match run_source("@a\n> b") {
        Err(RunError::Semantic(SemanticError::UndefinedIdentifier(n))) => assert_eq!(n, name("b")),
        other => panic!("unexpected {:?}", other),
    }
}

#[test]
fn undefined_assignment_target() {
    match run_source("@a\nb := a") {
        Err(RunError::Semantic(SemanticError::UndefinedIdentifier(n))) => assert_eq!(n, name("b")),
        other => panic!("unexpected {:?}", other),
    }
}

#[test]
fn undefined_name_nested_in_expression() {
    match run_source("@a\na := 1 + (2 * (a - q)) / w") {
        Err(RunError::Semantic(SemanticError::UndefinedIdentifier(n))) => assert_eq!(n, name("q")),
        other => panic!("unexpected {:?}", other),
    }
}

#[test]
fn use_before_declaration_fails() {
    match run_source("< a\n@a") {
        Err(RunError::Semantic(SemanticError::UndefinedIdentifier(n))) => assert_eq!(n, name("a")),
        other => panic!("unexpected {:?}", other),
    }
}

#[test]
fn subtraction_and_division_fold_left() {
    assert_eq!(run_text("< 1 - 2 - 3", &[]), vec![-4.0]);
    assert_eq!(run_text("< 8 / 4 / 2", &[]), vec![1.0]);
    assert_eq!(run_text("< 2 + 3 * 4", &[]), vec![14.0]);
    assert_eq!(run_text("< (2 + 3) * 4", &[]), vec![20.0]);
    assert_eq!(run_text("< 10 - 4 / 2 * 3 + 1", &[]), vec![5.0]);
    assert_eq!(run_text("<((1))", &[]), vec![1.0]);
}

#[test]
fn division_by_zero_gives_infinity() {
    let out = run_text("< 1 / 0\n< 0 / 0", &[]);
    assert!(out[0].is_infinite() && out[0] > 0.0);
    assert!(out[1].is_nan());
}

#[test]
fn literal_forms() {
    assert_eq!(
        run_text("< 1.5e2\n< .5\n< -3\n< 2.\n< 1E-1\n< +4", &[]),
        vec![150.0, 0.5, -3.0, 2.0, 0.1, 4.0]
    );
}

#[test]
fn output_twice_gives_same_value() {
    let (mut table, prog) = run_source("@a\na := 7 / 2\n< a * a\n< a * a").unwrap();
    let out = execute(&mut table, &prog, &[]);
    assert_eq!(out, vec![12.25, 12.25]);
}

#[test]
fn declaration_does_nothing_at_run_time() {
    let (mut table, prog) = run_source("@a\n< a\na := 4\n< a").unwrap();
    assert_eq!(execute(&mut table, &prog, &[]), vec![0.0, 4.0]);
    assert!(matches!(plan_statement(&prog[0]), Action::Nothing));
    assert_eq!(execute(&mut table, &prog, &[]), vec![4.0, 4.0]);
}

#[test]
fn trailing_text_is_a_parse_failure() {
    match run_source("@a\n$ a") {
        Err(RunError::Parse(rest)) => assert_eq!(rest, name("\n$ a")),
        other => panic!("unexpected {:?}", other),
    }
    assert!(run_source("@a\n< a +").is_err());
    assert!(run_source("@a\n< a\n\n  \t").is_ok());
}

#[test]
fn parser_stops_at_first_unmatched_statement() {
    let (rest, prog) = parse_program("@a > a < a + 1 a := 2 ?? < a");
    assert_eq!(prog.len(), 4);
    assert!(matches!(prog[0], Statement::Declaration(_)));
    assert!(matches!(prog[1], Statement::Input(_)));
    assert!(matches!(prog[2], Statement::Output(_)));
    assert!(matches!(prog[3], Statement::Assignment(_, _)));
    assert_eq!(rest, name(" ?? < a"));
}

#[test]
fn parse_of_empty_text() {
    let (rest, prog) = parse_program("");
    assert!(rest.is_empty() && prog.is_empty());
}

#[test]
fn failed_turn_leaves_session_unchanged() {
    let mut table = SymbolTable::new();
    run_interactive(&mut table, "@a").unwrap();
    assert!(run_interactive(&mut table, "@b\n< zz").is_err());
    assert_eq!(table.len(), 1);
    assert!(table.index_of_symbol(&name("b")).is_err());
    assert!(matches!(run_interactive(&mut table, "@a"), Err(RunError::Semantic(_))));
    assert!(matches!(run_interactive(&mut table, "a :="), Err(RunError::Parse(_))));
    assert_eq!(table.len(), 1);
}

#[test]
fn two_statements_in_one_turn() {
    let mut table = SymbolTable::new();
    let prog = run_interactive(&mut table, "@p @q").unwrap();
    assert_eq!(prog.len(), 2);
    assert_eq!(table.len(), 2);
}

#[test]
fn symbol_table_operations() {
    let mut t = SymbolTable::new();
    assert_eq!(t.insert_symbol(&name("x")), Ok(0));
    assert_eq!(t.insert_symbol(&name("x")), Err(SymbolError::AlreadyDeclared));
    assert_eq!(t.index_of_symbol(&name("y")), Err(SymbolError::Undefined));
    t.set(0, 3.0f64.to_bits());
    assert_eq!(f64::from_bits(t.get(0)), 3.0);
    assert_eq!(t.insert_symbol(&name("y")), Ok(1));
    t.truncate(1);
    assert_eq!(t.len(), 1);
    assert_eq!(t.name_at(0), &name("x"));
}

fn first_literal(text: &str) -> Option<String> {
    let (_, prog) = parse_program(&format!("<{}", text));
    match prog.first() {
        Some(Statement::Output(((calc::parser::Factor::Literal(t), _), _))) => {
            Some(t.iter().collect())
        }
        _ => None,
    }
}

#[test]
fn float_literals_agree_with_nom() {
    let samples = [
        "1", "12.5", "3.", ".25", "-7", "+4.5e-3", "6E2", "1.2.3", "007", "2e10x", "-.5",
        ".", "-", "+.", "e5", ".e1", "abc", "9 * 2",
    ];
    for sample in samples.iter() {
        let ours = first_literal(sample);
        match nom::number::complete::recognize_float::<&str, nom::error::Error<&str>>(sample) {
            Ok((_, lit)) => assert_eq!(ours.as_deref(), Some(lit), "sample {:?}", sample),
            Err(_) => assert_eq!(ours, None, "sample {:?}", sample),
        }
    }
}

#[test]
fn dangling_exponent_is_not_part_of_literal() {
    let (rest, prog) = parse_program("< 5e+");
    assert_eq!(prog.len(), 1);
    assert_eq!(first_literal("5e+"), Some("5".to_string()));
    assert_eq!(rest, name("e+"));
}

#[test]
fn interactive_turn_must_consume_everything() {
    let mut table = SymbolTable::new();
    match run_interactive(&mut table, "@a ") {
        Err(RunError::Parse(rest)) => assert_eq!(rest, name(" ")),
        other => panic!("unexpected {:?}", other),
    }
    assert_eq!(table.len(), 0);
    match run_interactive(&mut table, "x = 1") {
        Err(RunError::Parse(rest)) => assert_eq!(rest, name("x = 1")),
        other => panic!("unexpected {:?}", other),
    }
    assert!(run_source("@a ").is_ok());
}
