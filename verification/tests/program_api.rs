use fhe_ir::instruction::{GenericInstruction, Instruction};
use fhe_ir::plaintext::PlaintextData;
use fhe_ir::program::Program;

fn sample() -> Program {
    Program::parse(
        "func(%x, %y) {\n    %z = inner_prod %x, %y, coefficients = [@b, @a]\n    return %z\n}\n@b: [3]\n@a: [1, 2]\n",
    )
    .unwrap()
}

#[test]
fn parse_empty_text_is_error_zero() {
    assert_eq!(<Program>::parse("").unwrap_err(), 0);
    assert_eq!(<Program>::parse("   \n\t\n").unwrap_err(), 0);
}

#[test]
fn parse_bad_header_reports_its_line() {
    assert_eq!(<Program>::parse("\n\nfunc(%x {\n}\n").unwrap_err(), 2);
    assert_eq!(<Program>::parse("fun(%x) {\n}\n").unwrap_err(), 0);
    assert_eq!(<Program>::parse("func(%x,%y) {\n}\n").unwrap_err(), 0);
    assert_eq!(<Program>::parse("func(%x) { x\n}\n").unwrap_err(), 0);
}

#[test]
fn parse_without_closing_brace_is_error_max() {
    assert_eq!(
        <Program>::parse("func(%x) {\n    return %x\n").unwrap_err(),
        usize::MAX
    );
}

#[test]
fn parse_bad_instruction_reports_its_line() {
    let text = "func(%x) {\n\n    %y = add %x\n    return %y\n}\n";
    assert_eq!(<Program>::parse(text).unwrap_err(), 2);
    let text = "func(%x) {\n    %a, %b = add %x, %x\n}\n";
    assert_eq!(<Program>::parse(text).unwrap_err(), 1);
    let text = "func(%x) {\n    %a = return %x\n}\n";
    assert_eq!(<Program>::parse(text).unwrap_err(), 1);
    let text = "func(%x) {\n    %a = mul_int %x, 99999999999999999999\n}\n";
    assert_eq!(<Program>::parse(text).unwrap_err(), 1);
    let text = "func(%x) {\n    %a = inner_prod %x coefficients = [@c]\n}\n";
    assert_eq!(<Program>::parse(text).unwrap_err(), 1);
}

#[test]
fn parse_bad_data_reports_its_line() {
    let text = "func(%x) {\n    return %x\n}\n@c: [1]\n@c: [2]\n";
    assert_eq!(<Program>::parse(text).unwrap_err(), 4);
    let text = "func(%x) {\n    return %x\n}\n@c [1]\n";
    assert_eq!(<Program>::parse(text).unwrap_err(), 3);
    let text = "func(%x) {\n    return %x\n}\n@c: [1,2]\n";
    assert_eq!(<Program>::parse(text).unwrap_err(), 3);
    let text = "func(%x) {\n    return %x\n}\nc: [1]\n";
    assert_eq!(<Program>::parse(text).unwrap_err(), 3);
}

#[test]
fn parse_skips_blank_lines_and_trims() {
    let p: Program =
        Program::parse("\n  func(%x) {  \n\n\t%y = copy %x\r\n  return %y\n  }\n\n  @c: [7]  \n")
            .unwrap();
    assert_eq!(
        p.to_string(),
        "func(%x) {\n    %y = copy %x\n    return %y\n}\n@c: [7]\n"
    );
}

#[test]
fn parse_every_instruction_kind() {
    let text = "func(%a, %b) {\n    %c = add %a, %b\n    %d = add_ptx %c, @p\n    %e = mul %d, %a\n    %f = mul_ptx %e, @p\n    %g = mul_int %f, -9223372036854775808\n    %h = copy %g\n    %i = zero\n    %j, %k = galois %h, exponents = [3, -3]\n    %l = inner_prod %j, %k, coefficients = [@p, @p]\n    %m = inner_prod coefficients = []\n    return %l\n}\n@p: [1, -1]\n";
    let p: Program = Program::parse(text).unwrap();
    assert_eq!(p.to_string(), text);
    assert_eq!(p.check(), Ok(()));
    let insts = p.instructions();
    assert_eq!(insts.len(), 11);
    assert_eq!(
        insts[4],
        Instruction::MulIntCtx {
            out: "%g",
            value: "%f",
            integer: i64::MIN
        }
    );
    assert_eq!(
        insts[9],
        Instruction::InnerProduct {
            out: "%m",
            values: vec![],
            coefficients: vec![]
        }
    );
}

#[test]
fn inputs_and_instructions_give_names() {
    let p = sample();
    assert_eq!(p.inputs(), vec!["%x", "%y"]);
    assert_eq!(
        p.instructions(),
        vec![
            Instruction::InnerProduct {
                out: "%z",
                values: vec!["%x", "%y"],
                coefficients: vec!["@b", "@a"],
            },
            Instruction::Return { val: "%z" },
        ]
    );
}

#[test]
fn plaintext_table_entries_are_sorted_by_name() {
    let p = sample();
    let entries = p.plaintext_table_entries();
    assert_eq!(entries.len(), 2);
    assert_eq!(entries[0].0, "@a");
    assert_eq!(**entries[0].1, vec![1, 2]);
    assert_eq!(entries[1].0, "@b");
    assert_eq!(**entries[1].1, vec![3]);
    assert_eq!(
        p.to_string(),
        "func(%x, %y) {\n    %z = inner_prod %x, %y, coefficients = [@b, @a]\n    return %z\n}\n@a: [1, 2]\n@b: [3]\n"
    );
}

#[test]
fn get_plaintext_data_looks_up_by_name() {
    let p = sample();
    assert_eq!(**p.get_plaintext_data("@a").unwrap(), vec![1, 2]);
    assert_eq!(**p.get_plaintext_data("@b").unwrap(), vec![3]);
    assert!(p.get_plaintext_data("%x").is_none());
    assert!(p.get_plaintext_data("@nothing").is_none());
}

#[test]
fn instructions_with_data_resolve_constants() {
    let p = sample();
    let insts = p.instructions_with_data();
    match &insts[0] {
        GenericInstruction::InnerProduct {
            out,
            values,
            coefficients,
        } => {
            assert_eq!(*out, "%z");
            assert_eq!(values, &vec!["%x", "%y"]);
            assert_eq!(**coefficients[0], vec![3]);
            assert_eq!(**coefficients[1], vec![1, 2]);
        }
        _ => panic!("expected an inner product"),
    }
    assert_eq!(insts[1], GenericInstruction::Return { val: "%z" });
}

#[test]
fn map_plaintexts_keeps_the_rest() {
    let p = sample();
    let text = p.to_string();
    let q = p.map_plaintexts(|d: PlaintextData| {
        let v: Vec<i64> = d.into();
        PlaintextData::from(vec![v.len() as i64])
    });
    assert_eq!(
        q.to_string(),
        text.replace("@a: [1, 2]", "@a: [2]").replace("@b: [3]", "@b: [1]")
    );
    assert_eq!(q.inputs(), vec!["%x", "%y"]);
}

#[test]
fn clone_is_equal_and_writes_the_same_text() {
    let p = sample();
    let q = p.clone();
    assert_eq!(p, q);
    assert_eq!(p.to_string(), q.to_string());
}

#[test]
fn check_reports_the_line_of_the_error() {
    // A parameter that is not a variable, or that occurs twice: line 0.
    let p: Program = Program::parse("func(@x) {\n}\n").unwrap();
    assert_eq!(p.check(), Err(0));
    let p: Program = Program::parse("func(%x, %x) {\n}\n").unwrap();
    assert_eq!(p.check(), Err(0));
    // Instruction i: line 1 + i.
    let p: Program = Program::parse("func(%x) {\n    %y = add %x, %x\n    %z = add %y, %w\n}\n").unwrap();
    assert_eq!(p.check(), Err(2));
    let p: Program = Program::parse("func(%x) {\n    %y = add_ptx %x, @c\n}\n").unwrap();
    assert_eq!(p.check(), Err(1));
    let p: Program = Program::parse("func(%x) {\n    %y = mul_ptx %x, %x\n}\n@x: [1]\n").unwrap();
    assert_eq!(p.check(), Err(1));
    let p: Program = Program::parse("func(%x) {\n    %a, %b = galois %x, exponents = [1]\n}\n").unwrap();
    assert_eq!(p.check(), Err(1));
    let p: Program = Program::parse("func(%x) {\n    %a = galois %x, exponents = []\n}\n").unwrap();
    assert_eq!(p.check(), Err(1));
    let p: Program = Program::parse("func(%x) {\n    @a = zero\n}\n").unwrap();
    assert_eq!(p.check(), Err(1));
    let p: Program = Program::parse(
        "func(%x) {\n    %a = inner_prod %x, coefficients = [@c, @c]\n}\n@c: [1]\n",
    )
    .unwrap();
    assert_eq!(p.check(), Err(1));
    // The j-th constant in order of names: line 2 + n + j, as in the text.
    let p: Program =
        Program::parse("func(%x) {\n    return %x\n}\n@a: [1]\n%b: [2]\n").unwrap();
    assert_eq!(p.check(), Err(3));
    let text = p.to_string();
    assert_eq!(text.lines().nth(3), Some("%b: [2]"));
}

#[test]
fn parse_check_combines_both() {
    assert_eq!(
        <Program>::parse_check("func(%x) {\n    return %y\n}\n").unwrap_err(),
        1
    );
    assert_eq!(<Program>::parse_check("func(%x) {\n").unwrap_err(), usize::MAX);
    assert!(<Program>::parse_check("func(%x) {\n    return %x\n}\n").is_ok());
}

#[test]
fn new_numbers_names_in_order_and_later_entries_win() {
    let p: Program = Program::new(
        &["%x"],
        vec![Instruction::MulPtxCtx {
            out: "%y",
            value: "%x",
            plaintext: "@c",
        }],
        vec![
            ("@c".to_owned(), PlaintextData::from(vec![1])),
            ("@c".to_owned(), PlaintextData::from(vec![2])),
        ],
    );
    assert_eq!(**p.get_plaintext_data("@c").unwrap(), vec![2]);
    assert_eq!(
        p.to_string(),
        "func(%x) {\n    %y = mul_ptx %x, @c\n}\n@c: [2]\n"
    );
}

#[test]
fn new_check_reports_errors() {
    let r: Result<Program, usize> = Program::new_check(
        &["%x"],
        vec![Instruction::Return { val: "%nothing" }],
        Vec::new(),
    );
    assert_eq!(r.unwrap_err(), 1);
    let r: Result<Program, usize> = Program::new_check(
        &["%x"],
        vec![Instruction::Return { val: "%x" }],
        Vec::new(),
    );
    assert!(r.is_ok());
}
