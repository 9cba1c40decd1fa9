use fhe_ir::instruction::{GenericInstruction, Instruction};
use fhe_ir::plaintext::PlaintextData;
use fhe_ir::program::Program;

fn sample_instructions() -> Vec<Instruction<'static>> {
    vec![
        Instruction::MulPtxCtx { out: "%y", value: "%x", plaintext: "@b" },
        Instruction::AddPtxCtx { out: "%z", value: "%y", plaintext: "@a" },
        Instruction::Copy { out: "%x", val: "%z" },
        Instruction::Return { val: "%x" },
    ]
}

#[test]
fn new_gives_back_inputs_instructions_and_data() {
    let p: Program = Program::new(
        &["%x", "%w", "%x"],
        sample_instructions(),
        vec![
            ("@b".to_owned(), PlaintextData::from(vec![1])),
            ("@unused".to_owned(), PlaintextData::from(vec![7])),
            ("@b".to_owned(), PlaintextData::from(vec![2, 3])),
        ],
    );
    assert_eq!(p.inputs(), vec!["%x", "%w", "%x"]);
    assert_eq!(p.instructions(), sample_instructions());
    assert_eq!(**p.get_plaintext_data("@b").unwrap(), vec![2, 3]);
    assert_eq!(**p.get_plaintext_data("@unused").unwrap(), vec![7]);
    assert!(p.get_plaintext_data("@a").is_none());
    assert!(p.get_plaintext_data("%x").is_none());
    assert!(p.get_plaintext_data("@never").is_none());
}

#[test]
fn new_check_and_parse_check_are_two_steps() {
    let table = || {
        vec![
            ("@a".to_owned(), PlaintextData::from(vec![1])),
            ("@b".to_owned(), PlaintextData::from(vec![2])),
        ]
    };
    let p: Program = Program::new(&["%x"], sample_instructions(), table());
    let q: Program = Program::new_check(&["%x"], sample_instructions(), table()).unwrap();
    assert_eq!(p.check(), Ok(()));
    assert_eq!(p, q);
    let bad: Program = Program::new(&["%x"], sample_instructions(), Vec::new());
    let e = bad.check().unwrap_err();
    assert_eq!(
        Program::<PlaintextData>::new_check(&["%x"], sample_instructions(), Vec::new()).unwrap_err(),
        e
    );
    let text = bad.to_string();
    assert_eq!(<Program>::parse(&text).unwrap().check().unwrap_err(), e);
    assert_eq!(<Program>::parse_check(&text).unwrap_err(), e);
    let good = q.to_string();
    assert_eq!(<Program>::parse_check(&good).unwrap(), <Program>::parse(&good).unwrap());
}

#[test]
fn new_with_constants_in_any_order_reads_back() {
    // Every constant is named in an instruction, so the order of the entries
    // does not change the numbering.
    let p: Program = Program::new(
        &["%x"],
        sample_instructions(),
        vec![
            ("@b".to_owned(), PlaintextData::from(vec![5, -6])),
            ("@a".to_owned(), PlaintextData::from(vec![4])),
        ],
    );
    let text = p.to_string();
    assert_eq!(
        text,
        "func(%x) {\n    %y = mul_ptx %x, @b\n    %z = add_ptx %y, @a\n    %x = copy %z\n    return %x\n}\n@a: [4]\n@b: [5, -6]\n"
    );
    assert_eq!(<Program>::parse(&text).unwrap(), p);
}

#[test]
fn text_is_made_of_the_accessors() {
    let p: Program = Program::new(
        &["%x"],
        sample_instructions(),
        vec![
            ("@b".to_owned(), PlaintextData::from(vec![2])),
            ("@a".to_owned(), PlaintextData::from(vec![1])),
        ],
    );
    let mut expected = String::from("func(");
    expected += &p.inputs().join(", ");
    expected += ") {\n";
    for inst in p.instructions() {
        expected += &format!("    {}\n", inst.to_string());
    }
    expected += "}\n";
    for (name, data) in p.plaintext_table_entries() {
        expected += &format!("{}: {}\n", name, data.to_string());
    }
    assert_eq!(p.to_string(), expected);
}

#[test]
fn instructions_with_data_are_instructions_with_data_in_place_of_names() {
    let p: Program = Program::new(
        &["%x"],
        sample_instructions(),
        vec![
            ("@a".to_owned(), PlaintextData::from(vec![1])),
            ("@b".to_owned(), PlaintextData::from(vec![2])),
        ],
    );
    let with_data = p.instructions_with_data();
    let plain = p.instructions();
    assert_eq!(with_data.len(), plain.len());
    for (w, i) in with_data.into_iter().zip(plain.into_iter()) {
        let resolved = i.map_ptx(&|c: &str| p.get_plaintext_data(c).unwrap());
        assert_eq!(w, resolved);
    }
}

#[test]
fn maps_commute_and_identity_keeps_the_instruction() {
    let inst = Instruction::InnerProduct {
        out: "%o",
        values: vec!["%a", "%bb"],
        coefficients: vec!["@p", "@qq"],
    };
    let f = |s: &str| s.len();
    let g = |s: &str| s.to_owned() + "!";
    let one = inst.clone().map_nonptx_identifiers(&f).map_ptx(&g);
    let other = inst.clone().map_ptx(&g).map_nonptx_identifiers(&f);
    assert_eq!(one, other);
    assert_eq!(inst.clone().map_ptx(&|s: &'static str| s), inst);
}

#[test]
fn indices_and_owned_names_are_written() {
    let by_index: GenericInstruction<usize, usize> =
        GenericInstruction::MulPtxCtx { out: 10, value: 0, plaintext: 345 };
    assert_eq!(by_index.to_string(), "10 = mul_ptx 0, 345");
    let galois: GenericInstruction<usize, usize> =
        GenericInstruction::Galois { out: vec![1, 2], val: 0, exponents: vec![3, -5] };
    assert_eq!(galois.to_string(), "1, 2 = galois 0, exponents = [3, -5]");
    let owned: GenericInstruction<String, String> = GenericInstruction::InnerProduct {
        out: "%o".to_owned(),
        values: vec!["%a".to_owned()],
        coefficients: vec!["@c".to_owned()],
    };
    assert_eq!(owned.to_string(), "%o = inner_prod %a, coefficients = [@c]");
}

#[test]
fn instruction_text_reads_back_without_indentation() {
    let text = "%o = inner_prod %a, %b, coefficients = [@c, @d]";
    let p: Program = Program::parse(&format!("func(%a, %b) {{\n{}\n}}\n", text)).unwrap();
    assert_eq!(p.instructions()[0].to_string(), text);
}
