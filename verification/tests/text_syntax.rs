use std::str::FromStr;

use fhe_ir::instruction::{GenericInstruction, Instruction};
use fhe_ir::plaintext::PlaintextData;
use fhe_ir::program::Program;
use fhe_ir::text::{expect, expect_end, expect_int};

fn chars(s: &str) -> Vec<char> {
    s.chars().collect()
}

#[test]
fn plaintext_text_reads_back() {
    for v in [
        vec![],
        vec![0],
        vec![1, -2, 3],
        vec![i64::MIN, i64::MAX, -1, 10, 100],
    ] {
        let d = PlaintextData::from(v.clone());
        let text = d.to_string();
        assert_eq!(PlaintextData::from_str(&text).unwrap(), d);
        let back: Vec<i64> = PlaintextData::from_str(&text).unwrap().into();
        assert_eq!(back, v);
    }
    assert_eq!(PlaintextData::from(vec![1, -2, 3]).to_string(), "[1, -2, 3]");
    assert_eq!(PlaintextData::from(vec![]).to_string(), "[]");
    assert_eq!(
        PlaintextData::from(vec![i64::MIN]).to_string(),
        "[-9223372036854775808]"
    );
}

#[test]
fn plaintext_from_str_rejects_malformed_text() {
    for bad in [
        "", "[", "]", "[1,2]", "[1, 2", "[1, ]", "[ 1]", "[1] ", " [1]", "[--1]", "[1-]",
        "[9223372036854775808]", "[-9223372036854775809]", "[+1]", "[a]",
    ] {
        assert!(PlaintextData::from_str(bad).is_err(), "{:?}", bad);
    }
    assert_eq!(
        *PlaintextData::from_str("[-0, 007]").unwrap(),
        vec![0, 7]
    );
}

#[test]
fn plaintext_deref_gives_the_data() {
    let d = PlaintextData::from(vec![4, 5, 6]);
    assert_eq!(d.len(), 3);
    assert_eq!(d[1], 5);
}

#[test]
fn plaintext_deref_mut_changes_the_data() {
    let mut d = PlaintextData::from(vec![1]);
    d.deref_mut().push(2);
    d.deref_mut()[0] = 7;
    assert_eq!(d.to_string(), "[7, 2]");
}

#[test]
fn instruction_text() {
    let cases: Vec<(Instruction, &str)> = vec![
        (
            Instruction::AddCtxCtx { out: "%o", lhs: "%a", rhs: "%b" },
            "%o = add %a, %b",
        ),
        (
            Instruction::AddPtxCtx { out: "%o", value: "%a", plaintext: "@p" },
            "%o = add_ptx %a, @p",
        ),
        (
            Instruction::MulCtxCtx { out: "%o", lhs: "%a", rhs: "%b" },
            "%o = mul %a, %b",
        ),
        (
            Instruction::MulPtxCtx { out: "%o", value: "%a", plaintext: "@p" },
            "%o = mul_ptx %a, @p",
        ),
        (
            Instruction::MulIntCtx { out: "%o", value: "%a", integer: -12 },
            "%o = mul_int %a, -12",
        ),
        (Instruction::Copy { out: "%o", val: "%a" }, "%o = copy %a"),
        (Instruction::Zero { out: "%o" }, "%o = zero"),
        (Instruction::Return { val: "%a" }, "return %a"),
        (
            Instruction::Galois { out: vec!["%p", "%q"], val: "%a", exponents: vec![5, -1] },
            "%p, %q = galois %a, exponents = [5, -1]",
        ),
        (
            Instruction::InnerProduct {
                out: "%o",
                values: vec!["%a", "%b"],
                coefficients: vec!["@p", "@q"],
            },
            "%o = inner_prod %a, %b, coefficients = [@p, @q]",
        ),
    ];
    for (inst, text) in cases {
        assert_eq!(inst.to_string(), text);
    }
}

#[test]
fn instruction_with_data_text_shows_the_data() {
    let p: Program = Program::parse(
        "func(%x) {\n    %y = add_ptx %x, @c\n    %z = inner_prod %x, %y, coefficients = [@c, @d]\n}\n@c: [1, 2]\n@d: []\n",
    )
    .unwrap();
    let insts = p.instructions_with_data();
    assert_eq!(insts[0].to_string(), "%y = add_ptx %x, [1, 2]");
    assert_eq!(
        insts[1].to_string(),
        "%z = inner_prod %x, %y, coefficients = [[1, 2], []]"
    );
}

#[test]
fn map_identifiers_renames_every_identifier() {
    let inst = Instruction::InnerProduct {
        out: "%o",
        values: vec!["%a", "%b"],
        coefficients: vec!["@p"],
    };
    let upper = |s: &str| s.len();
    let r = inst.clone().map_identifiers(&upper);
    assert_eq!(
        r,
        GenericInstruction::InnerProduct { out: 2, values: vec![2, 2], coefficients: vec![2] }
    );
    let only_values = inst.clone().map_nonptx_identifiers(&upper);
    assert_eq!(
        only_values,
        GenericInstruction::InnerProduct { out: 2, values: vec![2, 2], coefficients: vec!["@p"] }
    );
    let only_constants = inst.map_ptx(&|s: &str| s.to_owned() + "!");
    assert_eq!(
        only_constants,
        GenericInstruction::InnerProduct {
            out: "%o",
            values: vec!["%a", "%b"],
            coefficients: vec!["@p!".to_owned()]
        }
    );
}

#[test]
fn scanning_helpers() {
    let text = chars("add %x");
    let mut s: &[char] = &text;
    assert_eq!(expect(&mut s, "ad"), Some(()));
    assert_eq!(s.iter().collect::<String>(), "d %x");
    assert_eq!(expect(&mut s, "x"), None);
    assert_eq!(s.iter().collect::<String>(), "d %x");

    let text = chars("-42, 7");
    let mut s: &[char] = &text;
    assert_eq!(expect_int(&mut s), Some(-42));
    assert_eq!(s.iter().collect::<String>(), ", 7");
    assert_eq!(expect_int(&mut s), None);

    let text = chars("4-2");
    let mut s: &[char] = &text;
    assert_eq!(expect_int(&mut s), None);
    assert_eq!(s.len(), 3);

    assert_eq!(expect_end(&[], 5), Some(5));
    assert_eq!(expect_end(&['x'], 5), None);
}

#[test]
fn law_new_with_sorted_constants_reads_back() {
    let p: Program = Program::new(
        &["%in"],
        vec![
            Instruction::Galois { out: vec!["%g1", "%g2"], val: "%in", exponents: vec![3, 9] },
            Instruction::InnerProduct {
                out: "%r",
                values: vec!["%g1", "%g2"],
                coefficients: vec!["@u", "@v"],
            },
            Instruction::Return { val: "%r" },
        ],
        vec![
            ("@a_only_data".to_owned(), PlaintextData::from(vec![0])),
            ("@u".to_owned(), PlaintextData::from(vec![1, 2])),
            ("@v".to_owned(), PlaintextData::from(vec![-3])),
        ],
    );
    let text = p.to_string();
    assert_eq!(Program::parse(&text).unwrap(), p);
    assert_eq!(<Program>::parse(&text).unwrap().to_string(), text);
}

#[test]
fn law_parse_renumbers_constants_in_order_of_names() {
    // Constants that only the data section names are numbered in the order in
    // which the text lists them; the text is written in order of names.
    let text = "func() {\n}\n@b: []\n@a: []\n";
    let p: Program = Program::parse(text).unwrap();
    let written = p.to_string();
    assert_eq!(written, "func() {\n}\n@a: []\n@b: []\n");
    let q: Program = Program::parse(&written).unwrap();
    assert_eq!(q.to_string(), written);
    assert_ne!(p, q);
    assert_eq!(**p.get_plaintext_data("@a").unwrap(), Vec::<i64>::new());
    assert_eq!(**q.get_plaintext_data("@b").unwrap(), Vec::<i64>::new());
}
