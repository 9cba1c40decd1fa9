use std::cell::RefCell;
use std::cmp::max;

use fhe_ir::instruction::Instruction;
use fhe_ir::plaintext::PlaintextData;
use fhe_ir::program::Program;

#[test]
fn test_display_parse_no_data() {
    let actual: Program = Program::parse(
        r#"
        func(%x, %y) {
            %z = add %x, %y
            %a = inner_prod %x, %y, %z, coefficients = [@x, @y, @z]
            %b = zero
            %a = add %a, %b
            %a = mul_int %a, -5
            %c0, %c1 = galois %a, exponents = [5, -1]
            return %c0
            %c1 = add_ptx %c1, @c
            return %c1
        }
    "#,
    )
    .unwrap();
    let expected: Program = Program::new(
        &["%x", "%y"],
        vec![
            Instruction::AddCtxCtx {
                out: "%z",
                lhs: "%x",
                rhs: "%y",
            },
            Instruction::InnerProduct {
                out: "%a",
                values: vec!["%x", "%y", "%z"],
                coefficients: vec!["@x", "@y", "@z"],
            },
            Instruction::Zero { out: "%b" },
            Instruction::AddCtxCtx {
                out: "%a",
                lhs: "%a",
                rhs: "%b",
            },
            Instruction::MulIntCtx {
                out: "%a",
                value: "%a",
                integer: -5,
            },
            Instruction::Galois {
                out: vec!["%c0", "%c1"],
                val: "%a",
                exponents: vec![5, -1],
            },
            Instruction::Return { val: "%c0" },
            Instruction::AddPtxCtx {
                out: "%c1",
                value: "%c1",
                plaintext: "@c",
            },
            Instruction::Return { val: "%c1" },
        ],
        Vec::new(),
    );
    assert_eq!(expected, actual);

    let actual = Program::parse(&expected.to_string()).unwrap();
    assert_eq!(expected, actual);

    let string = "func(%x, %y) {\n    %z0 = mul %x, %y\n    return %z0\n}\n";
    assert_eq!(string, <Program>::parse(string).unwrap().to_string());
}

#[test]
fn test_display_parse_with_data() {
    let actual: Program = Program::parse(
        r#"
        func(%x, %y) {
            %z = inner_prod %x, %y, coefficients = [@x, @y]
            return %z
        }
        @x: [1, 2, 3, 4, 5, 6, 7, 8]
        @y: [2, 3, 4, 5, 6, 7, 8, 9]
    "#,
    )
    .unwrap();
    let expected: Program = Program::new(
        &["%x", "%y"],
        vec![
            Instruction::InnerProduct {
                out: "%z",
                values: vec!["%x", "%y"],
                coefficients: vec!["@x", "@y"],
            },
            Instruction::Return { val: "%z" },
        ],
        vec![
            (
                "@x".to_owned(),
                PlaintextData::from(vec![1, 2, 3, 4, 5, 6, 7, 8]),
            ),
            (
                "@y".to_owned(),
                PlaintextData::from(vec![2, 3, 4, 5, 6, 7, 8, 9]),
            ),
        ],
    );
    assert_eq!(expected, actual);

    let actual = Program::parse(&expected.to_string()).unwrap();
    assert_eq!(expected, actual);

    let string = "func(%x) {\n    return %x\n}\n@x: [1, 2, 3, 4]\n";
    assert_eq!(string, <Program>::parse(string).unwrap().to_string());
}

#[test]
fn random_test_display_parse() {
    let rng = RefCell::new(oorandom::Rand64::new(0));
    let rand_usize = || [0, 1, 2, 4][usize::try_from(rng.borrow_mut().rand_u64() % 4).unwrap()];
    let rand_existing_ident: &dyn for<'a> Fn(&'a [String]) -> &'a str =
        &|existing_idents: &[String]| {
            existing_idents[usize::try_from(
                rng.borrow_mut().rand_u64() % existing_idents.len() as u64,
            )
            .unwrap()]
            .as_str()
        };
    let rand_new_ident = |existing_idents: &mut Vec<String>| {
        let prefix = ["%", "@"][usize::try_from(rng.borrow_mut().rand_u64() % 2).unwrap()];
        let chars = ["a", "b", "c", "A", "B", "C", "_", "0", "1", "9"];
        let result = (0..(rand_usize() + 1))
            .map(|_| {
                chars[usize::try_from(rng.borrow_mut().rand_u64() % chars.len() as u64).unwrap()]
            })
            .fold(prefix.to_owned(), |current, next| current + next);
        existing_idents.push(result.clone());
        return result;
    };
    let rand_inst = |existing_idents: &mut Vec<String>| {
        let idx = rng.borrow_mut().rand_u64() % 10;
        match idx {
            0 => format!(
                "{} = add {}, {}",
                rand_new_ident(existing_idents),
                rand_existing_ident(existing_idents),
                rand_existing_ident(existing_idents)
            ),
            1 => format!(
                "{} = add_ptx {}, {}",
                rand_new_ident(existing_idents),
                rand_existing_ident(existing_idents),
                rand_existing_ident(existing_idents)
            ),
            2 => format!(
                "{} = mul {}, {}",
                rand_new_ident(existing_idents),
                rand_existing_ident(existing_idents),
                rand_existing_ident(existing_idents)
            ),
            3 => format!(
                "{} = mul_ptx {}, {}",
                rand_new_ident(existing_idents),
                rand_existing_ident(existing_idents),
                rand_existing_ident(existing_idents)
            ),
            4 => {
                let value = rng.borrow_mut().rand_i64();
                format!(
                    "{} = mul_int {}, {}",
                    rand_new_ident(existing_idents),
                    rand_existing_ident(existing_idents),
                    value
                )
            }
            5 => format!(
                "{} = copy {}",
                rand_new_ident(existing_idents),
                rand_existing_ident(existing_idents)
            ),
            6 => format!("{} = zero", rand_new_ident(existing_idents)),
            7 => format!("return {}", rand_existing_ident(existing_idents)),
            8 => {
                let count = max(rand_usize(), 1);
                let outputs = (0..count)
                    .map(|_| rand_new_ident(existing_idents))
                    .reduce(|x, y| x + ", " + &y)
                    .unwrap_or("".to_owned());
                let exponents = (0..count)
                    .map(|_| format!("{}", rng.borrow_mut().rand_i64()))
                    .reduce(|x, y| x + ", " + &y)
                    .unwrap_or("".to_owned());
                format!(
                    "{} = galois {}, exponents = [{}]",
                    outputs,
                    rand_existing_ident(existing_idents),
                    exponents
                )
            }
            9 => {
                let count = rand_usize();
                let values = (0..count)
                    .map(|_| format!("{}, ", rand_existing_ident(existing_idents)))
                    .reduce(|x, y| x + &y)
                    .unwrap_or("".to_owned());
                let coefficients = (0..count)
                    .map(|_| rand_new_ident(existing_idents))
                    .reduce(|x, y| x + ", " + &y)
                    .unwrap_or("".to_owned());
                format!(
                    "{} = inner_prod {}coefficients = [{}]",
                    rand_new_ident(existing_idents),
                    values,
                    coefficients
                )
            }
            10.. => unreachable!(),
        }
    };
    for _ in 0..100 {
        let mut existing_idents = Vec::new();
        let inputs = (0..max(1, rand_usize()))
            .map(|_| rand_new_ident(&mut existing_idents))
            .reduce(|x, y| x + ", " + &y)
            .unwrap_or("".to_owned());
        let len = usize::try_from(rng.borrow_mut().rand_u64() % 20).unwrap();
        let string_repr = (0..len)
            .map(|_| format!("    {}\n", rand_inst(&mut existing_idents)))
            .fold("func(".to_owned() + &inputs + ") {\n", |x, y| x + &y)
            + "}\n";
        assert_eq!(
            string_repr,
            <Program>::parse(&string_repr).unwrap().to_string()
        );
    }
}

#[test]
fn test_check() {
    let actual: Program = Program::parse(
        r#"
        func(%x, %y) {
            %z = add %x, %y
            %a = inner_prod %x, %y, %z, coefficients = [@x, @y, @z]
            %b = zero
            %a = add %a, %b
            %a = mul_int %a, -5
            %c0, %c1 = galois %a, exponents = [5, -1]
            return %c0
            %c1 = add_ptx %c1, @c
            return %c1
        }
        @x: [1]
        @y: [2]
        @z: [3]
        @c: [4]
    "#,
    )
    .unwrap();
    actual.check().unwrap();
}
