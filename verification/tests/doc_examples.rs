use fhe_ir::instruction::InstructionWithData;
use fhe_ir::plaintext::PlaintextData;
use fhe_ir::program::Program;

fn parses_and_checks(text: &str) {
    <Program>::parse(text).unwrap().check().unwrap();
}

#[test]
fn readme_example() {
    let program: Program = Program::parse_check(
        r#"
    func(%x) {
        %x1, %x2, %x3, %x4 = galois %x, exponents = [1, 5, -1, -5]
        %result = inner_prod %x1, %x2, %x3, %x4, coefficients = [@c1, @c2, @c3, @c4]
        return %result
    }
    @c1: []
    @c2: []
    @c3: []
    @c4: []
"#,
    )
    .unwrap();
    let mut seen = 0;
    for inst in program.instructions_with_data() {
        if let InstructionWithData::<PlaintextData>::InnerProduct {
            out,
            values,
            coefficients,
        } = inst
        {
            assert_eq!(out, "%result");
            assert_eq!(values, vec!["%x1", "%x2", "%x3", "%x4"]);
            assert_eq!(coefficients.len(), 4);
            assert!(coefficients.iter().all(|c| c.is_empty()));
            seen += 1;
        }
    }
    assert_eq!(seen, 1);
}

#[test]
fn example_add() {
    parses_and_checks(
        r#"
    func(%input1, %input2) {
        %output = add %input1, %input2
        return %output
    }
"#,
    );
}

#[test]
fn example_add_ptx() {
    parses_and_checks(
        r#"
    func(%input) {
        %output = add_ptx %input, @constant
        return %output
    }
    @constant: [1, 2, 3, 4]
"#,
    );
}

#[test]
fn example_mul() {
    parses_and_checks(
        r#"
    func(%input1, %input2) {
        %output = mul %input1, %input2
        return %output
    }
"#,
    );
}

#[test]
fn example_mul_ptx() {
    parses_and_checks(
        r#"
    func(%input) {
        %output = mul_ptx %input, @constant
        return %output
    }
    @constant: [1, 2, 3, 4]
"#,
    );
}

#[test]
fn example_mul_int() {
    parses_and_checks(
        r#"
    func(%input) {
        %output = mul_int %input, 42
        return %output
    }
"#,
    );
}

#[test]
fn example_copy() {
    parses_and_checks(
        r#"
    func(%input) {
        %output = copy %input
        return %output
    }
"#,
    );
}

#[test]
fn example_zero() {
    parses_and_checks(
        r#"
    func() {
        %output = zero
        return %output
    }
"#,
    );
}

#[test]
fn example_return() {
    parses_and_checks(
        r#"
    func(%in_out_put) {
        return %in_out_put
    }
"#,
    );
}

#[test]
fn example_galois() {
    parses_and_checks(
        r#"
    func(%input) {
        %output1, %output2, %output3 = galois %input, exponents = [1, 5, -1]
        return %output1
        return %output2
        return %output3
    }
"#,
    );
}

#[test]
fn example_inner_prod() {
    parses_and_checks(
        r#"
    func(%input1, %input2, %input3) {
        %output = inner_prod %input1, %input2, %input3, coefficients = [@coeff1, @coeff2, @coeff3]
        return %output
    }
    @coeff1: [2, 3]
    @coeff2: [5, 7]
    @coeff3: [4, 9]
"#,
    );
}
