//! What a program that passes `Program::check` is guaranteed to satisfy.

use vstd::prelude::*;

use crate::instruction::{inst_defines, inst_valid, name_starts, InstructionView};
use crate::program::{
    check_inputs, check_insts, check_view, first_non_constant, key_order, lemma_check_insts_prefix,
    lemma_first_non_constant_prefix, lemma_key_order_exists, ProgramView,
};

verus! {

/// The identifiers defined by the inputs `d0` and the instructions `insts`.
pub open spec fn defined_after(d0: Set<usize>, insts: Seq<InstructionView<usize, usize>>) -> Set<
    usize,
>
    decreases insts.len(),
{
    if insts.len() == 0 {
        d0
    } else {
        inst_defines(insts.last(), defined_after(d0, insts.drop_last()))
    }
}

/// Inputs that pass the check are distinct variables.
proof fn lemma_check_inputs_ok(names: Seq<Seq<char>>, inputs: Seq<usize>)
    requires
        check_inputs(names, inputs) is Some,
    ensures
        check_inputs(names, inputs) == Some(inputs.to_set()),
        inputs.no_duplicates(),
        forall|i: int| 0 <= i < inputs.len() ==> name_starts(names, #[trigger] inputs[i], '%'),
    decreases inputs.len(),
{
    if inputs.len() > 0 {
        let front = inputs.drop_last();
        lemma_check_inputs_ok(names, front);
        assert(inputs.to_set() =~= front.to_set().insert(inputs.last())) by {
            assert forall|x: usize| inputs.to_set().contains(x) implies front.to_set().insert(
                inputs.last(),
            ).contains(x) by {
                let i = choose|i: int| 0 <= i < inputs.len() && inputs[i] == x;
                if i < inputs.len() - 1 {
                    assert(front[i] == x);
                    assert(front.contains(x));
                }
            }
            assert forall|x: usize| front.to_set().insert(inputs.last()).contains(
                x,
            ) implies inputs.to_set().contains(x) by {
                if x != inputs.last() {
                    assert(front.contains(x));
                    let i = choose|i: int| 0 <= i < front.len() && front[i] == x;
                    assert(inputs[i] == x);
                } else {
                    assert(inputs[inputs.len() - 1] == x);
                }
            }
        }
        assert forall|i: int, j: int| 0 <= i < j < inputs.len() implies inputs[i]
            != inputs[j] by {
            if j == inputs.len() - 1 {
                assert(front.contains(front[i]));
                assert(front.to_set().contains(inputs[i]));
            } else {
                assert(front[i] == inputs[i] && front[j] == inputs[j]);
            }
        }
        assert forall|i: int| 0 <= i < inputs.len() implies name_starts(
            names,
            #[trigger] inputs[i],
            '%',
        ) by {
            if i < inputs.len() - 1 {
                assert(front[i] == inputs[i]);
            }
        }
    }
}

/// Instructions that pass the check are each valid after those before them.
proof fn lemma_check_insts_ok(
    names: Seq<Seq<char>>,
    insts: Seq<InstructionView<usize, usize>>,
    d0: Set<usize>,
    has_data: Set<usize>,
)
    requires
        check_insts(names, insts, d0, has_data) is Ok,
    ensures
        check_insts(names, insts, d0, has_data) == Ok::<Set<usize>, nat>(defined_after(d0, insts)),
        forall|k: int|
            0 <= k < insts.len() ==> inst_valid(
                #[trigger] insts[k],
                names,
                defined_after(d0, insts.take(k)),
                has_data,
            ),
    decreases insts.len(),
{
    if insts.len() > 0 {
        let front = insts.drop_last();
        lemma_check_insts_ok(names, front, d0, has_data);
        assert forall|k: int| 0 <= k < insts.len() implies inst_valid(
            #[trigger] insts[k],
            names,
            defined_after(d0, insts.take(k)),
            has_data,
        ) by {
            if k < insts.len() - 1 {
                assert(front[k] == insts[k]);
                assert(front.take(k) =~= insts.take(k));
            } else {
                assert(insts.take(k) =~= front);
            }
        }
    }
}

/// Constants in an order that passes the check are named `@..`.
proof fn lemma_first_non_constant_none(names: Seq<Seq<char>>, ks: Seq<usize>)
    requires
        first_non_constant(names, ks) is None,
    ensures
        forall|i: int| 0 <= i < ks.len() ==> name_starts(names, #[trigger] ks[i], '@'),
    decreases ks.len(),
{
    if ks.len() > 0 {
        lemma_first_non_constant_none(names, ks.drop_last());
        assert forall|i: int| 0 <= i < ks.len() implies name_starts(names, #[trigger] ks[i], '@') by {
            if i < ks.len() - 1 {
                assert(ks.drop_last()[i] == ks[i]);
            }
        }
    }
}

/// Law: a program that passes `Program::check` has distinct inputs, all of
/// them variables (`%..`); each instruction is valid given the identifiers
/// that the inputs and the instructions before it define: its outputs are
/// variables, the variables it reads are defined, the constants it reads are
/// named `@..` and have data, and the lengths of its variadic operands match;
/// and every constant with data is named `@..`.
pub proof fn law_check_ok<V>(p: ProgramView<V>)
    requires
        p.wf(),
        check_view(p) is Ok,
    ensures
        p.inputs.no_duplicates(),
        forall|i: int| 0 <= i < p.inputs.len() ==> name_starts(p.names, #[trigger] p.inputs[i], '%'),
        forall|k: int|
            0 <= k < p.instructions.len() ==> inst_valid(
                #[trigger] p.instructions[k],
                p.names,
                defined_after(p.inputs.to_set(), p.instructions.take(k)),
                p.data.dom(),
            ),
        forall|x: usize| #[trigger] p.data.dom().contains(x) ==> name_starts(p.names, x, '@'),
{
    lemma_check_inputs_ok(p.names, p.inputs);
    lemma_check_insts_ok(p.names, p.instructions, p.inputs.to_set(), p.data.dom());
    let ko = key_order(p.names, p.data.dom());
    lemma_key_order_exists(p.names, p.data.dom());
    lemma_first_non_constant_none(p.names, ko);
    assert forall|x: usize| #[trigger] p.data.dom().contains(x) implies name_starts(
        p.names,
        x,
        '@',
    ) by {
        assert(ko.contains(x));
        let i = choose|i: int| 0 <= i < ko.len() && ko[i] == x;
    }
}

// ---------------------------------------------------------------------------
// What the check accepts and rejects, instruction by instruction
// ---------------------------------------------------------------------------

/// The name of `x` is not empty and starts with `c`.
pub open spec fn named_with(names: Seq<Seq<char>>, x: usize, c: char) -> bool {
    0 <= x < names.len() && names[x as int].len() > 0 && names[x as int][0] == c
}

/// The variables that an instruction reads: both operands of `add` and
/// `mul`, the value of the others, and every value of an inner product.
pub open spec fn reads(i: InstructionView<usize, usize>) -> Seq<usize> {
    match i {
        InstructionView::AddCtxCtx { lhs, rhs, .. } => seq![lhs, rhs],
        InstructionView::MulCtxCtx { lhs, rhs, .. } => seq![lhs, rhs],
        InstructionView::AddPtxCtx { value, .. } => seq![value],
        InstructionView::MulPtxCtx { value, .. } => seq![value],
        InstructionView::MulIntCtx { value, .. } => seq![value],
        InstructionView::Copy { val, .. } => seq![val],
        InstructionView::Return { val } => seq![val],
        InstructionView::Galois { val, .. } => seq![val],
        InstructionView::Zero { .. } => seq![],
        InstructionView::InnerProduct { values, .. } => values,
    }
}

/// The variables that an instruction writes: its outputs.
pub open spec fn writes(i: InstructionView<usize, usize>) -> Seq<usize> {
    match i {
        InstructionView::AddCtxCtx { out, .. } => seq![out],
        InstructionView::MulCtxCtx { out, .. } => seq![out],
        InstructionView::AddPtxCtx { out, .. } => seq![out],
        InstructionView::MulPtxCtx { out, .. } => seq![out],
        InstructionView::MulIntCtx { out, .. } => seq![out],
        InstructionView::Copy { out, .. } => seq![out],
        InstructionView::Zero { out } => seq![out],
        InstructionView::InnerProduct { out, .. } => seq![out],
        InstructionView::Galois { out, .. } => out,
        InstructionView::Return { .. } => seq![],
    }
}

/// The constants that an instruction reads.
pub open spec fn constants(i: InstructionView<usize, usize>) -> Seq<usize> {
    match i {
        InstructionView::AddPtxCtx { plaintext, .. } => seq![plaintext],
        InstructionView::MulPtxCtx { plaintext, .. } => seq![plaintext],
        InstructionView::InnerProduct { coefficients, .. } => coefficients,
        _ => seq![],
    }
}

/// The lengths of variadic operands match: a Galois automorphism has one
/// output per exponent and at least one exponent; an inner product has one
/// coefficient per value.
pub open spec fn lengths_match(i: InstructionView<usize, usize>) -> bool {
    match i {
        InstructionView::Galois { out, exponents, .. } => out.len() == exponents.len()
            && exponents.len() > 0,
        InstructionView::InnerProduct { values, coefficients, .. } => values.len()
            == coefficients.len(),
        _ => true,
    }
}

/// An instruction is acceptable when the variables it writes and reads are
/// named `%..`, the variables it reads are in `defined`, the constants it
/// reads are named `@..` and have data, and the lengths of its variadic
/// operands match.
pub open spec fn acceptable(
    names: Seq<Seq<char>>,
    i: InstructionView<usize, usize>,
    defined: Set<usize>,
    has_data: Set<usize>,
) -> bool {
    &&& forall|m: int| 0 <= m < writes(i).len() ==> named_with(names, #[trigger] writes(i)[m], '%')
    &&& forall|m: int|
        0 <= m < reads(i).len() ==> named_with(names, #[trigger] reads(i)[m], '%')
            && defined.contains(reads(i)[m])
    &&& forall|m: int|
        0 <= m < constants(i).len() ==> named_with(names, #[trigger] constants(i)[m], '@')
            && has_data.contains(constants(i)[m])
    &&& lengths_match(i)
}

/// The variables defined before instruction `k`: the inputs, and what the
/// instructions before it write.
pub open spec fn defined_before<V>(p: ProgramView<V>, k: int) -> Set<usize> {
    Set::new(
        |x: usize|
            p.inputs.contains(x) || exists|j: int|
                0 <= j < k && #[trigger] writes(p.instructions[j]).contains(x),
    )
}

/// Instruction `k` of the program is acceptable where it stands.
pub open spec fn instruction_ok<V>(p: ProgramView<V>, k: int) -> bool {
    acceptable(p.names, p.instructions[k], defined_before(p, k), p.data.dom())
}

/// The inputs are variables, none of them twice.
pub open spec fn inputs_ok<V>(p: ProgramView<V>) -> bool {
    &&& p.inputs.no_duplicates()
    &&& forall|i: int| 0 <= i < p.inputs.len() ==> named_with(p.names, #[trigger] p.inputs[i], '%')
}

/// Every constant with data is named `@..`.
pub open spec fn constants_ok<V>(p: ProgramView<V>) -> bool {
    forall|x: usize| #[trigger] p.data.dom().contains(x) ==> named_with(p.names, x, '@')
}

/// Defining what an instruction writes.
proof fn lemma_defines_writes(i: InstructionView<usize, usize>, d: Set<usize>)
    ensures
        inst_defines(i, d) == d + writes(i).to_set(),
{
    match i {
        InstructionView::Galois { out, .. } => {
            assert(inst_defines(i, d) =~= d + writes(i).to_set());
        },
        InstructionView::Return { .. } => {
            assert(writes(i).to_set() =~= Set::<usize>::empty());
            assert(inst_defines(i, d) =~= d + writes(i).to_set());
        },
        _ => {
            assert(writes(i).to_set() =~= set![writes(i)[0]]);
            assert(inst_defines(i, d) =~= d + writes(i).to_set());
        },
    }
}

/// What the inputs and the first `k` instructions define.
proof fn lemma_defined_after<V>(p: ProgramView<V>, k: int)
    requires
        0 <= k <= p.instructions.len(),
    ensures
        defined_after(p.inputs.to_set(), p.instructions.take(k)) == defined_before(p, k),
    decreases k,
{
    let s = p.instructions.take(k);
    if k == 0 {
        assert(defined_after(p.inputs.to_set(), s) =~= defined_before(p, k));
    } else {
        lemma_defined_after(p, k - 1);
        assert(s.drop_last() =~= p.instructions.take(k - 1));
        assert(s.last() == p.instructions[k - 1]);
        lemma_defines_writes(s.last(), defined_before(p, k - 1));
        assert forall|x: usize| defined_after(p.inputs.to_set(), s).contains(x) <==> defined_before(
            p,
            k,
        ).contains(x) by {
            if defined_before(p, k).contains(x) && !p.inputs.contains(x) {
                let j = choose|j: int|
                    0 <= j < k && #[trigger] writes(p.instructions[j]).contains(x);
                if j < k - 1 {
                    assert(defined_before(p, k - 1).contains(x));
                }
            }
            if defined_before(p, k - 1).contains(x) && !p.inputs.contains(x) {
                let j = choose|j: int|
                    0 <= j < k - 1 && #[trigger] writes(p.instructions[j]).contains(x);
                assert(0 <= j < k && writes(p.instructions[j]).contains(x));
            }
            if writes(p.instructions[k - 1]).contains(x) {
                assert(0 <= k - 1 < k && writes(p.instructions[k - 1]).contains(x));
            }
        }
        assert(defined_after(p.inputs.to_set(), s) =~= defined_before(p, k));
    }
}

/// The check of one instruction is what `acceptable` says.
proof fn lemma_valid_acceptable(
    names: Seq<Seq<char>>,
    i: InstructionView<usize, usize>,
    d: Set<usize>,
    h: Set<usize>,
)
    requires
        crate::instruction::idents_below(i, names.len()),
    ensures
        inst_valid(i, names, d, h) <==> acceptable(names, i, d, h),
{
    assert(i.idents().len() > 0 ==> i.idents()[0] < names.len());
    match i {
        InstructionView::AddCtxCtx { out, lhs, rhs } | InstructionView::MulCtxCtx {
            out,
            lhs,
            rhs,
        } => {
            assert(i.idents()[0] == out && i.idents()[1] == lhs && i.idents()[2] == rhs);
            assert(writes(i)[0] == out);
            assert(reads(i)[0] == lhs && reads(i)[1] == rhs);
            assert(forall|m: int| 0 <= m < writes(i).len() ==> #[trigger] writes(i)[m] == out);
            assert(forall|m: int|
                0 <= m < reads(i).len() ==> #[trigger] reads(i)[m] == lhs || reads(i)[m] == rhs);
            assert(constants(i).len() == 0);
        },
        InstructionView::AddPtxCtx { out, value, plaintext } | InstructionView::MulPtxCtx {
            out,
            value,
            plaintext,
        } => {
            assert(i.idents()[0] == out && i.idents()[1] == value && i.ptxs()[0] == plaintext);
            assert(writes(i)[0] == out);
            assert(reads(i)[0] == value);
            assert(constants(i)[0] == plaintext);
            assert(forall|m: int| 0 <= m < writes(i).len() ==> #[trigger] writes(i)[m] == out);
            assert(forall|m: int| 0 <= m < reads(i).len() ==> #[trigger] reads(i)[m] == value);
            assert(forall|m: int|
                0 <= m < constants(i).len() ==> #[trigger] constants(i)[m] == plaintext);
        },
        InstructionView::MulIntCtx { out, value, .. } => {
            assert(i.idents()[0] == out && i.idents()[1] == value);
            assert(writes(i)[0] == out);
            assert(reads(i)[0] == value);
            assert(forall|m: int| 0 <= m < writes(i).len() ==> #[trigger] writes(i)[m] == out);
            assert(forall|m: int| 0 <= m < reads(i).len() ==> #[trigger] reads(i)[m] == value);
            assert(constants(i).len() == 0);
        },
        InstructionView::Copy { out, val } => {
            assert(i.idents()[0] == out && i.idents()[1] == val);
            assert(writes(i)[0] == out);
            assert(reads(i)[0] == val);
            assert(forall|m: int| 0 <= m < writes(i).len() ==> #[trigger] writes(i)[m] == out);
            assert(forall|m: int| 0 <= m < reads(i).len() ==> #[trigger] reads(i)[m] == val);
            assert(constants(i).len() == 0);
        },
        InstructionView::Return { val } => {
            assert(i.idents()[0] == val);
            assert(reads(i)[0] == val);
            assert(writes(i).len() == 0);
            assert(forall|m: int| 0 <= m < reads(i).len() ==> #[trigger] reads(i)[m] == val);
            assert(constants(i).len() == 0);
        },
        InstructionView::Zero { out } => {
            assert(i.idents()[0] == out);
            assert(writes(i)[0] == out);
            assert(forall|m: int| 0 <= m < writes(i).len() ==> #[trigger] writes(i)[m] == out);
            assert(reads(i).len() == 0);
            assert(constants(i).len() == 0);
        },
        InstructionView::Galois { out, val, .. } => {
            assert(i.idents()[out.len() as int] == val);
            assert(reads(i)[0] == val);
            assert(forall|m: int| 0 <= m < reads(i).len() ==> #[trigger] reads(i)[m] == val);
            assert(constants(i).len() == 0);
            assert forall|m: int| 0 <= m < out.len() implies #[trigger] out[m] < names.len() by {
                assert(i.idents()[m] == out[m]);
            }
        },
        InstructionView::InnerProduct { out, values, coefficients } => {
            assert(i.idents()[0] == out);
            assert(writes(i)[0] == out);
            assert(forall|m: int| 0 <= m < writes(i).len() ==> #[trigger] writes(i)[m] == out);
            assert forall|m: int| 0 <= m < values.len() implies #[trigger] values[m]
                < names.len() by {
                assert(i.idents()[m + 1] == values[m]);
            }
            assert forall|m: int| 0 <= m < coefficients.len() implies #[trigger] coefficients[m]
                < names.len() by {
                assert(i.ptxs()[m] == coefficients[m]);
            }
        },
    }
}

/// Instruction `k` passes the check of one instruction exactly when it is
/// acceptable where it stands.
proof fn lemma_instruction_ok<V>(p: ProgramView<V>, k: int)
    requires
        p.wf(),
        0 <= k < p.instructions.len(),
    ensures
        inst_valid(
            p.instructions[k],
            p.names,
            defined_after(p.inputs.to_set(), p.instructions.take(k)),
            p.data.dom(),
        ) <==> instruction_ok(p, k),
{
    lemma_defined_after(p, k);
    lemma_valid_acceptable(p.names, p.instructions[k], defined_before(p, k), p.data.dom());
}

/// Distinct variables pass the check of the inputs.
proof fn lemma_check_inputs_complete(names: Seq<Seq<char>>, inputs: Seq<usize>)
    requires
        inputs.no_duplicates(),
        forall|i: int| 0 <= i < inputs.len() ==> named_with(names, #[trigger] inputs[i], '%'),
    ensures
        check_inputs(names, inputs) is Some,
    decreases inputs.len(),
{
    if inputs.len() > 0 {
        let front = inputs.drop_last();
        assert forall|i: int| 0 <= i < front.len() implies named_with(
            names,
            #[trigger] front[i],
            '%',
        ) by {
            assert(front[i] == inputs[i]);
        }
        assert(front.no_duplicates()) by {
            assert forall|i: int, j: int| 0 <= i < front.len() && 0 <= j < front.len() && i != j
                implies front[i] != front[j] by {
                assert(front[i] == inputs[i] && front[j] == inputs[j]);
            }
        }
        lemma_check_inputs_complete(names, front);
        lemma_check_inputs_ok(names, front);
        assert(named_with(names, inputs[inputs.len() - 1], '%'));
        if front.to_set().contains(inputs.last()) {
            let i = choose|i: int| 0 <= i < front.len() && front[i] == inputs.last();
            assert(inputs[i] == inputs[inputs.len() - 1]);
        }
    }
}

/// Instructions that are each valid after those before them pass the check
/// of the instructions.
proof fn lemma_check_insts_complete(
    names: Seq<Seq<char>>,
    insts: Seq<InstructionView<usize, usize>>,
    d0: Set<usize>,
    has_data: Set<usize>,
)
    requires
        forall|k: int|
            0 <= k < insts.len() ==> inst_valid(
                #[trigger] insts[k],
                names,
                defined_after(d0, insts.take(k)),
                has_data,
            ),
    ensures
        check_insts(names, insts, d0, has_data) == Ok::<Set<usize>, nat>(defined_after(d0, insts)),
    decreases insts.len(),
{
    if insts.len() > 0 {
        let front = insts.drop_last();
        assert forall|k: int| 0 <= k < front.len() implies inst_valid(
            #[trigger] front[k],
            names,
            defined_after(d0, front.take(k)),
            has_data,
        ) by {
            assert(front[k] == insts[k]);
            assert(front.take(k) =~= insts.take(k));
        }
        lemma_check_insts_complete(names, front, d0, has_data);
        assert(insts.take(insts.len() - 1) =~= front);
        assert(inst_valid(insts[insts.len() - 1], names, defined_after(d0, front), has_data));
    }
}

/// Constants that are all named `@..` pass the check of the constants.
proof fn lemma_first_non_constant_complete(names: Seq<Seq<char>>, ks: Seq<usize>)
    requires
        forall|i: int| 0 <= i < ks.len() ==> name_starts(names, #[trigger] ks[i], '@'),
    ensures
        first_non_constant(names, ks) is None,
    decreases ks.len(),
{
    if ks.len() > 0 {
        assert forall|i: int| 0 <= i < ks.len() - 1 implies name_starts(
            names,
            #[trigger] ks.drop_last()[i],
            '@',
        ) by {
            assert(ks.drop_last()[i] == ks[i]);
        }
        lemma_first_non_constant_complete(names, ks.drop_last());
        assert(name_starts(names, ks[ks.len() - 1], '@'));
    }
}

/// Law: the check accepts a program whose inputs are distinct variables,
/// whose every instruction is acceptable where it stands (its variables are
/// named `%..` and those it reads are defined by the inputs or by an earlier
/// instruction, its constants are named `@..` and have data, and the lengths
/// of its variadic operands match), and whose constants are named `@..`.
pub proof fn law_check_accepts<V>(p: ProgramView<V>)
    requires
        p.wf(),
        inputs_ok(p),
        forall|k: int| 0 <= k < p.instructions.len() ==> #[trigger] instruction_ok(p, k),
        constants_ok(p),
    ensures
        check_view(p) == Ok::<(), usize>(()),
{
    lemma_check_inputs_complete(p.names, p.inputs);
    lemma_check_inputs_ok(p.names, p.inputs);
    assert forall|k: int| 0 <= k < p.instructions.len() implies inst_valid(
        #[trigger] p.instructions[k],
        p.names,
        defined_after(p.inputs.to_set(), p.instructions.take(k)),
        p.data.dom(),
    ) by {
        lemma_instruction_ok(p, k);
        assert(instruction_ok(p, k));
    }
    lemma_check_insts_complete(p.names, p.instructions, p.inputs.to_set(), p.data.dom());
    let ko = key_order(p.names, p.data.dom());
    lemma_key_order_exists(p.names, p.data.dom());
    assert forall|i: int| 0 <= i < ko.len() implies name_starts(p.names, #[trigger] ko[i], '@') by {
        assert(ko.contains(ko[i]));
        assert(p.data.dom().contains(ko[i]));
    }
    lemma_first_non_constant_complete(p.names, ko);
}

/// Law: the check rejects a program whose inputs are not distinct variables
/// with `Err(0)`, the line of the header.
pub proof fn law_check_rejects_inputs<V>(p: ProgramView<V>)
    requires
        p.wf(),
        !inputs_ok(p),
    ensures
        check_view(p) == Err::<(), usize>(0),
{
    if check_inputs(p.names, p.inputs) is Some {
        lemma_check_inputs_ok(p.names, p.inputs);
    }
}

/// Law: when the inputs are distinct variables and instruction `k` is the
/// first that is not acceptable where it stands (say, it reads a variable
/// that neither an input nor an earlier instruction defines), the check gives
/// `Err(k + 1)`, the line of that instruction.
pub proof fn law_check_rejects_instruction<V>(p: ProgramView<V>, k: int)
    requires
        p.wf(),
        inputs_ok(p),
        0 <= k < p.instructions.len(),
        forall|j: int| 0 <= j < k ==> #[trigger] instruction_ok(p, j),
        !instruction_ok(p, k),
    ensures
        check_view(p) == Err::<(), usize>((k + 1) as usize),
{
    lemma_check_inputs_complete(p.names, p.inputs);
    lemma_check_inputs_ok(p.names, p.inputs);
    let insts = p.instructions;
    let d0 = p.inputs.to_set();
    let front = insts.take(k);
    assert forall|j: int| 0 <= j < front.len() implies inst_valid(
        #[trigger] front[j],
        p.names,
        defined_after(d0, front.take(j)),
        p.data.dom(),
    ) by {
        lemma_instruction_ok(p, j);
        assert(instruction_ok(p, j));
        assert(front[j] == insts[j]);
        assert(front.take(j) =~= insts.take(j));
    }
    lemma_check_insts_complete(p.names, front, d0, p.data.dom());
    lemma_instruction_ok(p, k);
    let upto = insts.take(k + 1);
    assert(upto.drop_last() =~= front);
    assert(upto.last() == insts[k]);
    assert(check_insts(p.names, upto, d0, p.data.dom()) == Err::<Set<usize>, nat>(k as nat));
    lemma_check_insts_prefix(p.names, insts, d0, p.data.dom(), k + 1);
}

/// Law: when the inputs and every instruction are acceptable, and the
/// constant at position `j` in order of names is the first that is not named
/// `@..`, the check gives `Err(n + 2 + j)`, with `n` instructions: the line
/// of that constant.
pub proof fn law_check_rejects_constant<V>(p: ProgramView<V>, j: int)
    requires
        p.wf(),
        inputs_ok(p),
        forall|k: int| 0 <= k < p.instructions.len() ==> #[trigger] instruction_ok(p, k),
        0 <= j < key_order(p.names, p.data.dom()).len(),
        forall|i: int|
            0 <= i < j ==> named_with(p.names, #[trigger] key_order(p.names, p.data.dom())[i], '@'),
        !named_with(p.names, key_order(p.names, p.data.dom())[j], '@'),
    ensures
        check_view(p) == Err::<(), usize>((p.instructions.len() + 2 + j) as usize),
{
    lemma_check_inputs_complete(p.names, p.inputs);
    lemma_check_inputs_ok(p.names, p.inputs);
    assert forall|k: int| 0 <= k < p.instructions.len() implies inst_valid(
        #[trigger] p.instructions[k],
        p.names,
        defined_after(p.inputs.to_set(), p.instructions.take(k)),
        p.data.dom(),
    ) by {
        lemma_instruction_ok(p, k);
        assert(instruction_ok(p, k));
    }
    lemma_check_insts_complete(p.names, p.instructions, p.inputs.to_set(), p.data.dom());
    let ko = key_order(p.names, p.data.dom());
    lemma_key_order_exists(p.names, p.data.dom());
    assert(ko.contains(ko[j]));
    let front = ko.take(j);
    assert forall|i: int| 0 <= i < front.len() implies name_starts(
        p.names,
        #[trigger] front[i],
        '@',
    ) by {
        assert(front[i] == ko[i]);
        assert(named_with(p.names, ko[i], '@'));
    }
    lemma_first_non_constant_complete(p.names, front);
    let upto = ko.take(j + 1);
    assert(upto.drop_last() =~= front);
    assert(upto.last() == ko[j]);
    assert(first_non_constant(p.names, upto) == Some(j as nat));
    lemma_first_non_constant_prefix(p.names, ko, j + 1);
}

/// Law: a program that passes the check has distinct variables as inputs,
/// every instruction acceptable where it stands (in particular, every
/// variable that an instruction reads is an input or written by an earlier
/// instruction), and its constants named `@..`.
pub proof fn law_check_sound<V>(p: ProgramView<V>)
    requires
        p.wf(),
        check_view(p) is Ok,
    ensures
        inputs_ok(p),
        forall|k: int| 0 <= k < p.instructions.len() ==> #[trigger] instruction_ok(p, k),
        forall|k: int, m: int|
            0 <= k < p.instructions.len() && 0 <= m < reads(p.instructions[k]).len()
                ==> defined_before(p, k).contains(#[trigger] reads(p.instructions[k])[m]),
        constants_ok(p),
{
    law_check_ok(p);
    assert forall|i: int| 0 <= i < p.inputs.len() implies named_with(
        p.names,
        #[trigger] p.inputs[i],
        '%',
    ) by {
        assert(name_starts(p.names, p.inputs[i], '%'));
    }
    assert forall|k: int| 0 <= k < p.instructions.len() implies #[trigger] instruction_ok(p, k) by {
        lemma_instruction_ok(p, k);
    }
    assert forall|k: int, m: int|
        0 <= k < p.instructions.len() && 0 <= m < reads(p.instructions[k]).len() implies defined_before(
        p,
        k,
    ).contains(#[trigger] reads(p.instructions[k])[m]) by {
        lemma_instruction_ok(p, k);
    }
}

} // verus!
