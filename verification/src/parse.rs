//! The grammar of the textual form, over characters: lists of identifiers,
//! the header `func(..) {`, instructions, the lines of data and whole
//! programs; and the readers that follow it.

use std::collections::HashMap;
use vstd::prelude::*;
use vstd::slice::{slice_subrange, slice_to_vec};

use crate::identifiers::{
    index_in, intern, intern_all, lemma_intern, lemma_intern_all, IdentifierTable,
};
use crate::instruction::{
    idents_below, inst_map, inst_views, lemma_inst_map_idents, lemma_renamed_view,
    GenericInstruction, InstructionView,
};
use crate::plaintext::{read_int_tail, spec_int_list, PlaintextSyntax};
use crate::program::{lemma_prefix_trans, map_views, ProgramView};
use crate::text::{
    after_line, chars_eq, expect, expect_int, first_line, leading_identifier_len,
    lemma_after_line_len, lemma_ident_tail_len, lemma_line_at, line_end, spec_expect, spec_ident,
    spec_int, spec_trim, string_of, trim,
};

verus! {

broadcast use vstd::std_specs::hash::group_hash_axioms;

/// The characters of each name.
pub open spec fn char_views(v: Seq<Vec<char>>) -> Seq<Seq<char>> {
    v.map_values(|x: Vec<char>| x@)
}

// ---------------------------------------------------------------------------
// The grammar, over characters
// ---------------------------------------------------------------------------

/// Identifiers after the first of a list, each preceded by `, `; gives the
/// list so far with them appended, and the rest.
pub open spec fn spec_ident_tail(s: Seq<char>, acc: Seq<Seq<char>>) -> Option<
    (Seq<Seq<char>>, Seq<char>),
>
    decreases s.len(),
{
    match spec_expect(s, ", "@) {
        None => Some((acc, s)),
        Some(r) => match spec_ident(r) {
            None => None,
            Some((n, r2)) => {
                proof {
                    lemma_ident_tail_len(r.drop_first());
                }
                spec_ident_tail(r2, acc.push(n))
            },
        },
    }
}

/// A possibly empty list of identifiers separated by `, `.
pub open spec fn spec_ident_list(s: Seq<char>) -> Option<(Seq<Seq<char>>, Seq<char>)> {
    match spec_ident(s) {
        None => Some((seq![], s)),
        Some((n, r)) => spec_ident_tail(r, seq![n]),
    }
}

/// The inputs of an inner product: identifiers, each followed by `, `.
pub open spec fn spec_value_list(s: Seq<char>, acc: Seq<Seq<char>>) -> Option<
    (Seq<Seq<char>>, Seq<char>),
>
    decreases s.len(),
{
    match spec_ident(s) {
        None => Some((acc, s)),
        Some((n, r)) => match spec_expect(r, ", "@) {
            None => None,
            Some(r2) => {
                proof {
                    lemma_ident_tail_len(s.drop_first());
                }
                spec_value_list(r2, acc.push(n))
            },
        },
    }
}

/// Two identifiers separated by `, `, and nothing after them.
pub open spec fn spec_two_idents(s: Seq<char>) -> Option<(Seq<char>, Seq<char>)> {
    match spec_ident(s) {
        None => None,
        Some((a, r)) => match spec_expect(r, ", "@) {
            None => None,
            Some(r2) => match spec_ident(r2) {
                None => None,
                Some((b, r3)) => if r3.len() == 0 {
                    Some((a, b))
                } else {
                    None
                },
            },
        },
    }
}

/// An identifier and nothing after it.
pub open spec fn spec_one_ident(s: Seq<char>) -> Option<Seq<char>> {
    match spec_ident(s) {
        Some((a, r)) => if r.len() == 0 {
            Some(a)
        } else {
            None
        },
        None => None,
    }
}

/// `value, integer` and nothing after them.
pub open spec fn spec_ident_int(s: Seq<char>) -> Option<(Seq<char>, i64)> {
    match spec_ident(s) {
        None => None,
        Some((a, r)) => match spec_expect(r, ", "@) {
            None => None,
            Some(r2) => match spec_int(r2) {
                None => None,
                Some((v, r3)) => if r3.len() == 0 {
                    Some((a, v))
                } else {
                    None
                },
            },
        },
    }
}

/// `value, exponents = [..]` and nothing after it.
pub open spec fn spec_galois_args(s: Seq<char>) -> Option<(Seq<char>, Seq<i64>)> {
    match spec_ident(s) {
        None => None,
        Some((a, r)) => match spec_expect(r, ", exponents = ["@) {
            None => None,
            Some(r2) => match spec_int_list(r2) {
                None => None,
                Some((es, r3)) => match spec_expect(r3, "]"@) {
                    None => None,
                    Some(r4) => if r4.len() == 0 {
                        Some((a, es))
                    } else {
                        None
                    },
                },
            },
        },
    }
}

/// `v1, .., vn, coefficients = [c1, .., cm]` and nothing after it.
pub open spec fn spec_inner_prod_args(s: Seq<char>) -> Option<(Seq<Seq<char>>, Seq<Seq<char>>)> {
    match spec_value_list(s, seq![]) {
        None => None,
        Some((vs, r)) => match spec_expect(r, "coefficients = ["@) {
            None => None,
            Some(r2) => match spec_ident_list(r2) {
                None => None,
                Some((cs, r3)) => match spec_expect(r3, "]"@) {
                    None => None,
                    Some(r4) => if r4.len() == 0 {
                        Some((vs, cs))
                    } else {
                        None
                    },
                },
            },
        },
    }
}

/// The only output, when there is exactly one.
pub open spec fn spec_single(outs: Seq<Seq<char>>) -> Option<Seq<char>> {
    if outs.len() == 1 {
        Some(outs[0])
    } else {
        None
    }
}

/// One output and two identifiers that make up all of `s`.
pub open spec fn spec_binary(outs: Seq<Seq<char>>, s: Seq<char>) -> Option<
    (Seq<char>, Seq<char>, Seq<char>),
> {
    match (spec_single(outs), spec_two_idents(s)) {
        (Some(o), Some((a, b))) => Some((o, a, b)),
        _ => None,
    }
}

/// The instruction whose outputs are `outs` and whose text after them is `s`.
/// The operations are tried in a fixed order: `add`, `add_ptx`, `mul`,
/// `mul_ptx`, `mul_int`, `galois`, `copy`, `return`, `inner_prod`, `zero`.
pub open spec fn spec_parse_op(outs: Seq<Seq<char>>, s: Seq<char>) -> Option<
    InstructionView<Seq<char>, Seq<char>>,
> {
    if let Some(r) = spec_expect(s, " = add "@) {
        match spec_binary(outs, r) {
            Some((o, a, b)) => Some(InstructionView::AddCtxCtx { out: o, lhs: a, rhs: b }),
            None => None,
        }
    } else if let Some(r) = spec_expect(s, " = add_ptx "@) {
        match spec_binary(outs, r) {
            Some((o, a, b)) => Some(InstructionView::AddPtxCtx { out: o, value: a, plaintext: b }),
            None => None,
        }
    } else if let Some(r) = spec_expect(s, " = mul "@) {
        match spec_binary(outs, r) {
            Some((o, a, b)) => Some(InstructionView::MulCtxCtx { out: o, lhs: a, rhs: b }),
            None => None,
        }
    } else if let Some(r) = spec_expect(s, " = mul_ptx "@) {
        match spec_binary(outs, r) {
            Some((o, a, b)) => Some(InstructionView::MulPtxCtx { out: o, value: a, plaintext: b }),
            None => None,
        }
    } else if let Some(r) = spec_expect(s, " = mul_int "@) {
        match (spec_single(outs), spec_ident_int(r)) {
            (Some(o), Some((a, v))) => Some(
                InstructionView::MulIntCtx { out: o, value: a, integer: v },
            ),
            _ => None,
        }
    } else if let Some(r) = spec_expect(s, " = galois "@) {
        match spec_galois_args(r) {
            Some((a, es)) => Some(InstructionView::Galois { out: outs, val: a, exponents: es }),
            None => None,
        }
    } else if let Some(r) = spec_expect(s, " = copy "@) {
        match (spec_single(outs), spec_one_ident(r)) {
            (Some(o), Some(a)) => Some(InstructionView::Copy { out: o, val: a }),
            _ => None,
        }
    } else if let Some(r) = spec_expect(s, "return "@) {
        match spec_one_ident(r) {
            Some(a) => if outs.len() == 0 {
                Some(InstructionView::Return { val: a })
            } else {
                None
            },
            None => None,
        }
    } else if let Some(r) = spec_expect(s, " = inner_prod "@) {
        match (spec_single(outs), spec_inner_prod_args(r)) {
            (Some(o), Some((vs, cs))) => Some(
                InstructionView::InnerProduct { out: o, values: vs, coefficients: cs },
            ),
            _ => None,
        }
    } else if let Some(r) = spec_expect(s, " = zero"@) {
        match spec_single(outs) {
            Some(o) => if r.len() == 0 {
                Some(InstructionView::Zero { out: o })
            } else {
                None
            },
            None => None,
        }
    } else {
        None
    }
}

/// The instruction that a line of the body spells, with its identifiers as
/// names: the trimmed line is a list of outputs followed by an operation.
pub open spec fn spec_parse_inst(line: Seq<char>) -> Option<InstructionView<Seq<char>, Seq<char>>> {
    match spec_ident_list(spec_trim(line)) {
        None => None,
        Some((outs, r)) => spec_parse_op(outs, r),
    }
}

// ---------------------------------------------------------------------------
// The names that reading a line looks up, up to where it stops
// ---------------------------------------------------------------------------

/// The names that reading `, ` and an identifier, as long as both come, looks
/// up after `acc`.
pub open spec fn tail_names(s: Seq<char>, acc: Seq<Seq<char>>) -> Seq<Seq<char>>
    decreases s.len(),
{
    match spec_expect(s, ", "@) {
        None => acc,
        Some(r) => match spec_ident(r) {
            None => acc,
            Some((n, r2)) => {
                proof {
                    lemma_ident_tail_len(r.drop_first());
                }
                tail_names(r2, acc.push(n))
            },
        },
    }
}

/// The names that reading a list of identifiers separated by `, ` looks up.
pub open spec fn list_names(s: Seq<char>) -> Seq<Seq<char>> {
    match spec_ident(s) {
        None => seq![],
        Some((n, r)) => tail_names(r, seq![n]),
    }
}

/// The names that reading identifiers, each followed by `, `, looks up after
/// `acc`: an identifier is looked up even when no `, ` follows it.
pub open spec fn value_names(s: Seq<char>, acc: Seq<Seq<char>>) -> Seq<Seq<char>>
    decreases s.len(),
{
    match spec_ident(s) {
        None => acc,
        Some((n, r)) => match spec_expect(r, ", "@) {
            None => acc.push(n),
            Some(r2) => {
                proof {
                    lemma_ident_tail_len(s.drop_first());
                }
                value_names(r2, acc.push(n))
            },
        },
    }
}

/// The name of the identifier that `s` starts with, if any.
pub open spec fn first_name(s: Seq<char>) -> Seq<Seq<char>> {
    match spec_ident(s) {
        None => seq![],
        Some((a, r)) => seq![a],
    }
}

/// The names that reading two identifiers separated by `, ` looks up.
pub open spec fn pair_names(s: Seq<char>) -> Seq<Seq<char>> {
    match spec_ident(s) {
        None => seq![],
        Some((a, r)) => match spec_expect(r, ", "@) {
            None => seq![a],
            Some(r2) => match spec_ident(r2) {
                None => seq![a],
                Some((b, r3)) => seq![a, b],
            },
        },
    }
}

/// The names that reading the arguments of an inner product looks up.
pub open spec fn inner_prod_names(s: Seq<char>) -> Seq<Seq<char>> {
    match spec_value_list(s, seq![]) {
        None => value_names(s, seq![]),
        Some((vs, r)) => match spec_expect(r, "coefficients = ["@) {
            None => vs,
            Some(r2) => vs + list_names(r2),
        },
    }
}

/// The names that reading the operation `s` after the outputs looks up, in
/// the order of `spec_parse_op`.
pub open spec fn op_names(s: Seq<char>) -> Seq<Seq<char>> {
    if let Some(r) = spec_expect(s, " = add "@) {
        pair_names(r)
    } else if let Some(r) = spec_expect(s, " = add_ptx "@) {
        pair_names(r)
    } else if let Some(r) = spec_expect(s, " = mul "@) {
        pair_names(r)
    } else if let Some(r) = spec_expect(s, " = mul_ptx "@) {
        pair_names(r)
    } else if let Some(r) = spec_expect(s, " = mul_int "@) {
        first_name(r)
    } else if let Some(r) = spec_expect(s, " = galois "@) {
        first_name(r)
    } else if let Some(r) = spec_expect(s, " = copy "@) {
        first_name(r)
    } else if let Some(r) = spec_expect(s, "return "@) {
        first_name(r)
    } else if let Some(r) = spec_expect(s, " = inner_prod "@) {
        inner_prod_names(r)
    } else {
        seq![]
    }
}

/// The names that reading a line of the body looks up, in order, up to where
/// reading stops: the outputs, then the operands of the operation as far as
/// they are read.
pub open spec fn spec_read_names(line: Seq<char>) -> Seq<Seq<char>> {
    let t = spec_trim(line);
    match spec_ident_list(t) {
        None => list_names(t),
        Some((outs, r)) => outs + op_names(r),
    }
}

/// The parameter names that the header line `func(..) {` lists.
pub open spec fn spec_parse_header(line: Seq<char>) -> Option<Seq<Seq<char>>> {
    match spec_expect(spec_trim(line), "func("@) {
        None => None,
        Some(r) => match spec_ident_list(r) {
            None => None,
            Some((params, r2)) => match spec_expect(r2, ") {"@) {
                None => None,
                Some(r3) => if r3.len() == 0 {
                    Some(params)
                } else {
                    None
                },
            },
        },
    }
}

/// The number of identifier occurrences in an instruction.
pub open spec fn name_count<I, P>(i: InstructionView<I, P>) -> nat {
    i.idents().len() + i.ptxs().len()
}

// ---------------------------------------------------------------------------
// Readers
// ---------------------------------------------------------------------------

/// Consumes an identifier from the front of `s` and returns its characters.
pub fn expect_name(s: &mut &[char]) -> (r: Option<Vec<char>>)
    ensures
        match spec_ident(old(s)@) {
            Some((n, rest)) => r matches Some(v) && v@ == n && final(s)@ == rest,
            None => r is None && final(s)@ == old(s)@,
        },
        r is Some ==> final(s)@.len() + 2 <= old(s)@.len(),
{
    proof {
        if s@.len() > 0 {
            lemma_ident_tail_len(s@.drop_first());
        }
    }
    let n = leading_identifier_len(*s);
    if n == 0 {
        return None;
    }
    let name = slice_to_vec(slice_subrange(*s, 0, n));
    assert(name@ =~= s@.take(n as int));
    *s = slice_subrange(*s, n, s.len());
    assert(s@ =~= old(s)@.skip(n as int));
    Some(name)
}

/// Reads identifiers after the first of a list, each preceded by `, `,
/// appending them to `acc`.
fn read_ident_tail(s: &mut &[char], acc: &mut Vec<Vec<char>>) -> (ok: bool)
    ensures
        match spec_ident_tail(old(s)@, char_views(old(acc)@)) {
            Some((ns, rest)) => ok && char_views(final(acc)@) == ns && final(s)@ == rest,
            None => !ok,
        },
        ok ==> final(s)@.len() + 2 * (final(acc)@.len() - old(acc)@.len()) <= old(s)@.len(),
        final(acc)@.len() >= old(acc)@.len(),
    decreases old(s)@.len(),
{
    match expect(s, ", ") {
        None => true,
        Some(()) => match expect_name(s) {
            None => false,
            Some(n) => {
                let ghost before = acc@;
                acc.push(n);
                assert(char_views(acc@) =~= char_views(before).push(n@));
                read_ident_tail(s, acc)
            },
        },
    }
}

/// Reads a possibly empty list of identifiers separated by `, `.
fn read_ident_list(s: &mut &[char]) -> (r: Option<Vec<Vec<char>>>)
    ensures
        match spec_ident_list(old(s)@) {
            Some((ns, rest)) => r matches Some(v) && char_views(v@) == ns && final(s)@ == rest,
            None => r is None,
        },
        r matches Some(v) ==> final(s)@.len() + 2 * v@.len() <= old(s)@.len(),
{
    match expect_name(s) {
        None => {
            let v: Vec<Vec<char>> = Vec::new();
            assert(char_views(v@) =~= seq![]);
            Some(v)
        },
        Some(n) => {
            let mut acc: Vec<Vec<char>> = Vec::new();
            acc.push(n);
            assert(char_views(acc@) =~= seq![n@]);
            if read_ident_tail(s, &mut acc) {
                Some(acc)
            } else {
                None
            }
        },
    }
}

/// Reads identifiers, each followed by `, `, appending them to `acc`.
fn read_value_list(s: &mut &[char], acc: &mut Vec<Vec<char>>) -> (ok: bool)
    ensures
        match spec_value_list(old(s)@, char_views(old(acc)@)) {
            Some((ns, rest)) => ok && char_views(final(acc)@) == ns && final(s)@ == rest,
            None => !ok,
        },
        ok ==> final(s)@.len() + 2 * (final(acc)@.len() - old(acc)@.len()) <= old(s)@.len(),
        final(acc)@.len() >= old(acc)@.len(),
    decreases old(s)@.len(),
{
    match expect_name(s) {
        None => true,
        Some(n) => match expect(s, ", ") {
            None => false,
            Some(()) => {
                let ghost before = acc@;
                acc.push(n);
                assert(char_views(acc@) =~= char_views(before).push(n@));
                read_value_list(s, acc)
            },
        },
    }
}

/// Reads a possibly empty list of integers separated by `, `.
fn read_int_list(s: &mut &[char]) -> (r: Option<Vec<i64>>)
    ensures
        match spec_int_list(old(s)@) {
            Some((vs, rest)) => r matches Some(v) && v@ == vs && final(s)@ == rest,
            None => r is None,
        },
{
    let mut acc: Vec<i64> = Vec::new();
    match expect_int(s) {
        None => Some(acc),
        Some(v) => {
            acc.push(v);
            assert(acc@ =~= seq![v]);
            if read_int_tail(s, &mut acc) {
                Some(acc)
            } else {
                None
            }
        },
    }
}

/// Reads two identifiers separated by `, ` that make up all of `s`.
fn read_two_idents(s: &[char]) -> (r: Option<(Vec<char>, Vec<char>)>)
    ensures
        match spec_two_idents(s@) {
            Some((a, b)) => r matches Some((x, y)) && x@ == a && y@ == b,
            None => r is None,
        },
        r is Some ==> 4 <= s@.len(),
{
    let mut s = s;
    let a = match expect_name(&mut s) {
        None => return None,
        Some(a) => a,
    };
    match expect(&mut s, ", ") {
        None => return None,
        Some(()) => {},
    }
    let b = match expect_name(&mut s) {
        None => return None,
        Some(b) => b,
    };
    if s.len() == 0 {
        Some((a, b))
    } else {
        None
    }
}

/// Reads one identifier that makes up all of `s`.
fn read_one_ident(s: &[char]) -> (r: Option<Vec<char>>)
    ensures
        match spec_one_ident(s@) {
            Some(a) => r matches Some(x) && x@ == a,
            None => r is None,
        },
        r is Some ==> 2 <= s@.len(),
{
    let mut s = s;
    match expect_name(&mut s) {
        None => None,
        Some(a) => if s.len() == 0 {
            Some(a)
        } else {
            None
        },
    }
}

/// Reads `value, integer` that make up all of `s`.
fn read_ident_int(s: &[char]) -> (r: Option<(Vec<char>, i64)>)
    ensures
        match spec_ident_int(s@) {
            Some((a, v)) => r matches Some((x, w)) && x@ == a && w == v,
            None => r is None,
        },
        r is Some ==> 2 <= s@.len(),
{
    let mut s = s;
    let a = match expect_name(&mut s) {
        None => return None,
        Some(a) => a,
    };
    match expect(&mut s, ", ") {
        None => return None,
        Some(()) => {},
    }
    let v = match expect_int(&mut s) {
        None => return None,
        Some(v) => v,
    };
    if s.len() == 0 {
        Some((a, v))
    } else {
        None
    }
}

/// Reads `value, exponents = [..]` that make up all of `s`.
fn read_galois_args(s: &[char]) -> (r: Option<(Vec<char>, Vec<i64>)>)
    ensures
        match spec_galois_args(s@) {
            Some((a, es)) => r matches Some((x, e)) && x@ == a && e@ == es,
            None => r is None,
        },
        r is Some ==> 2 <= s@.len(),
{
    let mut s = s;
    let a = match expect_name(&mut s) {
        None => return None,
        Some(a) => a,
    };
    match expect(&mut s, ", exponents = [") {
        None => return None,
        Some(()) => {},
    }
    let es = match read_int_list(&mut s) {
        None => return None,
        Some(es) => es,
    };
    match expect(&mut s, "]") {
        None => return None,
        Some(()) => {},
    }
    if s.len() == 0 {
        Some((a, es))
    } else {
        None
    }
}

/// Reads `v1, .., vn, coefficients = [c1, .., cm]` that make up all of `s`.
fn read_inner_prod_args(s: &[char]) -> (r: Option<(Vec<Vec<char>>, Vec<Vec<char>>)>)
    ensures
        match spec_inner_prod_args(s@) {
            Some((vs, cs)) => r matches Some((x, y)) && char_views(x@) == vs && char_views(y@)
                == cs,
            None => r is None,
        },
        r matches Some((x, y)) ==> 2 * x@.len() + 2 * y@.len() <= s@.len(),
{
    let mut s = s;
    let ghost s0 = s@;
    let mut vs: Vec<Vec<char>> = Vec::new();
    assert(char_views(vs@) =~= seq![]);
    if !read_value_list(&mut s, &mut vs) {
        return None;
    }
    let ghost s1 = s@;
    match expect(&mut s, "coefficients = [") {
        None => return None,
        Some(()) => {},
    }
    let ghost s2 = s@;
    let cs = match read_ident_list(&mut s) {
        None => return None,
        Some(cs) => cs,
    };
    match expect(&mut s, "]") {
        None => return None,
        Some(()) => {},
    }
    assert(s@.len() <= s2.len() - 2 * cs@.len());
    assert(s2.len() <= s1.len());
    assert(s1.len() + 2 * vs@.len() <= s0.len());
    if s.len() == 0 {
        Some((vs, cs))
    } else {
        None
    }
}

/// The only output, when there is exactly one.
fn single_output(outs: Vec<Vec<char>>) -> (r: Option<Vec<char>>)
    ensures
        match spec_single(char_views(outs@)) {
            Some(o) => r matches Some(x) && x@ == o,
            None => r is None,
        },
{
    if outs.len() == 1 {
        let mut outs = outs;
        outs.pop()
    } else {
        None
    }
}

/// One output and two identifiers that make up all of `s`.
fn read_binary(outs: Vec<Vec<char>>, s: &[char]) -> (r: Option<(Vec<char>, Vec<char>, Vec<char>)>)
    ensures
        match spec_binary(char_views(outs@), s@) {
            Some((o, a, b)) => r matches Some((x, y, z)) && x@ == o && y@ == a && z@ == b,
            None => r is None,
        },
        r is Some ==> 4 <= s@.len(),
{
    let o = match single_output(outs) {
        None => return None,
        Some(o) => o,
    };
    match read_two_idents(s) {
        None => None,
        Some((a, b)) => Some((o, a, b)),
    }
}

/// The instruction whose outputs are `outs` and whose text after them is `s`.
fn parse_op(outs: Vec<Vec<char>>, s: &[char]) -> (r: Option<GenericInstruction<Vec<char>, Vec<char>>>)
    ensures
        match spec_parse_op(char_views(outs@), s@) {
            Some(i) => r matches Some(x) && x@ == i,
            None => r is None,
        },
        r matches Some(x) ==> 2 * name_count(x@) <= 2 * outs@.len() + s@.len() + 2,
{
    let ghost ov = char_views(outs@);
    let mut t = s;
    if expect(&mut t, " = add ").is_some() {
        return match read_binary(outs, t) {
            None => None,
            Some((o, a, b)) => Some(GenericInstruction::AddCtxCtx { out: o, lhs: a, rhs: b }),
        };
    }
    if expect(&mut t, " = add_ptx ").is_some() {
        return match read_binary(outs, t) {
            None => None,
            Some((o, a, b)) => Some(GenericInstruction::AddPtxCtx { out: o, value: a, plaintext: b }),
        };
    }
    if expect(&mut t, " = mul ").is_some() {
        return match read_binary(outs, t) {
            None => None,
            Some((o, a, b)) => Some(GenericInstruction::MulCtxCtx { out: o, lhs: a, rhs: b }),
        };
    }
    if expect(&mut t, " = mul_ptx ").is_some() {
        return match read_binary(outs, t) {
            None => None,
            Some((o, a, b)) => Some(GenericInstruction::MulPtxCtx { out: o, value: a, plaintext: b }),
        };
    }
    if expect(&mut t, " = mul_int ").is_some() {
        let o = match single_output(outs) {
            None => return None,
            Some(o) => o,
        };
        return match read_ident_int(t) {
            None => None,
            Some((a, v)) => Some(GenericInstruction::MulIntCtx { out: o, value: a, integer: v }),
        };
    }
    if expect(&mut t, " = galois ").is_some() {
        return match read_galois_args(t) {
            None => None,
            Some((a, es)) => {
                let r = GenericInstruction::Galois { out: outs, val: a, exponents: es };
                assert(r@->Galois_out =~= ov);
                Some(r)
            },
        };
    }
    if expect(&mut t, " = copy ").is_some() {
        let o = match single_output(outs) {
            None => return None,
            Some(o) => o,
        };
        return match read_one_ident(t) {
            None => None,
            Some(a) => Some(GenericInstruction::Copy { out: o, val: a }),
        };
    }
    if expect(&mut t, "return ").is_some() {
        return match read_one_ident(t) {
            None => None,
            Some(a) => if outs.len() == 0 {
                Some(GenericInstruction::Return { val: a })
            } else {
                None
            },
        };
    }
    if expect(&mut t, " = inner_prod ").is_some() {
        let o = match single_output(outs) {
            None => return None,
            Some(o) => o,
        };
        return match read_inner_prod_args(t) {
            None => None,
            Some((vs, cs)) => {
                let r = GenericInstruction::InnerProduct { out: o, values: vs, coefficients: cs };
                assert(r@->InnerProduct_values =~= char_views(vs@));
                assert(r@->InnerProduct_coefficients =~= char_views(cs@));
                Some(r)
            },
        };
    }
    if expect(&mut t, " = zero").is_some() {
        let o = match single_output(outs) {
            None => return None,
            Some(o) => o,
        };
        return if t.len() == 0 {
            Some(GenericInstruction::Zero { out: o })
        } else {
            None
        };
    }
    None
}

/// Reads the instruction that a line of the body spells, with its
/// identifiers as names.
pub fn parse_instruction(line: &[char]) -> (r: Option<GenericInstruction<Vec<char>, Vec<char>>>)
    ensures
        match spec_parse_inst(line@) {
            Some(i) => r matches Some(x) && x@ == i,
            None => r is None,
        },
        r matches Some(x) ==> name_count(x@) <= line@.len(),
{
    let mut s = trim(line);
    proof {
        crate::text::lemma_trim_len(line@);
    }
    match read_ident_list(&mut s) {
        None => None,
        Some(outs) => parse_op(outs, s),
    }
}

/// Reads `, ` and an identifier as long as both come, appending each
/// identifier to `acc`.
fn read_tail_names(s: &mut &[char], acc: &mut Vec<Vec<char>>)
    ensures
        char_views(final(acc)@) == tail_names(old(s)@, char_views(old(acc)@)),
        final(acc)@.len() >= old(acc)@.len(),
        2 * (final(acc)@.len() - old(acc)@.len()) + final(s)@.len() <= old(s)@.len(),
    decreases old(s)@.len(),
{
    proof {
        reveal_strlit(", ");
    }
    match expect(s, ", ") {
        None => {},
        Some(()) => match expect_name(s) {
            None => {},
            Some(n) => {
                let ghost before = acc@;
                acc.push(n);
                assert(char_views(acc@) =~= char_views(before).push(n@));
                read_tail_names(s, acc);
            },
        },
    }
}

/// Reads a list of identifiers separated by `, ` for as long as it goes on.
fn read_list_names(s: &[char]) -> (r: Vec<Vec<char>>)
    ensures
        char_views(r@) == list_names(s@),
        2 * r@.len() <= s@.len(),
{
    let mut t = s;
    let mut acc: Vec<Vec<char>> = Vec::new();
    match expect_name(&mut t) {
        None => {
            assert(char_views(acc@) =~= seq![]);
        },
        Some(n) => {
            acc.push(n);
            assert(char_views(acc@) =~= seq![n@]);
            read_tail_names(&mut t, &mut acc);
        },
    }
    acc
}

/// Reads identifiers, each followed by `, `, appending each identifier read
/// to `acc`; tells whether the list ended where no identifier follows.
fn read_value_names(s: &mut &[char], acc: &mut Vec<Vec<char>>) -> (ok: bool)
    ensures
        char_views(final(acc)@) == value_names(old(s)@, char_views(old(acc)@)),
        match spec_value_list(old(s)@, char_views(old(acc)@)) {
            Some((ns, rest)) => ok && ns == char_views(final(acc)@) && final(s)@ == rest,
            None => !ok,
        },
        final(acc)@.len() >= old(acc)@.len(),
        2 * (final(acc)@.len() - old(acc)@.len()) + final(s)@.len() <= old(s)@.len(),
    decreases old(s)@.len(),
{
    match expect_name(s) {
        None => true,
        Some(n) => {
            let ghost before = acc@;
            acc.push(n);
            assert(char_views(acc@) =~= char_views(before).push(n@));
            match expect(s, ", ") {
                None => false,
                Some(()) => read_value_names(s, acc),
            }
        },
    }
}

/// Reads the identifier that `s` starts with, if any.
fn read_first_name(s: &[char]) -> (r: Vec<Vec<char>>)
    ensures
        char_views(r@) == first_name(s@),
        2 * r@.len() <= s@.len(),
{
    let mut t = s;
    let mut r: Vec<Vec<char>> = Vec::new();
    match expect_name(&mut t) {
        None => {
            assert(char_views(r@) =~= seq![]);
        },
        Some(a) => {
            r.push(a);
            assert(char_views(r@) =~= seq![a@]);
        },
    }
    r
}

/// Reads two identifiers separated by `, `, as far as they come.
fn read_pair_names(s: &[char]) -> (r: Vec<Vec<char>>)
    ensures
        char_views(r@) == pair_names(s@),
        2 * r@.len() <= s@.len(),
{
    proof {
        reveal_strlit(", ");
    }
    let mut t = s;
    let mut r: Vec<Vec<char>> = Vec::new();
    match expect_name(&mut t) {
        None => {
            assert(char_views(r@) =~= seq![]);
        },
        Some(a) => {
            r.push(a);
            assert(char_views(r@) =~= seq![a@]);
            match expect(&mut t, ", ") {
                None => {},
                Some(()) => match expect_name(&mut t) {
                    None => {},
                    Some(b) => {
                        r.push(b);
                        assert(char_views(r@) =~= seq![a@, b@]);
                    },
                },
            }
        },
    }
    r
}

/// Reads the identifiers of the arguments of an inner product, as far as
/// they come.
fn read_inner_prod_names(s: &[char]) -> (r: Vec<Vec<char>>)
    ensures
        char_views(r@) == inner_prod_names(s@),
        2 * r@.len() <= s@.len(),
{
    let mut t = s;
    let mut acc: Vec<Vec<char>> = Vec::new();
    assert(char_views(acc@) =~= seq![]);
    let ok = read_value_names(&mut t, &mut acc);
    if ok {
        match expect(&mut t, "coefficients = [") {
            None => {},
            Some(()) => {
                let mut more = read_list_names(t);
                let ghost a = acc@;
                let ghost b = more@;
                acc.append(&mut more);
                assert(char_views(acc@) =~= char_views(a) + char_views(b));
            },
        }
    }
    acc
}

/// Reads the identifiers of the operation after the outputs, as far as they
/// come, trying the operations in the order of `spec_parse_op`.
fn read_op_names(s: &[char]) -> (r: Vec<Vec<char>>)
    ensures
        char_views(r@) == op_names(s@),
        2 * r@.len() <= s@.len(),
{
    let mut t = s;
    match expect(&mut t, " = add ") {
        Some(()) => return read_pair_names(t),
        None => {},
    }
    match expect(&mut t, " = add_ptx ") {
        Some(()) => return read_pair_names(t),
        None => {},
    }
    match expect(&mut t, " = mul ") {
        Some(()) => return read_pair_names(t),
        None => {},
    }
    match expect(&mut t, " = mul_ptx ") {
        Some(()) => return read_pair_names(t),
        None => {},
    }
    match expect(&mut t, " = mul_int ") {
        Some(()) => return read_first_name(t),
        None => {},
    }
    match expect(&mut t, " = galois ") {
        Some(()) => return read_first_name(t),
        None => {},
    }
    match expect(&mut t, " = copy ") {
        Some(()) => return read_first_name(t),
        None => {},
    }
    match expect(&mut t, "return ") {
        Some(()) => return read_first_name(t),
        None => {},
    }
    match expect(&mut t, " = inner_prod ") {
        Some(()) => return read_inner_prod_names(t),
        None => {},
    }
    let r: Vec<Vec<char>> = Vec::new();
    assert(char_views(r@) =~= seq![]);
    r
}

/// Reads the names that a line of the body looks up, in order, up to where
/// reading stops.
fn read_names(line: &[char]) -> (r: Vec<Vec<char>>)
    ensures
        char_views(r@) == spec_read_names(line@),
        r@.len() <= line@.len(),
{
    let t = trim(line);
    proof {
        crate::text::lemma_trim_len(line@);
    }
    let mut s = t;
    match read_ident_list(&mut s) {
        None => read_list_names(t),
        Some(outs) => {
            let mut r = outs;
            let mut more = read_op_names(s);
            let ghost a = r@;
            let ghost b = more@;
            r.append(&mut more);
            assert(char_views(r@) =~= char_views(a) + char_views(b));
            r
        },
    }
}

/// Where a list of identifiers after the first is read, the names looked up
/// are those of the list.
proof fn lemma_tail_names_read(s: Seq<char>, acc: Seq<Seq<char>>)
    ensures
        spec_ident_tail(s, acc) matches Some((ns, r)) ==> tail_names(s, acc) == ns,
    decreases s.len(),
{
    match spec_expect(s, ", "@) {
        None => {},
        Some(r) => match spec_ident(r) {
            None => {},
            Some((n, r2)) => {
                lemma_ident_tail_len(r.drop_first());
                lemma_tail_names_read(r2, acc.push(n));
            },
        },
    }
}

/// Where identifiers each followed by `, ` are read, the names looked up are
/// those read.
proof fn lemma_value_names_read(s: Seq<char>, acc: Seq<Seq<char>>)
    ensures
        spec_value_list(s, acc) matches Some((ns, r)) ==> value_names(s, acc) == ns,
    decreases s.len(),
{
    match spec_ident(s) {
        None => {},
        Some((n, r)) => match spec_expect(r, ", "@) {
            None => {},
            Some(r2) => {
                lemma_ident_tail_len(s.drop_first());
                lemma_value_names_read(r2, acc.push(n));
            },
        },
    }
}

/// Where a line spells an instruction, the names that reading it looks up
/// are the identifiers of the instruction and then its constants.
#[verifier::spinoff_prover]
#[verifier::rlimit(50)]
pub proof fn lemma_read_names_parsed(line: Seq<char>)
    ensures
        spec_parse_inst(line) matches Some(ni) ==> spec_read_names(line) == ni.idents()
            + ni.ptxs(),
{
    let t = spec_trim(line);
    match spec_ident(t) {
        None => {},
        Some((n, r)) => lemma_tail_names_read(r, seq![n]),
    }
    match spec_ident_list(t) {
        None => {},
        Some((outs, s)) => {
            match spec_parse_op(outs, s) {
                None => {},
                Some(ni) => {
                    let e = Seq::<Seq<char>>::empty();
                    if let Some(r) = spec_expect(s, " = galois "@) {
                        assert(outs + op_names(s) =~= ni.idents() + ni.ptxs());
                    } else if let Some(r) = spec_expect(s, " = inner_prod "@) {
                        if spec_expect(s, " = add "@) is None && spec_expect(s, " = add_ptx "@)
                            is None && spec_expect(s, " = mul "@) is None && spec_expect(
                            s,
                            " = mul_ptx "@,
                        ) is None && spec_expect(s, " = mul_int "@) is None && spec_expect(
                            s,
                            " = copy "@,
                        ) is None && spec_expect(s, "return "@) is None {
                            lemma_value_names_read(r, e);
                            let (vs, r1) = spec_value_list(r, e)->0;
                            let r2 = spec_expect(r1, "coefficients = ["@)->0;
                            match spec_ident(r2) {
                                None => {},
                                Some((c, r3)) => lemma_tail_names_read(r3, seq![c]),
                            }
                            assert(outs + op_names(s) =~= ni.idents() + ni.ptxs());
                        } else {
                            assert(outs + op_names(s) =~= ni.idents() + ni.ptxs());
                        }
                    } else {
                        assert(outs + op_names(s) =~= ni.idents() + ni.ptxs());
                    }
                },
            }
        },
    }
}

/// The line `}` looks up no name.
proof fn lemma_close_reads_no_name(line: Seq<char>)
    requires
        spec_trim(line) == "}"@,
    ensures
        spec_read_names(line) == Seq::<Seq<char>>::empty(),
{
    reveal_strlit("}");
    reveal_strlit(" = add ");
    reveal_strlit(" = add_ptx ");
    reveal_strlit(" = mul ");
    reveal_strlit(" = mul_ptx ");
    reveal_strlit(" = mul_int ");
    reveal_strlit(" = galois ");
    reveal_strlit(" = copy ");
    reveal_strlit("return ");
    reveal_strlit(" = inner_prod ");
    let t = spec_trim(line);
    assert(t.len() == 1 && t[0] == '}');
    assert(spec_ident(t) is None);
    assert(op_names(t) =~= Seq::<Seq<char>>::empty());
    assert(Seq::<Seq<char>>::empty() + op_names(t) =~= Seq::<Seq<char>>::empty());
}

/// Reads the parameter names of the header line `func(..) {`.
pub fn parse_header(line: &[char]) -> (r: Option<Vec<Vec<char>>>)
    ensures
        match spec_parse_header(line@) {
            Some(ps) => r matches Some(v) && char_views(v@) == ps,
            None => r is None,
        },
        r matches Some(v) ==> 2 * v@.len() <= line@.len(),
{
    let mut s = trim(line);
    assert(spec_trim(line@).len() <= line@.len()) by {
        crate::text::lemma_trim_len(line@);
    }
    match expect(&mut s, "func(") {
        None => return None,
        Some(()) => {},
    }
    let params = match read_ident_list(&mut s) {
        None => return None,
        Some(ps) => ps,
    };
    match expect(&mut s, ") {") {
        None => return None,
        Some(()) => {},
    }
    if s.len() == 0 {
        Some(params)
    } else {
        None
    }
}

// ---------------------------------------------------------------------------
// The grammar of a program, over lines
// ---------------------------------------------------------------------------

/// A line that holds only whitespace.
pub open spec fn is_blank(l: Seq<char>) -> bool {
    spec_trim(l).len() == 0
}

/// Finds the header `func(..) {`, skipping blank lines: gives its parameter
/// names, the text after it and the number of the next line. `Err(0)` when
/// only blank lines are left, `Err(k)` when line `k`, the first that is not
/// blank, is no header.
pub open spec fn spec_find_header(s: Seq<char>, k: nat) -> Result<
    (Seq<Seq<char>>, Seq<char>, nat),
    usize,
>
    decreases s.len(),
{
    if s.len() == 0 {
        Err(0)
    } else {
        proof {
            lemma_after_line_len(s);
        }
        if is_blank(first_line(s)) {
            spec_find_header(after_line(s), k + 1)
        } else {
            match spec_parse_header(first_line(s)) {
                None => Err(k as usize),
                Some(ps) => Ok((ps, after_line(s), k + 1)),
            }
        }
    }
}

/// Reads the body, from the line numbered `k` on: each line that is not blank
/// is an instruction, whose names are looked up in the table in the order in
/// which they occur, until the line `}`. Gives the table, the instructions,
/// the text after `}` and the number of the next line. `Err(k)` for the first
/// line `k` that is neither, `Err(usize::MAX)` when no line `}` comes.
pub open spec fn spec_body(
    s: Seq<char>,
    k: nat,
    names: Seq<Seq<char>>,
    insts: Seq<InstructionView<usize, usize>>,
) -> Result<(Seq<Seq<char>>, Seq<InstructionView<usize, usize>>, Seq<char>, nat), usize>
    decreases s.len(),
{
    if s.len() == 0 {
        Err(usize::MAX)
    } else {
        proof {
            lemma_after_line_len(s);
        }
        let l = first_line(s);
        if is_blank(l) {
            spec_body(after_line(s), k + 1, names, insts)
        } else {
            match spec_parse_inst(l) {
                Some(ni) => {
                    let names2 = intern_all(names, ni.idents() + ni.ptxs());
                    spec_body(
                        after_line(s),
                        k + 1,
                        names2,
                        insts.push(inst_map(ni, index_in(names2), index_in(names2))),
                    )
                },
                None => if spec_trim(l) == "}"@ {
                    Ok((names, insts, after_line(s), k + 1))
                } else {
                    Err(k as usize)
                },
            }
        }
    }
}

/// Reads the data of the constants, from the line numbered `k` on: each line
/// that is not blank is `name: text`, where the text is read by
/// `P::spec_from_text`; a name may have data once. `Err(k)` for the first
/// line `k` that breaks this.
pub open spec fn spec_data<P: PlaintextSyntax>(
    s: Seq<char>,
    k: nat,
    names: Seq<Seq<char>>,
    data: Map<usize, P::V>,
) -> Result<(Seq<Seq<char>>, Map<usize, P::V>), usize>
    decreases s.len(),
{
    if s.len() == 0 {
        Ok((names, data))
    } else {
        proof {
            lemma_after_line_len(s);
        }
        let l = first_line(s);
        if is_blank(l) {
            spec_data::<P>(after_line(s), k + 1, names, data)
        } else {
            match spec_ident(spec_trim(l)) {
                None => Err(k as usize),
                Some((n, r)) => {
                    let (names2, x) = intern(names, n);
                    match spec_expect(r, ": "@) {
                        None => Err(k as usize),
                        Some(r2) => match P::spec_from_text(r2) {
                            None => Err(k as usize),
                            Some(v) => if data.dom().contains(x) {
                                Err(k as usize)
                            } else {
                                spec_data::<P>(after_line(s), k + 1, names2, data.insert(x, v))
                            },
                        },
                    }
                },
            }
        }
    }
}

/// The program that a text spells, or the number of the line of the first
/// error: the header, the body and the data, with names indexed in the order
/// in which they first occur.
pub open spec fn spec_parse_program<P: PlaintextSyntax>(text: Seq<char>) -> Result<
    ProgramView<P::V>,
    usize,
> {
    match spec_find_header(text, 0) {
        Err(e) => Err(e),
        Ok((params, r, k)) => {
            let names0 = intern_all(seq![], params);
            match spec_body(r, k, names0, seq![]) {
                Err(e) => Err(e),
                Ok((names1, insts, r2, k2)) => match spec_data::<P>(r2, k2, names1, Map::empty()) {
                    Err(e) => Err(e),
                    Ok((names2, data)) => Ok(
                        ProgramView {
                            names: names2,
                            inputs: params.map_values(index_in(names0)),
                            instructions: insts,
                            data,
                        },
                    ),
                },
            }
        },
    }
}

// ---------------------------------------------------------------------------
// From names to indices
// ---------------------------------------------------------------------------

/// The names of an instruction with names are the characters of its fields.
pub proof fn lemma_name_views(i: GenericInstruction<Vec<char>, Vec<char>>)
    ensures
        i@.idents() == char_views(i.nonptx_idents()),
        i@.ptxs() == char_views(i.ptx_idents()),
{
    assert(i@.idents() =~= char_views(i.nonptx_idents()));
    assert(i@.ptxs() =~= char_views(i.ptx_idents()));
}

/// A copy of a name.
fn copy_name(v: &Vec<char>) -> (r: Vec<char>)
    ensures
        r@ == v@,
{
    slice_to_vec(v.as_slice())
}

/// Appends copies of the names of `src`.
fn push_names(dst: &mut Vec<Vec<char>>, src: &Vec<Vec<char>>)
    ensures
        char_views(final(dst)@) == char_views(old(dst)@) + char_views(src@),
{
    let ghost start = char_views(dst@);
    for k in 0..src.len()
        invariant
            char_views(dst@) == start + char_views(src@).take(k as int),
    {
        let ghost before = dst@;
        dst.push(copy_name(&src[k]));
        assert(char_views(dst@) =~= char_views(before).push(src@[k as int]@));
        assert(char_views(src@).take(k + 1) =~= char_views(src@).take(k as int).push(
            src@[k as int]@,
        ));
    }
    assert(char_views(src@).take(src@.len() as int) =~= char_views(src@));
}

/// The names an instruction mentions: those that do not denote constants,
/// then those that do.
pub(crate) fn names_of(i: &GenericInstruction<Vec<char>, Vec<char>>) -> (r: Vec<Vec<char>>)
    ensures
        char_views(r@) == i@.idents() + i@.ptxs(),
{
    let mut r: Vec<Vec<char>> = Vec::new();
    match i {
        GenericInstruction::AddCtxCtx { out, lhs, rhs } | GenericInstruction::MulCtxCtx {
            out,
            lhs,
            rhs,
        } => {
            r.push(copy_name(out));
            r.push(copy_name(lhs));
            r.push(copy_name(rhs));
        },
        GenericInstruction::AddPtxCtx { out, value, plaintext }
        | GenericInstruction::MulPtxCtx { out, value, plaintext } => {
            r.push(copy_name(out));
            r.push(copy_name(value));
            r.push(copy_name(plaintext));
        },
        GenericInstruction::MulIntCtx { out, value, .. } => {
            r.push(copy_name(out));
            r.push(copy_name(value));
        },
        GenericInstruction::Copy { out, val } => {
            r.push(copy_name(out));
            r.push(copy_name(val));
        },
        GenericInstruction::Zero { out } => {
            r.push(copy_name(out));
        },
        GenericInstruction::Return { val } => {
            r.push(copy_name(val));
        },
        GenericInstruction::Galois { out, val, .. } => {
            push_names(&mut r, out);
            r.push(copy_name(val));
        },
        GenericInstruction::InnerProduct { out, values, coefficients } => {
            r.push(copy_name(out));
            push_names(&mut r, values);
            push_names(&mut r, coefficients);
        },
    }
    proof {
        lemma_name_views(*i);
    }
    assert(char_views(r@) =~= i@.idents() + i@.ptxs());
    r
}

/// Looks up each of `ns` in turn.
pub(crate) fn intern_names(table: &mut IdentifierTable, ns: &Vec<Vec<char>>)
    requires
        old(table).wf(),
        old(table).counter + ns@.len() < usize::MAX,
    ensures
        final(table).wf(),
        final(table)@ == intern_all(old(table)@, char_views(ns@)),
        final(table).counter <= old(table).counter + ns@.len(),
{
    let ghost start = table@;
    let ghost c0 = table.counter;
    for k in 0..ns.len()
        invariant
            table.wf(),
            c0 + ns@.len() < usize::MAX,
            table.counter <= c0 + k,
            table@ == intern_all(start, char_views(ns@).take(k as int)),
    {
        let name = string_of(ns[k].as_slice());
        table.ident_by_name(name.as_str());
        assert(char_views(ns@).take(k + 1).drop_last() =~= char_views(ns@).take(k as int));
    }
    assert(char_views(ns@).take(ns@.len() as int) =~= char_views(ns@));
}

/// The instruction with each name replaced by its index in the table.
pub(crate) fn index_instruction(ni: GenericInstruction<Vec<char>, Vec<char>>, table: &IdentifierTable) -> (r:
    GenericInstruction)
    requires
        table.wf(),
        forall|k: int| 0 <= k < ni@.idents().len() ==> table@.contains(#[trigger] ni@.idents()[k]),
        forall|k: int| 0 <= k < ni@.ptxs().len() ==> table@.contains(#[trigger] ni@.ptxs()[k]),
    ensures
        r@ == inst_map(ni@, index_in(table@), index_in(table@)),
        idents_below(r@, table.counter as nat),
{
    let f = |n: Vec<char>| -> (i: usize)
        requires
            table.wf(),
            table@.contains(n@),
        ensures
            i as int == table@.index_of(n@),
            i < table.counter,
        {
            let st = string_of(n.as_slice());
            table.get_by_name(st.as_str())
        };
    let ghost orig = ni;
    proof {
        lemma_name_views(ni);
        assert forall|k: int| 0 <= k < orig.nonptx_idents().len() implies #[trigger] call_requires(
            f,
            (orig.nonptx_idents()[k],),
        ) by {
            assert(orig@.idents()[k] == orig.nonptx_idents()[k]@);
        }
        assert forall|k: int| 0 <= k < orig.ptx_idents().len() implies #[trigger] call_requires(
            f,
            (orig.ptx_idents()[k],),
        ) by {
            assert(orig@.ptxs()[k] == orig.ptx_idents()[k]@);
        }
    }
    let mid = ni.map_nonptx_identifiers(&f);
    assert(mid.ptx_idents() == orig.ptx_idents()) by {
        match orig {
            GenericInstruction::InnerProduct { .. } => {},
            _ => {},
        }
    }
    let r = mid.map_ptx(&f);
    proof {
        lemma_renamed_view(f, f, orig, mid, r, index_in(table@), index_in(table@));
        lemma_inst_map_idents(orig@, index_in(table@), index_in(table@));
        assert forall|k: int| 0 <= k < r@.idents().len() implies #[trigger] r@.idents()[k]
            < table.counter by {
            let n = orig@.idents()[k];
            assert(table@.contains(n));
            let i = table@.index_of(n);
            assert(0 <= i < table@.len() && table@[i] == n);
        }
        assert forall|k: int| 0 <= k < r@.ptxs().len() implies #[trigger] r@.ptxs()[k]
            < table.counter by {
            let n = orig@.ptxs()[k];
            assert(table@.contains(n));
            let i = table@.index_of(n);
            assert(0 <= i < table@.len() && table@[i] == n);
        }
    }
    r
}

impl GenericInstruction<usize, usize> {
    /// Reads the instruction that a line of the body spells, looking up its
    /// names in the table in the order in which they occur. When the line
    /// spells no instruction, the names read before reading stopped have
    /// been looked up all the same.
    pub(crate) fn parse(line: &[char], table: &mut IdentifierTable) -> (r: Option<Self>)
        requires
            old(table).wf(),
            old(table).counter + line@.len() < usize::MAX,
        ensures
            final(table).wf(),
            old(table)@.is_prefix_of(final(table)@),
            final(table).counter <= old(table).counter + line@.len(),
            final(table)@ == intern_all(old(table)@, spec_read_names(line@)),
            match spec_parse_inst(line@) {
                Some(ni) => r matches Some(x) && final(table)@ == intern_all(
                    old(table)@,
                    ni.idents() + ni.ptxs(),
                ) && x@ == inst_map(ni, index_in(final(table)@), index_in(final(table)@))
                    && idents_below(x@, final(table).counter as nat),
                None => r is None,
            },
    {
        proof {
            lemma_read_names_parsed(line@);
        }
        match parse_instruction(line) {
            None => {
                let ns = read_names(line);
                proof {
                    lemma_intern_all(table@, char_views(ns@));
                }
                intern_names(table, &ns);
                None
            },
            Some(ni) => {
                let ns = names_of(&ni);
                proof {
                    lemma_intern_all(table@, char_views(ns@));
                }
                intern_names(table, &ns);
                proof {
                    let all = ni@.idents() + ni@.ptxs();
                    assert forall|k: int| 0 <= k < ni@.idents().len() implies table@.contains(
                        #[trigger] ni@.idents()[k],
                    ) by {
                        assert(all[k] == ni@.idents()[k]);
                    }
                    assert forall|k: int| 0 <= k < ni@.ptxs().len() implies table@.contains(
                        #[trigger] ni@.ptxs()[k],
                    ) by {
                        assert(all[ni@.idents().len() + k] == ni@.ptxs()[k]);
                    }
                }
                Some(index_instruction(ni, table))
            },
        }
    }
}

// ---------------------------------------------------------------------------
// Readers of a whole program
// ---------------------------------------------------------------------------

/// Whether a line holds only whitespace.
fn blank_line(l: &[char]) -> (b: bool)
    ensures
        b == is_blank(l@),
{
    trim(l).len() == 0
}

/// Finds the header: its parameter names, the position after it and the
/// number of the next line.
pub(crate) fn read_header(t: &[char]) -> (r: Result<(Vec<Vec<char>>, usize, usize), usize>)
    requires
        t@.len() < usize::MAX,
    ensures
        match spec_find_header(t@, 0) {
            Ok((ps, rest, k)) => r matches Ok((v, pos, kk)) && char_views(v@) == ps && pos
                <= t@.len() && t@.skip(pos as int) == rest && kk == k && kk <= pos && v@.len()
                <= pos,
            Err(e) => r matches Err(x) && x == e,
        },
{
    let mut pos: usize = 0;
    let mut k: usize = 0;
    assert(t@.skip(0) =~= t@);
    while pos < t.len()
        invariant
            pos <= t@.len() < usize::MAX,
            k <= pos,
            spec_find_header(t@.skip(pos as int), k as nat) == spec_find_header(t@, 0),
        decreases t@.len() - pos,
    {
        let e = line_end(t, pos);
        let line = slice_subrange(t, pos, e);
        let next = if e < t.len() {
            e + 1
        } else {
            e
        };
        proof {
            lemma_line_at(t@, pos as int, e as int);
        }
        if !blank_line(line) {
            return match parse_header(line) {
                None => Err(k),
                Some(ps) => Ok((ps, next, k + 1)),
            };
        }
        pos = next;
        k = k + 1;
    }
    assert(t@.skip(pos as int) =~= seq![]);
    Err(0)
}

/// Reads the body from position `pos`, which starts line `k`: the
/// instructions, the position after the line `}` and the number of the next
/// line.
pub(crate) fn read_body(t: &[char], pos: usize, k: usize, table: &mut IdentifierTable) -> (r:
    Result<(Vec<GenericInstruction>, usize, usize), usize>)
    requires
        t@.len() < usize::MAX,
        pos <= t@.len(),
        k <= pos,
        old(table).wf(),
        old(table).counter <= pos,
    ensures
        final(table).wf(),
        old(table)@.is_prefix_of(final(table)@),
        match spec_body(t@.skip(pos as int), k as nat, old(table)@, seq![]) {
            Ok((names, insts, rest, k2)) => r matches Ok((v, p2, kk)) && final(table)@ == names
                && inst_views(v@) == insts && p2 <= t@.len() && t@.skip(p2 as int) == rest && kk
                == k2 && kk <= p2 && final(table).counter <= p2 && v@.len() + k <= kk && (forall|
                j: int|
                0 <= j < v@.len() ==> idents_below(#[trigger] v@[j]@, final(table).counter as nat)),
            Err(e) => r matches Err(x) && x == e,
        },
{
    let mut p = pos;
    let mut n = k;
    let mut insts: Vec<GenericInstruction> = Vec::new();
    assert(inst_views(insts@) =~= seq![]);
    while p < t.len()
        invariant
            p <= t@.len() < usize::MAX,
            k <= n <= p,
            table.wf(),
            table.counter <= p,
            old(table)@.is_prefix_of(table@),
            insts@.len() + k <= n,
            forall|j: int|
                0 <= j < insts@.len() ==> idents_below(#[trigger] insts@[j]@, table.counter as nat),
            spec_body(t@.skip(p as int), n as nat, table@, inst_views(insts@)) == spec_body(
                t@.skip(pos as int),
                k as nat,
                old(table)@,
                seq![],
            ),
        decreases t@.len() - p,
    {
        let e = line_end(t, p);
        let line = slice_subrange(t, p, e);
        let next = if e < t.len() {
            e + 1
        } else {
            e
        };
        proof {
            lemma_line_at(t@, p as int, e as int);
        }
        if !blank_line(line) {
            let ghost before = table@;
            let ghost c_before = table.counter;
            match GenericInstruction::parse(line, table) {
                Some(inst) => {
                    let ghost old_insts = insts@;
                    insts.push(inst);
                    assert(inst_views(insts@) =~= inst_views(old_insts).push(inst@));
                    assert(old(table)@.is_prefix_of(table@)) by {
                        assert forall|i: int| 0 <= i < old(table)@.len() implies table@[i]
                            == old(table)@[i] by {
                            assert(before[i] == old(table)@[i]);
                        }
                    }
                    assert forall|j: int| 0 <= j < insts@.len() implies idents_below(
                        #[trigger] insts@[j]@,
                        table.counter as nat,
                    ) by {
                        if j < old_insts.len() {
                            assert(idents_below(old_insts[j]@, c_before as nat));
                        }
                    }
                },
                None => {
                    proof {
                        lemma_prefix_trans(old(table)@, before, table@);
                    }
                    if chars_eq(trim(line), "}") {
                        proof {
                            lemma_close_reads_no_name(line@);
                        }
                        return Ok((insts, next, n + 1));
                    }
                    return Err(n);
                },
            }
        }
        p = next;
        n = n + 1;
    }
    assert(t@.skip(p as int) =~= seq![]);
    Err(usize::MAX)
}

/// Reads the data of the constants from position `pos`, which starts line `k`.
pub(crate) fn read_data<P: PlaintextSyntax>(
    t: &[char],
    pos: usize,
    k: usize,
    table: &mut IdentifierTable,
) -> (r: Result<HashMap<usize, P>, usize>)
    requires
        t@.len() < usize::MAX,
        pos <= t@.len(),
        k <= pos,
        old(table).wf(),
        old(table).counter <= pos,
    ensures
        final(table).wf(),
        old(table)@.is_prefix_of(final(table)@),
        match spec_data::<P>(t@.skip(pos as int), k as nat, old(table)@, Map::empty()) {
            Ok((names, data)) => r matches Ok(m) && final(table)@ == names && map_views(m@) == data
                && m@.dom().len() + k <= t@.len() && (forall|x: usize| #[trigger]
                m@.dom().contains(x) ==> x < final(table).counter),
            Err(e) => r matches Err(x) && x == e,
        },
{
    let mut p = pos;
    let mut n = k;
    let mut m: HashMap<usize, P> = HashMap::new();
    assert(map_views(m@) =~= Map::<usize, P::V>::empty());
    while p < t.len()
        invariant
            p <= t@.len() < usize::MAX,
            k <= n <= p,
            table.wf(),
            table.counter <= p,
            old(table)@.is_prefix_of(table@),
            m@.dom().len() + k <= n,
            forall|x: usize| #[trigger] m@.dom().contains(x) ==> x < table.counter,
            spec_data::<P>(t@.skip(p as int), n as nat, table@, map_views(m@)) == spec_data::<P>(
                t@.skip(pos as int),
                k as nat,
                old(table)@,
                Map::empty(),
            ),
        decreases t@.len() - p,
    {
        let e = line_end(t, p);
        let line = slice_subrange(t, p, e);
        let next = if e < t.len() {
            e + 1
        } else {
            e
        };
        proof {
            lemma_line_at(t@, p as int, e as int);
        }
        if !blank_line(line) {
            let mut s = trim(line);
            let name = match expect_name(&mut s) {
                None => return Err(n),
                Some(n) => n,
            };
            let name_str = string_of(name.as_slice());
            let ghost before = table@;
            proof {
                lemma_intern(before, name@);
            }
            let x = table.ident_by_name(name_str.as_str());
            assert(old(table)@.is_prefix_of(table@)) by {
                assert forall|i: int| 0 <= i < old(table)@.len() implies table@[i]
                    == old(table)@[i] by {
                    assert(before[i] == old(table)@[i]);
                }
            }
            match expect(&mut s, ": ") {
                None => return Err(n),
                Some(()) => {},
            }
            let v = match P::from_text(s) {
                None => return Err(n),
                Some(v) => v,
            };
            if m.contains_key(&x) {
                return Err(n);
            }
            let ghost old_m = m@;
            m.insert(x, v);
            assert(map_views(m@) =~= map_views(old_m).insert(x, v@));
            assert(m@.dom() =~= old_m.dom().insert(x));
        }
        p = next;
        n = n + 1;
    }
    assert(t@.skip(p as int) =~= seq![]);
    Ok(m)
}

} // verus!
