//! What the parser produces: well-formed programs whose names are
//! identifiers, which therefore read back from the text they are written as.

use vstd::prelude::*;

use crate::identifiers::{distinct_names, index_in, intern, intern_all, lemma_intern};
use crate::instruction::{
    idents_below, inst_map, lemma_inst_map_agree, lemma_inst_map_idents, InstructionView,
};
use crate::parse::{
    is_blank, spec_binary, spec_body, spec_data, spec_find_header, spec_galois_args, spec_ident_int,
    spec_ident_list, spec_ident_tail, spec_inner_prod_args, spec_one_ident, spec_parse_inst,
    spec_parse_op, spec_parse_program, spec_two_idents, spec_value_list,
};
use crate::plaintext::PlaintextSyntax;
use crate::program::{inst_names, named, namer, program_text, ProgramView};
use crate::roundtrip::{
    all_identifiers, all_well_named, data_text_ok, law_to_string_parse_renumbers,
    law_to_string_parse_to_string, named_inputs, named_instructions, renumbered, well_named_inst,
    well_named_program,
};
use crate::text::{
    ident_tail_len, is_identifier, is_ws, lemma_after_line_len, lemma_ident_tail_len, spec_expect,
    spec_ident, spec_trim, trim_end, trim_start,
};

verus! {

// ---------------------------------------------------------------------------
// Identifiers and lists
// ---------------------------------------------------------------------------

/// What the parser reads as an identifier is one.
pub proof fn lemma_ident_is_identifier(s: Seq<char>)
    ensures
        spec_ident(s) matches Some((n, r)) ==> is_identifier(n) && r.len() < s.len(),
{
    if s.len() > 0 && (s[0] == '%' || s[0] == '@') {
        lemma_ident_tail_len(s.drop_first());
        let t = ident_tail_len(s.drop_first());
        if t > 0 {
            let n = s.take(t + 1int);
            assert forall|i: int| 1 <= i < n.len() implies crate::text::is_ident_char(
                #[trigger] n[i],
            ) by {
                assert(n[i] == s.drop_first()[i - 1]);
            }
        }
    }
}

/// The identifiers of a list after its first are identifiers.
proof fn lemma_ident_tail_ok(s: Seq<char>, acc: Seq<Seq<char>>)
    requires
        all_identifiers(acc),
    ensures
        spec_ident_tail(s, acc) matches Some((ns, r)) ==> all_identifiers(ns) && ns.len()
            >= acc.len(),
    decreases s.len(),
{
    match spec_expect(s, ", "@) {
        None => {},
        Some(r) => {
            lemma_ident_is_identifier(r);
            match spec_ident(r) {
                None => {},
                Some((n, r2)) => {
                    lemma_ident_tail_len(r.drop_first());
                    assert(all_identifiers(acc.push(n))) by {
                        assert forall|i: int| 0 <= i < acc.push(n).len() implies is_identifier(
                            #[trigger] acc.push(n)[i],
                        ) by {
                            if i < acc.len() {
                                assert(acc.push(n)[i] == acc[i]);
                            }
                        }
                    }
                    lemma_ident_tail_ok(r2, acc.push(n));
                },
            }
        },
    }
}

/// The identifiers of a list are identifiers; the list is empty only when
/// the text does not start with one.
proof fn lemma_ident_list_ok(s: Seq<char>)
    ensures
        spec_ident_list(s) matches Some((ns, r)) ==> all_identifiers(ns) && (ns.len() == 0
            ==> r == s),
{
    lemma_ident_is_identifier(s);
    match spec_ident(s) {
        None => {},
        Some((n, r)) => {
            assert(all_identifiers(seq![n]));
            lemma_ident_tail_ok(r, seq![n]);
        },
    }
}

/// The inputs of an inner product are identifiers.
proof fn lemma_value_list_ok(s: Seq<char>, acc: Seq<Seq<char>>)
    requires
        all_identifiers(acc),
    ensures
        spec_value_list(s, acc) matches Some((ns, r)) ==> all_identifiers(ns),
    decreases s.len(),
{
    lemma_ident_is_identifier(s);
    match spec_ident(s) {
        None => {},
        Some((n, r)) => match spec_expect(r, ", "@) {
            None => {},
            Some(r2) => {
                assert(all_identifiers(acc.push(n))) by {
                    assert forall|i: int| 0 <= i < acc.push(n).len() implies is_identifier(
                        #[trigger] acc.push(n)[i],
                    ) by {
                        if i < acc.len() {
                            assert(acc.push(n)[i] == acc[i]);
                        }
                    }
                }
                lemma_value_list_ok(r2, acc.push(n));
            },
        },
    }
}

/// Trimmed text that is not empty starts with no whitespace.
proof fn lemma_trim_first(s: Seq<char>)
    ensures
        spec_trim(s).len() > 0 ==> !is_ws(spec_trim(s)[0]),
    decreases s.len(),
{
    lemma_trim_start_first(s);
    lemma_trim_end_first(trim_start(s));
}

proof fn lemma_trim_start_first(s: Seq<char>)
    ensures
        trim_start(s).len() > 0 ==> !is_ws(trim_start(s)[0]),
    decreases s.len(),
{
    if s.len() > 0 && is_ws(s[0]) {
        lemma_trim_start_first(s.drop_first());
    }
}

proof fn lemma_trim_end_first(s: Seq<char>)
    ensures
        trim_end(s).len() > 0 ==> trim_end(s)[0] == s[0],
    decreases s.len(),
{
    if s.len() > 0 && is_ws(s.last()) {
        lemma_trim_end_first(s.drop_last());
    }
}

// ---------------------------------------------------------------------------
// Instructions
// ---------------------------------------------------------------------------

proof fn lemma_two_idents_ok(x: Seq<char>)
    ensures
        spec_two_idents(x) matches Some((a, b)) ==> is_identifier(a) && is_identifier(b),
{
    lemma_ident_is_identifier(x);
    match spec_ident(x) {
        None => {},
        Some((a, r)) => match spec_expect(r, ", "@) {
            None => {},
            Some(r2) => lemma_ident_is_identifier(r2),
        },
    }
}

proof fn lemma_binary_ok(outs: Seq<Seq<char>>, x: Seq<char>)
    requires
        all_identifiers(outs),
    ensures
        spec_binary(outs, x) matches Some((o, a, b)) ==> is_identifier(o) && is_identifier(a)
            && is_identifier(b),
{
    lemma_two_idents_ok(x);
    if outs.len() == 1 {
        assert(is_identifier(outs[0]));
    }
}

proof fn lemma_one_ident_ok(x: Seq<char>)
    ensures
        spec_one_ident(x) matches Some(a) ==> is_identifier(a),
{
    lemma_ident_is_identifier(x);
}

proof fn lemma_ident_int_ok(x: Seq<char>)
    ensures
        spec_ident_int(x) matches Some((a, v)) ==> is_identifier(a),
{
    lemma_ident_is_identifier(x);
}

proof fn lemma_galois_args_ok(x: Seq<char>)
    ensures
        spec_galois_args(x) matches Some((a, es)) ==> is_identifier(a),
{
    lemma_ident_is_identifier(x);
}

proof fn lemma_inner_prod_args_ok(x: Seq<char>)
    ensures
        spec_inner_prod_args(x) matches Some((vs, cs)) ==> all_identifiers(vs) && all_identifiers(
            cs,
        ),
{
    assert(all_identifiers(Seq::<Seq<char>>::empty()));
    lemma_value_list_ok(x, Seq::<Seq<char>>::empty());
    match spec_value_list(x, Seq::<Seq<char>>::empty()) {
        None => {},
        Some((vs, r)) => match spec_expect(r, "coefficients = ["@) {
            None => {},
            Some(r2) => lemma_ident_list_ok(r2),
        },
    }
}

/// An instruction the parser reads from a line has identifiers for names
/// and, for a Galois automorphism, at least one output.
#[verifier::spinoff_prover]
#[verifier::rlimit(40)]
proof fn lemma_parse_op_ok(outs: Seq<Seq<char>>, r: Seq<char>)
    requires
        all_identifiers(outs),
        outs.len() == 0 ==> r.len() == 0 || !is_ws(r[0]),
    ensures
        spec_parse_op(outs, r) matches Some(ni) ==> well_named_inst(ni),
{
    reveal_strlit(" = galois ");
    if let Some(x) = spec_expect(r, " = add "@) {
        lemma_binary_ok(outs, x);
    } else if let Some(x) = spec_expect(r, " = add_ptx "@) {
        lemma_binary_ok(outs, x);
    } else if let Some(x) = spec_expect(r, " = mul "@) {
        lemma_binary_ok(outs, x);
    } else if let Some(x) = spec_expect(r, " = mul_ptx "@) {
        lemma_binary_ok(outs, x);
    } else if let Some(x) = spec_expect(r, " = mul_int "@) {
        lemma_ident_int_ok(x);
        if outs.len() == 1 {
            assert(is_identifier(outs[0]));
        }
    } else if let Some(x) = spec_expect(r, " = galois "@) {
        lemma_galois_args_ok(x);
        assert(" = galois "@[0] == ' ');
        assert(r.take(" = galois "@.len() as int)[0] == r[0]);
        assert(r[0] == ' ');
        if let Some((a, es)) = spec_galois_args(x) {
            assert(outs.push(a) =~= outs + seq![a]);
            assert(all_identifiers(outs.push(a))) by {
                assert forall|i: int| 0 <= i < outs.push(a).len() implies is_identifier(
                    #[trigger] outs.push(a)[i],
                ) by {
                    if i < outs.len() {
                        assert(outs.push(a)[i] == outs[i]);
                    }
                }
            }
        }
    } else if let Some(x) = spec_expect(r, " = copy "@) {
        lemma_one_ident_ok(x);
        if outs.len() == 1 {
            assert(is_identifier(outs[0]));
        }
    } else if let Some(x) = spec_expect(r, "return "@) {
        lemma_one_ident_ok(x);
    } else if let Some(x) = spec_expect(r, " = inner_prod "@) {
        lemma_inner_prod_args_ok(x);
        if outs.len() == 1 {
            assert(is_identifier(outs[0]));
            if let Some((vs, cs)) = spec_inner_prod_args(x) {
                assert(all_identifiers(seq![outs[0]] + vs)) by {
                    assert forall|i: int| 0 <= i < (seq![outs[0]] + vs).len() implies is_identifier(
                        #[trigger] (seq![outs[0]] + vs)[i],
                    ) by {
                        if i > 0 {
                            assert((seq![outs[0]] + vs)[i] == vs[i - 1]);
                        }
                    }
                }
            }
        }
    } else if let Some(x) = spec_expect(r, " = zero"@) {
        if outs.len() == 1 {
            assert(is_identifier(outs[0]));
        }
    }
}

/// An instruction the parser reads from a line is well named.
pub proof fn lemma_parsed_inst_ok(l: Seq<char>)
    ensures
        spec_parse_inst(l) matches Some(ni) ==> well_named_inst(ni),
{
    let t = spec_trim(l);
    lemma_ident_list_ok(t);
    lemma_trim_first(l);
    match spec_ident_list(t) {
        None => {},
        Some((outs, r)) => lemma_parse_op_ok(outs, r),
    }
}

// ---------------------------------------------------------------------------
// Programs
// ---------------------------------------------------------------------------

/// Looking up names only appends to the table.
pub proof fn lemma_intern_all_grows(names: Seq<Seq<char>>, ns: Seq<Seq<char>>)
    ensures
        names.is_prefix_of(intern_all(names, ns)),
    decreases ns.len(),
{
    if ns.len() > 0 {
        lemma_intern_all_grows(names, ns.drop_last());
        let prev = intern_all(names, ns.drop_last());
        let next = intern_all(names, ns);
        assert forall|i: int| 0 <= i < names.len() implies next[i] == names[i] by {
            assert(prev[i] == names[i]);
        }
    }
}

/// Looking up names in a distinct table whose result fits keeps it distinct
/// and leaves each name in it.
pub proof fn lemma_intern_all_fits(names: Seq<Seq<char>>, ns: Seq<Seq<char>>)
    requires
        distinct_names(names),
        intern_all(names, ns).len() < usize::MAX,
    ensures
        distinct_names(intern_all(names, ns)),
        forall|k: int| 0 <= k < ns.len() ==> intern_all(names, ns).contains(#[trigger] ns[k]),
    decreases ns.len(),
{
    if ns.len() > 0 {
        let prev = intern_all(names, ns.drop_last());
        let next = intern_all(names, ns);
        assert(prev.len() <= next.len());
        lemma_intern_all_fits(names, ns.drop_last());
        lemma_intern(prev, ns.last());
        assert forall|k: int| 0 <= k < ns.len() implies next.contains(#[trigger] ns[k]) by {
            if k < ns.len() - 1 {
                assert(ns.drop_last()[k] == ns[k]);
                assert(prev.contains(ns[k]));
                let i = choose|i: int| 0 <= i < prev.len() && prev[i] == ns[k];
                assert(next[i] == ns[k]);
            } else {
                let i = intern(prev, ns.last()).1 as int;
                assert(next[i] == ns[k]);
            }
        }
    }
}

/// Naming an instruction by a table or by one that extends it is the same
/// when its indices are in the first.
proof fn lemma_named_extend(i: InstructionView<usize, usize>, a: Seq<Seq<char>>, b: Seq<Seq<char>>)
    requires
        idents_below(i, a.len()),
        a.is_prefix_of(b),
    ensures
        named(a, i) == named(b, i),
        idents_below(i, b.len()),
{
    assert forall|k: int| 0 <= k < i.idents().len() implies namer(a)(#[trigger] i.idents()[k])
        == namer(b)(i.idents()[k]) by {
        assert(i.idents()[k] < a.len());
    }
    assert forall|k: int| 0 <= k < i.ptxs().len() implies namer(a)(#[trigger] i.ptxs()[k])
        == namer(b)(i.ptxs()[k]) by {
        assert(i.ptxs()[k] < a.len());
    }
    lemma_inst_map_agree(i, namer(a), namer(a), namer(b), namer(b));
}

/// Instructions whose indices are in the table and whose named forms are
/// well named.
pub open spec fn insts_ok(names: Seq<Seq<char>>, insts: Seq<InstructionView<usize, usize>>) -> bool {
    forall|j: int|
        0 <= j < insts.len() ==> idents_below(#[trigger] insts[j], names.len()) && well_named_inst(
            named(names, insts[j]),
        )
}

/// Reading the body only appends to the table.
proof fn lemma_body_grows(
    s: Seq<char>,
    k: nat,
    names: Seq<Seq<char>>,
    insts: Seq<InstructionView<usize, usize>>,
)
    ensures
        spec_body(s, k, names, insts) matches Ok((n2, i2, r, k2)) ==> names.is_prefix_of(n2),
    decreases s.len(),
{
    if s.len() > 0 {
        lemma_after_line_len(s);
        let l = crate::text::first_line(s);
        let rest = crate::text::after_line(s);
        if is_blank(l) {
            lemma_body_grows(rest, k + 1, names, insts);
        } else {
            match spec_parse_inst(l) {
                Some(ni) => {
                    let names2 = intern_all(names, ni.idents() + ni.ptxs());
                    lemma_intern_all_grows(names, ni.idents() + ni.ptxs());
                    lemma_body_grows(
                        rest,
                        k + 1,
                        names2,
                        insts.push(inst_map(ni, index_in(names2), index_in(names2))),
                    );
                    if let Ok((n2, i2, r, k2)) = spec_body(s, k, names, insts) {
                        crate::program::lemma_prefix_trans(names, names2, n2);
                    }
                },
                None => {},
            }
        }
    }
}

/// Reading the body keeps the table distinct and the instructions well
/// named, when the resulting table fits.
#[verifier::spinoff_prover]
#[verifier::rlimit(40)]
proof fn lemma_body_ok(
    s: Seq<char>,
    k: nat,
    names: Seq<Seq<char>>,
    insts: Seq<InstructionView<usize, usize>>,
)
    requires
        distinct_names(names),
        insts_ok(names, insts),
    ensures
        spec_body(s, k, names, insts) matches Ok((n2, i2, r, k2)) ==> (n2.len() < usize::MAX
            ==> distinct_names(n2) && insts_ok(n2, i2)),
    decreases s.len(),
{
    if s.len() > 0 {
        lemma_after_line_len(s);
        let l = crate::text::first_line(s);
        let rest = crate::text::after_line(s);
        if is_blank(l) {
            lemma_body_ok(rest, k + 1, names, insts);
        } else {
            match spec_parse_inst(l) {
                Some(ni) => {
                    let ns = ni.idents() + ni.ptxs();
                    let names2 = intern_all(names, ns);
                    let x = inst_map(ni, index_in(names2), index_in(names2));
                    lemma_body_grows(rest, k + 1, names2, insts.push(x));
                    if let Ok((n2, i2, r, k2)) = spec_body(s, k, names, insts) {
                        if n2.len() < usize::MAX {
                            lemma_intern_all_grows(names, ns);
                            lemma_intern_all_fits(names, ns);
                            lemma_parsed_inst_ok(l);
                            assert(names2.len() <= n2.len());
                            lemma_named_index(ni, names2);
                            assert(insts_ok(names2, insts.push(x))) by {
                                assert forall|j: int| 0 <= j < insts.push(x).len() implies idents_below(
                                    #[trigger] insts.push(x)[j],
                                    names2.len(),
                                ) && well_named_inst(named(names2, insts.push(x)[j])) by {
                                    if j < insts.len() {
                                        assert(insts.push(x)[j] == insts[j]);
                                        lemma_named_extend(insts[j], names, names2);
                                    }
                                }
                            }
                            lemma_body_ok(rest, k + 1, names2, insts.push(x));
                        }
                    }
                },
                None => {},
            }
        }
    }
}

/// An instruction renamed by the index of its names in a distinct table
/// that holds them has its indices in the table and names back as it was.
proof fn lemma_named_index(ni: InstructionView<Seq<char>, Seq<char>>, names: Seq<Seq<char>>)
    requires
        distinct_names(names),
        names.len() < usize::MAX,
        forall|k: int|
            0 <= k < (ni.idents() + ni.ptxs()).len() ==> names.contains(
                #[trigger] (ni.idents() + ni.ptxs())[k],
            ),
    ensures
        idents_below(inst_map(ni, index_in(names), index_in(names)), names.len()),
        named(names, inst_map(ni, index_in(names), index_in(names))) == ni,
{
    let all = ni.idents() + ni.ptxs();
    let x = inst_map(ni, index_in(names), index_in(names));
    lemma_inst_map_idents(ni, index_in(names), index_in(names));
    assert forall|m: int| 0 <= m < ni.idents().len() implies #[trigger] namer(names)(
        index_in(names)(ni.idents()[m]),
    ) == ni.idents()[m] && index_in(names)(ni.idents()[m]) < names.len() by {
        assert(all[m] == ni.idents()[m]);
        assert(names.contains(ni.idents()[m]));
        let q = names.index_of(ni.idents()[m]);
        assert(0 <= q < names.len() && names[q] == ni.idents()[m]);
    }
    assert forall|m: int| 0 <= m < ni.ptxs().len() implies #[trigger] namer(names)(
        index_in(names)(ni.ptxs()[m]),
    ) == ni.ptxs()[m] && index_in(names)(ni.ptxs()[m]) < names.len() by {
        assert(all[ni.idents().len() + m] == ni.ptxs()[m]);
        assert(names.contains(ni.ptxs()[m]));
        let q = names.index_of(ni.ptxs()[m]);
        assert(0 <= q < names.len() && names[q] == ni.ptxs()[m]);
    }
    assert forall|m: int| 0 <= m < x.idents().len() implies #[trigger] x.idents()[m]
        < names.len() by {
        assert(x.idents()[m] == index_in(names)(ni.idents()[m]));
        assert(namer(names)(index_in(names)(ni.idents()[m])) == ni.idents()[m]);
    }
    assert forall|m: int| 0 <= m < x.ptxs().len() implies #[trigger] x.ptxs()[m]
        < names.len() by {
        assert(x.ptxs()[m] == index_in(names)(ni.ptxs()[m]));
        assert(namer(names)(index_in(names)(ni.ptxs()[m])) == ni.ptxs()[m]);
    }
    crate::roundtrip::lemma_inst_map_inverse(
        ni,
        index_in(names),
        index_in(names),
        namer(names),
        namer(names),
    );
}

/// Data whose keys are in the table under identifiers, and whose values
/// have texts that read back.
pub open spec fn data_ok<P: PlaintextSyntax>(names: Seq<Seq<char>>, data: Map<usize, P::V>) -> bool {
    &&& data.dom().finite()
    &&& forall|x: usize| #[trigger]
        data.dom().contains(x) ==> x < names.len() && is_identifier(names[x as int])
            && data_text_ok::<P>(data[x])
}

/// Reading the data only appends to the table.
proof fn lemma_data_grows<P: PlaintextSyntax>(
    s: Seq<char>,
    k: nat,
    names: Seq<Seq<char>>,
    data: Map<usize, P::V>,
)
    ensures
        spec_data::<P>(s, k, names, data) matches Ok((n2, d2)) ==> names.is_prefix_of(n2),
    decreases s.len(),
{
    if s.len() > 0 {
        lemma_after_line_len(s);
        let l = crate::text::first_line(s);
        let rest = crate::text::after_line(s);
        if is_blank(l) {
            lemma_data_grows::<P>(rest, k + 1, names, data);
        } else {
            match spec_ident(spec_trim(l)) {
                None => {},
                Some((n, r)) => {
                    let (names2, x) = intern(names, n);
                    match spec_expect(r, ": "@) {
                        None => {},
                        Some(r2) => match P::spec_from_text(r2) {
                            None => {},
                            Some(v) => {
                                if !data.dom().contains(x) {
                                    lemma_data_grows::<P>(rest, k + 1, names2, data.insert(x, v));
                                    assert(names.is_prefix_of(names2));
                                    if let Ok((n2, d2)) = spec_data::<P>(s, k, names, data) {
                                        crate::program::lemma_prefix_trans(names, names2, n2);
                                    }
                                }
                            },
                        },
                    }
                },
            }
        }
    }
}

/// Reading the data keeps the table distinct and the data well formed, when
/// the resulting table fits.
#[verifier::spinoff_prover]
proof fn lemma_data_ok<P: PlaintextSyntax>(
    s: Seq<char>,
    k: nat,
    names: Seq<Seq<char>>,
    data: Map<usize, P::V>,
)
    requires
        distinct_names(names),
        data_ok::<P>(names, data),
        forall|v: P::V| data_text_ok::<P>(v),
    ensures
        spec_data::<P>(s, k, names, data) matches Ok((n2, d2)) ==> (n2.len() < usize::MAX
            ==> distinct_names(n2) && data_ok::<P>(n2, d2)),
    decreases s.len(),
{
    if s.len() > 0 {
        lemma_after_line_len(s);
        let l = crate::text::first_line(s);
        let rest = crate::text::after_line(s);
        if is_blank(l) {
            lemma_data_ok::<P>(rest, k + 1, names, data);
        } else {
            lemma_ident_is_identifier(spec_trim(l));
            match spec_ident(spec_trim(l)) {
                None => {},
                Some((n, r)) => {
                    let (names2, x) = intern(names, n);
                    match spec_expect(r, ": "@) {
                        None => {},
                        Some(r2) => match P::spec_from_text(r2) {
                            None => {},
                            Some(v) => {
                                if !data.dom().contains(x) {
                                    let d2 = data.insert(x, v);
                                    lemma_data_grows::<P>(rest, k + 1, names2, d2);
                                    if let Ok((n3, d3)) = spec_data::<P>(s, k, names, data) {
                                        if n3.len() < usize::MAX {
                                            assert(names2.len() <= n3.len());
                                            assert(names.len() <= names2.len());
                                            lemma_intern(names, n);
                                            assert(data_ok::<P>(names2, d2)) by {
                                                assert forall|y: usize| #[trigger]
                                                    d2.dom().contains(y) implies y < names2.len()
                                                    && is_identifier(names2[y as int])
                                                    && data_text_ok::<P>(d2[y]) by {
                                                    if y != x {
                                                        assert(names2[y as int] == names[y as int]);
                                                    }
                                                }
                                            }
                                            lemma_data_ok::<P>(rest, k + 1, names2, d2);
                                        }
                                    }
                                }
                            },
                        },
                    }
                },
            }
        }
    }
}

/// The parameters of a header the parser finds are identifiers.
proof fn lemma_header_ok(s: Seq<char>, k: nat)
    ensures
        spec_find_header(s, k) matches Ok((ps, r, k2)) ==> all_identifiers(ps),
    decreases s.len(),
{
    if s.len() > 0 {
        lemma_after_line_len(s);
        let l = crate::text::first_line(s);
        if is_blank(l) {
            lemma_header_ok(crate::text::after_line(s), k + 1);
        } else {
            match spec_expect(spec_trim(l), "func("@) {
                None => {},
                Some(r) => lemma_ident_list_ok(r),
            }
        }
    }
}

/// A program the parser reads is well formed and well named, when its
/// table fits and the text of every value reads back.
pub proof fn lemma_parsed_program_ok<P: PlaintextSyntax>(s: Seq<char>)
    requires
        forall|v: P::V| data_text_ok::<P>(v),
    ensures
        spec_parse_program::<P>(s) matches Ok(p) ==> (p.names.len() < usize::MAX ==> p.wf()
            && well_named_program::<P>(p)),
{
    lemma_header_ok(s, 0);
    if let Ok(p) = spec_parse_program::<P>(s) {
        if p.names.len() < usize::MAX {
            let (ps, r, k) = spec_find_header(s, 0)->Ok_0;
            let names0 = intern_all(Seq::<Seq<char>>::empty(), ps);
            let empty_insts = Seq::<InstructionView<usize, usize>>::empty();
            let (n1, insts, r2, k2) = spec_body(r, k, names0, empty_insts)->Ok_0;
            let empty_data = Map::<usize, P::V>::empty();
            lemma_intern_all_grows(Seq::<Seq<char>>::empty(), ps);
            lemma_body_grows(r, k, names0, empty_insts);
            lemma_data_grows::<P>(r2, k2, n1, empty_data);
            crate::program::lemma_prefix_trans(names0, n1, p.names);
            assert(names0.len() <= p.names.len());
            assert(distinct_names(Seq::<Seq<char>>::empty()));
            lemma_intern_all_fits(Seq::<Seq<char>>::empty(), ps);
            lemma_body_ok(r, k, names0, empty_insts);
            assert(n1.len() <= p.names.len());
            assert(data_ok::<P>(n1, empty_data)) by {
                assert(empty_data.dom() =~= Set::<usize>::empty());
            }
            lemma_data_ok::<P>(r2, k2, n1, empty_data);
            // The inputs.
            assert forall|j: int| 0 <= j < p.inputs.len() implies #[trigger] p.inputs[j]
                < p.names.len() && p.names[p.inputs[j] as int] == ps[j] by {
                assert(names0.contains(ps[j]));
                let q = names0.index_of(ps[j]);
                assert(0 <= q < names0.len() && names0[q] == ps[j]);
                assert(p.names[q] == names0[q]);
            }
            assert(named_inputs(p) =~= ps);
            // The instructions.
            assert forall|j: int| 0 <= j < p.instructions.len() implies idents_below(
                #[trigger] p.instructions[j],
                p.names.len(),
            ) && well_named_inst(named(p.names, p.instructions[j])) by {
                lemma_named_extend(insts[j], n1, p.names);
            }
            assert(all_well_named(named_instructions(p))) by {
                assert forall|j: int| 0 <= j < named_instructions(p).len() implies well_named_inst(
                    #[trigger] named_instructions(p)[j],
                ) by {
                    assert(named_instructions(p)[j] == named(p.names, p.instructions[j]));
                }
            }
        }
    }
}

/// Law: the text that `Program::to_string` writes for a program read by
/// `Program::parse` is read back by `Program::parse` as the same program,
/// with its names numbered in the order in which that text first mentions
/// them; writing that program again gives the same text. This holds when
/// the text of every value of the data type reads back as it, as that of
/// `PlaintextData` does.
pub proof fn law_parse_to_string_parse<P: PlaintextSyntax>(s: Seq<char>)
    requires
        forall|v: P::V| data_text_ok::<P>(v),
        spec_parse_program::<P>(s) is Ok,
        spec_parse_program::<P>(s)->Ok_0.names.len() < usize::MAX,
        ({
            let p = spec_parse_program::<P>(s)->Ok_0;
            named_inputs(p).len() + inst_names(named_instructions(p)).len() + p.data.dom().len()
                < usize::MAX
        }),
    ensures
        ({
            let p = spec_parse_program::<P>(s)->Ok_0;
            &&& spec_parse_program::<P>(program_text::<P>(p)) == Ok::<ProgramView<P::V>, usize>(
                renumbered(p),
            )
            &&& program_text::<P>(renumbered(p)) == program_text::<P>(p)
        }),
{
    let p = spec_parse_program::<P>(s)->Ok_0;
    lemma_parsed_program_ok::<P>(s);
    law_to_string_parse_renumbers::<P>(p);
    law_to_string_parse_to_string::<P>(p);
}

} // verus!
