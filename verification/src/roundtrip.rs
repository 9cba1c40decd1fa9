//! Reading back what is written: the text of an instruction, of a list and of
//! a whole program is parsed back into what it was written from.

use vstd::prelude::*;

use crate::identifiers::{
    distinct_names, index_in, intern, intern_all, lemma_index_of_prefix, lemma_intern,
    lemma_intern_all,
};
use crate::instruction::{
    concat_each, fmt_all, inst_map, inst_text, int_list_text, join, lemma_inst_map_agree,
    lemma_inst_map_idents, InstructionView,
};
use crate::parse::{
    spec_binary, spec_body, spec_data, spec_find_header, spec_galois_args, spec_ident_int,
    spec_ident_list, spec_ident_tail, spec_inner_prod_args, spec_parse_header, spec_parse_inst,
    spec_parse_op, spec_parse_program, spec_single, spec_two_idents, spec_value_list,
};
use crate::plaintext::{
    spec_int_list, spec_int_tail, spec_plaintext_from_text, PlaintextData, PlaintextSyntax,
};
use crate::program::{
    data_line, entry_map, entry_names, indexed_insts, inst_line, inst_names, is_key_order,
    key_order, lemma_intern_all_concat, lemma_key_order_exists, lemma_key_order_len,
    lemma_key_order_unique, lemma_prefix_trans, named, namer, names_in, new_names, new_view,
    program_text, sorted_by_name, ProgramView,
};
use crate::text::{
    fmt_i64, is_ident_char, is_identifier, is_int_char, is_ws, lemma_expect_differs,
    lemma_expect_prefix, lemma_fmt_i64, lemma_ident_read, lemma_int_read, lemma_line_split,
    lemma_no_ident, lemma_trim_plain, lex_lt, no_lf, spec_expect, spec_ident, spec_trim,
};

verus! {

// ---------------------------------------------------------------------------
// Lists seen from the front
// ---------------------------------------------------------------------------

/// `join` seen from the front: the first item, the separator, the rest.
pub proof fn lemma_join_front(items: Seq<Seq<char>>, sep: Seq<char>)
    requires
        items.len() >= 2,
    ensures
        join(items, sep) == items[0] + sep + join(items.drop_first(), sep),
    decreases items.len(),
{
    if items.len() == 2 {
        assert(items.drop_last() =~= seq![items[0]]);
        assert(items.drop_first() =~= seq![items[1]]);
        assert(join(items.drop_last(), sep) == items[0]);
        assert(join(items.drop_first(), sep) == items[1]);
    } else {
        lemma_join_front(items.drop_last(), sep);
        assert(items.drop_last().drop_first() =~= items.drop_first().drop_last());
        assert(items.drop_first().last() == items.last());
        assert(items.drop_last()[0] == items[0]);
        let a = items[0];
        let m = join(items.drop_first().drop_last(), sep);
        assert(join(items, sep) == (a + sep + m) + sep + items.last());
        assert(join(items.drop_first(), sep) == m + sep + items.last());
        assert((a + sep + m) + sep + items.last() =~= a + sep + (m + sep + items.last()));
    }
}

/// `concat_each` seen from the front: the first item and suffix, the rest.
pub proof fn lemma_concat_each_front(items: Seq<Seq<char>>, suf: Seq<char>)
    requires
        items.len() >= 1,
    ensures
        concat_each(items, suf) == items[0] + suf + concat_each(items.drop_first(), suf),
    decreases items.len(),
{
    if items.len() == 1 {
        assert(items.drop_last() =~= Seq::<Seq<char>>::empty());
        assert(items.drop_first() =~= Seq::<Seq<char>>::empty());
        assert(concat_each(items.drop_last(), suf) == Seq::<char>::empty());
        assert(concat_each(items.drop_first(), suf) == Seq::<char>::empty());
        assert(items.last() == items[0]);
        assert(concat_each(items, suf) =~= items[0] + suf + Seq::<char>::empty());
    } else {
        lemma_concat_each_front(items.drop_last(), suf);
        assert(items.drop_last().drop_first() =~= items.drop_first().drop_last());
        assert(items.drop_first().last() == items.last());
        assert(items.drop_last()[0] == items[0]);
        let a = items[0];
        let m = concat_each(items.drop_first().drop_last(), suf);
        assert(concat_each(items, suf) == (a + suf + m) + items.last() + suf);
        assert(concat_each(items.drop_first(), suf) == m + items.last() + suf);
        assert((a + suf + m) + items.last() + suf =~= a + suf + (m + items.last() + suf));
    }
}

// ---------------------------------------------------------------------------
// Lists read back
// ---------------------------------------------------------------------------

/// Each of `ns` is an identifier.
pub open spec fn all_identifiers(ns: Seq<Seq<char>>) -> bool {
    forall|i: int| 0 <= i < ns.len() ==> is_identifier(#[trigger] ns[i])
}

/// What follows a list of identifiers ends it.
pub open spec fn ends_ident_list(rest: Seq<char>) -> bool {
    &&& rest.len() == 0 || (!is_ident_char(rest[0]) && rest[0] != '%' && rest[0] != '@')
    &&& spec_expect(rest, ", "@) is None
}

/// The text after the first identifier of a list.
pub open spec fn sep_tail(ns: Seq<Seq<char>>) -> Seq<char> {
    if ns.len() == 0 {
        seq![]
    } else {
        ", "@ + join(ns, ", "@)
    }
}

proof fn lemma_ident_tail_read(ns: Seq<Seq<char>>, rest: Seq<char>, acc: Seq<Seq<char>>)
    requires
        all_identifiers(ns),
        ends_ident_list(rest),
    ensures
        spec_ident_tail(sep_tail(ns) + rest, acc) == Some((acc + ns, rest)),
    decreases ns.len(),
{
    reveal_strlit(", ");
    if ns.len() == 0 {
        assert(sep_tail(ns) + rest =~= rest);
        assert(acc + ns =~= acc);
    } else {
        let s = sep_tail(ns) + rest;
        assert(s =~= ", "@ + (join(ns, ", "@) + rest));
        lemma_expect_prefix(", "@, join(ns, ", "@) + rest);
        assert(is_identifier(ns[0]));
        if ns.len() == 1 {
            assert(join(ns, ", "@) == ns[0]);
            lemma_ident_read(ns[0], rest);
            assert(ns.drop_first() =~= Seq::<Seq<char>>::empty());
            lemma_ident_tail_read(ns.drop_first(), rest, acc.push(ns[0]));
            assert(sep_tail(ns.drop_first()) + rest =~= rest);
        } else {
            lemma_join_front(ns, ", "@);
            let t = sep_tail(ns.drop_first()) + rest;
            assert(join(ns, ", "@) + rest =~= ns[0] + t);
            assert(t[0] == ',');
            lemma_ident_read(ns[0], t);
            assert(all_identifiers(ns.drop_first())) by {
                assert forall|i: int| 0 <= i < ns.drop_first().len() implies is_identifier(
                    #[trigger] ns.drop_first()[i],
                ) by {
                    assert(ns.drop_first()[i] == ns[i + 1]);
                }
            }
            lemma_ident_tail_read(ns.drop_first(), rest, acc.push(ns[0]));
        }
        assert(acc.push(ns[0]) + ns.drop_first() =~= acc + ns);
    }
}

/// A list of identifiers written with `, ` between them is read back.
pub proof fn lemma_ident_list_read(ns: Seq<Seq<char>>, rest: Seq<char>)
    requires
        all_identifiers(ns),
        ends_ident_list(rest),
    ensures
        spec_ident_list(join(ns, ", "@) + rest) == Some((ns, rest)),
{
    reveal_strlit(", ");
    if ns.len() == 0 {
        assert(join(ns, ", "@) + rest =~= rest);
        lemma_no_ident(rest);
    } else {
        assert(is_identifier(ns[0]));
        let t = sep_tail(ns.drop_first()) + rest;
        if ns.len() == 1 {
            assert(join(ns, ", "@) == ns[0]);
            assert(t =~= rest);
        } else {
            lemma_join_front(ns, ", "@);
            assert(t[0] == ',');
        }
        assert(join(ns, ", "@) + rest =~= ns[0] + t);
        lemma_ident_read(ns[0], t);
        assert(all_identifiers(ns.drop_first())) by {
            assert forall|i: int| 0 <= i < ns.drop_first().len() implies is_identifier(
                #[trigger] ns.drop_first()[i],
            ) by {
                assert(ns.drop_first()[i] == ns[i + 1]);
            }
        }
        lemma_ident_tail_read(ns.drop_first(), rest, seq![ns[0]]);
        assert(seq![ns[0]] + ns.drop_first() =~= ns);
    }
}

/// Identifiers, each written followed by `, `, are read back.
pub proof fn lemma_value_list_read(ns: Seq<Seq<char>>, rest: Seq<char>, acc: Seq<Seq<char>>)
    requires
        all_identifiers(ns),
        spec_ident(rest) is None,
    ensures
        spec_value_list(concat_each(ns, ", "@) + rest, acc) == Some((acc + ns, rest)),
    decreases ns.len(),
{
    reveal_strlit(", ");
    if ns.len() == 0 {
        assert(concat_each(ns, ", "@) + rest =~= rest);
        assert(acc + ns =~= acc);
    } else {
        lemma_concat_each_front(ns, ", "@);
        let t = concat_each(ns.drop_first(), ", "@) + rest;
        assert(concat_each(ns, ", "@) + rest =~= ns[0] + (", "@ + t));
        assert(is_identifier(ns[0]));
        assert((", "@ + t)[0] == ',');
        lemma_ident_read(ns[0], ", "@ + t);
        lemma_expect_prefix(", "@, t);
        assert(all_identifiers(ns.drop_first())) by {
            assert forall|i: int| 0 <= i < ns.drop_first().len() implies is_identifier(
                #[trigger] ns.drop_first()[i],
            ) by {
                assert(ns.drop_first()[i] == ns[i + 1]);
            }
        }
        lemma_value_list_read(ns.drop_first(), rest, acc.push(ns[0]));
        assert(acc.push(ns[0]) + ns.drop_first() =~= acc + ns);
    }
}

/// What follows a list of integers ends it.
pub open spec fn ends_int_list(rest: Seq<char>) -> bool {
    &&& rest.len() == 0 || !is_int_char(rest[0])
    &&& spec_expect(rest, ", "@) is None
}

proof fn lemma_int_tail_read(vs: Seq<i64>, rest: Seq<char>, acc: Seq<i64>)
    requires
        ends_int_list(rest),
    ensures
        spec_int_tail(sep_tail(fmt_all(vs)) + rest, acc) == Some((acc + vs, rest)),
    decreases vs.len(),
{
    reveal_strlit(", ");
    let ts = fmt_all(vs);
    if vs.len() == 0 {
        assert(sep_tail(ts) + rest =~= rest);
        assert(acc + vs =~= acc);
    } else {
        let s = sep_tail(ts) + rest;
        assert(s =~= ", "@ + (join(ts, ", "@) + rest));
        lemma_expect_prefix(", "@, join(ts, ", "@) + rest);
        assert(fmt_all(vs.drop_first()) =~= ts.drop_first());
        let t = sep_tail(ts.drop_first()) + rest;
        if vs.len() == 1 {
            assert(join(ts, ", "@) == ts[0]);
            assert(t =~= rest);
        } else {
            lemma_join_front(ts, ", "@);
            assert(t[0] == ',');
        }
        assert(join(ts, ", "@) + rest =~= fmt_i64(vs[0]) + t);
        lemma_int_read(vs[0], t);
        lemma_int_tail_read(vs.drop_first(), rest, acc.push(vs[0]));
        assert(acc.push(vs[0]) + vs.drop_first() =~= acc + vs);
    }
}

/// A list of integers written with `, ` between them is read back.
pub proof fn lemma_int_list_read(vs: Seq<i64>, rest: Seq<char>)
    requires
        ends_int_list(rest),
    ensures
        spec_int_list(join(fmt_all(vs), ", "@) + rest) == Some((vs, rest)),
{
    reveal_strlit(", ");
    let ts = fmt_all(vs);
    if vs.len() == 0 {
        assert(join(ts, ", "@) + rest =~= rest);
        assert(vs =~= Seq::<i64>::empty());
    } else {
        let t = sep_tail(ts.drop_first()) + rest;
        if vs.len() == 1 {
            assert(join(ts, ", "@) == ts[0]);
            assert(t =~= rest);
        } else {
            lemma_join_front(ts, ", "@);
            assert(t[0] == ',');
        }
        assert(join(ts, ", "@) + rest =~= fmt_i64(vs[0]) + t);
        lemma_int_read(vs[0], t);
        assert(fmt_all(vs.drop_first()) =~= ts.drop_first());
        lemma_int_tail_read(vs.drop_first(), rest, seq![vs[0]]);
        assert(seq![vs[0]] + vs.drop_first() =~= vs);
    }
}

// ---------------------------------------------------------------------------
// Plain text
// ---------------------------------------------------------------------------

/// Text that fits on one line and that trimming leaves as it is.
pub open spec fn plain_line(t: Seq<char>) -> bool {
    &&& t.len() > 0
    &&& !is_ws(t[0])
    &&& !is_ws(t.last())
    &&& no_lf(t)
}

/// Joining texts without line feeds gives none.
pub proof fn lemma_no_lf_add(a: Seq<char>, b: Seq<char>)
    requires
        no_lf(a),
        no_lf(b),
    ensures
        no_lf(a + b),
{
    assert forall|i: int| 0 <= i < (a + b).len() implies (a + b)[i] != '\n' by {
        if i < a.len() {
            assert((a + b)[i] == a[i]);
        } else {
            assert((a + b)[i] == b[i - a.len()]);
        }
    }
}

/// An identifier has no line feed and starts and ends with no whitespace.
pub proof fn lemma_ident_plain(n: Seq<char>)
    requires
        is_identifier(n),
    ensures
        plain_line(n),
        is_ident_char(n.last()),
{
    assert(is_ident_char(n[n.len() - 1]));
}

pub proof fn lemma_join_no_lf(items: Seq<Seq<char>>, sep: Seq<char>)
    requires
        no_lf(sep),
        forall|i: int| 0 <= i < items.len() ==> no_lf(#[trigger] items[i]),
    ensures
        no_lf(join(items, sep)),
    decreases items.len(),
{
    if items.len() >= 2 {
        lemma_join_no_lf(items.drop_last(), sep);
        lemma_no_lf_add(join(items.drop_last(), sep), sep);
        lemma_no_lf_add(join(items.drop_last(), sep) + sep, items.last());
    }
}

proof fn lemma_concat_each_no_lf(items: Seq<Seq<char>>, suf: Seq<char>)
    requires
        no_lf(suf),
        forall|i: int| 0 <= i < items.len() ==> no_lf(#[trigger] items[i]),
    ensures
        no_lf(concat_each(items, suf)),
    decreases items.len(),
{
    if items.len() >= 1 {
        lemma_concat_each_no_lf(items.drop_last(), suf);
        lemma_no_lf_add(concat_each(items.drop_last(), suf), items.last());
        lemma_no_lf_add(concat_each(items.drop_last(), suf) + items.last(), suf);
    }
}

pub proof fn lemma_idents_no_lf(ns: Seq<Seq<char>>)
    requires
        all_identifiers(ns),
    ensures
        forall|i: int| 0 <= i < ns.len() ==> no_lf(#[trigger] ns[i]),
{
    assert forall|i: int| 0 <= i < ns.len() implies no_lf(#[trigger] ns[i]) by {
        lemma_ident_plain(ns[i]);
    }
}

/// The text of a list of integers has no line feed and ends with `]`.
proof fn lemma_int_list_text_plain(vs: Seq<i64>)
    ensures
        no_lf(int_list_text(vs)),
        int_list_text(vs).last() == ']',
        int_list_text(vs) == seq!['['] + join(fmt_all(vs), ", "@) + seq![']'],
{
    reveal_strlit(", ");
    assert(seq![',', ' '] =~= ", "@);
    let ts = fmt_all(vs);
    assert forall|i: int| 0 <= i < ts.len() implies no_lf(#[trigger] ts[i]) by {
        lemma_fmt_i64(vs[i]);
        assert forall|j: int| 0 <= j < ts[i].len() implies ts[i][j] != '\n' by {
            assert(is_int_char(fmt_i64(vs[i])[j]));
        }
    }
    lemma_join_no_lf(ts, ", "@);
    lemma_no_lf_add(seq!['['], join(ts, ", "@));
    lemma_no_lf_add(seq!['['] + join(ts, ", "@), seq![']']);
}

// ---------------------------------------------------------------------------
// Instructions read back
// ---------------------------------------------------------------------------

/// Every name of the instruction is an identifier, and a Galois automorphism
/// has at least one output.
pub open spec fn well_named_inst(i: InstructionView<Seq<char>, Seq<char>>) -> bool {
    &&& all_identifiers(i.idents())
    &&& all_identifiers(i.ptxs())
    &&& (i matches InstructionView::Galois { out, .. } ==> out.len() > 0)
}

/// Text that starts with `lit` does not start with `other` when they differ
/// at `i`.
proof fn lemma_lit_differs(lit: Seq<char>, more: Seq<char>, other: Seq<char>, i: int)
    requires
        0 <= i < lit.len(),
        i < other.len(),
        lit[i] != other[i],
    ensures
        spec_expect(lit + more, other) is None,
{
    assert((lit + more)[i] == lit[i]);
    lemma_expect_differs(lit + more, other, i);
}

/// Two identifiers separated by `, ` are read back.
proof fn lemma_two_idents_read(a: Seq<char>, b: Seq<char>)
    requires
        is_identifier(a),
        is_identifier(b),
    ensures
        spec_two_idents(a + ", "@ + b) == Some((a, b)),
        no_lf(a + ", "@ + b),
        !is_ws((a + ", "@ + b).last()),
{
    reveal_strlit(", ");
    assert(a + ", "@ + b =~= a + (", "@ + b));
    assert((", "@ + b)[0] == ',');
    lemma_ident_read(a, ", "@ + b);
    lemma_expect_prefix(", "@, b);
    assert(b + Seq::<char>::empty() =~= b);
    lemma_ident_read(b, Seq::<char>::empty());
    lemma_ident_plain(a);
    lemma_ident_plain(b);
    lemma_no_lf_add(a, ", "@);
    lemma_no_lf_add(a + ", "@, b);
    assert((a + ", "@ + b).last() == b.last());
}

/// The one output of an instruction, followed by the rest of its text, is
/// read as its list of outputs.
proof fn lemma_single_out(out: Seq<char>, r: Seq<char>)
    requires
        is_identifier(out),
        r.len() > 0,
        r[0] == ' ',
    ensures
        spec_ident_list(out + r) == Some((seq![out], r)),
        spec_single(seq![out]) == Some(out),
{
    reveal_strlit(", ");
    lemma_expect_differs(r, ", "@, 0);
    assert(join(seq![out], ", "@) == out);
    assert(all_identifiers(seq![out]));
    lemma_ident_list_read(seq![out], r);
}

/// The line of an instruction: plain text that is read back as it.
pub open spec fn reads_back(i: InstructionView<Seq<char>, Seq<char>>) -> bool {
    &&& plain_line(inst_text(i))
    &&& spec_parse_inst("    "@ + inst_text(i)) == Some(i)
}

/// From the outputs and the rest of a line to the whole line.
proof fn lemma_line_from_parts(
    i: InstructionView<Seq<char>, Seq<char>>,
    outs: Seq<Seq<char>>,
    r: Seq<char>,
)
    requires
        plain_line(inst_text(i)),
        spec_ident_list(inst_text(i)) == Some((outs, r)),
        spec_parse_op(outs, r) == Some(i),
    ensures
        reads_back(i),
{
    reveal_strlit("    ");
    lemma_trim_plain("    "@, inst_text(i));
}

/// The parts of the line of an instruction with one output and a keyword
/// `lit` followed by `args`.
proof fn lemma_one_out_parts(out: Seq<char>, lit: Seq<char>, args: Seq<char>)
    requires
        is_identifier(out),
        lit.len() > 0,
        lit[0] == ' ',
        no_lf(lit),
        no_lf(args),
        args.len() > 0,
        !is_ws(args.last()),
    ensures
        plain_line(out + lit + args),
        spec_ident_list(out + lit + args) == Some((seq![out], lit + args)),
        spec_single(seq![out]) == Some(out),
        spec_expect(lit + args, lit) == Some(args),
{
    assert(out + lit + args =~= out + (lit + args));
    lemma_single_out(out, lit + args);
    lemma_expect_prefix(lit, args);
    lemma_ident_plain(out);
    lemma_no_lf_add(out, lit);
    lemma_no_lf_add(out + lit, args);
    assert((out + lit + args).last() == args.last());
    assert((out + lit + args)[0] == out[0]);
}

/// The parts of the line of an instruction with two identifier arguments.
proof fn lemma_binary_parts(out: Seq<char>, lit: Seq<char>, a: Seq<char>, b: Seq<char>)
    requires
        is_identifier(out),
        is_identifier(a),
        is_identifier(b),
        lit.len() > 0,
        lit[0] == ' ',
        no_lf(lit),
    ensures
        plain_line(out + lit + (a + ", "@ + b)),
        spec_ident_list(out + lit + (a + ", "@ + b)) == Some((seq![out], lit + (a + ", "@ + b))),
        spec_expect(lit + (a + ", "@ + b), lit) == Some(a + ", "@ + b),
        spec_binary(seq![out], a + ", "@ + b) == Some((out, a, b)),
{
    lemma_two_idents_read(a, b);
    assert((a + ", "@ + b).len() > 0);
    lemma_one_out_parts(out, lit, a + ", "@ + b);
}

proof fn lemma_read_add(i: InstructionView<Seq<char>, Seq<char>>)
    requires
        well_named_inst(i),
        i is AddCtxCtx,
    ensures
        reads_back(i),
{
    reveal_strlit(" = add ");
    let lit = " = add "@;
    let (out, a, b) = (i.idents()[0], i.idents()[1], i.idents()[2]);
    lemma_binary_parts(out, lit, a, b);
    assert(inst_text(i) =~= out + lit + (a + ", "@ + b));
    lemma_line_from_parts(i, seq![out], lit + (a + ", "@ + b));
}

proof fn lemma_read_add_ptx(i: InstructionView<Seq<char>, Seq<char>>)
    requires
        well_named_inst(i),
        i is AddPtxCtx,
    ensures
        reads_back(i),
{
    reveal_strlit(" = add ");
    reveal_strlit(" = add_ptx ");
    let lit = " = add_ptx "@;
    let (out, a, b) = (i.idents()[0], i.idents()[1], i.ptxs()[0]);
    lemma_binary_parts(out, lit, a, b);
    lemma_lit_differs(lit, a + ", "@ + b, " = add "@, 6);
    assert(inst_text(i) =~= out + lit + (a + ", "@ + b));
    lemma_line_from_parts(i, seq![out], lit + (a + ", "@ + b));
}

proof fn lemma_read_mul(i: InstructionView<Seq<char>, Seq<char>>)
    requires
        well_named_inst(i),
        i is MulCtxCtx,
    ensures
        reads_back(i),
{
    reveal_strlit(" = add ");
    reveal_strlit(" = add_ptx ");
    reveal_strlit(" = mul ");
    let lit = " = mul "@;
    let (out, a, b) = (i.idents()[0], i.idents()[1], i.idents()[2]);
    lemma_binary_parts(out, lit, a, b);
    lemma_lit_differs(lit, a + ", "@ + b, " = add "@, 3);
    lemma_lit_differs(lit, a + ", "@ + b, " = add_ptx "@, 3);
    assert(inst_text(i) =~= out + lit + (a + ", "@ + b));
    lemma_line_from_parts(i, seq![out], lit + (a + ", "@ + b));
}

proof fn lemma_read_mul_ptx(i: InstructionView<Seq<char>, Seq<char>>)
    requires
        well_named_inst(i),
        i is MulPtxCtx,
    ensures
        reads_back(i),
{
    reveal_strlit(" = add ");
    reveal_strlit(" = add_ptx ");
    reveal_strlit(" = mul ");
    reveal_strlit(" = mul_ptx ");
    let lit = " = mul_ptx "@;
    let (out, a, b) = (i.idents()[0], i.idents()[1], i.ptxs()[0]);
    lemma_binary_parts(out, lit, a, b);
    lemma_lit_differs(lit, a + ", "@ + b, " = add "@, 3);
    lemma_lit_differs(lit, a + ", "@ + b, " = add_ptx "@, 3);
    lemma_lit_differs(lit, a + ", "@ + b, " = mul "@, 6);
    assert(inst_text(i) =~= out + lit + (a + ", "@ + b));
    lemma_line_from_parts(i, seq![out], lit + (a + ", "@ + b));
}

/// `value, integer` is read back.
proof fn lemma_ident_int_read(a: Seq<char>, v: i64)
    requires
        is_identifier(a),
    ensures
        spec_ident_int(a + ", "@ + fmt_i64(v)) == Some((a, v)),
        no_lf(a + ", "@ + fmt_i64(v)),
        (a + ", "@ + fmt_i64(v)).len() > 0,
        !is_ws((a + ", "@ + fmt_i64(v)).last()),
{
    reveal_strlit(", ");
    let args = a + ", "@ + fmt_i64(v);
    lemma_fmt_i64(v);
    assert(args =~= a + (", "@ + fmt_i64(v)));
    assert((", "@ + fmt_i64(v))[0] == ',');
    lemma_ident_read(a, ", "@ + fmt_i64(v));
    lemma_expect_prefix(", "@, fmt_i64(v));
    assert(fmt_i64(v) + Seq::<char>::empty() =~= fmt_i64(v));
    lemma_int_read(v, Seq::<char>::empty());
    lemma_ident_plain(a);
    assert forall|j: int| 0 <= j < fmt_i64(v).len() implies fmt_i64(v)[j] != '\n' by {
        assert(is_int_char(fmt_i64(v)[j]));
    }
    lemma_no_lf_add(a, ", "@);
    lemma_no_lf_add(a + ", "@, fmt_i64(v));
    assert(args.last() == fmt_i64(v).last());
}

#[verifier::spinoff_prover]
proof fn lemma_read_mul_int(i: InstructionView<Seq<char>, Seq<char>>)
    requires
        well_named_inst(i),
        i is MulIntCtx,
    ensures
        reads_back(i),
{
    reveal_strlit(" = add ");
    reveal_strlit(" = add_ptx ");
    reveal_strlit(" = mul ");
    reveal_strlit(" = mul_ptx ");
    reveal_strlit(" = mul_int ");
    let lit = " = mul_int "@;
    let (out, a, v) = (i.idents()[0], i.idents()[1], i->integer);
    let args = a + ", "@ + fmt_i64(v);
    lemma_ident_int_read(a, v);
    lemma_one_out_parts(out, lit, args);
    lemma_lit_differs(lit, args, " = add "@, 3);
    lemma_lit_differs(lit, args, " = add_ptx "@, 3);
    lemma_lit_differs(lit, args, " = mul "@, 6);
    lemma_lit_differs(lit, args, " = mul_ptx "@, 7);
    assert(inst_text(i) =~= out + lit + args);
    lemma_line_from_parts(i, seq![out], lit + args);
}

/// The first character of a joined list is that of its first item.
proof fn lemma_join_first(items: Seq<Seq<char>>, sep: Seq<char>)
    requires
        items.len() >= 1,
        items[0].len() >= 1,
    ensures
        join(items, sep).len() >= 1,
        join(items, sep)[0] == items[0][0],
{
    if items.len() >= 2 {
        lemma_join_front(items, sep);
    }
}

/// `value, exponents = [..]` is read back.
#[verifier::spinoff_prover]
proof fn lemma_galois_args_read(val: Seq<char>, es: Seq<i64>)
    requires
        is_identifier(val),
    ensures
        spec_galois_args(val + ", exponents = "@ + int_list_text(es)) == Some((val, es)),
        no_lf(val + ", exponents = "@ + int_list_text(es)),
        (val + ", exponents = "@ + int_list_text(es)).last() == ']',
{
    reveal_strlit(", exponents = ");
    reveal_strlit(", exponents = [");
    reveal_strlit(", ");
    reveal_strlit("]");
    let list = join(fmt_all(es), ", "@);
    let args = val + ", exponents = "@ + int_list_text(es);
    lemma_int_list_text_plain(es);
    assert(", exponents = "@ + int_list_text(es) =~= ", exponents = ["@ + (list + "]"@));
    assert(args =~= val + (", exponents = ["@ + (list + "]"@)));
    lemma_ident_read(val, ", exponents = ["@ + (list + "]"@));
    lemma_expect_prefix(", exponents = ["@, list + "]"@);
    lemma_expect_differs("]"@, ", "@, 0);
    lemma_int_list_read(es, "]"@);
    assert("]"@ =~= "]"@ + Seq::<char>::empty());
    lemma_expect_prefix("]"@, Seq::<char>::empty());
    lemma_ident_plain(val);
    lemma_no_lf_add(val, ", exponents = "@);
    lemma_no_lf_add(val + ", exponents = "@, int_list_text(es));
}

#[verifier::spinoff_prover]
proof fn lemma_read_galois(i: InstructionView<Seq<char>, Seq<char>>)
    requires
        well_named_inst(i),
        i is Galois,
    ensures
        reads_back(i),
{
    reveal_strlit(" = add ");
    reveal_strlit(" = add_ptx ");
    reveal_strlit(" = mul ");
    reveal_strlit(" = mul_ptx ");
    reveal_strlit(" = mul_int ");
    reveal_strlit(" = galois ");
    reveal_strlit(", ");
    let (outs, val, es) = (i->Galois_out, i->Galois_val, i->Galois_exponents);
    assert(i.idents() == outs.push(val));
    assert(all_identifiers(outs)) by {
        assert forall|k: int| 0 <= k < outs.len() implies is_identifier(#[trigger] outs[k]) by {
            assert(i.idents()[k] == outs[k]);
        }
    }
    assert(is_identifier(val)) by {
        assert(i.idents()[outs.len() as int] == val);
    }
    let lit = " = galois "@;
    let args = val + ", exponents = "@ + int_list_text(es);
    lemma_galois_args_read(val, es);
    let r = lit + args;
    lemma_expect_differs(r, ", "@, 0);
    lemma_ident_list_read(outs, r);
    lemma_expect_prefix(lit, args);
    lemma_lit_differs(lit, args, " = add "@, 3);
    lemma_lit_differs(lit, args, " = add_ptx "@, 3);
    lemma_lit_differs(lit, args, " = mul "@, 3);
    lemma_lit_differs(lit, args, " = mul_ptx "@, 3);
    lemma_lit_differs(lit, args, " = mul_int "@, 3);
    assert(spec_parse_op(outs, r) == Some(i));
    assert(inst_text(i) =~= join(outs, ", "@) + r);
    lemma_idents_no_lf(outs);
    lemma_join_no_lf(outs, ", "@);
    lemma_no_lf_add(lit, args);
    lemma_no_lf_add(join(outs, ", "@), r);
    lemma_ident_plain(outs[0]);
    lemma_join_first(outs, ", "@);
    assert(inst_text(i)[0] == outs[0][0]);
    assert(inst_text(i).last() == ']');
    lemma_line_from_parts(i, outs, r);
}

#[verifier::spinoff_prover]
proof fn lemma_read_copy(i: InstructionView<Seq<char>, Seq<char>>)
    requires
        well_named_inst(i),
        i is Copy,
    ensures
        reads_back(i),
{
    reveal_strlit(" = add ");
    reveal_strlit(" = add_ptx ");
    reveal_strlit(" = mul ");
    reveal_strlit(" = mul_ptx ");
    reveal_strlit(" = mul_int ");
    reveal_strlit(" = galois ");
    reveal_strlit(" = copy ");
    let lit = " = copy "@;
    let (out, a) = (i.idents()[0], i.idents()[1]);
    assert(a + Seq::<char>::empty() =~= a);
    lemma_ident_read(a, Seq::<char>::empty());
    lemma_ident_plain(a);
    lemma_one_out_parts(out, lit, a);
    lemma_lit_differs(lit, a, " = add "@, 3);
    lemma_lit_differs(lit, a, " = add_ptx "@, 3);
    lemma_lit_differs(lit, a, " = mul "@, 3);
    lemma_lit_differs(lit, a, " = mul_ptx "@, 3);
    lemma_lit_differs(lit, a, " = mul_int "@, 3);
    lemma_lit_differs(lit, a, " = galois "@, 3);
    assert(inst_text(i) =~= out + lit + a);
    lemma_line_from_parts(i, seq![out], lit + a);
}

#[verifier::spinoff_prover]
proof fn lemma_read_return(i: InstructionView<Seq<char>, Seq<char>>)
    requires
        well_named_inst(i),
        i is Return,
    ensures
        reads_back(i),
{
    reveal_strlit(" = add ");
    reveal_strlit(" = add_ptx ");
    reveal_strlit(" = mul ");
    reveal_strlit(" = mul_ptx ");
    reveal_strlit(" = mul_int ");
    reveal_strlit(" = galois ");
    reveal_strlit(" = copy ");
    reveal_strlit("return ");
    let lit = "return "@;
    let a = i.idents()[0];
    let t = lit + a;
    assert(inst_text(i) =~= t);
    lemma_no_ident(t);
    assert(spec_ident_list(t) == Some((Seq::<Seq<char>>::empty(), t)));
    assert(a + Seq::<char>::empty() =~= a);
    lemma_ident_read(a, Seq::<char>::empty());
    lemma_expect_prefix(lit, a);
    lemma_lit_differs(lit, a, " = add "@, 0);
    lemma_lit_differs(lit, a, " = add_ptx "@, 0);
    lemma_lit_differs(lit, a, " = mul "@, 0);
    lemma_lit_differs(lit, a, " = mul_ptx "@, 0);
    lemma_lit_differs(lit, a, " = mul_int "@, 0);
    lemma_lit_differs(lit, a, " = galois "@, 0);
    lemma_lit_differs(lit, a, " = copy "@, 0);
    lemma_ident_plain(a);
    lemma_no_lf_add(lit, a);
    assert(t.last() == a.last());
    lemma_line_from_parts(i, Seq::<Seq<char>>::empty(), t);
}

#[verifier::spinoff_prover]
proof fn lemma_read_inner_prod(i: InstructionView<Seq<char>, Seq<char>>)
    requires
        well_named_inst(i),
        i is InnerProduct,
    ensures
        reads_back(i),
{
    reveal_strlit(" = add ");
    reveal_strlit(" = add_ptx ");
    reveal_strlit(" = mul ");
    reveal_strlit(" = mul_ptx ");
    reveal_strlit(" = mul_int ");
    reveal_strlit(" = galois ");
    reveal_strlit(" = copy ");
    reveal_strlit("return ");
    reveal_strlit(" = inner_prod ");
    reveal_strlit("coefficients = [");
    reveal_strlit(", ");
    reveal_strlit("]");
    let (out, vs, cs) = (i->InnerProduct_out, i->InnerProduct_values, i->InnerProduct_coefficients);
    assert(i.idents() == seq![out] + vs);
    assert(is_identifier(out)) by {
        assert(i.idents()[0] == out);
    }
    assert(all_identifiers(vs)) by {
        assert forall|k: int| 0 <= k < vs.len() implies is_identifier(#[trigger] vs[k]) by {
            assert(i.idents()[k + 1] == vs[k]);
        }
    }
    assert(all_identifiers(cs)) by {
        assert(i.ptxs() == cs);
    }
    let lit = " = inner_prod "@;
    let tail = "coefficients = ["@ + join(cs, ", "@) + "]"@;
    let args = concat_each(vs, ", "@) + tail;
    lemma_no_ident(tail);
    lemma_value_list_read(vs, tail, Seq::<Seq<char>>::empty());
    assert(Seq::<Seq<char>>::empty() + vs =~= vs);
    assert(tail =~= "coefficients = ["@ + (join(cs, ", "@) + "]"@));
    lemma_expect_prefix("coefficients = ["@, join(cs, ", "@) + "]"@);
    lemma_expect_differs("]"@, ", "@, 0);
    lemma_ident_list_read(cs, "]"@);
    assert("]"@ =~= "]"@ + Seq::<char>::empty());
    lemma_expect_prefix("]"@, Seq::<char>::empty());
    assert(spec_inner_prod_args(args) == Some((vs, cs)));
    lemma_idents_no_lf(vs);
    lemma_idents_no_lf(cs);
    lemma_concat_each_no_lf(vs, ", "@);
    lemma_join_no_lf(cs, ", "@);
    lemma_no_lf_add("coefficients = ["@, join(cs, ", "@));
    lemma_no_lf_add("coefficients = ["@ + join(cs, ", "@), "]"@);
    lemma_no_lf_add(concat_each(vs, ", "@), tail);
    assert(args.last() == ']');
    lemma_one_out_parts(out, lit, args);
    lemma_lit_differs(lit, args, " = add "@, 3);
    lemma_lit_differs(lit, args, " = add_ptx "@, 3);
    lemma_lit_differs(lit, args, " = mul "@, 3);
    lemma_lit_differs(lit, args, " = mul_ptx "@, 3);
    lemma_lit_differs(lit, args, " = mul_int "@, 3);
    lemma_lit_differs(lit, args, " = galois "@, 3);
    lemma_lit_differs(lit, args, " = copy "@, 3);
    lemma_lit_differs(lit, args, "return "@, 0);
    assert(inst_text(i) =~= out + lit + args);
    lemma_line_from_parts(i, seq![out], lit + args);
}

#[verifier::spinoff_prover]
proof fn lemma_read_zero(i: InstructionView<Seq<char>, Seq<char>>)
    requires
        well_named_inst(i),
        i is Zero,
    ensures
        reads_back(i),
{
    reveal_strlit(" = add ");
    reveal_strlit(" = add_ptx ");
    reveal_strlit(" = mul ");
    reveal_strlit(" = mul_ptx ");
    reveal_strlit(" = mul_int ");
    reveal_strlit(" = galois ");
    reveal_strlit(" = copy ");
    reveal_strlit("return ");
    reveal_strlit(" = inner_prod ");
    reveal_strlit(" = zero");
    let lit = " = zero"@;
    let out = i.idents()[0];
    let e = Seq::<char>::empty();
    assert(lit =~= lit + e);
    lemma_single_out(out, lit);
    lemma_expect_prefix(lit, e);
    lemma_lit_differs(lit, e, " = add "@, 3);
    lemma_lit_differs(lit, e, " = add_ptx "@, 3);
    lemma_lit_differs(lit, e, " = mul "@, 3);
    lemma_lit_differs(lit, e, " = mul_ptx "@, 3);
    lemma_lit_differs(lit, e, " = mul_int "@, 3);
    lemma_lit_differs(lit, e, " = galois "@, 3);
    lemma_lit_differs(lit, e, " = copy "@, 3);
    lemma_lit_differs(lit, e, "return "@, 0);
    lemma_lit_differs(lit, e, " = inner_prod "@, 3);
    assert(inst_text(i) =~= out + lit);
    lemma_ident_plain(out);
    lemma_no_lf_add(out, lit);
    assert((out + lit).last() == 'o');
    lemma_line_from_parts(i, seq![out], lit);
}

/// The line of an instruction whose names are identifiers, and whose Galois
/// outputs are not empty, is read back as the instruction.
pub proof fn lemma_inst_read(i: InstructionView<Seq<char>, Seq<char>>)
    requires
        well_named_inst(i),
    ensures
        reads_back(i),
{
    match i {
        InstructionView::AddCtxCtx { .. } => lemma_read_add(i),
        InstructionView::AddPtxCtx { .. } => lemma_read_add_ptx(i),
        InstructionView::MulCtxCtx { .. } => lemma_read_mul(i),
        InstructionView::MulPtxCtx { .. } => lemma_read_mul_ptx(i),
        InstructionView::MulIntCtx { .. } => lemma_read_mul_int(i),
        InstructionView::Galois { .. } => lemma_read_galois(i),
        InstructionView::Copy { .. } => lemma_read_copy(i),
        InstructionView::Return { .. } => lemma_read_return(i),
        InstructionView::InnerProduct { .. } => lemma_read_inner_prod(i),
        InstructionView::Zero { .. } => lemma_read_zero(i),
    }
}

/// Law: the text that `GenericInstruction::to_string` writes for an
/// instruction whose names are identifiers, and whose Galois outputs are not
/// empty, is read back as that instruction, with or without indentation.
/// Reading it looks its names up in the order of `idents` then `ptxs`:
/// outputs, operands, then constants.
pub proof fn law_inst_text_reads_back(i: InstructionView<Seq<char>, Seq<char>>)
    requires
        well_named_inst(i),
    ensures
        spec_parse_inst(inst_text(i)) == Some(i),
        spec_parse_inst("    "@ + inst_text(i)) == Some(i),
{
    let t = inst_text(i);
    lemma_inst_read(i);
    reveal_strlit("    ");
    lemma_trim_plain("    "@, t);
    lemma_trim_plain(Seq::<char>::empty(), t);
    assert(Seq::<char>::empty() + t =~= t);
}

// ---------------------------------------------------------------------------
// Indices in a growing table
// ---------------------------------------------------------------------------

/// Renaming by the index in a table gives what renaming by the index in a
/// distinct table that extends it gives, for an instruction whose names are
/// in the first.
pub proof fn lemma_inst_map_extend(
    i: InstructionView<Seq<char>, Seq<char>>,
    a: Seq<Seq<char>>,
    b: Seq<Seq<char>>,
)
    requires
        names_in(i, a),
        a.is_prefix_of(b),
        distinct_names(b),
    ensures
        inst_map(i, index_in(a), index_in(a)) == inst_map(i, index_in(b), index_in(b)),
{
    assert forall|k: int| 0 <= k < i.idents().len() implies #[trigger] index_in(a)(i.idents()[k])
        == index_in(b)(i.idents()[k]) by {
        lemma_index_of_prefix(a, b, i.idents()[k]);
    }
    assert forall|k: int| 0 <= k < i.ptxs().len() implies #[trigger] index_in(a)(i.ptxs()[k])
        == index_in(b)(i.ptxs()[k]) by {
        lemma_index_of_prefix(a, b, i.ptxs()[k]);
    }
    lemma_inst_map_agree(i, index_in(a), index_in(a), index_in(b), index_in(b));
}

/// The names of instructions seen from the front.
pub proof fn lemma_inst_names_front(nl: Seq<InstructionView<Seq<char>, Seq<char>>>)
    requires
        nl.len() >= 1,
    ensures
        inst_names(nl) == nl[0].idents() + nl[0].ptxs() + inst_names(nl.drop_first()),
    decreases nl.len(),
{
    if nl.len() == 1 {
        assert(nl.drop_last() =~= Seq::<InstructionView<Seq<char>, Seq<char>>>::empty());
        assert(nl.drop_first() =~= Seq::<InstructionView<Seq<char>, Seq<char>>>::empty());
        assert(inst_names(nl.drop_last()) == Seq::<Seq<char>>::empty());
        assert(nl.last() == nl[0]);
        assert(inst_names(nl) =~= nl[0].idents() + nl[0].ptxs());
        assert(nl[0].idents() + nl[0].ptxs() + Seq::<Seq<char>>::empty() =~= nl[0].idents()
            + nl[0].ptxs());
    } else {
        lemma_inst_names_front(nl.drop_last());
        assert(nl.drop_last().drop_first() =~= nl.drop_first().drop_last());
        assert(nl.drop_first().last() == nl.last());
        assert(nl.drop_last()[0] == nl[0]);
        let h = nl[0].idents() + nl[0].ptxs();
        let m = inst_names(nl.drop_first().drop_last());
        let l = nl.last().idents() + nl.last().ptxs();
        assert(inst_names(nl) =~= (h + m) + l);
        assert(inst_names(nl.drop_first()) =~= m + l);
        assert((h + m) + l =~= h + (m + l));
    }
}

/// The lines of instructions.
pub open spec fn inst_lines(nl: Seq<InstructionView<Seq<char>, Seq<char>>>) -> Seq<Seq<char>> {
    nl.map_values(|ni: InstructionView<Seq<char>, Seq<char>>| "    "@ + inst_text(ni))
}

/// Each instruction is well named.
pub open spec fn all_well_named(nl: Seq<InstructionView<Seq<char>, Seq<char>>>) -> bool {
    forall|j: int| 0 <= j < nl.len() ==> well_named_inst(#[trigger] nl[j])
}

/// The line `}` ends the body.
proof fn lemma_closing_line(
    d: Seq<char>,
    k: nat,
    names: Seq<Seq<char>>,
    acc: Seq<InstructionView<usize, usize>>,
)
    ensures
        spec_body("}\n"@ + d, k, names, acc) == Ok::<
            (Seq<Seq<char>>, Seq<InstructionView<usize, usize>>, Seq<char>, nat),
            usize,
        >((names, acc, d, k + 1)),
{
    reveal_strlit("}\n");
    reveal_strlit("}");
    let l = seq!['}'];
    assert("}\n"@ + d =~= l + seq!['\n'] + d);
    assert(no_lf(l));
    lemma_line_split(l, d);
    assert(l =~= Seq::<char>::empty() + l);
    lemma_trim_plain(Seq::<char>::empty(), l);
    assert(spec_trim(l) == "}"@);
    lemma_no_ident(l);
    assert(spec_ident_list(l) == Some((Seq::<Seq<char>>::empty(), l)));
    assert(spec_parse_op(Seq::<Seq<char>>::empty(), l) is None);
}

/// One line of a well-named instruction is read as it.
proof fn lemma_inst_line_read(
    ni: InstructionView<Seq<char>, Seq<char>>,
    tail: Seq<char>,
    k: nat,
    names: Seq<Seq<char>>,
    acc: Seq<InstructionView<usize, usize>>,
)
    requires
        well_named_inst(ni),
    ensures
        ({
            let names2 = intern_all(names, ni.idents() + ni.ptxs());
            spec_body("    "@ + inst_text(ni) + seq!['\n'] + tail, k, names, acc) == spec_body(
                tail,
                k + 1,
                names2,
                acc.push(inst_map(ni, index_in(names2), index_in(names2))),
            )
        }),
{
    reveal_strlit("    ");
    let line = "    "@ + inst_text(ni);
    lemma_inst_read(ni);
    lemma_no_lf_add("    "@, inst_text(ni));
    lemma_line_split(line, tail);
    lemma_trim_plain("    "@, inst_text(ni));
}

/// The first instruction's names go into the table first.
proof fn lemma_body_names_step(
    nl: Seq<InstructionView<Seq<char>, Seq<char>>>,
    names: Seq<Seq<char>>,
    f: Seq<Seq<char>>,
)
    requires
        nl.len() >= 1,
        distinct_names(names),
        names.len() + inst_names(nl).len() < usize::MAX,
        intern_all(names, inst_names(nl)).is_prefix_of(f),
        distinct_names(f),
    ensures
        ({
            let names2 = intern_all(names, nl[0].idents() + nl[0].ptxs());
            &&& intern_all(names2, inst_names(nl.drop_first())) == intern_all(names, inst_names(nl))
            &&& distinct_names(names2)
            &&& names2.len() + inst_names(nl.drop_first()).len() < usize::MAX
            &&& names_in(nl[0], names2)
            &&& names2.is_prefix_of(f)
            &&& inst_map(nl[0], index_in(names2), index_in(names2)) == inst_map(
                nl[0],
                index_in(f),
                index_in(f),
            )
        }),
{
    let ni = nl[0];
    let rest = nl.drop_first();
    let ns = ni.idents() + ni.ptxs();
    lemma_inst_names_front(nl);
    lemma_intern_all_concat(names, ns, inst_names(rest));
    let names2 = intern_all(names, ns);
    lemma_intern_all(names, ns);
    lemma_intern_all(names2, inst_names(rest));
    assert(names2.is_prefix_of(f)) by {
        assert forall|j: int| 0 <= j < names2.len() implies f[j] == names2[j] by {
            assert(intern_all(names2, inst_names(rest))[j] == names2[j]);
        }
    }
    assert(names_in(ni, names2)) by {
        assert forall|j: int| 0 <= j < ni.idents().len() implies names2.contains(
            #[trigger] ni.idents()[j],
        ) by {
            assert(ns[j] == ni.idents()[j]);
        }
        assert forall|j: int| 0 <= j < ni.ptxs().len() implies names2.contains(
            #[trigger] ni.ptxs()[j],
        ) by {
            assert(ns[ni.idents().len() + j] == ni.ptxs()[j]);
        }
    }
    lemma_inst_map_extend(ni, names2, f);
}

/// The text of the body seen from its first line.
proof fn lemma_body_text_front(nl: Seq<InstructionView<Seq<char>, Seq<char>>>, d: Seq<char>)
    requires
        nl.len() >= 1,
    ensures
        concat_each(inst_lines(nl), "\n"@) + "}\n"@ + d == "    "@ + inst_text(nl[0]) + seq![
            '\n',
        ] + (concat_each(inst_lines(nl.drop_first()), "\n"@) + "}\n"@ + d),
{
    reveal_strlit("\n");
    lemma_concat_each_front(inst_lines(nl), "\n"@);
    assert(inst_lines(nl).drop_first() =~= inst_lines(nl.drop_first()));
    assert(inst_lines(nl)[0] == "    "@ + inst_text(nl[0]));
    assert(concat_each(inst_lines(nl), "\n"@) + "}\n"@ + d =~= "    "@ + inst_text(nl[0]) + seq![
        '\n',
    ] + (concat_each(inst_lines(nl.drop_first()), "\n"@) + "}\n"@ + d));
}

/// The rest of a list of well-named instructions is well named.
proof fn lemma_all_well_named_rest(nl: Seq<InstructionView<Seq<char>, Seq<char>>>)
    requires
        nl.len() >= 1,
        all_well_named(nl),
    ensures
        all_well_named(nl.drop_first()),
        well_named_inst(nl[0]),
{
    assert forall|j: int| 0 <= j < nl.drop_first().len() implies well_named_inst(
        #[trigger] nl.drop_first()[j],
    ) by {
        assert(nl.drop_first()[j] == nl[j + 1]);
    }
}

/// Renaming instructions, seen from the first.
proof fn lemma_indexed_front(
    nl: Seq<InstructionView<Seq<char>, Seq<char>>>,
    f: Seq<Seq<char>>,
    acc: Seq<InstructionView<usize, usize>>,
)
    requires
        nl.len() >= 1,
    ensures
        acc.push(inst_map(nl[0], index_in(f), index_in(f))) + indexed_insts(nl.drop_first(), f)
            == acc + indexed_insts(nl, f),
{
    assert(acc.push(inst_map(nl[0], index_in(f), index_in(f))) + indexed_insts(nl.drop_first(), f)
        =~= acc + indexed_insts(nl, f));
}

/// The lines of well-named instructions followed by `}` are read as the
/// instructions, with names looked up in the order in which they occur.
pub proof fn lemma_body_read(
    nl: Seq<InstructionView<Seq<char>, Seq<char>>>,
    d: Seq<char>,
    k: nat,
    names: Seq<Seq<char>>,
    acc: Seq<InstructionView<usize, usize>>,
    f: Seq<Seq<char>>,
)
    requires
        all_well_named(nl),
        distinct_names(names),
        names.len() + inst_names(nl).len() < usize::MAX,
        intern_all(names, inst_names(nl)).is_prefix_of(f),
        distinct_names(f),
    ensures
        spec_body(concat_each(inst_lines(nl), "\n"@) + "}\n"@ + d, k, names, acc) == Ok::<
            (Seq<Seq<char>>, Seq<InstructionView<usize, usize>>, Seq<char>, nat),
            usize,
        >((intern_all(names, inst_names(nl)), acc + indexed_insts(nl, f), d, k + nl.len() + 1)),
    decreases nl.len(),
{
    if nl.len() == 0 {
        assert(concat_each(inst_lines(nl), "\n"@) + "}\n"@ + d =~= "}\n"@ + d);
        lemma_closing_line(d, k, names, acc);
        assert(acc + indexed_insts(nl, f) =~= acc);
    } else {
        let ni = nl[0];
        let rest = nl.drop_first();
        let tail = concat_each(inst_lines(rest), "\n"@) + "}\n"@ + d;
        lemma_all_well_named_rest(nl);
        lemma_body_text_front(nl, d);
        lemma_inst_line_read(ni, tail, k, names, acc);
        lemma_body_names_step(nl, names, f);
        let names2 = intern_all(names, ni.idents() + ni.ptxs());
        let x = inst_map(ni, index_in(names2), index_in(names2));
        lemma_body_read(rest, d, k + 1, names2, acc.push(x), f);
        lemma_indexed_front(nl, f, acc);
    }
}

// ---------------------------------------------------------------------------
// Data lines read back
// ---------------------------------------------------------------------------

/// The text of a value reads back as it, fits on one line and does not end
/// with whitespace.
pub open spec fn data_text_ok<P: PlaintextSyntax>(v: P::V) -> bool {
    let t = P::spec_to_text(v);
    &&& P::spec_from_text(t) == Some(v)
    &&& t.len() > 0
    &&& !is_ws(t.last())
    &&& no_lf(t)
}

/// The lines of named data.
pub open spec fn entry_lines<P: PlaintextSyntax>(en: Seq<(Seq<char>, P::V)>) -> Seq<Seq<char>> {
    en.map_values(|e: (Seq<char>, P::V)| e.0 + ": "@ + P::spec_to_text(e.1))
}

/// Each entry has an identifier as name and a text that reads back.
pub open spec fn entries_ok<P: PlaintextSyntax>(en: Seq<(Seq<char>, P::V)>) -> bool {
    forall|j: int|
        0 <= j < en.len() ==> is_identifier(#[trigger] en[j].0) && data_text_ok::<P>(en[j].1)
}

/// No two entries have the same name.
pub open spec fn distinct_entry_names<V>(en: Seq<(Seq<char>, V)>) -> bool {
    forall|i: int, j: int| 0 <= i < j < en.len() ==> #[trigger] en[i].0 != #[trigger] en[j].0
}

/// The entries seen from the front, when the first key differs from the rest.
proof fn lemma_entry_map_front<V>(en: Seq<(Seq<char>, V)>, f: Seq<Seq<char>>)
    requires
        en.len() >= 1,
        forall|j: int|
            1 <= j < en.len() ==> index_in(f)(#[trigger] en[j].0) != index_in(f)(en[0].0),
    ensures
        entry_map(en, f) == entry_map(en.drop_first(), f).insert(index_in(f)(en[0].0), en[0].1),
    decreases en.len(),
{
    if en.len() == 1 {
        assert(en.drop_last() =~= Seq::<(Seq<char>, V)>::empty());
        assert(en.drop_first() =~= Seq::<(Seq<char>, V)>::empty());
    } else {
        let dl = en.drop_last();
        assert forall|j: int| 1 <= j < dl.len() implies index_in(f)(#[trigger] dl[j].0) != index_in(
            f,
        )(dl[0].0) by {
            assert(dl[j] == en[j]);
        }
        lemma_entry_map_front(dl, f);
        assert(dl.drop_first() =~= en.drop_first().drop_last());
        assert(en.drop_first().last() == en.last());
        assert(index_in(f)(en.last().0) != index_in(f)(en[0].0)) by {
            assert(en.last() == en[en.len() - 1]);
        }
        assert(entry_map(en, f) =~= entry_map(en.drop_first(), f).insert(
            index_in(f)(en[0].0),
            en[0].1,
        ));
    }
}

/// A key that no entry's name gives is not in the map of the entries.
proof fn lemma_entry_map_without<V>(en: Seq<(Seq<char>, V)>, f: Seq<Seq<char>>, y: usize)
    requires
        forall|j: int| 0 <= j < en.len() ==> index_in(f)(#[trigger] en[j].0) != y,
    ensures
        !entry_map(en, f).dom().contains(y),
    decreases en.len(),
{
    if en.len() > 0 {
        let dl = en.drop_last();
        assert forall|j: int| 0 <= j < dl.len() implies index_in(f)(#[trigger] dl[j].0) != y by {
            assert(dl[j] == en[j]);
        }
        lemma_entry_map_without(dl, f, y);
        assert(en.last() == en[en.len() - 1]);
    }
}

/// One data line is read as its name and value.
proof fn lemma_data_line_read<P: PlaintextSyntax>(
    n: Seq<char>,
    v: P::V,
    tail: Seq<char>,
    k: nat,
    names: Seq<Seq<char>>,
    data: Map<usize, P::V>,
)
    requires
        is_identifier(n),
        data_text_ok::<P>(v),
        !data.dom().contains(intern(names, n).1),
    ensures
        spec_data::<P>(n + ": "@ + P::spec_to_text(v) + seq!['\n'] + tail, k, names, data)
            == spec_data::<P>(
            tail,
            k + 1,
            intern(names, n).0,
            data.insert(intern(names, n).1, v),
        ),
{
    reveal_strlit(": ");
    let t = P::spec_to_text(v);
    let line = n + ": "@ + t;
    lemma_ident_plain(n);
    lemma_no_lf_add(n, ": "@);
    lemma_no_lf_add(n + ": "@, t);
    lemma_line_split(line, tail);
    assert(line =~= Seq::<char>::empty() + line);
    assert(line[0] == n[0]);
    assert(line.last() == t.last());
    lemma_trim_plain(Seq::<char>::empty(), line);
    assert(line =~= n + (": "@ + t));
    assert((": "@ + t)[0] == ':');
    lemma_ident_read(n, ": "@ + t);
    lemma_expect_prefix(": "@, t);
}

/// Data lines of distinct well-formed entries are read as the entries.
#[verifier::spinoff_prover]
#[verifier::rlimit(40)]
pub proof fn lemma_data_read<P: PlaintextSyntax>(
    en: Seq<(Seq<char>, P::V)>,
    k: nat,
    names: Seq<Seq<char>>,
    data: Map<usize, P::V>,
    f: Seq<Seq<char>>,
)
    requires
        entries_ok::<P>(en),
        distinct_entry_names(en),
        distinct_names(names),
        names.len() + en.len() < usize::MAX,
        intern_all(names, entry_names(en)).is_prefix_of(f),
        distinct_names(f),
        forall|j: int| 0 <= j < en.len() ==> !data.dom().contains(index_in(f)(#[trigger] en[j].0)),
    ensures
        spec_data::<P>(concat_each(entry_lines::<P>(en), "\n"@), k, names, data) == Ok::<
            (Seq<Seq<char>>, Map<usize, P::V>),
            usize,
        >((intern_all(names, entry_names(en)), data.union_prefer_right(entry_map(en, f)))),
    decreases en.len(),
{
    reveal_strlit("\n");
    if en.len() == 0 {
        assert(concat_each(entry_lines::<P>(en), "\n"@) =~= Seq::<char>::empty());
        assert(entry_names(en) =~= Seq::<Seq<char>>::empty());
        assert(data.union_prefer_right(entry_map(en, f)) =~= data);
    } else {
        let n = en[0].0;
        let v = en[0].1;
        let rest = en.drop_first();
        let (names2, x) = intern(names, n);
        lemma_intern(names, n);
        // The index of the first name is its index in `f`.
        assert(entry_names(en) =~= seq![n] + entry_names(rest));
        lemma_intern_all_concat(names, seq![n], entry_names(rest));
        assert(intern_all(names, seq![n]) == names2) by {
            assert(seq![n].drop_last() =~= Seq::<Seq<char>>::empty());
            assert(intern_all(names, Seq::<Seq<char>>::empty()) == names);
            assert(seq![n].last() == n);
        }
        lemma_intern_all(names2, entry_names(rest));
        assert(names2.is_prefix_of(f)) by {
            assert forall|j: int| 0 <= j < names2.len() implies f[j] == names2[j] by {
                assert(intern_all(names2, entry_names(rest))[j] == names2[j]);
            }
        }
        assert(names2.contains(n)) by {
            assert(names2[x as int] == n);
        }
        lemma_index_of_prefix(names2, f, n);
        assert(names2.index_of(n) == x as int) by {
            assert(names2[names2.index_of(n)] == n);
        }
        assert(index_in(f)(n) == x);
        assert(!data.dom().contains(x)) by {
            assert(index_in(f)(en[0].0) == x);
        }
        // The text: the first line, then the rest.
        lemma_concat_each_front(entry_lines::<P>(en), "\n"@);
        assert(entry_lines::<P>(en).drop_first() =~= entry_lines::<P>(rest));
        let tail = concat_each(entry_lines::<P>(rest), "\n"@);
        assert(concat_each(entry_lines::<P>(en), "\n"@) =~= n + ": "@ + P::spec_to_text(v)
            + seq!['\n'] + tail);
        assert(is_identifier(n) && data_text_ok::<P>(v));
        lemma_data_line_read::<P>(n, v, tail, k, names, data);
        // The rest, by induction.
        let f_all = intern_all(names2, entry_names(rest));
        assert forall|j: int| 1 <= j < en.len() implies index_in(f)(#[trigger] en[j].0) != x by {
            assert(en[0].0 != en[j].0);
            assert(entry_names(rest)[j - 1] == en[j].0);
            assert(f_all.contains(en[j].0));
            let q = choose|q: int| 0 <= q < f_all.len() && f_all[q] == en[j].0;
            assert(f[q] == en[j].0);
            assert(f.contains(en[j].0));
            let y = f.index_of(en[j].0);
            assert(f[y] == en[j].0);
            assert(f[x as int] == n);
        }
        assert(entries_ok::<P>(rest)) by {
            assert forall|j: int| 0 <= j < rest.len() implies is_identifier(#[trigger] rest[j].0)
                && data_text_ok::<P>(rest[j].1) by {
                assert(rest[j] == en[j + 1]);
            }
        }
        assert(distinct_entry_names(rest)) by {
            assert forall|i: int, j: int| 0 <= i < j < rest.len() implies #[trigger] rest[i].0
                != #[trigger] rest[j].0 by {
                assert(rest[i] == en[i + 1] && rest[j] == en[j + 1]);
            }
        }
        let data2 = data.insert(x, v);
        assert forall|j: int| 0 <= j < rest.len() implies !data2.dom().contains(
            index_in(f)(#[trigger] rest[j].0),
        ) by {
            assert(rest[j] == en[j + 1]);
            assert(index_in(f)(en[j + 1].0) != x);
        }
        lemma_data_read::<P>(rest, k + 1, names2, data2, f);
        lemma_entry_map_front(en, f);
        assert forall|j: int| 0 <= j < rest.len() implies index_in(f)(#[trigger] rest[j].0) != x by {
            assert(rest[j] == en[j + 1]);
        }
        lemma_entry_map_without(rest, f, x);
        assert(data2.union_prefer_right(entry_map(rest, f)) =~= data.union_prefer_right(
            entry_map(en, f),
        ));
    }
}

// ---------------------------------------------------------------------------
// The header read back
// ---------------------------------------------------------------------------

/// The header line written from identifiers is found and read back.
pub proof fn lemma_header_read(iv: Seq<Seq<char>>, b: Seq<char>)
    requires
        all_identifiers(iv),
    ensures
        spec_find_header("func("@ + join(iv, ", "@) + ") {\n"@ + b, 0) == Ok::<
            (Seq<Seq<char>>, Seq<char>, nat),
            usize,
        >((iv, b, 1)),
{
    reveal_strlit("func(");
    reveal_strlit(") {\n");
    reveal_strlit(") {");
    reveal_strlit(", ");
    let j = join(iv, ", "@);
    let h = "func("@ + j + ") {"@;
    assert("func("@ + j + ") {\n"@ + b =~= h + seq!['\n'] + b);
    lemma_idents_no_lf(iv);
    lemma_join_no_lf(iv, ", "@);
    lemma_no_lf_add("func("@, j);
    lemma_no_lf_add("func("@ + j, ") {"@);
    lemma_line_split(h, b);
    assert(h =~= Seq::<char>::empty() + h);
    assert(h[0] == 'f');
    assert(h.last() == '{');
    lemma_trim_plain(Seq::<char>::empty(), h);
    assert(h =~= "func("@ + (j + ") {"@));
    lemma_expect_prefix("func("@, j + ") {"@);
    lemma_expect_differs(") {"@, ", "@, 0);
    lemma_ident_list_read(iv, ") {"@);
    assert(") {"@ =~= ") {"@ + Seq::<char>::empty());
    lemma_expect_prefix(") {"@, Seq::<char>::empty());
    assert(spec_parse_header(h) == Some(iv));
}

// ---------------------------------------------------------------------------
// Whole programs read back
// ---------------------------------------------------------------------------

/// The names of the inputs.
pub open spec fn named_inputs<V>(p: ProgramView<V>) -> Seq<Seq<char>> {
    p.inputs.map_values(namer(p.names))
}

/// The instructions with names in place of indices.
pub open spec fn named_instructions<V>(p: ProgramView<V>) -> Seq<
    InstructionView<Seq<char>, Seq<char>>,
> {
    p.instructions.map_values(|i: InstructionView<usize, usize>| named(p.names, i))
}

/// The constants with their data, in order of names.
pub open spec fn sorted_entries<V>(p: ProgramView<V>) -> Seq<(Seq<char>, V)> {
    key_order(p.names, p.data.dom()).map_values(|x: usize| (p.names[x as int], p.data[x]))
}

/// The names a program uses are identifiers, its Galois automorphisms have
/// outputs, and the text of each of its values reads back.
pub open spec fn well_named_program<P: PlaintextSyntax>(p: ProgramView<P::V>) -> bool {
    &&& all_identifiers(named_inputs(p))
    &&& all_well_named(named_instructions(p))
    &&& forall|x: usize| #[trigger]
        p.data.dom().contains(x) ==> is_identifier(p.names[x as int]) && data_text_ok::<P>(
            p.data[x],
        )
}

/// The program that the text of `p` is read as: `p` with its names numbered
/// in the order in which the text first mentions them.
pub open spec fn renumbered<V>(p: ProgramView<V>) -> ProgramView<V> {
    new_view(named_inputs(p), named_instructions(p), sorted_entries(p))
}

/// The text of a program, cut into its parts.
pub proof fn lemma_program_text_parts<P: PlaintextSyntax>(p: ProgramView<P::V>)
    ensures
        program_text::<P>(p) == "func("@ + join(named_inputs(p), ", "@) + ") {\n"@ + (concat_each(
            inst_lines(named_instructions(p)),
            "\n"@,
        ) + "}\n"@ + concat_each(entry_lines::<P>(sorted_entries(p)), "\n"@)),
{
    let nv = named_instructions(p);
    let ev = sorted_entries(p);
    assert(p.instructions.map_values(|i: InstructionView<usize, usize>| inst_line(p.names, i))
        =~= inst_lines(nv));
    assert(key_order(p.names, p.data.dom()).map_values(|x: usize| data_line::<P>(p, x))
        =~= entry_lines::<P>(ev));
    assert(program_text::<P>(p) =~= "func("@ + join(named_inputs(p), ", "@) + ") {\n"@ + (
    concat_each(inst_lines(nv), "\n"@) + "}\n"@ + concat_each(entry_lines::<P>(ev), "\n"@)));
}

/// The constants in order of names are well formed and distinct.
proof fn lemma_sorted_entries_ok<P: PlaintextSyntax>(p: ProgramView<P::V>)
    requires
        p.wf(),
        well_named_program::<P>(p),
    ensures
        entries_ok::<P>(sorted_entries(p)),
        distinct_entry_names(sorted_entries(p)),
        sorted_entries(p).len() == p.data.dom().len(),
{
    let ko = key_order(p.names, p.data.dom());
    let ev = sorted_entries(p);
    lemma_key_order_exists(p.names, p.data.dom());
    lemma_key_order_len(p.names, p.data.dom(), ko);
    assert forall|j: int| 0 <= j < ev.len() implies is_identifier(#[trigger] ev[j].0)
        && data_text_ok::<P>(ev[j].1) by {
        assert(ko.contains(ko[j]));
        assert(p.data.dom().contains(ko[j]));
    }
    assert forall|i: int, j: int| 0 <= i < j < ev.len() implies #[trigger] ev[i].0
        != #[trigger] ev[j].0 by {
        assert(ko.contains(ko[i]) && ko.contains(ko[j]));
        assert(p.data.dom().contains(ko[i]) && p.data.dom().contains(ko[j]));
        assert(ko[i] != ko[j]);
    }
}

/// Law: `Program::parse` reads the text that `Program::to_string` writes for
/// a well-named program as the same program, with its names numbered in the
/// order in which that text first mentions them.
pub proof fn law_to_string_parse_renumbers<P: PlaintextSyntax>(p: ProgramView<P::V>)
    requires
        p.wf(),
        well_named_program::<P>(p),
        named_inputs(p).len() + inst_names(named_instructions(p)).len() + p.data.dom().len()
            < usize::MAX,
    ensures
        spec_parse_program::<P>(program_text::<P>(p)) == Ok::<ProgramView<P::V>, usize>(
            renumbered(p),
        ),
{
    let iv = named_inputs(p);
    let nv = named_instructions(p);
    let ev = sorted_entries(p);
    lemma_sorted_entries_ok::<P>(p);
    lemma_program_text_parts::<P>(p);
    let il = concat_each(inst_lines(nv), "\n"@);
    let dl = concat_each(entry_lines::<P>(ev), "\n"@);
    let b = il + "}\n"@ + dl;
    lemma_header_read(iv, b);
    let names0 = intern_all(Seq::<Seq<char>>::empty(), iv);
    let names1 = intern_all(names0, inst_names(nv));
    let f = intern_all(names1, entry_names(ev));
    assert(f == new_names(iv, nv, ev));
    assert(distinct_names(Seq::<Seq<char>>::empty()));
    lemma_intern_all(Seq::<Seq<char>>::empty(), iv);
    lemma_intern_all(names0, inst_names(nv));
    assert(entry_names(ev).len() == ev.len());
    lemma_intern_all(names1, entry_names(ev));
    lemma_prefix_trans(names0, names1, f);
    lemma_body_read(nv, dl, 1, names0, Seq::<InstructionView<usize, usize>>::empty(), f);
    assert(Seq::<InstructionView<usize, usize>>::empty() + indexed_insts(nv, f) =~= indexed_insts(
        nv,
        f,
    ));
    lemma_data_read::<P>(ev, nv.len() + 2, names1, Map::<usize, P::V>::empty(), f);
    assert(Map::<usize, P::V>::empty().union_prefer_right(entry_map(ev, f)) =~= entry_map(ev, f));
    assert(iv.map_values(index_in(names0)) =~= iv.map_values(index_in(f))) by {
        assert forall|k: int| 0 <= k < iv.len() implies iv.map_values(index_in(names0))[k]
            == iv.map_values(index_in(f))[k] by {
            lemma_index_of_prefix(names0, f, iv[k]);
        }
    }
}

/// Law: the text that `PlaintextData::to_string` writes is read back by
/// `PlaintextData::from_str` as the same data; it fits on one line and ends
/// with `]`.
pub proof fn law_plaintext_text_reads_back(v: Seq<i64>)
    ensures
        data_text_ok::<PlaintextData>(v),
{
    reveal_strlit("[");
    reveal_strlit("]");
    reveal_strlit(", ");
    lemma_int_list_text_plain(v);
    let j = join(fmt_all(v), ", "@);
    let t = int_list_text(v);
    assert(t =~= "["@ + (j + "]"@));
    lemma_expect_prefix("["@, j + "]"@);
    lemma_expect_differs("]"@, ", "@, 0);
    lemma_int_list_read(v, "]"@);
    assert("]"@ =~= "]"@ + Seq::<char>::empty());
    lemma_expect_prefix("]"@, Seq::<char>::empty());
    assert(spec_plaintext_from_text(t) == Some(v));
}

// ---------------------------------------------------------------------------
// Programs already numbered in the order of their text
// ---------------------------------------------------------------------------

/// Renaming back and forth with inverse functions gives the instruction back.
pub proof fn lemma_inst_map_inverse<A, B, C, D>(
    i: InstructionView<A, B>,
    f: spec_fn(A) -> C,
    g: spec_fn(B) -> D,
    f2: spec_fn(C) -> A,
    g2: spec_fn(D) -> B,
)
    requires
        forall|k: int| 0 <= k < i.idents().len() ==> f2(f(#[trigger] i.idents()[k])) == i.idents()[k],
        forall|k: int| 0 <= k < i.ptxs().len() ==> g2(g(#[trigger] i.ptxs()[k])) == i.ptxs()[k],
    ensures
        inst_map(inst_map(i, f, g), f2, g2) == i,
{
    match i {
        InstructionView::AddCtxCtx { .. } | InstructionView::MulCtxCtx { .. } => {
            assert(f2(f(i.idents()[0])) == i.idents()[0]);
            assert(f2(f(i.idents()[1])) == i.idents()[1]);
            assert(f2(f(i.idents()[2])) == i.idents()[2]);
        },
        InstructionView::AddPtxCtx { .. } | InstructionView::MulPtxCtx { .. } => {
            assert(f2(f(i.idents()[0])) == i.idents()[0]);
            assert(f2(f(i.idents()[1])) == i.idents()[1]);
            assert(g2(g(i.ptxs()[0])) == i.ptxs()[0]);
        },
        InstructionView::MulIntCtx { .. } | InstructionView::Copy { .. } => {
            assert(f2(f(i.idents()[0])) == i.idents()[0]);
            assert(f2(f(i.idents()[1])) == i.idents()[1]);
        },
        InstructionView::Zero { .. } | InstructionView::Return { .. } => {
            assert(f2(f(i.idents()[0])) == i.idents()[0]);
        },
        InstructionView::Galois { out, val, .. } => {
            assert(f2(f(i.idents()[out.len() as int])) == i.idents()[out.len() as int]);
            assert(out.map_values(f).map_values(f2) =~= out) by {
                assert forall|k: int| 0 <= k < out.len() implies out.map_values(f).map_values(
                    f2,
                )[k] == out[k] by {
                    assert(i.idents()[k] == out[k]);
                    assert(f2(f(i.idents()[k])) == i.idents()[k]);
                }
            }
        },
        InstructionView::InnerProduct { out, values, coefficients } => {
            assert(f2(f(i.idents()[0])) == i.idents()[0]);
            assert(values.map_values(f).map_values(f2) =~= values) by {
                assert forall|k: int| 0 <= k < values.len() implies values.map_values(
                    f,
                ).map_values(f2)[k] == values[k] by {
                    assert(i.idents()[k + 1] == values[k]);
                    assert(f2(f(i.idents()[k + 1])) == i.idents()[k + 1]);
                }
            }
            assert(coefficients.map_values(g).map_values(g2) =~= coefficients) by {
                assert forall|k: int| 0 <= k < coefficients.len() implies coefficients.map_values(
                    g,
                ).map_values(g2)[k] == coefficients[k] by {
                    assert(i.ptxs()[k] == coefficients[k]);
                    assert(g2(g(i.ptxs()[k])) == i.ptxs()[k]);
                }
            }
        },
    }
}

/// In a table of distinct names, the index of the name at `x` is `x`.
pub proof fn lemma_index_of_entry(names: Seq<Seq<char>>, x: int)
    requires
        distinct_names(names),
        0 <= x < names.len(),
    ensures
        names.index_of(names[x]) == x,
{
    assert(names.contains(names[x]));
    let i = names.index_of(names[x]);
    assert(0 <= i < names.len() && names[i] == names[x]);
}

/// The value of an entry whose key no other entry has.
proof fn lemma_entry_map_get<V>(en: Seq<(Seq<char>, V)>, f: Seq<Seq<char>>, j: int)
    requires
        0 <= j < en.len(),
        forall|a: int, b: int|
            0 <= a < b < en.len() ==> index_in(f)(#[trigger] en[a].0) != index_in(f)(
                #[trigger] en[b].0,
            ),
    ensures
        entry_map(en, f).dom().contains(index_in(f)(en[j].0)),
        entry_map(en, f)[index_in(f)(en[j].0)] == en[j].1,
    decreases en.len(),
{
    if j < en.len() - 1 {
        let dl = en.drop_last();
        assert forall|a: int, b: int| 0 <= a < b < dl.len() implies index_in(f)(#[trigger] dl[a].0)
            != index_in(f)(#[trigger] dl[b].0) by {
            assert(dl[a] == en[a] && dl[b] == en[b]);
        }
        lemma_entry_map_get(dl, f, j);
        assert(dl[j] == en[j]);
        assert(en.last() == en[en.len() - 1]);
        assert(index_in(f)(en[j].0) != index_in(f)(en[en.len() - 1].0));
    }
}

/// A program whose names are numbered in the order in which its text first
/// mentions them is its own renumbering.
pub proof fn lemma_renumbered_canonical<V>(p: ProgramView<V>)
    requires
        p.wf(),
        p.names == new_names(named_inputs(p), named_instructions(p), sorted_entries(p)),
    ensures
        renumbered(p) == p,
{
    let n = p.names;
    let q = renumbered(p);
    let ko = key_order(n, p.data.dom());
    let ev = sorted_entries(p);
    lemma_key_order_exists(n, p.data.dom());
    lemma_key_order_len(n, p.data.dom(), ko);
    assert(q.inputs =~= p.inputs) by {
        assert forall|k: int| 0 <= k < p.inputs.len() implies q.inputs[k] == p.inputs[k] by {
            lemma_index_of_entry(n, p.inputs[k] as int);
        }
    }
    assert(q.instructions =~= p.instructions) by {
        assert forall|k: int| 0 <= k < p.instructions.len() implies q.instructions[k]
            == p.instructions[k] by {
            let i = p.instructions[k];
            assert(crate::instruction::idents_below(i, n.len()));
            assert forall|m: int| 0 <= m < i.idents().len() implies index_in(n)(
                namer(n)(#[trigger] i.idents()[m]),
            ) == i.idents()[m] by {
                lemma_index_of_entry(n, i.idents()[m] as int);
            }
            assert forall|m: int| 0 <= m < i.ptxs().len() implies index_in(n)(
                namer(n)(#[trigger] i.ptxs()[m]),
            ) == i.ptxs()[m] by {
                lemma_index_of_entry(n, i.ptxs()[m] as int);
            }
            lemma_inst_map_inverse(i, namer(n), namer(n), index_in(n), index_in(n));
        }
    }
    assert forall|a: int, b: int| 0 <= a < b < ev.len() implies index_in(n)(#[trigger] ev[a].0)
        != index_in(n)(#[trigger] ev[b].0) by {
        assert(ko.contains(ko[a]) && ko.contains(ko[b]));
        lemma_index_of_entry(n, ko[a] as int);
        lemma_index_of_entry(n, ko[b] as int);
    }
    assert(q.data =~= p.data) by {
        assert forall|x: usize| #[trigger] q.data.dom().contains(x) <==> p.data.dom().contains(
            x,
        ) by {
            if p.data.dom().contains(x) {
                assert(ko.contains(x));
                let j = choose|j: int| 0 <= j < ko.len() && ko[j] == x;
                lemma_index_of_entry(n, x as int);
                lemma_entry_map_get(ev, n, j);
            }
            if q.data.dom().contains(x) {
                if !p.data.dom().contains(x) {
                    assert forall|j: int| 0 <= j < ev.len() implies index_in(n)(
                        #[trigger] ev[j].0,
                    ) != x by {
                        assert(ko.contains(ko[j]));
                        lemma_index_of_entry(n, ko[j] as int);
                    }
                    lemma_entry_map_without(ev, n, x);
                }
            }
        }
        assert forall|x: usize| #[trigger] p.data.dom().contains(x) implies q.data[x]
            == p.data[x] by {
            assert(ko.contains(x));
            let j = choose|j: int| 0 <= j < ko.len() && ko[j] == x;
            lemma_index_of_entry(n, x as int);
            lemma_entry_map_get(ev, n, j);
        }
    }
}

// ---------------------------------------------------------------------------
// Programs built from names
// ---------------------------------------------------------------------------

/// Each name an instruction mentions is among the names of the instructions.
pub(crate) proof fn lemma_inst_names_contains(nv: Seq<InstructionView<Seq<char>, Seq<char>>>, k: int)
    requires
        0 <= k < nv.len(),
    ensures
        forall|j: int|
            0 <= j < nv[k].idents().len() ==> inst_names(nv).contains(#[trigger] nv[k].idents()[j]),
        forall|j: int|
            0 <= j < nv[k].ptxs().len() ==> inst_names(nv).contains(#[trigger] nv[k].ptxs()[j]),
    decreases nv.len(),
{
    let all = inst_names(nv);
    let before = inst_names(nv.drop_last());
    let last = nv.last();
    if k == nv.len() - 1 {
        assert forall|j: int| 0 <= j < nv[k].idents().len() implies all.contains(
            #[trigger] nv[k].idents()[j],
        ) by {
            assert(all[before.len() + j] == nv[k].idents()[j]);
        }
        assert forall|j: int| 0 <= j < nv[k].ptxs().len() implies all.contains(
            #[trigger] nv[k].ptxs()[j],
        ) by {
            assert(all[before.len() + last.idents().len() + j] == nv[k].ptxs()[j]);
        }
    } else {
        lemma_inst_names_contains(nv.drop_last(), k);
        assert(nv.drop_last()[k] == nv[k]);
        assert forall|j: int| 0 <= j < nv[k].idents().len() implies all.contains(
            #[trigger] nv[k].idents()[j],
        ) by {
            assert(before.contains(nv[k].idents()[j]));
            let q = choose|q: int| 0 <= q < before.len() && before[q] == nv[k].idents()[j];
            assert(all[q] == before[q]);
        }
        assert forall|j: int| 0 <= j < nv[k].ptxs().len() implies all.contains(
            #[trigger] nv[k].ptxs()[j],
        ) by {
            assert(before.contains(nv[k].ptxs()[j]));
            let q = choose|q: int| 0 <= q < before.len() && before[q] == nv[k].ptxs()[j];
            assert(all[q] == before[q]);
        }
    }
}

/// Entries whose names strictly increase.
pub open spec fn entries_sorted<V>(en: Seq<(Seq<char>, V)>) -> bool {
    forall|i: int, j: int| 0 <= i < j < en.len() ==> lex_lt(#[trigger] en[i].0, #[trigger] en[j].0)
}

/// The program built from named inputs, instructions and entries sorted by
/// name is well formed, and its names, instructions and entries are those
/// it was built from.
pub proof fn lemma_new_view_names<V>(
    iv: Seq<Seq<char>>,
    nv: Seq<InstructionView<Seq<char>, Seq<char>>>,
    ev: Seq<(Seq<char>, V)>,
)
    requires
        entries_sorted(ev),
        iv.len() + inst_names(nv).len() + ev.len() < usize::MAX,
    ensures
        new_view(iv, nv, ev).wf(),
        named_inputs(new_view(iv, nv, ev)) == iv,
        named_instructions(new_view(iv, nv, ev)) == nv,
        sorted_entries(new_view(iv, nv, ev)) == ev,
{
    let p = new_view(iv, nv, ev);
    let n = p.names;
    crate::built::law_new_parts(iv, nv, ev);
    crate::built::lemma_new_names(iv, nv, ev);
    // Data: the keys are the indices of the entries' names, in order of names.
    let ks = ev.map_values(|e: (Seq<char>, V)| index_in(n)(e.0));
    assert forall|a: int, b: int| 0 <= a < b < ev.len() implies index_in(n)(#[trigger] ev[a].0)
        != index_in(n)(#[trigger] ev[b].0) by {
        assert(lex_lt(ev[a].0, ev[b].0));
        crate::text::lemma_lex_irreflexive(ev[a].0);
        let x = n.index_of(ev[a].0);
        let y = n.index_of(ev[b].0);
        assert(n[x] == ev[a].0 && n[y] == ev[b].0);
    }
    assert forall|j: int| 0 <= j < ev.len() implies n[#[trigger] ks[j] as int] == ev[j].0 by {
        let x = n.index_of(ev[j].0);
        assert(0 <= x < n.len() && n[x] == ev[j].0);
    }
    assert forall|x: usize| #[trigger] ks.contains(x) <==> p.data.dom().contains(x) by {
        if ks.contains(x) {
            let j = choose|j: int| 0 <= j < ks.len() && ks[j] == x;
            lemma_entry_map_get(ev, n, j);
        }
        if p.data.dom().contains(x) && !ks.contains(x) {
            assert forall|j: int| 0 <= j < ev.len() implies index_in(n)(#[trigger] ev[j].0) != x by {
                assert(ks[j] == index_in(n)(ev[j].0));
            }
            lemma_entry_map_without(ev, n, x);
        }
    }
    assert(sorted_by_name(n, ks));
    assert(is_key_order(n, p.data.dom(), ks));
    lemma_key_order_exists(n, p.data.dom());
    lemma_key_order_unique(n, p.data.dom(), ks, key_order(n, p.data.dom()));
    assert(sorted_entries(p) =~= ev) by {
        assert forall|j: int| 0 <= j < ev.len() implies sorted_entries(p)[j] == ev[j] by {
            lemma_entry_map_get(ev, n, j);
        }
    }
}

/// Law: a program built with `Program::new` from well-formed names, with its
/// constants given in increasing order of names, is written by
/// `Program::to_string` as a text that `Program::parse` reads back as the
/// same program.
pub proof fn law_new_to_string_parse<P: PlaintextSyntax>(
    iv: Seq<Seq<char>>,
    nv: Seq<InstructionView<Seq<char>, Seq<char>>>,
    ev: Seq<(Seq<char>, P::V)>,
)
    requires
        all_identifiers(iv),
        all_well_named(nv),
        entries_ok::<P>(ev),
        entries_sorted(ev),
        iv.len() + inst_names(nv).len() + ev.len() < usize::MAX,
    ensures
        spec_parse_program::<P>(program_text::<P>(new_view(iv, nv, ev))) == Ok::<
            ProgramView<P::V>,
            usize,
        >(new_view(iv, nv, ev)),
{
    let p = new_view(iv, nv, ev);
    lemma_new_view_names(iv, nv, ev);
    assert(well_named_program::<P>(p)) by {
        assert forall|x: usize| #[trigger] p.data.dom().contains(x) implies is_identifier(
            p.names[x as int],
        ) && data_text_ok::<P>(p.data[x]) by {
            let ko = key_order(p.names, p.data.dom());
            lemma_key_order_exists(p.names, p.data.dom());
            assert(ko.contains(x));
            let j = choose|j: int| 0 <= j < ko.len() && ko[j] == x;
            assert(sorted_entries(p)[j] == (p.names[x as int], p.data[x]));
            assert(sorted_entries(p)[j] == ev[j]);
            assert(is_identifier(ev[j].0) && data_text_ok::<P>(ev[j].1));
        }
    }
    lemma_key_order_exists(p.names, p.data.dom());
    lemma_key_order_len(p.names, p.data.dom(), key_order(p.names, p.data.dom()));
    law_to_string_parse_renumbers::<P>(p);
    lemma_renumbered_canonical(p);
}

/// Law: the text that `Program::to_string` writes for a well-named program
/// whose names are numbered in the order in which that text first mentions
/// them is read back by `Program::parse` as the same program.
pub proof fn law_to_string_parse<P: PlaintextSyntax>(p: ProgramView<P::V>)
    requires
        p.wf(),
        well_named_program::<P>(p),
        p.names == new_names(named_inputs(p), named_instructions(p), sorted_entries(p)),
        named_inputs(p).len() + inst_names(named_instructions(p)).len() + p.data.dom().len()
            < usize::MAX,
    ensures
        spec_parse_program::<P>(program_text::<P>(p)) == Ok::<ProgramView<P::V>, usize>(p),
{
    law_to_string_parse_renumbers::<P>(p);
    lemma_renumbered_canonical(p);
}

/// The constants of a program, in order of names, have increasing names.
proof fn lemma_sorted_entries_sorted<V>(p: ProgramView<V>)
    requires
        p.wf(),
    ensures
        entries_sorted(sorted_entries(p)),
        sorted_entries(p).len() == p.data.dom().len(),
{
    let ko = key_order(p.names, p.data.dom());
    lemma_key_order_exists(p.names, p.data.dom());
    lemma_key_order_len(p.names, p.data.dom(), ko);
    let ev = sorted_entries(p);
    assert forall|i: int, j: int| 0 <= i < j < ev.len() implies lex_lt(
        #[trigger] ev[i].0,
        #[trigger] ev[j].0,
    ) by {
        assert(ev[i].0 == p.names[ko[i] as int] && ev[j].0 == p.names[ko[j] as int]);
    }
}

/// Law: writing a well-named program with `Program::to_string`, reading the
/// text with `Program::parse` and writing the result again gives the same
/// text.
pub proof fn law_to_string_parse_to_string<P: PlaintextSyntax>(q: ProgramView<P::V>)
    requires
        q.wf(),
        well_named_program::<P>(q),
        named_inputs(q).len() + inst_names(named_instructions(q)).len() + q.data.dom().len()
            < usize::MAX,
    ensures
        spec_parse_program::<P>(program_text::<P>(q)) matches Ok(p) && program_text::<P>(p)
            == program_text::<P>(q),
{
    law_to_string_parse_renumbers::<P>(q);
    lemma_sorted_entries_sorted(q);
    let p = renumbered(q);
    lemma_new_view_names(named_inputs(q), named_instructions(q), sorted_entries(q));
    lemma_program_text_parts::<P>(q);
    lemma_program_text_parts::<P>(p);
}

} // verus!
