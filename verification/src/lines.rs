//! Where things stand in the textual form of a program: the line numbers
//! that `Program::check` reports are those of the offending lines.

use vstd::prelude::*;

use crate::identifiers::{index_in, intern, intern_all};
use crate::instruction::{concat_each, inst_map, inst_text, join, InstructionView};
use crate::parse::{
    is_blank, spec_body, spec_data, spec_find_header, spec_parse_inst, spec_parse_program,
};
use crate::plaintext::PlaintextSyntax;
use crate::program::{
    check_inputs, check_insts, check_view, data_line, first_non_constant, inst_line, key_order,
    lemma_key_order_exists, lemma_key_order_len, named, ProgramView,
};
use crate::roundtrip::{
    data_text_ok, entry_lines, inst_lines, lemma_concat_each_front, lemma_ident_plain,
    lemma_idents_no_lf, lemma_inst_read, lemma_join_no_lf, lemma_no_lf_add,
    lemma_program_text_parts, named_inputs, named_instructions, sorted_entries, well_named_program,
};
use crate::text::{
    after_line, first_line, lemma_after_line_len, lemma_nth_line_split, no_lf, nth_line,
};

verus! {

/// The lines of text made of lines, each ended by a line feed, and more text.
proof fn lemma_nth_line_concat(ls: Seq<Seq<char>>, rest: Seq<char>, j: nat)
    requires
        forall|i: int| 0 <= i < ls.len() ==> no_lf(#[trigger] ls[i]),
    ensures
        j < ls.len() ==> nth_line(concat_each(ls, "\n"@) + rest, j) == ls[j as int],
        nth_line(concat_each(ls, "\n"@) + rest, ls.len() + j) == nth_line(rest, j),
    decreases ls.len(),
{
    reveal_strlit("\n");
    if ls.len() == 0 {
        assert(concat_each(ls, "\n"@) + rest =~= rest);
    } else {
        lemma_concat_each_front(ls, "\n"@);
        let tail = concat_each(ls.drop_first(), "\n"@) + rest;
        assert(concat_each(ls, "\n"@) + rest =~= ls[0] + seq!['\n'] + tail);
        assert(no_lf(ls[0]));
        assert forall|i: int| 0 <= i < ls.drop_first().len() implies no_lf(
            #[trigger] ls.drop_first()[i],
        ) by {
            assert(ls.drop_first()[i] == ls[i + 1]);
        }
        if j > 0 {
            lemma_nth_line_split(ls[0], tail, (j - 1) as nat);
            lemma_nth_line_concat(ls.drop_first(), rest, (j - 1) as nat);
        } else {
            lemma_nth_line_split(ls[0], tail, 0);
        }
        lemma_nth_line_split(ls[0], tail, (ls.len() - 1 + j) as nat);
        lemma_nth_line_concat(ls.drop_first(), rest, j);
    }
}

/// A failing instruction is one of the instructions.
proof fn lemma_check_insts_range(
    names: Seq<Seq<char>>,
    insts: Seq<InstructionView<usize, usize>>,
    defined: Set<usize>,
    has_data: Set<usize>,
)
    ensures
        check_insts(names, insts, defined, has_data) matches Err(i) ==> i < insts.len(),
    decreases insts.len(),
{
    if insts.len() > 0 {
        lemma_check_insts_range(names, insts.drop_last(), defined, has_data);
    }
}

/// A failing constant is one of the constants.
proof fn lemma_first_non_constant_range(names: Seq<Seq<char>>, ks: Seq<usize>)
    ensures
        first_non_constant(names, ks) matches Some(j) ==> j < ks.len(),
    decreases ks.len(),
{
    if ks.len() > 0 {
        lemma_first_non_constant_range(names, ks.drop_last());
    }
}

/// The header line of the text of a program.
pub open spec fn header_line<V>(p: ProgramView<V>) -> Seq<char> {
    "func("@ + join(named_inputs(p), ", "@) + ") {"@
}

/// Law: when `Program::check` rejects a well-named program with `Err(e)`,
/// line `e` of the text that `Program::to_string` writes is the line of what
/// it rejects: the header for a bad input, the line of instruction `e - 1`,
/// or the line of the `(e - n - 2)`-th constant in order of names, with `n`
/// instructions.
pub proof fn law_check_error_line<P: PlaintextSyntax>(p: ProgramView<P::V>)
    requires
        p.wf(),
        well_named_program::<P>(p),
        p.instructions.len() + p.data.dom().len() < usize::MAX,
        check_view(p) is Err,
    ensures
        ({
            let e = check_view(p)->Err_0 as nat;
            let t = crate::program::program_text::<P>(p);
            let n = p.instructions.len();
            ||| e == 0 && nth_line(t, 0) == header_line(p)
            ||| 1 <= e <= n && nth_line(t, e) == inst_line(p.names, p.instructions[e - 1])
            ||| n + 2 <= e < n + 2 + p.data.dom().len() && nth_line(t, e) == data_line::<P>(
                p,
                key_order(p.names, p.data.dom())[e - n - 2],
            )
        }),
{
    reveal_strlit("func(");
    reveal_strlit(") {\n");
    reveal_strlit(") {");
    reveal_strlit("}\n");
    reveal_strlit(", ");
    reveal_strlit(": ");
    let e = check_view(p)->Err_0 as nat;
    let t = crate::program::program_text::<P>(p);
    let n = p.instructions.len();
    let nv = named_instructions(p);
    let ev = sorted_entries(p);
    let ko = key_order(p.names, p.data.dom());
    lemma_key_order_exists(p.names, p.data.dom());
    lemma_key_order_len(p.names, p.data.dom(), ko);
    lemma_program_text_parts::<P>(p);
    let il = inst_lines(nv);
    let dls = entry_lines::<P>(ev);
    let dl = concat_each(dls, "\n"@);
    let b = concat_each(il, "\n"@) + "}\n"@ + dl;
    let h = header_line(p);
    // Every line fits on one line.
    lemma_idents_no_lf(named_inputs(p));
    lemma_join_no_lf(named_inputs(p), ", "@);
    lemma_no_lf_add("func("@, join(named_inputs(p), ", "@));
    lemma_no_lf_add("func("@ + join(named_inputs(p), ", "@), ") {"@);
    assert(t =~= h + seq!['\n'] + b);
    assert forall|i: int| 0 <= i < il.len() implies no_lf(#[trigger] il[i]) by {
        assert(nv[i] == named(p.names, p.instructions[i]));
        lemma_inst_read(nv[i]);
        reveal_strlit("    ");
        lemma_no_lf_add("    "@, inst_text(nv[i]));
    }
    assert forall|i: int| 0 <= i < dls.len() implies no_lf(#[trigger] dls[i]) by {
        assert(ko.contains(ko[i]));
        assert(p.data.dom().contains(ko[i]));
        lemma_ident_plain(p.names[ko[i] as int]);
        assert(data_text_ok::<P>(p.data[ko[i]]));
        lemma_no_lf_add(p.names[ko[i] as int], ": "@);
        lemma_no_lf_add(p.names[ko[i] as int] + ": "@, P::spec_to_text(p.data[ko[i]]));
    }
    lemma_nth_line_split(h, b, 0);
    match check_inputs(p.names, p.inputs) {
        None => {},
        Some(d) => {
            lemma_check_insts_range(p.names, p.instructions, d, p.data.dom());
            match check_insts(p.names, p.instructions, d, p.data.dom()) {
                Err(i) => {
                    lemma_nth_line_split(h, b, i);
                    lemma_nth_line_concat(il, "}\n"@ + dl, i);
                    assert(concat_each(il, "\n"@) + "}\n"@ + dl =~= concat_each(il, "\n"@) + (
                    "}\n"@ + dl));
                    assert(il[i as int] == inst_line(p.names, p.instructions[i as int]));
                },
                Ok(_) => {
                    lemma_first_non_constant_range(p.names, ko);
                    let j = first_non_constant(p.names, ko)->Some_0;
                    lemma_nth_line_split(h, b, n + 1 + j);
                    assert(concat_each(il, "\n"@) + "}\n"@ + dl =~= concat_each(il, "\n"@) + (seq![
                        '}',
                    ] + seq!['\n'] + dl));
                    lemma_nth_line_concat(il, seq!['}'] + seq!['\n'] + dl, (1 + j) as nat);
                    assert(no_lf(seq!['}']));
                    lemma_nth_line_split(seq!['}'], dl, j);
                    lemma_nth_line_concat(dls, Seq::<char>::empty(), j);
                    assert(dl + Seq::<char>::empty() =~= dl);
                    assert(dls[j as int] == data_line::<P>(p, ko[j as int]));
                },
            }
        },
    }
}

// ---------------------------------------------------------------------------
// The lines of syntax errors
// ---------------------------------------------------------------------------

/// The text after its first `k` lines.
pub open spec fn skip_lines(t: Seq<char>, k: nat) -> Seq<char>
    decreases k,
{
    if k == 0 {
        t
    } else {
        skip_lines(after_line(t), (k - 1) as nat)
    }
}

/// Every line of the text is blank.
pub open spec fn all_blank(t: Seq<char>) -> bool {
    forall|j: nat| is_blank(#[trigger] nth_line(t, j))
}

/// Line `k` is the first line of the text after `k` lines; skipping one
/// more line skips the first line of what is left.
proof fn lemma_skip_lines(t: Seq<char>, k: nat)
    ensures
        nth_line(t, k) == first_line(skip_lines(t, k)),
        skip_lines(t, k + 1) == after_line(skip_lines(t, k)),
    decreases k,
{
    assert(skip_lines(t, k + 1) == skip_lines(after_line(t), k));
    if k > 0 {
        lemma_skip_lines(after_line(t), (k - 1) as nat);
        assert(((k - 1) as nat + 1) as nat == k);
    } else {
        assert(skip_lines(after_line(t), 0) == after_line(t));
    }
}

/// Lines of empty text are blank, and so is what is left after them.
proof fn lemma_skip_lines_empty(k: nat)
    ensures
        skip_lines(Seq::<char>::empty(), k) == Seq::<char>::empty(),
        is_blank(nth_line(Seq::<char>::empty(), k)),
    decreases k,
{
    reveal_strlit("");
    assert(after_line(Seq::<char>::empty()) =~= Seq::<char>::empty());
    if k > 0 {
        lemma_skip_lines_empty((k - 1) as nat);
    }
    assert(crate::text::spec_trim(Seq::<char>::empty()) =~= Seq::<char>::empty());
    lemma_skip_lines(Seq::<char>::empty(), k);
}

/// The lines from line `k` on of a text with nothing left after line `k`
/// are blank.
proof fn lemma_lines_after_end(t: Seq<char>, k: nat, j: nat)
    requires
        skip_lines(t, k).len() == 0,
        k <= j,
    ensures
        is_blank(nth_line(t, j)),
        skip_lines(t, j).len() == 0,
    decreases j - k,
{
    if j > k {
        lemma_lines_after_end(t, k, (j - 1) as nat);
        lemma_skip_lines(t, (j - 1) as nat);
        assert(skip_lines(t, (j - 1) as nat) =~= Seq::<char>::empty());
        assert(after_line(Seq::<char>::empty()) =~= Seq::<char>::empty());
    }
    lemma_skip_lines(t, j);
    assert(skip_lines(t, j) =~= Seq::<char>::empty());
    lemma_skip_lines_empty(0);
}

/// Where the search for the header ends: at the header, at the first line
/// that is not blank, or at the end of a text of blank lines.
proof fn lemma_find_header_lines(t: Seq<char>, s: Seq<char>, k: nat)
    requires
        s == skip_lines(t, k),
        k + s.len() <= t.len(),
        t.len() < usize::MAX,
        forall|j: nat| j < k ==> is_blank(#[trigger] nth_line(t, j)),
    ensures
        spec_find_header(s, k) matches Err(e) ==> (e == 0 && all_blank(t)) || (e < t.len()
            && !is_blank(nth_line(t, e as nat))),
        spec_find_header(s, k) matches Ok((ps, r, k2)) ==> r == skip_lines(t, k2) && k2 + r.len()
            <= t.len(),
    decreases s.len(),
{
    lemma_skip_lines(t, k);
    if s.len() == 0 {
        assert forall|j: nat| is_blank(#[trigger] nth_line(t, j)) by {
            if j >= k {
                lemma_lines_after_end(t, k, j);
            }
        }
    } else {
        lemma_after_line_len(s);
        assert(((k as usize) as nat) == k);
        if is_blank(first_line(s)) {
            lemma_find_header_lines(t, after_line(s), k + 1);
        }
    }
}

/// Where reading the body ends with an error: at a line that is not blank,
/// or with `usize::MAX` at the end of the text.
proof fn lemma_body_lines(
    t: Seq<char>,
    s: Seq<char>,
    k: nat,
    names: Seq<Seq<char>>,
    insts: Seq<InstructionView<usize, usize>>,
)
    requires
        s == skip_lines(t, k),
        k + s.len() <= t.len(),
        t.len() < usize::MAX,
    ensures
        spec_body(s, k, names, insts) matches Err(e) ==> e == usize::MAX || (e < t.len()
            && !is_blank(nth_line(t, e as nat))),
        spec_body(s, k, names, insts) matches Ok((n2, i2, r, k2)) ==> r == skip_lines(t, k2) && k2
            + r.len() <= t.len(),
    decreases s.len(),
{
    lemma_skip_lines(t, k);
    if s.len() > 0 {
        lemma_after_line_len(s);
        assert(((k as usize) as nat) == k);
        let l = first_line(s);
        if is_blank(l) {
            lemma_body_lines(t, after_line(s), k + 1, names, insts);
        } else {
            match spec_parse_inst(l) {
                Some(ni) => {
                    let names2 = intern_all(names, ni.idents() + ni.ptxs());
                    lemma_body_lines(
                        t,
                        after_line(s),
                        k + 1,
                        names2,
                        insts.push(inst_map(ni, index_in(names2), index_in(names2))),
                    );
                },
                None => {},
            }
        }
    }
}

/// Where reading the data ends with an error: at a line that is not blank.
proof fn lemma_data_lines<P: PlaintextSyntax>(
    t: Seq<char>,
    s: Seq<char>,
    k: nat,
    names: Seq<Seq<char>>,
    data: Map<usize, P::V>,
)
    requires
        s == skip_lines(t, k),
        k + s.len() <= t.len(),
        t.len() < usize::MAX,
    ensures
        spec_data::<P>(s, k, names, data) matches Err(e) ==> e < t.len() && !is_blank(
            nth_line(t, e as nat),
        ),
    decreases s.len(),
{
    lemma_skip_lines(t, k);
    if s.len() > 0 {
        lemma_after_line_len(s);
        assert(((k as usize) as nat) == k);
        let l = first_line(s);
        if is_blank(l) {
            lemma_data_lines::<P>(t, after_line(s), k + 1, names, data);
        } else {
            match crate::text::spec_ident(crate::text::spec_trim(l)) {
                None => {},
                Some((n, r)) => {
                    let (names2, x) = intern(names, n);
                    match crate::text::spec_expect(r, ": "@) {
                        None => {},
                        Some(r2) => match P::spec_from_text(r2) {
                            None => {},
                            Some(v) => {
                                lemma_data_lines::<P>(
                                    t,
                                    after_line(s),
                                    k + 1,
                                    names2,
                                    data.insert(x, v),
                                );
                            },
                        },
                    }
                },
            }
        }
    }
}

/// Law: when `Program::parse` rejects a text with `Err(e)`, either `e` is
/// `usize::MAX` because the body has no closing `}`, or `e` is 0 and the text
/// has no line that is not blank, or line `e` of the text is not blank: it
/// is the line at which reading failed.
pub proof fn law_parse_error_line<P: PlaintextSyntax>(t: Seq<char>)
    requires
        t.len() < usize::MAX,
    ensures
        spec_parse_program::<P>(t) matches Err(e) ==> e == usize::MAX || (e == 0 && all_blank(t))
            || !is_blank(nth_line(t, e as nat)),
{
    assert(skip_lines(t, 0) == t);
    lemma_find_header_lines(t, t, 0);
    match spec_find_header(t, 0) {
        Err(e) => {},
        Ok((params, r, k)) => {
            let names0 = intern_all(Seq::<Seq<char>>::empty(), params);
            lemma_body_lines(t, r, k, names0, Seq::<InstructionView<usize, usize>>::empty());
            match spec_body(r, k, names0, Seq::<InstructionView<usize, usize>>::empty()) {
                Err(e) => {},
                Ok((names1, insts, r2, k2)) => {
                    lemma_data_lines::<P>(t, r2, k2, names1, Map::<usize, P::V>::empty());
                },
            }
        },
    }
}

} // verus!
