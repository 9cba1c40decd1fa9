//! Programs built by `Program::new`: what the accessors give back of them,
//! and how the check and the text of a program relate to its parts.

use vstd::prelude::*;

use crate::identifiers::{distinct_names, index_in, intern, intern_all, lemma_intern_all};
use crate::instruction::{concat_each, inst_map, join, lemma_inst_map_idents, InstructionView};
use crate::plaintext::PlaintextSyntax;
use crate::program::{
    check_view, data_views, entry_map, entry_names, inst_names, key_order, lemma_entry_map_len,
    lemma_key_order_exists, lemma_key_order_len,
    named, namer, names_in, new_names, new_view, program_text, spec_check, Program, ProgramView,
};
use crate::parse::spec_parse_program;
use crate::roundtrip::{
    all_identifiers, all_well_named, data_text_ok, entries_ok, entry_lines, inst_lines,
    law_to_string_parse_renumbers, lemma_index_of_entry, lemma_inst_map_inverse,
    lemma_inst_names_contains, lemma_program_text_parts, lemma_renumbered_canonical,
    named_inputs, named_instructions, sorted_entries, well_named_program,
};
use crate::text::{is_identifier, law_lex_is_str_order, str_before};

verus! {

// ---------------------------------------------------------------------------
// The data of a name
// ---------------------------------------------------------------------------

/// The data of the last entry named `n`, if any.
pub open spec fn entry_value<V>(entries: Seq<(Seq<char>, V)>, n: Seq<char>) -> Option<V>
    decreases entries.len(),
{
    if entries.len() == 0 {
        None
    } else if entries.last().0 == n {
        Some(entries.last().1)
    } else {
        entry_value(entries.drop_last(), n)
    }
}

/// The data of the constant named `n` in the model of a program, if any.
pub open spec fn data_of<V>(p: ProgramView<V>, n: Seq<char>) -> Option<V> {
    if p.names.contains(n) && p.data.dom().contains(p.names.index_of(n) as usize) {
        Some(p.data[p.names.index_of(n) as usize])
    } else {
        None
    }
}

/// The data of the last entry named `n` is that of one of the entries.
proof fn lemma_entry_value_in<V>(entries: Seq<(Seq<char>, V)>, n: Seq<char>)
    ensures
        entry_value(entries, n) matches Some(v) ==> exists|j: int|
            0 <= j < entries.len() && #[trigger] entries[j] == (n, v),
    decreases entries.len(),
{
    if entries.len() > 0 {
        let dl = entries.drop_last();
        lemma_entry_value_in(dl, n);
        if entries.last().0 == n {
            assert(entries[entries.len() - 1] == (n, entries.last().1));
        } else if entry_value(dl, n) is Some {
            let j = choose|j: int| 0 <= j < dl.len() && #[trigger] dl[j] == (n, entry_value(dl, n)->0);
            assert(entries[j] == dl[j]);
        }
    }
}

/// In a table of distinct names that holds every entry's name, the index of
/// `n` has data exactly when an entry is named `n`, and then it has the data
/// of the last such entry.
proof fn lemma_entry_value<V>(entries: Seq<(Seq<char>, V)>, names: Seq<Seq<char>>, n: Seq<char>)
    requires
        distinct_names(names),
        names.len() < usize::MAX,
        names.contains(n),
        forall|j: int| 0 <= j < entries.len() ==> names.contains(#[trigger] entries[j].0),
    ensures
        entry_map(entries, names).dom().contains(index_in(names)(n)) <==> entry_value(
            entries,
            n,
        ) is Some,
        entry_value(entries, n) matches Some(v) ==> entry_map(entries, names)[index_in(names)(n)]
            == v,
    decreases entries.len(),
{
    if entries.len() > 0 {
        let dl = entries.drop_last();
        assert forall|j: int| 0 <= j < dl.len() implies names.contains(#[trigger] dl[j].0) by {
            assert(dl[j] == entries[j]);
        }
        lemma_entry_value(dl, names, n);
        let last = entries.last();
        assert(last == entries[entries.len() - 1]);
        if last.0 != n {
            let a = names.index_of(n);
            let b = names.index_of(last.0);
            assert(0 <= a < names.len() && names[a] == n);
            assert(0 <= b < names.len() && names[b] == last.0);
            assert(index_in(names)(n) != index_in(names)(last.0));
        }
    }
}

/// Every key of the data of the entries is the index of an entry's name.
proof fn lemma_entry_map_dom<V>(entries: Seq<(Seq<char>, V)>, names: Seq<Seq<char>>, x: usize)
    requires
        entry_map(entries, names).dom().contains(x),
    ensures
        exists|j: int| 0 <= j < entries.len() && index_in(names)(#[trigger] entries[j].0) == x,
    decreases entries.len(),
{
    let dl = entries.drop_last();
    if x == index_in(names)(entries.last().0) {
        assert(entries.last() == entries[entries.len() - 1]);
    } else {
        lemma_entry_map_dom(dl, names, x);
        let j = choose|j: int| 0 <= j < dl.len() && index_in(names)(#[trigger] dl[j].0) == x;
        assert(dl[j] == entries[j]);
    }
}

// ---------------------------------------------------------------------------
// What `new` builds
// ---------------------------------------------------------------------------

/// The names of a program built from names are distinct and hold every name
/// it was built from.
pub(crate) proof fn lemma_new_names<V>(
    iv: Seq<Seq<char>>,
    nv: Seq<InstructionView<Seq<char>, Seq<char>>>,
    ev: Seq<(Seq<char>, V)>,
)
    requires
        iv.len() + inst_names(nv).len() + ev.len() < usize::MAX,
    ensures
        distinct_names(new_names(iv, nv, ev)),
        new_names(iv, nv, ev).len() < usize::MAX,
        forall|k: int| 0 <= k < iv.len() ==> new_names(iv, nv, ev).contains(#[trigger] iv[k]),
        forall|k: int| 0 <= k < nv.len() ==> names_in(#[trigger] nv[k], new_names(iv, nv, ev)),
        forall|k: int| 0 <= k < ev.len() ==> new_names(iv, nv, ev).contains(#[trigger] ev[k].0),
        intern_all(intern_all(seq![], iv), inst_names(nv)).is_prefix_of(new_names(iv, nv, ev)),
{
    let n0 = intern_all(Seq::<Seq<char>>::empty(), iv);
    let n1 = intern_all(n0, inst_names(nv));
    let n = intern_all(n1, entry_names(ev));
    assert(distinct_names(Seq::<Seq<char>>::empty()));
    lemma_intern_all(Seq::<Seq<char>>::empty(), iv);
    lemma_intern_all(n0, inst_names(nv));
    assert(entry_names(ev).len() == ev.len());
    lemma_intern_all(n1, entry_names(ev));
    crate::program::lemma_prefix_trans(n0, n1, n);
    assert forall|k: int| 0 <= k < iv.len() implies n.contains(#[trigger] iv[k]) by {
        assert(n0.contains(iv[k]));
        let q = choose|q: int| 0 <= q < n0.len() && n0[q] == iv[k];
        assert(n[q] == n0[q]);
    }
    assert forall|k: int| 0 <= k < nv.len() implies names_in(#[trigger] nv[k], n) by {
        lemma_inst_names_contains(nv, k);
        assert forall|j: int| 0 <= j < nv[k].idents().len() implies n.contains(
            #[trigger] nv[k].idents()[j],
        ) by {
            let q = choose|q: int|
                0 <= q < inst_names(nv).len() && inst_names(nv)[q] == nv[k].idents()[j];
            assert(n1.contains(inst_names(nv)[q]));
            let r = choose|r: int| 0 <= r < n1.len() && n1[r] == nv[k].idents()[j];
            assert(n[r] == n1[r]);
        }
        assert forall|j: int| 0 <= j < nv[k].ptxs().len() implies n.contains(
            #[trigger] nv[k].ptxs()[j],
        ) by {
            let q = choose|q: int|
                0 <= q < inst_names(nv).len() && inst_names(nv)[q] == nv[k].ptxs()[j];
            assert(n1.contains(inst_names(nv)[q]));
            let r = choose|r: int| 0 <= r < n1.len() && n1[r] == nv[k].ptxs()[j];
            assert(n[r] == n1[r]);
        }
    }
    assert forall|k: int| 0 <= k < ev.len() implies n.contains(#[trigger] ev[k].0) by {
        assert(entry_names(ev)[k] == ev[k].0);
    }
}

/// Law: the program that `Program::new` builds from inputs, instructions and
/// entries is well formed; `Program::inputs` gives back the inputs and
/// `Program::instructions` the instructions, in order and with repetitions;
/// and the data of each name, as `Program::get_plaintext_data` gives it, is
/// that of the last entry with that name, or none when no entry has it.
pub proof fn law_new_parts<V>(
    iv: Seq<Seq<char>>,
    nv: Seq<InstructionView<Seq<char>, Seq<char>>>,
    ev: Seq<(Seq<char>, V)>,
)
    requires
        iv.len() + inst_names(nv).len() + ev.len() < usize::MAX,
    ensures
        new_view(iv, nv, ev).wf(),
        named_inputs(new_view(iv, nv, ev)) == iv,
        named_instructions(new_view(iv, nv, ev)) == nv,
        forall|n: Seq<char>| #[trigger] data_of(new_view(iv, nv, ev), n) == entry_value(ev, n),
{
    let p = new_view(iv, nv, ev);
    let n = p.names;
    lemma_new_names(iv, nv, ev);
    // Inputs.
    assert forall|k: int| 0 <= k < p.inputs.len() implies #[trigger] p.inputs[k] < n.len()
        && n[p.inputs[k] as int] == iv[k] by {
        let i = n.index_of(iv[k]);
        assert(0 <= i < n.len() && n[i] == iv[k]);
    }
    assert(named_inputs(p) =~= iv);
    // Instructions.
    assert forall|k: int| 0 <= k < nv.len() implies crate::instruction::idents_below(
        #[trigger] p.instructions[k],
        n.len(),
    ) && named(n, p.instructions[k]) == nv[k] by {
        let i = nv[k];
        assert(names_in(i, n));
        lemma_inst_map_idents(i, index_in(n), index_in(n));
        assert forall|m: int| 0 <= m < i.idents().len() implies #[trigger] namer(n)(
            index_in(n)(i.idents()[m]),
        ) == i.idents()[m] && index_in(n)(i.idents()[m]) < n.len() by {
            let x = n.index_of(i.idents()[m]);
            assert(0 <= x < n.len() && n[x] == i.idents()[m]);
        }
        assert forall|m: int| 0 <= m < i.ptxs().len() implies #[trigger] namer(n)(
            index_in(n)(i.ptxs()[m]),
        ) == i.ptxs()[m] && index_in(n)(i.ptxs()[m]) < n.len() by {
            let x = n.index_of(i.ptxs()[m]);
            assert(0 <= x < n.len() && n[x] == i.ptxs()[m]);
        }
        lemma_inst_map_inverse(i, index_in(n), index_in(n), namer(n), namer(n));
        let pi = p.instructions[k];
        assert forall|m: int| 0 <= m < pi.idents().len() implies #[trigger] pi.idents()[m]
            < n.len() by {
            assert(pi.idents()[m] == index_in(n)(i.idents()[m]));
        }
        assert forall|m: int| 0 <= m < pi.ptxs().len() implies #[trigger] pi.ptxs()[m]
            < n.len() by {
            assert(pi.ptxs()[m] == index_in(n)(i.ptxs()[m]));
        }
    }
    assert(named_instructions(p) =~= nv);
    // Data.
    assert forall|x: usize| #[trigger] p.data.dom().contains(x) implies x < n.len() by {
        lemma_entry_map_dom(ev, n, x);
        let j = choose|j: int| 0 <= j < ev.len() && index_in(n)(#[trigger] ev[j].0) == x;
        let y = n.index_of(ev[j].0);
        assert(0 <= y < n.len() && n[y] == ev[j].0);
    }
    lemma_entry_map_len(ev, n);
    assert forall|m: Seq<char>| #[trigger] data_of(p, m) == entry_value(ev, m) by {
        if n.contains(m) {
            lemma_entry_value(ev, n, m);
        } else {
            lemma_entry_value_in(ev, m);
            if entry_value(ev, m) is Some {
                let j = choose|j: int| 0 <= j < ev.len() && #[trigger] ev[j] == (m, entry_value(ev, m)->0);
                assert(n.contains(ev[j].0));
            }
        }
    }
}

/// Looking up names that are all in the table leaves the table as it is.
proof fn lemma_intern_all_present(names: Seq<Seq<char>>, ns: Seq<Seq<char>>)
    requires
        forall|k: int| 0 <= k < ns.len() ==> names.contains(#[trigger] ns[k]),
    ensures
        intern_all(names, ns) == names,
    decreases ns.len(),
{
    if ns.len() > 0 {
        let dl = ns.drop_last();
        assert forall|k: int| 0 <= k < dl.len() implies names.contains(#[trigger] dl[k]) by {
            assert(dl[k] == ns[k]);
        }
        lemma_intern_all_present(names, dl);
        assert(names.contains(ns[ns.len() - 1]));
    }
}

/// Law: a program built with `Program::new` from well-formed names, whose
/// constants are each named among its inputs or in its instructions, is
/// written by `Program::to_string` as a text that `Program::parse` reads back
/// as the same program, whatever the order of its entries.
pub proof fn law_new_to_string_parse_any_order<P: PlaintextSyntax>(
    iv: Seq<Seq<char>>,
    nv: Seq<InstructionView<Seq<char>, Seq<char>>>,
    ev: Seq<(Seq<char>, P::V)>,
)
    requires
        all_identifiers(iv),
        all_well_named(nv),
        entries_ok::<P>(ev),
        forall|j: int|
            0 <= j < ev.len() ==> iv.contains(#[trigger] ev[j].0) || inst_names(nv).contains(
                ev[j].0,
            ),
        iv.len() + inst_names(nv).len() + ev.len() < usize::MAX,
    ensures
        spec_parse_program::<P>(program_text::<P>(new_view(iv, nv, ev))) == Ok::<
            ProgramView<P::V>,
            usize,
        >(new_view(iv, nv, ev)),
{
    let p = new_view(iv, nv, ev);
    let n0 = intern_all(Seq::<Seq<char>>::empty(), iv);
    let n1 = intern_all(n0, inst_names(nv));
    law_new_parts(iv, nv, ev);
    lemma_new_names(iv, nv, ev);
    assert(distinct_names(Seq::<Seq<char>>::empty()));
    lemma_intern_all(Seq::<Seq<char>>::empty(), iv);
    lemma_intern_all(n0, inst_names(nv));
    // The entries add no name: the names are those of the inputs and instructions.
    assert forall|j: int| 0 <= j < ev.len() implies n1.contains(#[trigger] entry_names(ev)[j]) by {
        let e = ev[j].0;
        assert(entry_names(ev)[j] == e);
        if iv.contains(e) {
            let q = choose|q: int| 0 <= q < iv.len() && iv[q] == e;
            assert(n0.contains(iv[q]));
            let r = choose|r: int| 0 <= r < n0.len() && n0[r] == e;
            assert(n1[r] == n0[r]);
        } else {
            let q = choose|q: int| 0 <= q < inst_names(nv).len() && inst_names(nv)[q] == e;
            assert(n1.contains(inst_names(nv)[q]));
        }
    }
    lemma_intern_all_present(n1, entry_names(ev));
    assert(p.names == n1);
    let se = sorted_entries(p);
    let ko = key_order(p.names, p.data.dom());
    crate::program::lemma_key_order_exists(p.names, p.data.dom());
    assert forall|k: int| 0 <= k < entry_names(se).len() implies n1.contains(
        #[trigger] entry_names(se)[k],
    ) by {
        assert(ko.contains(ko[k]));
        assert(entry_names(se)[k] == p.names[ko[k] as int]);
    }
    lemma_intern_all_present(n1, entry_names(se));
    lemma_renumbered_canonical(p);
    // Each constant has an identifier as name and data whose text reads back.
    assert forall|x: usize| #[trigger] p.data.dom().contains(x) implies is_identifier(
        p.names[x as int],
    ) && data_text_ok::<P>(p.data[x]) by {
        let m = p.names[x as int];
        lemma_index_of_entry(p.names, x as int);
        assert(data_of(p, m) == entry_value(ev, m));
        lemma_entry_value_in(ev, m);
        let j = choose|j: int| 0 <= j < ev.len() && #[trigger] ev[j] == (m, p.data[x]);
        assert(is_identifier(ev[j].0) && data_text_ok::<P>(ev[j].1));
    }
    assert(well_named_program::<P>(p));
    lemma_entry_map_len(ev, p.names);
    law_to_string_parse_renumbers::<P>(p);
}

// ---------------------------------------------------------------------------
// The check, the data and the text of a program, against its parts
// ---------------------------------------------------------------------------

/// Law: `Program::check` gives the outcome of checking the model of the
/// program, whether the model is taken with the data as they are or by their
/// views; so `Program::new_check` is `Program::new` followed by
/// `Program::check`, and `Program::parse_check` is `Program::parse` followed
/// by `Program::check`.
pub proof fn law_check_parts<Ptx: View>(p: Program<Ptx>)
    ensures
        spec_check(p.spec_names(), p.spec_inputs(), p.spec_instructions(), p.spec_data().dom())
            == check_view(p.parts()),
        check_view(p@) == check_view(p.parts()),
{
    assert(p@.data.dom() =~= p.parts().data.dom());
}

/// The identity on names.
pub open spec fn same_name() -> spec_fn(Seq<char>) -> Seq<char> {
    |n: Seq<char>| n
}

/// The function from the name of a constant to the view of its data.
pub open spec fn data_by_name<P: View>(names: Seq<Seq<char>>, data: Map<usize, P>) -> spec_fn(
    Seq<char>,
) -> P::V {
    |n: Seq<char>| data[names.index_of(n) as usize]@
}

/// Renaming twice is renaming once by the composed functions.
pub proof fn lemma_inst_map_compose<A, B, C, D, E, F>(
    i: InstructionView<A, B>,
    f: spec_fn(A) -> C,
    g: spec_fn(B) -> D,
    f2: spec_fn(C) -> E,
    g2: spec_fn(D) -> F,
)
    ensures
        inst_map(inst_map(i, f, g), f2, g2) == inst_map(
            i,
            |a: A| f2(f(a)),
            |b: B| g2(g(b)),
        ),
{
    match i {
        InstructionView::Galois { out, .. } => {
            assert(out.map_values(f).map_values(f2) =~= out.map_values(|a: A| f2(f(a))));
        },
        InstructionView::InnerProduct { values, coefficients, .. } => {
            assert(values.map_values(f).map_values(f2) =~= values.map_values(|a: A| f2(f(a))));
            assert(coefficients.map_values(g).map_values(g2) =~= coefficients.map_values(
                |b: B| g2(g(b)),
            ));
        },
        _ => {},
    }
}

/// Law: each instruction that `Program::instructions_with_data` gives is
/// the one that `Program::instructions` gives, with the name of each constant
/// replaced by its data.
pub proof fn law_instructions_with_data<P: View>(p: ProgramView<P>, k: int)
    requires
        p.wf(),
        0 <= k < p.instructions.len(),
    ensures
        inst_map(p.instructions[k], namer(p.names), data_views(p.data)) == inst_map(
            named(p.names, p.instructions[k]),
            same_name(),
            data_by_name(p.names, p.data),
        ),
{
    let i = p.instructions[k];
    let n = p.names;
    lemma_inst_map_compose(i, namer(n), namer(n), same_name(), data_by_name(n, p.data));
    assert(crate::instruction::idents_below(i, n.len()));
    assert forall|m: int| 0 <= m < i.ptxs().len() implies data_views(p.data)(#[trigger] i.ptxs()[m])
        == data_by_name(n, p.data)(namer(n)(i.ptxs()[m])) by {
        lemma_index_of_entry(n, i.ptxs()[m] as int);
    }
    crate::instruction::lemma_inst_map_agree(
        i,
        namer(n),
        data_views(p.data),
        |a: usize| same_name()(namer(n)(a)),
        |b: usize| data_by_name(n, p.data)(namer(n)(b)),
    );
}

/// A constant's name and the view of its data.
pub open spec fn named_data<P: View>(names: Seq<Seq<char>>, data: Map<usize, P>) -> spec_fn(
    usize,
) -> (Seq<char>, P::V) {
    |x: usize| (names[x as int], data[x]@)
}

/// Law: the text that `Program::to_string` writes is the header with the
/// names that `Program::inputs` gives, a line for each instruction that
/// `Program::instructions` gives, the closing brace, and a line for each
/// entry that `Program::plaintext_table_entries` gives, in its order.
pub proof fn law_text_of_accessors<P: PlaintextSyntax>(p: Program<P>)
    requires
        p.parts().wf(),
    ensures
        program_text::<P>(p@) == "func("@ + join(
            p.spec_inputs().map_values(namer(p.spec_names())),
            ", "@,
        ) + ") {\n"@ + (concat_each(
            inst_lines(
                p.spec_instructions().map_values(
                    |i: InstructionView<usize, usize>| named(p.spec_names(), i),
                ),
            ),
            "\n"@,
        ) + "}\n"@ + concat_each(
            entry_lines::<P>(
                key_order(p.spec_names(), p.spec_data().dom()).map_values(
                    named_data(p.spec_names(), p.spec_data()),
                ),
            ),
            "\n"@,
        )),
{
    let v = p@;
    lemma_program_text_parts::<P>(v);
    assert(v.data.dom() =~= p.spec_data().dom());
    let ko = key_order(p.spec_names(), p.spec_data().dom());
    crate::program::lemma_key_order_exists(p.spec_names(), p.spec_data().dom());
    assert forall|k: int| 0 <= k < ko.len() implies p.spec_data().dom().contains(#[trigger] ko[k]) by {
        assert(ko.contains(ko[k]));
    }
    assert(sorted_entries(v) =~= key_order(p.spec_names(), p.spec_data().dom()).map_values(
        named_data(p.spec_names(), p.spec_data()),
    ));
    assert(named_instructions(v) =~= p.spec_instructions().map_values(
        |i: InstructionView<usize, usize>| named(p.spec_names(), i),
    ));
}

/// Law: `Program::map_plaintexts` with a closure that gives back its
/// argument gives back the program: what it keeps of the program, and the
/// data that the closure returns, make up the same parts.
pub proof fn law_map_plaintexts_identity<Ptx, F: Fn(Ptx) -> Ptx>(
    f: F,
    p: Program<Ptx>,
    r: Program<Ptx>,
)
    requires
        r.spec_names() == p.spec_names(),
        r.spec_inputs() == p.spec_inputs(),
        r.spec_instructions() == p.spec_instructions(),
        r.spec_data().dom() == p.spec_data().dom(),
        forall|x: usize| #[trigger]
            p.spec_data().dom().contains(x) ==> call_ensures(
                f,
                (p.spec_data()[x],),
                r.spec_data()[x],
            ),
        forall|a: Ptx, b: Ptx| call_ensures(f, (a,), b) ==> b == a,
    ensures
        r.parts() == p.parts(),
{
    assert(r.spec_data() =~= p.spec_data());
}

/// Law: the constants of a well-formed program, in the order in which
/// `Program::plaintext_table_entries` gives them and `Program::to_string`
/// writes them, are each constant with data exactly once, and their names
/// strictly increase in the order of `str`.
pub proof fn law_constants_in_str_order<V>(p: ProgramView<V>)
    requires
        p.wf(),
    ensures
        forall|x: usize|
            #[trigger] key_order(p.names, p.data.dom()).contains(x) <==> p.data.dom().contains(x),
        key_order(p.names, p.data.dom()).no_duplicates(),
        forall|i: int, j: int|
            0 <= i < j < key_order(p.names, p.data.dom()).len() ==> str_before(
                p.names[key_order(p.names, p.data.dom())[i] as int],
                p.names[key_order(p.names, p.data.dom())[j] as int],
            ),
{
    let ko = key_order(p.names, p.data.dom());
    lemma_key_order_exists(p.names, p.data.dom());
    lemma_key_order_len(p.names, p.data.dom(), ko);
    assert forall|i: int, j: int| 0 <= i < j < ko.len() implies str_before(
        p.names[ko[i] as int],
        p.names[ko[j] as int],
    ) by {
        law_lex_is_str_order(p.names[ko[i] as int], p.names[ko[j] as int]);
    }
}

} // verus!
