//! Programs: inputs, a body of instructions and a table of constant data,
//! with the accessors, the semantic check and the textual form.

use std::collections::{HashMap, HashSet};
use vstd::prelude::*;

use crate::identifiers::{
    distinct_names, index_in, intern_all, lemma_index_of_prefix, lemma_intern, lemma_intern_all,
    IdentifierTable,
};
use crate::instruction::{
    concat_each, idents_below, inst_defines, inst_map, inst_text, inst_valid, inst_views, join,
    lemma_inst_map_identity, lemma_renamed_view, lemma_written_names, name_starts, push_joined,
    views_of, GenericInstruction, Instruction, InstructionView, InstructionWithData,
};
use crate::parse::{
    char_views, index_instruction, intern_names, names_of, read_body, read_data, read_header,
    spec_parse_program,
};
use crate::plaintext::{PlaintextData, PlaintextSyntax};
use crate::text::{
    chars_of, lemma_lex_asymmetric, lemma_lex_irreflexive, lemma_lex_total, lemma_lex_transitive,
    lex_less, lex_lt, push_str, string_of,
};

verus! {

broadcast use vstd::std_specs::hash::group_hash_axioms;

// ---------------------------------------------------------------------------
// The model of a program
// ---------------------------------------------------------------------------

/// The mathematical model of a program: the name of each index, the input
/// indices, the instructions over indices, and the data of each constant index.
pub struct ProgramView<P> {
    pub names: Seq<Seq<char>>,
    pub inputs: Seq<usize>,
    pub instructions: Seq<InstructionView<usize, usize>>,
    pub data: Map<usize, P>,
}

impl<P> ProgramView<P> {
    /// Names are distinct and every index used refers to a name.
    pub open spec fn wf(self) -> bool {
        &&& distinct_names(self.names)
        &&& forall|k: int| 0 <= k < self.inputs.len() ==> #[trigger] self.inputs[k] < self.names.len()
        &&& forall|k: int|
            0 <= k < self.instructions.len() ==> idents_below(
                #[trigger] self.instructions[k],
                self.names.len(),
            )
        &&& forall|x: usize| #[trigger] self.data.dom().contains(x) ==> x < self.names.len()
        &&& self.data.dom().finite()
    }
}

/// The function from an index to its name.
pub open spec fn namer(names: Seq<Seq<char>>) -> spec_fn(usize) -> Seq<char> {
    |x: usize| names[x as int]
}

/// The function from a constant index to the model of its data.
pub open spec fn data_views<P: View>(m: Map<usize, P>) -> spec_fn(usize) -> P::V {
    |x: usize| m[x]@
}

/// The model of each value of a map.
pub open spec fn map_views<P: View>(m: Map<usize, P>) -> Map<usize, P::V> {
    m.map_values(|p: P| p@)
}

/// The instruction with each index replaced by its name.
pub open spec fn named(names: Seq<Seq<char>>, i: InstructionView<usize, usize>) -> InstructionView<
    Seq<char>,
    Seq<char>,
> {
    inst_map(i, namer(names), namer(names))
}

// ---------------------------------------------------------------------------
// The order of constants by name
// ---------------------------------------------------------------------------

/// `ks` lists indices in strictly increasing order of their names.
pub open spec fn sorted_by_name(names: Seq<Seq<char>>, ks: Seq<usize>) -> bool {
    forall|i: int, j: int|
        0 <= i < j < ks.len() ==> lex_lt(names[ks[i] as int], names[ks[j] as int])
}

/// `ks` lists exactly the indices of `keys`, in increasing order of names.
pub open spec fn is_key_order(names: Seq<Seq<char>>, keys: Set<usize>, ks: Seq<usize>) -> bool {
    &&& sorted_by_name(names, ks)
    &&& forall|x: usize| #[trigger] ks.contains(x) <==> keys.contains(x)
}

/// The indices of `keys` in increasing order of names.
pub open spec fn key_order(names: Seq<Seq<char>>, keys: Set<usize>) -> Seq<usize> {
    choose|ks: Seq<usize>| is_key_order(names, keys, ks)
}

/// There is one order of keys by distinct names.
pub proof fn lemma_key_order_unique(
    names: Seq<Seq<char>>,
    keys: Set<usize>,
    a: Seq<usize>,
    b: Seq<usize>,
)
    requires
        distinct_names(names),
        forall|x: usize| keys.contains(x) ==> x < names.len(),
        is_key_order(names, keys, a),
        is_key_order(names, keys, b),
    ensures
        a == b,
    decreases a.len(),
{
    if a.len() == 0 {
        if b.len() > 0 {
            assert(b.contains(b[0]));
            assert(keys.contains(b[0]));
            assert(a.contains(b[0]));
        }
        assert(a =~= b);
    } else {
        assert(a.contains(a[0]));
        assert(keys.contains(a[0]));
        assert(b.contains(a[0]));
        assert(b.len() > 0);
        assert(b.contains(b[0]));
        assert(keys.contains(b[0]));
        assert(a.contains(b[0]));
        if a[0] != b[0] {
            let i = choose|i: int| 0 <= i < a.len() && a[i] == b[0];
            let j = choose|j: int| 0 <= j < b.len() && b[j] == a[0];
            assert(i != 0 && j != 0);
            assert(lex_lt(names[a[0] as int], names[a[i] as int]));
            assert(lex_lt(names[b[0] as int], names[b[j] as int]));
            lemma_lex_asymmetric(names[a[0] as int], names[b[0] as int]);
        }
        let x = a[0];
        let keys2 = keys.remove(x);
        let a2 = a.drop_first();
        let b2 = b.drop_first();
        assert forall|y: usize| #[trigger] a2.contains(y) <==> keys2.contains(y) by {
            if a2.contains(y) {
                let i = choose|i: int| 0 <= i < a2.len() && a2[i] == y;
                assert(a[i + 1] == y);
                assert(a.contains(y));
                assert(keys.contains(y));
                assert(lex_lt(names[a[0] as int], names[a[i + 1] as int]));
                if y == x {
                    lemma_lex_irreflexive(names[x as int]);
                }
            }
            if keys2.contains(y) {
                assert(keys.contains(y) && y != x);
                assert(a.contains(y));
                let i = choose|i: int| 0 <= i < a.len() && a[i] == y;
                assert(i != 0);
                assert(a2[i - 1] == y);
            }
        }
        assert forall|y: usize| #[trigger] b2.contains(y) <==> keys2.contains(y) by {
            if b2.contains(y) {
                let i = choose|i: int| 0 <= i < b2.len() && b2[i] == y;
                assert(b[i + 1] == y);
                assert(b.contains(y));
                assert(keys.contains(y));
                assert(lex_lt(names[b[0] as int], names[b[i + 1] as int]));
                if y == x {
                    lemma_lex_irreflexive(names[x as int]);
                }
            }
            if keys2.contains(y) {
                assert(keys.contains(y) && y != x);
                assert(b.contains(y));
                let i = choose|i: int| 0 <= i < b.len() && b[i] == y;
                assert(i != 0);
                assert(b2[i - 1] == y);
            }
        }
        assert(sorted_by_name(names, a2)) by {
            assert forall|i: int, j: int| 0 <= i < j < a2.len() implies lex_lt(
                names[a2[i] as int],
                names[a2[j] as int],
            ) by {
                assert(a2[i] == a[i + 1] && a2[j] == a[j + 1]);
            }
        }
        assert(sorted_by_name(names, b2)) by {
            assert forall|i: int, j: int| 0 <= i < j < b2.len() implies lex_lt(
                names[b2[i] as int],
                names[b2[j] as int],
            ) by {
                assert(b2[i] == b[i + 1] && b2[j] == b[j + 1]);
            }
        }
        lemma_key_order_unique(names, keys2, a2, b2);
        assert(a =~= seq![x] + a2);
        assert(b =~= seq![x] + b2);
    }
}

/// Among finitely many keys with distinct names, one has the least name.
proof fn lemma_least_name(names: Seq<Seq<char>>, keys: Set<usize>) -> (m: usize)
    requires
        distinct_names(names),
        keys.finite(),
        keys.len() > 0,
        forall|x: usize| keys.contains(x) ==> x < names.len(),
    ensures
        keys.contains(m),
        forall|y: usize|
            #[trigger] keys.contains(y) && y != m ==> lex_lt(names[m as int], names[y as int]),
    decreases keys.len(),
{
    let a = keys.choose();
    let rest = keys.remove(a);
    if rest.len() == 0 {
        assert forall|y: usize| #[trigger] keys.contains(y) && y != a implies lex_lt(
            names[a as int],
            names[y as int],
        ) by {
            assert(rest.contains(y));
        }
        a
    } else {
        let m = lemma_least_name(names, rest);
        lemma_lex_total(names[a as int], names[m as int]);
        if lex_lt(names[a as int], names[m as int]) {
            assert forall|y: usize| #[trigger] keys.contains(y) && y != a implies lex_lt(
                names[a as int],
                names[y as int],
            ) by {
                if y != m {
                    assert(rest.contains(y));
                    lemma_lex_transitive(names[a as int], names[m as int], names[y as int]);
                }
            }
            a
        } else {
            assert(names[a as int] != names[m as int]);
            m
        }
    }
}

/// Finitely many keys with distinct names can be listed in order of names.
pub proof fn lemma_key_order_exists(names: Seq<Seq<char>>, keys: Set<usize>)
    requires
        distinct_names(names),
        keys.finite(),
        forall|x: usize| keys.contains(x) ==> x < names.len(),
    ensures
        is_key_order(names, keys, key_order(names, keys)),
    decreases keys.len(),
{
    if keys.len() == 0 {
        let ks = Seq::<usize>::empty();
        assert(keys =~= Set::<usize>::empty());
        assert(is_key_order(names, keys, ks));
    } else {
        let m = lemma_least_name(names, keys);
        let rest = keys.remove(m);
        lemma_key_order_exists(names, rest);
        let tail = key_order(names, rest);
        let ks = seq![m] + tail;
        assert forall|i: int, j: int| 0 <= i < j < ks.len() implies lex_lt(
            names[ks[i] as int],
            names[ks[j] as int],
        ) by {
            if i == 0 {
                assert(ks[j] == tail[j - 1]);
                assert(tail.contains(tail[j - 1]));
                assert(rest.contains(ks[j]));
            } else {
                assert(ks[i] == tail[i - 1] && ks[j] == tail[j - 1]);
            }
        }
        assert forall|x: usize| #[trigger] ks.contains(x) <==> keys.contains(x) by {
            if ks.contains(x) {
                let i = choose|i: int| 0 <= i < ks.len() && ks[i] == x;
                if i > 0 {
                    assert(tail[i - 1] == x);
                    assert(tail.contains(x));
                }
            }
            if keys.contains(x) && x != m {
                assert(rest.contains(x));
                assert(tail.contains(x));
                let i = choose|i: int| 0 <= i < tail.len() && tail[i] == x;
                assert(ks[i + 1] == x);
            }
            if x == m {
                assert(ks[0] == m);
            }
        }
        assert(is_key_order(names, keys, ks));
    }
}

/// An order of keys lists each key once.
pub proof fn lemma_key_order_len(names: Seq<Seq<char>>, keys: Set<usize>, ks: Seq<usize>)
    requires
        is_key_order(names, keys, ks),
    ensures
        ks.no_duplicates(),
        ks.len() == keys.len(),
        keys.finite(),
{
    assert forall|i: int, j: int| 0 <= i < ks.len() && 0 <= j < ks.len() && i != j implies ks[i]
        != ks[j] by {
        if i < j {
            assert(lex_lt(names[ks[i] as int], names[ks[j] as int]));
        } else {
            assert(lex_lt(names[ks[j] as int], names[ks[i] as int]));
        }
        if ks[i] == ks[j] {
            lemma_lex_irreflexive(names[ks[i] as int]);
        }
    }
    assert(ks.to_set() =~= keys);
    ks.unique_seq_to_set();
}

// ---------------------------------------------------------------------------
// The check of a whole program
// ---------------------------------------------------------------------------

/// The inputs, when each is a variable and none occurs twice.
pub open spec fn check_inputs(names: Seq<Seq<char>>, inputs: Seq<usize>) -> Option<Set<usize>>
    decreases inputs.len(),
{
    if inputs.len() == 0 {
        Some(Set::empty())
    } else {
        match check_inputs(names, inputs.drop_last()) {
            None => None,
            Some(d) => {
                let x = inputs.last();
                if name_starts(names, x, '%') && !d.contains(x) {
                    Some(d.insert(x))
                } else {
                    None
                }
            },
        }
    }
}

/// The identifiers defined after the instructions, or the position of the
/// first instruction that is not well formed.
pub open spec fn check_insts(
    names: Seq<Seq<char>>,
    insts: Seq<InstructionView<usize, usize>>,
    defined: Set<usize>,
    has_data: Set<usize>,
) -> Result<Set<usize>, nat>
    decreases insts.len(),
{
    if insts.len() == 0 {
        Ok(defined)
    } else {
        match check_insts(names, insts.drop_last(), defined, has_data) {
            Err(i) => Err(i),
            Ok(d) => if inst_valid(insts.last(), names, d, has_data) {
                Ok(inst_defines(insts.last(), d))
            } else {
                Err((insts.len() - 1) as nat)
            },
        }
    }
}

/// The position of the first index whose name does not start with `@`.
pub open spec fn first_non_constant(names: Seq<Seq<char>>, ks: Seq<usize>) -> Option<nat>
    decreases ks.len(),
{
    if ks.len() == 0 {
        None
    } else {
        match first_non_constant(names, ks.drop_last()) {
            Some(j) => Some(j),
            None => if name_starts(names, ks.last(), '@') {
                None
            } else {
                Some((ks.len() - 1) as nat)
            },
        }
    }
}

/// The outcome of checking a program: `Err(0)` for a bad input, `Err(1 + i)`
/// for bad instruction `i`, and `Err(2 + n + j)`, with `n` instructions, for the
/// `j`-th constant in order of names when its name does not start with `@`:
/// the line of the error when the program is written in its textual form.
pub open spec fn spec_check(
    names: Seq<Seq<char>>,
    inputs: Seq<usize>,
    insts: Seq<InstructionView<usize, usize>>,
    has_data: Set<usize>,
) -> Result<(), usize> {
    match check_inputs(names, inputs) {
        None => Err(0),
        Some(d) => match check_insts(names, insts, d, has_data) {
            Err(i) => Err((i + 1) as usize),
            Ok(_) => match first_non_constant(names, key_order(names, has_data)) {
                Some(j) => Err((j + 2 + insts.len()) as usize),
                None => Ok(()),
            },
        },
    }
}

/// The outcome of checking the model of a program.
pub open spec fn check_view<P>(p: ProgramView<P>) -> Result<(), usize> {
    spec_check(p.names, p.inputs, p.instructions, p.data.dom())
}

proof fn lemma_check_inputs_prefix(names: Seq<Seq<char>>, inputs: Seq<usize>, k: int)
    requires
        0 <= k <= inputs.len(),
        check_inputs(names, inputs.take(k)) is None,
    ensures
        check_inputs(names, inputs) is None,
    decreases inputs.len(),
{
    if k < inputs.len() {
        assert(inputs.drop_last().take(k) =~= inputs.take(k));
        lemma_check_inputs_prefix(names, inputs.drop_last(), k);
    } else {
        assert(inputs.take(k) =~= inputs);
    }
}

pub(crate) proof fn lemma_check_insts_prefix(
    names: Seq<Seq<char>>,
    insts: Seq<InstructionView<usize, usize>>,
    defined: Set<usize>,
    has_data: Set<usize>,
    k: int,
)
    requires
        0 <= k <= insts.len(),
        check_insts(names, insts.take(k), defined, has_data) is Err,
    ensures
        check_insts(names, insts, defined, has_data) == check_insts(
            names,
            insts.take(k),
            defined,
            has_data,
        ),
    decreases insts.len(),
{
    if k < insts.len() {
        assert(insts.drop_last().take(k) =~= insts.take(k));
        lemma_check_insts_prefix(names, insts.drop_last(), defined, has_data, k);
    } else {
        assert(insts.take(k) =~= insts);
    }
}

pub(crate) proof fn lemma_first_non_constant_prefix(names: Seq<Seq<char>>, ks: Seq<usize>, k: int)
    requires
        0 <= k <= ks.len(),
        first_non_constant(names, ks.take(k)) is Some,
    ensures
        first_non_constant(names, ks) == first_non_constant(names, ks.take(k)),
    decreases ks.len(),
{
    if k < ks.len() {
        assert(ks.drop_last().take(k) =~= ks.take(k));
        lemma_first_non_constant_prefix(names, ks.drop_last(), k);
    } else {
        assert(ks.take(k) =~= ks);
    }
}

// ---------------------------------------------------------------------------
// The textual form of a program
// ---------------------------------------------------------------------------

/// The line of an instruction: indented by four spaces.
pub open spec fn inst_line(names: Seq<Seq<char>>, i: InstructionView<usize, usize>) -> Seq<char> {
    "    "@ + inst_text(named(names, i))
}

/// The line of a constant: its name, `: ` and the text of its data.
pub open spec fn data_line<P: PlaintextSyntax>(p: ProgramView<P::V>, x: usize) -> Seq<char> {
    p.names[x as int] + ": "@ + P::spec_to_text(p.data[x])
}

/// The textual form of a program: the header with the inputs, one line per
/// instruction, the closing brace, and one line per constant in order of
/// names; each line ends with a line feed.
pub open spec fn program_text<P: PlaintextSyntax>(p: ProgramView<P::V>) -> Seq<char> {
    "func("@ + join(p.inputs.map_values(namer(p.names)), ", "@) + ") {\n"@ + concat_each(
        p.instructions.map_values(|i: InstructionView<usize, usize>| inst_line(p.names, i)),
        "\n"@,
    ) + "}\n"@ + concat_each(
        key_order(p.names, p.data.dom()).map_values(|x: usize| data_line::<P>(p, x)),
        "\n"@,
    )
}

// ---------------------------------------------------------------------------
// Programs built from names
// ---------------------------------------------------------------------------

/// The names that the instructions mention, instruction after instruction:
/// in each, those that do not denote constants, then those that do.
pub open spec fn inst_names(insts: Seq<InstructionView<Seq<char>, Seq<char>>>) -> Seq<Seq<char>>
    decreases insts.len(),
{
    if insts.len() == 0 {
        seq![]
    } else {
        inst_names(insts.drop_last()) + insts.last().idents() + insts.last().ptxs()
    }
}

/// The names of the entries.
pub open spec fn entry_names<P>(entries: Seq<(Seq<char>, P)>) -> Seq<Seq<char>> {
    entries.map_values(|e: (Seq<char>, P)| e.0)
}

/// The data of the entries, each name replaced by its index in `names`; a
/// later entry for a name replaces an earlier one.
pub open spec fn entry_map<P>(entries: Seq<(Seq<char>, P)>, names: Seq<Seq<char>>) -> Map<usize, P>
    decreases entries.len(),
{
    if entries.len() == 0 {
        Map::empty()
    } else {
        entry_map(entries.drop_last(), names).insert(
            index_in(names)(entries.last().0),
            entries.last().1,
        )
    }
}

/// The instructions with each name replaced by its index in `names`.
pub open spec fn indexed_insts(
    insts: Seq<InstructionView<Seq<char>, Seq<char>>>,
    names: Seq<Seq<char>>,
) -> Seq<InstructionView<usize, usize>> {
    insts.map_values(
        |i: InstructionView<Seq<char>, Seq<char>>| inst_map(i, index_in(names), index_in(names)),
    )
}

/// The names of a program built from named inputs, instructions and entries:
/// looked up in that order.
pub open spec fn new_names<P>(
    inputs: Seq<Seq<char>>,
    insts: Seq<InstructionView<Seq<char>, Seq<char>>>,
    entries: Seq<(Seq<char>, P)>,
) -> Seq<Seq<char>> {
    intern_all(intern_all(intern_all(seq![], inputs), inst_names(insts)), entry_names(entries))
}

/// The program built from named inputs, instructions and entries, with each
/// name replaced by its index.
pub open spec fn new_view<P>(
    inputs: Seq<Seq<char>>,
    insts: Seq<InstructionView<Seq<char>, Seq<char>>>,
    entries: Seq<(Seq<char>, P)>,
) -> ProgramView<P> {
    let names = new_names(inputs, insts, entries);
    ProgramView {
        names,
        inputs: inputs.map_values(index_in(names)),
        instructions: indexed_insts(insts, names),
        data: entry_map(entries, names),
    }
}

/// The model of each instruction with names.
pub open spec fn named_insts<'a>(v: Seq<Instruction<'a>>) -> Seq<
    InstructionView<Seq<char>, Seq<char>>,
> {
    v.map_values(|i: Instruction<'a>| i@)
}

/// Each entry with its name as characters.
pub open spec fn entries_of<P>(v: Seq<(String, P)>) -> Seq<(Seq<char>, P)> {
    v.map_values(|e: (String, P)| (e.0@, e.1))
}

/// Looking up lists one after the other is looking up their concatenation.
pub proof fn lemma_intern_all_concat(names: Seq<Seq<char>>, a: Seq<Seq<char>>, b: Seq<Seq<char>>)
    ensures
        intern_all(names, a + b) == intern_all(intern_all(names, a), b),
    decreases b.len(),
{
    if b.len() == 0 {
        assert(a + b =~= a);
    } else {
        assert((a + b).drop_last() =~= a + b.drop_last());
        assert((a + b).last() == b.last());
        lemma_intern_all_concat(names, a, b.drop_last());
    }
}

/// The names of a prefix of the instructions are at most as many.
proof fn lemma_inst_names_prefix(insts: Seq<InstructionView<Seq<char>, Seq<char>>>, k: int)
    requires
        0 <= k <= insts.len(),
    ensures
        inst_names(insts.take(k)).len() <= inst_names(insts).len(),
    decreases insts.len() - k,
{
    if k < insts.len() {
        lemma_inst_names_prefix(insts, k + 1);
        assert(insts.take(k + 1).drop_last() =~= insts.take(k));
    } else {
        assert(insts.take(k) =~= insts);
    }
}

/// An entry map holds at most one key per entry.
pub(crate) proof fn lemma_entry_map_len<P>(entries: Seq<(Seq<char>, P)>, names: Seq<Seq<char>>)
    ensures
        entry_map(entries, names).dom().finite(),
        entry_map(entries, names).dom().len() <= entries.len(),
    decreases entries.len(),
{
    if entries.len() > 0 {
        lemma_entry_map_len(entries.drop_last(), names);
    }
}

/// The names of an instruction are in the table.
pub open spec fn names_in(i: InstructionView<Seq<char>, Seq<char>>, names: Seq<Seq<char>>) -> bool {
    &&& forall|j: int| 0 <= j < i.idents().len() ==> names.contains(#[trigger] i.idents()[j])
    &&& forall|j: int| 0 <= j < i.ptxs().len() ==> names.contains(#[trigger] i.ptxs()[j])
}

/// A table that extends one holding the names of an instruction holds them too.
proof fn lemma_names_in_extend(
    i: InstructionView<Seq<char>, Seq<char>>,
    a: Seq<Seq<char>>,
    b: Seq<Seq<char>>,
)
    requires
        names_in(i, a),
        a.is_prefix_of(b),
    ensures
        names_in(i, b),
{
    assert forall|j: int| 0 <= j < i.idents().len() implies b.contains(#[trigger] i.idents()[j]) by {
        assert(a.contains(i.idents()[j]));
        let x = choose|x: int| 0 <= x < a.len() && a[x] == i.idents()[j];
        assert(b[x] == a[x]);
    }
    assert forall|j: int| 0 <= j < i.ptxs().len() implies b.contains(#[trigger] i.ptxs()[j]) by {
        assert(a.contains(i.ptxs()[j]));
        let x = choose|x: int| 0 <= x < a.len() && a[x] == i.ptxs()[j];
        assert(b[x] == a[x]);
    }
}

/// A table extends itself after more look-ups.
pub proof fn lemma_prefix_trans(a: Seq<Seq<char>>, b: Seq<Seq<char>>, c: Seq<Seq<char>>)
    requires
        a.is_prefix_of(b),
        b.is_prefix_of(c),
    ensures
        a.is_prefix_of(c),
{
    assert forall|i: int| 0 <= i < a.len() implies c[i] == a[i] by {
        assert(b[i] == a[i]);
    }
}

// ---------------------------------------------------------------------------
// Programs
// ---------------------------------------------------------------------------

///
/// An FHE-IR program, consisting of a list of inputs/parameters, a program body
/// formed by instructions, and a table mapping constants to their underlying
/// data.
///
#[derive(PartialEq, Eq, Debug)]
pub struct Program<Ptx = PlaintextData> {
    identifier_table: IdentifierTable,
    plaintext_table: HashMap<usize, Ptx>,
    inputs: Vec<usize>,
    instructions: Vec<GenericInstruction>,
}

impl<Ptx> Program<Ptx> {
    /// The table is a bijection, every index used has a name, and the counts of
    /// instructions and constants together fit the error numbers of `check`.
    #[verifier::type_invariant]
    pub(crate) closed spec fn inv(self) -> bool {
        &&& self.identifier_table.wf()
        &&& forall|k: int|
            0 <= k < self.inputs@.len() ==> #[trigger] self.inputs@[k]
                < self.identifier_table.counter
        &&& forall|k: int|
            0 <= k < self.instructions@.len() ==> idents_below(
                #[trigger] self.instructions@[k]@,
                self.identifier_table.counter as nat,
            )
        &&& forall|x: usize| #[trigger]
            self.plaintext_table@.dom().contains(x) ==> x < self.identifier_table.counter
        &&& self.instructions@.len() + self.plaintext_table@.dom().len() < usize::MAX
    }

    /// The name of each index.
    pub closed spec fn spec_names(&self) -> Seq<Seq<char>> {
        self.identifier_table@
    }

    /// The indices of the inputs.
    pub closed spec fn spec_inputs(&self) -> Seq<usize> {
        self.inputs@
    }

    /// The instructions, over indices.
    pub closed spec fn spec_instructions(&self) -> Seq<InstructionView<usize, usize>> {
        inst_views(self.instructions@)
    }

    /// The data of each constant index.
    pub closed spec fn spec_data(&self) -> Map<usize, Ptx> {
        self.plaintext_table@
    }

    /// The model of the program with the data as they are.
    pub open spec fn parts(&self) -> ProgramView<Ptx> {
        ProgramView {
            names: self.spec_names(),
            inputs: self.spec_inputs(),
            instructions: self.spec_instructions(),
            data: self.spec_data(),
        }
    }

    /// The index of `name` when it has data.
    pub open spec fn data_index(&self, name: Seq<char>) -> Option<usize> {
        if self.spec_names().contains(name) && self.spec_data().dom().contains(
            self.spec_names().index_of(name) as usize,
        ) {
            Some(self.spec_names().index_of(name) as usize)
        } else {
            None
        }
    }
}

impl<Ptx: Clone> Clone for Program<Ptx> {
    /// A copy with the same names, inputs, instructions and data.
    fn clone(&self) -> (r: Self)
        ensures
            r.parts() == self.parts(),
            r.parts().wf(),
    {
        proof {
            use_type_invariant(self);
        }
        let identifier_table = self.identifier_table.duplicate();
        let plaintext_table = self.plaintext_table.clone();
        let inputs = self.inputs.clone();
        let mut instructions: Vec<GenericInstruction> = Vec::new();
        for k in 0..self.instructions.len()
            invariant
                instructions@.len() == k,
                forall|j: int| 0 <= j < k ==> #[trigger] instructions@[j]@ == self.instructions@[j]@,
        {
            instructions.push(self.instructions[k].copy());
        }
        assert(identifier_table@ =~= self.identifier_table@);
        assert(inputs@ =~= self.inputs@);
        assert(inst_views(instructions@) =~= inst_views(self.instructions@));
        let r = Program { identifier_table, plaintext_table, inputs, instructions };
        proof {
            use_type_invariant(&r);
            r.lemma_wf_parts();
        }
        r
    }
}

impl<Ptx: View> View for Program<Ptx> {
    type V = ProgramView<Ptx::V>;

    open spec fn view(&self) -> ProgramView<Ptx::V> {
        ProgramView {
            names: self.spec_names(),
            inputs: self.spec_inputs(),
            instructions: self.spec_instructions(),
            data: map_views(self.spec_data()),
        }
    }
}

impl<Ptx> Program<Ptx> {
    /// The model of the program satisfies the invariant of programs.
    pub(crate) proof fn lemma_wf_parts(&self)
        requires
            self.inv(),
        ensures
            self.parts().wf(),
            self.spec_instructions().len() + self.spec_data().dom().len() < usize::MAX,
    {
        assert forall|k: int| 0 <= k < self.spec_instructions().len() implies idents_below(
            #[trigger] self.spec_instructions()[k],
            self.spec_names().len(),
        ) by {
            assert(self.spec_instructions()[k] == self.instructions@[k]@);
        }
    }

    ///
    /// Creates a new [`Program`].
    ///
    /// The parameters are
    ///  - `inputs` is the list of identifiers that are used as inputs/parameters to the program
    ///  - `instructions` is the list of instructions that form the body of the program
    ///  - `plaintext_table` maps the identifiers used for constants in the program
    ///    body to the actual data; a later entry for a name replaces an earlier one
    ///
    /// Identifiers are numbered in the order in which they first occur: inputs,
    /// instructions, constants.
    /// This does not perform any checks for semantic correctness. Use [`Program::new_check()`]
    /// as a shorthand for creating and checking the program.
    ///
    pub fn new<'a>(
        inputs: &[&str],
        instructions: Vec<Instruction<'a>>,
        plaintext_table: Vec<(String, Ptx)>,
    ) -> (r: Self)
        requires
            inputs@.len() + inst_names(named_insts(instructions@)).len() + plaintext_table@.len()
                < usize::MAX,
            instructions@.len() + plaintext_table@.len() < usize::MAX,
        ensures
            r.parts() == new_view(
                views_of(inputs@),
                named_insts(instructions@),
                entries_of(plaintext_table@),
            ),
            r.parts().wf(),
    {
        let ghost iv = views_of(inputs@);
        let ghost nv = named_insts(instructions@);
        let ghost ev = entries_of(plaintext_table@);
        let ghost n1 = intern_all(seq![], iv);
        let ghost n2 = intern_all(n1, inst_names(nv));
        let ghost names = new_names(iv, nv, ev);
        proof {
            lemma_intern_all(seq![], iv);
            lemma_intern_all(n1, inst_names(nv));
            lemma_intern_all(n2, entry_names(ev));
            lemma_prefix_trans(n1, n2, names);
        }
        // Look up every name, in the order in which it occurs.
        let mut table = IdentifierTable::new();
        let mut input_names: Vec<Vec<char>> = Vec::new();
        for j in 0..inputs.len()
            invariant
                iv == views_of(inputs@),
                char_views(input_names@) == iv.take(j as int),
        {
            let ghost before = input_names@;
            input_names.push(chars_of(inputs[j]));
            assert(char_views(input_names@) =~= char_views(before).push(iv[j as int]));
            assert(iv.take(j + 1) =~= iv.take(j as int).push(iv[j as int]));
        }
        assert(iv.take(iv.len() as int) =~= iv);
        intern_names(&mut table, &input_names);
        let mut named: Vec<GenericInstruction<Vec<char>, Vec<char>>> = Vec::new();
        let to_chars = |x: &'a str| -> (v: Vec<char>)
            ensures
                v@ == x@,
            { chars_of(x) };
        for inst in it: instructions.into_iter()
            invariant
                it.seq() == instructions@,
                nv == named_insts(instructions@),
                table.wf(),
                table@ == intern_all(n1, inst_names(nv.take(it.index() as int))),
                table.counter <= iv.len() + inst_names(nv.take(it.index() as int)).len(),
                iv.len() + inst_names(nv).len() + plaintext_table@.len() < usize::MAX,
                named@.len() == it.index(),
                forall|k: int| 0 <= k < named@.len() ==> #[trigger] named@[k]@ == nv[k],
                forall|k: int| 0 <= k < named@.len() ==> names_in(#[trigger] nv[k], table@),
                forall|x: &'a str, v: Vec<char>| call_ensures(to_chars, (x,), v) ==> v@ == x@,
                forall|x: &'a str| call_requires(to_chars, (x,)),
        {
            let ghost k = it.index() as int;
            let ghost orig = inst;
            assert(nv[k] == inst@);
            let mid = inst.map_nonptx_identifiers(&to_chars);
            assert(mid.ptx_idents() == orig.ptx_idents()) by {
                match orig {
                    GenericInstruction::InnerProduct { .. } => {},
                    _ => {},
                }
            }
            let ni = mid.map_ptx(&to_chars);
            proof {
                let same = |x: Seq<char>| x;
                lemma_renamed_view(to_chars, to_chars, orig, mid, ni, same, same);
                lemma_inst_map_identity(orig@, same, same);
                lemma_inst_names_prefix(nv, k + 1);
                assert(nv.take(k + 1).drop_last() =~= nv.take(k));
                assert(inst_names(nv.take(k + 1)) =~= inst_names(nv.take(k)) + (ni@.idents()
                    + ni@.ptxs()));
                lemma_intern_all_concat(n1, inst_names(nv.take(k)), ni@.idents() + ni@.ptxs());
                lemma_intern_all(table@, ni@.idents() + ni@.ptxs());
            }
            let ns = names_of(&ni);
            let ghost before = table@;
            intern_names(&mut table, &ns);
            proof {
                let all = ni@.idents() + ni@.ptxs();
                assert forall|j: int| 0 <= j < ni@.idents().len() implies table@.contains(
                    #[trigger] ni@.idents()[j],
                ) by {
                    assert(all[j] == ni@.idents()[j]);
                }
                assert forall|j: int| 0 <= j < ni@.ptxs().len() implies table@.contains(
                    #[trigger] ni@.ptxs()[j],
                ) by {
                    assert(all[ni@.idents().len() + j] == ni@.ptxs()[j]);
                }
                assert forall|j: int| 0 <= j < k implies names_in(#[trigger] nv[j], table@) by {
                    lemma_names_in_extend(nv[j], before, table@);
                }
            }
            named.push(ni);
        }
        assert(nv.take(nv.len() as int) =~= nv);
        let ghost ek = entry_names(ev);
        for j in 0..plaintext_table.len()
            invariant
                ev == entries_of(plaintext_table@),
                ek == entry_names(ev),
                table.wf(),
                table@ == intern_all(n2, ek.take(j as int)),
                table.counter <= iv.len() + inst_names(nv).len() + j,
                iv.len() + inst_names(nv).len() + plaintext_table@.len() < usize::MAX,
                named@.len() == nv.len(),
                forall|k: int| 0 <= k < named@.len() ==> names_in(#[trigger] nv[k], table@),
        {
            let ghost before = table@;
            proof {
                lemma_intern(before, ek[j as int]);
            }
            table.ident_by_name(plaintext_table[j].0.as_str());
            assert(ek.take(j + 1).drop_last() =~= ek.take(j as int));
            proof {
                assert(before.is_prefix_of(table@));
                assert forall|k: int| 0 <= k < named@.len() implies names_in(
                    #[trigger] nv[k],
                    table@,
                ) by {
                    lemma_names_in_extend(nv[k], before, table@);
                }
            }
        }
        assert(ek.take(ek.len() as int) =~= ek);
        assert(table@ == names);
        // Replace each name by its index.
        let mut input_ids: Vec<usize> = Vec::new();
        for j in 0..input_names.len()
            invariant
                table.wf(),
                table@ == names,
                n1.is_prefix_of(names),
                char_views(input_names@) == iv,
                forall|i: int| 0 <= i < iv.len() ==> n1.contains(#[trigger] iv[i]),
                input_ids@ == iv.take(j as int).map_values(index_in(names)),
                forall|i: int| 0 <= i < input_ids@.len() ==> #[trigger] input_ids@[i]
                    < table.counter,
        {
            let nm = string_of(input_names[j].as_slice());
            assert(iv[j as int] == input_names@[j as int]@);
            proof {
                lemma_index_of_prefix(n1, names, iv[j as int]);
            }
            let x = table.get_by_name(nm.as_str());
            input_ids.push(x);
            assert(iv.take(j + 1) =~= iv.take(j as int).push(iv[j as int]));
            assert(input_ids@ =~= iv.take(j + 1).map_values(index_in(names)));
        }
        assert(iv.take(iv.len() as int) =~= iv);
        let mut insts: Vec<GenericInstruction> = Vec::new();
        for ni in it: named.into_iter()
            invariant
                it.seq() == named@,
                table.wf(),
                table@ == names,
                forall|k: int| 0 <= k < named@.len() ==> #[trigger] named@[k]@ == nv[k],
                forall|k: int| 0 <= k < nv.len() ==> names_in(#[trigger] nv[k], table@),
                named@.len() == nv.len(),
                insts@.len() == it.index(),
                forall|k: int|
                    0 <= k < insts@.len() ==> #[trigger] insts@[k]@ == inst_map(
                        nv[k],
                        index_in(names),
                        index_in(names),
                    ),
                forall|k: int|
                    0 <= k < insts@.len() ==> idents_below(#[trigger] insts@[k]@, table.counter as nat),
        {
            let ghost k = it.index() as int;
            assert(ni@ == nv[k]);
            assert(names_in(nv[k], table@));
            insts.push(index_instruction(ni, &table));
        }
        let mut data: HashMap<usize, Ptx> = HashMap::new();
        for entry in it: plaintext_table.into_iter()
            invariant
                it.seq() == plaintext_table@,
                ev == entries_of(plaintext_table@),
                ek == entry_names(ev),
                table.wf(),
                table@ == names,
                n2.is_prefix_of(names),
                forall|i: int| 0 <= i < ek.len() ==> names.contains(#[trigger] ek[i]),
                data@ == entry_map(ev.take(it.index() as int), names),
                forall|x: usize| #[trigger] data@.dom().contains(x) ==> x < table.counter,
        {
            let ghost k = it.index() as int;
            let (key, value) = entry;
            assert(ek[k] == key@);
            let x = table.get_by_name(key.as_str());
            data.insert(x, value);
            assert(ev.take(k + 1).drop_last() =~= ev.take(k));
            assert(ev[k] == (key@, value));
            assert(data@ =~= entry_map(ev.take(k + 1), names));
        }
        assert(ev.take(ev.len() as int) =~= ev);
        proof {
            lemma_entry_map_len(ev, names);
        }
        let r = Program { identifier_table: table, plaintext_table: data, inputs: input_ids, instructions: insts };
        assert(r.spec_instructions() =~= new_view(iv, nv, ev).instructions);
        proof {
            use_type_invariant(&r);
            r.lemma_wf_parts();
        }
        r
    }

    ///
    /// Shorthand for [`Program::new()`] followed by [`Program::check()`].
    ///
    pub fn new_check<'a>(
        inputs: &[&str],
        instructions: Vec<Instruction<'a>>,
        plaintext_table: Vec<(String, Ptx)>,
    ) -> (r: Result<Self, usize>)
        requires
            inputs@.len() + inst_names(named_insts(instructions@)).len() + plaintext_table@.len()
                < usize::MAX,
            instructions@.len() + plaintext_table@.len() < usize::MAX,
        ensures
            ({
                let p = new_view(
                    views_of(inputs@),
                    named_insts(instructions@),
                    entries_of(plaintext_table@),
                );
                match check_view(p) {
                    Ok(()) => r matches Ok(q) && q.parts() == p,
                    Err(e) => r matches Err(x) && x == e,
                }
            }),
            r matches Ok(q) ==> q.parts().wf(),
    {
        let result = Program::new(inputs, instructions, plaintext_table);
        match result.check() {
            Ok(()) => Ok(result),
            Err(e) => Err(e),
        }
    }

    ///
    /// Returns the list of identifiers that are used as inputs/parameters to the program
    ///
    pub fn inputs<'a>(&'a self) -> (r: Vec<&'a str>)
        ensures
            views_of(r@) == self.spec_inputs().map_values(namer(self.spec_names())),
            self.parts().wf(),
    {
        proof {
            use_type_invariant(self);
            self.lemma_wf_parts();
        }
        let mut r: Vec<&'a str> = Vec::new();
        for k in 0..self.inputs.len()
            invariant
                self.identifier_table.wf(),
                forall|j: int|
                    0 <= j < self.inputs@.len() ==> #[trigger] self.inputs@[j]
                        < self.identifier_table.counter,
                views_of(r@) =~= self.inputs@.take(k as int).map_values(
                    namer(self.identifier_table@),
                ),
        {
            let name = self.identifier_table.get(self.inputs[k]);
            let ghost before = r@;
            r.push(name);
            assert(views_of(r@) =~= views_of(before).push(name@));
            assert(self.inputs@.take(k + 1) =~= self.inputs@.take(k as int).push(
                self.inputs@[k as int],
            ));
            assert(self.inputs@.take(k + 1).map_values(namer(self.identifier_table@))
                =~= self.inputs@.take(k as int).map_values(namer(self.identifier_table@)).push(
                self.identifier_table@[self.inputs@[k as int] as int],
            ));
        }
        assert(self.inputs@.take(self.inputs@.len() as int) =~= self.inputs@);
        r
    }

    ///
    /// Returns the list of instructions that form the body of the program.
    ///
    /// This function does not resolve constants, but only returns their name.
    /// You can query the data behind the constant using [`Program::get_plaintext_data()`],
    /// or you can automatically resolve all constants using [`Program::instructions_with_data()`].
    ///
    pub fn instructions<'a>(&'a self) -> (r: Vec<Instruction<'a>>)
        ensures
            r@.len() == self.spec_instructions().len(),
            forall|k: int|
                0 <= k < r@.len() ==> #[trigger] r@[k]@ == named(
                    self.spec_names(),
                    self.spec_instructions()[k],
                ),
            self.parts().wf(),
    {
        proof {
            use_type_invariant(self);
            self.lemma_wf_parts();
        }
        let table = &self.identifier_table;
        let resolve = |idx: usize| -> (name: &'a str)
            requires
                table.wf(),
                idx < table.counter,
            ensures
                name@ == table@[idx as int],
            { table.get(idx) };
        let mut r: Vec<Instruction<'a>> = Vec::new();
        for k in 0..self.instructions.len()
            invariant
                table == &self.identifier_table,
                table.wf(),
                forall|j: int|
                    0 <= j < self.instructions@.len() ==> idents_below(
                        #[trigger] self.instructions@[j]@,
                        table.counter as nat,
                    ),
                forall|idx: usize, name: &'a str|
                    call_ensures(resolve, (idx,), name) ==> name@ == table@[idx as int],
                forall|idx: usize| idx < table.counter ==> call_requires(resolve, (idx,)),
                r@.len() == k,
                forall|j: int|
                    0 <= j < k ==> #[trigger] r@[j]@ == named(
                        table@,
                        self.instructions@[j]@,
                    ),
        {
            let inst = self.instructions[k].copy();
            let ghost orig = inst;
            proof {
                inst.lemma_view_idents();
                assert(idents_below(self.instructions@[k as int]@, table.counter as nat));
            }
            let mid = inst.map_nonptx_identifiers(&resolve);
            assert(mid.ptx_idents() == orig.ptx_idents()) by {
                match orig {
                    GenericInstruction::InnerProduct { .. } => {},
                    _ => {},
                }
            }
            let renamed = mid.map_ptx(&resolve);
            proof {
                lemma_renamed_view(
                    resolve,
                    resolve,
                    orig,
                    mid,
                    renamed,
                    namer(table@),
                    namer(table@),
                );
            }
            r.push(renamed);
        }
        proof {
            assert forall|k: int| 0 <= k < r@.len() implies #[trigger] r@[k]@ == named(
                self.spec_names(),
                self.spec_instructions()[k],
            ) by {
                assert(self.spec_instructions()[k] == self.instructions@[k]@);
            }
        }
        r
    }

    /// The indices of the constants in order of names.
    fn sorted_plaintext_keys(&self) -> (ks: Vec<usize>)
        ensures
            ks@ == key_order(self.spec_names(), self.spec_data().dom()),
            is_key_order(self.spec_names(), self.spec_data().dom(), ks@),
    {
        proof {
            use_type_invariant(self);
        }
        let ghost names = self.identifier_table@;
        let ghost keys = self.plaintext_table@.dom();
        let mut ks: Vec<usize> = Vec::new();
        let mut kn: Vec<Vec<char>> = Vec::new();
        let mut id: usize = 0;
        while id < self.identifier_table.counter
            invariant
                self.identifier_table.wf(),
                names == self.identifier_table@,
                keys == self.plaintext_table@.dom(),
                id <= self.identifier_table.counter,
                ks@.len() == kn@.len(),
                forall|i: int| 0 <= i < ks@.len() ==> #[trigger] kn@[i]@ == names[ks@[i] as int],
                sorted_by_name(names, ks@),
                forall|x: usize| #[trigger] ks@.contains(x) <==> (keys.contains(x) && x < id),
            decreases self.identifier_table.counter - id,
        {
            if self.plaintext_table.contains_key(&id) {
                let nm = chars_of(self.identifier_table.get(id));
                let mut p: usize = 0;
                while p < ks.len() && lex_less(kn[p].as_slice(), nm.as_slice())
                    invariant
                        p <= ks@.len(),
                        ks@.len() == kn@.len(),
                        forall|i: int|
                            0 <= i < ks@.len() ==> #[trigger] kn@[i]@ == names[ks@[i] as int],
                        forall|i: int| 0 <= i < p ==> lex_lt(names[ks@[i] as int], nm@),
                    decreases ks@.len() - p,
                {
                    p += 1;
                }
                proof {
                    assert forall|i: int| p <= i < ks@.len() implies lex_lt(
                        nm@,
                        names[ks@[i] as int],
                    ) by {
                        let q = ks@[p as int];
                        assert(ks@.contains(q));
                        assert(q < id);
                        assert(names[q as int] != names[id as int]);
                        lemma_lex_total(names[q as int], nm@);
                        if i > p {
                            lemma_lex_transitive(nm@, names[q as int], names[ks@[i] as int]);
                        }
                    }
                }
                let ghost old_ks = ks@;
                ks.insert(p, id);
                kn.insert(p, nm);
                proof {
                    assert forall|i: int, j: int| 0 <= i < j < ks@.len() implies lex_lt(
                        names[ks@[i] as int],
                        names[ks@[j] as int],
                    ) by {
                        if j < p {
                            assert(ks@[i] == old_ks[i] && ks@[j] == old_ks[j]);
                        } else if j == p {
                            assert(ks@[i] == old_ks[i]);
                        } else if i < p {
                            assert(ks@[i] == old_ks[i] && ks@[j] == old_ks[j - 1]);
                            lemma_lex_transitive(
                                names[old_ks[i] as int],
                                nm@,
                                names[old_ks[j - 1] as int],
                            );
                        } else if i == p {
                            assert(ks@[j] == old_ks[j - 1]);
                        } else {
                            assert(ks@[i] == old_ks[i - 1] && ks@[j] == old_ks[j - 1]);
                        }
                    }
                    assert forall|i: int| 0 <= i < ks@.len() implies #[trigger] kn@[i]@
                        == names[ks@[i] as int] by {
                        if i < p {
                        } else if i == p {
                        } else {
                            assert(ks@[i] == old_ks[i - 1]);
                        }
                    }
                    assert forall|x: usize| #[trigger] ks@.contains(x) <==> (keys.contains(x) && x
                        < id + 1) by {
                        if ks@.contains(x) {
                            let i = choose|i: int| 0 <= i < ks@.len() && ks@[i] == x;
                            if i < p {
                                assert(old_ks.contains(x));
                            } else if i > p {
                                assert(old_ks[i - 1] == x);
                                assert(old_ks.contains(x));
                            }
                        }
                        if keys.contains(x) && x < id + 1 {
                            if x == id {
                                assert(ks@[p as int] == x);
                            } else {
                                assert(old_ks.contains(x));
                                let i = choose|i: int| 0 <= i < old_ks.len() && old_ks[i] == x;
                                if i < p {
                                    assert(ks@[i] == x);
                                } else {
                                    assert(ks@[i + 1] == x);
                                }
                            }
                        }
                    }
                }
            } else {
                proof {
                    assert forall|x: usize| #[trigger] ks@.contains(x) <==> (keys.contains(x) && x
                        < id + 1) by {}
                }
            }
            id += 1;
        }
        proof {
            assert(is_key_order(names, keys, ks@));
            lemma_key_order_unique(names, keys, ks@, key_order(names, keys));
        }
        ks
    }

    ///
    /// Returns an iterator over all constants and the associated values.
    ///
    /// The result is sorted lexicographically (w.r.t. the names of the constants).
    ///
    pub fn plaintext_table_entries<'a>(&'a self) -> (r: Vec<(&'a str, &'a Ptx)>)
        ensures
            r@.len() == key_order(self.spec_names(), self.spec_data().dom()).len(),
            forall|k: int|
                0 <= k < r@.len() ==> {
                    let x = #[trigger] key_order(self.spec_names(), self.spec_data().dom())[k];
                    &&& r@[k].0@ == self.spec_names()[x as int]
                    &&& self.spec_data().dom().contains(x)
                    &&& *r@[k].1 == self.spec_data()[x]
                },
            self.parts().wf(),
    {
        proof {
            use_type_invariant(self);
            self.lemma_wf_parts();
        }
        let ks = self.sorted_plaintext_keys();
        let mut r: Vec<(&'a str, &'a Ptx)> = Vec::new();
        for k in 0..ks.len()
            invariant
                self.identifier_table.wf(),
                forall|x: usize| #[trigger]
                    self.plaintext_table@.dom().contains(x) ==> x
                        < self.identifier_table.counter,
                is_key_order(self.spec_names(), self.spec_data().dom(), ks@),
                r@.len() == k,
                forall|j: int|
                    0 <= j < k ==> {
                        let x = #[trigger] ks@[j];
                        &&& r@[j].0@ == self.spec_names()[x as int]
                        &&& self.spec_data().dom().contains(x)
                        &&& *r@[j].1 == self.spec_data()[x]
                    },
        {
            let key = ks[k];
            assert(ks@.contains(key));
            let name = self.identifier_table.get(key);
            let value = self.plaintext_table.get(&key).unwrap();
            r.push((name, value));
        }
        r
    }

    ///
    /// Returns the plaintext data associated with the given identifier, if any.
    ///
    pub fn get_plaintext_data<'a>(&'a self, identifier: &str) -> (r: Option<&'a Ptx>)
        ensures
            match self.data_index(identifier@) {
                Some(x) => r matches Some(v) && *v == self.spec_data()[x],
                None => r is None,
            },
            self.parts().wf(),
    {
        proof {
            use_type_invariant(self);
            self.lemma_wf_parts();
        }
        match self.identifier_table.get_by_name_opt(identifier) {
            Some(idx) => self.plaintext_table.get(&idx),
            None => None,
        }
    }

    ///
    /// Checks whether this program is valid.
    ///
    /// In particular, this function checks the following:
    ///  - whether every used identifier has previously been initialized
    ///  - whether constant identifier start with `@` and other identifiers start with `%`
    ///  - whether every constant identifier is associated with underlying data
    ///  - whether the length of variadic inputs and outputs is valid and matches
    ///  - inputs/parameters are distinct
    ///
    /// In case of an error, the line number in which the error occured (assuming the program
    /// is formatted in the default way) is returned as [`Result::Err`].
    ///
    pub fn check(&self) -> (r: Result<(), usize>)
        ensures
            r == spec_check(
                self.spec_names(),
                self.spec_inputs(),
                self.spec_instructions(),
                self.spec_data().dom(),
            ),
            self.parts().wf(),
    {
        proof {
            use_type_invariant(self);
            self.lemma_wf_parts();
        }
        self.check_impl()
    }

    /// The check, input by input and then instruction by instruction.
    fn check_impl(&self) -> (r: Result<(), usize>)
        ensures
            r == spec_check(
                self.spec_names(),
                self.spec_inputs(),
                self.spec_instructions(),
                self.spec_data().dom(),
            ),
    {
        proof {
            use_type_invariant(self);
            self.lemma_wf_parts();
        }
        let ghost names = self.spec_names();
        let ghost inputs = self.spec_inputs();
        let ghost insts = self.spec_instructions();
        let ghost keys = self.spec_data().dom();
        let mut initialized_identifiers: HashSet<usize> = HashSet::new();
        let mut num_offset: usize = 0;
        for k in 0..self.inputs.len()
            invariant
                self.identifier_table.wf(),
                names == self.identifier_table@,
                inputs == self.inputs@,
                forall|j: int|
                    0 <= j < inputs.len() ==> #[trigger] inputs[j] < self.identifier_table.counter,
                num_offset == 0,
                check_inputs(names, inputs.take(k as int)) == Some(initialized_identifiers@),
        {
            let input = self.inputs[k];
            assert(inputs.take(k + 1).drop_last() =~= inputs.take(k as int));
            if !self.identifier_table.name_starts_with(input, '%') {
                proof {
                    lemma_check_inputs_prefix(names, inputs, k + 1);
                }
                return Err(num_offset);
            } else if initialized_identifiers.contains(&input) {
                proof {
                    lemma_check_inputs_prefix(names, inputs, k + 1);
                }
                return Err(num_offset);
            } else {
                initialized_identifiers.insert(input);
            }
        }
        assert(inputs.take(inputs.len() as int) =~= inputs);
        let ghost defined0 = initialized_identifiers@;
        num_offset += 1;
        for k in 0..self.instructions.len()
            invariant
                self.identifier_table.wf(),
                names == self.identifier_table@,
                insts == self.spec_instructions(),
                keys == self.plaintext_table@.dom(),
                forall|j: int|
                    0 <= j < self.instructions@.len() ==> idents_below(
                        #[trigger] self.instructions@[j]@,
                        self.identifier_table.counter as nat,
                    ),
                self.instructions@.len() + keys.len() < usize::MAX,
                num_offset == 1,
                inputs == self.spec_inputs(),
                check_inputs(names, inputs) == Some(defined0),
                check_insts(names, insts.take(k as int), defined0, keys) == Ok::<
                    Set<usize>,
                    nat,
                >(initialized_identifiers@),
        {
            assert(insts.take(k + 1).drop_last() =~= insts.take(k as int));
            assert(insts.take(k + 1).last() == insts[k as int]);
            assert(insts[k as int] == self.instructions@[k as int]@);
            match self.instructions[k].check(
                &mut initialized_identifiers,
                &self.identifier_table,
                &self.plaintext_table,
            ) {
                Err(()) => {
                    proof {
                        assert(check_insts(names, insts.take(k + 1), defined0, keys) == Err::<
                            Set<usize>,
                            nat,
                        >(k as nat));
                        lemma_check_insts_prefix(names, insts, defined0, keys, k + 1);
                        assert(check_insts(names, insts, defined0, keys) == Err::<Set<usize>, nat>(
                            k as nat,
                        ));
                        assert(names == self.spec_names());
                        assert(inputs == self.spec_inputs());
                        assert(keys == self.spec_data().dom());
                    }
                    return Err(k + num_offset);
                },
                Ok(()) => {},
            }
        }
        assert(insts.take(insts.len() as int) =~= insts);
        let n = self.instructions.len();
        let ks = self.sorted_plaintext_keys();
        proof {
            lemma_key_order_len(names, keys, ks@);
        }
        for j in 0..ks.len()
            invariant
                self.identifier_table.wf(),
                names == self.identifier_table@,
                is_key_order(names, keys, ks@),
                forall|x: usize| #[trigger] keys.contains(x) ==> x < self.identifier_table.counter,
                ks@.len() == keys.len(),
                n == insts.len(),
                insts.len() + keys.len() < usize::MAX,
                inputs == self.spec_inputs(),
                insts == self.spec_instructions(),
                keys == self.spec_data().dom(),
                names == self.spec_names(),
                check_inputs(names, inputs) == Some(defined0),
                check_insts(names, insts, defined0, keys) is Ok,
                ks@ == key_order(names, keys),
                first_non_constant(names, ks@.take(j as int)) is None,
        {
            let key = ks[j];
            assert(ks@.contains(key));
            assert(ks@.take(j + 1).drop_last() =~= ks@.take(j as int));
            assert(ks@.take(j + 1).last() == key);
            if !self.identifier_table.name_starts_with(key, '@') {
                proof {
                    assert(first_non_constant(names, ks@.take(j + 1)) == Some(j as nat));
                    lemma_first_non_constant_prefix(names, ks@, j + 1);
                }
                return Err(j + n + 2);
            }
        }
        assert(ks@.take(ks@.len() as int) =~= ks@);
        Ok(())
    }

    ///
    /// Maps the data associated to each constant by using the given function.
    ///
    pub fn map_plaintexts<NewPtx, F>(self, f: F) -> (r: Program<NewPtx>) where
        F: Fn(Ptx) -> NewPtx,
        requires
            forall|x: usize| #[trigger]
                self.spec_data().dom().contains(x) ==> call_requires(f, (self.spec_data()[x],)),
        ensures
            r.spec_names() == self.spec_names(),
            r.spec_inputs() == self.spec_inputs(),
            r.spec_instructions() == self.spec_instructions(),
            r.spec_data().dom() == self.spec_data().dom(),
            forall|x: usize| #[trigger]
                self.spec_data().dom().contains(x) ==> call_ensures(
                    f,
                    (self.spec_data()[x],),
                    r.spec_data()[x],
                ),
            r.parts().wf(),
    {
        proof {
            use_type_invariant(&self);
        }
        let ghost data = self.spec_data();
        let ghost counter = self.identifier_table.counter;
        let Program { identifier_table, plaintext_table, inputs, instructions } = self;
        assert(plaintext_table@ == data);
        assert(identifier_table.counter == counter);
        let new_table = map_table(plaintext_table, identifier_table.counter, &f);
        assert(identifier_table.wf());
        assert(forall|k: int| 0 <= k < inputs@.len() ==> #[trigger] inputs@[k] < identifier_table.counter);
        assert(forall|k: int|
            0 <= k < instructions@.len() ==> idents_below(
                #[trigger] instructions@[k]@,
                identifier_table.counter as nat,
            ));
        assert(forall|x: usize| #[trigger]
            new_table@.dom().contains(x) ==> x < identifier_table.counter);
        assert(instructions@.len() + new_table@.dom().len() < usize::MAX);
        let r = Program { identifier_table, plaintext_table: new_table, inputs, instructions };
        proof {
            use_type_invariant(&r);
            r.lemma_wf_parts();
        }
        r
    }
}

/// Applies `f` to the value of each key below `bound`, in increasing order of keys.
fn map_table<P, Q, F>(table: HashMap<usize, P>, bound: usize, f: &F) -> (r: HashMap<usize, Q>) where
    F: Fn(P) -> Q,
    requires
        forall|x: usize| #[trigger] table@.dom().contains(x) ==> x < bound,
        forall|x: usize| #[trigger] table@.dom().contains(x) ==> call_requires(*f, (table@[x],)),
    ensures
        r@.dom() == table@.dom(),
        forall|x: usize| #[trigger]
            table@.dom().contains(x) ==> call_ensures(*f, (table@[x],), r@[x]),
{
    let ghost old_data = table@;
    let mut plaintext_table = table;
    let mut new_table: HashMap<usize, Q> = HashMap::new();
    let mut id: usize = 0;
    while id < bound
        invariant
            id <= bound,
            forall|x: usize| #[trigger] old_data.dom().contains(x) ==> x < bound,
            forall|x: usize| #[trigger] old_data.dom().contains(x) ==> call_requires(*f, (old_data[x],)),
            plaintext_table@ == old_data.restrict(Set::new(|x: usize| x >= id)),
            new_table@.dom() == old_data.dom().filter(|x: usize| x < id),
            forall|x: usize| #[trigger]
                new_table@.dom().contains(x) ==> call_ensures(*f, (old_data[x],), new_table@[x]),
        decreases bound - id,
    {
        match plaintext_table.remove(&id) {
            Some(v) => {
                let w = f(v);
                new_table.insert(id, w);
            },
            None => {},
        }
        assert(plaintext_table@ =~= old_data.restrict(Set::new(|x: usize| x >= id + 1)));
        assert(new_table@.dom() =~= old_data.dom().filter(|x: usize| x < id + 1));
        id += 1;
    }
    assert(new_table@.dom() =~= old_data.dom());
    new_table
}

impl<Ptx: View> Program<Ptx> {
    ///
    /// Returns the list of instructions that form the body of the program.
    ///
    /// # Panics
    ///
    /// This function does resolve constants, so in particular will panic on invalid programs
    /// that don't have data available for every constant. If this is not desired, use
    /// [`Program::instructions()`] instead.
    ///
    pub fn instructions_with_data<'a>(&'a self) -> (r: Vec<InstructionWithData<'a, Ptx>>)
        requires
            forall|k: int, j: int|
                0 <= k < self.spec_instructions().len() && 0 <= j
                    < self.spec_instructions()[k].ptxs().len() ==> self.spec_data().dom().contains(
                    #[trigger] self.spec_instructions()[k].ptxs()[j],
                ),
        ensures
            r@.len() == self.spec_instructions().len(),
            forall|k: int|
                0 <= k < r@.len() ==> #[trigger] r@[k]@ == inst_map(
                    self.spec_instructions()[k],
                    namer(self.spec_names()),
                    data_views(self.spec_data()),
                ),
            self.parts().wf(),
    {
        proof {
            use_type_invariant(self);
            self.lemma_wf_parts();
        }
        let table = &self.identifier_table;
        let data = &self.plaintext_table;
        let resolve = |idx: usize| -> (name: &'a str)
            requires
                table.wf(),
                idx < table.counter,
            ensures
                name@ == table@[idx as int],
            { table.get(idx) };
        let lookup = |key: usize| -> (value: &'a Ptx)
            requires
                data@.dom().contains(key),
            ensures
                *value == data@[key],
            { data.get(&key).unwrap() };
        let ghost dataview = data_views(self.spec_data());
        let mut r: Vec<InstructionWithData<'a, Ptx>> = Vec::new();
        for k in 0..self.instructions.len()
            invariant
                table == &self.identifier_table,
                data == &self.plaintext_table,
                table.wf(),
                forall|j: int|
                    0 <= j < self.instructions@.len() ==> idents_below(
                        #[trigger] self.instructions@[j]@,
                        table.counter as nat,
                    ),
                forall|kk: int, j: int|
                    0 <= kk < self.spec_instructions().len() && 0 <= j
                        < self.spec_instructions()[kk].ptxs().len() ==> data@.dom().contains(
                        #[trigger] self.spec_instructions()[kk].ptxs()[j],
                    ),
                forall|idx: usize, name: &'a str|
                    call_ensures(resolve, (idx,), name) ==> name@ == table@[idx as int],
                forall|idx: usize| idx < table.counter ==> call_requires(resolve, (idx,)),
                forall|key: usize, value: &'a Ptx|
                    call_ensures(lookup, (key,), value) ==> value@ == dataview(key),
                forall|key: usize| data@.dom().contains(key) ==> call_requires(lookup, (key,)),
                r@.len() == k,
                forall|j: int|
                    0 <= j < k ==> #[trigger] r@[j]@ == inst_map(
                        self.instructions@[j]@,
                        namer(table@),
                        dataview,
                    ),
        {
            let inst = self.instructions[k].copy();
            let ghost orig = inst;
            proof {
                inst.lemma_view_idents();
                assert(self.spec_instructions()[k as int] == self.instructions@[k as int]@);
                assert forall|j: int| 0 <= j < orig.ptx_idents().len() implies #[trigger] call_requires(
                    lookup,
                    (orig.ptx_idents()[j],),
                ) by {
                    assert(data@.dom().contains(self.spec_instructions()[k as int].ptxs()[j]));
                }
            }
            let mid = inst.map_nonptx_identifiers(&resolve);
            assert(mid.ptx_idents() == orig.ptx_idents()) by {
                match orig {
                    GenericInstruction::InnerProduct { .. } => {},
                    _ => {},
                }
            }
            let resolved = mid.map_ptx(&lookup);
            proof {
                lemma_renamed_view(resolve, lookup, orig, mid, resolved, namer(table@), dataview);
            }
            r.push(resolved);
        }
        proof {
            assert forall|k: int| 0 <= k < r@.len() implies #[trigger] r@[k]@ == inst_map(
                self.spec_instructions()[k],
                namer(self.spec_names()),
                data_views(self.spec_data()),
            ) by {
                assert(self.spec_instructions()[k] == self.instructions@[k]@);
            }
        }
        r
    }
}

impl<Ptx: PlaintextSyntax> Program<Ptx> {
    /// The textual form of the program; `Program::parse` reads it back.
    pub fn to_string(&self) -> (s: String)
        ensures
            s@ == program_text::<Ptx>(self@),
            self@.wf(),
            self@.instructions.len() + self@.data.dom().len() < usize::MAX,
            self.parts().wf(),
    {
        proof {
            use_type_invariant(self);
            self.lemma_wf_parts();
            self.lemma_wf_parts();
            assert(self@.data.dom() =~= self.spec_data().dom());
        }
        let ghost p = self@;
        let mut out: Vec<char> = Vec::new();
        push_str(&mut out, "func(");
        let params = self.inputs();
        push_joined(&mut out, &params, ", ");
        push_str(&mut out, ") {\n");
        let ghost header = out@;
        let insts = self.instructions();
        let ghost lines = p.instructions.map_values(
            |i: InstructionView<usize, usize>| inst_line(p.names, i),
        );
        for k in 0..insts.len()
            invariant
                p == self@,
                insts@.len() == p.instructions.len(),
                forall|j: int|
                    0 <= j < insts@.len() ==> #[trigger] insts@[j]@ == named(
                        p.names,
                        p.instructions[j],
                    ),
                lines == p.instructions.map_values(
                    |i: InstructionView<usize, usize>| inst_line(p.names, i),
                ),
                out@ == header + concat_each(lines.take(k as int), "\n"@),
        {
            push_str(&mut out, "    ");
            let t = insts[k].to_string();
            proof {
                lemma_written_names(insts@[k as int]@);
            }
            push_str(&mut out, t.as_str());
            push_str(&mut out, "\n");
            assert(lines.take(k + 1).drop_last() =~= lines.take(k as int));
        }
        assert(lines.take(lines.len() as int) =~= lines);
        push_str(&mut out, "}\n");
        let ghost body = out@;
        let entries = self.plaintext_table_entries();
        assert(p.data.dom() =~= self.spec_data().dom());
        assert(p.names == self.spec_names());
        let ghost ko = key_order(p.names, p.data.dom());
        let ghost dlines = ko.map_values(|x: usize| data_line::<Ptx>(p, x));
        for k in 0..entries.len()
            invariant
                p == self@,
                ko == key_order(p.names, p.data.dom()),
                entries@.len() == ko.len(),
                forall|j: int|
                    0 <= j < entries@.len() ==> {
                        let x = #[trigger] ko[j];
                        &&& entries@[j].0@ == p.names[x as int]
                        &&& self.spec_data().dom().contains(x)
                        &&& *entries@[j].1 == self.spec_data()[x]
                    },
                dlines == ko.map_values(|x: usize| data_line::<Ptx>(p, x)),
                out@ == body + concat_each(dlines.take(k as int), "\n"@),
        {
            push_str(&mut out, entries[k].0);
            push_str(&mut out, ": ");
            let mut t = entries[k].1.to_text();
            out.append(&mut t);
            push_str(&mut out, "\n");
            assert(dlines.take(k + 1).drop_last() =~= dlines.take(k as int));
        }
        assert(dlines.take(dlines.len() as int) =~= dlines);
        assert(out@ =~= program_text::<Ptx>(p));
        string_of(out.as_slice())
    }
}

impl<Ptx: PlaintextSyntax> Program<Ptx> {
    ///
    /// Parses a string into a [`Program`]. This is compatible with
    /// [`Program::to_string()`].
    ///
    /// This does not perform any checks beyond syntactic well-formedness.
    /// In case of a syntactic error, the line number of the error is returned as
    /// [`Result::Err`].
    ///
    pub fn parse(data: &str) -> (r: Result<Self, usize>)
        requires
            data@.len() < usize::MAX,
        ensures
            match spec_parse_program::<Ptx>(data@) {
                Ok(p) => r matches Ok(q) && q@ == p,
                Err(e) => r matches Err(x) && x == e,
            },
            r matches Ok(q) ==> q.parts().wf(),
    {
        let text = chars_of(data);
        let t = text.as_slice();
        let (params, pos, k) = match read_header(t) {
            Err(e) => return Err(e),
            Ok(h) => h,
        };
        let mut table = IdentifierTable::new();
        let ghost pv = char_views(params@);
        proof {
            lemma_intern_all(table@, pv);
        }
        intern_names(&mut table, &params);
        let ghost names0 = table@;
        let mut inputs: Vec<usize> = Vec::new();
        for j in 0..params.len()
            invariant
                table.wf(),
                table@ == names0,
                names0 == intern_all(seq![], pv),
                pv == char_views(params@),
                forall|i: int| 0 <= i < pv.len() ==> names0.contains(#[trigger] pv[i]),
                inputs@ == pv.take(j as int).map_values(index_in(names0)),
                forall|i: int| 0 <= i < inputs@.len() ==> #[trigger] inputs@[i] < table.counter,
        {
            let nm = string_of(params[j].as_slice());
            assert(pv[j as int] == params@[j as int]@);
            let x = table.get_by_name(nm.as_str());
            inputs.push(x);
            assert(pv.take(j + 1) =~= pv.take(j as int).push(pv[j as int]));
            assert(inputs@ =~= pv.take(j + 1).map_values(index_in(names0)));
        }
        assert(pv.take(pv.len() as int) =~= pv);
        let (instructions, pos2, k2) = match read_body(t, pos, k, &mut table) {
            Err(e) => return Err(e),
            Ok(b) => b,
        };
        let ghost names1 = table@;
        let plaintext_table = match read_data::<Ptx>(t, pos2, k2, &mut table) {
            Err(e) => return Err(e),
            Ok(m) => m,
        };
        proof {
            assert(names0.is_prefix_of(table@)) by {
                assert forall|i: int| 0 <= i < names0.len() implies table@[i] == names0[i] by {
                    assert(names1[i] == names0[i]);
                }
            }
            assert forall|i: int| 0 <= i < inputs@.len() implies #[trigger] inputs@[i]
                < table.counter by {}
            assert forall|j: int| 0 <= j < instructions@.len() implies idents_below(
                #[trigger] instructions@[j]@,
                table.counter as nat,
            ) by {
                assert(idents_below(instructions@[j]@, names1.len()));
            }
        }
        let q = Program { identifier_table: table, plaintext_table, inputs, instructions };
        assert(q@.data =~= map_views(q.plaintext_table@));
        proof {
            use_type_invariant(&q);
            q.lemma_wf_parts();
        }
        Ok(q)
    }

    ///
    /// Shorthand for [`Program::parse()`] followed by [`Program::check()`].
    ///
    pub fn parse_check(data: &str) -> (r: Result<Self, usize>)
        requires
            data@.len() < usize::MAX,
        ensures
            match spec_parse_program::<Ptx>(data@) {
                Ok(p) => match check_view(p) {
                    Ok(()) => r matches Ok(q) && q@ == p,
                    Err(e) => r matches Err(x) && x == e,
                },
                Err(e) => r matches Err(x) && x == e,
            },
            r matches Ok(q) ==> q.parts().wf(),
    {
        let result = Self::parse(data)?;
        assert(result@.data.dom() =~= result.spec_data().dom());
        match result.check() {
            Ok(()) => Ok(result),
            Err(e) => Err(e),
        }
    }
}

} // verus!
