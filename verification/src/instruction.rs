//! Instructions: their model, the renaming of their identifiers, the check of
//! one instruction against what is defined so far, and their textual form.

use std::collections::{HashMap, HashSet};
use vstd::prelude::*;

use crate::identifiers::IdentifierTable;
use crate::text::{chars_of, fmt_i64, fmt_nat, push_i64, push_nat, push_str, string_of};

verus! {

broadcast use vstd::std_specs::hash::group_hash_axioms;

/// An FHE-IR instruction.
#[derive(Clone, PartialEq, Eq, Hash, Debug)]
#[allow(inconsistent_fields)]
pub enum GenericInstruction<Ident = usize, Ptx = Ident> {
    /// Ciphertext-ciphertext addition.
    AddCtxCtx { out: Ident, lhs: Ident, rhs: Ident },
    /// Plaintext-ciphertext addition.
    AddPtxCtx { out: Ident, value: Ident, plaintext: Ptx },
    /// Ciphertext-ciphertext multiplication.
    MulCtxCtx { out: Ident, lhs: Ident, rhs: Ident },
    /// Plaintext-ciphertext multiplication.
    MulPtxCtx { out: Ident, value: Ident, plaintext: Ptx },
    /// Integer-ciphertext multiplication.
    MulIntCtx { out: Ident, value: Ident, integer: i64 },
    /// Create a copy of a ciphertext.
    Copy { out: Ident, val: Ident },
    /// Create a (transparent) zero ciphertext.
    Zero { out: Ident },
    /// Return a value as output of the program.
    Return { val: Ident },
    /// Homomorphic Galois automorphism.
    Galois { out: Vec<Ident>, val: Ident, exponents: Vec<i64> },
    /// Plaintext-ciphertext inner product.
    InnerProduct { out: Ident, values: Vec<Ident>, coefficients: Vec<Ptx> },
}

/// An FHE-IR instruction without resolved constants.
pub type Instruction<'a> = GenericInstruction<&'a str, &'a str>;

/// An FHE-IR instruction with resolved constants, i.e. they contain a reference
/// to the data associated to each constant.
pub type InstructionWithData<'a, Ptx> = GenericInstruction<&'a str, &'a Ptx>;

/// The mathematical model of an instruction.
#[allow(inconsistent_fields)]
pub enum InstructionView<I, P> {
    AddCtxCtx { out: I, lhs: I, rhs: I },
    AddPtxCtx { out: I, value: I, plaintext: P },
    MulCtxCtx { out: I, lhs: I, rhs: I },
    MulPtxCtx { out: I, value: I, plaintext: P },
    MulIntCtx { out: I, value: I, integer: i64 },
    Copy { out: I, val: I },
    Zero { out: I },
    Return { val: I },
    Galois { out: Seq<I>, val: I, exponents: Seq<i64> },
    InnerProduct { out: I, values: Seq<I>, coefficients: Seq<P> },
}

impl<I: View, P: View> View for GenericInstruction<I, P> {
    type V = InstructionView<I::V, P::V>;

    open spec fn view(&self) -> InstructionView<I::V, P::V> {
        match self {
            GenericInstruction::AddCtxCtx { out, lhs, rhs } => InstructionView::AddCtxCtx {
                out: out@,
                lhs: lhs@,
                rhs: rhs@,
            },
            GenericInstruction::AddPtxCtx { out, value, plaintext } => InstructionView::AddPtxCtx {
                out: out@,
                value: value@,
                plaintext: plaintext@,
            },
            GenericInstruction::MulCtxCtx { out, lhs, rhs } => InstructionView::MulCtxCtx {
                out: out@,
                lhs: lhs@,
                rhs: rhs@,
            },
            GenericInstruction::MulPtxCtx { out, value, plaintext } => InstructionView::MulPtxCtx {
                out: out@,
                value: value@,
                plaintext: plaintext@,
            },
            GenericInstruction::MulIntCtx { out, value, integer } => InstructionView::MulIntCtx {
                out: out@,
                value: value@,
                integer: *integer,
            },
            GenericInstruction::Copy { out, val } => InstructionView::Copy { out: out@, val: val@ },
            GenericInstruction::Zero { out } => InstructionView::Zero { out: out@ },
            GenericInstruction::Return { val } => InstructionView::Return { val: val@ },
            GenericInstruction::Galois { out, val, exponents } => InstructionView::Galois {
                out: out@.map_values(|x: I| x@),
                val: val@,
                exponents: exponents@,
            },
            GenericInstruction::InnerProduct { out, values, coefficients } =>
                InstructionView::InnerProduct {
                out: out@,
                values: values@.map_values(|x: I| x@),
                coefficients: coefficients@.map_values(|x: P| x@),
            },
        }
    }
}

// ---------------------------------------------------------------------------
// The identifiers an instruction mentions
// ---------------------------------------------------------------------------

impl<I, P> InstructionView<I, P> {
    /// The identifiers that do not denote constants, in the order of the fields.
    pub open spec fn idents(self) -> Seq<I> {
        match self {
            InstructionView::AddCtxCtx { out, lhs, rhs } => seq![out, lhs, rhs],
            InstructionView::AddPtxCtx { out, value, .. } => seq![out, value],
            InstructionView::MulCtxCtx { out, lhs, rhs } => seq![out, lhs, rhs],
            InstructionView::MulPtxCtx { out, value, .. } => seq![out, value],
            InstructionView::MulIntCtx { out, value, .. } => seq![out, value],
            InstructionView::Copy { out, val } => seq![out, val],
            InstructionView::Zero { out } => seq![out],
            InstructionView::Return { val } => seq![val],
            InstructionView::Galois { out, val, .. } => out.push(val),
            InstructionView::InnerProduct { out, values, .. } => seq![out] + values,
        }
    }

    /// The identifiers that denote constants.
    pub open spec fn ptxs(self) -> Seq<P> {
        match self {
            InstructionView::AddPtxCtx { plaintext, .. } => seq![plaintext],
            InstructionView::MulPtxCtx { plaintext, .. } => seq![plaintext],
            InstructionView::InnerProduct { coefficients, .. } => coefficients,
            _ => seq![],
        }
    }
}

impl<I, P> GenericInstruction<I, P> {
    /// The identifiers that do not denote constants, in the order of the fields.
    pub open spec fn nonptx_idents(&self) -> Seq<I> {
        match self {
            GenericInstruction::AddCtxCtx { out, lhs, rhs } => seq![*out, *lhs, *rhs],
            GenericInstruction::AddPtxCtx { out, value, .. } => seq![*out, *value],
            GenericInstruction::MulCtxCtx { out, lhs, rhs } => seq![*out, *lhs, *rhs],
            GenericInstruction::MulPtxCtx { out, value, .. } => seq![*out, *value],
            GenericInstruction::MulIntCtx { out, value, .. } => seq![*out, *value],
            GenericInstruction::Copy { out, val } => seq![*out, *val],
            GenericInstruction::Zero { out } => seq![*out],
            GenericInstruction::Return { val } => seq![*val],
            GenericInstruction::Galois { out, val, .. } => out@.push(*val),
            GenericInstruction::InnerProduct { out, values, .. } => seq![*out] + values@,
        }
    }

    /// The identifiers that denote constants.
    pub open spec fn ptx_idents(&self) -> Seq<P> {
        match self {
            GenericInstruction::AddPtxCtx { plaintext, .. } => seq![*plaintext],
            GenericInstruction::MulPtxCtx { plaintext, .. } => seq![*plaintext],
            GenericInstruction::InnerProduct { coefficients, .. } => coefficients@,
            _ => seq![],
        }
    }
}

// ---------------------------------------------------------------------------
// Renaming identifiers
// ---------------------------------------------------------------------------

/// `f` may give `b` for `a`.
pub open spec fn maps_to<A, B, F: Fn(A) -> B>(f: F, a: A, b: B) -> bool {
    call_ensures(f, (a,), b)
}

/// `f` may give `b[k]` for each `a[k]`.
pub open spec fn maps_each<A, B, F: Fn(A) -> B>(f: F, a: Seq<A>, b: Seq<B>) -> bool {
    &&& a.len() == b.len()
    &&& forall|k: int| 0 <= k < a.len() ==> #[trigger] call_ensures(f, (a[k],), b[k])
}

/// `f` accepts each of `a`.
pub open spec fn accepts_each<A, B, F: Fn(A) -> B>(f: F, a: Seq<A>) -> bool {
    forall|k: int| 0 <= k < a.len() ==> #[trigger] call_requires(f, (a[k],))
}

/// `y` is `x` with each identifier that does not denote a constant replaced by
/// what `f` gives for it; the rest is unchanged.
pub open spec fn renamed_nonptx<I, P, J, F: Fn(I) -> J>(
    f: F,
    x: GenericInstruction<I, P>,
    y: GenericInstruction<J, P>,
) -> bool {
    match (x, y) {
        (
            GenericInstruction::AddCtxCtx { out, lhs, rhs },
            GenericInstruction::AddCtxCtx { out: o, lhs: l, rhs: r },
        ) => maps_to(f, out, o) && maps_to(f, lhs, l) && maps_to(f, rhs, r),
        (
            GenericInstruction::AddPtxCtx { out, value, plaintext },
            GenericInstruction::AddPtxCtx { out: o, value: v, plaintext: p },
        ) => maps_to(f, out, o) && maps_to(f, value, v) && p == plaintext,
        (
            GenericInstruction::MulCtxCtx { out, lhs, rhs },
            GenericInstruction::MulCtxCtx { out: o, lhs: l, rhs: r },
        ) => maps_to(f, out, o) && maps_to(f, lhs, l) && maps_to(f, rhs, r),
        (
            GenericInstruction::MulPtxCtx { out, value, plaintext },
            GenericInstruction::MulPtxCtx { out: o, value: v, plaintext: p },
        ) => maps_to(f, out, o) && maps_to(f, value, v) && p == plaintext,
        (
            GenericInstruction::MulIntCtx { out, value, integer },
            GenericInstruction::MulIntCtx { out: o, value: v, integer: n },
        ) => maps_to(f, out, o) && maps_to(f, value, v) && n == integer,
        (GenericInstruction::Copy { out, val }, GenericInstruction::Copy { out: o, val: v }) =>
            maps_to(f, out, o) && maps_to(f, val, v),
        (GenericInstruction::Zero { out }, GenericInstruction::Zero { out: o }) => maps_to(
            f,
            out,
            o,
        ),
        (GenericInstruction::Return { val }, GenericInstruction::Return { val: v }) => maps_to(
            f,
            val,
            v,
        ),
        (
            GenericInstruction::Galois { out, val, exponents },
            GenericInstruction::Galois { out: o, val: v, exponents: e },
        ) => maps_each(f, out@, o@) && maps_to(f, val, v) && e@ == exponents@,
        (
            GenericInstruction::InnerProduct { out, values, coefficients },
            GenericInstruction::InnerProduct { out: o, values: vs, coefficients: cs },
        ) => maps_to(f, out, o) && maps_each(f, values@, vs@) && cs@ == coefficients@,
        _ => false,
    }
}

/// `y` is `x` with each identifier that denotes a constant replaced by what
/// `f` gives for it; the rest is unchanged.
pub open spec fn renamed_ptx<I, P, Q, F: Fn(P) -> Q>(
    f: F,
    x: GenericInstruction<I, P>,
    y: GenericInstruction<I, Q>,
) -> bool {
    match (x, y) {
        (
            GenericInstruction::AddCtxCtx { out, lhs, rhs },
            GenericInstruction::AddCtxCtx { out: o, lhs: l, rhs: r },
        ) => o == out && l == lhs && r == rhs,
        (
            GenericInstruction::AddPtxCtx { out, value, plaintext },
            GenericInstruction::AddPtxCtx { out: o, value: v, plaintext: p },
        ) => o == out && v == value && maps_to(f, plaintext, p),
        (
            GenericInstruction::MulCtxCtx { out, lhs, rhs },
            GenericInstruction::MulCtxCtx { out: o, lhs: l, rhs: r },
        ) => o == out && l == lhs && r == rhs,
        (
            GenericInstruction::MulPtxCtx { out, value, plaintext },
            GenericInstruction::MulPtxCtx { out: o, value: v, plaintext: p },
        ) => o == out && v == value && maps_to(f, plaintext, p),
        (
            GenericInstruction::MulIntCtx { out, value, integer },
            GenericInstruction::MulIntCtx { out: o, value: v, integer: n },
        ) => o == out && v == value && n == integer,
        (GenericInstruction::Copy { out, val }, GenericInstruction::Copy { out: o, val: v }) => o
            == out && v == val,
        (GenericInstruction::Zero { out }, GenericInstruction::Zero { out: o }) => o == out,
        (GenericInstruction::Return { val }, GenericInstruction::Return { val: v }) => v == val,
        (
            GenericInstruction::Galois { out, val, exponents },
            GenericInstruction::Galois { out: o, val: v, exponents: e },
        ) => o@ == out@ && v == val && e@ == exponents@,
        (
            GenericInstruction::InnerProduct { out, values, coefficients },
            GenericInstruction::InnerProduct { out: o, values: vs, coefficients: cs },
        ) => o == out && vs@ == values@ && maps_each(f, coefficients@, cs@),
        _ => false,
    }
}

/// Applies `f` to each element, front to back.
fn map_vec<A, B, F: Fn(A) -> B>(v: Vec<A>, f: &F) -> (r: Vec<B>)
    requires
        accepts_each(*f, v@),
    ensures
        maps_each(*f, v@, r@),
{
    let ghost orig = v@;
    let mut r: Vec<B> = Vec::new();
    for x in it: v.into_iter()
        invariant
            it.seq() == orig,
            accepts_each(*f, orig),
            r@.len() == it.index(),
            forall|k: int| 0 <= k < it.index() ==> #[trigger] call_ensures(*f, (orig[k],), r@[k]),
    {
        assert(call_requires(*f, (orig[it.index() as int],)));
        let y = f(x);
        r.push(y);
    }
    r
}

impl<Ident, Ptx> GenericInstruction<Ident, Ptx> {
    /// Replaces each identifier that does not denote a constant by what `f`
    /// gives for it.
    pub fn map_nonptx_identifiers<NewIdent, F>(self, f: &F) -> (r: GenericInstruction<
        NewIdent,
        Ptx,
    >) where F: Fn(Ident) -> NewIdent
        requires
            accepts_each(*f, self.nonptx_idents()),
        ensures
            renamed_nonptx(*f, self, r),
    {
        proof {
            let ids = self.nonptx_idents();
            assert(forall|k: int| 0 <= k < ids.len() ==> call_requires(*f, (#[trigger] ids[k],)));
        }
        match self {
            GenericInstruction::AddCtxCtx { out, lhs, rhs } => {
                assert(call_requires(*f, (out,)) && call_requires(*f, (lhs,)) && call_requires(
                    *f,
                    (rhs,),
                )) by {
                    assert(self.nonptx_idents()[0] == out);
                    assert(self.nonptx_idents()[1] == lhs);
                    assert(self.nonptx_idents()[2] == rhs);
                }
                GenericInstruction::AddCtxCtx { out: f(out), lhs: f(lhs), rhs: f(rhs) }
            },
            GenericInstruction::AddPtxCtx { out, value, plaintext } => {
                assert(call_requires(*f, (out,)) && call_requires(*f, (value,))) by {
                    assert(self.nonptx_idents()[0] == out);
                    assert(self.nonptx_idents()[1] == value);
                }
                GenericInstruction::AddPtxCtx { out: f(out), value: f(value), plaintext }
            },
            GenericInstruction::MulCtxCtx { out, lhs, rhs } => {
                assert(call_requires(*f, (out,)) && call_requires(*f, (lhs,)) && call_requires(
                    *f,
                    (rhs,),
                )) by {
                    assert(self.nonptx_idents()[0] == out);
                    assert(self.nonptx_idents()[1] == lhs);
                    assert(self.nonptx_idents()[2] == rhs);
                }
                GenericInstruction::MulCtxCtx { out: f(out), lhs: f(lhs), rhs: f(rhs) }
            },
            GenericInstruction::MulPtxCtx { out, value, plaintext } => {
                assert(call_requires(*f, (out,)) && call_requires(*f, (value,))) by {
                    assert(self.nonptx_idents()[0] == out);
                    assert(self.nonptx_idents()[1] == value);
                }
                GenericInstruction::MulPtxCtx { out: f(out), value: f(value), plaintext }
            },
            GenericInstruction::MulIntCtx { out, value, integer } => {
                assert(call_requires(*f, (out,)) && call_requires(*f, (value,))) by {
                    assert(self.nonptx_idents()[0] == out);
                    assert(self.nonptx_idents()[1] == value);
                }
                GenericInstruction::MulIntCtx { out: f(out), value: f(value), integer }
            },
            GenericInstruction::Zero { out } => {
                assert(call_requires(*f, (out,))) by {
                    assert(self.nonptx_idents()[0] == out);
                }
                GenericInstruction::Zero { out: f(out) }
            },
            GenericInstruction::Copy { out, val } => {
                assert(call_requires(*f, (out,)) && call_requires(*f, (val,))) by {
                    assert(self.nonptx_idents()[0] == out);
                    assert(self.nonptx_idents()[1] == val);
                }
                GenericInstruction::Copy { out: f(out), val: f(val) }
            },
            GenericInstruction::Galois { out, val, exponents } => {
                let ghost outs = out@;
                assert(call_requires(*f, (val,)) && accepts_each(*f, outs)) by {
                    assert(self.nonptx_idents()[outs.len() as int] == val);
                    assert forall|k: int| 0 <= k < outs.len() implies #[trigger] call_requires(
                        *f,
                        (outs[k],),
                    ) by {
                        assert(self.nonptx_idents()[k] == outs[k]);
                    }
                }
                let new_out = map_vec(out, f);
                GenericInstruction::Galois { out: new_out, val: f(val), exponents }
            },
            GenericInstruction::Return { val } => {
                assert(call_requires(*f, (val,))) by {
                    assert(self.nonptx_idents()[0] == val);
                }
                GenericInstruction::Return { val: f(val) }
            },
            GenericInstruction::InnerProduct { out, values, coefficients } => {
                let ghost vals = values@;
                assert(call_requires(*f, (out,)) && accepts_each(*f, vals)) by {
                    assert(self.nonptx_idents()[0] == out);
                    assert forall|k: int| 0 <= k < vals.len() implies #[trigger] call_requires(
                        *f,
                        (vals[k],),
                    ) by {
                        assert(self.nonptx_idents()[k + 1] == vals[k]);
                    }
                }
                let new_out = f(out);
                let new_values = map_vec(values, f);
                GenericInstruction::InnerProduct {
                    out: new_out,
                    values: new_values,
                    coefficients,
                }
            },
        }
    }

    /// Replaces each identifier that denotes a constant by what `f` gives for it.
    pub fn map_ptx<NewPtx, F>(self, f: &F) -> (r: GenericInstruction<Ident, NewPtx>) where
        F: Fn(Ptx) -> NewPtx,
        requires
            accepts_each(*f, self.ptx_idents()),
        ensures
            renamed_ptx(*f, self, r),
    {
        match self {
            GenericInstruction::AddCtxCtx { out, lhs, rhs } => GenericInstruction::AddCtxCtx {
                out,
                lhs,
                rhs,
            },
            GenericInstruction::AddPtxCtx { out, value, plaintext } => {
                assert(call_requires(*f, (plaintext,))) by {
                    assert(self.ptx_idents()[0] == plaintext);
                }
                GenericInstruction::AddPtxCtx { out, value, plaintext: f(plaintext) }
            },
            GenericInstruction::MulCtxCtx { out, lhs, rhs } => GenericInstruction::MulCtxCtx {
                out,
                lhs,
                rhs,
            },
            GenericInstruction::MulPtxCtx { out, value, plaintext } => {
                assert(call_requires(*f, (plaintext,))) by {
                    assert(self.ptx_idents()[0] == plaintext);
                }
                GenericInstruction::MulPtxCtx { out, value, plaintext: f(plaintext) }
            },
            GenericInstruction::MulIntCtx { out, value, integer } => GenericInstruction::MulIntCtx {
                out,
                value,
                integer,
            },
            GenericInstruction::Zero { out } => GenericInstruction::Zero { out },
            GenericInstruction::Copy { out, val } => GenericInstruction::Copy { out, val },
            GenericInstruction::Galois { out, val, exponents } => GenericInstruction::Galois {
                out,
                val,
                exponents,
            },
            GenericInstruction::Return { val } => GenericInstruction::Return { val },
            GenericInstruction::InnerProduct { out, values, coefficients } => {
                let new_coefficients = map_vec(coefficients, f);
                GenericInstruction::InnerProduct { out, values, coefficients: new_coefficients }
            },
        }
    }
}

impl<Ident> GenericInstruction<Ident> {
    /// Replaces each identifier, constants included, by what `f` gives for it.
    pub fn map_identifiers<NewIdent, F>(self, f: &F) -> (r: GenericInstruction<NewIdent>) where
        F: Fn(Ident) -> NewIdent,
        requires
            accepts_each(*f, self.nonptx_idents()),
            accepts_each(*f, self.ptx_idents()),
        ensures
            exists|mid: GenericInstruction<NewIdent, Ident>|
                renamed_nonptx(*f, self, mid) && renamed_ptx(*f, mid, r),
    {
        let ghost orig = self;
        let mid = self.map_nonptx_identifiers(f);
        assert(mid.ptx_idents() == orig.ptx_idents()) by {
            match orig {
                GenericInstruction::InnerProduct { coefficients, .. } => {},
                _ => {},
            }
        }
        let r = mid.map_ptx(f);
        assert(renamed_nonptx(*f, orig, mid) && renamed_ptx(*f, mid, r));
        r
    }
}

/// The instruction with `f` applied to each identifier that does not denote a
/// constant and `g` to each that does.
pub open spec fn inst_map<A, B, C, D>(
    i: InstructionView<A, B>,
    f: spec_fn(A) -> C,
    g: spec_fn(B) -> D,
) -> InstructionView<C, D> {
    match i {
        InstructionView::AddCtxCtx { out, lhs, rhs } => InstructionView::AddCtxCtx {
            out: f(out),
            lhs: f(lhs),
            rhs: f(rhs),
        },
        InstructionView::AddPtxCtx { out, value, plaintext } => InstructionView::AddPtxCtx {
            out: f(out),
            value: f(value),
            plaintext: g(plaintext),
        },
        InstructionView::MulCtxCtx { out, lhs, rhs } => InstructionView::MulCtxCtx {
            out: f(out),
            lhs: f(lhs),
            rhs: f(rhs),
        },
        InstructionView::MulPtxCtx { out, value, plaintext } => InstructionView::MulPtxCtx {
            out: f(out),
            value: f(value),
            plaintext: g(plaintext),
        },
        InstructionView::MulIntCtx { out, value, integer } => InstructionView::MulIntCtx {
            out: f(out),
            value: f(value),
            integer,
        },
        InstructionView::Copy { out, val } => InstructionView::Copy { out: f(out), val: f(val) },
        InstructionView::Zero { out } => InstructionView::Zero { out: f(out) },
        InstructionView::Return { val } => InstructionView::Return { val: f(val) },
        InstructionView::Galois { out, val, exponents } => InstructionView::Galois {
            out: out.map_values(f),
            val: f(val),
            exponents,
        },
        InstructionView::InnerProduct { out, values, coefficients } =>
            InstructionView::InnerProduct {
            out: f(out),
            values: values.map_values(f),
            coefficients: coefficients.map_values(g),
        },
    }
}

/// The identifiers of a renamed instruction are the renamed identifiers.
pub proof fn lemma_inst_map_idents<A, B, C, D>(
    i: InstructionView<A, B>,
    f: spec_fn(A) -> C,
    g: spec_fn(B) -> D,
)
    ensures
        inst_map(i, f, g).idents() == i.idents().map_values(f),
        inst_map(i, f, g).ptxs() == i.ptxs().map_values(g),
{
    assert(inst_map(i, f, g).idents() =~= i.idents().map_values(f));
    assert(inst_map(i, f, g).ptxs() =~= i.ptxs().map_values(g));
}

/// Renaming gives the same for functions that agree on the names used.
pub proof fn lemma_inst_map_agree<A, B, C, D>(
    i: InstructionView<A, B>,
    f: spec_fn(A) -> C,
    g: spec_fn(B) -> D,
    f2: spec_fn(A) -> C,
    g2: spec_fn(B) -> D,
)
    requires
        forall|k: int| 0 <= k < i.idents().len() ==> f(#[trigger] i.idents()[k]) == f2(i.idents()[k]),
        forall|k: int| 0 <= k < i.ptxs().len() ==> g(#[trigger] i.ptxs()[k]) == g2(i.ptxs()[k]),
    ensures
        inst_map(i, f, g) == inst_map(i, f2, g2),
{
    match i {
        InstructionView::AddCtxCtx { .. } | InstructionView::MulCtxCtx { .. } => {
            assert(f(i.idents()[0]) == f2(i.idents()[0]));
            assert(f(i.idents()[1]) == f2(i.idents()[1]));
            assert(f(i.idents()[2]) == f2(i.idents()[2]));
        },
        InstructionView::AddPtxCtx { .. } | InstructionView::MulPtxCtx { .. } => {
            assert(f(i.idents()[0]) == f2(i.idents()[0]));
            assert(f(i.idents()[1]) == f2(i.idents()[1]));
            assert(g(i.ptxs()[0]) == g2(i.ptxs()[0]));
        },
        InstructionView::MulIntCtx { .. } | InstructionView::Copy { .. } => {
            assert(f(i.idents()[0]) == f2(i.idents()[0]));
            assert(f(i.idents()[1]) == f2(i.idents()[1]));
        },
        InstructionView::Zero { .. } | InstructionView::Return { .. } => {
            assert(f(i.idents()[0]) == f2(i.idents()[0]));
        },
        InstructionView::Galois { out, .. } => {
            assert(f(i.idents()[out.len() as int]) == f2(i.idents()[out.len() as int]));
            assert(out.map_values(f) =~= out.map_values(f2)) by {
                assert forall|k: int| 0 <= k < out.len() implies out.map_values(f)[k]
                    == out.map_values(f2)[k] by {
                    assert(i.idents()[k] == out[k]);
                    assert(f(i.idents()[k]) == f2(i.idents()[k]));
                }
            }
        },
        InstructionView::InnerProduct { values, coefficients, .. } => {
            assert(f(i.idents()[0]) == f2(i.idents()[0]));
            assert(values.map_values(f) =~= values.map_values(f2)) by {
                assert forall|k: int| 0 <= k < values.len() implies values.map_values(f)[k]
                    == values.map_values(f2)[k] by {
                    assert(i.idents()[k + 1] == values[k]);
                    assert(f(i.idents()[k + 1]) == f2(i.idents()[k + 1]));
                }
            }
            assert(coefficients.map_values(g) =~= coefficients.map_values(g2)) by {
                assert forall|k: int| 0 <= k < coefficients.len() implies coefficients.map_values(
                    g,
                )[k] == coefficients.map_values(g2)[k] by {
                    assert(i.ptxs()[k] == coefficients[k]);
                    assert(g(i.ptxs()[k]) == g2(i.ptxs()[k]));
                }
            }
        },
    }
}

/// Renaming with functions that change nothing changes nothing.
pub proof fn lemma_inst_map_identity<A, B>(
    i: InstructionView<A, B>,
    f: spec_fn(A) -> A,
    g: spec_fn(B) -> B,
)
    requires
        forall|x: A| #[trigger] f(x) == x,
        forall|x: B| #[trigger] g(x) == x,
    ensures
        inst_map(i, f, g) == i,
{
    match i {
        InstructionView::Galois { out, .. } => {
            assert(out.map_values(f) =~= out);
        },
        InstructionView::InnerProduct { values, coefficients, .. } => {
            assert(values.map_values(f) =~= values);
            assert(coefficients.map_values(g) =~= coefficients);
        },
        _ => {},
    }
}

/// The model of each instruction.
pub open spec fn inst_views(s: Seq<GenericInstruction>) -> Seq<InstructionView<usize, usize>> {
    s.map_values(|i: GenericInstruction| i@)
}

/// What renaming with closures gives, in terms of what the closures compute.
pub proof fn lemma_renamed_view<
    I: View,
    P: View,
    J: View,
    Q: View,
    F: Fn(I) -> J,
    G: Fn(P) -> Q,
>(
    f: F,
    g: G,
    x: GenericInstruction<I, P>,
    mid: GenericInstruction<J, P>,
    y: GenericInstruction<J, Q>,
    fs: spec_fn(I::V) -> J::V,
    gs: spec_fn(P::V) -> Q::V,
)
    requires
        renamed_nonptx(f, x, mid),
        renamed_ptx(g, mid, y),
        forall|a: I, b: J| call_ensures(f, (a,), b) ==> b@ == fs(a@),
        forall|a: P, b: Q| call_ensures(g, (a,), b) ==> b@ == gs(a@),
    ensures
        y@ == inst_map(x@, fs, gs),
{
    match (x, mid, y) {
        (
            GenericInstruction::Galois { out, val, exponents },
            GenericInstruction::Galois { out: o1, .. },
            GenericInstruction::Galois { out: o2, .. },
        ) => {
            assert(y@->Galois_out =~= x@->Galois_out.map_values(fs)) by {
                assert forall|k: int| 0 <= k < out@.len() implies o2@[k]@ == fs(out@[k]@) by {
                    assert(call_ensures(f, (out@[k],), o1@[k]));
                }
            }
        },
        (
            GenericInstruction::InnerProduct { out, values, coefficients },
            GenericInstruction::InnerProduct { values: v1, coefficients: c1, .. },
            GenericInstruction::InnerProduct { values: v2, coefficients: c2, .. },
        ) => {
            assert(y@->InnerProduct_values =~= x@->InnerProduct_values.map_values(fs)) by {
                assert forall|k: int| 0 <= k < values@.len() implies v2@[k]@ == fs(values@[k]@) by {
                    assert(call_ensures(f, (values@[k],), v1@[k]));
                }
            }
            assert(y@->InnerProduct_coefficients =~= x@->InnerProduct_coefficients.map_values(gs))
                by {
                assert forall|k: int| 0 <= k < coefficients@.len() implies c2@[k]@ == gs(
                    coefficients@[k]@,
                ) by {
                    assert(call_ensures(g, (c1@[k],), c2@[k]));
                }
            }
        },
        _ => {},
    }
}

/// What renaming the constants first and then the other identifiers gives,
/// in terms of what the closures compute.
pub proof fn lemma_renamed_view_ptx_first<
    I: View,
    P: View,
    J: View,
    Q: View,
    F: Fn(I) -> J,
    G: Fn(P) -> Q,
>(
    f: F,
    g: G,
    x: GenericInstruction<I, P>,
    mid: GenericInstruction<I, Q>,
    y: GenericInstruction<J, Q>,
    fs: spec_fn(I::V) -> J::V,
    gs: spec_fn(P::V) -> Q::V,
)
    requires
        renamed_ptx(g, x, mid),
        renamed_nonptx(f, mid, y),
        forall|a: I, b: J| call_ensures(f, (a,), b) ==> b@ == fs(a@),
        forall|a: P, b: Q| call_ensures(g, (a,), b) ==> b@ == gs(a@),
    ensures
        y@ == inst_map(x@, fs, gs),
{
    match (x, mid, y) {
        (
            GenericInstruction::Galois { out, val, exponents },
            GenericInstruction::Galois { out: o1, .. },
            GenericInstruction::Galois { out: o2, .. },
        ) => {
            assert(y@->Galois_out =~= x@->Galois_out.map_values(fs)) by {
                assert forall|k: int| 0 <= k < out@.len() implies o2@[k]@ == fs(out@[k]@) by {
                    assert(call_ensures(f, (o1@[k],), o2@[k]));
                }
            }
        },
        (
            GenericInstruction::InnerProduct { out, values, coefficients },
            GenericInstruction::InnerProduct { values: v1, coefficients: c1, .. },
            GenericInstruction::InnerProduct { values: v2, coefficients: c2, .. },
        ) => {
            assert(y@->InnerProduct_values =~= x@->InnerProduct_values.map_values(fs)) by {
                assert forall|k: int| 0 <= k < values@.len() implies v2@[k]@ == fs(values@[k]@) by {
                    assert(call_ensures(f, (v1@[k],), v2@[k]));
                }
            }
            assert(y@->InnerProduct_coefficients =~= x@->InnerProduct_coefficients.map_values(gs))
                by {
                assert forall|k: int| 0 <= k < coefficients@.len() implies c2@[k]@ == gs(
                    coefficients@[k]@,
                ) by {
                    assert(call_ensures(g, (coefficients@[k],), c1@[k]));
                }
            }
        },
        _ => {},
    }
}

/// Law: with closures whose results depend on their arguments alone,
/// `map_nonptx_identifiers` followed by `map_ptx` gives the instruction that
/// `map_ptx` followed by `map_nonptx_identifiers` gives.
pub proof fn law_maps_commute<I: View, P: View, J: View, Q: View, F: Fn(I) -> J, G: Fn(P) -> Q>(
    f: F,
    g: G,
    x: GenericInstruction<I, P>,
    mid1: GenericInstruction<J, P>,
    y1: GenericInstruction<J, Q>,
    mid2: GenericInstruction<I, Q>,
    y2: GenericInstruction<J, Q>,
    fs: spec_fn(I::V) -> J::V,
    gs: spec_fn(P::V) -> Q::V,
)
    requires
        renamed_nonptx(f, x, mid1),
        renamed_ptx(g, mid1, y1),
        renamed_ptx(g, x, mid2),
        renamed_nonptx(f, mid2, y2),
        forall|a: I, b: J| call_ensures(f, (a,), b) ==> b@ == fs(a@),
        forall|a: P, b: Q| call_ensures(g, (a,), b) ==> b@ == gs(a@),
    ensures
        y1@ == y2@,
{
    lemma_renamed_view(f, g, x, mid1, y1, fs, gs);
    lemma_renamed_view_ptx_first(f, g, x, mid2, y2, fs, gs);
}

/// Law: `map_ptx` with a closure that gives back its argument gives back the
/// instruction.
pub proof fn law_map_ptx_identity<I: View, P: View, G: Fn(P) -> P>(
    g: G,
    x: GenericInstruction<I, P>,
    y: GenericInstruction<I, P>,
)
    requires
        renamed_ptx(g, x, y),
        forall|a: P, b: P| call_ensures(g, (a,), b) ==> b@ == a@,
    ensures
        y@ == x@,
{
    match (x, y) {
        (
            GenericInstruction::Galois { out, .. },
            GenericInstruction::Galois { out: o, .. },
        ) => {
            assert(y@->Galois_out =~= x@->Galois_out);
        },
        (
            GenericInstruction::InnerProduct { values, coefficients, .. },
            GenericInstruction::InnerProduct { values: v, coefficients: c, .. },
        ) => {
            assert(y@->InnerProduct_values =~= x@->InnerProduct_values);
            assert(y@->InnerProduct_coefficients =~= x@->InnerProduct_coefficients) by {
                assert forall|k: int| 0 <= k < coefficients@.len() implies c@[k]@
                    == coefficients@[k]@ by {
                    assert(call_ensures(g, (coefficients@[k],), c@[k]));
                }
            }
        },
        _ => {},
    }
}

/// A copy of a vector of indices.
fn copy_indices(v: &Vec<usize>) -> (r: Vec<usize>)
    ensures
        r@ == v@,
{
    let mut r: Vec<usize> = Vec::new();
    for k in 0..v.len()
        invariant
            r@ == v@.take(k as int),
    {
        r.push(v[k]);
        assert(v@.take(k + 1) =~= v@.take(k as int).push(v@[k as int]));
    }
    assert(v@.take(v@.len() as int) =~= v@);
    r
}

/// A copy of a vector of integers.
fn copy_ints(v: &Vec<i64>) -> (r: Vec<i64>)
    ensures
        r@ == v@,
{
    let mut r: Vec<i64> = Vec::new();
    for k in 0..v.len()
        invariant
            r@ == v@.take(k as int),
    {
        r.push(v[k]);
        assert(v@.take(k + 1) =~= v@.take(k as int).push(v@[k as int]));
    }
    assert(v@.take(v@.len() as int) =~= v@);
    r
}

impl GenericInstruction<usize, usize> {
    /// A copy of the instruction.
    pub(crate) fn copy(&self) -> (r: Self)
        ensures
            r@ == self@,
            r.nonptx_idents() == self.nonptx_idents(),
            r.ptx_idents() == self.ptx_idents(),
    {
        match self {
            GenericInstruction::AddCtxCtx { out, lhs, rhs } => GenericInstruction::AddCtxCtx {
                out: *out,
                lhs: *lhs,
                rhs: *rhs,
            },
            GenericInstruction::AddPtxCtx { out, value, plaintext } => GenericInstruction::AddPtxCtx {
                out: *out,
                value: *value,
                plaintext: *plaintext,
            },
            GenericInstruction::MulCtxCtx { out, lhs, rhs } => GenericInstruction::MulCtxCtx {
                out: *out,
                lhs: *lhs,
                rhs: *rhs,
            },
            GenericInstruction::MulPtxCtx { out, value, plaintext } => GenericInstruction::MulPtxCtx {
                out: *out,
                value: *value,
                plaintext: *plaintext,
            },
            GenericInstruction::MulIntCtx { out, value, integer } => GenericInstruction::MulIntCtx {
                out: *out,
                value: *value,
                integer: *integer,
            },
            GenericInstruction::Copy { out, val } => GenericInstruction::Copy { out: *out, val: *val },
            GenericInstruction::Zero { out } => GenericInstruction::Zero { out: *out },
            GenericInstruction::Return { val } => GenericInstruction::Return { val: *val },
            GenericInstruction::Galois { out, val, exponents } => GenericInstruction::Galois {
                out: copy_indices(out),
                val: *val,
                exponents: copy_ints(exponents),
            },
            GenericInstruction::InnerProduct { out, values, coefficients } =>
                GenericInstruction::InnerProduct {
                out: *out,
                values: copy_indices(values),
                coefficients: copy_indices(coefficients),
            },
        }
    }
}

// ---------------------------------------------------------------------------
// Checking one instruction
// ---------------------------------------------------------------------------

/// The name of `x` starts with `c`.
pub open spec fn name_starts(names: Seq<Seq<char>>, x: usize, c: char) -> bool {
    names[x as int].len() > 0 && names[x as int][0] == c
}

/// Whether an instruction is well formed, given the names, the identifiers
/// defined before it, and the identifiers that have data: variables are named
/// `%..`, constants `@..`; inputs are defined; constants have data; the
/// lengths of variadic inputs and outputs match.
pub open spec fn inst_valid(
    i: InstructionView<usize, usize>,
    names: Seq<Seq<char>>,
    defined: Set<usize>,
    has_data: Set<usize>,
) -> bool {
    let var = |x: usize| name_starts(names, x, '%');
    let cst = |x: usize| name_starts(names, x, '@');
    match i {
        InstructionView::AddCtxCtx { out, lhs, rhs } => var(out) && var(lhs) && var(rhs)
            && defined.contains(lhs) && defined.contains(rhs),
        InstructionView::AddPtxCtx { out, value, plaintext } => var(out) && var(value) && cst(
            plaintext,
        ) && defined.contains(value) && has_data.contains(plaintext),
        InstructionView::MulCtxCtx { out, lhs, rhs } => var(out) && var(lhs) && var(rhs)
            && defined.contains(lhs) && defined.contains(rhs),
        InstructionView::MulPtxCtx { out, value, plaintext } => var(out) && var(value) && cst(
            plaintext,
        ) && defined.contains(value) && has_data.contains(plaintext),
        InstructionView::MulIntCtx { out, value, .. } => var(out) && var(value)
            && defined.contains(value),
        InstructionView::Return { val } => var(val) && defined.contains(val),
        InstructionView::Copy { out, val } => var(out) && var(val) && defined.contains(val),
        InstructionView::Zero { out } => var(out),
        InstructionView::Galois { out, val, exponents } => (forall|k: int|
            0 <= k < out.len() ==> var(#[trigger] out[k])) && var(val) && defined.contains(val)
            && out.len() == exponents.len() && exponents.len() > 0,
        InstructionView::InnerProduct { out, values, coefficients } => var(out) && (forall|k: int|
            0 <= k < values.len() ==> var(#[trigger] values[k]) && defined.contains(values[k]))
            && (forall|k: int|
            0 <= k < coefficients.len() ==> cst(#[trigger] coefficients[k]) && has_data.contains(
                coefficients[k],
            )) && values.len() == coefficients.len(),
    }
}

/// The identifiers defined after the instruction.
pub open spec fn inst_defines(i: InstructionView<usize, usize>, defined: Set<usize>) -> Set<
    usize,
> {
    match i {
        InstructionView::Return { .. } => defined,
        InstructionView::Galois { out, .. } => defined + out.to_set(),
        InstructionView::AddCtxCtx { out, .. } => defined.insert(out),
        InstructionView::AddPtxCtx { out, .. } => defined.insert(out),
        InstructionView::MulCtxCtx { out, .. } => defined.insert(out),
        InstructionView::MulPtxCtx { out, .. } => defined.insert(out),
        InstructionView::MulIntCtx { out, .. } => defined.insert(out),
        InstructionView::Copy { out, .. } => defined.insert(out),
        InstructionView::Zero { out } => defined.insert(out),
        InstructionView::InnerProduct { out, .. } => defined.insert(out),
    }
}

/// All identifiers of the instruction are below `n`.
pub open spec fn idents_below(i: InstructionView<usize, usize>, n: nat) -> bool {
    &&& forall|k: int| 0 <= k < i.idents().len() ==> #[trigger] i.idents()[k] < n
    &&& forall|k: int| 0 <= k < i.ptxs().len() ==> #[trigger] i.ptxs()[k] < n
}

impl GenericInstruction<usize, usize> {
    pub proof fn lemma_view_idents(&self)
        ensures
            self@.idents() == self.nonptx_idents(),
            self@.ptxs() == self.ptx_idents(),
    {
        match self {
            GenericInstruction::Galois { out, .. } => {
                assert(out@.map_values(|x: usize| x@) =~= out@);
            },
            GenericInstruction::InnerProduct { values, coefficients, .. } => {
                assert(values@.map_values(|x: usize| x@) =~= values@);
                assert(coefficients@.map_values(|x: usize| x@) =~= coefficients@);
                assert(self@.idents() =~= self.nonptx_idents());
            },
            _ => {},
        }
    }

    /// Checks this instruction against the identifiers defined so far, and on
    /// success adds the identifiers it defines.
    pub(crate) fn check<Ptx>(
        &self,
        defined_identifiers: &mut HashSet<usize>,
        identifier_table: &IdentifierTable,
        data_table: &HashMap<usize, Ptx>,
    ) -> (r: Result<(), ()>)
        requires
            identifier_table.wf(),
            idents_below(self@, identifier_table.counter as nat),
        ensures
            r is Ok <==> inst_valid(
                self@,
                identifier_table@,
                old(defined_identifiers)@,
                data_table@.dom(),
            ),
            r is Ok ==> final(defined_identifiers)@ == inst_defines(
                self@,
                old(defined_identifiers)@,
            ),
            r is Err ==> final(defined_identifiers)@ == old(defined_identifiers)@,
    {
        let ghost names = identifier_table@;
        proof {
            self.lemma_view_idents();
        }
        let ok = match self {
            GenericInstruction::AddCtxCtx { out, lhs, rhs } | GenericInstruction::MulCtxCtx {
                out,
                lhs,
                rhs,
            } => {
                assert(self.nonptx_idents()[0] == *out);
                assert(self.nonptx_idents()[1] == *lhs);
                assert(self.nonptx_idents()[2] == *rhs);
                identifier_table.name_starts_with(*out, '%') && identifier_table.name_starts_with(
                    *lhs,
                    '%',
                ) && identifier_table.name_starts_with(*rhs, '%') && defined_identifiers.contains(
                    lhs,
                ) && defined_identifiers.contains(rhs)
            },
            GenericInstruction::AddPtxCtx { out, value, plaintext }
            | GenericInstruction::MulPtxCtx { out, value, plaintext } => {
                assert(self.nonptx_idents()[0] == *out);
                assert(self.nonptx_idents()[1] == *value);
                assert(self.ptx_idents()[0] == *plaintext);
                identifier_table.name_starts_with(*out, '%') && identifier_table.name_starts_with(
                    *value,
                    '%',
                ) && identifier_table.name_starts_with(*plaintext, '@')
                    && defined_identifiers.contains(value) && data_table.contains_key(plaintext)
            },
            GenericInstruction::MulIntCtx { out, value, integer: _ } => {
                assert(self.nonptx_idents()[0] == *out);
                assert(self.nonptx_idents()[1] == *value);
                identifier_table.name_starts_with(*out, '%') && identifier_table.name_starts_with(
                    *value,
                    '%',
                ) && defined_identifiers.contains(value)
            },
            GenericInstruction::Return { val } => {
                assert(self.nonptx_idents()[0] == *val);
                identifier_table.name_starts_with(*val, '%') && defined_identifiers.contains(val)
            },
            GenericInstruction::Copy { out, val } => {
                assert(self.nonptx_idents()[0] == *out);
                assert(self.nonptx_idents()[1] == *val);
                identifier_table.name_starts_with(*out, '%') && identifier_table.name_starts_with(
                    *val,
                    '%',
                ) && defined_identifiers.contains(val)
            },
            GenericInstruction::Zero { out } => {
                assert(self.nonptx_idents()[0] == *out);
                identifier_table.name_starts_with(*out, '%')
            },
            GenericInstruction::Galois { out, val, exponents } => {
                let mut all_vars = true;
                let mut k: usize = 0;
                while k < out.len()
                    invariant
                        k <= out@.len(),
                        identifier_table.wf(),
                        self.nonptx_idents() == out@.push(*val),
                        idents_below(self@, identifier_table.counter as nat),
                        self@.idents() == self.nonptx_idents(),
                        names == identifier_table@,
                        all_vars == (forall|j: int|
                            0 <= j < k ==> name_starts(names, #[trigger] out@[j], '%')),
                    decreases out@.len() - k,
                {
                    assert(self.nonptx_idents()[k as int] == out@[k as int]);
                    if !identifier_table.name_starts_with(out[k], '%') {
                        all_vars = false;
                    }
                    k += 1;
                }
                assert(self.nonptx_idents()[out@.len() as int] == *val);
                assert(self@->Galois_out =~= out@) by {
                    assert(out@.map_values(|x: usize| x@) =~= out@);
                }
                all_vars && identifier_table.name_starts_with(*val, '%')
                    && defined_identifiers.contains(val) && out.len() == exponents.len()
                    && exponents.len() > 0
            },
            GenericInstruction::InnerProduct { out, values, coefficients } => {
                assert(self.nonptx_idents()[0] == *out);
                let mut values_ok = true;
                let mut k: usize = 0;
                while k < values.len()
                    invariant
                        k <= values@.len(),
                        identifier_table.wf(),
                        self.nonptx_idents() == seq![*out] + values@,
                        idents_below(self@, identifier_table.counter as nat),
                        self@.idents() == self.nonptx_idents(),
                        names == identifier_table@,
                        values_ok == (forall|j: int|
                            0 <= j < k ==> name_starts(names, #[trigger] values@[j], '%')
                                && defined_identifiers@.contains(values@[j])),
                    decreases values@.len() - k,
                {
                    assert(self.nonptx_idents()[k + 1] == values@[k as int]);
                    if !(identifier_table.name_starts_with(values[k], '%')
                        && defined_identifiers.contains(&values[k])) {
                        values_ok = false;
                    }
                    k += 1;
                }
                let mut coefficients_ok = true;
                let mut k: usize = 0;
                while k < coefficients.len()
                    invariant
                        k <= coefficients@.len(),
                        identifier_table.wf(),
                        self.ptx_idents() == coefficients@,
                        idents_below(self@, identifier_table.counter as nat),
                        self@.ptxs() == self.ptx_idents(),
                        names == identifier_table@,
                        coefficients_ok == (forall|j: int|
                            0 <= j < k ==> name_starts(names, #[trigger] coefficients@[j], '@')
                                && data_table@.dom().contains(coefficients@[j])),
                    decreases coefficients@.len() - k,
                {
                    assert(self.ptx_idents()[k as int] == coefficients@[k as int]);
                    if !(identifier_table.name_starts_with(coefficients[k], '@')
                        && data_table.contains_key(&coefficients[k])) {
                        coefficients_ok = false;
                    }
                    k += 1;
                }
                assert(self@->InnerProduct_values =~= values@) by {
                    assert(values@.map_values(|x: usize| x@) =~= values@);
                }
                assert(self@->InnerProduct_coefficients =~= coefficients@) by {
                    assert(coefficients@.map_values(|x: usize| x@) =~= coefficients@);
                }
                identifier_table.name_starts_with(*out, '%') && values_ok && coefficients_ok
                    && values.len() == coefficients.len()
            },
        };
        if ok {
            match self {
                GenericInstruction::AddCtxCtx { out, .. }
                | GenericInstruction::AddPtxCtx { out, .. }
                | GenericInstruction::MulCtxCtx { out, .. }
                | GenericInstruction::MulPtxCtx { out, .. }
                | GenericInstruction::MulIntCtx { out, .. }
                | GenericInstruction::Copy { out, .. }
                | GenericInstruction::Zero { out }
                | GenericInstruction::InnerProduct { out, .. } => {
                    defined_identifiers.insert(*out);
                },
                GenericInstruction::Galois { out, .. } => {
                    let ghost start = defined_identifiers@;
                    let mut k: usize = 0;
                    while k < out.len()
                        invariant
                            k <= out@.len(),
                            defined_identifiers@ == start + out@.take(k as int).to_set(),
                        decreases out@.len() - k,
                    {
                        defined_identifiers.insert(out[k]);
                        assert(out@.take(k + 1) =~= out@.take(k as int).push(out@[k as int]));
                        assert(out@.take(k + 1).to_set() =~= out@.take(k as int).to_set().insert(
                            out@[k as int],
                        )) by {
                            out@.take(k as int).lemma_push_to_set_commute(out@[k as int]);
                        }
                        k += 1;
                    }
                    assert(out@.take(out@.len() as int) =~= out@);
                    assert(out@.map_values(|x: usize| x@) =~= out@);
                },
                GenericInstruction::Return { .. } => {},
            }
            Ok(())
        } else {
            Err(())
        }
    }
}

// ---------------------------------------------------------------------------
// Textual form
// ---------------------------------------------------------------------------

/// The items joined with `sep` between each two.
pub open spec fn join(items: Seq<Seq<char>>, sep: Seq<char>) -> Seq<char>
    decreases items.len(),
{
    if items.len() == 0 {
        seq![]
    } else if items.len() == 1 {
        items[0]
    } else {
        join(items.drop_last(), sep) + sep + items.last()
    }
}

/// Each item followed by `suffix`.
pub open spec fn concat_each(items: Seq<Seq<char>>, suffix: Seq<char>) -> Seq<char>
    decreases items.len(),
{
    if items.len() == 0 {
        seq![]
    } else {
        concat_each(items.drop_last(), suffix) + items.last() + suffix
    }
}

/// The decimal text of each integer.
pub open spec fn fmt_all(xs: Seq<i64>) -> Seq<Seq<char>> {
    xs.map_values(|x: i64| fmt_i64(x))
}

/// A list of integers as `Debug` of `Vec<i64>` writes it: `[1, -2, 3]`.
pub open spec fn int_list_text(xs: Seq<i64>) -> Seq<char> {
    seq!['['] + join(fmt_all(xs), seq![',', ' ']) + seq![']']
}

/// The textual form of an instruction whose identifiers are names.
pub open spec fn inst_text(i: InstructionView<Seq<char>, Seq<char>>) -> Seq<char> {
    match i {
        InstructionView::AddCtxCtx { out, lhs, rhs } => out + " = add "@ + lhs + ", "@ + rhs,
        InstructionView::AddPtxCtx { out, value, plaintext } => out + " = add_ptx "@ + value
            + ", "@ + plaintext,
        InstructionView::MulCtxCtx { out, lhs, rhs } => out + " = mul "@ + lhs + ", "@ + rhs,
        InstructionView::MulPtxCtx { out, value, plaintext } => out + " = mul_ptx "@ + value
            + ", "@ + plaintext,
        InstructionView::MulIntCtx { out, value, integer } => out + " = mul_int "@ + value
            + ", "@ + fmt_i64(integer),
        InstructionView::Return { val } => "return "@ + val,
        InstructionView::Copy { out, val } => out + " = copy "@ + val,
        InstructionView::Zero { out } => out + " = zero"@,
        InstructionView::Galois { out, val, exponents } => join(out, ", "@) + " = galois "@ + val
            + ", exponents = "@ + int_list_text(exponents),
        InstructionView::InnerProduct { out, values, coefficients } => out + " = inner_prod "@
            + concat_each(values, ", "@) + "coefficients = ["@ + join(coefficients, ", "@)
            + "]"@,
    }
}

/// The characters of each string.
pub open spec fn views_of<'a>(v: Seq<&'a str>) -> Seq<Seq<char>> {
    v.map_values(|s: &'a str| s@)
}

/// Appends the items with `sep` between each two.
pub fn push_joined(out: &mut Vec<char>, items: &Vec<&str>, sep: &str)
    ensures
        final(out)@ == old(out)@ + join(views_of(items@), sep@),
{
    let ghost names = views_of(items@);
    let ghost start = old(out)@;
    let mut k: usize = 0;
    while k < items.len()
        invariant
            k <= items@.len(),
            names == views_of(items@),
            out@ == start + join(names.take(k as int), sep@),
        decreases items@.len() - k,
    {
        if k > 0 {
            push_str(out, sep);
        }
        push_str(out, items[k]);
        assert(names.take(k + 1).drop_last() =~= names.take(k as int));
        if k == 0 {
            assert(names.take(1) =~= seq![names[0]]);
        }
        k += 1;
    }
    assert(names.take(items@.len() as int) =~= names);
}

/// Appends the integers as `Debug` of `Vec<i64>` writes them.
pub fn push_int_list(out: &mut Vec<char>, xs: &Vec<i64>)
    ensures
        final(out)@ == old(out)@ + int_list_text(xs@),
{
    let ghost texts = fmt_all(xs@);
    let ghost start = old(out)@;
    out.push('[');
    let mut k: usize = 0;
    while k < xs.len()
        invariant
            k <= xs@.len(),
            texts == fmt_all(xs@),
            out@ == start + seq!['['] + join(texts.take(k as int), seq![',', ' ']),
        decreases xs@.len() - k,
    {
        if k > 0 {
            out.push(',');
            out.push(' ');
        }
        push_i64(out, xs[k]);
        assert(texts.take(k + 1).drop_last() =~= texts.take(k as int));
        if k == 0 {
            assert(texts.take(1) =~= seq![texts[0]]);
        }
        k += 1;
    }
    assert(texts.take(xs@.len() as int) =~= texts);
    out.push(']');
}

/// What an instruction writes for an identifier or a constant.
pub trait Written: View {
    /// The text written for a value whose model is `v`.
    spec fn spec_written(v: Self::V) -> Seq<char>;

    /// Writes the text of the value.
    fn written(&self) -> (r: Vec<char>)
        ensures
            r@ == Self::spec_written(self@),
    ;
}

/// A name is written as it is.
impl<'a> Written for &'a str {
    open spec fn spec_written(v: Seq<char>) -> Seq<char> {
        v
    }

    fn written(&self) -> (r: Vec<char>) {
        chars_of(*self)
    }
}

/// An index is written in decimal.
impl Written for usize {
    open spec fn spec_written(v: usize) -> Seq<char> {
        fmt_nat(v as nat)
    }

    fn written(&self) -> (r: Vec<char>) {
        let mut r: Vec<char> = Vec::new();
        push_nat(&mut r, *self as u64);
        r
    }
}

/// An owned name is written as it is.
impl Written for String {
    open spec fn spec_written(v: Seq<char>) -> Seq<char> {
        v
    }

    fn written(&self) -> (r: Vec<char>) {
        chars_of(self.as_str())
    }
}

/// The function that gives the text written for a model.
pub open spec fn writer<I: Written>() -> spec_fn(I::V) -> Seq<char> {
    |v: I::V| I::spec_written(v)
}

/// The instruction with each identifier and constant replaced by the text
/// written for it.
pub open spec fn written_form<I: Written, P: Written>(i: InstructionView<I::V, P::V>) -> InstructionView<
    Seq<char>,
    Seq<char>,
> {
    inst_map(i, writer::<I>(), writer::<P>())
}

/// The texts written for the items.
pub open spec fn written_all<I: Written>(items: Seq<I>) -> Seq<Seq<char>> {
    items.map_values(|x: I| I::spec_written(x@))
}

/// For an instruction with names, what is written is the instruction.
pub proof fn lemma_written_names(i: InstructionView<Seq<char>, Seq<char>>)
    ensures
        written_form::<&str, &str>(i) == i,
{
    lemma_inst_map_identity(i, writer::<&str>(), writer::<&str>());
}

/// Appends the characters of `v`.
fn push_chars(out: &mut Vec<char>, v: Vec<char>)
    ensures
        final(out)@ == old(out)@ + v@,
{
    let mut v = v;
    out.append(&mut v);
}

/// Appends the texts written for the items, with `sep` between each two.
fn push_written_joined<I: Written>(out: &mut Vec<char>, items: &Vec<I>, sep: &str)
    ensures
        final(out)@ == old(out)@ + join(written_all(items@), sep@),
{
    let ghost texts = written_all(items@);
    let ghost start = old(out)@;
    let mut k: usize = 0;
    while k < items.len()
        invariant
            k <= items@.len(),
            texts == written_all(items@),
            out@ == start + join(texts.take(k as int), sep@),
        decreases items@.len() - k,
    {
        if k > 0 {
            push_str(out, sep);
        }
        push_chars(out, items[k].written());
        assert(texts.take(k + 1).drop_last() =~= texts.take(k as int));
        if k == 0 {
            assert(texts.take(1) =~= seq![texts[0]]);
        }
        k += 1;
    }
    assert(texts.take(items@.len() as int) =~= texts);
}

/// Appends the texts written for the items, each followed by `, `.
fn push_written_each<I: Written>(out: &mut Vec<char>, items: &Vec<I>)
    ensures
        final(out)@ == old(out)@ + concat_each(written_all(items@), ", "@),
{
    let ghost texts = written_all(items@);
    let ghost start = old(out)@;
    let mut k: usize = 0;
    while k < items.len()
        invariant
            k <= items@.len(),
            texts == written_all(items@),
            out@ == start + concat_each(texts.take(k as int), ", "@),
        decreases items@.len() - k,
    {
        push_chars(out, items[k].written());
        push_str(out, ", ");
        assert(texts.take(k + 1).drop_last() =~= texts.take(k as int));
        k += 1;
    }
    assert(texts.take(items@.len() as int) =~= texts);
}

impl<I: Written, P: Written> GenericInstruction<I, P> {
    /// The textual form of the instruction, as one line without indentation:
    /// each identifier and constant as the text written for it.
    pub fn to_string(&self) -> (s: String)
        ensures
            s@ == inst_text(written_form::<I, P>(self@)),
    {
        let ghost w = written_form::<I, P>(self@);
        let mut out: Vec<char> = Vec::new();
        match self {
            GenericInstruction::AddCtxCtx { out: o, lhs, rhs } => {
                push_chars(&mut out, o.written());
                push_str(&mut out, " = add ");
                push_chars(&mut out, lhs.written());
                push_str(&mut out, ", ");
                push_chars(&mut out, rhs.written());
            },
            GenericInstruction::AddPtxCtx { out: o, value, plaintext } => {
                push_chars(&mut out, o.written());
                push_str(&mut out, " = add_ptx ");
                push_chars(&mut out, value.written());
                push_str(&mut out, ", ");
                push_chars(&mut out, plaintext.written());
            },
            GenericInstruction::MulCtxCtx { out: o, lhs, rhs } => {
                push_chars(&mut out, o.written());
                push_str(&mut out, " = mul ");
                push_chars(&mut out, lhs.written());
                push_str(&mut out, ", ");
                push_chars(&mut out, rhs.written());
            },
            GenericInstruction::MulPtxCtx { out: o, value, plaintext } => {
                push_chars(&mut out, o.written());
                push_str(&mut out, " = mul_ptx ");
                push_chars(&mut out, value.written());
                push_str(&mut out, ", ");
                push_chars(&mut out, plaintext.written());
            },
            GenericInstruction::MulIntCtx { out: o, value, integer } => {
                push_chars(&mut out, o.written());
                push_str(&mut out, " = mul_int ");
                push_chars(&mut out, value.written());
                push_str(&mut out, ", ");
                push_i64(&mut out, *integer);
            },
            GenericInstruction::Return { val } => {
                push_str(&mut out, "return ");
                push_chars(&mut out, val.written());
            },
            GenericInstruction::Copy { out: o, val } => {
                push_chars(&mut out, o.written());
                push_str(&mut out, " = copy ");
                push_chars(&mut out, val.written());
            },
            GenericInstruction::Zero { out: o } => {
                push_chars(&mut out, o.written());
                push_str(&mut out, " = zero");
            },
            GenericInstruction::Galois { out: o, val, exponents } => {
                push_written_joined(&mut out, o, ", ");
                push_str(&mut out, " = galois ");
                push_chars(&mut out, val.written());
                push_str(&mut out, ", exponents = ");
                push_int_list(&mut out, exponents);
                assert(w->Galois_out =~= written_all(o@));
            },
            GenericInstruction::InnerProduct { out: o, values, coefficients } => {
                push_chars(&mut out, o.written());
                push_str(&mut out, " = inner_prod ");
                push_written_each(&mut out, values);
                push_str(&mut out, "coefficients = [");
                push_written_joined(&mut out, coefficients, ", ");
                push_str(&mut out, "]");
                assert(w->InnerProduct_values =~= written_all(values@));
                assert(w->InnerProduct_coefficients =~= written_all(coefficients@));
            },
        }
        assert(out@ =~= inst_text(w));
        string_of(out.as_slice())
    }
}

} // verus!
