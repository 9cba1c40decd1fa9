//! Plaintext data and the textual syntax of the data attached to constants.

use std::ops::Deref;
use std::str::FromStr;
use vstd::prelude::*;

use crate::instruction::{int_list_text, push_int_list, Written};
use crate::text::{chars_of, expect, expect_end, expect_int, spec_expect, spec_int, string_of};

verus! {

/// The textual syntax of the data attached to constants: how a program reads
/// the text after `@name: ` and how it writes a value there.
pub trait PlaintextSyntax: View + Sized {
    /// The value that the text `s` stands for, if `s` is valid.
    spec fn spec_from_text(s: Seq<char>) -> Option<Self::V>;

    /// The text of a value.
    spec fn spec_to_text(v: Self::V) -> Seq<char>;

    /// Reads a value from the text `s`.
    fn from_text(s: &[char]) -> (r: Option<Self>)
        ensures
            match r {
                Some(v) => Self::spec_from_text(s@) == Some(v@),
                None => Self::spec_from_text(s@) is None,
            },
    ;

    /// Writes the text of the value.
    fn to_text(&self) -> (r: Vec<char>)
        ensures
            r@ == Self::spec_to_text(self@),
    ;
}

///
/// Wrapper around `Vec<i64>`, to be used to store plaintext elements.
///
#[derive(Clone, PartialEq, Eq, Debug)]
pub struct PlaintextData {
    data: Vec<i64>,
}

impl View for PlaintextData {
    type V = Seq<i64>;

    closed spec fn view(&self) -> Seq<i64> {
        self.data@
    }
}

/// The integers after the first: each preceded by `, `.
pub open spec fn spec_int_tail(s: Seq<char>, acc: Seq<i64>) -> Option<(Seq<i64>, Seq<char>)>
    decreases s.len(),
{
    match spec_expect(s, ", "@) {
        None => Some((acc, s)),
        Some(r) => match spec_int(r) {
            None => None,
            Some((v, r2)) => {
                proof {
                    crate::text::lemma_int_tok_len(r);
                }
                spec_int_tail(r2, acc.push(v))
            },
        },
    }
}

/// A possibly empty list of integers separated by `, `.
pub open spec fn spec_int_list(s: Seq<char>) -> Option<(Seq<i64>, Seq<char>)> {
    match spec_int(s) {
        None => Some((seq![], s)),
        Some((v, r)) => spec_int_tail(r, seq![v]),
    }
}

/// The list of integers that the text `s` spells, as in `[1, -2, 3]`.
pub open spec fn spec_plaintext_from_text(s: Seq<char>) -> Option<Seq<i64>> {
    match spec_expect(s, "["@) {
        None => None,
        Some(r) => match spec_int_list(r) {
            None => None,
            Some((vals, r2)) => match spec_expect(r2, "]"@) {
                None => None,
                Some(r3) => if r3.len() == 0 {
                    Some(vals)
                } else {
                    None
                },
            },
        },
    }
}

/// Reads the integers after the first, each preceded by `, `.
pub fn read_int_tail(s: &mut &[char], acc: &mut Vec<i64>) -> (ok: bool)
    ensures
        match spec_int_tail(old(s)@, old(acc)@) {
            Some((vals, rest)) => ok && final(acc)@ == vals && final(s)@ == rest,
            None => !ok,
        },
    decreases old(s)@.len(),
{
    let ghost s0 = s@;
    match expect(s, ", ") {
        None => true,
        Some(()) => {
            proof {
                crate::text::lemma_int_tok_len(s@);
            }
            match expect_int(s) {
                None => false,
                Some(v) => {
                    acc.push(v);
                    read_int_tail(s, acc)
                },
            }
        },
    }
}

impl PlaintextData {
    /// The integers, to change in place.
    pub fn deref_mut(&mut self) -> (r: &mut Vec<i64>)
        ensures
            r@ == old(self)@,
            final(self)@ == final(r)@,
    {
        &mut self.data
    }

    /// The text of the integers, as in `[1, -2, 3]`.
    pub fn to_string(&self) -> (s: String)
        ensures
            s@ == int_list_text(self@),
    {
        let v = self.to_text();
        string_of(v.as_slice())
    }
}

impl PlaintextSyntax for PlaintextData {
    open spec fn spec_from_text(s: Seq<char>) -> Option<Seq<i64>> {
        spec_plaintext_from_text(s)
    }

    open spec fn spec_to_text(v: Seq<i64>) -> Seq<char> {
        int_list_text(v)
    }

    fn from_text(s: &[char]) -> (r: Option<Self>) {
        let mut s = s;
        let mut data: Vec<i64> = Vec::new();
        match expect(&mut s, "[") {
            None => {
                return None;
            },
            Some(()) => {},
        }
        let ghost r = s@;
        match expect_int(&mut s) {
            Some(val) => {
                data.push(val);
                assert(data@ == seq![val]);
                if !read_int_tail(&mut s, &mut data) {
                    return None;
                }
            },
            None => {},
        }
        match expect(&mut s, "]") {
            None => {
                return None;
            },
            Some(()) => {},
        }
        expect_end(s, PlaintextData { data })
    }

    fn to_text(&self) -> (r: Vec<char>) {
        let mut out: Vec<char> = Vec::new();
        push_int_list(&mut out, &self.data);
        assert(out@ =~= int_list_text(self@));
        out
    }
}

/// Data is written as its text.
impl<'a, P: PlaintextSyntax> Written for &'a P {
    open spec fn spec_written(v: P::V) -> Seq<char> {
        P::spec_to_text(v)
    }

    fn written(&self) -> (r: Vec<char>) {
        (**self).to_text()
    }
}

impl From<Vec<i64>> for PlaintextData {
    fn from(value: Vec<i64>) -> (r: Self)
        ensures
            r@ == value@,
    {
        PlaintextData { data: value }
    }
}

impl vstd::std_specs::convert::FromSpecImpl<Vec<i64>> for PlaintextData {
    open spec fn obeys_from_spec() -> bool {
        true
    }

    closed spec fn from_spec(v: Vec<i64>) -> Self {
        PlaintextData { data: v }
    }
}

impl From<PlaintextData> for Vec<i64> {
    fn from(value: PlaintextData) -> (r: Vec<i64>)
        ensures
            r@ == value@,
    {
        value.data
    }
}

impl vstd::std_specs::convert::FromSpecImpl<PlaintextData> for Vec<i64> {
    open spec fn obeys_from_spec() -> bool {
        true
    }

    closed spec fn from_spec(v: PlaintextData) -> Self {
        v.data
    }
}

impl FromStr for PlaintextData {
    type Err = ();

    fn from_str(s: &str) -> (r: Result<Self, ()>)
        ensures
            match spec_plaintext_from_text(s@) {
                Some(v) => r matches Ok(d) && d@ == v,
                None => r is Err,
            },
    {
        let chars = chars_of(s);
        match PlaintextData::from_text(chars.as_slice()) {
            Some(v) => Ok(v),
            None => Err(()),
        }
    }
}

impl Deref for PlaintextData {
    type Target = Vec<i64>;

    fn deref(&self) -> (r: &Vec<i64>)
        ensures
            r@ == self@,
    {
        &self.data
    }
}

} // verus!
