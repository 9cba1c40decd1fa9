//! Character-level scanning used by the textual form of programs: whitespace
//! trimming, line splitting, literal matching, identifiers and decimal integers.

use vstd::prelude::*;
use vstd::slice::slice_subrange;

verus! {

// ---------------------------------------------------------------------------
// Character classes
// ---------------------------------------------------------------------------

/// The Unicode `White_Space` characters, which is what `str::trim` removes.
pub open spec fn is_ws(c: char) -> bool {
    let u = c as u32;
    ||| (9 <= u && u <= 13)
    ||| u == 32
    ||| u == 0x85
    ||| u == 0xA0
    ||| u == 0x1680
    ||| (0x2000 <= u && u <= 0x200A)
    ||| u == 0x2028
    ||| u == 0x2029
    ||| u == 0x202F
    ||| u == 0x205F
    ||| u == 0x3000
}

pub fn is_ws_char(c: char) -> (b: bool)
    ensures
        b == is_ws(c),
{
    let u = c as u32;
    (9 <= u && u <= 13) || u == 32 || u == 0x85 || u == 0xA0 || u == 0x1680 || (0x2000 <= u && u
        <= 0x200A) || u == 0x2028 || u == 0x2029 || u == 0x202F || u == 0x205F || u == 0x3000
}

pub open spec fn is_digit(c: char) -> bool {
    48 <= (c as u32) && (c as u32) <= 57
}

/// ASCII letters, ASCII digits and the underscore.
pub open spec fn is_ident_char(c: char) -> bool {
    let u = c as u32;
    ||| (48 <= u && u <= 57)
    ||| (65 <= u && u <= 90)
    ||| (97 <= u && u <= 122)
    ||| u == 95
}

pub fn is_ident_char_exec(c: char) -> (b: bool)
    ensures
        b == is_ident_char(c),
{
    let u = c as u32;
    (48 <= u && u <= 57) || (65 <= u && u <= 90) || (97 <= u && u <= 122) || u == 95
}

/// Characters that may make up an integer token: the minus sign and digits.
pub open spec fn is_int_char(c: char) -> bool {
    c == '-' || is_digit(c)
}

// ---------------------------------------------------------------------------
// Conversions between `&str`, `String` and character vectors
// ---------------------------------------------------------------------------

/// The characters of a string slice.
pub fn chars_of(s: &str) -> (v: Vec<char>)
    ensures
        v@ == s@,
{
    let mut v: Vec<char> = Vec::new();
    for c in it: s.chars()
        invariant
            v@ == it.seq().take(it.index() as int),
    {
        v.push(c);
    }
    v
}

/// Builds a `String` out of characters, with `FromIterator<&char>` of `String`.
#[verifier::external_body]
pub(crate) fn string_of(v: &[char]) -> (s: String)
    ensures
        s@ == v@,
{
    v.iter().collect()
}

// ---------------------------------------------------------------------------
// Trimming
// ---------------------------------------------------------------------------

pub open spec fn trim_start(s: Seq<char>) -> Seq<char>
    decreases s.len(),
{
    if s.len() > 0 && is_ws(s[0]) {
        trim_start(s.drop_first())
    } else {
        s
    }
}

pub open spec fn trim_end(s: Seq<char>) -> Seq<char>
    decreases s.len(),
{
    if s.len() > 0 && is_ws(s.last()) {
        trim_end(s.drop_last())
    } else {
        s
    }
}

/// `s` without leading and trailing whitespace.
pub open spec fn spec_trim(s: Seq<char>) -> Seq<char> {
    trim_end(trim_start(s))
}

/// Trimming never lengthens the text.
pub proof fn lemma_trim_len(s: Seq<char>)
    ensures
        trim_start(s).len() <= s.len(),
        spec_trim(s).len() <= s.len(),
    decreases s.len(),
{
    if s.len() > 0 && is_ws(s[0]) {
        lemma_trim_len(s.drop_first());
    }
    lemma_trim_end_len(trim_start(s));
}

proof fn lemma_trim_end_len(s: Seq<char>)
    ensures
        trim_end(s).len() <= s.len(),
    decreases s.len(),
{
    if s.len() > 0 && is_ws(s.last()) {
        lemma_trim_end_len(s.drop_last());
    }
}

/// Removes leading and trailing whitespace.
pub fn trim(s: &[char]) -> (t: &[char])
    ensures
        t@ == spec_trim(s@),
{
    let mut i: usize = 0;
    assert(s@.subrange(0, s@.len() as int) =~= s@);
    while i < s.len() && is_ws_char(s[i])
        invariant
            i <= s@.len(),
            trim_start(s@) == trim_start(s@.subrange(i as int, s@.len() as int)),
        decreases s@.len() - i,
    {
        assert(s@.subrange(i as int, s@.len() as int).drop_first() =~= s@.subrange(
            i + 1,
            s@.len() as int,
        ));
        i += 1;
    }
    let mut j: usize = s.len();
    while j > i && is_ws_char(s[j - 1])
        invariant
            i <= j <= s@.len(),
            trim_start(s@) == s@.subrange(i as int, s@.len() as int),
            trim_end(trim_start(s@)) == trim_end(s@.subrange(i as int, j as int)),
        decreases j,
    {
        assert(s@.subrange(i as int, j as int).drop_last() =~= s@.subrange(i as int, j - 1));
        j -= 1;
    }
    slice_subrange(s, i, j)
}

// ---------------------------------------------------------------------------
// Lines
// ---------------------------------------------------------------------------

/// Length of the first line of `s`, that is, of the text before the first
/// line feed (or of all of `s` when it holds none).
pub open spec fn line_len(s: Seq<char>) -> nat
    decreases s.len(),
{
    if s.len() == 0 || s[0] == '\n' {
        0
    } else {
        1 + line_len(s.drop_first())
    }
}

pub open spec fn first_line(s: Seq<char>) -> Seq<char> {
    s.take(line_len(s) as int)
}

/// Whether a line feed ends the first line, so that another line follows.
pub open spec fn has_next_line(s: Seq<char>) -> bool {
    line_len(s) < s.len()
}

/// The text after the first line and the line feed that ends it; empty when
/// no line feed ends it.
pub open spec fn after_line(s: Seq<char>) -> Seq<char> {
    if has_next_line(s) {
        s.skip(line_len(s) + 1int)
    } else {
        seq![]
    }
}

pub proof fn lemma_line_len(s: Seq<char>)
    ensures
        line_len(s) <= s.len(),
        forall|i: int| 0 <= i < line_len(s) ==> s[i] != '\n',
        line_len(s) < s.len() ==> s[line_len(s) as int] == '\n',
    decreases s.len(),
{
    if s.len() > 0 && s[0] != '\n' {
        lemma_line_len(s.drop_first());
        assert forall|i: int| 0 <= i < line_len(s) implies s[i] != '\n' by {
            if i > 0 {
                assert(s[i] == s.drop_first()[i - 1]);
            }
        }
    }
}

/// The rest of the text after a line is shorter than the text.
pub proof fn lemma_after_line_len(s: Seq<char>)
    requires
        s.len() > 0,
    ensures
        after_line(s).len() < s.len(),
        first_line(s).len() <= s.len(),
{
    lemma_line_len(s);
}

/// The line that starts at `pos` and ends at `e`, and the text after it.
pub proof fn lemma_line_at(t: Seq<char>, pos: int, e: int)
    requires
        0 <= pos <= e <= t.len(),
        e - pos == line_len(t.skip(pos)),
    ensures
        first_line(t.skip(pos)) == t.subrange(pos, e),
        after_line(t.skip(pos)) == t.skip(
            if e < t.len() {
                e + 1
            } else {
                e
            },
        ),
{
    lemma_line_len(t.skip(pos));
    assert(first_line(t.skip(pos)) =~= t.subrange(pos, e));
    if e < t.len() {
        assert(t.skip(pos).skip(e - pos + 1) =~= t.skip(e + 1));
    } else {
        assert(t.skip(e) =~= seq![]);
    }
}

/// Index of the line feed that ends the line starting at `pos`, or the end of
/// the text.
pub fn line_end(text: &[char], pos: usize) -> (e: usize)
    requires
        pos <= text@.len(),
    ensures
        pos <= e <= text@.len(),
        e - pos == line_len(text@.skip(pos as int)),
{
    let mut j: usize = pos;
    while j < text.len() && text[j] != '\n'
        invariant
            pos <= j <= text@.len(),
            line_len(text@.skip(pos as int)) == (j - pos) + line_len(text@.skip(j as int)),
        decreases text@.len() - j,
    {
        assert(text@.skip(j as int).drop_first() =~= text@.skip(j + 1));
        j += 1;
    }
    j
}

// ---------------------------------------------------------------------------
// Literals
// ---------------------------------------------------------------------------

/// `s` without the prefix `lit`, when `s` starts with `lit`.
pub open spec fn spec_expect(s: Seq<char>, lit: Seq<char>) -> Option<Seq<char>> {
    if lit.len() <= s.len() && s.take(lit.len() as int) == lit {
        Some(s.skip(lit.len() as int))
    } else {
        None
    }
}

/// Whether the characters `s` are the characters of `t`.
pub fn chars_eq(s: &[char], t: &str) -> (b: bool)
    ensures
        b == (s@ == t@),
{
    let tc = chars_of(t);
    if s.len() != tc.len() {
        return false;
    }
    let mut i: usize = 0;
    while i < s.len()
        invariant
            i <= s@.len(),
            s@.len() == tc@.len(),
            tc@ == t@,
            forall|j: int| 0 <= j < i ==> s@[j] == tc@[j],
        decreases s@.len() - i,
    {
        if s[i] != tc[i] {
            assert(s@[i as int] != t@[i as int]);
            return false;
        }
        i += 1;
    }
    assert(s@ =~= tc@);
    true
}

/// Consumes `expected` from the front of `s`; leaves `s` as it is and returns
/// `None` when `s` does not start with it.
pub fn expect(s: &mut &[char], expected: &str) -> (r: Option<()>)
    ensures
        match spec_expect(old(s)@, expected@) {
            Some(rest) => r == Some(()) && final(s)@ == rest,
            None => r is None && final(s)@ == old(s)@,
        },
{
    let e = chars_of(expected);
    if s.len() < e.len() {
        return None;
    }
    let mut i: usize = 0;
    while i < e.len()
        invariant
            i <= e@.len(),
            e@.len() <= s@.len(),
            e@ == expected@,
            s@ == old(s)@,
            forall|j: int| 0 <= j < i ==> s@[j] == e@[j],
        decreases e@.len() - i,
    {
        if s[i] != e[i] {
            assert(s@.take(e@.len() as int)[i as int] != e@[i as int]);
            return None;
        }
        i += 1;
    }
    assert(s@.take(e@.len() as int) =~= e@);
    *s = slice_subrange(*s, e.len(), s.len());
    Some(())
}

/// `result` when nothing is left of `s`, and `None` otherwise.
pub fn expect_end<T>(s: &[char], result: T) -> (r: Option<T>)
    ensures
        r == (if s@.len() == 0 {
            Some(result)
        } else {
            None
        }),
{
    if s.len() == 0 {
        Some(result)
    } else {
        None
    }
}

// ---------------------------------------------------------------------------
// Identifiers
// ---------------------------------------------------------------------------

pub open spec fn ident_tail_len(s: Seq<char>) -> nat
    decreases s.len(),
{
    if s.len() > 0 && is_ident_char(s[0]) {
        1 + ident_tail_len(s.drop_first())
    } else {
        0
    }
}

/// An identifier at the front of `s`: `%` or `@` followed by the longest
/// non-empty run of identifier characters. Gives the identifier and the rest.
pub open spec fn spec_ident(s: Seq<char>) -> Option<(Seq<char>, Seq<char>)> {
    if s.len() > 0 && (s[0] == '%' || s[0] == '@') {
        let n = ident_tail_len(s.drop_first());
        if n > 0 {
            Some((s.take(n + 1int), s.skip(n + 1int)))
        } else {
            None
        }
    } else {
        None
    }
}

pub proof fn lemma_ident_tail_len(s: Seq<char>)
    ensures
        ident_tail_len(s) <= s.len(),
        forall|i: int| 0 <= i < ident_tail_len(s) ==> is_ident_char(#[trigger] s[i]),
        ident_tail_len(s) < s.len() ==> !is_ident_char(s[ident_tail_len(s) as int]),
    decreases s.len(),
{
    if s.len() > 0 && is_ident_char(s[0]) {
        lemma_ident_tail_len(s.drop_first());
        assert forall|i: int| 0 <= i < ident_tail_len(s) implies is_ident_char(#[trigger] s[i]) by {
            if i > 0 {
                assert(s[i] == s.drop_first()[i - 1]);
            }
        }
    }
}

/// Length of the identifier at the front of `s`, 0 when there is none.
pub fn leading_identifier_len(s: &[char]) -> (n: usize)
    ensures
        n == (match spec_ident(s@) {
            Some((name, _)) => name.len() as int,
            None => 0,
        }),
        n <= s@.len(),
{
    if s.len() == 0 || !(s[0] == '%' || s[0] == '@') {
        return 0;
    }
    let mut j: usize = 1;
    while j < s.len() && is_ident_char_exec(s[j])
        invariant
            1 <= j <= s@.len(),
            ident_tail_len(s@.drop_first()) == (j - 1) + ident_tail_len(s@.skip(j as int)),
        decreases s@.len() - j,
    {
        assert(s@.skip(j as int).drop_first() =~= s@.skip(j + 1));
        j += 1;
    }
    assert(s@.drop_first() =~= s@.skip(1));
    if j == 1 {
        0
    } else {
        proof {
            lemma_ident_tail_len(s@.drop_first());
        }
        j
    }
}

// ---------------------------------------------------------------------------
// Decimal integers
// ---------------------------------------------------------------------------

pub open spec fn int_tok_len(s: Seq<char>) -> nat
    decreases s.len(),
{
    if s.len() > 0 && is_int_char(s[0]) {
        1 + int_tok_len(s.drop_first())
    } else {
        0
    }
}

pub proof fn lemma_int_tok_len(s: Seq<char>)
    ensures
        int_tok_len(s) <= s.len(),
        forall|i: int| 0 <= i < int_tok_len(s) ==> is_int_char(#[trigger] s[i]),
        int_tok_len(s) < s.len() ==> !is_int_char(s[int_tok_len(s) as int]),
    decreases s.len(),
{
    if s.len() > 0 && is_int_char(s[0]) {
        lemma_int_tok_len(s.drop_first());
        assert forall|i: int| 0 <= i < int_tok_len(s) implies is_int_char(#[trigger] s[i]) by {
            if i > 0 {
                assert(s[i] == s.drop_first()[i - 1]);
            }
        }
    }
}

pub open spec fn all_digits(d: Seq<char>) -> bool {
    forall|i: int| 0 <= i < d.len() ==> is_digit(#[trigger] d[i])
}

pub open spec fn digit_val(c: char) -> int {
    (c as u32) as int - 48
}

/// The value of a string of decimal digits.
pub open spec fn dec(d: Seq<char>) -> int
    decreases d.len(),
{
    if d.len() == 0 {
        0
    } else {
        dec(d.drop_last()) * 10 + digit_val(d.last())
    }
}

/// What `i64::from_str` gives for a token made of minus signs and digits:
/// an optional leading minus and at least one digit, in range.
pub open spec fn spec_parse_i64(t: Seq<char>) -> Option<i64> {
    if t.len() > 0 && t[0] == '-' {
        let d = t.drop_first();
        if d.len() > 0 && all_digits(d) && dec(d) <= 0x8000_0000_0000_0000 {
            Some((0 - dec(d)) as i64)
        } else {
            None
        }
    } else if t.len() > 0 && all_digits(t) && dec(t) <= 0x7fff_ffff_ffff_ffff {
        Some(dec(t) as i64)
    } else {
        None
    }
}

/// An integer at the front of `s`: the longest run of minus signs and digits,
/// read as an `i64`. Gives the value and the rest.
pub open spec fn spec_int(s: Seq<char>) -> Option<(i64, Seq<char>)> {
    let n = int_tok_len(s);
    if n == 0 {
        None
    } else {
        match spec_parse_i64(s.take(n as int)) {
            Some(v) => Some((v, s.skip(n as int))),
            None => None,
        }
    }
}

pub proof fn lemma_dec_nonneg(d: Seq<char>)
    requires
        all_digits(d),
    ensures
        dec(d) >= 0,
    decreases d.len(),
{
    if d.len() > 0 {
        assert(all_digits(d.drop_last()));
        lemma_dec_nonneg(d.drop_last());
        assert(is_digit(d[d.len() - 1]));
    }
}

/// A digit string is worth at least as much as any of its prefixes.
pub proof fn lemma_dec_prefix(d: Seq<char>, k: int)
    requires
        all_digits(d),
        0 <= k <= d.len(),
    ensures
        dec(d.take(k)) <= dec(d),
    decreases d.len(),
{
    if k < d.len() {
        assert(all_digits(d.drop_last()));
        lemma_dec_prefix(d.drop_last(), k);
        assert(d.drop_last().take(k) =~= d.take(k));
        lemma_dec_nonneg(d.drop_last());
        assert(is_digit(d[d.len() - 1]));
    } else {
        assert(d.take(k) =~= d);
    }
}

/// Reads a token of minus signs and digits as `i64::from_str` does.
fn parse_i64_token(t: &[char]) -> (r: Option<i64>)
    ensures
        r == spec_parse_i64(t@),
{
    let neg = t.len() > 0 && t[0] == '-';
    let start: usize = if neg {
        1
    } else {
        0
    };
    if start >= t.len() {
        return None;
    }
    let limit: u64 = if neg {
        0x8000_0000_0000_0000
    } else {
        0x7fff_ffff_ffff_ffff
    };
    let ghost d = t@.skip(start as int);
    let mut acc: u64 = 0;
    let mut i: usize = start;
    while i < t.len()
        invariant
            start <= i <= t@.len(),
            start < t@.len(),
            d == t@.skip(start as int),
            acc as int == dec(d.take(i - start)),
            acc <= limit,
            neg == (t@.len() > 0 && t@[0] == '-'),
            start == (if neg { 1usize } else { 0usize }),
            limit == (if neg { 0x8000_0000_0000_0000u64 } else { 0x7fff_ffff_ffff_ffffu64 }),
            all_digits(d.take(i - start)),
        decreases t@.len() - i,
    {
        let c = t[i];
        let u = c as u32;
        if !(48 <= u && u <= 57) {
            assert(d[i - start] == c);
            assert(!all_digits(d));
            proof {
                if neg {
                    assert(d =~= t@.drop_first());
                } else {
                    assert(d =~= t@);
                }
            }
            return None;
        }
        assert(d.take(i - start + 1).drop_last() =~= d.take(i - start));
        assert(d.take(i - start + 1).last() == c);
        assert(all_digits(d.take(i - start + 1)));
        let next: u128 = acc as u128 * 10 + (u - 48) as u128;
        if next > limit as u128 {
            proof {
                if all_digits(d) {
                    lemma_dec_prefix(d, i - start + 1);
                }
                if neg {
                    assert(d =~= t@.drop_first());
                } else {
                    assert(d =~= t@);
                }
            }
            return None;
        }
        acc = next as u64;
        i += 1;
    }
    assert(d.take(i - start) =~= d);
    if neg {
        assert(d =~= t@.drop_first());
        if acc == 0x8000_0000_0000_0000 {
            Some(i64::MIN)
        } else {
            Some(-(acc as i64))
        }
    } else {
        assert(d =~= t@);
        Some(acc as i64)
    }
}

/// Consumes an integer from the front of `s`: the longest run of `-` and
/// digits, read as an `i64`. Leaves `s` as it is and returns `None` when that
/// run is empty or is no valid `i64`.
pub fn expect_int(s: &mut &[char]) -> (r: Option<i64>)
    ensures
        match spec_int(old(s)@) {
            Some((v, rest)) => r == Some(v) && final(s)@ == rest,
            None => r is None && final(s)@ == old(s)@,
        },
{
    let mut n: usize = 0;
    assert(s@.skip(0) =~= s@);
    while n < s.len() && (s[n] == '-' || (48 <= (s[n] as u32) && (s[n] as u32) <= 57))
        invariant
            n <= s@.len(),
            int_tok_len(s@) == n + int_tok_len(s@.skip(n as int)),
        decreases s@.len() - n,
    {
        assert(s@.skip(n as int).drop_first() =~= s@.skip(n + 1));
        n += 1;
    }
    if n == 0 {
        return None;
    }
    let tok = slice_subrange(*s, 0, n);
    match parse_i64_token(tok) {
        Some(v) => {
            *s = slice_subrange(*s, n, s.len());
            Some(v)
        },
        None => None,
    }
}

pub open spec fn digit_char(d: int) -> char {
    if d == 0 {
        '0'
    } else if d == 1 {
        '1'
    } else if d == 2 {
        '2'
    } else if d == 3 {
        '3'
    } else if d == 4 {
        '4'
    } else if d == 5 {
        '5'
    } else if d == 6 {
        '6'
    } else if d == 7 {
        '7'
    } else if d == 8 {
        '8'
    } else {
        '9'
    }
}

fn digit_char_exec(d: u64) -> (c: char)
    requires
        d < 10,
    ensures
        c == digit_char(d as int),
{
    if d == 0 {
        '0'
    } else if d == 1 {
        '1'
    } else if d == 2 {
        '2'
    } else if d == 3 {
        '3'
    } else if d == 4 {
        '4'
    } else if d == 5 {
        '5'
    } else if d == 6 {
        '6'
    } else if d == 7 {
        '7'
    } else if d == 8 {
        '8'
    } else {
        '9'
    }
}

/// Decimal digits of `n`, without leading zeros.
pub open spec fn fmt_nat(n: nat) -> Seq<char>
    decreases n,
{
    if n < 10 {
        seq![digit_char(n as int)]
    } else {
        fmt_nat(n / 10) + seq![digit_char((n % 10) as int)]
    }
}

/// The decimal text of `v`, as `Display` of `i64` writes it.
pub open spec fn fmt_i64(v: i64) -> Seq<char> {
    if v < 0 {
        seq!['-'] + fmt_nat((0 - v) as nat)
    } else {
        fmt_nat(v as nat)
    }
}

pub(crate) fn push_nat(out: &mut Vec<char>, n: u64)
    ensures
        final(out)@ == old(out)@ + fmt_nat(n as nat),
    decreases n,
{
    if n >= 10 {
        push_nat(out, n / 10);
    }
    out.push(digit_char_exec(n % 10));
}

/// Appends the decimal text of `v`.
pub fn push_i64(out: &mut Vec<char>, v: i64)
    ensures
        final(out)@ == old(out)@ + fmt_i64(v),
{
    if v < 0 {
        out.push('-');
        let m: u64 = if v == i64::MIN {
            0x8000_0000_0000_0000
        } else {
            (-v) as u64
        };
        push_nat(out, m);
    } else {
        push_nat(out, v as u64);
    }
}

/// Appends the characters of `s`.
pub fn push_str(out: &mut Vec<char>, s: &str)
    ensures
        final(out)@ == old(out)@ + s@,
{
    let mut c = chars_of(s);
    out.append(&mut c);
}

// ---------------------------------------------------------------------------
// Lexicographic order of character strings (the order of `str`)
// ---------------------------------------------------------------------------

pub open spec fn lex_lt(a: Seq<char>, b: Seq<char>) -> bool
    decreases a.len(),
{
    if a.len() == 0 {
        b.len() > 0
    } else if b.len() == 0 {
        false
    } else if a[0] == b[0] {
        lex_lt(a.drop_first(), b.drop_first())
    } else {
        (a[0] as u32) < (b[0] as u32)
    }
}

pub proof fn lemma_lex_irreflexive(a: Seq<char>)
    ensures
        !lex_lt(a, a),
    decreases a.len(),
{
    if a.len() > 0 {
        lemma_lex_irreflexive(a.drop_first());
    }
}

pub proof fn lemma_lex_transitive(a: Seq<char>, b: Seq<char>, c: Seq<char>)
    requires
        lex_lt(a, b),
        lex_lt(b, c),
    ensures
        lex_lt(a, c),
    decreases a.len(),
{
    if a.len() > 0 && b.len() > 0 && c.len() > 0 {
        if a[0] == b[0] && b[0] == c[0] {
            lemma_lex_transitive(a.drop_first(), b.drop_first(), c.drop_first());
        }
    }
}

pub proof fn lemma_lex_total(a: Seq<char>, b: Seq<char>)
    ensures
        a == b || lex_lt(a, b) || lex_lt(b, a),
    decreases a.len(),
{
    if a.len() > 0 && b.len() > 0 {
        if a[0] == b[0] {
            lemma_lex_total(a.drop_first(), b.drop_first());
            if a.drop_first() == b.drop_first() {
                assert(a =~= seq![a[0]] + a.drop_first());
                assert(b =~= seq![b[0]] + b.drop_first());
            }
        } else {
            if (a[0] as u32) == (b[0] as u32) {
                vstd::utf8::char_u32_cast(a[0], a[0] as u32);
                vstd::utf8::char_u32_cast(b[0], b[0] as u32);
                assert(a[0] == b[0]);
            }
        }
    } else if a.len() == 0 && b.len() == 0 {
        assert(a =~= b);
    }
}

pub proof fn lemma_lex_asymmetric(a: Seq<char>, b: Seq<char>)
    requires
        lex_lt(a, b),
    ensures
        !lex_lt(b, a),
{
    if lex_lt(b, a) {
        lemma_lex_transitive(a, b, a);
        lemma_lex_irreflexive(a);
    }
}

/// Whether `a` comes before `b` in the order of `str`.
pub fn lex_less(a: &[char], b: &[char]) -> (r: bool)
    ensures
        r == lex_lt(a@, b@),
{
    let mut i: usize = 0;
    assert(a@.skip(0) =~= a@);
    assert(b@.skip(0) =~= b@);
    while i < a.len() && i < b.len() && a[i] == b[i]
        invariant
            i <= a@.len(),
            i <= b@.len(),
            lex_lt(a@, b@) == lex_lt(a@.skip(i as int), b@.skip(i as int)),
        decreases a@.len() - i,
    {
        assert(a@.skip(i as int).drop_first() =~= a@.skip(i + 1));
        assert(b@.skip(i as int).drop_first() =~= b@.skip(i + 1));
        i += 1;
    }
    if i == a.len() {
        i < b.len()
    } else if i == b.len() {
        false
    } else {
        (a[i] as u32) < (b[i] as u32)
    }
}

// ---------------------------------------------------------------------------
// Reading back what was written
// ---------------------------------------------------------------------------

/// No line feed occurs in `s`.
pub open spec fn no_lf(s: Seq<char>) -> bool {
    forall|i: int| 0 <= i < s.len() ==> s[i] != '\n'
}

/// Leading whitespace does not change what trimming gives.
pub proof fn lemma_trim_start_ws(w: Seq<char>, t: Seq<char>)
    requires
        forall|i: int| 0 <= i < w.len() ==> is_ws(#[trigger] w[i]),
    ensures
        trim_start(w + t) == trim_start(t),
    decreases w.len(),
{
    if w.len() > 0 {
        assert((w + t)[0] == w[0]);
        assert((w + t).drop_first() =~= w.drop_first() + t);
        lemma_trim_start_ws(w.drop_first(), t);
    } else {
        assert(w + t =~= t);
    }
}

/// Text that starts and ends with a character that is no whitespace is its
/// own trimmed form, also after leading whitespace.
pub proof fn lemma_trim_plain(w: Seq<char>, t: Seq<char>)
    requires
        forall|i: int| 0 <= i < w.len() ==> is_ws(#[trigger] w[i]),
        t.len() > 0,
        !is_ws(t[0]),
        !is_ws(t.last()),
    ensures
        spec_trim(w + t) == t,
{
    lemma_trim_start_ws(w, t);
}

/// The length of the first line of text that starts with `a` and no line
/// feed in `a`.
pub proof fn lemma_line_len_concat(a: Seq<char>, b: Seq<char>)
    requires
        no_lf(a),
    ensures
        line_len(a + b) == a.len() + line_len(b),
    decreases a.len(),
{
    if a.len() > 0 {
        assert((a + b)[0] == a[0]);
        assert((a + b).drop_first() =~= a.drop_first() + b);
        lemma_line_len_concat(a.drop_first(), b);
    } else {
        assert(a + b =~= b);
    }
}

/// A line without line feed, ended by one, is the first line; the rest
/// follows it.
pub proof fn lemma_line_split(l: Seq<char>, rest: Seq<char>)
    requires
        no_lf(l),
    ensures
        first_line(l + seq!['\n'] + rest) == l,
        after_line(l + seq!['\n'] + rest) == rest,
{
    let s = l + seq!['\n'] + rest;
    assert(s =~= l + (seq!['\n'] + rest));
    lemma_line_len_concat(l, seq!['\n'] + rest);
    assert((seq!['\n'] + rest)[0] == '\n');
    assert(line_len(seq!['\n'] + rest) == 0);
    assert(first_line(s) =~= l);
    assert(s.skip(l.len() + 1int) =~= rest);
}

/// `s` without the prefix `lit` when `s` starts with it.
pub proof fn lemma_expect_prefix(lit: Seq<char>, rest: Seq<char>)
    ensures
        spec_expect(lit + rest, lit) == Some(rest),
{
    assert((lit + rest).take(lit.len() as int) =~= lit);
    assert((lit + rest).skip(lit.len() as int) =~= rest);
}

/// Text that differs from `l` at position `i` does not start with `l`.
pub proof fn lemma_expect_differs(a: Seq<char>, l: Seq<char>, i: int)
    requires
        0 <= i < a.len(),
        i < l.len(),
        a[i] != l[i],
    ensures
        spec_expect(a, l) is None,
{
    if l.len() <= a.len() {
        assert(a.take(l.len() as int)[i] != l[i]);
    }
}

/// A name as the parser reads it: `%` or `@` followed by at least one ASCII
/// letter, digit or underscore.
pub open spec fn is_identifier(n: Seq<char>) -> bool {
    &&& n.len() >= 2
    &&& (n[0] == '%' || n[0] == '@')
    &&& forall|i: int| 1 <= i < n.len() ==> is_ident_char(#[trigger] n[i])
}

/// A run of identifier characters extends the identifier tail.
proof fn lemma_ident_tail_concat(a: Seq<char>, b: Seq<char>)
    requires
        forall|i: int| 0 <= i < a.len() ==> is_ident_char(#[trigger] a[i]),
    ensures
        ident_tail_len(a + b) == a.len() + ident_tail_len(b),
    decreases a.len(),
{
    if a.len() > 0 {
        assert((a + b)[0] == a[0]);
        assert((a + b).drop_first() =~= a.drop_first() + b);
        lemma_ident_tail_concat(a.drop_first(), b);
    } else {
        assert(a + b =~= b);
    }
}

/// An identifier followed by text that does not continue it is read back.
pub proof fn lemma_ident_read(n: Seq<char>, rest: Seq<char>)
    requires
        is_identifier(n),
        rest.len() == 0 || !is_ident_char(rest[0]),
    ensures
        spec_ident(n + rest) == Some((n, rest)),
{
    let s = n + rest;
    assert(s[0] == n[0]);
    assert(s.drop_first() =~= n.drop_first() + rest);
    lemma_ident_tail_concat(n.drop_first(), rest);
    assert(ident_tail_len(rest) == 0);
    assert(s.take(n.len() as int) =~= n);
    assert(s.skip(n.len() as int) =~= rest);
}

/// Text that starts with neither `%` nor `@` holds no identifier at its front.
pub proof fn lemma_no_ident(s: Seq<char>)
    requires
        s.len() == 0 || (s[0] != '%' && s[0] != '@'),
    ensures
        spec_ident(s) is None,
{
}

/// A run of integer characters extends an integer token.
proof fn lemma_int_tok_concat(a: Seq<char>, b: Seq<char>)
    requires
        forall|i: int| 0 <= i < a.len() ==> is_int_char(#[trigger] a[i]),
    ensures
        int_tok_len(a + b) == a.len() + int_tok_len(b),
    decreases a.len(),
{
    if a.len() > 0 {
        assert((a + b)[0] == a[0]);
        assert((a + b).drop_first() =~= a.drop_first() + b);
        lemma_int_tok_concat(a.drop_first(), b);
    } else {
        assert(a + b =~= b);
    }
}

/// A digit character is worth its digit.
proof fn lemma_digit_char(d: int)
    requires
        0 <= d < 10,
    ensures
        is_digit(digit_char(d)),
        digit_val(digit_char(d)) == d,
{
}

/// The decimal text of a natural number: digits, read back as the number.
pub proof fn lemma_fmt_nat(n: nat)
    ensures
        fmt_nat(n).len() >= 1,
        all_digits(fmt_nat(n)),
        dec(fmt_nat(n)) == n,
    decreases n,
{
    lemma_digit_char((n % 10) as int);
    if n >= 10 {
        lemma_fmt_nat(n / 10);
        let s = fmt_nat(n);
        assert(s.drop_last() =~= fmt_nat(n / 10));
        assert((n / 10) * 10 + n % 10 == n) by (nonlinear_arith);
        assert(s.last() == digit_char((n % 10) as int));
        assert(dec(s) == dec(s.drop_last()) * 10 + digit_val(s.last()));
        assert(all_digits(s)) by {
            assert forall|i: int| 0 <= i < s.len() implies is_digit(#[trigger] s[i]) by {
                if i < s.len() - 1 {
                    assert(s[i] == fmt_nat(n / 10)[i]);
                }
            }
        }
    } else {
        let s = fmt_nat(n);
        assert(s.drop_last() =~= Seq::<char>::empty());
        assert(dec(s) == dec(s.drop_last()) * 10 + digit_val(s.last()));
    }
}

/// The decimal text of an `i64` is an integer token that reads back as it.
pub proof fn lemma_fmt_i64(v: i64)
    ensures
        fmt_i64(v).len() >= 1,
        forall|i: int| 0 <= i < fmt_i64(v).len() ==> is_int_char(#[trigger] fmt_i64(v)[i]),
        is_digit(fmt_i64(v).last()),
        spec_parse_i64(fmt_i64(v)) == Some(v),
{
    if v < 0 {
        let m = (0 - v) as nat;
        lemma_fmt_nat(m);
        let s = fmt_i64(v);
        assert(s.drop_first() =~= fmt_nat(m));
        assert forall|i: int| 0 <= i < s.len() implies is_int_char(#[trigger] s[i]) by {
            if i > 0 {
                assert(s[i] == fmt_nat(m)[i - 1]);
            }
        }
        assert(s.last() == fmt_nat(m).last());
    } else {
        lemma_fmt_nat(v as nat);
    }
}

/// The decimal text of an `i64`, followed by text that does not continue the
/// token, is read back.
pub proof fn lemma_int_read(v: i64, rest: Seq<char>)
    requires
        rest.len() == 0 || !is_int_char(rest[0]),
    ensures
        spec_int(fmt_i64(v) + rest) == Some((v, rest)),
{
    lemma_fmt_i64(v);
    let s = fmt_i64(v) + rest;
    lemma_int_tok_concat(fmt_i64(v), rest);
    assert(int_tok_len(rest) == 0);
    assert(s.take(fmt_i64(v).len() as int) =~= fmt_i64(v));
    assert(s.skip(fmt_i64(v).len() as int) =~= rest);
}

/// Line `k` of the text, counting from 0.
pub open spec fn nth_line(s: Seq<char>, k: nat) -> Seq<char>
    decreases k,
{
    if k == 0 {
        first_line(s)
    } else {
        nth_line(after_line(s), (k - 1) as nat)
    }
}

/// The lines of text that starts with a line and a line feed.
pub proof fn lemma_nth_line_split(l: Seq<char>, rest: Seq<char>, k: nat)
    requires
        no_lf(l),
    ensures
        nth_line(l + seq!['\n'] + rest, 0) == l,
        nth_line(l + seq!['\n'] + rest, k + 1) == nth_line(rest, k),
{
    lemma_line_split(l, rest);
}

/// An ASCII letter, upper or lower case.
pub open spec fn is_ascii_letter(c: char) -> bool {
    ('a' <= c && c <= 'z') || ('A' <= c && c <= 'Z')
}

/// An ASCII decimal digit.
pub open spec fn is_ascii_digit(c: char) -> bool {
    '0' <= c && c <= '9'
}

/// Law: the characters that may follow `%` or `@` in an identifier are
/// exactly the ASCII letters, the ASCII digits and `_`.
pub proof fn law_ident_chars(c: char)
    ensures
        is_ident_char(c) <==> is_ascii_letter(c) || is_ascii_digit(c) || c == '_',
{
}

/// Law: an identifier at the front of a text is `%` or `@` followed by the
/// longest run of ASCII letters, digits and `_`, which must not be empty; it
/// is read as such, and the text after it is left.
pub proof fn law_ident_read(p: char, w: Seq<char>, rest: Seq<char>)
    requires
        p == '%' || p == '@',
        w.len() > 0,
        forall|i: int|
            0 <= i < w.len() ==> is_ascii_letter(#[trigger] w[i]) || is_ascii_digit(w[i]) || w[i]
                == '_',
        rest.len() > 0 ==> !(is_ascii_letter(rest[0]) || is_ascii_digit(rest[0]) || rest[0] == '_'),
    ensures
        spec_ident(seq![p] + w + rest) == Some((seq![p] + w, rest)),
{
    let n = seq![p] + w;
    assert forall|i: int| 1 <= i < n.len() implies is_ident_char(#[trigger] n[i]) by {
        assert(n[i] == w[i - 1]);
        law_ident_chars(w[i - 1]);
    }
    if rest.len() > 0 {
        law_ident_chars(rest[0]);
    }
    lemma_ident_read(n, rest);
}

/// Law: no identifier is read from a text that does not start with `%` or
/// `@` followed by an ASCII letter, digit or `_`.
pub proof fn law_ident_none(s: Seq<char>)
    requires
        s.len() < 2 || !(s[0] == '%' || s[0] == '@') || !(is_ascii_letter(s[1]) || is_ascii_digit(
            s[1],
        ) || s[1] == '_'),
    ensures
        spec_ident(s) is None,
{
    if s.len() >= 2 {
        law_ident_chars(s[1]);
        assert(s.drop_first()[0] == s[1]);
    }
}

/// `a` comes before `b` in the order of `str`: either `a` is a proper prefix
/// of `b`, or at the first position where they differ the character of `a`
/// is the smaller.
pub open spec fn str_before(a: Seq<char>, b: Seq<char>) -> bool {
    ||| (a.len() < b.len() && b.take(a.len() as int) == a)
    ||| exists|i: int|
        0 <= i < a.len() && i < b.len() && #[trigger] a.take(i) == b.take(i) && (a[i] as u32) < (
        b[i] as u32)
}

/// Law: the order in which names are compared, and constants sorted, is the
/// order of `str`: a proper prefix comes before each of its extensions, and
/// otherwise the first differing character decides.
pub proof fn law_lex_is_str_order(a: Seq<char>, b: Seq<char>)
    ensures
        lex_lt(a, b) <==> str_before(a, b),
    decreases a.len(),
{
    if a.len() == 0 {
        assert(b.take(0) =~= a);
    } else if b.len() == 0 {
    } else if a[0] == b[0] {
        let a1 = a.drop_first();
        let b1 = b.drop_first();
        law_lex_is_str_order(a1, b1);
        // The prefix case.
        if a.len() < b.len() {
            if b.take(a.len() as int) == a {
                assert(b1.take(a1.len() as int) =~= a1) by {
                    assert forall|j: int| 0 <= j < a1.len() implies #[trigger] b1.take(a1.len() as int)[j]
                        == a1[j] by {
                        assert(b.take(a.len() as int)[j + 1] == a[j + 1]);
                    }
                }
            }
            if b1.take(a1.len() as int) == a1 {
                assert(b.take(a.len() as int) =~= a) by {
                    assert forall|j: int| 0 <= j < a.len() implies #[trigger] b.take(a.len() as int)[j]
                        == a[j] by {
                        if j > 0 {
                            assert(b1.take(a1.len() as int)[j - 1] == a1[j - 1]);
                        }
                    }
                }
            }
        }
        // The case of a first difference.
        if exists|i: int|
            0 <= i < a.len() && i < b.len() && #[trigger] a.take(i) == b.take(i) && (a[i] as u32)
                < (b[i] as u32) {
            let i = choose|i: int|
                0 <= i < a.len() && i < b.len() && #[trigger] a.take(i) == b.take(i) && (
                a[i] as u32) < (b[i] as u32);
            assert(i > 0);
            assert(a1.take(i - 1) =~= b1.take(i - 1)) by {
                assert forall|j: int| 0 <= j < i - 1 implies #[trigger] a1.take(i - 1)[j] == b1.take(i - 1)[j] by {
                    assert(a.take(i)[j + 1] == b.take(i)[j + 1]);
                }
            }
            assert(a1[i - 1] == a[i] && b1[i - 1] == b[i]);
        }
        if exists|i: int|
            0 <= i < a1.len() && i < b1.len() && #[trigger] a1.take(i) == b1.take(i) && (
            a1[i] as u32) < (b1[i] as u32) {
            let i = choose|i: int|
                0 <= i < a1.len() && i < b1.len() && #[trigger] a1.take(i) == b1.take(i) && (
                a1[i] as u32) < (b1[i] as u32);
            assert(a.take(i + 1) =~= b.take(i + 1)) by {
                assert forall|j: int| 0 <= j < i + 1 implies #[trigger] a.take(i + 1)[j] == b.take(i + 1)[j] by {
                    if j > 0 {
                        assert(a1.take(i)[j - 1] == b1.take(i)[j - 1]);
                    }
                }
            }
            assert(a[i + 1] == a1[i] && b[i + 1] == b1[i]);
        }
    } else {
        assert(a.take(0) =~= b.take(0));
        if a.len() < b.len() && b.take(a.len() as int) == a {
            assert(b.take(a.len() as int)[0] == a[0]);
        }
        if exists|i: int|
            0 <= i < a.len() && i < b.len() && #[trigger] a.take(i) == b.take(i) && (a[i] as u32)
                < (b[i] as u32) {
            let i = choose|i: int|
                0 <= i < a.len() && i < b.len() && #[trigger] a.take(i) == b.take(i) && (
                a[i] as u32) < (b[i] as u32);
            if i > 0 {
                assert(a.take(i)[0] == b.take(i)[0]);
            }
        }
    }
}

} // verus!
