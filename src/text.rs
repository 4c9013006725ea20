//! The textual form of derived type variables and constraints:
//!
//! ```text
//! constraint       := derived_type_var ("<=" | "⊑") derived_type_var
//! derived_type_var := identifier ("." field_label)*
//! field_label      := "in_"<uint> | "out_"<uint> | "out"
//!                   | "σ"<uint> "@" <int> ["*[" ("nullterm" | "nobound" | <uint>) "]"]
//!                   | "load" | "store"
//! ```
//!
//! Parsers read as much as the grammar allows from the start of their input and
//! hand back the rest.

use crate::schema::{Bound, Constraint, ConstraintView, DerivedTypeVariable, DtvView, FieldLabel};
use vstd::prelude::*;
use vstd::string::StrSliceExecFns;

verus! {

// ---------------------------------------------------------------- characters

pub open spec fn is_digit(c: char) -> bool {
    '0' <= c && c <= '9'
}

pub open spec fn digit_val(c: char) -> int {
    (c as u32) as int - ('0' as u32) as int
}

/// The characters that `char::is_whitespace` accepts (Unicode White_Space).
pub open spec fn is_space(c: char) -> bool {
    c == ' ' || ('\t' <= c && c <= '\r') || c == '\u{85}' || c == '\u{a0}' || c == '\u{1680}' || ('\u{2000}' <= c
        && c <= '\u{200a}') || c == '\u{2028}' || c == '\u{2029}' || c == '\u{202f}' || c == '\u{205f}' || c
        == '\u{3000}'
}

/// The characters that separate the parts of a constraint: space, tab, line feed,
/// carriage return.
pub open spec fn is_gap(c: char) -> bool {
    c == ' ' || c == '\t' || c == '\n' || c == '\r'
}

/// Characters allowed in a base name.
pub open spec fn is_name_char(c: char) -> bool {
    !is_space(c) && c != '.'
}

fn is_space_exec(c: char) -> (r: bool)
    ensures
        r == is_space(c),
{
    c == ' ' || ('\t' <= c && c <= '\r') || c == '\u{85}' || c == '\u{a0}' || c == '\u{1680}' || ('\u{2000}' <= c
        && c <= '\u{200a}') || c == '\u{2028}' || c == '\u{2029}' || c == '\u{202f}' || c == '\u{205f}' || c
        == '\u{3000}'
}

// ---------------------------------------------------------------- spec parsers

/// Whether `t` stands in `s` at position `i`.
pub open spec fn lit_at(s: Seq<char>, i: int, t: Seq<char>) -> bool {
    0 <= i && i + t.len() <= s.len() && s.subrange(i, i + t.len()) == t
}

/// End of the run of digits that starts at `i`.
pub open spec fn digits_end(s: Seq<char>, i: int) -> int
    decreases s.len() - i,
{
    if 0 <= i < s.len() && is_digit(s[i]) {
        digits_end(s, i + 1)
    } else {
        i
    }
}

/// Decimal value of the digits `s[i..j]`.
pub open spec fn digits_value(s: Seq<char>, i: int, j: int) -> int
    decreases j - i,
{
    if j <= i {
        0
    } else {
        digits_value(s, i, j - 1) * 10 + digit_val(s[j - 1])
    }
}

/// An unsigned number at `i`: at least one digit, and a value that fits `u32`.
pub open spec fn u32_at(s: Seq<char>, i: int) -> Option<(u32, int)> {
    let e = digits_end(s, i);
    let v = digits_value(s, i, e);
    if 0 <= i && e > i && v <= u32::MAX {
        Some((v as u32, e))
    } else {
        None
    }
}

/// A signed number at `i`: an optional minus, at least one digit, and a value that
/// fits `i32`.
pub open spec fn i32_at(s: Seq<char>, i: int) -> Option<(i32, int)> {
    let neg = 0 <= i < s.len() && s[i] == '-';
    let st = if neg { i + 1 } else { i };
    let e = digits_end(s, st);
    let v = digits_value(s, st, e);
    if 0 <= i && e > st && (if neg { v <= 0x8000_0000 } else { v <= 0x7fff_ffff }) {
        Some(((if neg { -v } else { v }) as i32, e))
    } else {
        None
    }
}

/// The optional bound `*[...]` at `i`; no bound, and nothing read, when it is not
/// there in full.
pub open spec fn bound_at(s: Seq<char>, i: int) -> (Option<Bound>, int) {
    if lit_at(s, i, seq!['*', '[']) {
        let j = i + 2;
        let inner: Option<(Bound, int)> = if lit_at(s, j, seq!['n', 'u', 'l', 'l', 't', 'e', 'r', 'm']) {
            Some((Bound::NullTerm, j + 8))
        } else if lit_at(s, j, seq!['n', 'o', 'b', 'o', 'u', 'n', 'd']) {
            Some((Bound::NoBound, j + 7))
        } else {
            match u32_at(s, j) {
                Some((k, e)) => Some((Bound::Fixed(k), e)),
                None => None,
            }
        };
        match inner {
            Some((b, k)) => if lit_at(s, k, seq![']']) {
                (Some(b), k + 1)
            } else {
                (None, i)
            },
            None => (None, i),
        }
    } else {
        (None, i)
    }
}

/// The dereference label at `i`, after its `σ`.
pub open spec fn deref_at(s: Seq<char>, i: int) -> Option<(FieldLabel, int)> {
    match u32_at(s, i) {
        Some((size, e1)) => if lit_at(s, e1, seq!['@']) {
            match i32_at(s, e1 + 1) {
                Some((offset, e2)) => {
                    let (bound, e3) = bound_at(s, e2);
                    Some((FieldLabel::DerefPattern { size, offset, bound }, e3))
                },
                None => None,
            }
        } else {
            None
        },
        None => None,
    }
}

/// The field label at `i`, trying the forms in the grammar's order.
pub open spec fn label_at(s: Seq<char>, i: int) -> Option<(FieldLabel, int)> {
    if lit_at(s, i, seq!['i', 'n', '_']) && u32_at(s, i + 3) is Some {
        Some((FieldLabel::InPattern(u32_at(s, i + 3)->Some_0.0), u32_at(s, i + 3)->Some_0.1))
    } else if lit_at(s, i, seq!['o', 'u', 't', '_']) && u32_at(s, i + 4) is Some {
        Some((FieldLabel::OutPattern(u32_at(s, i + 4)->Some_0.0), u32_at(s, i + 4)->Some_0.1))
    } else if lit_at(s, i, seq!['o', 'u', 't']) {
        Some((FieldLabel::OutPattern(0), i + 3))
    } else if lit_at(s, i, seq!['σ']) && deref_at(s, i + 1) is Some {
        deref_at(s, i + 1)
    } else if lit_at(s, i, seq!['l', 'o', 'a', 'd']) {
        Some((FieldLabel::Load, i + 4))
    } else if lit_at(s, i, seq!['s', 't', 'o', 'r', 'e']) {
        Some((FieldLabel::Store, i + 5))
    } else {
        None
    }
}

/// The labels `.l1.l2...` at `i`, as many as parse.
pub open spec fn labels_at(s: Seq<char>, i: int) -> (Seq<FieldLabel>, int)
    decreases s.len() - i,
{
    if 0 <= i < s.len() && s[i] == '.' && label_at(s, i + 1) is Some && label_at(s, i + 1)->Some_0.1 > i
        && label_at(s, i + 1)->Some_0.1 <= s.len() {
        let (l, e) = label_at(s, i + 1)->Some_0;
        let (rest, e2) = labels_at(s, e);
        (seq![l] + rest, e2)
    } else {
        (Seq::empty(), i)
    }
}

/// End of the base name that starts at `i`.
pub open spec fn name_end(s: Seq<char>, i: int) -> int
    decreases s.len() - i,
{
    if 0 <= i < s.len() && is_name_char(s[i]) {
        name_end(s, i + 1)
    } else {
        i
    }
}

/// The derived type variable at `i`: a non-empty name and its labels.
pub open spec fn dtv_at(s: Seq<char>, i: int) -> Option<(DtvView, int)> {
    let e = name_end(s, i);
    if 0 <= i && e > i {
        let (ls, e2) = labels_at(s, e);
        Some(((s.subrange(i, e), ls), e2))
    } else {
        None
    }
}

/// End of the run of gap characters that starts at `i`.
pub open spec fn gaps_end(s: Seq<char>, i: int) -> int
    decreases s.len() - i,
{
    if 0 <= i < s.len() && is_gap(s[i]) {
        gaps_end(s, i + 1)
    } else {
        i
    }
}

/// The constraint at the start of `s`.
pub open spec fn constraint_at(s: Seq<char>) -> Option<(ConstraintView, int)> {
    match dtv_at(s, 0) {
        Some((l, e1)) => {
            let p = gaps_end(s, e1);
            let q = if lit_at(s, p, seq!['<', '=']) {
                p + 2
            } else if lit_at(s, p, seq!['⊑']) {
                p + 1
            } else {
                -1
            };
            if q < 0 {
                None
            } else {
                match dtv_at(s, gaps_end(s, q)) {
                    Some((r, e2)) => Some(((l, r), e2)),
                    None => None,
                }
            }
        },
        None => None,
    }
}

// ---------------------------------------------------------------- readers

/// The characters of `input`.
fn chars_of(input: &str) -> (v: Vec<char>)
    ensures
        v@ == input@,
{
    let n = input.unicode_len();
    let mut v: Vec<char> = Vec::new();
    let mut i: usize = 0;
    while i < n
        invariant
            n == input@.len(),
            i <= n,
            v@ == input@.subrange(0, i as int),
        decreases n - i,
    {
        v.push(input.get_char(i));
        i = i + 1;
        assert(v@ =~= input@.subrange(0, i as int));
    }
    assert(v@ =~= input@);
    v
}

/// Whether `t` stands in `s` at `i`.
fn lit_exec(s: &Vec<char>, i: usize, t: &Vec<char>) -> (r: bool)
    ensures
        r == lit_at(s@, i as int, t@),
{
    if t.len() > s.len() || i > s.len() - t.len() {
        return false;
    }
    let n = s.len();
    let mut k: usize = 0;
    while k < t.len()
        invariant
            n == s@.len(),
            i + t@.len() <= s@.len(),
            k <= t@.len(),
            forall|q: int| 0 <= q < k ==> s@[i + q] == t@[q],
        decreases t@.len() - k,
    {
        if s[i + k] != t[k] {
            assert(s@.subrange(i as int, i + t@.len())[k as int] != t@[k as int]);
            return false;
        }
        k = k + 1;
    }
    assert(s@.subrange(i as int, i + t@.len()) =~= t@);
    true
}

proof fn lemma_digits_value_grows(s: Seq<char>, i: int, j: int)
    requires
        i <= j,
        forall|k: int| i <= k < j ==> is_digit(#[trigger] s[k]),
    ensures
        digits_value(s, i, j) >= 0,
        forall|k: int| i <= k <= j ==> digits_value(s, i, k) <= #[trigger] digits_value(s, i, j),
    decreases j - i,
{
    if j > i {
        lemma_digits_value_grows(s, i, j - 1);
        assert forall|k: int| i <= k <= j implies digits_value(s, i, k) <= #[trigger] digits_value(s, i, j) by {
            if k < j {
                assert(digits_value(s, i, k) <= digits_value(s, i, j - 1));
            }
        }
    }
}

proof fn lemma_digits_end(s: Seq<char>, i: int)
    requires
        0 <= i <= s.len(),
    ensures
        i <= digits_end(s, i) <= s.len(),
        forall|k: int| i <= k < digits_end(s, i) ==> is_digit(#[trigger] s[k]),
        digits_end(s, i) < s.len() ==> !is_digit(s[digits_end(s, i)]),
    decreases s.len() - i,
{
    if i < s.len() && is_digit(s[i]) {
        lemma_digits_end(s, i + 1);
    }
}

/// The digit run at `i`: its end, and its value unless it exceeds `2^32`.
fn number_at(s: &Vec<char>, i: usize) -> (r: (usize, u64, bool))
    requires
        i <= s@.len(),
    ensures
        r.0 as int == digits_end(s@, i as int),
        !r.2 ==> r.1 as int == digits_value(s@, i as int, r.0 as int) && r.1 <= 0x1_0000_0000,
        r.2 ==> digits_value(s@, i as int, r.0 as int) > 0x1_0000_0000,
{
    proof {
        lemma_digits_end(s@, i as int);
    }
    let mut j: usize = i;
    let mut v: u64 = 0;
    let mut big = false;
    while j < s.len() && '0' <= s[j] && s[j] <= '9'
        invariant
            i <= j <= s@.len(),
            j <= digits_end(s@, i as int),
            digits_end(s@, j as int) == digits_end(s@, i as int),
            forall|k: int| i <= k < j ==> is_digit(#[trigger] s@[k]),
            !big ==> v as int == digits_value(s@, i as int, j as int) && v <= 0x1_0000_0000,
            big ==> digits_value(s@, i as int, j as int) > 0x1_0000_0000,
        decreases s@.len() - j,
    {
        let d = (s[j] as u32 - '0' as u32) as u64;
        proof {
            lemma_digits_value_grows(s@, i as int, j + 1);
            lemma_digits_end(s@, j + 1);
        }
        if !big {
            if v > 0x1999_9999 || v * 10 + d > 0x1_0000_0000 {
                big = true;
            } else {
                v = v * 10 + d;
            }
        }
        j = j + 1;
    }
    (j, v, big)
}

/// Reads an unsigned number at `i`.
fn u32_exec(s: &Vec<char>, i: usize) -> (r: Option<(u32, usize)>)
    requires
        i <= s@.len(),
    ensures
        r matches Some((v, e)) ==> u32_at(s@, i as int) == Some((v, e as int)) && i < e <= s@.len(),
        r is None ==> u32_at(s@, i as int) is None,
{
    proof {
        lemma_u32_within(s@, i as int);
    }
    let (e, v, big) = number_at(s, i);
    if e > i && !big && v <= 0xffff_ffff {
        Some((v as u32, e))
    } else {
        None
    }
}

/// Reads a signed number at `i`.
fn i32_exec(s: &Vec<char>, i: usize) -> (r: Option<(i32, usize)>)
    requires
        i <= s@.len(),
    ensures
        r matches Some((v, e)) ==> i32_at(s@, i as int) == Some((v, e as int)) && i < e <= s@.len(),
        r is None ==> i32_at(s@, i as int) is None,
{
    proof {
        lemma_i32_within(s@, i as int);
    }
    let neg = i < s.len() && s[i] == '-';
    let st = if neg { i + 1 } else { i };
    let (e, v, big) = number_at(s, st);
    if e > st && !big {
        if neg && v <= 0x8000_0000 {
            let w = (0 - (v as i64)) as i32;
            return Some((w, e));
        } else if !neg && v <= 0x7fff_ffff {
            return Some((v as i32, e));
        }
    }
    None
}

/// Reads the optional bound at `i`.
fn bound_exec(s: &Vec<char>, i: usize) -> (r: (Option<Bound>, usize))
    requires
        i <= s@.len(),
    ensures
        (r.0, r.1 as int) == bound_at(s@, i as int),
{
    let _len = s.len();
    let open = vec!['*', '['];
    let nullterm = vec!['n', 'u', 'l', 'l', 't', 'e', 'r', 'm'];
    let nobound = vec!['n', 'o', 'b', 'o', 'u', 'n', 'd'];
    let close = vec![']'];
    assert(open@ == seq!['*', '[']);
    assert(nullterm@ == seq!['n', 'u', 'l', 'l', 't', 'e', 'r', 'm']);
    assert(nobound@ == seq!['n', 'o', 'b', 'o', 'u', 'n', 'd']);
    assert(close@ == seq![']']);
    if !lit_exec(s, i, &open) {
        return (None, i);
    }
    let j = i + 2;
    let inner: Option<(Bound, usize)> = if lit_exec(s, j, &nullterm) {
        Some((Bound::NullTerm, j + 8))
    } else if lit_exec(s, j, &nobound) {
        Some((Bound::NoBound, j + 7))
    } else {
        match u32_exec(s, j) {
            Some((k, e)) => Some((Bound::Fixed(k), e)),
            None => None,
        }
    };
    match inner {
        Some((b, k)) => {
            if lit_exec(s, k, &close) {
                (Some(b), k + 1)
            } else {
                (None, i)
            }
        },
        None => (None, i),
    }
}

/// Reads a field label at `i`.
fn label_exec(s: &Vec<char>, i: usize) -> (r: Option<(FieldLabel, usize)>)
    requires
        i <= s@.len(),
    ensures
        r matches Some((l, e)) ==> label_at(s@, i as int) == Some((l, e as int)),
        r is None ==> label_at(s@, i as int) is None,
{
    let _len = s.len();
    let t_in = vec!['i', 'n', '_'];
    let t_out_ = vec!['o', 'u', 't', '_'];
    let t_out = vec!['o', 'u', 't'];
    let t_sigma = vec!['σ'];
    let t_at = vec!['@'];
    let t_load = vec!['l', 'o', 'a', 'd'];
    let t_store = vec!['s', 't', 'o', 'r', 'e'];
    assert(t_in@ == seq!['i', 'n', '_']);
    assert(t_out_@ == seq!['o', 'u', 't', '_']);
    assert(t_out@ == seq!['o', 'u', 't']);
    assert(t_sigma@ == seq!['σ']);
    assert(t_at@ == seq!['@']);
    assert(t_load@ == seq!['l', 'o', 'a', 'd']);
    assert(t_store@ == seq!['s', 't', 'o', 'r', 'e']);
    if lit_exec(s, i, &t_in) {
        if let Some((n, e)) = u32_exec(s, i + 3) {
            return Some((FieldLabel::InPattern(n), e));
        }
    }
    if lit_exec(s, i, &t_out_) {
        if let Some((n, e)) = u32_exec(s, i + 4) {
            return Some((FieldLabel::OutPattern(n), e));
        }
    }
    if lit_exec(s, i, &t_out) {
        return Some((FieldLabel::OutPattern(0), i + 3));
    }
    if lit_exec(s, i, &t_sigma) {
        if let Some((size, e1)) = u32_exec(s, i + 1) {
            if lit_exec(s, e1, &t_at) {
                if let Some((offset, e2)) = i32_exec(s, e1 + 1) {
                    let (bound, e3) = bound_exec(s, e2);
                    return Some((FieldLabel::DerefPattern { size, offset, bound }, e3));
                }
            }
        }
    }
    if lit_exec(s, i, &t_load) {
        return Some((FieldLabel::Load, i + 4));
    }
    if lit_exec(s, i, &t_store) {
        return Some((FieldLabel::Store, i + 5));
    }
    None
}

proof fn lemma_u32_within(s: Seq<char>, i: int)
    requires
        0 <= i,
    ensures
        u32_at(s, i) matches Some((_, e)) ==> i < e <= s.len(),
{
    if i <= s.len() {
        lemma_digits_end(s, i);
    }
}

proof fn lemma_i32_within(s: Seq<char>, i: int)
    requires
        0 <= i,
    ensures
        i32_at(s, i) matches Some((_, e)) ==> i < e <= s.len(),
{
    if i < s.len() && s[i] == '-' {
        lemma_digits_end(s, i + 1);
    } else if i <= s.len() {
        lemma_digits_end(s, i);
    }
}

proof fn lemma_bound_within(s: Seq<char>, i: int)
    requires
        0 <= i <= s.len(),
    ensures
        i <= bound_at(s, i).1 <= s.len(),
{
    if lit_at(s, i, seq!['*', '[']) {
        lemma_u32_within(s, i + 2);
    }
}

proof fn lemma_label_within(s: Seq<char>, i: int)
    requires
        0 <= i <= s.len(),
    ensures
        label_at(s, i) matches Some((l, e)) ==> i < e <= s.len(),
{
    lemma_u32_within(s, i + 3);
    lemma_u32_within(s, i + 4);
    lemma_u32_within(s, i + 1);
    if lit_at(s, i, seq!['σ']) && deref_at(s, i + 1) is Some {
        let e1 = u32_at(s, i + 1)->Some_0.1;
        lemma_i32_within(s, e1 + 1);
        let e2 = i32_at(s, e1 + 1)->Some_0.1;
        lemma_bound_within(s, e2);
    }
}

/// Reads `.label` repeatedly from `i`, as long as labels parse.
fn labels_exec(s: &Vec<char>, i: usize) -> (r: (Vec<FieldLabel>, usize))
    requires
        i <= s@.len(),
    ensures
        (r.0@, r.1 as int) == labels_at(s@, i as int),
    decreases s@.len() - i,
{
    let _len = s.len();
    if i < s.len() && s[i] == '.' {
        proof {
            lemma_label_within(s@, i + 1);
        }
        if let Some((l, e)) = label_exec(s, i + 1) {
            let (rest, e2) = labels_exec(s, e);
            let mut out: Vec<FieldLabel> = Vec::new();
            out.push(l);
            let mut k: usize = 0;
            while k < rest.len()
                invariant
                    k <= rest@.len(),
                    out@ == seq![l] + rest@.subrange(0, k as int),
                decreases rest@.len() - k,
            {
                out.push(rest[k]);
                k = k + 1;
                assert(out@ =~= seq![l] + rest@.subrange(0, k as int));
            }
            assert(rest@.subrange(0, k as int) =~= rest@);
            return (out, e2);
        }
    }
    (Vec::new(), i)
}

/// End of the base name at `i`.
fn name_exec(s: &Vec<char>, i: usize) -> (e: usize)
    requires
        i <= s@.len(),
    ensures
        e as int == name_end(s@, i as int),
        i <= e <= s@.len(),
{
    let mut j = i;
    while j < s.len() && !is_space_exec(s[j]) && s[j] != '.'
        invariant
            i <= j <= s@.len(),
            name_end(s@, j as int) == name_end(s@, i as int),
        decreases s@.len() - j,
    {
        j = j + 1;
    }
    j
}

/// End of the gap characters at `i`.
fn gaps_exec(s: &Vec<char>, i: usize) -> (e: usize)
    requires
        i <= s@.len(),
    ensures
        e as int == gaps_end(s@, i as int),
        i <= e <= s@.len(),
{
    let mut j = i;
    while j < s.len() && (s[j] == ' ' || s[j] == '\t' || s[j] == '\n' || s[j] == '\r')
        invariant
            i <= j <= s@.len(),
            gaps_end(s@, j as int) == gaps_end(s@, i as int),
        decreases s@.len() - j,
    {
        j = j + 1;
    }
    j
}

/// Copies `s[i..j]`.
fn copy_range(s: &Vec<char>, i: usize, j: usize) -> (r: Vec<char>)
    requires
        i <= j <= s@.len(),
    ensures
        r@ == s@.subrange(i as int, j as int),
{
    let mut r: Vec<char> = Vec::new();
    let mut k = i;
    while k < j
        invariant
            i <= k <= j <= s@.len(),
            r@ == s@.subrange(i as int, k as int),
        decreases j - k,
    {
        r.push(s[k]);
        k = k + 1;
        assert(r@ =~= s@.subrange(i as int, k as int));
    }
    r
}

/// Relies on `String: FromIterator<char>`: the string of exactly these characters.
#[verifier::external_body]
fn string_of(chars: &Vec<char>) -> (r: String)
    ensures
        r@ == chars@,
{
    chars.iter().collect()
}

/// Reads a derived type variable at `i`.
fn dtv_exec(s: &Vec<char>, i: usize) -> (r: Option<(DerivedTypeVariable, usize)>)
    requires
        i <= s@.len(),
    ensures
        r matches Some((d, e)) ==> dtv_at(s@, i as int) == Some((d@, e as int)) && e <= s@.len(),
        r is None ==> dtv_at(s@, i as int) is None,
{
    let e = name_exec(s, i);
    if e == i {
        return None;
    }
    let name = string_of(&copy_range(s, i, e));
    let (fields, e2) = labels_exec(s, e);
    proof {
        lemma_labels_within(s@, e as int);
    }
    Some((DerivedTypeVariable { name, fields }, e2))
}

proof fn lemma_labels_within(s: Seq<char>, i: int)
    requires
        0 <= i <= s.len(),
    ensures
        i <= labels_at(s, i).1 <= s.len(),
    decreases s.len() - i,
{
    if 0 <= i < s.len() && s[i] == '.' && label_at(s, i + 1) is Some && label_at(s, i + 1)->Some_0.1 > i
        && label_at(s, i + 1)->Some_0.1 <= s.len() {
        lemma_labels_within(s, label_at(s, i + 1)->Some_0.1);
    }
}

/// Why a text did not parse.
#[derive(PartialEq, Eq, Structural, Clone, Copy, Debug)]
pub enum ParseError {
    /// The text does not start with what the grammar asks for.
    Mismatch,
}

/// Reads a derived type variable from the start of `input`; returns the rest of
/// the text and the variable.
pub fn parse_derived_type_variable(input: &str) -> (r: Result<(String, DerivedTypeVariable), ParseError>)
    ensures
        dtv_at(input@, 0) is None <==> r is Err,
        r matches Ok((rest, d)) ==> dtv_at(input@, 0) == Some((d@, input@.len() - rest@.len())) && rest@
            == input@.subrange(input@.len() - rest@.len(), input@.len() as int),
{
    let s = chars_of(input);
    match dtv_exec(&s, 0) {
        Some((d, e)) => {
            let rest = string_of(&copy_range(&s, e, s.len()));
            Ok((rest, d))
        },
        None => Err(ParseError::Mismatch),
    }
}

/// Reads a constraint `left <= right` (or `left ⊑ right`) from the start of
/// `input`; returns the rest of the text and the constraint.
pub fn parse_constraint(input: &str) -> (r: Result<(String, Constraint), ParseError>)
    ensures
        constraint_at(input@) is None <==> r is Err,
        r matches Ok((rest, c)) ==> constraint_at(input@) == Some((c@, input@.len() - rest@.len())) && rest@
            == input@.subrange(input@.len() - rest@.len(), input@.len() as int),
{
    let s = chars_of(input);
    let t_le = vec!['<', '='];
    let t_sq = vec!['⊑'];
    assert(t_le@ == seq!['<', '=']);
    assert(t_sq@ == seq!['⊑']);
    let (left, e1) = match dtv_exec(&s, 0) {
        Some(p) => p,
        None => {
            return Err(ParseError::Mismatch);
        },
    };
    let p = gaps_exec(&s, e1);
    let q = if lit_exec(&s, p, &t_le) {
        p + 2
    } else if lit_exec(&s, p, &t_sq) {
        p + 1
    } else {
        return Err(ParseError::Mismatch);
    };
    let q2 = gaps_exec(&s, q);
    match dtv_exec(&s, q2) {
        Some((right, e2)) => {
            let rest = string_of(&copy_range(&s, e2, s.len()));
            Ok((rest, Constraint { left, right }))
        },
        None => Err(ParseError::Mismatch),
    }
}

// ---------------------------------------------------------------- writers

pub open spec fn digit_chars() -> Seq<char> {
    seq!['0', '1', '2', '3', '4', '5', '6', '7', '8', '9']
}

/// Decimal digits of `n`, without leading zeros.
pub open spec fn nat_text(n: nat) -> Seq<char>
    decreases n,
{
    if n < 10 {
        seq![digit_chars()[n as int]]
    } else {
        nat_text(n / 10) + seq![digit_chars()[(n % 10) as int]]
    }
}

/// Decimal form of `v`, with a minus when negative.
pub open spec fn int_text(v: int) -> Seq<char> {
    if v < 0 {
        seq!['-'] + nat_text((-v) as nat)
    } else {
        nat_text(v as nat)
    }
}

pub open spec fn bound_text(b: Bound) -> Seq<char> {
    seq!['*', '['] + match b {
        Bound::Fixed(k) => nat_text(k as nat),
        Bound::NullTerm => seq!['n', 'u', 'l', 'l', 't', 'e', 'r', 'm'],
        Bound::NoBound => seq!['n', 'o', 'b', 'o', 'u', 'n', 'd'],
    } + seq![']']
}

pub open spec fn label_text(l: FieldLabel) -> Seq<char> {
    match l {
        FieldLabel::InPattern(n) => seq!['i', 'n', '_'] + nat_text(n as nat),
        FieldLabel::OutPattern(n) => seq!['o', 'u', 't', '_'] + nat_text(n as nat),
        FieldLabel::DerefPattern { size, offset, bound } => seq!['σ'] + nat_text(size as nat) + seq!['@'] + int_text(
            offset as int,
        ) + match bound {
            Some(b) => bound_text(b),
            None => Seq::empty(),
        },
        FieldLabel::Load => seq!['l', 'o', 'a', 'd'],
        FieldLabel::Store => seq!['s', 't', 'o', 'r', 'e'],
    }
}

/// `.l1.l2...` for the labels `ls`.
pub open spec fn path_text(ls: Seq<FieldLabel>) -> Seq<char>
    decreases ls.len(),
{
    if ls.len() == 0 {
        Seq::empty()
    } else {
        seq!['.'] + label_text(ls[0]) + path_text(ls.drop_first())
    }
}

pub open spec fn dtv_text(d: DtvView) -> Seq<char> {
    d.0 + path_text(d.1)
}

pub open spec fn constraint_text(c: ConstraintView) -> Seq<char> {
    dtv_text(c.0) + seq![' ', '<', '=', ' '] + dtv_text(c.1)
}

/// A base name that reads back as itself: not empty, no whitespace, no dot.
pub open spec fn valid_name(name: Seq<char>) -> bool {
    name.len() > 0 && forall|k: int| 0 <= k < name.len() ==> is_name_char(#[trigger] name[k])
}

fn digit_char(d: u32) -> (c: char)
    requires
        d < 10,
    ensures
        c == digit_chars()[d as int],
{
    match d {
        0 => '0',
        1 => '1',
        2 => '2',
        3 => '3',
        4 => '4',
        5 => '5',
        6 => '6',
        7 => '7',
        8 => '8',
        _ => '9',
    }
}

fn push_all(out: &mut Vec<char>, t: &Vec<char>)
    ensures
        final(out)@ == old(out)@ + t@,
{
    let ghost o = out@;
    let mut k: usize = 0;
    while k < t.len()
        invariant
            k <= t@.len(),
            out@ == o + t@.subrange(0, k as int),
        decreases t@.len() - k,
    {
        out.push(t[k]);
        k = k + 1;
        assert(out@ =~= o + t@.subrange(0, k as int));
    }
    assert(t@.subrange(0, k as int) =~= t@);
}

fn push_nat(out: &mut Vec<char>, n: u32)
    ensures
        final(out)@ == old(out)@ + nat_text(n as nat),
    decreases n,
{
    if n >= 10 {
        push_nat(out, n / 10);
    }
    out.push(digit_char(n % 10));
    assert(final(out)@ =~= old(out)@ + nat_text(n as nat));
}

fn push_int(out: &mut Vec<char>, v: i32)
    ensures
        final(out)@ == old(out)@ + int_text(v as int),
{
    if v < 0 {
        out.push('-');
        let m = (0 - (v as i64)) as u32;
        push_nat(out, m);
        assert(final(out)@ =~= old(out)@ + int_text(v as int));
    } else {
        push_nat(out, v as u32);
    }
}

fn push_bound(out: &mut Vec<char>, b: Bound)
    ensures
        final(out)@ == old(out)@ + bound_text(b),
{
    out.push('*');
    out.push('[');
    match b {
        Bound::Fixed(k) => push_nat(out, k),
        Bound::NullTerm => push_all(out, &vec!['n', 'u', 'l', 'l', 't', 'e', 'r', 'm']),
        Bound::NoBound => push_all(out, &vec!['n', 'o', 'b', 'o', 'u', 'n', 'd']),
    }
    out.push(']');
    assert(final(out)@ =~= old(out)@ + bound_text(b));
}

fn push_label(out: &mut Vec<char>, l: FieldLabel)
    ensures
        final(out)@ == old(out)@ + label_text(l),
{
    match l {
        FieldLabel::InPattern(n) => {
            push_all(out, &vec!['i', 'n', '_']);
            push_nat(out, n);
        },
        FieldLabel::OutPattern(n) => {
            push_all(out, &vec!['o', 'u', 't', '_']);
            push_nat(out, n);
        },
        FieldLabel::DerefPattern { size, offset, bound } => {
            out.push('σ');
            push_nat(out, size);
            out.push('@');
            push_int(out, offset);
            if let Some(b) = bound {
                push_bound(out, b);
            }
        },
        FieldLabel::Load => push_all(out, &vec!['l', 'o', 'a', 'd']),
        FieldLabel::Store => push_all(out, &vec!['s', 't', 'o', 'r', 'e']),
    }
    assert(final(out)@ =~= old(out)@ + label_text(l));
}

proof fn lemma_path_text_push(ls: Seq<FieldLabel>, l: FieldLabel)
    ensures
        path_text(ls.push(l)) == path_text(ls) + seq!['.'] + label_text(l),
    decreases ls.len(),
{
    if ls.len() == 0 {
        assert(ls.push(l).drop_first() =~= Seq::<FieldLabel>::empty());
        assert(ls.push(l)[0] == l);
        assert(path_text(Seq::<FieldLabel>::empty()) == Seq::<char>::empty());
        assert(path_text(ls.push(l)) == seq!['.'] + label_text(l) + path_text(ls.push(l).drop_first()));
        assert(path_text(ls.push(l)) =~= path_text(ls) + seq!['.'] + label_text(l));
    } else {
        lemma_path_text_push(ls.drop_first(), l);
        assert(ls.push(l).drop_first() =~= ls.drop_first().push(l));
        assert(ls.push(l)[0] == ls[0]);
        assert(path_text(ls.push(l)) == seq!['.'] + label_text(ls[0]) + path_text(ls.drop_first().push(l)));
        assert(path_text(ls.push(l)) =~= path_text(ls) + seq!['.'] + label_text(l));
    }
}

fn push_dtv(out: &mut Vec<char>, d: &DerivedTypeVariable)
    ensures
        final(out)@ == old(out)@ + dtv_text(d@),
{
    let n = d.name.unicode_len();
    let name = d.name.as_str();
    let mut k: usize = 0;
    let ghost o = out@;
    while k < n
        invariant
            n == d.name@.len(),
            name@ == d.name@,
            k <= n,
            out@ == o + d.name@.subrange(0, k as int),
        decreases n - k,
    {
        out.push(name.get_char(k));
        k = k + 1;
        assert(out@ =~= o + d.name@.subrange(0, k as int));
    }
    assert(d.name@.subrange(0, k as int) =~= d.name@);
    let mut i: usize = 0;
    while i < d.fields.len()
        invariant
            i <= d.fields@.len(),
            out@ == o + d.name@ + path_text(d.fields@.subrange(0, i as int)),
        decreases d.fields@.len() - i,
    {
        out.push('.');
        push_label(out, d.fields[i]);
        proof {
            lemma_path_text_push(d.fields@.subrange(0, i as int), d.fields@[i as int]);
            assert(d.fields@.subrange(0, i as int).push(d.fields@[i as int]) =~= d.fields@.subrange(0, i + 1));
        }
        i = i + 1;
        assert(out@ =~= o + d.name@ + path_text(d.fields@.subrange(0, i as int)));
    }
    assert(d.fields@.subrange(0, i as int) =~= d.fields@);
    assert(out@ =~= o + dtv_text(d@));
}

impl Bound {
    /// The bound as written after a dereference label: `*[n]`, `*[nullterm]` or
    /// `*[nobound]`.
    pub fn to_text(&self) -> (r: String)
        ensures
            r@ == bound_text(*self),
    {
        let mut out: Vec<char> = Vec::new();
        push_bound(&mut out, *self);
        string_of(&out)
    }
}

impl FieldLabel {
    /// The label as the grammar writes it.
    pub fn to_text(&self) -> (r: String)
        ensures
            r@ == label_text(*self),
    {
        let mut out: Vec<char> = Vec::new();
        push_label(&mut out, *self);
        string_of(&out)
    }
}

impl DerivedTypeVariable {
    /// The variable as the grammar writes it: the name, then `.label` for each field.
    pub fn to_text(&self) -> (r: String)
        ensures
            r@ == dtv_text(self@),
    {
        let mut out: Vec<char> = Vec::new();
        push_dtv(&mut out, self);
        string_of(&out)
    }
}

impl Constraint {
    /// The constraint as `left <= right`.
    pub fn to_text(&self) -> (r: String)
        ensures
            r@ == constraint_text(self@),
    {
        let mut out: Vec<char> = Vec::new();
        push_dtv(&mut out, &self.left);
        push_all(&mut out, &vec![' ', '<', '=', ' ']);
        push_dtv(&mut out, &self.right);
        assert(out@ =~= constraint_text(self@));
        string_of(&out)
    }
}

// ---------------------------------------------------------------- reading back what was written

proof fn lemma_sub(s: Seq<char>, i: int, t: Seq<char>, k: int, m: int)
    requires
        0 <= i,
        i + t.len() <= s.len(),
        s.subrange(i, i + t.len()) == t,
        0 <= k <= m <= t.len(),
    ensures
        s.subrange(i + k, i + m) == t.subrange(k, m),
        forall|q: int| k <= q < m ==> s[i + q] == #[trigger] t[q],
{
    assert(s.subrange(i + k, i + m) =~= t.subrange(k, m));
    assert forall|q: int| k <= q < m implies s[i + q] == #[trigger] t[q] by {
        assert(s.subrange(i, i + t.len())[q] == s[i + q]);
    }
}

proof fn lemma_digit_chars()
    ensures
        forall|d: int| 0 <= d < 10 ==> is_digit(#[trigger] digit_chars()[d]) && digit_val(digit_chars()[d]) == d,
{
    assert forall|d: int| 0 <= d < 10 implies is_digit(#[trigger] digit_chars()[d]) && digit_val(digit_chars()[d]) == d by {
        if d == 0 {
        } else if d == 1 {
        } else if d == 2 {
        } else if d == 3 {
        } else if d == 4 {
        } else if d == 5 {
        } else if d == 6 {
        } else if d == 7 {
        } else if d == 8 {
        } else {
        }
    }
}

/// Written digits read back: all are digits, their value is `n`.
proof fn lemma_nat_text(s: Seq<char>, i: int, n: nat)
    requires
        0 <= i,
        i + nat_text(n).len() <= s.len(),
        s.subrange(i, i + nat_text(n).len()) == nat_text(n),
    ensures
        nat_text(n).len() >= 1,
        forall|q: int| i <= q < i + nat_text(n).len() ==> is_digit(#[trigger] s[q]),
        digits_value(s, i, i + nat_text(n).len()) == n,
    decreases n,
{
    lemma_digit_chars();
    let t = nat_text(n);
    if n < 10 {
        lemma_sub(s, i, t, 0, 1);
        assert(t[0] == digit_chars()[n as int]);
        assert(s[i + 0] == t[0]);
        assert(digits_value(s, i, i) == 0);
    } else {
        let t1 = nat_text(n / 10);
        lemma_sub(s, i, t, 0, t1.len() as int);
        assert(t.subrange(0, t1.len() as int) =~= t1);
        lemma_nat_text(s, i, n / 10);
        lemma_sub(s, i, t, t1.len() as int, t.len() as int);
        assert(s[i + t1.len()] == t[t1.len() as int]);
        assert(t[t1.len() as int] == digit_chars()[(n % 10) as int]);
        assert((n / 10) * 10 + n % 10 == n);
    }
}

proof fn lemma_digits_end_at(s: Seq<char>, i: int, j: int)
    requires
        0 <= i <= j <= s.len(),
        forall|q: int| i <= q < j ==> is_digit(#[trigger] s[q]),
        j == s.len() || !is_digit(s[j]),
    ensures
        digits_end(s, i) == j,
    decreases j - i,
{
    if i < j {
        lemma_digits_end_at(s, i + 1, j);
    }
}

/// Written digits followed by a non-digit read back as `n`.
proof fn lemma_u32_text(s: Seq<char>, i: int, n: u32)
    requires
        0 <= i,
        i + nat_text(n as nat).len() <= s.len(),
        s.subrange(i, i + nat_text(n as nat).len()) == nat_text(n as nat),
        i + nat_text(n as nat).len() == s.len() || !is_digit(s[i + nat_text(n as nat).len()]),
    ensures
        u32_at(s, i) == Some((n, i + nat_text(n as nat).len())),
{
    lemma_nat_text(s, i, n as nat);
    lemma_digits_end_at(s, i, i + nat_text(n as nat).len());
}

proof fn lemma_i32_text(s: Seq<char>, i: int, v: i32)
    requires
        0 <= i,
        i + int_text(v as int).len() <= s.len(),
        s.subrange(i, i + int_text(v as int).len()) == int_text(v as int),
        i + int_text(v as int).len() == s.len() || !is_digit(s[i + int_text(v as int).len()]),
    ensures
        i32_at(s, i) == Some((v, i + int_text(v as int).len())),
{
    lemma_digit_chars();
    let t = int_text(v as int);
    if v < 0 {
        let m = (-(v as int)) as nat;
        let tn = nat_text(m);
        lemma_sub(s, i, t, 0, 1);
        assert(s[i + 0] == t[0]);
        assert(t[0] == '-');
        lemma_sub(s, i, t, 1, t.len() as int);
        assert(t.subrange(1, t.len() as int) =~= tn);
        lemma_nat_text(s, i + 1, m);
        lemma_digits_end_at(s, i + 1, i + 1 + tn.len());
        assert(-(m as int) == v as int);
    } else {
        lemma_nat_text(s, i, v as nat);
        lemma_digits_end_at(s, i, i + t.len());
        assert(is_digit(s[i]));
        assert(s[i] != '-');
    }
}

proof fn lemma_bound_text(s: Seq<char>, i: int, b: Bound)
    requires
        0 <= i,
        i + bound_text(b).len() <= s.len(),
        s.subrange(i, i + bound_text(b).len()) == bound_text(b),
    ensures
        bound_at(s, i) == (Some(b), i + bound_text(b).len()),
{
    lemma_digit_chars();
    let t = bound_text(b);
    lemma_sub(s, i, t, 0, 2);
    assert(t.subrange(0, 2) =~= seq!['*', '[']);
    lemma_sub(s, i, t, 0, t.len() as int);
    let j = i + 2;
    match b {
        Bound::NullTerm => {
            lemma_sub(s, i, t, 2, 10);
            assert(t.subrange(2, 10) =~= seq!['n', 'u', 'l', 'l', 't', 'e', 'r', 'm']);
            lemma_sub(s, i, t, 10, 11);
            assert(t.subrange(10, 11) =~= seq![']']);
        },
        Bound::NoBound => {
            assert(t[3] == 'o');
            assert(s[i + 3] == t[3]);
            lemma_sub(s, i, t, 2, 9);
            assert(t.subrange(2, 9) =~= seq!['n', 'o', 'b', 'o', 'u', 'n', 'd']);
            lemma_sub(s, i, t, 9, 10);
            assert(t.subrange(9, 10) =~= seq![']']);
            if lit_at(s, j, seq!['n', 'u', 'l', 'l', 't', 'e', 'r', 'm']) {
                assert(s.subrange(j, j + 8)[1] == s[j + 1]);
            }
        },
        Bound::Fixed(k) => {
            let tn = nat_text(k as nat);
            let w = tn.len() as int;
            lemma_sub(s, i, t, 2, 2 + w);
            assert(t.subrange(2, 2 + w) =~= tn);
            lemma_nat_text(s, j, k as nat);
            assert(is_digit(s[j]));
            lemma_sub(s, i, t, 2 + w, 3 + w);
            assert(t.subrange(2 + w, 3 + w) =~= seq![']']);
            assert(t[2 + w] == ']');
            assert(s[i + (2 + w)] == t[2 + w]);
            lemma_u32_text(s, j, k);
            if lit_at(s, j, seq!['n', 'u', 'l', 'l', 't', 'e', 'r', 'm']) {
                assert(s.subrange(j, j + 8)[0] == s[j]);
            }
            if lit_at(s, j, seq!['n', 'o', 'b', 'o', 'u', 'n', 'd']) {
                assert(s.subrange(j, j + 7)[0] == s[j]);
            }
        },
    }
}

proof fn lemma_deref_text(s: Seq<char>, i: int, l: FieldLabel, size: u32, offset: i32, bound: Option<Bound>)
    requires
        0 <= i,
        l == (FieldLabel::DerefPattern { size, offset, bound }),
        i + label_text(l).len() <= s.len(),
        s.subrange(i, i + label_text(l).len()) == label_text(l),
        i + label_text(l).len() == s.len() || s[i + label_text(l).len()] == '.',
    ensures
        deref_at(s, i + 1) == Some((l, i + label_text(l).len())),
{
    lemma_digit_chars();
    let t = label_text(l);
    let t1 = nat_text(size as nat);
    let t2 = int_text(offset as int);
    let a = 1 + t1.len() as int;
    let b = a + 1 + t2.len() as int;
    lemma_sub(s, i, t, 0, 1);
    assert(t.subrange(0, 1) =~= seq!['σ']);
    lemma_sub(s, i, t, 1, a);
    assert(t.subrange(1, a) =~= t1);
    lemma_sub(s, i, t, a, a + 1);
    assert(t.subrange(a, a + 1) =~= seq!['@']);
    lemma_sub(s, i, t, a + 1, b);
    assert(t.subrange(a + 1, b) =~= t2);
    assert(t[a] == '@');
    assert(s[i + a] == t[a]);
    lemma_u32_text(s, i + 1, size);
    match bound {
        Some(bd) => {
            let t3 = bound_text(bd);
            lemma_sub(s, i, t, b, t.len() as int);
            assert(t.subrange(b, t.len() as int) =~= t3);
            assert(t[b] == t3[0]);
            assert(s[i + b] == t[b]);
            assert(s[i + b] == '*');
            lemma_i32_text(s, i + a + 1, offset);
            lemma_bound_text(s, i + b, bd);
        },
        None => {
            assert(t.len() == b);
            lemma_i32_text(s, i + a + 1, offset);
            if lit_at(s, i + b, seq!['*', '[']) {
                assert(s.subrange(i + b, i + b + 2)[0] == s[i + b]);
            }
        },
    }
}

/// A written label, followed by a dot or the end, reads back as itself.
proof fn lemma_label_text(s: Seq<char>, i: int, l: FieldLabel)
    requires
        0 <= i,
        i + label_text(l).len() <= s.len(),
        s.subrange(i, i + label_text(l).len()) == label_text(l),
        i + label_text(l).len() == s.len() || s[i + label_text(l).len()] == '.',
    ensures
        label_at(s, i) == Some((l, i + label_text(l).len())),
{
    lemma_digit_chars();
    let t = label_text(l);
    let e = i + t.len();
    lemma_sub(s, i, t, 0, t.len() as int);
    if lit_at(s, i, seq!['i', 'n', '_']) {
        assert(s.subrange(i, i + 3)[0] == s[i]);
    }
    if lit_at(s, i, seq!['o', 'u', 't']) {
        assert(s.subrange(i, i + 3)[0] == s[i]);
    }
    if lit_at(s, i, seq!['o', 'u', 't', '_']) {
        assert(s.subrange(i, i + 4)[0] == s[i]);
    }
    if lit_at(s, i, seq!['σ']) {
        assert(s.subrange(i, i + 1)[0] == s[i]);
    }
    if lit_at(s, i, seq!['l', 'o', 'a', 'd']) {
        assert(s.subrange(i, i + 4)[0] == s[i]);
    }
    match l {
        FieldLabel::InPattern(n) => {
            let tn = nat_text(n as nat);
            lemma_sub(s, i, t, 0, 3);
            assert(t.subrange(0, 3) =~= seq!['i', 'n', '_']);
            lemma_sub(s, i, t, 3, t.len() as int);
            assert(t.subrange(3, t.len() as int) =~= tn);
            lemma_u32_text(s, i + 3, n);
            assert(lit_at(s, i, seq!['i', 'n', '_']));
            assert(u32_at(s, i + 3) == Some((n, e)));
            assert(label_at(s, i) == Some((l, e)));
        },
        FieldLabel::OutPattern(n) => {
            let tn = nat_text(n as nat);
            lemma_sub(s, i, t, 0, 4);
            assert(t.subrange(0, 4) =~= seq!['o', 'u', 't', '_']);
            lemma_sub(s, i, t, 4, t.len() as int);
            assert(t.subrange(4, t.len() as int) =~= tn);
            lemma_u32_text(s, i + 4, n);
            assert(lit_at(s, i, seq!['o', 'u', 't', '_']));
            assert(u32_at(s, i + 4) == Some((n, e)));
            assert(s[i + 0] == t[0]);
            assert(label_at(s, i) == Some((l, e)));
        },
        FieldLabel::DerefPattern { size, offset, bound } => {
            lemma_deref_text(s, i, l, size, offset, bound);
            assert(s[i + 0] == t[0]);
            assert(t[0] == 'σ');
            lemma_sub(s, i, t, 0, 1);
            assert(t.subrange(0, 1) =~= seq!['σ']);
            assert(lit_at(s, i, seq!['σ']));
            assert(!lit_at(s, i, seq!['i', 'n', '_']));
            assert(!lit_at(s, i, seq!['o', 'u', 't', '_']));
            assert(!lit_at(s, i, seq!['o', 'u', 't']));
            assert(label_at(s, i) == Some((l, e)));
        },
        FieldLabel::Load => {
            assert(s[i + 0] == t[0]);
            assert(t.subrange(0, 4) =~= seq!['l', 'o', 'a', 'd']);
            lemma_sub(s, i, t, 0, 4);
            assert(label_at(s, i) == Some((l, e)));
        },
        FieldLabel::Store => {
            if lit_at(s, i, seq!['l', 'o', 'a', 'd']) {
                assert(s.subrange(i, i + 4)[0] == s[i]);
            }
            assert(s[i + 0] == t[0]);
            assert(t.subrange(0, 5) =~= seq!['s', 't', 'o', 'r', 'e']);
            lemma_sub(s, i, t, 0, 5);
            assert(label_at(s, i) == Some((l, e)));
        },
    }
}

/// Written labels fill `s` from `i` to its end and read back as themselves.
proof fn lemma_path_text(s: Seq<char>, i: int, ls: Seq<FieldLabel>)
    requires
        0 <= i <= s.len(),
        s.subrange(i, s.len() as int) == path_text(ls),
    ensures
        labels_at(s, i) == (ls, s.len() as int),
    decreases ls.len(),
{
    let t = path_text(ls);
    if ls.len() == 0 {
        assert(i == s.len());
        assert(ls =~= Seq::<FieldLabel>::empty());
    } else {
        let lt = label_text(ls[0]);
        let rest = path_text(ls.drop_first());
        let e = i + 1 + lt.len();
        assert(t == seq!['.'] + lt + rest);
        assert(s.subrange(i, s.len() as int)[0] == s[i]);
        assert(s[i] == '.');
        assert(s.subrange(i + 1, e) =~= lt) by {
            assert forall|q: int| 0 <= q < lt.len() implies s.subrange(i + 1, e)[q] == lt[q] by {
                assert(s.subrange(i, s.len() as int)[1 + q] == t[1 + q]);
            }
        }
        assert(s.subrange(e, s.len() as int) =~= rest) by {
            assert forall|q: int| 0 <= q < rest.len() implies s.subrange(e, s.len() as int)[q] == rest[q] by {
                assert(s.subrange(i, s.len() as int)[1 + lt.len() + q] == t[1 + lt.len() + q]);
            }
        }
        if e < s.len() {
            assert(rest.len() > 0);
            assert(s.subrange(e, s.len() as int)[0] == s[e]);
            assert(rest[0] == '.');
        }
        lemma_label_text(s, i + 1, ls[0]);
        lemma_path_text(s, e, ls.drop_first());
        assert(seq![ls[0]] + ls.drop_first() =~= ls);
    }
}

proof fn lemma_name_end(s: Seq<char>, name: Seq<char>, k: int)
    requires
        valid_name(name),
        name.len() <= s.len(),
        s.subrange(0, name.len() as int) == name,
        name.len() == s.len() || s[name.len() as int] == '.',
        0 <= k <= name.len(),
    ensures
        name_end(s, k) == name.len(),
    decreases name.len() - k,
{
    if k < name.len() {
        assert(s.subrange(0, name.len() as int)[k] == s[k]);
        lemma_name_end(s, name, k + 1);
    }
}

/// Writing a derived type variable with a valid name and reading it back gives
/// the same variable, and reading takes the whole text.
pub proof fn lemma_dtv_round_trip(d: DtvView)
    requires
        valid_name(d.0),
    ensures
        dtv_at(dtv_text(d), 0) == Some((d, dtv_text(d).len() as int)),
{
    let s = dtv_text(d);
    let n = d.0.len() as int;
    assert(s.subrange(0, n) =~= d.0);
    assert(s.subrange(n, s.len() as int) =~= path_text(d.1));
    if n < s.len() {
        assert(path_text(d.1).len() > 0);
        assert(s[n] == path_text(d.1)[0]);
    }
    lemma_name_end(s, d.0, 0);
    lemma_path_text(s, n, d.1);
}

/// A written label, alone, reads back as itself.
pub proof fn lemma_label_round_trip(l: FieldLabel)
    ensures
        label_at(label_text(l), 0) == Some((l, label_text(l).len() as int)),
{
    let s = label_text(l);
    assert(s.subrange(0, s.len() as int) =~= s);
    lemma_label_text(s, 0, l);
}

} // verus!
