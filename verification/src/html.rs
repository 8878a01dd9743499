//! HTML prose from ParlWork: tags dropped, character references decoded,
//! white space collapsed. Each pass is a left-to-right scan that replaces the
//! leftmost match and carries on after it, as a regex `replace_all` does.

use crate::text::{
    char_from_u32, chars_of, decimal_digit, is_ascii_digit, is_decimal_digit, is_white_space,
    lowercase_of, string_of, sub_chars, to_lower, trim_chars, trim_seq, white_space,
};
use vstd::prelude::*;

verus! {

/// The character classes the scans run over.
#[derive(Clone, Copy, PartialEq, Eq, Structural)]
pub enum CharClass {
    /// `[0-9]`
    Digit,
    /// Unicode decimal digits (`\d`)
    Decimal,
    /// `[0-9a-fA-F]`
    Hex,
    /// `[a-zA-Z]`
    Letter,
    /// Unicode white space (`\s`)
    Space,
}

pub open spec fn is_hex_digit(c: char) -> bool {
    is_ascii_digit(c) || ('a' <= c && c <= 'f') || ('A' <= c && c <= 'F')
}

pub open spec fn is_ascii_letter(c: char) -> bool {
    ('a' <= c && c <= 'z') || ('A' <= c && c <= 'Z')
}

pub open spec fn in_class(k: CharClass, c: char) -> bool {
    match k {
        CharClass::Digit => is_ascii_digit(c),
        CharClass::Decimal => is_decimal_digit(c),
        CharClass::Hex => is_hex_digit(c),
        CharClass::Letter => is_ascii_letter(c),
        CharClass::Space => is_white_space(c),
    }
}

fn class_member(k: CharClass, c: char) -> (r: bool)
    ensures
        r == in_class(k, c),
{
    match k {
        CharClass::Digit => '0' <= c && c <= '9',
        CharClass::Decimal => decimal_digit(c),
        CharClass::Hex => ('0' <= c && c <= '9') || ('a' <= c && c <= 'f') || ('A' <= c && c
            <= 'F'),
        CharClass::Letter => ('a' <= c && c <= 'z') || ('A' <= c && c <= 'Z'),
        CharClass::Space => white_space(c),
    }
}

/// How many characters at the front of `s` are in class `k`.
pub open spec fn run_len(s: Seq<char>, k: CharClass) -> int
    decreases s.len(),
{
    if s.len() > 0 && in_class(k, s[0]) {
        1 + run_len(s.drop_first(), k)
    } else {
        0
    }
}

proof fn lemma_run_len(s: Seq<char>, k: CharClass, n: int)
    requires
        0 <= n <= s.len(),
        forall|j: int| 0 <= j < n ==> in_class(k, #[trigger] s[j]),
        n == s.len() || !in_class(k, s[n]),
    ensures
        run_len(s, k) == n,
    decreases n,
{
    if n > 0 {
        let t = s.drop_first();
        assert forall|j: int| 0 <= j < n - 1 implies in_class(k, #[trigger] t[j]) by {
            assert(t[j] == s[j + 1]);
        }
        if n < s.len() {
            assert(t[n - 1] == s[n]);
        }
        lemma_run_len(t, k, n - 1);
    }
}

pub proof fn lemma_run_len_bounds(s: Seq<char>, k: CharClass)
    ensures
        0 <= run_len(s, k) <= s.len(),
        forall|j: int| 0 <= j < run_len(s, k) ==> in_class(k, #[trigger] s[j]),
        run_len(s, k) < s.len() ==> !in_class(k, s[run_len(s, k)]),
    decreases s.len(),
{
    if s.len() > 0 && in_class(k, s[0]) {
        let t = s.drop_first();
        lemma_run_len_bounds(t, k);
        assert forall|j: int| 0 <= j < run_len(s, k) implies in_class(k, #[trigger] s[j]) by {
            if j > 0 {
                assert(s[j] == t[j - 1]);
            }
        }
        if run_len(s, k) < s.len() {
            assert(s[run_len(s, k)] == t[run_len(t, k)]);
        }
    }
}

/// End of the run of class `k` that starts at `i`.
pub fn run_end(v: &Vec<char>, i: usize, k: CharClass) -> (e: usize)
    requires
        i <= v.len(),
    ensures
        i <= e <= v.len(),
        e - i == run_len(v@.skip(i as int), k),
{
    let mut e = i;
    while e < v.len() && class_member(k, v[e])
        invariant
            i <= e <= v.len(),
            forall|j: int| i <= j < e ==> in_class(k, #[trigger] v@[j]),
        decreases v.len() - e,
    {
        e = e + 1;
    }
    proof {
        let t = v@.skip(i as int);
        assert forall|j: int| 0 <= j < e - i implies in_class(k, #[trigger] t[j]) by {
            assert(t[j] == v@[i + j]);
        }
        if e < v.len() {
            assert(t[e - i] == v@[e as int]);
        }
        lemma_run_len(t, k, e - i);
    }
    e
}

/// Value of a run of decimal digits.
pub open spec fn dec_value(s: Seq<char>) -> int
    decreases s.len(),
{
    if s.len() == 0 {
        0
    } else {
        dec_value(s.drop_last()) * 10 + ((s.last() as u32) - 48)
    }
}

pub open spec fn hex_digit_value(c: char) -> int {
    if is_ascii_digit(c) {
        (c as u32) - 48
    } else if 'a' <= c && c <= 'f' {
        (c as u32) - 87
    } else {
        (c as u32) - 55
    }
}

/// Value of a run of hexadecimal digits.
pub open spec fn hex_value(s: Seq<char>) -> int
    decreases s.len(),
{
    if s.len() == 0 {
        0
    } else {
        hex_value(s.drop_last()) * 16 + hex_digit_value(s.last())
    }
}

/// The character a numeric reference names: one character when the value
/// fits `u32` (what `str::parse::<u32>` accepts) and is a Unicode scalar
/// value, else nothing.
pub open spec fn char_for(v: int) -> Seq<char> {
    if 0 <= v <= 0x10FFFF && !(0xD800 <= v <= 0xDFFF) {
        seq![(v as u32) as char]
    } else {
        Seq::empty()
    }
}

proof fn lemma_dec_value_mono(s: Seq<char>, n: int)
    requires
        0 <= n <= s.len(),
        forall|j: int| 0 <= j < s.len() ==> is_ascii_digit(#[trigger] s[j]),
    ensures
        dec_value(s.take(n)) <= dec_value(s),
        dec_value(s) >= 0,
    decreases s.len() - n,
{
    if n < s.len() {
        let t = s.drop_last();
        assert forall|j: int| 0 <= j < t.len() implies is_ascii_digit(#[trigger] t[j]) by {
            assert(t[j] == s[j]);
        }
        lemma_dec_value_mono(t, n);
        assert(t.take(n) =~= s.take(n));
    } else {
        assert(s.take(n) =~= s);
        lemma_dec_nonneg(s);
    }
}

proof fn lemma_dec_nonneg(s: Seq<char>)
    requires
        forall|j: int| 0 <= j < s.len() ==> is_ascii_digit(#[trigger] s[j]),
    ensures
        dec_value(s) >= 0,
    decreases s.len(),
{
    if s.len() > 0 {
        let t = s.drop_last();
        assert forall|j: int| 0 <= j < t.len() implies is_ascii_digit(#[trigger] t[j]) by {
            assert(t[j] == s[j]);
        }
        lemma_dec_nonneg(t);
    }
}

proof fn lemma_hex_value_mono(s: Seq<char>, n: int)
    requires
        0 <= n <= s.len(),
        forall|j: int| 0 <= j < s.len() ==> is_hex_digit(#[trigger] s[j]),
    ensures
        hex_value(s.take(n)) <= hex_value(s),
        hex_value(s) >= 0,
    decreases s.len() - n,
{
    if n < s.len() {
        let t = s.drop_last();
        assert forall|j: int| 0 <= j < t.len() implies is_hex_digit(#[trigger] t[j]) by {
            assert(t[j] == s[j]);
        }
        lemma_hex_value_mono(t, n);
        assert(t.take(n) =~= s.take(n));
    } else {
        assert(s.take(n) =~= s);
        lemma_hex_nonneg(s);
    }
}

proof fn lemma_hex_nonneg(s: Seq<char>)
    requires
        forall|j: int| 0 <= j < s.len() ==> is_hex_digit(#[trigger] s[j]),
    ensures
        hex_value(s) >= 0,
    decreases s.len(),
{
    if s.len() > 0 {
        let t = s.drop_last();
        assert forall|j: int| 0 <= j < t.len() implies is_hex_digit(#[trigger] t[j]) by {
            assert(t[j] == s[j]);
        }
        lemma_hex_nonneg(t);
    }
}

/// Decodes the digits `v[i..j]` (all in class `k`, decimal or hexadecimal)
/// into the character they name.
fn decode_number(v: &Vec<char>, i: usize, j: usize, hex: bool) -> (r: Vec<char>)
    requires
        i <= j <= v.len(),
        forall|x: int|
            i <= x < j ==> (if hex {
                is_hex_digit(#[trigger] v@[x])
            } else {
                is_ascii_digit(v@[x])
            }),
    ensures
        r@ == char_for(
            if hex {
                hex_value(v@.subrange(i as int, j as int))
            } else {
                dec_value(v@.subrange(i as int, j as int))
            },
        ),
{
    let ghost digits = v@.subrange(i as int, j as int);
    let ghost value = if hex {
        hex_value(digits)
    } else {
        dec_value(digits)
    };
    let mut acc: u64 = 0;
    let mut k = i;
    let mut overflow = false;
    while k < j
        invariant
            i <= k <= j <= v.len(),
            digits == v@.subrange(i as int, j as int),
            forall|x: int|
                i <= x < j ==> (if hex {
                    is_hex_digit(#[trigger] v@[x])
                } else {
                    is_ascii_digit(v@[x])
                }),
            !overflow ==> acc <= 0xFFFF_FFFF && acc == (if hex {
                hex_value(digits.take(k - i))
            } else {
                dec_value(digits.take(k - i))
            }),
            overflow ==> (if hex {
                hex_value(digits.take(k - i))
            } else {
                dec_value(digits.take(k - i))
            }) > 0xFFFF_FFFF,
        decreases j - k,
    {
        let c = v[k];
        let d: u64 = if '0' <= c && c <= '9' {
            (c as u32 - 48) as u64
        } else if 'a' <= c && c <= 'f' {
            (c as u32 - 87) as u64
        } else {
            (c as u32 - 55) as u64
        };
        let base: u64 = if hex {
            16
        } else {
            10
        };
        proof {
            assert(digits.take(k + 1 - i).drop_last() =~= digits.take(k - i));
            assert(digits.take(k + 1 - i).last() == v@[k as int]);
            if hex {
                lemma_hex_nonneg(digits.take(k - i));
            } else {
                assert forall|x: int| 0 <= x < digits.take(k - i).len() implies is_ascii_digit(
                    #[trigger] digits.take(k - i)[x],
                ) by {
                    assert(digits.take(k - i)[x] == v@[i + x]);
                }
                lemma_dec_nonneg(digits.take(k - i));
            }
        }
        if !overflow {
            let next = acc * base + d;
            if next > 0xFFFF_FFFF {
                overflow = true;
            } else {
                acc = next;
            }
        }
        k = k + 1;
    }
    proof {
        assert(digits.take(j - i) =~= digits);
    }
    if overflow {
        return Vec::new();
    }
    let u = acc as u32;
    match char_from_u32(u) {
        Some(ch) => {
            let mut out: Vec<char> = Vec::new();
            out.push(ch);
            proof {
                assert(value as u32 == u);
                vstd::utf8::char_u32_cast(ch, u);
                assert(ch == (value as u32) as char);
                assert(out@ =~= char_for(value));
            }
            out
        },
        None => {
            assert(char_for(value) =~= Seq::<char>::empty());
            Vec::new()
        },
    }
}

/// A tag `<...>` at the front becomes a space; otherwise the first character
/// stays. Returns what is emitted and how many characters are consumed.
pub open spec fn tag_step(s: Seq<char>) -> (Seq<char>, int) {
    if s.len() > 0 && s[0] == '<' && crate::text::first_index(s.drop_first(), '>') >= 0 {
        (seq![' '], crate::text::first_index(s.drop_first(), '>') + 2)
    } else {
        (s.take(1), 1)
    }
}

pub open spec fn all_ascii_digits(s: Seq<char>) -> bool {
    forall|j: int| 0 <= j < s.len() ==> is_ascii_digit(#[trigger] s[j])
}

/// `&#123;` at the front, its digits a run of class `k`, becomes the
/// character it names; digits that `str::parse::<u32>` does not read (any
/// that is not ASCII) name nothing, and the reference is dropped.
pub open spec fn dec_step(s: Seq<char>, k: CharClass) -> (Seq<char>, int) {
    let d = run_len(s.skip(2), k);
    if s.len() >= 3 && s[0] == '&' && s[1] == '#' && d >= 1 && 2 + d < s.len() && s[2 + d] == ';' {
        (
            if all_ascii_digits(s.subrange(2, 2 + d)) {
                char_for(dec_value(s.subrange(2, 2 + d)))
            } else {
                Seq::empty()
            },
            3 + d,
        )
    } else {
        (s.take(1), 1)
    }
}

/// `&#x1F;` (either case) at the front becomes the character it names.
pub open spec fn hex_step(s: Seq<char>) -> (Seq<char>, int) {
    let h = run_len(s.skip(3), CharClass::Hex);
    if s.len() >= 4 && s[0] == '&' && s[1] == '#' && (s[2] == 'x' || s[2] == 'X') && h >= 1 && 3
        + h < s.len() && s[3 + h] == ';' {
        (char_for(hex_value(s.subrange(3, 3 + h))), 4 + h)
    } else {
        (s.take(1), 1)
    }
}

/// The named references ParlWork prose uses, by lowercase name.
pub open spec fn entity_spec(name: Seq<char>) -> Option<Seq<char>> {
    if name == "amp"@ {
        Some("&"@)
    } else if name == "nbsp"@ {
        Some(" "@)
    } else if name == "quot"@ {
        Some("\""@)
    } else if name == "apos"@ {
        Some("'"@)
    } else if name == "lsquo"@ {
        Some("\u{2018}"@)
    } else if name == "rsquo"@ {
        Some("\u{2019}"@)
    } else if name == "ldquo"@ {
        Some("\u{201C}"@)
    } else if name == "rdquo"@ {
        Some("\u{201D}"@)
    } else if name == "ndash"@ {
        Some("\u{2013}"@)
    } else if name == "mdash"@ {
        Some("\u{2014}"@)
    } else if name == "hellip"@ {
        Some("\u{2026}"@)
    } else if name == "lt"@ {
        Some("<"@)
    } else if name == "gt"@ {
        Some(">"@)
    } else {
        None
    }
}

/// `&name;` at the front becomes the character it names; an unknown name is
/// kept as it was.
pub open spec fn named_step(s: Seq<char>) -> (Seq<char>, int) {
    let l = run_len(s.skip(1), CharClass::Letter);
    if s.len() >= 3 && s[0] == '&' && l >= 1 && 1 + l < s.len() && s[1 + l] == ';' {
        match entity_spec(lowercase_of(s.subrange(1, 1 + l))) {
            Some(t) => (t, 2 + l),
            None => (s.take(2 + l), 2 + l),
        }
    } else {
        (s.take(1), 1)
    }
}

/// A run of white space at the front becomes one space.
pub open spec fn space_step(s: Seq<char>) -> (Seq<char>, int) {
    if s.len() > 0 && is_white_space(s[0]) {
        (seq![' '], run_len(s, CharClass::Space))
    } else {
        (s.take(1), 1)
    }
}

#[derive(Clone, Copy, PartialEq, Eq, Structural)]
pub enum Pass {
    Tags,
    Decimal,
    Hex,
    /// Decimal or hexadecimal references in one scan.
    Numeric,
    Named,
    Spaces,
}

pub open spec fn step(p: Pass, s: Seq<char>) -> (Seq<char>, int) {
    match p {
        Pass::Tags => tag_step(s),
        Pass::Decimal => dec_step(s, CharClass::Decimal),
        Pass::Hex => hex_step(s),
        Pass::Numeric => if dec_step(s, CharClass::Digit).1 > 1 {
            dec_step(s, CharClass::Digit)
        } else {
            hex_step(s)
        },
        Pass::Named => named_step(s),
        Pass::Spaces => space_step(s),
    }
}

/// One whole left-to-right pass over `s`.
pub open spec fn run_pass(p: Pass, s: Seq<char>) -> Seq<char>
    decreases s.len(),
{
    if s.len() == 0 {
        s
    } else if 1 <= step(p, s).1 <= s.len() {
        step(p, s).0 + run_pass(p, s.skip(step(p, s).1))
    } else {
        s
    }
}

/// `strip_html`: tags to spaces; decimal, hexadecimal and named references
/// decoded in that order; white space runs collapsed; ends trimmed.
pub open spec fn strip_html_spec(s: Seq<char>) -> Seq<char> {
    trim_seq(
        run_pass(
            Pass::Spaces,
            run_pass(Pass::Named, run_pass(Pass::Hex, run_pass(Pass::Decimal, run_pass(Pass::Tags, s)))),
        ),
    )
}

fn step_exec(p: Pass, v: &Vec<char>, i: usize) -> (r: (Vec<char>, usize))
    requires
        i < v.len(),
    ensures
        r.0@ == step(p, v@.skip(i as int)).0,
        r.1 == step(p, v@.skip(i as int)).1,
        1 <= r.1 <= v.len() - i,
{
    if p == Pass::Numeric {
        let d = dec_step_exec(v, i, CharClass::Digit);
        if d.1 > 1 {
            d
        } else {
            single_step_exec(Pass::Hex, v, i)
        }
    } else {
        single_step_exec(p, v, i)
    }
}

/// Whether `v[i..j]` is all ASCII digits.
pub(crate) fn ascii_run(v: &Vec<char>, i: usize, j: usize) -> (r: bool)
    requires
        i <= j <= v.len(),
    ensures
        r == all_ascii_digits(v@.subrange(i as int, j as int)),
{
    let mut k = i;
    while k < j
        invariant
            i <= k <= j <= v.len(),
            forall|x: int| i <= x < k ==> is_ascii_digit(#[trigger] v@[x]),
        decreases j - k,
    {
        if !('0' <= v[k] && v[k] <= '9') {
            assert(v@.subrange(i as int, j as int)[k - i] == v@[k as int]);
            return false;
        }
        k = k + 1;
    }
    assert forall|x: int| 0 <= x < j - i implies is_ascii_digit(#[trigger] v@.subrange(i as int, j as int)[x]) by {
        assert(v@.subrange(i as int, j as int)[x] == v@[i + x]);
    }
    true
}

fn dec_step_exec(v: &Vec<char>, i: usize, k: CharClass) -> (r: (Vec<char>, usize))
    requires
        i < v.len(),
    ensures
        r.0@ == dec_step(v@.skip(i as int), k).0,
        r.1 == dec_step(v@.skip(i as int), k).1,
        1 <= r.1 <= v.len() - i,
{
    let ghost s = v@.skip(i as int);
    let n = v.len();
    let c = v[i];
    assert(s[0] == c);
    let mut single: Vec<char> = Vec::new();
    single.push(c);
    assert(single@ =~= s.take(1));
    if n - i >= 3 && c == '&' && v[i + 1] == '#' {
        let e = run_end(v, i + 2, k);
        proof {
            assert(v@.skip(i + 2) =~= s.skip(2));
            assert(s[1] == v@[i + 1]);
        }
        if e > i + 2 && e < n && v[e] == ';' {
            proof {
                assert(s[2 + (e - i - 2)] == v@[e as int]);
                lemma_run_len_bounds(s.skip(2), k);
                assert(v@.subrange(i + 2, e as int) =~= s.subrange(2, e - i));
            }
            if ascii_run(v, i + 2, e) {
                proof {
                    assert forall|x: int| i + 2 <= x < e implies is_ascii_digit(#[trigger] v@[x]) by {
                        assert(v@[x] == v@.subrange(i + 2, e as int)[x - i - 2]);
                    }
                }
                let out = decode_number(v, i + 2, e, false);
                return (out, e - i + 1);
            }
            let none: Vec<char> = Vec::new();
            assert(none@ =~= Seq::<char>::empty());
            return (none, e - i + 1);
        }
    }
    proof {
        if s.len() >= 3 && s[0] == '&' && s[1] == '#' {
            assert(v@.skip(i + 2) =~= s.skip(2));
            lemma_run_len_bounds(s.skip(2), k);
            let d = run_len(s.skip(2), k);
            if d >= 1 && 2 + d < s.len() {
                assert(s[2 + d] == v@[i + 2 + d]);
            }
        }
    }
    (single, 1)
}

fn single_step_exec(p: Pass, v: &Vec<char>, i: usize) -> (r: (Vec<char>, usize))
    requires
        i < v.len(),
        p != Pass::Numeric,
    ensures
        r.0@ == step(p, v@.skip(i as int)).0,
        r.1 == step(p, v@.skip(i as int)).1,
        1 <= r.1 <= v.len() - i,
{
    let ghost s = v@.skip(i as int);
    let n = v.len();
    let c = v[i];
    assert(s[0] == c);
    let mut single: Vec<char> = Vec::new();
    single.push(c);
    assert(single@ =~= s.take(1));
    match p {
        Pass::Tags => {
            if c == '<' {
                let mut k = i + 1;
                while k < n && v[k] != '>'
                    invariant
                        i < k <= n == v.len(),
                        forall|x: int| i < x < k ==> #[trigger] v@[x] != '>',
                    decreases n - k,
                {
                    k = k + 1;
                }
                proof {
                    let t = s.drop_first();
                    assert forall|x: int| 0 <= x < k - i - 1 implies #[trigger] t[x] != '>' by {
                        assert(t[x] == v@[i + 1 + x]);
                    }
                    if k < n {
                        assert(t[k - i - 1] == v@[k as int]);
                    }
                    crate::text::lemma_first_index(t, '>', k - i - 1);
                }
                if k < n {
                    let mut sp: Vec<char> = Vec::new();
                    sp.push(' ');
                    assert(sp@ =~= seq![' ']);
                    return (sp, k - i + 1);
                }
            }
            (single, 1)
        },
        Pass::Decimal => dec_step_exec(v, i, CharClass::Decimal),
        Pass::Hex => {
            if n - i >= 4 && c == '&' && v[i + 1] == '#' && (v[i + 2] == 'x' || v[i + 2] == 'X') {
                let e = run_end(v, i + 3, CharClass::Hex);
                proof {
                    assert(v@.skip(i + 3) =~= s.skip(3));
                    assert(s[1] == v@[i + 1]);
                    assert(s[2] == v@[i + 2]);
                }
                if e > i + 3 && e < n && v[e] == ';' {
                    proof {
                        assert(s[3 + (e - i - 3)] == v@[e as int]);
                        lemma_run_len_bounds(s.skip(3), CharClass::Hex);
                        assert forall|x: int| i + 3 <= x < e implies is_hex_digit(#[trigger] v@[x]) by {
                            assert(v@[x] == s.skip(3)[x - i - 3]);
                        }
                        assert(v@.subrange(i + 3, e as int) =~= s.subrange(3, e - i));
                    }
                    let out = decode_number(v, i + 3, e, true);
                    return (out, e - i + 1);
                }
            }
            (single, 1)
        },
        Pass::Named => {
            if n - i >= 3 && c == '&' {
                let e = run_end(v, i + 1, CharClass::Letter);
                proof {
                    assert(v@.skip(i + 1) =~= s.skip(1));
                }
                if e > i + 1 && e < n && v[e] == ';' {
                    proof {
                        assert(s[1 + (e - i - 1)] == v@[e as int]);
                        assert(v@.subrange(i + 1, e as int) =~= s.subrange(1, e - i));
                    }
                    let name = sub_chars(v, i + 1, e);
                    let name_text = string_of(&name);
                    match entity_for(name_text.as_str()) {
                        Some(t) => {
                            let out = chars_of(t);
                            return (out, e - i + 1);
                        },
                        None => {
                            let out = sub_chars(v, i, e + 1);
                            assert(out@ =~= s.take(e - i + 1));
                            return (out, e - i + 1);
                        },
                    }
                }
            }
            (single, 1)
        },
        Pass::Numeric => {
            assert(false);
            (single, 1)
        },
        Pass::Spaces => {
            if white_space(c) {
                let e = run_end(v, i, CharClass::Space);
                let mut sp: Vec<char> = Vec::new();
                sp.push(' ');
                assert(sp@ =~= seq![' ']);
                proof {
                    lemma_run_len_bounds(s, CharClass::Space);
                }
                return (sp, e - i);
            }
            (single, 1)
        },
    }
}

pub(crate) fn pass_exec(p: Pass, v: &Vec<char>) -> (r: Vec<char>)
    ensures
        r@ == run_pass(p, v@),
{
    let mut out: Vec<char> = Vec::new();
    let mut i: usize = 0;
    assert(v@.skip(0) =~= v@);
    while i < v.len()
        invariant
            i <= v.len(),
            out@ + run_pass(p, v@.skip(i as int)) == run_pass(p, v@),
        decreases v.len() - i,
    {
        let (mut piece, c) = step_exec(p, v, i);
        proof {
            let s = v@.skip(i as int);
            assert(s.skip(c as int) =~= v@.skip(i + c));
            assert(run_pass(p, s) == piece@ + run_pass(p, s.skip(c as int)));
        }
        let ghost o = out@;
        let ghost pc = piece@;
        out.append(&mut piece);
        proof {
            assert(out@ =~= o + pc);
            assert(o + run_pass(p, v@.skip(i as int)) == run_pass(p, v@));
            assert(o + (pc + run_pass(p, v@.skip(i + c))) =~= out@ + run_pass(p, v@.skip(i + c)));
        }
        i = i + c;
    }
    proof {
        assert(v@.skip(i as int) =~= Seq::<char>::empty());
        assert(out@ + Seq::<char>::empty() =~= out@);
    }
    out
}

/// The character a lowercase entity name stands for, among those ParlWork uses.
pub fn entity_for(name: &str) -> (r: Option<&'static str>)
    ensures
        match r {
            Some(t) => entity_spec(lowercase_of(name@)) == Some(t@),
            None => entity_spec(lowercase_of(name@)) is None,
        },
{
    let lowered = to_lower(name);
    let l = lowered.as_str();
    let eq = |x: &str| -> (b: bool)
        ensures
            b == (l@ == x@),
        { crate::text::str_eq(l, x) };
    if eq("amp") {
        Some("&")
    } else if eq("nbsp") {
        Some(" ")
    } else if eq("quot") {
        Some("\"")
    } else if eq("apos") {
        Some("'")
    } else if eq("lsquo") {
        Some("\u{2018}")
    } else if eq("rsquo") {
        Some("\u{2019}")
    } else if eq("ldquo") {
        Some("\u{201C}")
    } else if eq("rdquo") {
        Some("\u{201D}")
    } else if eq("ndash") {
        Some("\u{2013}")
    } else if eq("mdash") {
        Some("\u{2014}")
    } else if eq("hellip") {
        Some("\u{2026}")
    } else if eq("lt") {
        Some("<")
    } else if eq("gt") {
        Some(">")
    } else {
        None
    }
}

/// Markup removed from ParlWork prose: tags become spaces, character
/// references are decoded (unknown names stay as written), white space is
/// collapsed and the ends trimmed.
pub fn strip_html(html: &str) -> (r: String)
    ensures
        r@ == strip_html_spec(html@),
{
    let v = chars_of(html);
    let a = pass_exec(Pass::Tags, &v);
    let b = pass_exec(Pass::Decimal, &a);
    let c = pass_exec(Pass::Hex, &b);
    let d = pass_exec(Pass::Named, &c);
    let e = pass_exec(Pass::Spaces, &d);
    let f = trim_chars(&e);
    string_of(&f)
}

} // verus!
