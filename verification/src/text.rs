//! Character-level helpers shared by every source: whitespace, trimming,
//! splitting, prefix and suffix tests, and the few std conversions that the
//! verified code needs.

use vstd::prelude::*;

verus! {

/// Unicode `White_Space`: what `str::trim` and the regex class `\s` strip.
pub open spec fn is_white_space(c: char) -> bool {
    let u = c as u32;
    ||| 0x09 <= u <= 0x0D
    ||| u == 0x20
    ||| u == 0x85
    ||| u == 0xA0
    ||| u == 0x1680
    ||| 0x2000 <= u <= 0x200A
    ||| u == 0x2028
    ||| u == 0x2029
    ||| u == 0x202F
    ||| u == 0x205F
    ||| u == 0x3000
}

pub fn white_space(c: char) -> (b: bool)
    ensures
        b == is_white_space(c),
{
    let u = c as u32;
    (0x09 <= u && u <= 0x0D) || u == 0x20 || u == 0x85 || u == 0xA0 || u == 0x1680 || (0x2000
        <= u && u <= 0x200A) || u == 0x2028 || u == 0x2029 || u == 0x202F || u == 0x205F || u
        == 0x3000
}

pub open spec fn is_ascii_lower(c: char) -> bool {
    'a' <= c && c <= 'z'
}

pub open spec fn is_ascii_upper(c: char) -> bool {
    'A' <= c && c <= 'Z'
}

pub open spec fn is_ascii_digit(c: char) -> bool {
    '0' <= c && c <= '9'
}

/// The ASCII capital of a lowercase ASCII letter.
pub open spec fn upper_ascii(c: char) -> char
    recommends
        is_ascii_lower(c),
{
    ((c as u32) - 32) as char
}

pub fn to_upper_ascii(c: char) -> (r: char)
    requires
        is_ascii_lower(c),
    ensures
        r == upper_ascii(c),
        is_ascii_upper(r),
{
    let u = (c as u32) - 32;
    assert(0x41 <= u <= 0x5A);
    let b = u as u8;
    let r = b as char;
    r
}

/// Leading white space removed.
pub open spec fn trim_start_seq(s: Seq<char>) -> Seq<char>
    decreases s.len(),
{
    if s.len() > 0 && is_white_space(s[0]) {
        trim_start_seq(s.drop_first())
    } else {
        s
    }
}

/// Trailing white space removed.
pub open spec fn trim_end_seq(s: Seq<char>) -> Seq<char>
    decreases s.len(),
{
    if s.len() > 0 && is_white_space(s.last()) {
        trim_end_seq(s.drop_last())
    } else {
        s
    }
}

/// `str::trim`: leading and trailing white space removed.
pub open spec fn trim_seq(s: Seq<char>) -> Seq<char> {
    trim_end_seq(trim_start_seq(s))
}

pub proof fn lemma_trim_start_skip(s: Seq<char>, i: int)
    requires
        0 <= i <= s.len(),
        forall|k: int| 0 <= k < i ==> is_white_space(#[trigger] s[k]),
        i == s.len() || !is_white_space(s[i]),
    ensures
        trim_start_seq(s) == s.skip(i),
    decreases i,
{
    if i == 0 {
        assert(s.skip(0) =~= s);
    } else {
        let t = s.drop_first();
        assert forall|k: int| 0 <= k < i - 1 implies is_white_space(#[trigger] t[k]) by {
            assert(t[k] == s[k + 1]);
        }
        if i - 1 < t.len() {
            assert(t[i - 1] == s[i]);
        }
        lemma_trim_start_skip(t, i - 1);
        assert(t.skip(i - 1) =~= s.skip(i));
    }
}

pub proof fn lemma_trim_end_take(s: Seq<char>, j: int)
    requires
        0 <= j <= s.len(),
        forall|k: int| j <= k < s.len() ==> is_white_space(#[trigger] s[k]),
        j == 0 || !is_white_space(s[j - 1]),
    ensures
        trim_end_seq(s) == s.take(j),
    decreases s.len() - j,
{
    if j == s.len() {
        assert(s.take(j) =~= s);
    } else {
        let t = s.drop_last();
        assert forall|k: int| j <= k < t.len() implies is_white_space(#[trigger] t[k]) by {
            assert(t[k] == s[k]);
        }
        if j > 0 {
            assert(t[j - 1] == s[j - 1]);
        }
        lemma_trim_end_take(t, j);
        assert(t.take(j) =~= s.take(j));
    }
}

/// The characters from `i` (inclusive) to `j` (exclusive).
pub fn sub_chars(v: &Vec<char>, i: usize, j: usize) -> (r: Vec<char>)
    requires
        i <= j <= v.len(),
    ensures
        r@ == v@.subrange(i as int, j as int),
{
    let mut out: Vec<char> = Vec::new();
    let mut k = i;
    while k < j
        invariant
            i <= k <= j <= v.len(),
            out@ == v@.subrange(i as int, k as int),
        decreases j - k,
    {
        out.push(v[k]);
        k = k + 1;
        assert(out@ =~= v@.subrange(i as int, k as int));
    }
    out
}

pub fn trim_chars(v: &Vec<char>) -> (r: Vec<char>)
    ensures
        r@ == trim_seq(v@),
{
    let n = v.len();
    let mut i: usize = 0;
    while i < n && white_space(v[i])
        invariant
            i <= n == v.len(),
            forall|k: int| 0 <= k < i ==> is_white_space(#[trigger] v@[k]),
        decreases n - i,
    {
        i = i + 1;
    }
    proof {
        lemma_trim_start_skip(v@, i as int);
    }
    let mut j: usize = n;
    while j > i && white_space(v[j - 1])
        invariant
            i <= j <= n == v.len(),
            forall|k: int| j <= k < n ==> is_white_space(#[trigger] v@[k]),
        decreases j,
    {
        j = j - 1;
    }
    proof {
        let t = v@.skip(i as int);
        let jj = j - i;
        assert forall|k: int| jj <= k < t.len() implies is_white_space(#[trigger] t[k]) by {
            assert(t[k] == v@[k + i]);
        }
        if jj > 0 {
            assert(t[jj - 1] == v@[j - 1]);
        }
        lemma_trim_end_take(t, jj as int);
        assert(t.take(jj as int) =~= v@.subrange(i as int, j as int));
    }
    sub_chars(v, i, j)
}

/// `str::trim` on an owned copy.
pub fn trim(s: &str) -> (r: String)
    ensures
        r@ == trim_seq(s@),
{
    let v = chars_of(s);
    let t = trim_chars(&v);
    string_of(&t)
}

/// The characters of a string slice, in order.
pub fn chars_of(s: &str) -> (r: Vec<char>)
    ensures
        r@ == s@,
{
    let mut out: Vec<char> = Vec::new();
    for c in it: s.chars()
        invariant
            out@ == it.seq().take(it.index() as int),
            it.seq() == s@,
    {
        out.push(c);
    }
    out
}

/// Collects characters into an owned string (`FromIterator<char> for String`).
#[verifier::external_body]
pub(crate) fn string_of(chars: &Vec<char>) -> (r: String)
    ensures
        r@ == chars@,
{
    chars.iter().collect()
}

/// The texts of a sequence of strings.
pub open spec fn string_views(v: Seq<String>) -> Seq<Seq<char>> {
    v.map_values(|s: String| s@)
}

/// The text of an optional string slice.
pub open spec fn opt_str_view(o: Option<&str>) -> Option<Seq<char>> {
    match o {
        Some(s) => Some(s@),
        None => None,
    }
}

/// An owned copy of a string slice.
pub fn owned(s: &str) -> (r: String)
    ensures
        r@ == s@,
{
    let v = chars_of(s);
    string_of(&v)
}

/// What `str::to_lowercase` returns: Unicode lowercase mapping, which takes
/// pages of tables to state.
pub uninterp spec fn lowercase_of(s: Seq<char>) -> Seq<char>;

/// What `str::to_uppercase` returns: Unicode uppercase mapping.
pub uninterp spec fn uppercase_of(s: Seq<char>) -> Seq<char>;

/// Whether `char::is_alphanumeric` holds: the Unicode Alphabetic or Numeric
/// property, whose tables take pages to state.
pub uninterp spec fn is_alphanumeric(c: char) -> bool;

/// Whether `c` is a Unicode decimal digit (general category Nd): the class
/// a regular expression's `\d` matches. The category tables take pages to
/// state.
pub uninterp spec fn is_decimal_digit(c: char) -> bool;

/// icu_properties' general category of `c` (`CodePointMapData::<GeneralCategory>`
/// from the compiled data), tested for `DecimalNumber`. The category is
/// named; stated besides is that '0' to '9' are decimal digits.
#[verifier::external_body]
pub(crate) fn decimal_digit(c: char) -> (r: bool)
    ensures
        r == is_decimal_digit(c),
        is_ascii_digit(c) ==> r,
{
    icu::properties::CodePointMapData::<icu::properties::props::GeneralCategory>::new().get(c)
        == icu::properties::props::GeneralCategory::DecimalNumber
}

/// `char::is_alphanumeric`; the answer is named, not spelled out.
#[verifier::external_body]
pub(crate) fn alphanumeric(c: char) -> (r: bool)
    ensures
        r == is_alphanumeric(c),
{
    c.is_alphanumeric()
}

/// `str::to_lowercase`; the result is named, not spelled out. Of the
/// mapping only this is stated: text of ASCII lowercase letters, digits and
/// hyphens (already lowercase, or without case) comes back as it was.
#[verifier::external_body]
pub(crate) fn to_lower(s: &str) -> (r: String)
    ensures
        r@ == lowercase_of(s@),
        (forall|i: int|
            0 <= i < s@.len() ==> is_ascii_lower(#[trigger] s@[i]) || is_ascii_digit(s@[i]) || s@[i] == '-')
            ==> r@ == s@,
{
    s.to_lowercase()
}

/// `str::to_uppercase`; the result is named, not spelled out.
#[verifier::external_body]
pub(crate) fn to_upper(s: &str) -> (r: String)
    ensures
        r@ == uppercase_of(s@),
{
    s.to_uppercase()
}

/// `char::from_u32`: `Some` exactly for Unicode scalar values.
#[verifier::external_body]
pub(crate) fn char_from_u32(u: u32) -> (r: Option<char>)
    ensures
        r is Some <==> (u <= 0x10FFFF && !(0xD800 <= u <= 0xDFFF)),
        r matches Some(c) ==> c as u32 == u,
{
    char::from_u32(u)
}

/// Equality of two string slices by their characters.
pub fn str_eq(a: &str, b: &str) -> (r: bool)
    ensures
        r == (a@ == b@),
{
    let x = chars_of(a);
    let y = chars_of(b);
    chars_eq(&x, &y)
}

pub fn chars_eq(x: &Vec<char>, y: &Vec<char>) -> (r: bool)
    ensures
        r == (x@ == y@),
{
    if x.len() != y.len() {
        return false;
    }
    let mut i: usize = 0;
    while i < x.len()
        invariant
            i <= x.len() == y.len(),
            forall|k: int| 0 <= k < i ==> x@[k] == y@[k],
        decreases x.len() - i,
    {
        if x[i] != y[i] {
            return false;
        }
        i = i + 1;
    }
    assert(x@ =~= y@);
    true
}

pub open spec fn has_prefix(s: Seq<char>, p: Seq<char>) -> bool {
    p.len() <= s.len() && s.take(p.len() as int) == p
}

pub open spec fn has_suffix(s: Seq<char>, p: Seq<char>) -> bool {
    p.len() <= s.len() && s.skip(s.len() - p.len()) == p
}

pub fn starts_with(s: &str, p: &str) -> (r: bool)
    ensures
        r == has_prefix(s@, p@),
{
    let x = chars_of(s);
    let y = chars_of(p);
    if y.len() > x.len() {
        return false;
    }
    let mut i: usize = 0;
    while i < y.len()
        invariant
            i <= y.len() <= x.len(),
            x@ == s@,
            y@ == p@,
            forall|k: int| 0 <= k < i ==> x@[k] == y@[k],
        decreases y.len() - i,
    {
        if x[i] != y[i] {
            assert(x@.take(y.len() as int)[i as int] == x@[i as int]);
            assert(x@.take(y.len() as int) != y@);
            return false;
        }
        i = i + 1;
    }
    assert(x@.take(y.len() as int) =~= y@);
    true
}

pub fn ends_with(s: &str, p: &str) -> (r: bool)
    ensures
        r == has_suffix(s@, p@),
{
    let x = chars_of(s);
    let y = chars_of(p);
    if y.len() > x.len() {
        return false;
    }
    let off = x.len() - y.len();
    let mut i: usize = 0;
    while i < y.len()
        invariant
            i <= y.len() <= x.len(),
            x@ == s@,
            y@ == p@,
            off == x.len() - y.len(),
            forall|k: int| 0 <= k < i ==> x@[off + k] == y@[k],
        decreases y.len() - i,
    {
        if x[off + i] != y[i] {
            assert(x@.skip(off as int)[i as int] == x@[off + i]);
            assert(x@.skip(off as int) != y@);
            return false;
        }
        i = i + 1;
    }
    assert(x@.skip(off as int) =~= y@);
    true
}

/// Index of the first `c` in `s`, or -1.
pub open spec fn first_index(s: Seq<char>, c: char) -> int
    decreases s.len(),
{
    if s.len() == 0 {
        -1
    } else if s[0] == c {
        0
    } else {
        let r = first_index(s.drop_first(), c);
        if r < 0 {
            -1
        } else {
            r + 1
        }
    }
}

pub proof fn lemma_first_index(s: Seq<char>, c: char, i: int)
    requires
        0 <= i <= s.len(),
        forall|k: int| 0 <= k < i ==> #[trigger] s[k] != c,
    ensures
        i < s.len() && s[i] == c ==> first_index(s, c) == i,
        i == s.len() ==> first_index(s, c) == -1,
    decreases i,
{
    if i > 0 {
        let t = s.drop_first();
        assert forall|k: int| 0 <= k < i - 1 implies #[trigger] t[k] != c by {
            assert(t[k] == s[k + 1]);
        }
        if i < s.len() {
            assert(t[i - 1] == s[i]);
        }
        lemma_first_index(t, c, i - 1);
    }
}

pub proof fn lemma_first_index_bounds(s: Seq<char>, c: char)
    ensures
        -1 <= first_index(s, c) < s.len(),
        first_index(s, c) >= 0 ==> s[first_index(s, c)] == c,
        first_index(s, c) >= 0 ==> forall|k: int|
            0 <= k < first_index(s, c) ==> #[trigger] s[k] != c,
        first_index(s, c) < 0 ==> forall|k: int| 0 <= k < s.len() ==> #[trigger] s[k] != c,
    decreases s.len(),
{
    if s.len() > 0 && s[0] != c {
        let t = s.drop_first();
        lemma_first_index_bounds(t, c);
        assert forall|k: int| 0 < k < s.len() implies s[k] == t[k - 1] by {}
        if first_index(s, c) < 0 {
            assert forall|k: int| 0 <= k < s.len() implies #[trigger] s[k] != c by {
                if k > 0 {
                    assert(s[k] == t[k - 1]);
                }
            }
        } else {
            assert forall|k: int| 0 <= k < first_index(s, c) implies #[trigger] s[k] != c by {
                if k > 0 {
                    assert(s[k] == t[k - 1]);
                }
            }
        }
    }
}

/// `str::split(c)`: the pieces between the separators, empty pieces kept.
pub open spec fn split_seq(s: Seq<char>, c: char) -> Seq<Seq<char>>
    decreases s.len(),
{
    let i = first_index(s, c);
    if i < 0 {
        seq![s]
    } else {
        proof {
            lemma_first_index_bounds(s, c);
        }
        seq![s.take(i)] + split_seq(s.skip(i + 1), c)
    }
}

pub open spec fn views_of(v: Seq<Vec<char>>) -> Seq<Seq<char>> {
    v.map_values(|x: Vec<char>| x@)
}

pub fn split_chars(s: &Vec<char>, c: char) -> (r: Vec<Vec<char>>)
    ensures
        views_of(r@) == split_seq(s@, c),
        r@.len() >= 1,
    decreases s@.len(),
{
    let n = s.len();
    let mut i: usize = 0;
    while i < n && s[i] != c
        invariant
            i <= n == s.len(),
            forall|k: int| 0 <= k < i ==> #[trigger] s@[k] != c,
        decreases n - i,
    {
        i = i + 1;
    }
    proof {
        lemma_first_index(s@, c, i as int);
    }
    let head = sub_chars(s, 0, i);
    let mut out: Vec<Vec<char>> = Vec::new();
    out.push(head);
    if i == n {
        assert(s@.take(i as int) =~= s@);
        assert(views_of(out@) =~= seq![s@]);
        return out;
    }
    let rest = sub_chars(s, i + 1, n);
    assert(rest@ =~= s@.skip(i + 1));
    let mut tail = split_chars(&rest, c);
    let ghost o = out@;
    let ghost t = tail@;
    out.append(&mut tail);
    proof {
        assert(out@ =~= o + t);
        assert(views_of(out@) =~= views_of(o) + views_of(t));
        assert(views_of(o) =~= seq![s@.take(i as int)]);
    }
    out
}

/// Every `from` character replaced by `to`.
pub open spec fn replace_char_seq(s: Seq<char>, from: char, to: char) -> Seq<char> {
    s.map_values(|x: char| if x == from { to } else { x })
}

pub fn replace_char(s: &str, from: char, to: char) -> (r: String)
    ensures
        r@ == replace_char_seq(s@, from, to),
{
    let v = chars_of(s);
    let mut out: Vec<char> = Vec::new();
    let mut i: usize = 0;
    while i < v.len()
        invariant
            i <= v.len(),
            out@ == replace_char_seq(v@.take(i as int), from, to),
        decreases v.len() - i,
    {
        let x = v[i];
        out.push(if x == from { to } else { x });
        i = i + 1;
        assert(out@ =~= replace_char_seq(v@.take(i as int), from, to));
    }
    assert(v@.take(v.len() as int) =~= v@);
    string_of(&out)
}

/// `a` followed by `b`.
pub fn concat2(a: &str, b: &str) -> (r: String)
    ensures
        r@ == a@ + b@,
{
    let mut x = chars_of(a);
    let mut y = chars_of(b);
    let ghost xa = x@;
    x.append(&mut y);
    string_of(&x)
}

pub fn concat3(a: &str, b: &str, c: &str) -> (r: String)
    ensures
        r@ == a@ + b@ + c@,
{
    let ab = concat2(a, b);
    concat2(ab.as_str(), c)
}

/// The decimal digit character for `d < 10`.
pub open spec fn digit_char(d: nat) -> char {
    (48 + d) as char
}

/// Decimal text of a natural number, without leading zeros.
pub open spec fn decimal_nat(n: nat) -> Seq<char>
    decreases n,
{
    if n < 10 {
        seq![digit_char(n)]
    } else {
        decimal_nat(n / 10).push(digit_char(n % 10))
    }
}

/// Decimal text of an integer, with a leading minus when negative.
pub open spec fn decimal_int(n: int) -> Seq<char> {
    if n < 0 {
        seq!['-'] + decimal_nat((-n) as nat)
    } else {
        decimal_nat(n as nat)
    }
}

fn nat_chars(m: u64) -> (r: Vec<char>)
    ensures
        r@ == decimal_nat(m as nat),
    decreases m,
{
    let d = (m % 10) as u8;
    let c = (48u8 + d) as char;
    if m < 10 {
        let mut v: Vec<char> = Vec::new();
        v.push(c);
        assert(v@ =~= seq![digit_char(m as nat)]);
        v
    } else {
        let mut v = nat_chars(m / 10);
        v.push(c);
        v
    }
}

/// `u64::to_string`.
pub fn uint_text(n: u64) -> (r: String)
    ensures
        r@ == decimal_int(n as int),
{
    let digits = nat_chars(n);
    string_of(&digits)
}

/// `i64::to_string`.
pub fn int_text(n: i64) -> (r: String)
    ensures
        r@ == decimal_int(n as int),
{
    if n < 0 {
        let wide: i128 = n as i128;
        let m: u64 = (0 - wide) as u64;
        let digits = nat_chars(m);
        let mut v: Vec<char> = Vec::new();
        v.push('-');
        let mut d = digits;
        let ghost dv = d@;
        v.append(&mut d);
        assert(v@ =~= seq!['-'] + dv);
        string_of(&v)
    } else {
        let digits = nat_chars(n as u64);
        string_of(&digits)
    }
}

/// `str::replace(pat, rep)`: every non-overlapping occurrence of a
/// non-empty `pat`, found left to right, replaced by `rep`.
pub open spec fn replace_seq(s: Seq<char>, pat: Seq<char>, rep: Seq<char>) -> Seq<char>
    decreases s.len(),
{
    if s.len() == 0 || pat.len() == 0 {
        s
    } else if has_prefix(s, pat) {
        rep + replace_seq(s.skip(pat.len() as int), pat, rep)
    } else {
        seq![s[0]] + replace_seq(s.drop_first(), pat, rep)
    }
}

/// Whether `pat` occurs in `s` at position `i`.
pub fn occurs_at(v: &Vec<char>, i: usize, p: &Vec<char>) -> (r: bool)
    requires
        i <= v.len(),
    ensures
        r == has_prefix(v@.skip(i as int), p@),
{
    if p.len() > v.len() - i {
        return false;
    }
    let mut k: usize = 0;
    while k < p.len()
        invariant
            k <= p.len() <= v.len() - i,
            forall|j: int| 0 <= j < k ==> v@[i + j] == p@[j],
        decreases p.len() - k,
    {
        if v[i + k] != p[k] {
            assert(v@.skip(i as int).take(p.len() as int)[k as int] == v@[i + k]);
            return false;
        }
        k = k + 1;
    }
    assert(v@.skip(i as int).take(p.len() as int) =~= p@);
    true
}

pub fn replace_all(s: &str, pat: &str, rep: &str) -> (r: String)
    ensures
        r@ == replace_seq(s@, pat@, rep@),
{
    let v = chars_of(s);
    let p = chars_of(pat);
    let q = chars_of(rep);
    if p.len() == 0 {
        return string_of(&v);
    }
    let mut out: Vec<char> = Vec::new();
    let mut i: usize = 0;
    assert(v@.skip(0) =~= v@);
    while i < v.len()
        invariant
            i <= v.len(),
            p@ == pat@,
            q@ == rep@,
            v@ == s@,
            p@.len() > 0,
            out@ + replace_seq(v@.skip(i as int), p@, q@) == replace_seq(v@, p@, q@),
        decreases v.len() - i,
    {
        let ghost t = v@.skip(i as int);
        if occurs_at(&v, i, &p) {
            let ghost o = out@;
            let mut piece = sub_chars(&q, 0, q.len());
            assert(piece@ =~= q@);
            out.append(&mut piece);
            proof {
                assert(t.skip(p@.len() as int) =~= v@.skip(i + p@.len()));
                assert(o + (q@ + replace_seq(t.skip(p@.len() as int), p@, q@)) =~= out@ + replace_seq(
                    v@.skip(i + p@.len()),
                    p@,
                    q@,
                ));
            }
            i = i + p.len();
        } else {
            let ghost o = out@;
            out.push(v[i]);
            proof {
                assert(t.drop_first() =~= v@.skip(i + 1));
                assert(t[0] == v@[i as int]);
                assert(o + (seq![t[0]] + replace_seq(t.drop_first(), p@, q@)) =~= out@ + replace_seq(
                    v@.skip(i + 1),
                    p@,
                    q@,
                ));
            }
            i = i + 1;
        }
    }
    assert(v@.skip(i as int).len() == 0);
    assert(out@ + Seq::<char>::empty() =~= out@);
    string_of(&out)
}

/// Whether `pat` occurs anywhere in `s`.
pub open spec fn contains_seq(s: Seq<char>, pat: Seq<char>) -> bool {
    exists|i: int| 0 <= i <= s.len() && #[trigger] has_prefix(s.skip(i), pat)
}

pub fn contains(s: &str, pat: &str) -> (r: bool)
    ensures
        r == contains_seq(s@, pat@),
{
    let v = chars_of(s);
    let p = chars_of(pat);
    if p.len() == 0 {
        assert(v@.skip(0).take(0) =~= p@);
        assert(has_prefix(v@.skip(0), p@));
        return true;
    }
    let mut i: usize = 0;
    while i < v.len()
        invariant
            i <= v.len(),
            p@.len() > 0,
            v@ == s@,
            p@ == pat@,
            forall|j: int| 0 <= j < i ==> !#[trigger] has_prefix(v@.skip(j), p@),
        decreases v.len() - i,
    {
        if occurs_at(&v, i, &p) {
            return true;
        }
        i = i + 1;
    }
    assert(forall|j: int| 0 <= j <= v@.len() ==> !#[trigger] has_prefix(v@.skip(j), p@)) by {
        assert(v@.skip(v@.len() as int).len() == 0);
    }
    false
}

} // verus!
