//! Kebab-case slugs: lowercase, ASCII, hyphen separated, stable across syncs.

use crate::text::{
    chars_of, is_ascii_digit, is_ascii_lower, lowercase_of, string_of, sub_chars, to_lower,
};
use unicode_normalization::UnicodeNormalization;
use vstd::prelude::*;

verus! {

/// What the NFKD (compatibility decomposition) of a string is; the Unicode
/// decomposition tables take pages to state.
pub uninterp spec fn nfkd_of(s: Seq<char>) -> Seq<char>;

/// `UnicodeNormalization::nfkd` from unicode-normalization, collected. The
/// decomposition is named; stated besides is that 7-bit ASCII text comes
/// back unchanged (it never decomposes, and only non-starters are reordered).
#[verifier::external_body]
fn nfkd(s: &str) -> (r: String)
    ensures
        r@ == nfkd_of(s@),
        (forall|i: int| 0 <= i < s@.len() ==> (#[trigger] s@[i] as u32) <= 0x7f) ==> r@ == s@,
{
    s.nfkd().collect()
}

/// A combining diacritical mark (U+0300..=U+036F).
pub open spec fn is_combining_mark(c: char) -> bool {
    0x300 <= (c as u32) <= 0x36F
}

pub open spec fn strip_marks(s: Seq<char>) -> Seq<char>
    decreases s.len(),
{
    if s.len() == 0 {
        s
    } else if is_combining_mark(s.last()) {
        strip_marks(s.drop_last())
    } else {
        strip_marks(s.drop_last()).push(s.last())
    }
}

pub open spec fn is_slug_char(c: char) -> bool {
    is_ascii_lower(c) || is_ascii_digit(c)
}

/// Apostrophes vanish rather than split a word: O'Brien is obrien.
pub open spec fn is_apostrophe(c: char) -> bool {
    c == '\'' || c == '\u{2019}'
}

/// One character of the slug loop: letters and digits kept, apostrophes
/// dropped, any other run of characters becoming a single hyphen.
pub open spec fn slug_step(out: Seq<char>, c: char) -> Seq<char> {
    if is_apostrophe(c) {
        out
    } else if is_slug_char(c) {
        out.push(c)
    } else if out.len() > 0 && out.last() == '-' {
        out
    } else {
        out.push('-')
    }
}

pub open spec fn slug_scan(s: Seq<char>) -> Seq<char>
    decreases s.len(),
{
    if s.len() == 0 {
        s
    } else {
        slug_step(slug_scan(s.drop_last()), s.last())
    }
}

pub open spec fn drop_leading_dashes(s: Seq<char>) -> Seq<char>
    decreases s.len(),
{
    if s.len() > 0 && s[0] == '-' {
        drop_leading_dashes(s.drop_first())
    } else {
        s
    }
}

pub open spec fn drop_trailing_dashes(s: Seq<char>) -> Seq<char>
    decreases s.len(),
{
    if s.len() > 0 && s.last() == '-' {
        drop_trailing_dashes(s.drop_last())
    } else {
        s
    }
}

/// The slug of already-lowercased, mark-free text.
pub open spec fn slug_of(s: Seq<char>) -> Seq<char> {
    drop_trailing_dashes(drop_leading_dashes(slug_scan(s)))
}

/// `slugify`: decompose, drop combining marks, lowercase, then slug.
pub open spec fn slugify_spec(input: Seq<char>) -> Seq<char> {
    slug_of(lowercase_of(strip_marks(nfkd_of(input))))
}

/// Kebab case: only `[a-z0-9-]`, no hyphen at either end, never two in a row.
pub open spec fn is_kebab(s: Seq<char>) -> bool {
    &&& forall|i: int| 0 <= i < s.len() ==> is_slug_char(#[trigger] s[i]) || s[i] == '-'
    &&& s.len() > 0 ==> s[0] != '-' && s.last() != '-'
    &&& forall|i: int| 0 <= i < s.len() - 1 ==> !(#[trigger] s[i] == '-' && s[i + 1] == '-')
}

/// The scan's output uses only slug characters and hyphens, never two
/// hyphens in a row.
pub open spec fn scan_shape(s: Seq<char>) -> bool {
    &&& forall|i: int| 0 <= i < s.len() ==> is_slug_char(#[trigger] s[i]) || s[i] == '-'
    &&& forall|i: int| 0 <= i < s.len() - 1 ==> !(#[trigger] s[i] == '-' && s[i + 1] == '-')
}

proof fn lemma_scan_shape(s: Seq<char>)
    ensures
        scan_shape(slug_scan(s)),
    decreases s.len(),
{
    if s.len() > 0 {
        lemma_scan_shape(s.drop_last());
        let o = slug_scan(s.drop_last());
        let r = slug_scan(s);
        assert(r == slug_step(o, s.last()));
        if r.len() > o.len() {
            assert forall|i: int| 0 <= i < r.len() - 1 implies !(#[trigger] r[i] == '-' && r[i
                + 1] == '-') by {
                if i < o.len() - 1 {
                    assert(r[i] == o[i] && r[i + 1] == o[i + 1]);
                } else {
                    assert(i == o.len() - 1);
                    assert(r[i] == o.last());
                }
            }
            assert forall|i: int| 0 <= i < r.len() implies is_slug_char(#[trigger] r[i]) || r[i]
                == '-' by {
                if i < o.len() {
                    assert(r[i] == o[i]);
                }
            }
        }
    }
}

proof fn lemma_drop_leading(s: Seq<char>)
    requires
        scan_shape(s),
    ensures
        scan_shape(drop_leading_dashes(s)),
        drop_leading_dashes(s).len() > 0 ==> drop_leading_dashes(s)[0] != '-',
        s.len() > 0 && s.last() != '-' ==> drop_leading_dashes(s).len() > 0
            && drop_leading_dashes(s).last() == s.last(),
        drop_leading_dashes(s).len() == 0 || s.last() == drop_leading_dashes(s).last(),
    decreases s.len(),
{
    if s.len() > 0 && s[0] == '-' {
        let t = s.drop_first();
        assert forall|i: int| 0 <= i < t.len() implies is_slug_char(#[trigger] t[i]) || t[i]
            == '-' by {
            assert(t[i] == s[i + 1]);
        }
        assert forall|i: int| 0 <= i < t.len() - 1 implies !(#[trigger] t[i] == '-' && t[i + 1]
            == '-') by {
            assert(t[i] == s[i + 1] && t[i + 1] == s[i + 2]);
        }
        lemma_drop_leading(t);
    }
}

proof fn lemma_drop_trailing(s: Seq<char>)
    requires
        scan_shape(s),
        s.len() > 0 ==> s[0] != '-',
    ensures
        is_kebab(drop_trailing_dashes(s)),
    decreases s.len(),
{
    if s.len() > 0 && s.last() == '-' {
        let t = s.drop_last();
        assert forall|i: int| 0 <= i < t.len() implies is_slug_char(#[trigger] t[i]) || t[i]
            == '-' by {
            assert(t[i] == s[i]);
        }
        assert forall|i: int| 0 <= i < t.len() - 1 implies !(#[trigger] t[i] == '-' && t[i + 1]
            == '-') by {
            assert(t[i] == s[i] && t[i + 1] == s[i + 1]);
        }
        if t.len() > 0 {
            assert(t[0] == s[0]);
        }
        lemma_drop_trailing(t);
    }
}

/// Every slug is kebab case, whatever text it came from.
pub proof fn law_slug_is_kebab(s: Seq<char>)
    ensures
        is_kebab(slug_of(s)),
{
    lemma_scan_shape(s);
    lemma_drop_leading(slug_scan(s));
    lemma_drop_trailing(drop_leading_dashes(slug_scan(s)));
}

proof fn lemma_strip_marks_none(s: Seq<char>)
    requires
        forall|i: int| 0 <= i < s.len() ==> !is_combining_mark(#[trigger] s[i]),
    ensures
        strip_marks(s) == s,
    decreases s.len(),
{
    if s.len() > 0 {
        let t = s.drop_last();
        assert forall|i: int| 0 <= i < t.len() implies !is_combining_mark(#[trigger] t[i]) by {
            assert(t[i] == s[i]);
        }
        lemma_strip_marks_none(t);
        assert(!is_combining_mark(s[s.len() - 1]));
        assert(t.push(s.last()) =~= s);
    }
}

/// Text already in scan shape that does not open with a hyphen scans to itself.
proof fn lemma_scan_fixed(s: Seq<char>)
    requires
        scan_shape(s),
        s.len() > 0 ==> s[0] != '-',
    ensures
        slug_scan(s) == s,
    decreases s.len(),
{
    if s.len() > 0 {
        let t = s.drop_last();
        assert forall|i: int| 0 <= i < t.len() implies is_slug_char(#[trigger] t[i]) || t[i] == '-' by {
            assert(t[i] == s[i]);
        }
        assert forall|i: int| 0 <= i < t.len() - 1 implies !(#[trigger] t[i] == '-' && t[i + 1] == '-') by {
            assert(t[i] == s[i] && t[i + 1] == s[i + 1]);
        }
        if t.len() > 0 {
            assert(t[0] == s[0]);
        }
        lemma_scan_fixed(t);
        let c = s.last();
        assert(is_slug_char(s[s.len() - 1]) || s[s.len() - 1] == '-');
        if !is_slug_char(c) {
            assert(c == '-');
            assert(s.len() >= 2);
            assert(!(s[s.len() - 2] == '-' && s[s.len() - 1] == '-'));
            assert(t.last() == s[s.len() - 2]);
        }
        assert(t.push(c) =~= s);
    }
}

/// A slug is its own slug.
proof fn lemma_slug_of_kebab(k: Seq<char>)
    requires
        is_kebab(k),
    ensures
        slug_of(k) == k,
{
    lemma_scan_fixed(k);
}

fn strip_marks_exec(v: &Vec<char>) -> (r: Vec<char>)
    ensures
        r@ == strip_marks(v@),
{
    let mut out: Vec<char> = Vec::new();
    let mut i: usize = 0;
    while i < v.len()
        invariant
            i <= v.len(),
            out@ == strip_marks(v@.take(i as int)),
        decreases v.len() - i,
    {
        let c = v[i];
        let u = c as u32;
        assert(v@.take(i + 1).drop_last() =~= v@.take(i as int));
        if !(0x300 <= u && u <= 0x36F) {
            out.push(c);
        }
        i = i + 1;
    }
    assert(v@.take(v.len() as int) =~= v@);
    out
}

fn slug_scan_exec(v: &Vec<char>) -> (r: Vec<char>)
    ensures
        r@ == slug_scan(v@),
{
    let mut out: Vec<char> = Vec::new();
    let mut i: usize = 0;
    while i < v.len()
        invariant
            i <= v.len(),
            out@ == slug_scan(v@.take(i as int)),
        decreases v.len() - i,
    {
        let c = v[i];
        assert(v@.take(i + 1).drop_last() =~= v@.take(i as int));
        if c == '\'' || c == '\u{2019}' {
        } else if ('a' <= c && c <= 'z') || ('0' <= c && c <= '9') {
            out.push(c);
        } else if out.len() > 0 && out[out.len() - 1] == '-' {
        } else {
            out.push('-');
        }
        i = i + 1;
    }
    assert(v@.take(v.len() as int) =~= v@);
    out
}

proof fn lemma_leading_skip(s: Seq<char>, i: int)
    requires
        0 <= i <= s.len(),
        forall|k: int| 0 <= k < i ==> #[trigger] s[k] == '-',
        i == s.len() || s[i] != '-',
    ensures
        drop_leading_dashes(s) == s.skip(i),
    decreases i,
{
    if i == 0 {
        assert(s.skip(0) =~= s);
    } else {
        let t = s.drop_first();
        assert forall|k: int| 0 <= k < i - 1 implies #[trigger] t[k] == '-' by {
            assert(t[k] == s[k + 1]);
        }
        if i - 1 < t.len() {
            assert(t[i - 1] == s[i]);
        }
        lemma_leading_skip(t, i - 1);
        assert(t.skip(i - 1) =~= s.skip(i));
    }
}

proof fn lemma_trailing_take(s: Seq<char>, j: int)
    requires
        0 <= j <= s.len(),
        forall|k: int| j <= k < s.len() ==> #[trigger] s[k] == '-',
        j == 0 || s[j - 1] != '-',
    ensures
        drop_trailing_dashes(s) == s.take(j),
    decreases s.len() - j,
{
    if j == s.len() {
        assert(s.take(j) =~= s);
    } else {
        let t = s.drop_last();
        assert forall|k: int| j <= k < t.len() implies #[trigger] t[k] == '-' by {
            assert(t[k] == s[k]);
        }
        if j > 0 {
            assert(t[j - 1] == s[j - 1]);
        }
        lemma_trailing_take(t, j);
        assert(t.take(j) =~= s.take(j));
    }
}

fn trim_dashes_exec(v: &Vec<char>) -> (r: Vec<char>)
    ensures
        r@ == drop_trailing_dashes(drop_leading_dashes(v@)),
{
    let n = v.len();
    let mut i: usize = 0;
    while i < n && v[i] == '-'
        invariant
            i <= n == v.len(),
            forall|k: int| 0 <= k < i ==> #[trigger] v@[k] == '-',
        decreases n - i,
    {
        i = i + 1;
    }
    proof {
        lemma_leading_skip(v@, i as int);
    }
    let mut j: usize = n;
    while j > i && v[j - 1] == '-'
        invariant
            i <= j <= n == v.len(),
            forall|k: int| j <= k < n ==> #[trigger] v@[k] == '-',
        decreases j,
    {
        j = j - 1;
    }
    proof {
        let t = v@.skip(i as int);
        let jj = j - i;
        assert forall|k: int| jj <= k < t.len() implies #[trigger] t[k] == '-' by {
            assert(t[k] == v@[k + i]);
        }
        if jj > 0 {
            assert(t[jj - 1] == v@[j - 1]);
        }
        lemma_trailing_take(t, jj as int);
        assert(t.take(jj as int) =~= v@.subrange(i as int, j as int));
    }
    sub_chars(v, i, j)
}

/// Kebab-case slug: lowercase, ASCII, hyphen separated. Stable across syncs:
/// a slug is its own slug, so slugifying a slug changes nothing.
pub fn slugify(input: &str) -> (r: String)
    ensures
        r@ == slugify_spec(input@),
        is_kebab(r@),
        is_kebab(input@) ==> r@ == input@,
{
    let decomposed = nfkd(input);
    let chars = chars_of(decomposed.as_str());
    let stripped = strip_marks_exec(&chars);
    let stripped_text = string_of(&stripped);
    let lowered = to_lower(stripped_text.as_str());
    let lowered_chars = chars_of(lowered.as_str());
    let scanned = slug_scan_exec(&lowered_chars);
    let trimmed = trim_dashes_exec(&scanned);
    proof {
        law_slug_is_kebab(lowercase_of(strip_marks(nfkd_of(input@))));
        if is_kebab(input@) {
            assert forall|i: int| 0 <= i < input@.len() implies (#[trigger] input@[i] as u32) <= 0x7f by {
                assert(is_slug_char(input@[i]) || input@[i] == '-');
            }
            assert(decomposed@ == input@);
            assert forall|i: int| 0 <= i < input@.len() implies !is_combining_mark(#[trigger] input@[i]) by {
                assert(is_slug_char(input@[i]) || input@[i] == '-');
            }
            lemma_strip_marks_none(input@);
            assert(stripped_text@ == input@);
            assert forall|i: int| 0 <= i < input@.len() implies is_ascii_lower(#[trigger] input@[i])
                || is_ascii_digit(input@[i]) || input@[i] == '-' by {
                assert(is_slug_char(input@[i]) || input@[i] == '-');
            }
            assert(lowered@ == input@);
            lemma_slug_of_kebab(input@);
        }
    }
    string_of(&trimmed)
}

} // verus!
