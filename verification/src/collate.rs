//! String order matching JavaScript's default `localeCompare` (ICU, English).

use icu::collator::options::CollatorOptions;
use icu::collator::Collator;
use icu::locale::Locale;
use std::cmp::Ordering;
use vstd::prelude::*;

verus! {

/// Where ICU's English collation places `a` relative to `b`: negative before,
/// zero level, positive after. The collation tables take pages to state.
pub uninterp spec fn collation_rank(a: Seq<char>, b: Seq<char>) -> int;

/// String comparison matching JavaScript's default localeCompare (ICU en),
/// through icu_collator's `CollatorBorrowed::compare`. That function returns
/// `Equal` at once for identical strings, and its documentation has callers
/// swap the arguments and reverse the result, so swapping the arguments
/// reverses the order; both are stated here. The order between two different
/// strings is only named.
#[verifier::external_body]
pub fn js_compare(a: &str, b: &str) -> (r: Ordering)
    ensures
        a@ == b@ ==> r == Ordering::Equal,
        r == Ordering::Less ==> collation_rank(a@, b@) < 0 && collation_rank(b@, a@) > 0,
        r == Ordering::Equal ==> collation_rank(a@, b@) == 0 && collation_rank(b@, a@) == 0,
        r == Ordering::Greater ==> collation_rank(a@, b@) > 0 && collation_rank(b@, a@) < 0,
{
    let en: Locale = "en".parse().expect("en is a valid locale");
    let collator = Collator::try_new(en.into(), CollatorOptions::default())
        .expect("en collation data is compiled in");
    collator.compare(a, b)
}

/// Whether `a` sorts strictly before `b`.
pub fn collates_before(a: &str, b: &str) -> (r: bool)
    ensures
        r == (collation_rank(a@, b@) < 0),
        !r ==> collation_rank(b@, a@) <= 0,
        a@ == b@ ==> !r,
{
    match js_compare(a, b) {
        Ordering::Less => true,
        Ordering::Equal => false,
        Ordering::Greater => false,
    }
}

} // verus!
