use pollywiki::aec_profiles::{
    after_page_failure, clean, enrolment_raw_key, enrolment_table, enrolment_url, parse_dt_dd,
    parse_i64, profile_facts, profile_key, state_path,
};

const PROFILE_HTML: &str = "<dl><dt>Name derivation:</dt><dd>Named for a sample</dd>\
    <dt>Location description:</dt><dd>Inner suburbs</dd><dt>Area:</dt><dd>52 sq km</dd>\
    <dt>Date this name and boundary was gazetted:</dt><dd>31 July 2024</dd>\
    <dt>First election this name was used at:</dt><dd>1949</dd>\
    <dt>Demographic rating:</dt><dd>Inner Metropolitan</dd></dl>";

#[test]
fn profile_text_decodes_the_entities_aec_pages_use() {
    let pairs = parse_dt_dd(
        "<dl><dt>Demographic Rating:</dt><dd>Inner Metropolitan &ndash; well-established \
         suburbs</dd><dt>Name derivation:</dt><dd>Named for the O&rsquo;Brien family \
         &amp; others &#8212; see the note &#x2013; 1949</dd></dl>",
    );
    assert_eq!(
        pairs.get("demographic rating").map(String::as_str),
        Some("Inner Metropolitan \u{2013} well-established suburbs")
    );
    assert_eq!(
        pairs.get("name derivation").map(String::as_str),
        Some("Named for the O\u{2019}Brien family & others \u{2014} see the note \u{2013} 1949")
    );
}

#[test]
fn escaped_entities_are_not_decoded_twice() {
    // "&amp;ndash;" is the text "&ndash;", not an en dash.
    let pairs = parse_dt_dd("<dl><dt>Area:</dt><dd>writes &amp;ndash; verbatim</dd></dl>");
    assert_eq!(
        pairs.get("area").map(String::as_str),
        Some("writes &ndash; verbatim")
    );
}

#[test]
fn every_profile_fact_is_read_from_its_label() {
    let facts = profile_facts(PROFILE_HTML);
    assert_eq!(facts.name_derivation.as_deref(), Some("Named for a sample"));
    assert_eq!(facts.location.as_deref(), Some("Inner suburbs"));
    assert_eq!(facts.area.as_deref(), Some("52 sq km"));
    assert_eq!(facts.gazetted.as_deref(), Some("31 July 2024"));
    assert_eq!(facts.first_contested.as_deref(), Some("1949"));
    assert_eq!(facts.demographic.as_deref(), Some("Inner Metropolitan"));
}

#[test]
fn tags_in_either_case_and_attributes_are_matched() {
    let pairs = parse_dt_dd(
        "<DL><DT class=\"x\">Area:</DT>\n  <DD id=\"y\"><b>52</b> sq km</DD><dt></dt><dd>orphan</dd></DL>",
    );
    assert_eq!(pairs.len(), 1, "an empty label is skipped");
    assert_eq!(pairs.get("area").map(String::as_str), Some("52 sq km"));
}

#[test]
fn a_label_without_a_value_takes_the_next_pair_into_its_text() {
    // The label runs to the first `</dt>` followed by a `<dd>`.
    let pairs = parse_dt_dd("<dt>A</dt><p>x</p><dt>B:</dt><dd>v</dd>");
    assert_eq!(pairs.len(), 1);
    assert_eq!(pairs.get("a x b").map(String::as_str), Some("v"));
}

#[test]
fn cleaning_drops_invalid_references_and_collapses_space() {
    assert_eq!(clean("  a <i>b</i>\n\tc  "), "a b c");
    assert_eq!(clean("x&#55296;y"), "xy");
    assert_eq!(clean("&#65;&#x42;&lt;&gt;"), "AB<>");
    assert_eq!(clean("&unknown;"), "&unknown;");
}

#[test]
fn whole_numbers_parse_as_std_does() {
    assert_eq!(parse_i64("118432"), Some(118432));
    assert_eq!(parse_i64("+7"), Some(7));
    assert_eq!(parse_i64("-9223372036854775808"), Some(i64::MIN));
    assert_eq!(parse_i64("9223372036854775807"), Some(i64::MAX));
    assert_eq!(parse_i64("9223372036854775808"), None);
    assert_eq!(parse_i64(""), None);
    assert_eq!(parse_i64("-"), None);
    assert_eq!(parse_i64("1 2"), None);
}

#[test]
fn enrolment_rows_are_keyed_by_lowercased_seat_name() {
    let table = enrolment_table(
        "Enrolment as at some date\nStateAb,DivisionID,DivisionNm,Enrolment\nVIC,101,Sampleford,118432\nVIC,102,Nowhere,0\nVIC,103,,55\n",
    );
    assert_eq!(table.len(), 1);
    assert_eq!(table.get("sampleford"), Some(&118432));
    let fallback = enrolment_table(
        "title\nDivisionNm,CloseOfRollsEnrolment\nPlaceholder Bay, 900 \n",
    );
    assert_eq!(fallback.get("placeholder bay"), Some(&900));
}

#[test]
fn profile_addresses_are_derived_from_the_seat() {
    assert_eq!(state_path("VIC"), "vic");
    assert_eq!(state_path("XX"), "");
    assert_eq!(
        profile_key("sampleford"),
        "canonical/electorate-profiles/sampleford.json"
    );
    assert_eq!(
        enrolment_url("https://results.aec.gov.au", "31496"),
        "https://results.aec.gov.au/31496/Website/Downloads/GeneralEnrolmentByDivisionDownload-31496.csv"
    );
    assert_eq!(
        enrolment_raw_key("31496"),
        "raw/aec/31496/GeneralEnrolmentByDivisionDownload.csv"
    );
}

#[test]
fn the_tenth_failed_page_stops_the_sync() {
    assert_eq!(after_page_failure(0), (1, false));
    assert_eq!(after_page_failure(8), (9, false));
    assert_eq!(after_page_failure(9), (10, true));
}
