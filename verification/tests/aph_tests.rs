use pollywiki::aph::{
    carries_html_entity, dot_net_date, merge_existing, to_bill, to_raiser, with_detail,
    ParlWorkBill, ParlWorkDetail, ParlWorkDetailBill, ParlWorkPerson, ParlWorkProgressGroup,
    ParlWorkProgressState,
};
use pollywiki::html::strip_html;
use pollywiki::schema::{AiText, BillRaiser, House, TimelineStep};

fn s(v: &str) -> Option<String> {
    Some(v.to_string())
}

fn list_bill(
    id: Option<String>,
    title: Option<String>,
    chamber: Option<String>,
    status: Option<String>,
    summary: Option<String>,
    updated: Option<String>,
) -> ParlWorkBill {
    ParlWorkBill {
        id,
        title,
        formatted_originating_chamber: chamber,
        status,
        summary,
        last_updated_date_time: updated,
    }
}

fn person(name: Option<String>, id: Option<String>) -> ParlWorkPerson {
    ParlWorkPerson { display_name: name, id }
}

fn step(description: Option<String>, date: Option<String>) -> ParlWorkProgressState {
    ParlWorkProgressState { description, update_date: date }
}

#[test]
fn list_records_become_bills_with_an_official_link() {
    let bill = to_bill(
        &list_bill(
            s("r7123"),
            s("Example Bill 2026"),
            s("House of Representatives"),
            s("Before Senate"),
            s("<p>Amends the <b>Example Act</b>.</p>"),
            s("/Date(1755000000000+1000)/"),
        ),
        48,
    );
    assert_eq!(bill.id, "r7123");
    assert_eq!(bill.chamber, House::Representatives);
    assert_eq!(bill.status, "Before Senate");
    // Markup is stripped from the official summary before it is stored.
    assert_eq!(bill.summary.as_deref(), Some("Amends the Example Act ."));
    assert!(bill
        .links
        .aph
        .as_deref()
        .is_some_and(|u| u.ends_with("bId=r7123")));
    assert!(bill.list_updated.is_some(), "the freshness marker is kept");
}

#[test]
fn a_senate_bill_is_recognised_and_gaps_get_defaults() {
    let senate = to_bill(&list_bill(s("s996"), None, s("Senate"), None, None, None), 48);
    assert_eq!(senate.chamber, House::Senate);
    // An absent status is not left blank; it says what little is known.
    assert_eq!(senate.status, "Before parliament");
    assert!(
        senate.summary.is_none(),
        "an absent summary is not an empty one"
    );
    assert!(senate.title.is_empty());

    // An empty summary string is treated the same as an absent one.
    let blank = to_bill(&list_bill(s("r1"), None, None, None, s(""), None), 48);
    assert!(blank.summary.is_none());
    // Anything that is not the Senate originates in the House.
    assert_eq!(blank.chamber, House::Representatives);
}

#[test]
fn detail_records_add_a_chamber_stamped_timeline_and_raisers() {
    let bill = to_bill(&list_bill(s("r7123"), s("Example Bill 2026"), None, None, None, None), 48);
    let detail = ParlWorkDetail {
        bill: Some(ParlWorkDetailBill {
            parl_info_url: s("https://parlinfo.gov.au/r7123"),
            sponsors: Some(vec![person(s("SMITH, Ms Jane"), s("r1"))]),
            movers: Some(vec![person(s("JONES, the Hon. Bob MP"), s("r2"))]),
            grouped_progress_states: Some(vec![
                ParlWorkProgressGroup {
                    formatted_chamber: s("House of Representatives"),
                    progress_states: Some(vec![
                        step(s("Introduced"), s("/Date(1750000000000)/")),
                        step(s(""), s("/Date(1750100000000)/")),
                        step(s("Second reading moved"), None),
                    ]),
                },
                ParlWorkProgressGroup {
                    formatted_chamber: s(""),
                    progress_states: Some(vec![step(s("Assent"), s("/Date(1755000000000)/"))]),
                },
            ]),
        }),
    };
    let bill = with_detail(bill, &detail);

    // Each step is stamped with its chamber, except where APH names none.
    let events: Vec<&str> = bill.timeline.iter().map(|s| s.event.as_str()).collect();
    assert_eq!(
        events,
        vec!["Introduced (House of Representatives)", "Assent"],
        "steps without a description or date are dropped, not guessed"
    );
    assert!(
        bill.timeline[0].date < bill.timeline[1].date,
        "timeline is sorted"
    );
    assert_eq!(
        bill.links.parlinfo.as_deref(),
        Some("https://parlinfo.gov.au/r7123")
    );
    assert_eq!(bill.sponsors[0].name, "Jane Smith");
    assert_eq!(bill.movers[0].name, "Bob Jones");
}

#[test]
fn a_detail_response_with_no_bill_leaves_the_record_alone() {
    let bill = to_bill(&list_bill(s("r1"), None, None, s("Act"), None, None), 48);
    let untouched = with_detail(bill, &ParlWorkDetail { bill: None });
    assert_eq!(untouched.status, "Act");
    assert!(untouched.timeline.is_empty());
}

#[test]
fn refreshing_a_bill_keeps_the_fields_only_the_detail_fetch_knows() {
    let mut existing = to_bill(&list_bill(s("r1"), None, None, s("Before Reps"), None, None), 48);
    existing.bill_type = Some("Government".to_string());
    existing.portfolio = Some("Health".to_string());
    existing.sponsor = Some("A Sponsor".to_string());
    existing.ai_summary = Some(AiText {
        text: "note".to_string(),
        model: "m".to_string(),
        generated_at: "2026-08-01T00:00:00.000Z".to_string(),
    });

    let fresh = to_bill(&list_bill(s("r1"), None, None, s("Act"), None, None), 48);
    let merged = merge_existing(&existing, fresh);
    // The list response carries the new status but none of these fields.
    assert_eq!(merged.status, "Act");
    assert_eq!(merged.bill_type.as_deref(), Some("Government"));
    assert_eq!(merged.portfolio.as_deref(), Some("Health"));
    assert_eq!(merged.sponsor.as_deref(), Some("A Sponsor"));
    assert!(merged.ai_summary.is_some(), "an AI note is not regenerated");
}

#[test]
fn dot_net_dates_decode_with_and_without_an_offset() {
    assert_eq!(
        dot_net_date(Some("/Date(1755000000000)/")).as_deref(),
        Some("2025-08-12")
    );
    // A positive offset can push the date forward.
    assert_eq!(
        dot_net_date(Some("/Date(1755043200000+1000)/")).as_deref(),
        Some("2025-08-13")
    );
    assert_eq!(dot_net_date(Some("not a date")), None);
    assert_eq!(dot_net_date(None), None);
}

#[test]
fn html_stripping_decodes_named_decimal_and_hex_entities() {
    assert_eq!(
        strip_html("<p>A&nbsp;bill &amp; a&#8201;note &#x2013; done</p>"),
        "A bill & a note \u{2013} done"
    );
    assert_eq!(
        strip_html("<i>Caf&eacute;</i> &unknown;"),
        "Caf&eacute; &unknown;"
    );
    assert_eq!(strip_html("  <b>  spaced  </b>  "), "spaced");
    assert_eq!(strip_html(""), "");
}

#[test]
fn raisers_drop_honorifics_and_post_nominals() {
    let raiser = to_raiser(&person(s("ALBANESE, the Hon. Anthony Norman"), s("r36")));
    assert_eq!(raiser.name, "Anthony Albanese");
    assert_eq!(raiser.phid.as_deref(), Some("r36"));

    let raiser = to_raiser(&person(s("JOYCE, Barnaby, MP"), s("E5D")));
    assert_eq!(raiser.name, "Barnaby Joyce");

    let raiser = to_raiser(&person(s("O'BRIEN, the Hon. Ted"), None));
    assert_eq!(raiser.name, "Ted O'Brien");
}

#[test]
fn parlwork_prose_is_decoded_wherever_it_lands() {
    // The live bug: "Australia&rsquo;s Foreign Relations ..." rendered as
    // typed, because only the summary was ever decoded.
    let item = list_bill(
        s("r7354"),
        s("Australia&rsquo;s Foreign Relations (State and Territory Arrangements) Amendment Bill 2026"),
        s("House of Representatives"),
        s("Before the House &amp; awaiting debate"),
        s("<p>Amends the Act &#8212; see the note</p>"),
        None,
    );
    let bill = to_bill(&item, 48);
    assert_eq!(
        bill.title,
        "Australia\u{2019}s Foreign Relations (State and Territory Arrangements) Amendment Bill 2026"
    );
    assert_eq!(bill.status, "Before the House & awaiting debate");
    assert_eq!(
        bill.summary.as_deref(),
        Some("Amends the Act \u{2014} see the note")
    );

    // Timeline events are prose from the same API.
    let detail = ParlWorkDetail {
        bill: Some(ParlWorkDetailBill {
            parl_info_url: None,
            sponsors: None,
            movers: None,
            grouped_progress_states: Some(vec![ParlWorkProgressGroup {
                formatted_chamber: s("House of Reps"),
                progress_states: Some(vec![step(
                    s("Second reading &ndash; agreed to"),
                    s("/Date(1764075600000+1100)/"),
                )]),
            }]),
        }),
    };
    let with_timeline = with_detail(bill, &detail);
    assert_eq!(
        with_timeline.timeline[0].event,
        "Second reading \u{2013} agreed to (House of Reps)"
    );
}

#[test]
fn an_encoded_apostrophe_in_a_name_still_capitalises_the_next_letter() {
    let raiser = to_raiser(&person(s("O&rsquo;NEIL, the Hon. Clare Ellen"), s("PHID1")));
    // Decoding turns the entity into a curly apostrophe, which then has to
    // count as a word boundary or the surname reads "O’neil".
    assert_eq!(raiser.name, "Clare O\u{2019}Neil");
    assert_eq!(raiser.phid.as_deref(), Some("PHID1"));

    // The straight apostrophe was already handled and must stay handled.
    let straight = person(s("O'BRIEN, Mr Ted"), None);
    assert_eq!(to_raiser(&straight).name, "Ted O'Brien");
}

#[test]
fn stored_records_carrying_an_entity_are_flagged_for_rebuild() {
    let mut clean = to_bill(
        &list_bill(s("r1"), s("A Clean Bill 2026"), None, s("Act"), None, None),
        48,
    );
    clean.links.aph = None;
    assert!(!carries_html_entity(&clean));

    // Every prose field is checked, not just the title.
    for field in ["title", "status"] {
        let mut bill = clean.clone();
        match field {
            "title" => bill.title = "Australia&rsquo;s Bill".to_string(),
            _ => bill.status = "Before the House &amp; waiting".to_string(),
        }
        assert!(carries_html_entity(&bill), "{field} is not checked");
    }
    let mut with_step = clean.clone();
    with_step.timeline = vec![TimelineStep {
        date: "2026-08-19".to_string(),
        event: "Second reading &ndash; agreed".to_string(),
    }];
    assert!(carries_html_entity(&with_step));

    let mut with_raiser = clean.clone();
    with_raiser.movers = vec![BillRaiser {
        name: "Clare O&rsquo;Neil".to_string(),
        phid: None,
        slug: None,
    }];
    assert!(carries_html_entity(&with_raiser));

    let mut numeric = clean.clone();
    numeric.summary = Some("Amends the Act &#8212; see note".to_string());
    assert!(carries_html_entity(&numeric), "numeric entities count too");

    // A bare ampersand in ordinary prose is not an entity.
    let mut plain = clean;
    plain.title = "Fish & Chips Bill 2026".to_string();
    assert!(!carries_html_entity(&plain));
}
