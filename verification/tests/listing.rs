use airdatable::airtable::listing::RecordPager;
use airdatable::airtable::{GetRecordsParams, Record};

fn record(id: &str) -> Record<u32> {
    Record { id: id.to_string(), created_time: "2024-05-01T10:00:00.000Z".to_string(), fields: 7 }
}

#[test]
fn pager_follows_offsets_until_a_page_names_none() {
    let params = GetRecordsParams::builder().filter_by_formula("{Foreign ID} != BLANK()".to_string()).build();
    let mut pager: RecordPager<u32> = RecordPager::new(params);
    assert!(!pager.is_finished());
    assert_eq!(pager.query(), vec![("filterByFormula", "{Foreign ID} != BLANK()")]);

    pager.receive_page(vec![record("rec1"), record("rec2")], Some("itr1".to_string()));
    assert!(!pager.is_finished());
    assert_eq!(
        pager.query(),
        vec![("filterByFormula", "{Foreign ID} != BLANK()"), ("offset", "itr1")]
    );

    pager.receive_page(vec![record("rec3")], None);
    assert!(pager.is_finished());

    let ids: Vec<String> = pager.into_records().into_iter().map(|r| r.id).collect();
    assert_eq!(ids, vec!["rec1", "rec2", "rec3"]);
}

#[test]
fn pager_without_filter_asks_only_for_the_offset() {
    let mut pager: RecordPager<u32> = RecordPager::new(GetRecordsParams::default());
    assert!(pager.query().is_empty());
    pager.receive_page(vec![], Some("itr9".to_string()));
    assert_eq!(pager.query(), vec![("offset", "itr9")]);
    pager.receive_page(vec![], None);
    assert!(pager.is_finished());
    assert!(pager.into_records().is_empty());
}
