use airdatable::airtable::client::{
    base_url, is_success, request_url, response_outcome, API_BASE_URL, MAX_REQUESTS_PER_SECOND,
};
use airdatable::airtable::{
    create_records_request, get_record_request, get_records_request, record_endpoint,
    table_endpoint, update_record_request, update_records_request, AirtableError, HttpMethod,
};

#[test]
fn base_url_appends_the_base_id() {
    assert_eq!(API_BASE_URL, "https://api.airtable.com/v0");
    assert_eq!(base_url("appXYZ"), "https://api.airtable.com/v0/appXYZ");
    assert_eq!(MAX_REQUESTS_PER_SECOND, 5);
}

#[test]
fn endpoints_name_the_table_and_record() {
    assert_eq!(table_endpoint("tblNotes"), "/tblNotes");
    assert_eq!(record_endpoint("tblNotes", "rec123"), "/tblNotes/rec123");
}

#[test]
fn each_operation_has_its_method_and_endpoint() {
    let get_one = get_record_request("tbl", "rec1");
    assert_eq!(get_one.method, HttpMethod::Get);
    assert_eq!(get_one.endpoint, "/tbl/rec1");

    let list = get_records_request("tbl");
    assert_eq!(list.method, HttpMethod::Get);
    assert_eq!(list.endpoint, "/tbl");

    let update_one = update_record_request("tbl", "rec1");
    assert_eq!(update_one.method, HttpMethod::Patch);
    assert_eq!(update_one.endpoint, "/tbl/rec1");

    let update_many = update_records_request("tbl");
    assert_eq!(update_many.method, HttpMethod::Patch);
    assert_eq!(update_many.endpoint, "/tbl");

    let create_many = create_records_request("tbl");
    assert_eq!(create_many.method, HttpMethod::Post);
    assert_eq!(create_many.endpoint, "/tbl");
}

#[test]
fn success_is_the_2xx_class() {
    assert!(!is_success(199));
    assert!(is_success(200));
    assert!(is_success(204));
    assert!(is_success(299));
    assert!(!is_success(300));
    assert!(!is_success(404));
    assert!(!is_success(500));
}

#[test]
fn successful_response_hands_on_its_body() {
    let outcome = response_outcome(200, "https://x/".to_string(), "{\"id\":\"rec1\"}".to_string());
    assert_eq!(outcome.unwrap(), "{\"id\":\"rec1\"}");
}

#[test]
fn failed_response_becomes_an_airtable_error() {
    let outcome = response_outcome(
        422,
        "https://api.airtable.com/v0/app/tbl".to_string(),
        "{\"error\":\"INVALID\"}".to_string(),
    );
    match outcome {
        Err(AirtableError::Airtable { status, response, url }) => {
            assert_eq!(status, 422);
            assert_eq!(response, "{\"error\":\"INVALID\"}");
            assert_eq!(url, "https://api.airtable.com/v0/app/tbl");
        }
        _ => panic!("expected an Airtable error"),
    }
}

#[test]
fn request_url_joins_base_and_endpoint() {
    let url = request_url("https://api.airtable.com/v0/appX", "/tblNotes/rec1", None).unwrap().unwrap();
    assert_eq!(url, "https://api.airtable.com/v0/appX/tblNotes/rec1");
}

#[test]
fn request_url_is_normalized_by_the_parser() {
    let url = request_url("HTTPS://API.AIRTABLE.COM/v0/appX", "/tbl", None).unwrap().unwrap();
    assert_eq!(url, "https://api.airtable.com/v0/appX/tbl");
}

#[test]
fn request_url_encodes_query_pairs() {
    let params = vec![("filterByFormula", "NOT(Note = BLANK())"), ("offset", "itr1/rec2")];
    let url = request_url("https://api.airtable.com/v0/appX", "/tbl", Some(params)).unwrap().unwrap();
    assert_eq!(
        url,
        "https://api.airtable.com/v0/appX/tbl?filterByFormula=NOT%28Note+%3D+BLANK%28%29%29&offset=itr1%2Frec2"
    );
}

#[test]
fn request_url_reports_an_unparsable_url() {
    let result = request_url("not a url", "/tbl", None).unwrap();
    assert!(matches!(
        result,
        Err(AirtableError::ParseUrl { source: url::ParseError::RelativeUrlWithoutBase })
    ));

    let with_params = request_url("not a url", "/tbl", Some(vec![("offset", "x")])).unwrap();
    assert!(matches!(
        with_params,
        Err(AirtableError::ParseUrl { source: url::ParseError::RelativeUrlWithoutBase })
    ));
}

#[test]
fn request_url_carries_the_parsers_own_error() {
    let result = request_url("https://", "", None).unwrap();
    assert!(matches!(result, Err(AirtableError::ParseUrl { source: url::ParseError::EmptyHost })));
    let with_params = request_url("https://", "", Some(vec![("a", "b")])).unwrap();
    assert!(matches!(with_params, Err(AirtableError::ParseUrl { source: url::ParseError::EmptyHost })));
}

#[test]
fn request_url_appends_pairs_after_an_existing_query_and_before_the_fragment() {
    let url = request_url("https://api.airtable.com/v0/appX", "/tbl?view=Grid#top", Some(vec![("offset", "a b")]))
        .unwrap()
        .unwrap();
    assert_eq!(url, "https://api.airtable.com/v0/appX/tbl?view=Grid&offset=a+b#top");
    let empty_query = request_url("https://api.airtable.com/v0/appX", "/tbl?#top", Some(vec![("k", "v")]))
        .unwrap()
        .unwrap();
    assert_eq!(empty_query, "https://api.airtable.com/v0/appX/tbl?k=v#top");
}

#[test]
fn request_url_with_empty_pairs_parses_like_the_bare_url() {
    let url = request_url("https://api.airtable.com/v0/appX", "/tbl", Some(vec![])).unwrap();
    assert!(url.unwrap().starts_with("https://api.airtable.com/v0/appX/tbl"));
}
