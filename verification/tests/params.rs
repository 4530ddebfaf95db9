use airdatable::airtable::GetRecordsParams;

#[test]
fn builder_with_formula_gives_one_filter_pair() {
    let params = GetRecordsParams::builder()
        .filter_by_formula("NOT(Note = BLANK())".to_string())
        .build();
    assert_eq!(params.url_params(), vec![("filterByFormula", "NOT(Note = BLANK())")]);
}

#[test]
fn builder_without_formula_gives_no_pairs() {
    let params = GetRecordsParams::builder().build();
    assert!(params.url_params().is_empty());
}

#[test]
fn default_params_give_no_pairs() {
    let params = GetRecordsParams::default();
    assert!(params.url_params().is_empty());
}

#[test]
fn maybe_setter_sets_and_clears_the_formula() {
    let set = GetRecordsParams::builder()
        .maybe_filter_by_formula(Some("{Foreign ID} != BLANK()".to_string()))
        .build();
    assert_eq!(set.url_params(), vec![("filterByFormula", "{Foreign ID} != BLANK()")]);

    let cleared = GetRecordsParams::builder()
        .filter_by_formula("x".to_string())
        .maybe_filter_by_formula(None)
        .build();
    assert!(cleared.url_params().is_empty());
}
