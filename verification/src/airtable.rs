use vstd::prelude::*;

pub mod batching;
pub mod client;
pub mod listing;

verus! {

/// A record as Airtable returns it.
#[derive(Clone, Debug)]
pub struct Record<F> {
    pub id: String,
    pub created_time: String,
    pub fields: F,
}

/// A record that already exists in Airtable, identified by its id, with the
/// fields it should hold.
#[derive(Clone, Debug)]
pub struct ExistingRecord<F> {
    pub id: String,
    pub fields: F,
}

/// The outside error type of the HTTP transport, carried through unchanged.
#[verifier::external_type_specification]
#[verifier::external_body]
pub struct ExReqwestError(reqwest::Error);

/// What can go wrong when talking to Airtable.
#[allow(inconsistent_fields)]
#[derive(Debug)]
pub enum AirtableError {
    /// A 2xx response whose body does not deserialize into the expected shape
    /// (likely a fields type that does not match the table).
    DeserializeSuccessResponse { response: String },
    /// A non-2xx response, with its status, its body and the requested URL.
    Airtable { status: u16, response: String, url: String },
    /// The request URL did not parse.
    ParseUrl { source: url::ParseError },
    /// The transport failed.
    Http { source: reqwest::Error },
}

/// Query options for listing the records of a table.
pub struct GetRecordsParams {
    filter_by_formula: Option<String>,
}

impl GetRecordsParams {
    /// The formula filter these parameters carry, if any.
    pub closed spec fn formula(&self) -> Option<Seq<char>> {
        match &self.filter_by_formula {
            Some(f) => Some(f@),
            None => None,
        }
    }

    /// The query pairs for a listing: one `filterByFormula` pair exactly when a
    /// formula is set.
    pub fn url_params(&self) -> (params: Vec<(&str, &str)>)
        ensures
            params@.len() == (if self.formula() is Some { 1int } else { 0int }),
            self.formula() is Some ==> params@[0].0@ == "filterByFormula"@
                && params@[0].1@ == self.formula()->0,
    {
        let mut url_params: Vec<(&str, &str)> = Vec::new();
        if let Some(filter_by_formula) = &self.filter_by_formula {
            url_params.push(("filterByFormula", filter_by_formula.as_str()));
        }
        url_params
    }
}

/// The builder of [`GetRecordsParams`].
pub struct GetRecordsParamsBuilder {
    filter_by_formula: Option<String>,
}

impl GetRecordsParams {
    /// Starts building parameters; nothing is set yet.
    pub fn builder() -> (b: GetRecordsParamsBuilder)
        ensures
            b.formula() is None,
    {
        GetRecordsParamsBuilder { filter_by_formula: None }
    }
}

impl Default for GetRecordsParams {
    fn default() -> (params: Self)
        ensures
            params.formula() is None,
    {
        GetRecordsParams { filter_by_formula: None }
    }
}

impl GetRecordsParamsBuilder {
    /// The formula filter set so far, if any.
    pub closed spec fn formula(&self) -> Option<Seq<char>> {
        match &self.filter_by_formula {
            Some(f) => Some(f@),
            None => None,
        }
    }

    /// Sets the formula that records must satisfy to be listed.
    pub fn filter_by_formula(self, formula: String) -> (b: Self)
        ensures
            b.formula() == Some(formula@),
    {
        GetRecordsParamsBuilder { filter_by_formula: Some(formula) }
    }

    /// Sets or clears the formula that records must satisfy to be listed.
    pub fn maybe_filter_by_formula(self, formula: Option<String>) -> (b: Self)
        ensures
            b.formula() == match formula {
                Some(f) => Some(f@),
                None => None::<Seq<char>>,
            },
    {
        GetRecordsParamsBuilder { filter_by_formula: formula }
    }

    /// The parameters built.
    pub fn build(self) -> (params: GetRecordsParams)
        ensures
            params.formula() == self.formula(),
    {
        GetRecordsParams { filter_by_formula: self.filter_by_formula }
    }
}

/// The HTTP methods that the Airtable API is called with.
#[derive(Clone, Copy, Debug, PartialEq, Eq, Structural)]
pub enum HttpMethod {
    Get,
    Patch,
    Post,
}

/// What a request of the client is: its method and its endpoint, the path that
/// follows the base URL.
pub struct RequestPlan {
    pub method: HttpMethod,
    pub endpoint: String,
}

/// The endpoint of a table: `/{table_id}`.
pub open spec fn table_endpoint_of(table_id: Seq<char>) -> Seq<char> {
    "/"@ + table_id
}

/// The endpoint of one record of a table: `/{table_id}/{record_id}`.
pub open spec fn record_endpoint_of(table_id: Seq<char>, record_id: Seq<char>) -> Seq<char> {
    "/"@ + table_id + "/"@ + record_id
}

/// An endpoint names the table, and the record, exactly as they were given:
/// a `/` before each, nothing encoded, nothing left out.
pub proof fn lemma_endpoints_are_verbatim(table_id: Seq<char>, record_id: Seq<char>)
    ensures
        table_endpoint_of(table_id) == seq!['/'] + table_id,
        record_endpoint_of(table_id, record_id) == seq!['/'] + table_id + seq!['/'] + record_id,
        table_endpoint_of(table_id).len() == table_id.len() + 1,
        forall|i: int|
            0 <= i < table_id.len() ==> #[trigger] table_endpoint_of(table_id)[i + 1] == table_id[i],
{
    reveal_strlit("/");
    assert(table_endpoint_of(table_id) =~= seq!['/'] + table_id);
    assert(record_endpoint_of(table_id, record_id) =~= seq!['/'] + table_id + seq!['/'] + record_id);
}

/// The endpoint of a table: `/{table_id}`.
pub fn table_endpoint(table_id: &str) -> (endpoint: String)
    ensures
        endpoint@ == table_endpoint_of(table_id@),
        endpoint@ == seq!['/'] + table_id@,
{
    proof {
        lemma_endpoints_are_verbatim(table_id@, Seq::empty());
    }
    let mut endpoint = String::from_str("/");
    endpoint.append(table_id);
    endpoint
}

/// The endpoint of one record of a table: `/{table_id}/{record_id}`.
pub fn record_endpoint(table_id: &str, record_id: &str) -> (endpoint: String)
    ensures
        endpoint@ == record_endpoint_of(table_id@, record_id@),
        endpoint@ == seq!['/'] + table_id@ + seq!['/'] + record_id@,
{
    proof {
        lemma_endpoints_are_verbatim(table_id@, record_id@);
    }
    let mut endpoint = String::from_str("/");
    endpoint.append(table_id);
    endpoint.append("/");
    endpoint.append(record_id);
    endpoint
}

/// Fetching one record: `GET /{table_id}/{record_id}`.
pub fn get_record_request(table_id: &str, record_id: &str) -> (plan: RequestPlan)
    ensures
        plan.method == HttpMethod::Get,
        plan.endpoint@ == record_endpoint_of(table_id@, record_id@),
        plan.endpoint@ == seq!['/'] + table_id@ + seq!['/'] + record_id@,
{
    RequestPlan { method: HttpMethod::Get, endpoint: record_endpoint(table_id, record_id) }
}

/// Listing the records of a table, one page per request: `GET /{table_id}`.
pub fn get_records_request(table_id: &str) -> (plan: RequestPlan)
    ensures
        plan.method == HttpMethod::Get,
        plan.endpoint@ == table_endpoint_of(table_id@),
        plan.endpoint@ == seq!['/'] + table_id@,
{
    RequestPlan { method: HttpMethod::Get, endpoint: table_endpoint(table_id) }
}

/// Updating the fields of one record: `PATCH /{table_id}/{record_id}`.
pub fn update_record_request(table_id: &str, record_id: &str) -> (plan: RequestPlan)
    ensures
        plan.method == HttpMethod::Patch,
        plan.endpoint@ == record_endpoint_of(table_id@, record_id@),
        plan.endpoint@ == seq!['/'] + table_id@ + seq!['/'] + record_id@,
{
    RequestPlan { method: HttpMethod::Patch, endpoint: record_endpoint(table_id, record_id) }
}

/// Updating a batch of records: `PATCH /{table_id}`.
pub fn update_records_request(table_id: &str) -> (plan: RequestPlan)
    ensures
        plan.method == HttpMethod::Patch,
        plan.endpoint@ == table_endpoint_of(table_id@),
        plan.endpoint@ == seq!['/'] + table_id@,
{
    RequestPlan { method: HttpMethod::Patch, endpoint: table_endpoint(table_id) }
}

/// Creating a batch of records: `POST /{table_id}`.
pub fn create_records_request(table_id: &str) -> (plan: RequestPlan)
    ensures
        plan.method == HttpMethod::Post,
        plan.endpoint@ == table_endpoint_of(table_id@),
        plan.endpoint@ == seq!['/'] + table_id@,
{
    RequestPlan { method: HttpMethod::Post, endpoint: table_endpoint(table_id) }
}

} // verus!
