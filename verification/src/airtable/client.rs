use vstd::prelude::*;

use vstd::string::StringSliceAdditionalSpecFns;

use crate::airtable::AirtableError;

verus! {

/// The outside error type of `url`'s parser, carried through unchanged.
#[verifier::external_type_specification]
#[verifier::external_body]
pub struct ExUrlParseError(url::ParseError);

/// Airtable accepts at most this many requests per second for one base; the
/// transport waits on a rate limiter with this quota before each request.
pub const MAX_REQUESTS_PER_SECOND: u32 = 5;

/// Root of Airtable's REST API.
pub const API_BASE_URL: &'static str = "https://api.airtable.com/v0";

/// The URL prefix of every request made for the base `base_id`.
pub open spec fn base_url_of(base_id: Seq<char>) -> Seq<char> {
    "https://api.airtable.com/v0"@ + "/"@ + base_id
}

/// The URL prefix of every request made for the base `base_id`.
pub fn base_url(base_id: &str) -> (url: String)
    ensures
        url@ == base_url_of(base_id@),
{
    let mut url = String::from_str(API_BASE_URL);
    url.append("/");
    url.append(base_id);
    proof {
        reveal_strlit("https://api.airtable.com/v0");
    }
    url
}

/// Whether an HTTP status code reports success (the 2xx class).
pub open spec fn is_success_status(status: u16) -> bool {
    200 <= status < 300
}


/// Whether an HTTP status code reports success (the 2xx class).
pub fn is_success(status: u16) -> (ok: bool)
    ensures
        ok == is_success_status(status),
        ok <==> 200 <= status && status <= 299,
{
    200 <= status && status < 300
}

/// The query pairs of a request, as character sequences.
pub open spec fn pairs_view(params: Seq<(&str, &str)>) -> Seq<(Seq<char>, Seq<char>)> {
    params.map_values(|p: (&str, &str)| (p.0@, p.1@))
}

/// A parsed URL as plain values: its serialization, and its query and
/// fragment as `url::Url::query` and `url::Url::fragment` give them.
pub struct ParsedUrl {
    pub serialization: String,
    pub query: Option<String>,
    pub fragment: Option<String>,
}

/// The characters of an optional string.
pub open spec fn opt_view(s: Option<String>) -> Option<Seq<char>> {
    match s {
        Some(t) => Some(t@),
        None => None,
    }
}

/// Names what `url::Url::parse` gives for `input`: the parsed URL's
/// serialization, query and fragment, or the parser's error.
pub uninterp spec fn url_parse_result(input: Seq<char>) -> Result<
    (Seq<char>, Option<Seq<char>>, Option<Seq<char>>),
    url::ParseError,
>;

/// Names what `url::Url::parse_with_params` gives for `input` and `params`:
/// the serialization of the parsed URL with the pairs appended to its query,
/// or the parser's error.
pub uninterp spec fn url_parse_with_params_result(
    input: Seq<char>,
    params: Seq<(Seq<char>, Seq<char>)>,
) -> Result<Seq<char>, url::ParseError>;

/// Calls `url::Url::parse` and gives back the URL as plain values. The
/// contract claims that the outcome is what the name `url_parse_result` says
/// of the input: the serialization, query and fragment, or the error.
#[verifier::external_body]
fn parse_url(input: &str) -> (res: Result<ParsedUrl, url::ParseError>)
    ensures
        res matches Ok(p) ==> url_parse_result(input@) is Ok && url_parse_result(input@)->Ok_0 == (
            p.serialization@,
            opt_view(p.query),
            opt_view(p.fragment),
        ),
        res matches Err(e) ==> url_parse_result(input@) is Err && url_parse_result(input@)->Err_0
            == e,
{
    match url::Url::parse(input) {
        Ok(url) => Ok(ParsedUrl {
            query: url.query().map(String::from),
            fragment: url.fragment().map(String::from),
            serialization: url.into(),
        }),
        Err(e) => Err(e),
    }
}

/// Whether form-urlencoding leaves the byte as it is (`*-._`, digits and
/// letters); a space becomes `+`, and any other byte `%XX`.
pub open spec fn form_unchanged(b: u8) -> bool {
    b == 42 || b == 45 || b == 46 || (48 <= b <= 57) || (65 <= b <= 90) || b == 95 || (97 <= b <= 122)
}

/// The length of the form-urlencoding of `bytes`.
pub open spec fn form_encoded_len(bytes: Seq<u8>) -> nat
    decreases bytes.len(),
{
    if bytes.len() == 0 {
        0
    } else {
        form_encoded_len(bytes.drop_last()) + if form_unchanged(bytes.last()) || bytes.last()
            == 32 {
            1nat
        } else {
            3nat
        }
    }
}

/// How many bytes appending the pairs to a query adds after its `?`: each pair
/// as its encoded key, `=` and its encoded value, with a `&` before it unless
/// it comes first in a query that was empty.
pub open spec fn pairs_growth(params: Seq<(&str, &str)>, query_nonempty: bool) -> nat
    decreases params.len(),
{
    if params.len() == 0 {
        0
    } else {
        pairs_growth(params.drop_last(), query_nonempty) + (if params.len() > 1 || query_nonempty {
            1nat
        } else {
            0nat
        }) + form_encoded_len(params.last().0.spec_bytes()) + 1 + form_encoded_len(
            params.last().1.spec_bytes(),
        )
    }
}

/// Whether appending the pairs to a URL with this serialization, query and
/// fragment panics in the url crate. It records where the query starts as a
/// `u32` when the URL has no query yet, and where the fragment starts as a
/// `u32` after appending the pairs when it has a fragment; each panics when the
/// position passes `u32::MAX`.
pub open spec fn appending_panics_for(
    serialization: Seq<char>,
    query: Option<Seq<char>>,
    fragment: Option<Seq<char>>,
    params: Seq<(&str, &str)>,
) -> bool {
    let before_fragment: int = match fragment {
        Some(f) => vstd::utf8::encode_utf8(serialization).len() - 1 - vstd::utf8::encode_utf8(
            f,
        ).len(),
        None => vstd::utf8::encode_utf8(serialization).len() as int,
    };
    let nonempty = match query {
        Some(q) => q.len() > 0,
        None => false,
    };
    let growth: int = (if query is None {
        1int
    } else {
        0int
    }) + pairs_growth(params, nonempty);
    ||| query is None && before_fragment > u32::MAX
    ||| fragment is Some && before_fragment + growth > u32::MAX
}

/// Whether `url::Url::parse_with_params` panics on `input` and `params`: it
/// does when the parse succeeds and appending the pairs panics.
pub open spec fn appending_panics(input: Seq<char>, params: Seq<(&str, &str)>) -> bool {
    match url_parse_result(input) {
        Ok(parsed) => appending_panics_for(parsed.0, parsed.1, parsed.2, params),
        Err(_) => false,
    }
}

/// Calls `url::Url::parse_with_params` and gives back the serialization of the
/// URL. The contract claims what the name `url_parse_with_params_result` says
/// of the input and the pairs, and, as the crate's source shows (it parses the
/// input with `Url::parse` and only then appends the pairs), that it fails
/// exactly where `Url::parse` fails, with the same error. Appending the pairs
/// panics where [`appending_panics`] says, so those inputs are left out.
#[verifier::external_body]
fn parse_url_with_params(input: &str, params: Vec<(&str, &str)>) -> (res: Result<
    String,
    url::ParseError,
>)
    requires
        !appending_panics(input@, params@),
    ensures
        res is Ok <==> url_parse_with_params_result(input@, pairs_view(params@)) is Ok,
        res matches Ok(s) ==> url_parse_with_params_result(input@, pairs_view(params@))->Ok_0
            == s@,
        res matches Err(e) ==> url_parse_with_params_result(input@, pairs_view(params@))->Err_0
            == e,
        res is Ok <==> url_parse_result(input@) is Ok,
        res matches Err(e) ==> url_parse_result(input@)->Err_0 == e,
{
    match url::Url::parse_with_params(input, params) {
        Ok(parsed) => Ok(parsed.into()),
        Err(e) => Err(e),
    }
}

/// The length of the form-urlencoding of `bytes`.
fn form_encoded_length(bytes: &[u8]) -> (n: u128)
    ensures
        n == form_encoded_len(bytes@),
        n <= 3 * bytes@.len(),
{
    let mut n: u128 = 0;
    let mut i: usize = 0;
    while i < bytes.len()
        invariant
            i <= bytes@.len(),
            n == form_encoded_len(bytes@.take(i as int)),
            n <= 3 * i,
        decreases bytes@.len() - i,
    {
        proof {
            assert(bytes@.take(i + 1 as int).drop_last() =~= bytes@.take(i as int));
            assert(bytes@.take(i + 1 as int).last() == bytes@[i as int]);
        }
        let b: u8 = bytes[i];
        let unchanged: bool = b == 42 || b == 45 || b == 46 || (48 <= b && b <= 57) || (65 <= b
            && b <= 90) || b == 95 || (97 <= b && b <= 122);
        if unchanged || b == 32 {
            n = n + 1;
        } else {
            n = n + 3;
        }
        i = i + 1;
    }
    proof {
        assert(bytes@.take(bytes@.len() as int) =~= bytes@);
    }
    n
}

/// The growth of a prefix of the pairs is at most that of all of them.
proof fn lemma_pairs_growth_monotone(params: Seq<(&str, &str)>, query_nonempty: bool, n: int)
    requires
        0 <= n <= params.len(),
    ensures
        pairs_growth(params.take(n), query_nonempty) <= pairs_growth(params, query_nonempty),
    decreases params.len() - n,
{
    if n < params.len() {
        lemma_pairs_growth_monotone(params, query_nonempty, n + 1);
        assert(params.take(n + 1).drop_last() =~= params.take(n));
    } else {
        assert(params.take(n) =~= params);
    }
}

/// Whether appending the pairs to the parsed URL does not panic; see
/// [`appending_panics_for`].
#[verifier::loop_isolation(false)]
fn appending_fits(parsed: &ParsedUrl, params: &Vec<(&str, &str)>) -> (fits: bool)
    ensures
        fits == !appending_panics_for(
            parsed.serialization@,
            opt_view(parsed.query),
            opt_view(parsed.fragment),
            params@,
        ),
{
    let limit: i128 = 4294967295;
    let serialization_bytes: usize = parsed.serialization.as_str().as_bytes().len();
    let before_fragment: i128 = match &parsed.fragment {
        Some(f) => serialization_bytes as i128 - 1 - f.as_str().as_bytes().len() as i128,
        None => serialization_bytes as i128,
    };
    if parsed.query.is_none() && before_fragment > limit {
        return false;
    }
    if parsed.fragment.is_none() {
        return true;
    }
    let nonempty: bool = match &parsed.query {
        Some(q) => !q.as_str().is_empty(),
        None => false,
    };
    let ghost view_nonempty = match opt_view(parsed.query) {
        Some(q) => q.len() > 0,
        None => false,
    };
    assert(nonempty == view_nonempty);
    let opening: i128 = if parsed.query.is_none() {
        1
    } else {
        0
    };
    let room: i128 = limit - before_fragment - opening;
    if room < 0 {
        return false;
    }
    let mut growth: i128 = 0;
    let mut i: usize = 0;
    while i < params.len()
        invariant
            i <= params@.len(),
            growth == pairs_growth(params@.take(i as int), nonempty),
            0 <= growth <= room,
            room <= 0x10_0000_0000_0000_0000,
        decreases params@.len() - i,
    {
        proof {
            assert(params@.take(i + 1 as int).drop_last() =~= params@.take(i as int));
            assert(params@.take(i + 1 as int).last() == params@[i as int]);
        }
        let (key, value): (&str, &str) = params[i];
        let key_bytes: &[u8] = key.as_bytes();
        let value_bytes: &[u8] = value.as_bytes();
        let key_count: usize = key_bytes.len();
        let value_count: usize = value_bytes.len();
        let key_len: u128 = form_encoded_length(key_bytes);
        let value_len: u128 = form_encoded_length(value_bytes);
        assert(key_len <= 3 * key_count && value_len <= 3 * value_count);
        let separator: i128 = if i > 0 || nonempty {
            1
        } else {
            0
        };
        growth = growth + separator + key_len as i128 + 1 + value_len as i128;
        assert(growth == pairs_growth(params@.take(i + 1 as int), nonempty));
        if growth > room {
            proof {
                lemma_pairs_growth_monotone(params@, nonempty, i + 1);
            }
            return false;
        }
        i = i + 1;
    }
    proof {
        assert(params@.take(params@.len() as int) =~= params@);
    }
    true
}

/// What building the URL of a request yields when `base_url + endpoint`
/// parses to `parsed`: its serialization, or with pairs, what
/// `url::Url::parse_with_params` gives.
pub open spec fn built_url(
    base_url: Seq<char>,
    endpoint: Seq<char>,
    params: Option<Seq<(Seq<char>, Seq<char>)>>,
) -> Seq<char> {
    match params {
        None => url_parse_result(base_url + endpoint)->Ok_0.0,
        Some(p) => url_parse_with_params_result(base_url + endpoint, p)->Ok_0,
    }
}

/// Builds the URL of a request from the base URL, the endpoint and the optional
/// query pairs. With or without pairs, the URL is built exactly when
/// `base_url + endpoint` parses; otherwise the result is `ParseUrl` carrying
/// the parser's error. `None` comes back exactly where `url::Url::parse_with_params`
/// would panic (see [`appending_panics`]).
pub fn request_url(base_url: &str, endpoint: &str, params: Option<Vec<(&str, &str)>>) -> (res:
    Option<Result<String, AirtableError>>)
    ensures
        res is None <==> (params matches Some(p) && appending_panics(base_url@ + endpoint@, p@)),
        res matches Some(r) ==> {
            let parsed = url_parse_result(base_url@ + endpoint@);
            &&& r is Ok <==> parsed is Ok
            &&& r matches Ok(u) ==> u@ == built_url(
                base_url@,
                endpoint@,
                match params {
                    Some(p) => Some(pairs_view(p@)),
                    None => None,
                },
            )
            &&& r matches Err(e) ==> e == (AirtableError::ParseUrl { source: parsed->Err_0 })
        },
{
    let mut url_without_params = String::from_str(base_url);
    url_without_params.append(endpoint);
    let parsed = match parse_url(url_without_params.as_str()) {
        Ok(parsed) => parsed,
        Err(source) => {
            return Some(Err(AirtableError::ParseUrl { source }));
        },
    };
    match params {
        None => Some(Ok(parsed.serialization)),
        Some(params) => {
            if !appending_fits(&parsed, &params) {
                return None;
            }
            match parse_url_with_params(url_without_params.as_str(), params) {
                Ok(url) => Some(Ok(url)),
                Err(source) => Some(Err(AirtableError::ParseUrl { source })),
            }
        },
    }
}

/// What a response with this status and body turns into: the body, to be
/// deserialized, for a 2xx status; otherwise the `Airtable` error carrying the
/// status, the body and the URL that was requested.
pub open spec fn response_outcome_spec(status: u16, url: String, body: String) -> Result<
    String,
    AirtableError,
> {
    if is_success_status(status) {
        Ok(body)
    } else {
        Err(AirtableError::Airtable { status, response: body, url })
    }
}

/// Exactly the statuses from 200 to 299 report success; every other status,
/// 429 and the other 4xx and 5xx among them, turns the response into the
/// `Airtable` error that carries the status, the body and the URL.
pub proof fn lemma_success_is_exactly_2xx()
    ensures
        forall|status: u16| #[trigger] is_success_status(status) <==> 200 <= status && status <= 299,
        forall|status: u16, url: String, body: String|
            #[trigger] response_outcome_spec(status, url, body) == if 200 <= status && status <= 299 {
                Ok::<String, AirtableError>(body)
            } else {
                Err(AirtableError::Airtable { status, response: body, url })
            },
{
}

/// Classifies a response by its status: a 2xx body is handed on to be
/// deserialized, any other status becomes an `Airtable` error.
pub fn response_outcome(status: u16, url: String, body: String) -> (res: Result<
    String,
    AirtableError,
>)
    ensures
        res == response_outcome_spec(status, url, body),
        200 <= status && status <= 299 ==> res == Ok::<String, AirtableError>(body),
        !(200 <= status && status <= 299) ==> res == Err::<String, AirtableError>(
            AirtableError::Airtable { status, response: body, url },
        ),
{
    if is_success(status) {
        Ok(body)
    } else {
        Err(AirtableError::Airtable { status, response: body, url })
    }
}

} // verus!
