use searcher_http::query::{parse_search_query, default_limit, BindError, SearchQuery};

fn bind(raw: &[u8]) -> Result<SearchQuery, BindError> {
    parse_search_query(raw)
}

#[test]
fn default_limit_is_thirty() {
    assert_eq!(default_limit(), 30);
}

#[test]
fn omitted_limit_defaults_to_thirty() {
    let q = bind(b"query=anything").unwrap();
    assert_eq!(q.query, "anything");
    assert_eq!(q.limit, 30);
}

#[test]
fn supplied_limit_is_passed_exactly() {
    let q = bind(b"query=rust&limit=5").unwrap();
    assert_eq!(q.query, "rust");
    assert_eq!(q.limit, 5);
}

#[test]
fn limit_zero_is_passed_verbatim() {
    let q = bind(b"query=a&limit=0").unwrap();
    assert_eq!(q.limit, 0);
}

#[test]
fn large_limit_is_not_clamped() {
    let q = bind(b"query=a&limit=1000000").unwrap();
    assert_eq!(q.limit, 1000000);
}

#[test]
fn limit_beyond_machine_word_is_rejected() {
    let r = bind(b"query=a&limit=99999999999999999999999999");
    assert_eq!(r.unwrap_err(), BindError::InvalidLimit);
}

#[test]
fn limit_with_plus_sign_parses() {
    let q = bind(b"query=a&limit=%2B7").unwrap();
    assert_eq!(q.limit, 7);
}

#[test]
fn missing_query_is_rejected() {
    let r = bind(b"limit=5");
    assert_eq!(r.unwrap_err(), BindError::MissingQuery);
}

#[test]
fn empty_query_string_is_rejected() {
    let r = bind(b"");
    assert_eq!(r.unwrap_err(), BindError::MissingQuery);
}

#[test]
fn non_numeric_limit_is_rejected() {
    let r = bind(b"query=rust&limit=abc");
    assert_eq!(r.unwrap_err(), BindError::InvalidLimit);
}

#[test]
fn empty_limit_value_is_rejected() {
    let r = bind(b"query=rust&limit=");
    assert_eq!(r.unwrap_err(), BindError::InvalidLimit);
}

#[test]
fn negative_limit_is_rejected() {
    let r = bind(b"query=rust&limit=-1");
    assert_eq!(r.unwrap_err(), BindError::InvalidLimit);
}

#[test]
fn duplicate_query_is_rejected() {
    let r = bind(b"query=a&query=b");
    assert_eq!(r.unwrap_err(), BindError::DuplicateQuery);
}

#[test]
fn duplicate_limit_is_rejected() {
    let r = bind(b"query=a&limit=1&limit=2");
    assert_eq!(r.unwrap_err(), BindError::DuplicateLimit);
}

#[test]
fn empty_query_value_is_passed_through() {
    let q = bind(b"query=").unwrap();
    assert_eq!(q.query, "");
    assert_eq!(q.limit, 30);
}

#[test]
fn query_without_equals_binds_empty() {
    let q = bind(b"query").unwrap();
    assert_eq!(q.query, "");
}

#[test]
fn unknown_parameters_are_ignored() {
    let q = bind(b"page=2&query=rust&sort=desc").unwrap();
    assert_eq!(q.query, "rust");
    assert_eq!(q.limit, 30);
}

#[test]
fn plus_and_percent_decode() {
    let q = bind(b"query=hello+world%21").unwrap();
    assert_eq!(q.query, "hello world!");
}

#[test]
fn lowercase_and_uppercase_hex_decode() {
    let q = bind(b"query=%2a%2A").unwrap();
    assert_eq!(q.query, "**");
}

#[test]
fn malformed_percent_stays_verbatim() {
    let q = bind(b"query=100%zz").unwrap();
    assert_eq!(q.query, "100%zz");
}

#[test]
fn trailing_percent_stays_verbatim() {
    let q = bind(b"query=50%").unwrap();
    assert_eq!(q.query, "50%");
}

#[test]
fn percent_encoded_key_binds() {
    let q = bind(b"%71uery=x").unwrap();
    assert_eq!(q.query, "x");
}

#[test]
fn utf8_query_decodes() {
    let q = bind(b"query=caf%C3%A9").unwrap();
    assert_eq!(q.query, "caf\u{e9}");
}

#[test]
fn invalid_utf8_query_uses_replacement() {
    let q = bind(b"query=%FF").unwrap();
    assert_eq!(q.query, "\u{fffd}");
}
