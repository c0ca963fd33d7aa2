use hyper_markdown_server::handler::{AcceptFormat, RequestHeaders, preferred_format};

fn headers(x_partial: Option<&str>, accept: Option<&str>) -> RequestHeaders {
    RequestHeaders {
        x_partial: x_partial.map(|s| s.to_string()),
        accept: accept.map(|s| s.to_string()),
    }
}

#[test]
fn the_partial_marker_short_circuits_negotiation() {
    let h = headers(Some("true"), Some("application/json, text/html"));
    assert_eq!(preferred_format(&h), vec![AcceptFormat::PartialHtml]);
}

#[test]
fn the_partial_marker_wins_whatever_its_value() {
    let h = headers(Some(""), None);
    assert_eq!(preferred_format(&h), vec![AcceptFormat::PartialHtml]);
}

#[test]
fn no_headers_default_to_any() {
    let h = headers(None, None);
    assert_eq!(preferred_format(&h), vec![AcceptFormat::Any]);
}

#[test]
fn accept_tokens_map_in_client_order() {
    let h = headers(None, Some("text/html, application/json, */*"));
    assert_eq!(
        preferred_format(&h),
        vec![AcceptFormat::Html, AcceptFormat::Json, AcceptFormat::Any]
    );
}

#[test]
fn json_wins_inside_one_token() {
    // a token holding both words maps to json, which is checked first
    let h = headers(None, Some("application/json+html"));
    assert_eq!(preferred_format(&h), vec![AcceptFormat::Json]);
}

#[test]
fn unknown_tokens_are_dropped() {
    let h = headers(None, Some("image/png, text/plain"));
    assert_eq!(preferred_format(&h), Vec::<AcceptFormat>::new());
}

#[test]
fn duplicates_are_kept() {
    let h = headers(None, Some("text/html, application/xhtml+xml"));
    assert_eq!(preferred_format(&h), vec![AcceptFormat::Html, AcceptFormat::Html]);
}
