use xelis_stats::price::Price;
use xelis_stats::quote::{
    fetch_price, price_from_text, quote_from_lookup, quote_from_node, JsonNode, Quote, QuoteError,
};

fn known(quote: Result<Quote, QuoteError>) -> f64 {
    match quote {
        Ok(Quote::Known { price }) => f64::from_bits(price.bits),
        other => panic!("{:?}", other),
    }
}

#[test]
fn a_number_is_the_price() {
    let body = br#"{"id": "xel-xelis", "quotes": {"USD": {"price": 1.25, "volume": 3}}}"#;
    assert_eq!(known(fetch_price(body)), 1.25);
    assert_eq!(known(fetch_price(br#"{"quotes": {"USD": {"price": 3}}}"#)), 3.0);
    assert_eq!(known(fetch_price(br#"{"quotes": {"USD": {"price": -2}}}"#)), -2.0);
}

#[test]
fn a_string_is_the_price_as_text() {
    match fetch_price(br#"{"quotes": {"USD": {"price": "0.0421"}}}"#) {
        Ok(Quote::Text { text }) => assert_eq!(text, "0.0421"),
        other => panic!("{:?}", other),
    }
}

#[test]
fn other_answers_hold_no_price() {
    for body in [
        "{}",
        "[]",
        "7",
        r#"{"quotes": {"EUR": {"price": 1}}}"#,
        r#"{"quotes": {"USD": {"price": null}}}"#,
        r#"{"quotes": {"USD": {"price": [1]}}}"#,
        r#"{"quotes": {"USD": {"price": {"value": 1}}}}"#,
        r#"{"quotes": {"USD": {"price": true}}}"#,
    ] {
        assert!(matches!(fetch_price(body.as_bytes()), Err(QuoteError::Missing)));
    }
}

#[test]
fn an_answer_that_is_no_document() {
    for (body, reason) in [
        ("", "EOF while parsing a value at line 1 column 0"),
        ("{", "EOF while parsing an object at line 1 column 1"),
        ("{} {}", "trailing characters at line 1 column 4"),
        ("price", "expected value at line 1 column 1"),
    ] {
        let error = fetch_price(body.as_bytes()).unwrap_err();
        assert_eq!(error.message(), "error decoding response body");
        assert_eq!(error.cause().unwrap(), reason);
        assert!(matches!(error, QuoteError::Malformed { .. }));
    }
    assert!(matches!(fetch_price(&[0xff, 0xfe]), Err(QuoteError::Malformed { .. })));
}

#[test]
fn what_was_found() {
    let node = JsonNode::Number { bits: 0.5f64.to_bits() };
    assert_eq!(known(quote_from_lookup(Ok(Some(node)))), 0.5);
    assert!(matches!(quote_from_lookup(Ok(None)), Err(QuoteError::Missing)));
    match quote_from_lookup(Err("expected value".to_string())) {
        Err(QuoteError::Malformed { reason }) => assert_eq!(reason, "expected value"),
        other => panic!("{:?}", other),
    }
}

#[test]
fn nodes() {
    assert_eq!(known(quote_from_node(Some(JsonNode::Number { bits: 2.5f64.to_bits() }))), 2.5);
    assert!(matches!(
        quote_from_node(Some(JsonNode::Unrepresentable)),
        Err(QuoteError::NotRepresentable)
    ));
    for node in [JsonNode::Null, JsonNode::Bool, JsonNode::Array, JsonNode::Object] {
        assert!(matches!(quote_from_node(Some(node)), Err(QuoteError::Missing)));
    }
    assert!(matches!(quote_from_node(None), Err(QuoteError::Missing)));
    match quote_from_node(Some(JsonNode::Text { text: "1e3".to_string() })) {
        Ok(Quote::Text { text }) => assert_eq!(text, "1e3"),
        other => panic!("{:?}", other),
    }
}

#[test]
fn texts_that_were_read() {
    assert_eq!(price_from_text(Ok(9)).unwrap(), Price { bits: 9 });
    let error = price_from_text(Err("invalid float literal".to_string())).unwrap_err();
    assert!(matches!(error, QuoteError::NotANumber { .. }));
    assert_eq!(error.message(), "price string was not a number");
    assert_eq!(error.cause().unwrap(), "invalid float literal");
}

#[test]
fn errors_in_words() {
    assert_eq!(QuoteError::NotRepresentable.message(), "price was not representable as f64");
    assert_eq!(QuoteError::NotRepresentable.cause(), None);
    assert_eq!(QuoteError::Missing.message(), "price was missing from Coinpaprika response");
    assert_eq!(QuoteError::Missing.cause(), None);
}
