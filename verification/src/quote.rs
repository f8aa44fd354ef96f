//! The price in the answer of the price endpoint.
use crate::price::Price;
use vstd::prelude::*;
use vstd::string::*;

verus! {

/// Where the answer holds the price, as a JSON pointer.
pub const PRICE_POINTER: &'static str = "/quotes/USD/price";

/// What stands at one place of a JSON document, as far as a price can be read from
/// it.
#[derive(Debug)]
pub enum JsonNode {
    /// A number, as the bits of the double that it is read as.
    Number { bits: u64 },
    /// A number that no double stands for.
    Unrepresentable,
    /// A string.
    Text { text: String },
    /// The null value.
    Null,
    /// A truth value.
    Bool,
    /// A list.
    Array,
    /// An object.
    Object,
}

/// What a `JsonNode` holds.
pub ghost enum NodeView {
    Number { bits: u64 },
    Unrepresentable,
    Text { text: Seq<char> },
    Null,
    Bool,
    Array,
    Object,
}

impl View for JsonNode {
    type V = NodeView;

    open spec fn view(&self) -> NodeView {
        match *self {
            JsonNode::Number { bits } => NodeView::Number { bits },
            JsonNode::Unrepresentable => NodeView::Unrepresentable,
            JsonNode::Text { text } => NodeView::Text { text: text@ },
            JsonNode::Null => NodeView::Null,
            JsonNode::Bool => NodeView::Bool,
            JsonNode::Array => NodeView::Array,
            JsonNode::Object => NodeView::Object,
        }
    }
}

/// A node that may be absent, as its view.
pub open spec fn node_view(node: Option<JsonNode>) -> Option<NodeView> {
    match node {
        Some(node) => Some(node@),
        None => None,
    }
}

/// What was found in a document, or why the bytes are none, as its view.
pub open spec fn lookup_view(found: Result<Option<JsonNode>, String>) -> Result<
    Option<NodeView>,
    Seq<char>,
> {
    match found {
        Ok(node) => Ok(node_view(node)),
        Err(reason) => Err(reason@),
    }
}

/// What `serde_json` finds in a document at a JSON pointer: the node there, where there
/// is one. Where the bytes are no JSON document, the error of `serde_json` in words.
pub uninterp spec fn json_lookup(body: Seq<u8>, pointer: Seq<char>) -> Result<
    Option<NodeView>,
    Seq<char>,
>;

/// `serde_json::from_slice` into a `serde_json::Value`, then `Value::pointer` on it, a
/// number being taken by `Number::as_f64`, and a `serde_json::Error` by the text that
/// its `Display` gives. The result depends on the bytes and on the pointer alone.
#[verifier::external_body]
fn lookup_json(body: &[u8], pointer: &str) -> (found: Result<Option<JsonNode>, String>)
    ensures
        lookup_view(found) == json_lookup(body@, pointer@),
{
    let document: serde_json::Value = serde_json::from_slice(body).map_err(|e| e.to_string())?;
    Ok(match document.pointer(pointer) {
        None => None,
        Some(serde_json::Value::Null) => Some(JsonNode::Null),
        Some(serde_json::Value::Bool(_)) => Some(JsonNode::Bool),
        Some(serde_json::Value::Number(number)) => Some(match number.as_f64() {
            Some(double) => JsonNode::Number { bits: double.to_bits() },
            None => JsonNode::Unrepresentable,
        }),
        Some(serde_json::Value::String(text)) => Some(JsonNode::Text { text: text.clone() }),
        Some(serde_json::Value::Array(_)) => Some(JsonNode::Array),
        Some(serde_json::Value::Object(_)) => Some(JsonNode::Object),
    })
}

/// Why there is no price.
#[derive(Debug)]
pub enum QuoteError {
    /// The answer is no JSON document; `reason` says why.
    Malformed { reason: String },
    /// The price is a number that no double stands for.
    NotRepresentable,
    /// The price is a string that is no number; `reason` says why.
    NotANumber { reason: String },
    /// The answer holds no price.
    Missing,
}

/// What a `QuoteError` holds.
pub ghost enum QuoteErrorView {
    Malformed { reason: Seq<char> },
    NotRepresentable,
    NotANumber { reason: Seq<char> },
    Missing,
}

impl View for QuoteError {
    type V = QuoteErrorView;

    open spec fn view(&self) -> QuoteErrorView {
        match *self {
            QuoteError::Malformed { reason } => QuoteErrorView::Malformed { reason: reason@ },
            QuoteError::NotRepresentable => QuoteErrorView::NotRepresentable,
            QuoteError::NotANumber { reason } => QuoteErrorView::NotANumber { reason: reason@ },
            QuoteError::Missing => QuoteErrorView::Missing,
        }
    }
}

impl QuoteErrorView {
    /// The error in words.
    pub open spec fn text(self) -> Seq<char> {
        match self {
            QuoteErrorView::Malformed { .. } => "error decoding response body"@,
            QuoteErrorView::NotRepresentable => "price was not representable as f64"@,
            QuoteErrorView::NotANumber { .. } => "price string was not a number"@,
            QuoteErrorView::Missing => "price was missing from Coinpaprika response"@,
        }
    }

    /// What caused the error, in words.
    pub open spec fn reason(self) -> Option<Seq<char>> {
        match self {
            QuoteErrorView::Malformed { reason } => Some(reason),
            QuoteErrorView::NotANumber { reason } => Some(reason),
            _ => None,
        }
    }
}

impl QuoteError {
    /// The error in words.
    pub fn message(&self) -> (message: String)
        ensures
            message@ == self@.text(),
    {
        match self {
            QuoteError::Malformed { .. } => "error decoding response body".to_owned(),
            QuoteError::NotRepresentable => "price was not representable as f64".to_owned(),
            QuoteError::NotANumber { .. } => "price string was not a number".to_owned(),
            QuoteError::Missing => "price was missing from Coinpaprika response".to_owned(),
        }
    }

    /// What caused the error, in words, where something else did.
    pub fn cause(&self) -> (cause: Option<&String>)
        ensures
            cause is Some <==> self@.reason() is Some,
            cause matches Some(c) ==> self@.reason() == Some(c@),
    {
        match self {
            QuoteError::Malformed { reason } => Some(reason),
            QuoteError::NotANumber { reason } => Some(reason),
            _ => None,
        }
    }
}

/// A price as it stands in the answer.
#[derive(Debug)]
pub enum Quote {
    /// The price.
    Known { price: Price },
    /// The price as a decimal text.
    Text { text: String },
}

/// What a `Quote` holds.
pub ghost enum QuoteView {
    Known { price: Price },
    Text { text: Seq<char> },
}

impl View for Quote {
    type V = QuoteView;

    open spec fn view(&self) -> QuoteView {
        match *self {
            Quote::Known { price } => QuoteView::Known { price },
            Quote::Text { text } => QuoteView::Text { text: text@ },
        }
    }
}

/// A quote or an error, as its view.
pub open spec fn quote_view(quote: Result<Quote, QuoteError>) -> Result<QuoteView, QuoteErrorView> {
    match quote {
        Ok(quote) => Ok(quote@),
        Err(error) => Err(error@),
    }
}

/// The price that a node stands for.
pub open spec fn quoted(node: Option<NodeView>) -> Result<QuoteView, QuoteErrorView> {
    match node {
        Some(NodeView::Number { bits }) => Ok(QuoteView::Known { price: Price { bits } }),
        Some(NodeView::Unrepresentable) => Err(QuoteErrorView::NotRepresentable),
        Some(NodeView::Text { text }) => Ok(QuoteView::Text { text }),
        _ => Err(QuoteErrorView::Missing),
    }
}

/// The price that a node stands for: a number or a string.
pub fn quote_from_node(node: Option<JsonNode>) -> (quote: Result<Quote, QuoteError>)
    ensures
        quote_view(quote) == quoted(node_view(node)),
        node matches Some(JsonNode::Number { bits }) ==> quote == Ok::<Quote, QuoteError>(
            Quote::Known { price: Price { bits } },
        ),
        node matches Some(JsonNode::Text { text }) ==> quote == Ok::<Quote, QuoteError>(
            Quote::Text { text },
        ),
        quote is Err && quote->Err_0 is Missing <==> node is None || node->0 is Null || node->0
            is Bool || node->0 is Array || node->0 is Object,
{
    match node {
        Some(JsonNode::Number { bits }) => Ok(Quote::Known { price: Price { bits } }),
        Some(JsonNode::Unrepresentable) => Err(QuoteError::NotRepresentable),
        Some(JsonNode::Text { text }) => Ok(Quote::Text { text }),
        _ => Err(QuoteError::Missing),
    }
}

/// The price in what was found at the price's place in the answer.
pub open spec fn quoted_in(found: Result<Option<NodeView>, Seq<char>>) -> Result<
    QuoteView,
    QuoteErrorView,
> {
    match found {
        Ok(node) => quoted(node),
        Err(reason) => Err(QuoteErrorView::Malformed { reason }),
    }
}

/// The price in what was found at the price's place in the answer. An answer that is no
/// JSON document has none.
pub fn quote_from_lookup(found: Result<Option<JsonNode>, String>) -> (quote: Result<
    Quote,
    QuoteError,
>)
    ensures
        quote_view(quote) == quoted_in(lookup_view(found)),
{
    match found {
        Ok(node) => quote_from_node(node),
        Err(reason) => Err(QuoteError::Malformed { reason }),
    }
}

/// The price in the endpoint's answer.
pub fn fetch_price(body: &[u8]) -> (quote: Result<Quote, QuoteError>)
    ensures
        quote_view(quote) == quoted_in(json_lookup(body@, "/quotes/USD/price"@)),
{
    quote_from_lookup(lookup_json(body, PRICE_POINTER))
}

/// A price or an error, as its view.
pub open spec fn price_view(price: Result<Price, QuoteError>) -> Result<Price, QuoteErrorView> {
    match price {
        Ok(price) => Ok(price),
        Err(error) => Err(error@),
    }
}

/// The price of a text, by the bits of the double it was read as, or why it is no
/// number.
pub fn price_from_text(parsed: Result<u64, String>) -> (price: Result<Price, QuoteError>)
    ensures
        price_view(price) == (match parsed {
            Ok(bits) => Ok(Price { bits }),
            Err(reason) => Err(QuoteErrorView::NotANumber { reason: reason@ }),
        }),
{
    match parsed {
        Ok(bits) => Ok(Price { bits }),
        Err(reason) => Err(QuoteError::NotANumber { reason }),
    }
}

} // verus!
