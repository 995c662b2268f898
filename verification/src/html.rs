//! Reading text out of web pages.
//!
//! The pages are parsed and queried by the `scraper` crate. What it finds is a
//! function of the page and the selectors alone, so each query has a name in
//! specifications; what the staple lists do with the text is verified against
//! that name.

use scraper::{Html, Selector};
use vstd::prelude::*;

verus! {

/// An element found in a page.
pub struct Found {
    /// The tag of the element that it stands directly under, if it stands under one.
    pub parent: Option<String>,
    /// The pieces of text inside it, in the order in which they were handed out.
    pub texts: Vec<String>,
}

impl DeepView for Found {
    type V = (Option<Seq<char>>, Seq<Seq<char>>);

    open spec fn deep_view(&self) -> Self::V {
        (self.parent.deep_view(), self.texts.deep_view())
    }
}

/// For each element of `html` that matches `selector`, in the order in which
/// the query hands them out, the pieces of text inside it. `None` where
/// `selector` is no selector.
pub uninterp spec fn selected_texts(html: Seq<char>, selector: Seq<char>) -> Option<
    Seq<Seq<Seq<char>>>,
>;

/// For each element of `html` that matches `outer`, in the order in which the
/// query hands them out, the elements inside it that match `inner`, each with
/// the tag above it and its pieces of text. `None` where `outer` or `inner` is
/// no selector.
pub uninterp spec fn selected_within(
    html: Seq<char>,
    outer: Seq<char>,
    inner: Seq<char>,
) -> Option<Seq<Seq<(Option<Seq<char>>, Seq<Seq<char>>)>>>;

/// `scraper::Html::parse_document`, `Selector::parse`, `Html::select` and
/// `ElementRef::text`: parses `html` as a document and hands out the text
/// nodes below each element that matches `selector`. The contract claims only
/// that the answer depends on nothing but the two arguments.
#[verifier::external_body]
pub(crate) fn select_texts(html: &str, selector: &str) -> (out: Option<Vec<Vec<String>>>)
    ensures
        out.deep_view() == selected_texts(html@, selector@),
{
    let picked = Selector::parse(selector).ok()?;
    let page = Html::parse_document(html);
    Some(page.select(&picked).map(|e| e.text().map(str::to_owned).collect()).collect())
}

/// `scraper::Html::parse_document`, `Selector::parse`, `Html::select`,
/// `ElementRef::select`, `NodeRef::parent`, `Element::name` and
/// `ElementRef::text`: parses `html` as a document and, for each element that
/// matches `outer`, hands out the elements below it that match `inner`. The
/// contract claims only that the answer depends on nothing but the three
/// arguments.
#[verifier::external_body]
pub(crate) fn select_within(html: &str, outer: &str, inner: &str) -> (out: Option<
    Vec<Vec<Found>>,
>)
    ensures
        out.deep_view() == selected_within(html@, outer@, inner@),
{
    let above = Selector::parse(outer).ok()?;
    let below = Selector::parse(inner).ok()?;
    let page = Html::parse_document(html);
    Some(page.select(&above).map(|t| t.select(&below).map(|e| Found {
        parent: e.parent().and_then(|p| p.value().as_element()).map(|p| p.name().to_owned()),
        texts: e.text().map(str::to_owned).collect(),
    }).collect()).collect())
}

} // verus!
