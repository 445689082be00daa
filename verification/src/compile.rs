//! The document compiler, consumed as a black box: trusted declarations
//! for the engine and document types and for the calls the walk makes.

use vstd::prelude::*;

verus! {

#[verifier::external_type_specification]
#[verifier::external_body]
#[verifier::reject_recursive_types(T)]
pub struct ExTypstEngine<T>(typst_as_lib::TypstEngine<T>);

#[verifier::external_type_specification]
#[verifier::external_body]
pub struct ExTypstTemplateCollection(typst_as_lib::TypstTemplateCollection);

#[verifier::external_type_specification]
#[verifier::external_body]
pub struct ExHtmlDocument(typst_html::HtmlDocument);

/// Relies on typst_as_lib's TypstEngine::compile_with_input: compiles the
/// document at `path`, passing the input flag that selects the HTML output
/// target. What comes back depends on what is on disk, so nothing is
/// promised of the outcome.
#[verifier::external_body]
pub(crate) fn compile_document(
    engine: &typst_as_lib::TypstEngine,
    path: &str,
) -> (r: Result<typst_html::HtmlDocument, String>) {
    let mut inputs = typst::foundations::Dict::new();
    inputs.insert(
        "target".into(),
        typst::foundations::Value::Str(typst::foundations::Str::from("html")),
    );
    engine.compile_with_input(path, inputs).output.map_err(|e| format!("{:?}", e))
}

/// Relies on typst's Document::info: hands out the document's declared
/// title, if any, as plain text.
#[verifier::external_body]
pub(crate) fn doc_title(doc: &typst_html::HtmlDocument) -> (r: Option<String>) {
    <typst_html::HtmlDocument as typst::model::Document>::info(doc)
        .title
        .as_ref()
        .map(|t| t.to_string())
}

/// Relies on typst's Document::info and Datetime: hands out the declared
/// date as (year, month, day, weekday), or nothing when no full date is
/// declared. Month is 1 to 12 and day 1 to 31 by the time crate's Date;
/// weekday counts Monday as 1, so it is 1 to 7.
#[verifier::external_body]
pub(crate) fn doc_date(doc: &typst_html::HtmlDocument) -> (r: Option<(i32, u8, u8, u8)>)
    ensures
        match r {
            Option::Some(d) => 1 <= d.1 <= 12 && 1 <= d.2 <= 31 && 1 <= d.3 <= 7,
            Option::None => true,
        },
{
    let date = <typst_html::HtmlDocument as typst::model::Document>::info(doc)
        .date
        .custom()
        .flatten()?;
    match (date.year(), date.month(), date.day(), date.weekday()) {
        (Some(y), Some(m), Some(d), Some(w)) => Some((y, m, d, w)),
        _ => None,
    }
}

/// Relies on typst_html::html: encodes a compiled document as HTML markup.
#[verifier::external_body]
pub(crate) fn render_html(doc: &typst_html::HtmlDocument) -> (r: Result<String, String>) {
    typst_html::html(doc, &typst_html::HtmlOptions { pretty: false }).map_err(|e| format!("{:?}", e))
}

} // verus!
