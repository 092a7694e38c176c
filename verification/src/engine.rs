//! The `json5format` crate, as far as this library relies on it.
//!
//! Nothing in this file is proved. The types of the crate are made known to the
//! verifier, what its functions return is given a name, and each function that
//! the library calls gets a contract over those names. The rest of the library
//! is verified against these contracts.

use crate::failure::{adopted, FailureView};
use crate::options::{FormatOptions, MAX_INDENT};
use crate::tree::{all_bare, exchanged, items_at, leads_to_array, Items, ItemsView, Node, Notes};
use vstd::prelude::*;

verus! {

/// A parsed document of `json5format`. Its content is hidden from the verifier.
#[verifier::external_type_specification]
#[verifier::external_body]
pub struct ExParsedDocument(json5format::ParsedDocument);

/// A formatter of `json5format`. Its content is hidden from the verifier.
#[verifier::external_type_specification]
#[verifier::external_body]
pub struct ExJson5Format(json5format::Json5Format);

/// A value in a parsed document of `json5format`. Its content is hidden from
/// the verifier.
#[verifier::external_type_specification]
#[verifier::external_body]
pub struct ExValue(json5format::Value);

/// The comments of a value in a parsed document of `json5format`. Its content
/// is hidden from the verifier.
#[verifier::external_type_specification]
#[verifier::external_body]
pub struct ExComments(json5format::Comments);

/// A location as `json5format` reports it: three public fields, which the
/// verifier reads as they are.
#[verifier::external_type_specification]
pub struct ExLocation(json5format::Location);

/// An error of `json5format`: an enum whose variants and fields are public,
/// which the verifier reads as they are.
#[verifier::external_type_specification]
pub struct ExError(json5format::Error);

/// The view of a name that may be absent.
pub open spec fn name_view(name: Option<String>) -> Option<Seq<char>> {
    match name {
        Some(text) => Some(text@),
        None => None,
    }
}

/// The text that a parsed document was read from.
pub uninterp spec fn source_text(document: json5format::ParsedDocument) -> Seq<char>;

/// The name that a parsed document was given when it was read.
pub uninterp spec fn source_name(document: json5format::ParsedDocument) -> Option<Seq<char>>;

/// The options that a formatter was made with.
pub uninterp spec fn style_of(format: json5format::Json5Format) -> FormatOptions;

/// The shape of a parsed document as it stands: the values at the top, each
/// with what is below it.
pub uninterp spec fn outline_of(document: json5format::ParsedDocument) -> ItemsView;

/// The shape of the document that the parser makes of a text that it accepts.
pub uninterp spec fn shape_of(text: Seq<char>) -> ItemsView;

/// The error with which the parser refuses a text under a name, or `None`
/// where it accepts the text.
pub uninterp spec fn parse_outcome(text: Seq<char>, name: Option<Seq<char>>) -> Option<FailureView>;

/// The bytes that the formatter writes, under a set of options, for a
/// document that was read from `text` and whose bare primitives have since
/// been exchanged within their arrays so that it has the shape `shape`.
pub uninterp spec fn render_outcome(
    text: Seq<char>,
    shape: ItemsView,
    options: FormatOptions,
) -> Seq<u8>;

/// `ParsedDocument::from_string` parses `buffer` and keeps it, with `filename`.
///
/// The contract claims that the call is a function of its two arguments: it
/// fails exactly where [`parse_outcome`] names an error, and then with that
/// error; where it succeeds, the document is one read from `buffer` under
/// `filename`, and its shape is the one that [`shape_of`] names for the text.
/// Which texts the parser accepts is not stated here.
pub assume_specification[ json5format::ParsedDocument::from_string ](
    buffer: String,
    filename: Option<String>,
) -> (parsed: Result<json5format::ParsedDocument, json5format::Error>)
    ensures
        match parsed {
            Ok(document) => {
                &&& parse_outcome(buffer@, name_view(filename)) is None
                &&& source_text(document) == buffer@
                &&& source_name(document) == name_view(filename)
                &&& outline_of(document) == shape_of(buffer@)
            },
            Err(error) => parse_outcome(buffer@, name_view(filename)) == Some(
                adopted(error)@,
            ),
        },
;

/// `ParsedDocument::filename` hands out the name that the document was given
/// when it was read.
pub assume_specification[ json5format::ParsedDocument::filename ](
    document: &json5format::ParsedDocument,
) -> (name: &Option<String>)
    ensures
        name_view(*name) == source_name(*document),
;

/// `Json5Format::to_utf8` lays out a parsed document as text, in UTF-8.
///
/// The contract claims that the call succeeds, since no step of the formatter
/// ends in an error, and that the bytes are a function of the text that the
/// document was read from, of the shape it has now and of the options that the
/// formatter was made with: they are what [`render_outcome`] names for the
/// three. How the text is laid out is not stated here.
///
/// Two inputs are left out. The indent is bounded, because the crate
/// multiplies it by the depth of nesting and writes that many spaces. And the
/// formatter is one that does not sort: the crate orders the items of every
/// array by a comparison under which a container equals everything, which is
/// no order where an array holds primitives beside containers, and then the
/// sort of `std` may panic.
pub assume_specification[ json5format::Json5Format::to_utf8 ](
    format: &json5format::Json5Format,
    parsed_document: &json5format::ParsedDocument,
) -> (rendered: Result<Vec<u8>, json5format::Error>)
    requires
        style_of(*format).indent_by <= MAX_INDENT,
        !style_of(*format).sort_array_items,
    ensures
        match rendered {
            Ok(bytes) => bytes@ == render_outcome(
                source_text(*parsed_document),
                outline_of(*parsed_document),
                style_of(*format),
            ),
            Err(_) => false,
        },
;

/// The content of a parsed document, read through `Array::items` and
/// `Array::trailing_comments` and converted value by value with [`node_for`].
///
/// The contract claims that the result is the shape of the document as it
/// stands.
#[verifier::external_body]
pub(crate) fn outline(document: &json5format::ParsedDocument) -> (items: Items)
    ensures
        items@ == outline_of(*document),
{
    Items {
        nodes: document.content.items().map(|item| node_for(&item)).collect(),
        closing: document.content.trailing_comments().len(),
    }
}

/// One value of `json5format` as a [`Node`]: the variant, its comments as
/// [`notes_for`] converts them, for a primitive the bytes of
/// `Primitive::as_str`, and for a container its items or the values of its
/// properties, each converted in the same way, with the number of its
/// trailing comments.
#[verifier::external_body]
fn node_for(value: &json5format::Value) -> Node {
    let notes = notes_for(value.comments());
    match value {
        json5format::Value::Primitive { val, .. } => {
            Node::Primitive { notes, literal: val.as_str().as_bytes().to_vec() }
        },
        json5format::Value::Array { val, .. } => {
            let nodes = val.items().map(|item| node_for(&item)).collect();
            Node::Array { notes, items: Items { nodes, closing: val.trailing_comments().len() } }
        },
        json5format::Value::Object { val, .. } => {
            let nodes = val.properties().map(|property| node_for(&property.value())).collect();
            Node::Object { notes, items: Items { nodes, closing: val.trailing_comments().len() } }
        },
    }
}

/// The comments of one value of `json5format` as [`Notes`]: the number of
/// entries of `Comments::before_value`, and whether `Comments::end_of_line`
/// holds a comment.
#[verifier::external_body]
fn notes_for(comments: &json5format::Comments) -> Notes {
    Notes { leading: comments.before_value().len(), trailing: comments.end_of_line().is_some() }
}

/// Exchanges two items of one array of a parsed document. The array is
/// reached from the content of the document by `Array::items_mut`, and from
/// there on by [`exchange_in`]; the items are exchanged by `std::mem::swap`.
///
/// The contract claims that the document then has the shape in which the two
/// items of that array are exchanged and nothing else differs, and that its
/// text and its name are as they were. The path has to lead to an array of
/// bare primitives, and the places have to be two of its places, the lower
/// one first.
#[verifier::external_body]
pub(crate) fn exchange(
    document: &mut json5format::ParsedDocument,
    path: &Vec<usize>,
    first: usize,
    second: usize,
)
    requires
        leads_to_array(outline_of(*old(document)), path@, true),
        all_bare(items_at(outline_of(*old(document)), path@)),
        first < second < items_at(outline_of(*old(document)), path@).nodes.len(),
    ensures
        outline_of(*final(document)) == exchanged(
            outline_of(*old(document)),
            path@,
            first as int,
            second as int,
        ),
        source_text(*final(document)) == source_text(*old(document)),
        source_name(*final(document)) == source_name(*old(document)),
{
    let mut cells: Vec<_> = document.content.items_mut().collect();
    match path.split_first() {
        None => {
            let (front, back) = cells.split_at_mut(second);
            std::mem::swap(&mut *front[first], &mut *back[0])
        },
        Some((step, rest)) => {
            cells.get_mut(*step).map(|cell| exchange_in(&mut **cell, rest, first, second));
        },
    }
}

/// The same within one value of `json5format`. What the value holds is
/// reached through `Array::items_mut`, or through `Object::properties_mut`
/// and `Property::value_mut`; at the end of the path two of these are
/// exchanged, and before it the path goes on into the one that the step
/// names.
#[verifier::external_body]
fn exchange_in(value: &mut json5format::Value, path: &[usize], first: usize, second: usize) {
    let mut cells: Vec<_> = match value {
        json5format::Value::Array { val, .. } => val.items_mut().collect(),
        json5format::Value::Object { val, .. } => {
            val.properties_mut().map(|property| property.value_mut()).collect()
        },
        json5format::Value::Primitive { .. } => Vec::new(),
    };
    if let Some((step, rest)) = path.split_first() {
        cells.get_mut(*step).map(|cell| exchange_in(&mut **cell, rest, first, second));
    } else {
        let (front, back) = cells.split_at_mut(second);
        std::mem::swap(&mut *front[first], &mut *back[0])
    }
}

/// `Json5Format::with_options`, called with the four settings of `options` and
/// with no option bound to a path.
///
/// The contract claims that the call succeeds, since the crate refuses options
/// only for a path among them and none is passed, and that the formatter was
/// made with `options`.
#[verifier::external_body]
pub(crate) fn make_format(options: FormatOptions) -> (made: Result<
    json5format::Json5Format,
    json5format::Error,
>)
    ensures
        match made {
            Ok(format) => style_of(format) == options,
            Err(_) => false,
        },
{
    json5format::Json5Format::with_options(
        json5format::FormatOptions {
            indent_by: options.indent_by,
            trailing_commas: options.trailing_commas,
            collapse_containers_of_one: options.collapse_containers_of_one,
            sort_array_items: options.sort_array_items,
            ..Default::default()
        },
    )
}

} // verus!
