//! Rendering a parsed document under a set of options.

use crate::document::Document;
use crate::engine::{make_format, render_outcome, shape_of, style_of};
use crate::failure::{Failure, FailureView};
use crate::options::{indent_refused, FormatOptions};
use crate::tree::{
    all_bare, arranged, lemma_commented_document_stays, ItemsView, NodeView, Notes,
};
use vstd::prelude::*;

verus! {

/// What a rendering stands for in contracts.
pub open spec fn rendered_view(rendered: Result<Vec<u8>, Failure>) -> Result<Seq<u8>, FailureView> {
    match rendered {
        Ok(bytes) => Ok(bytes@),
        Err(failure) => Err(failure@),
    }
}

/// The same options, but that nothing is sorted.
pub open spec fn unsorted(options: FormatOptions) -> FormatOptions {
    FormatOptions {
        indent_by: options.indent_by,
        trailing_commas: options.trailing_commas,
        collapse_containers_of_one: options.collapse_containers_of_one,
        sort_array_items: false,
    }
}

/// Why no formatter can be made for a set of options, or `None` where one
/// can: the one reason is an indent that is too wide.
pub open spec fn refusal(options: FormatOptions) -> Option<FailureView> {
    if !options.is_valid() {
        Some(indent_refused())
    } else {
        None
    }
}

/// The shape in which the document of a text is handed to the formatter: put
/// in order where arrays are to be sorted, else as the parser made it.
pub open spec fn arrangement(text: Seq<char>, sort: bool) -> ItemsView {
    if sort {
        arranged(shape_of(text), true)
    } else {
        shape_of(text)
    }
}

/// What a formatter made with `options` writes for a text: the layout of its
/// document in the arrangement that the options ask for. The order of the
/// items is decided here, so the formatter itself is told to leave it.
pub open spec fn rendition(text: Seq<char>, options: FormatOptions) -> Seq<u8> {
    render_outcome(text, arrangement(text, options.sort_array_items), unsorted(options))
}

/// What rendering a text under a set of options gives: the refusal of the
/// options where there is one, else what the formatter writes for the text.
/// Under options that are accepted, rendering does not fail.
pub open spec fn rendering(text: Seq<char>, options: FormatOptions) -> Result<
    Seq<u8>,
    FailureView,
> {
    match refusal(options) {
        Some(failure) => Err(failure),
        None => Ok(rendition(text, options)),
    }
}

/// A formatter: a set of options that has been accepted.
pub struct Formatter {
    format: json5format::Json5Format,
    sort: bool,
}

impl Formatter {
    #[verifier::type_invariant]
    spec fn accepted(self) -> bool {
        style_of(self.format).is_valid() && !style_of(self.format).sort_array_items
    }

    /// The options that the formatter was made with.
    pub closed spec fn options(self) -> FormatOptions {
        FormatOptions {
            indent_by: style_of(self.format).indent_by,
            trailing_commas: style_of(self.format).trailing_commas,
            collapse_containers_of_one: style_of(self.format).collapse_containers_of_one,
            sort_array_items: self.sort,
        }
    }

    /// Makes a formatter for `options`. It fails for an indent that is too
    /// wide and for nothing else.
    pub fn with_options(options: FormatOptions) -> (made: Result<Formatter, Failure>)
        ensures
            match made {
                Ok(formatter) => options.is_valid() && formatter.options() == options,
                Err(failure) => !options.is_valid() && failure@ == indent_refused(),
            },
    {
        match options.validate() {
            Ok(_) => {},
            Err(failure) => {
                return Err(failure);
            },
        }
        match make_format(
            FormatOptions {
                indent_by: options.indent_by,
                trailing_commas: options.trailing_commas,
                collapse_containers_of_one: options.collapse_containers_of_one,
                sort_array_items: false,
            },
        ) {
            Ok(format) => Ok(Formatter { format, sort: options.sort_array_items }),
            Err(error) => Err(Failure::from(error)),
        }
    }

    /// Renders `document` as UTF-8 text in the style of this formatter. Where
    /// the formatter sorts, each array that holds primitives only and no
    /// comment is rendered with its items in order, and every other array in
    /// the order of the source. Rendering does not fail.
    pub fn to_utf8(&self, document: &Document) -> (rendered: Result<Vec<u8>, Failure>)
        ensures
            rendered_view(rendered) == Ok::<Seq<u8>, FailureView>(
                rendition(document@.text, self.options()),
            ),
    {
        proof {
            use_type_invariant(self);
        }
        let outcome = if self.sort {
            let copy = document.in_order();
            self.format.to_utf8(&copy)
        } else {
            self.format.to_utf8(document.parsed())
        };
        match outcome {
            Ok(bytes) => Ok(bytes),
            Err(error) => Err(Failure::from(error)),
        }
    }
}

/// Renders `document` under `options`: the two steps of [`Formatter`] in one.
/// It fails for an indent that is too wide and for nothing else.
pub fn render(document: &Document, options: FormatOptions) -> (rendered: Result<Vec<u8>, Failure>)
    ensures
        rendered_view(rendered) == rendering(document@.text, options),
{
    match Formatter::with_options(options) {
        Ok(formatter) => formatter.to_utf8(document),
        Err(failure) => Err(failure),
    }
}

/// Options that do not ask for sorting hand the document to the formatter as
/// the parser made it.
pub proof fn lemma_unsorted_as_parsed(text: Seq<char>, options: FormatOptions)
    requires
        !options.sort_array_items,
    ensures
        rendition(text, options) == render_outcome(text, shape_of(text), options),
{
}

/// Where sorting changes nothing in the shape of a document, asking for it
/// changes nothing in what is rendered.
pub proof fn lemma_same_shape_same_bytes(text: Seq<char>, options: FormatOptions)
    requires
        arranged(shape_of(text), true) == shape_of(text),
    ensures
        rendering(text, options) == rendering(text, unsorted(options)),
{
}

/// A document that is one array of primitives, with a comment among them or
/// behind them, is rendered with sorting as it is without.
pub proof fn lemma_commented_array_renders_alike(
    text: Seq<char>,
    options: FormatOptions,
    notes: Notes,
    items: ItemsView,
)
    requires
        shape_of(text).nodes == seq![NodeView::Array { notes, items }],
        forall|i: int| 0 <= i < items.nodes.len() ==> #[trigger] items.nodes[i] is Primitive,
        items.closing > 0 || !all_bare(items),
    ensures
        rendering(text, options) == rendering(text, unsorted(options)),
{
    lemma_commented_document_stays(shape_of(text), notes, items);
}

} // verus!
