//! A document that the parser has accepted.

use crate::arrange::arrange_items;
use crate::engine::{
    name_view, outline, outline_of, parse_outcome, shape_of, source_name, source_text,
};
use crate::failure::{Failure, FailureView, Position, PositionView};
use crate::tree::{arranged, Items};
use vstd::prelude::*;
use vstd::string::*;
use vstd::utf8::encode_utf8;

verus! {

/// A parsed JSON5 document, with its comments. It is made by [`parse`] and by
/// nothing else, so every document is what the parser made of its text.
pub struct Document {
    text: String,
    name: Option<String>,
    parsed: json5format::ParsedDocument,
}

/// What a [`Document`] stands for in contracts: the text it was read from and
/// the name it was given.
pub struct DocumentView {
    pub text: Seq<char>,
    pub name: Option<Seq<char>>,
}

impl View for Document {
    type V = DocumentView;

    closed spec fn view(&self) -> DocumentView {
        DocumentView { text: self.text@, name: name_view(self.name) }
    }
}

/// What is wrong with a text that holds no value.
pub open spec fn no_value_text() -> Seq<char> {
    "The document holds no value"@
}

/// What is wrong with a text that holds several values, one after the other.
pub open spec fn several_values_text() -> Seq<char> {
    "The document holds more than one value"@
}

/// The failure for a document that holds several values: a parse error
/// without a place, since none is known for the values behind the first,
/// whose message begins with the name of the document where it has one.
pub open spec fn root_failure(name: Option<Seq<char>>, what: Seq<char>) -> FailureView {
    FailureView::Parse {
        location: None,
        message: match name {
            Some(given) => given + ": "@ + what,
            None => what,
        },
    }
}

/// Whether a byte of a text in UTF-8 begins a character.
pub open spec fn is_lead(byte: u8) -> bool {
    byte < 128 || byte >= 192
}

/// How many lines of a text have ended.
pub open spec fn lines_in(bytes: Seq<u8>) -> nat
    decreases bytes.len(),
{
    if bytes.len() == 0 {
        0
    } else if bytes.last() == 10 {
        lines_in(bytes.drop_last()) + 1
    } else {
        lines_in(bytes.drop_last())
    }
}

/// How many characters stand in the last line of a text.
pub open spec fn column_in(bytes: Seq<u8>) -> nat
    decreases bytes.len(),
{
    if bytes.len() == 0 || bytes.last() == 10 {
        0
    } else if is_lead(bytes.last()) {
        column_in(bytes.drop_last()) + 1
    } else {
        column_in(bytes.drop_last())
    }
}

/// The number of the line or column that follows a count of them, which are
/// numbered from 1.
pub open spec fn following(count: nat) -> usize {
    if count < usize::MAX {
        (count + 1) as usize
    } else {
        usize::MAX
    }
}

/// The place behind the last character of a text.
pub open spec fn end_of(text: Seq<char>, name: Option<Seq<char>>) -> PositionView {
    PositionView {
        file: name,
        line: following(lines_in(encode_utf8(text))) as nat,
        col: following(column_in(encode_utf8(text))) as nat,
    }
}

/// The failure for a text that holds no value: a parse error at its end.
pub open spec fn no_value(text: Seq<char>, name: Option<Seq<char>>) -> FailureView {
    FailureView::Parse { location: Some(end_of(text, name)), message: no_value_text() }
}

/// Why a text under a name is no document, or `None` where it is one: the
/// error of the parser where it refuses the text, and else a failure where
/// the text does not hold exactly one value at the top.
pub open spec fn parse_failure(text: Seq<char>, name: Option<Seq<char>>) -> Option<FailureView> {
    match parse_outcome(text, name) {
        Some(failure) => Some(failure),
        None => if shape_of(text).nodes.len() == 0 {
            Some(no_value(text, name))
        } else if shape_of(text).nodes.len() > 1 {
            Some(root_failure(name, several_values_text()))
        } else {
            None
        },
    }
}

fn no_value_at(text: &String, name: &Option<String>) -> (failure: Failure)
    ensures
        failure@ == no_value(text@, name_view(*name)),
{
    let bytes = text.as_str().as_bytes();
    let mut lines: usize = 0;
    let mut column: usize = 0;
    let mut at: usize = 0;
    assert(bytes@.take(0) =~= Seq::<u8>::empty());
    while at < bytes.len()
        invariant
            at <= bytes@.len(),
            lines == lines_in(bytes@.take(at as int)),
            column == column_in(bytes@.take(at as int)),
            lines <= at,
            column <= at,
        decreases bytes@.len() - at,
    {
        let byte = bytes[at];
        proof {
            assert(bytes@.take(at + 1).drop_last() =~= bytes@.take(at as int));
            assert(bytes@.take(at + 1).last() == bytes@[at as int]);
        }
        if byte == 10 {
            lines = lines + 1;
            column = 0;
        } else if byte < 128 || byte >= 192 {
            column = column + 1;
        }
        at = at + 1;
    }
    assert(bytes@.take(at as int) =~= bytes@);
    let line = if lines < usize::MAX {
        lines + 1
    } else {
        lines
    };
    let col = if column < usize::MAX {
        column + 1
    } else {
        column
    };
    Failure::Parse {
        location: Some(Position { file: copy_same(name), line, col }),
        message: String::from_str("The document holds no value"),
    }
}

fn copy_same(name: &Option<String>) -> (copy: Option<String>)
    ensures
        copy == *name,
{
    match name {
        Some(given) => Some(given.clone()),
        None => None,
    }
}

fn root_refused(name: &Option<String>, what: &str) -> (failure: Failure)
    ensures
        failure@ == root_failure(name_view(*name), what@),
{
    let mut message = match name {
        Some(given) => {
            let mut start = given.clone();
            start.append(": ");
            start
        },
        None => String::new(),
    };
    message.append(what);
    let failure = Failure::Parse { location: None, message };
    assert(failure@->Parse_message =~= root_failure(name_view(*name), what@)->Parse_message);
    failure
}

fn copy_of(name: &Option<String>) -> (copy: Option<String>)
    ensures
        name_view(copy) == name_view(*name),
{
    match name {
        Some(given) => Some(given.clone()),
        None => None,
    }
}

impl Document {
    #[verifier::type_invariant]
    spec fn as_parsed(self) -> bool {
        &&& parse_outcome(self.text@, name_view(self.name)) is None
        &&& shape_of(self.text@).nodes.len() == 1
        &&& source_text(self.parsed) == self.text@
        &&& source_name(self.parsed) == name_view(self.name)
        &&& outline_of(self.parsed) == shape_of(self.text@)
    }

    /// The name that the document was given when it was parsed.
    pub fn filename(&self) -> (name: &Option<String>)
        ensures
            name_view(*name) == self@.name,
    {
        proof {
            use_type_invariant(self);
        }
        self.parsed.filename()
    }

    /// The shape of the document: its values, their literals, and where
    /// comments stand.
    pub fn outline(&self) -> (items: Items)
        ensures
            items@ == shape_of(self@.text),
    {
        proof {
            use_type_invariant(self);
        }
        outline(&self.parsed)
    }

    /// The document as the formatter takes it.
    pub(crate) fn parsed(&self) -> (parsed: &json5format::ParsedDocument)
        ensures
            source_text(*parsed) == self@.text,
            outline_of(*parsed) == shape_of(self@.text),
    {
        proof {
            use_type_invariant(self);
        }
        &self.parsed
    }

    /// The document parsed once more and put in order: every array that is
    /// sorted holds its primitives in order, and everything else stands as in
    /// the source.
    pub(crate) fn in_order(&self) -> (copy: json5format::ParsedDocument)
        ensures
            source_text(copy) == self@.text,
            outline_of(copy) == arranged(shape_of(self@.text), true),
    {
        proof {
            use_type_invariant(self);
        }
        match json5format::ParsedDocument::from_string(self.text.clone(), copy_of(&self.name)) {
            Ok(parsed) => {
                let mut copy = parsed;
                let shape = outline(&copy);
                let top: Vec<usize> = Vec::new();
                arrange_items(&mut copy, &shape, true, &top);
                copy
            },
            Err(_) => vstd::pervasive::unreached(),
        }
    }
}

/// Parses `text` as a JSON5 document. The name, where there is one, is kept
/// with the document and shows in the location of an error.
///
/// The parser decides whether the text is JSON5, and a text that it accepts
/// is a document where it holds exactly one value at the top. Where it is
/// one, the document is that text under that name; where it is not, the
/// failure is the one that [`parse_failure`] names, and there is no document.
pub fn parse(text: String, name: Option<String>) -> (parsed: Result<Document, Failure>)
    ensures
        match parsed {
            Ok(document) => {
                &&& parse_failure(text@, name_view(name)) is None
                &&& document@ == (DocumentView { text: text@, name: name_view(name) })
            },
            Err(failure) => parse_failure(text@, name_view(name)) == Some(failure@),
        },
{
    match json5format::ParsedDocument::from_string(text.clone(), copy_of(&name)) {
        Ok(parsed) => {
            let shape = outline(&parsed);
            if shape.nodes.len() == 0 {
                Err(no_value_at(&text, &name))
            } else if shape.nodes.len() > 1 {
                Err(root_refused(&name, "The document holds more than one value"))
            } else {
                Ok(Document { text, name, parsed })
            }
        },
        Err(error) => Err(Failure::from(error)),
    }
}

} // verus!
