//! A batch of documents: what is read, and what is sent out for each.

use crate::document::{parse, parse_failure, Document, DocumentView};
use crate::failure::{Failure, FailureView};
use crate::formatter::{refusal, rendition, Formatter};
use crate::options::FormatOptions;
use vstd::prelude::*;
use vstd::string::*;
use vstd::utf8::encode_utf8;

verus! {

/// A document as it was read: its name and its text.
#[derive(Debug, Clone, PartialEq, Eq)]
pub struct Source {
    pub name: String,
    pub text: String,
}

/// What a [`Source`] stands for in contracts.
pub struct SourceView {
    pub name: Seq<char>,
    pub text: Seq<char>,
}

impl View for Source {
    type V = SourceView;

    open spec fn view(&self) -> SourceView {
        SourceView { name: self.name@, text: self.text@ }
    }
}

/// What is to be done with one formatted document.
#[derive(Debug, Clone, PartialEq, Eq)]
pub enum Emission {
    /// The file at `path` is to be overwritten with `content`.
    Replace { path: String, content: Vec<u8> },
    /// `heading` and then `content` are to be printed.
    Print { heading: String, content: Vec<u8> },
}

/// What an [`Emission`] stands for in contracts.
pub enum EmissionView {
    Replace { path: Seq<char>, content: Seq<u8> },
    Print { heading: Seq<char>, content: Seq<u8> },
}

impl View for Emission {
    type V = EmissionView;

    open spec fn view(&self) -> EmissionView {
        match *self {
            Emission::Replace { path, content } => EmissionView::Replace {
                path: path@,
                content: content@,
            },
            Emission::Print { heading, content } => EmissionView::Print {
                heading: heading@,
                content: content@,
            },
        }
    }
}

/// How far a batch came: what is to be sent out, in order, and the failure
/// that stopped it, if one did.
#[derive(Debug, Clone, PartialEq, Eq)]
pub struct Batch {
    pub emissions: Vec<Emission>,
    pub failure: Option<Failure>,
}

/// What a [`Batch`] stands for in contracts.
pub struct BatchView {
    pub emissions: Seq<EmissionView>,
    pub failure: Option<FailureView>,
}

impl View for Batch {
    type V = BatchView;

    open spec fn view(&self) -> BatchView {
        BatchView {
            emissions: Seq::new(self.emissions@.len(), |i: int| self.emissions@[i]@),
            failure: match self.failure {
                Some(failure) => Some(failure@),
                None => None,
            },
        }
    }
}

/// A line of `width` equals signs.
pub open spec fn rule(width: nat) -> Seq<char> {
    Seq::new(width, |i: int| '=')
}

/// What is printed before a document that is not the first: an empty line.
pub open spec fn gap(index: nat) -> Seq<char> {
    if index > 0 {
        seq!['\n']
    } else {
        Seq::empty()
    }
}

/// What is printed above a document where there are several: its name with a
/// colon, underlined with as many equals signs as the name has bytes in UTF-8.
pub open spec fn title(count: nat, name: Seq<char>) -> Seq<char> {
    if count > 1 {
        name + seq![':', '\n'] + rule(encode_utf8(name).len()) + seq!['\n']
    } else {
        Seq::empty()
    }
}

/// What is printed before the document at `index` of `count`, named `name`.
pub open spec fn heading_text(index: nat, count: nat, name: Seq<char>) -> Seq<char> {
    gap(index) + title(count, name)
}

/// Whether a name on the command line stands for the standard input.
pub open spec fn names_standard_input(name: Seq<char>) -> bool {
    name == seq!['-']
}

/// Whether the document named `name` is to be read from the standard input.
pub fn reads_standard_input(name: &str) -> (standard: bool)
    ensures
        standard == names_standard_input(name@),
{
    proof {
        reveal_strlit("-");
    }
    let given = String::from_str(name);
    let dash = String::from_str("-");
    assert("-"@ =~= seq!['-']);
    given == dash
}

/// Writes what is printed before the document at `index` of `count`.
pub fn heading(index: usize, count: usize, name: &str) -> (text: String)
    ensures
        text@ == heading_text(index as nat, count as nat, name@),
{
    proof {
        reveal_strlit("\n");
        reveal_strlit(":\n");
    }
    let mut text = String::new();
    if index > 0 {
        text.append("\n");
    }
    if count > 1 {
        text.append(name);
        text.append(":\n");
        let width = name.as_bytes().len();
        let mut drawn: usize = 0;
        while drawn < width
            invariant
                drawn <= width,
                width == encode_utf8(name@).len(),
                text@ == gap(index as nat) + name@ + seq![':', '\n'] + rule(drawn as nat),
            decreases width - drawn,
        {
            proof {
                reveal_strlit("=");
            }
            text.append("=");
            drawn = drawn + 1;
            assert(text@ =~= gap(index as nat) + name@ + seq![':', '\n'] + rule(drawn as nat));
        }
        text.append("\n");
        assert(text@ =~= heading_text(index as nat, count as nat, name@));
    } else {
        assert(text@ =~= heading_text(index as nat, count as nat, name@));
    }
    text
}

/// How many positions from 0 on hold without a gap, among the first `limit`.
pub open spec fn leading(holds: spec_fn(int) -> bool, limit: int) -> int
    decreases limit,
{
    if limit <= 0 {
        0
    } else {
        let before = leading(holds, limit - 1);
        if before == limit - 1 && holds(limit - 1) {
            limit
        } else {
            before
        }
    }
}

/// [`leading`] is the one position below which everything holds and which
/// itself does not hold, or the limit where everything holds.
pub proof fn lemma_leading_is_first(holds: spec_fn(int) -> bool, limit: int, first: int)
    requires
        0 <= first <= limit,
        forall|i: int| 0 <= i < first ==> #[trigger] holds(i),
        first < limit ==> !holds(first),
    ensures
        leading(holds, limit) == first,
    decreases limit,
{
    if limit > 0 {
        if first < limit {
            lemma_leading_is_first(holds, limit - 1, first);
        } else {
            lemma_leading_is_first(holds, limit - 1, limit - 1);
        }
    }
}

/// Everything below [`leading`] holds, and where it is below the limit, the
/// position it names does not hold.
pub proof fn lemma_leading_holds(holds: spec_fn(int) -> bool, limit: int)
    requires
        0 <= limit,
    ensures
        0 <= leading(holds, limit) <= limit,
        forall|i: int| 0 <= i < leading(holds, limit) ==> #[trigger] holds(i),
        leading(holds, limit) < limit ==> !holds(leading(holds, limit)),
    decreases limit,
{
    if limit > 0 {
        lemma_leading_holds(holds, limit - 1);
    }
}

/// Whether a source is a document under its name.
pub open spec fn accepted(source: SourceView) -> bool {
    parse_failure(source.text, Some(source.name)) is None
}

/// Which of `sources` are documents, by position.
pub open spec fn accepted_at(sources: Seq<SourceView>) -> spec_fn(int) -> bool {
    |i: int| accepted(sources[i])
}

/// The document that a source becomes when it is parsed.
pub open spec fn document_of(source: SourceView) -> DocumentView {
    DocumentView { text: source.text, name: Some(source.name) }
}

/// What parsing a batch gives: every source as a document, in order, where the
/// parser accepts them all; else the parser's error for the first source that
/// it refuses.
pub open spec fn parsing(sources: Seq<SourceView>) -> Result<Seq<DocumentView>, FailureView> {
    let good = leading(accepted_at(sources), sources.len() as int);
    if good == sources.len() {
        Ok(Seq::new(sources.len(), |i: int| document_of(sources[i])))
    } else {
        Err(parse_failure(sources[good].text, Some(sources[good].name)).unwrap())
    }
}

/// The views of a sequence of sources.
pub open spec fn source_views(sources: Seq<Source>) -> Seq<SourceView> {
    Seq::new(sources.len(), |i: int| sources[i]@)
}

/// The views of a sequence of documents.
pub open spec fn document_views(documents: Seq<Document>) -> Seq<DocumentView> {
    Seq::new(documents.len(), |i: int| documents[i]@)
}

/// What a parsed batch stands for in contracts.
pub open spec fn parsed_view(parsed: Result<Vec<Document>, Failure>) -> Result<
    Seq<DocumentView>,
    FailureView,
> {
    match parsed {
        Ok(documents) => Ok(document_views(documents@)),
        Err(failure) => Err(failure@),
    }
}

/// Whether there is anything to format: a batch of no file is a failure.
pub fn files_given(count: usize) -> (given: Result<(), Failure>)
    ensures
        match given {
            Ok(_) => count > 0,
            Err(failure) => count == 0 && failure@ == FailureView::NoFiles,
        },
{
    if count == 0 {
        Err(Failure::NoFiles)
    } else {
        Ok(())
    }
}

/// Parses one source under its name and puts the document behind those that
/// were parsed before it. Where the parser refuses the source, its error is
/// returned and the documents stay as they were.
pub fn add_source(documents: &mut Vec<Document>, source: Source) -> (added: Result<(), Failure>)
    ensures
        match added {
            Ok(_) => {
                &&& accepted(source@)
                &&& final(documents)@.len() == old(documents)@.len() + 1
                &&& final(documents)@.last()@ == document_of(source@)
                &&& final(documents)@.drop_last() == old(documents)@
            },
            Err(failure) => {
                &&& parse_failure(source@.text, Some(source@.name)) == Some(failure@)
                &&& final(documents)@ == old(documents)@
            },
        },
{
    match parse(source.text, Some(source.name)) {
        Ok(document) => {
            documents.push(document);
            assert(documents@.drop_last() =~= old(documents)@);
            Ok(())
        },
        Err(failure) => Err(failure),
    }
}

/// Parses every source, in order, each under its name. The first source that
/// the parser refuses ends the batch: its error is returned and no document.
pub fn parse_documents(sources: &Vec<Source>) -> (parsed: Result<Vec<Document>, Failure>)
    ensures
        parsed_view(parsed) == parsing(source_views(sources@)),
{
    let ghost views = source_views(sources@);
    let count = sources.len();
    let mut documents: Vec<Document> = Vec::new();
    let mut index: usize = 0;
    while index < count
        invariant
            index <= count,
            count == sources@.len(),
            views == source_views(sources@),
            documents@.len() == index,
            forall|i: int| 0 <= i < index ==> accepted(views[i]),
            forall|i: int| 0 <= i < index ==> (#[trigger] documents@[i])@ == document_of(views[i]),
        decreases count - index,
    {
        let source = &sources[index];
        match add_source(&mut documents, Source { name: source.name.clone(), text: source.text.clone() }) {
            Ok(_) => {
                assert forall|i: int| 0 <= i < index + 1 implies (#[trigger] documents@[i])@
                    == document_of(views[i]) by {
                    if i < index {
                        assert(documents@[i] == documents@.drop_last()[i]);
                    }
                }
            },
            Err(failure) => {
                proof {
                    lemma_leading_is_first(accepted_at(views), count as int, index as int);
                }
                return Err(failure);
            },
        }
        index = index + 1;
    }
    proof {
        lemma_leading_is_first(accepted_at(views), count as int, count as int);
        assert(document_views(documents@) =~= Seq::new(
            views.len(),
            |i: int| document_of(views[i]),
        ));
    }
    Ok(documents)
}

/// What is sent out for the document at `index` of `count`: in place of the
/// file of its name where files are replaced, else in print under its
/// heading.
pub open spec fn emission_of(
    document: DocumentView,
    index: int,
    count: int,
    options: FormatOptions,
    replace: bool,
) -> EmissionView {
    let content = rendition(document.text, options);
    let name = document.name.unwrap();
    if replace {
        EmissionView::Replace { path: name, content }
    } else {
        EmissionView::Print { heading: heading_text(index as nat, count as nat, name), content }
    }
}

/// What formatting a batch gives. Under options that are refused nothing is
/// sent out. Else every document is rendered, in order, one emission each,
/// and there is no failure.
pub open spec fn formatting(
    documents: Seq<DocumentView>,
    options: FormatOptions,
    replace: bool,
) -> BatchView {
    match refusal(options) {
        Some(failure) => BatchView { emissions: Seq::empty(), failure: Some(failure) },
        None => BatchView {
            emissions: Seq::new(
                documents.len(),
                |i: int| emission_of(documents[i], i, documents.len() as int, options, replace),
            ),
            failure: None,
        },
    }
}

/// Formats a batch of parsed documents under `options`. Options that are
/// refused fail the batch before any document is looked at; under options
/// that are accepted each document has to be named. The emissions are to be
/// carried out in order.
pub fn format_documents(documents: &Vec<Document>, options: FormatOptions, replace: bool) -> (batch:
    Batch)
    requires
        refusal(options) is None ==> forall|i: int|
            0 <= i < documents@.len() ==> (#[trigger] documents@[i])@.name is Some,
    ensures
        batch@ == formatting(document_views(documents@), options, replace),
{
    let formatter = match Formatter::with_options(options) {
        Ok(formatter) => formatter,
        Err(failure) => {
            let batch = Batch { emissions: Vec::new(), failure: Some(failure) };
            assert(batch@.emissions =~= Seq::empty());
            return batch;
        },
    };
    let ghost views = document_views(documents@);
    let count = documents.len();
    let mut emissions: Vec<Emission> = Vec::new();
    let mut index: usize = 0;
    while index < count
        invariant
            index <= count,
            count == documents@.len(),
            views == document_views(documents@),
            refusal(options) is None,
            formatter.options() == options,
            emissions@.len() == index,
            forall|i: int| 0 <= i < documents@.len() ==> (#[trigger] documents@[i])@.name is Some,
            forall|i: int|
                0 <= i < index ==> (#[trigger] emissions@[i])@ == emission_of(
                    views[i],
                    i,
                    count as int,
                    options,
                    replace,
                ),
        decreases count - index,
    {
        let document = &documents[index];
        let content = match formatter.to_utf8(document) {
            Ok(content) => content,
            Err(_) => vstd::pervasive::unreached(),
        };
        let emission = match document.filename() {
            Some(name) => {
                if replace {
                    Emission::Replace { path: name.clone(), content }
                } else {
                    Emission::Print { heading: heading(index, count, name.as_str()), content }
                }
            },
            None => vstd::pervasive::unreached(),
        };
        emissions.push(emission);
        index = index + 1;
    }
    let batch = Batch { emissions, failure: None };
    assert(batch@.emissions =~= formatting(views, options, replace).emissions);
    batch
}

/// What a run of the formatter over a batch gives. With no source there is
/// nothing to do, which is a failure. A source that the parser refuses fails
/// the whole batch before anything is formatted. Else the batch is formatted.
pub open spec fn running(sources: Seq<SourceView>, options: FormatOptions, replace: bool) -> BatchView {
    if sources.len() == 0 {
        BatchView { emissions: Seq::empty(), failure: Some(FailureView::NoFiles) }
    } else {
        match parsing(sources) {
            Ok(documents) => formatting(documents, options, replace),
            Err(failure) => BatchView { emissions: Seq::empty(), failure: Some(failure) },
        }
    }
}

/// Parses the sources and formats them under `options`: the whole of a run,
/// but for reading the sources and carrying out the emissions.
pub fn run(sources: &Vec<Source>, options: FormatOptions, replace: bool) -> (batch: Batch)
    ensures
        batch@ == running(source_views(sources@), options, replace),
{
    match files_given(sources.len()) {
        Ok(_) => {},
        Err(failure) => {
            let batch = Batch { emissions: Vec::new(), failure: Some(failure) };
            assert(batch@.emissions =~= Seq::empty());
            return batch;
        },
    }
    match parse_documents(sources) {
        Ok(documents) => {
            proof {
                let views = source_views(sources@);
                assert(parsing(views) == Ok::<Seq<DocumentView>, FailureView>(
                    document_views(documents@),
                ));
                assert forall|i: int| 0 <= i < documents@.len() implies (#[trigger] documents@[i])@.name is Some by {
                    assert(document_views(documents@)[i] == document_of(views[i]));
                }
            }
            format_documents(&documents, options, replace)
        },
        Err(failure) => {
            let batch = Batch { emissions: Vec::new(), failure: Some(failure) };
            assert(batch@.emissions =~= Seq::empty());
            batch
        },
    }
}

/// A source that the parser refuses fails the whole batch: nothing is sent
/// out, whatever the other sources are and whatever the options, and the
/// failure is the parser's error for the first such source.
pub proof fn lemma_refused_source_sends_nothing(
    sources: Seq<SourceView>,
    options: FormatOptions,
    replace: bool,
    refused: int,
)
    requires
        0 <= refused < sources.len(),
        !accepted(sources[refused]),
    ensures
        running(sources, options, replace).emissions.len() == 0,
        ({
            let first = leading(accepted_at(sources), sources.len() as int);
            &&& 0 <= first <= refused
            &&& running(sources, options, replace).failure == parse_failure(
                sources[first].text,
                Some(sources[first].name),
            )
        }),
{
    let holds = accepted_at(sources);
    lemma_leading_holds(holds, sources.len() as int);
    let first = leading(holds, sources.len() as int);
    if first > refused {
        assert(holds(refused));
    }
    assert(!holds(first));
}

/// A run either sends out every source or reports a failure: where it reports
/// none, there is one emission for each source, and where it reports one,
/// nothing is sent out. It reports none exactly where there is a source, the
/// parser accepts every source, and the indent is not too wide.
pub proof fn lemma_all_or_nothing(sources: Seq<SourceView>, options: FormatOptions, replace: bool)
    ensures
        running(sources, options, replace).failure is None ==> sources.len() > 0
            && running(sources, options, replace).emissions.len() == sources.len(),
        running(sources, options, replace).failure is Some ==> running(
            sources,
            options,
            replace,
        ).emissions.len() == 0,
        running(sources, options, replace).failure is None <==> sources.len() > 0
            && options.is_valid() && forall|i: int|
            0 <= i < sources.len() ==> accepted(#[trigger] sources[i]),
{
    if sources.len() > 0 {
        let count = sources.len() as int;
        lemma_leading_holds(accepted_at(sources), count);
        let good = leading(accepted_at(sources), count);
        if good == count {
            assert forall|i: int| 0 <= i < sources.len() implies accepted(
                #[trigger] sources[i],
            ) by {
                assert(accepted_at(sources)(i));
            }
        } else {
            assert(!accepted_at(sources)(good));
        }
    }
}

/// The only document of a batch is printed without a heading, and the first
/// of several without an empty line before its title.
pub proof fn lemma_first_heading(count: nat, name: Seq<char>)
    ensures
        heading_text(0, 1, name) == Seq::<char>::empty(),
        heading_text(0, count, name) == title(count, name),
{
    assert(heading_text(0, 1, name) =~= Seq::<char>::empty());
    assert(heading_text(0, count, name) =~= title(count, name));
}

} // verus!
