//! The errors of the formatter, and the text in which each is reported.

use vstd::prelude::*;
use vstd::string::*;

verus! {

/// A place in a document. Lines and columns are counted from 1.
#[derive(Debug, Clone, PartialEq, Eq)]
pub struct Position {
    /// The name of the document, where it has one.
    pub file: Option<String>,
    /// The line.
    pub line: usize,
    /// The column, in characters.
    pub col: usize,
}

/// What a [`Position`] stands for in contracts.
pub struct PositionView {
    pub file: Option<Seq<char>>,
    pub line: nat,
    pub col: nat,
}

impl View for Position {
    type V = PositionView;

    open spec fn view(&self) -> PositionView {
        PositionView {
            file: match self.file {
                Some(name) => Some(name@),
                None => None,
            },
            line: self.line as nat,
            col: self.col as nat,
        }
    }
}

/// Why a document, or a batch of them, was not formatted.
#[derive(Debug, Clone, PartialEq, Eq)]
pub enum Failure {
    /// There was no document to format.
    NoFiles,
    /// The format options cannot be used.
    InvalidOptions { message: String },
    /// The document is not JSON5.
    Parse { location: Option<Position>, message: String },
    /// The parser or the formatter reached a state that it does not expect.
    Internal { location: Option<Position>, message: String },
    /// A result differed from what a self-test of the parser expected.
    TestFailure { location: Option<Position>, message: String },
}

/// What a [`Failure`] stands for in contracts.
pub enum FailureView {
    NoFiles,
    InvalidOptions { message: Seq<char> },
    Parse { location: Option<PositionView>, message: Seq<char> },
    Internal { location: Option<PositionView>, message: Seq<char> },
    TestFailure { location: Option<PositionView>, message: Seq<char> },
}

/// The view of a location that may be absent.
pub open spec fn place_view(location: Option<Position>) -> Option<PositionView> {
    match location {
        Some(place) => Some(place@),
        None => None,
    }
}

impl View for Failure {
    type V = FailureView;

    open spec fn view(&self) -> FailureView {
        match *self {
            Failure::NoFiles => FailureView::NoFiles,
            Failure::InvalidOptions { message } => FailureView::InvalidOptions { message: message@ },
            Failure::Parse { location, message } => FailureView::Parse {
                location: place_view(location),
                message: message@,
            },
            Failure::Internal { location, message } => FailureView::Internal {
                location: place_view(location),
                message: message@,
            },
            Failure::TestFailure { location, message } => FailureView::TestFailure {
                location: place_view(location),
                message: message@,
            },
        }
    }
}

/// The character that writes a digit.
pub open spec fn digit(d: nat) -> char {
    if d == 0 {
        '0'
    } else if d == 1 {
        '1'
    } else if d == 2 {
        '2'
    } else if d == 3 {
        '3'
    } else if d == 4 {
        '4'
    } else if d == 5 {
        '5'
    } else if d == 6 {
        '6'
    } else if d == 7 {
        '7'
    } else if d == 8 {
        '8'
    } else {
        '9'
    }
}

/// A number written in decimal, without leading zeros.
pub open spec fn decimal(n: nat) -> Seq<char>
    decreases n,
{
    if n < 10 {
        seq![digit(n)]
    } else {
        decimal(n / 10).push(digit(n % 10))
    }
}

/// A location as it is written in a report: the name, if any, then line and
/// column, with colons between them.
pub open spec fn place_text(place: PositionView) -> Seq<char> {
    match place.file {
        Some(name) => name + ":"@ + decimal(place.line) + ":"@ + decimal(place.col),
        None => decimal(place.line) + ":"@ + decimal(place.col),
    }
}

/// A report: what kind of error it is, where it was found if that is known,
/// and what was wrong.
pub open spec fn report(kind: Seq<char>, location: Option<PositionView>, message: Seq<char>) -> Seq<
    char,
> {
    match location {
        Some(place) => kind + ": "@ + place_text(place) + ": "@ + message,
        None => kind + ": "@ + message,
    }
}

impl FailureView {
    /// The text that reports this error.
    pub open spec fn description(self) -> Seq<char> {
        match self {
            FailureView::NoFiles => "No files to format"@,
            FailureView::InvalidOptions { message } => report("Configuration error"@, None, message),
            FailureView::Parse { location, message } => report("Parse error"@, location, message),
            FailureView::Internal { location, message } => report(
                "Internal error"@,
                location,
                message,
            ),
            FailureView::TestFailure { location, message } => report(
                "Test failure"@,
                location,
                message,
            ),
        }
    }
}

fn digit_text(d: usize) -> (text: &'static str)
    requires
        d < 10,
    ensures
        text@ == seq![digit(d as nat)],
{
    proof {
        reveal_strlit("0");
        reveal_strlit("1");
        reveal_strlit("2");
        reveal_strlit("3");
        reveal_strlit("4");
        reveal_strlit("5");
        reveal_strlit("6");
        reveal_strlit("7");
        reveal_strlit("8");
        reveal_strlit("9");
    }
    let text = if d == 0 {
        "0"
    } else if d == 1 {
        "1"
    } else if d == 2 {
        "2"
    } else if d == 3 {
        "3"
    } else if d == 4 {
        "4"
    } else if d == 5 {
        "5"
    } else if d == 6 {
        "6"
    } else if d == 7 {
        "7"
    } else if d == 8 {
        "8"
    } else {
        "9"
    };
    assert(text@ =~= seq![digit(d as nat)]);
    text
}

/// Writes a number in decimal.
pub fn decimal_text(n: usize) -> (text: String)
    ensures
        text@ == decimal(n as nat),
    decreases n,
{
    if n < 10 {
        String::from_str(digit_text(n))
    } else {
        let mut text = decimal_text(n / 10);
        let last = digit_text(n % 10);
        text.append(last);
        assert(text@ =~= decimal((n / 10) as nat).push(digit((n % 10) as nat)));
        text
    }
}

impl Position {
    /// Writes the location as a report shows it.
    pub fn to_text(&self) -> (text: String)
        ensures
            text@ == place_text(self@),
    {
        let mut text = match &self.file {
            Some(name) => {
                let mut start = name.clone();
                start.append(":");
                start
            },
            None => String::new(),
        };
        let line = decimal_text(self.line);
        text.append(line.as_str());
        text.append(":");
        let col = decimal_text(self.col);
        text.append(col.as_str());
        assert(text@ =~= place_text(self@));
        text
    }
}

fn report_text(kind: &str, location: &Option<Position>, message: &String) -> (text: String)
    ensures
        text@ == report(kind@, place_view(*location), message@),
{
    let mut text = String::from_str(kind);
    text.append(": ");
    match location {
        Some(place) => {
            let at = place.to_text();
            text.append(at.as_str());
            text.append(": ");
        },
        None => {},
    }
    text.append(message.as_str());
    assert(text@ =~= report(kind@, place_view(*location), message@));
    text
}

/// The location of this library for one that `json5format` reports.
pub open spec fn place_from(place: json5format::Location) -> Position {
    Position { file: place.file, line: place.line, col: place.col }
}

/// The same for a location that may be absent.
pub open spec fn location_from(location: Option<json5format::Location>) -> Option<Position> {
    match location {
        Some(place) => Some(place_from(place)),
        None => None,
    }
}

fn own_location(location: Option<json5format::Location>) -> (own: Option<Position>)
    ensures
        own == location_from(location),
{
    match location {
        Some(place) => Some(Position { file: place.file, line: place.line, col: place.col }),
        None => None,
    }
}

/// The failure of this library for an error of `json5format`: the same kind,
/// with the same location and message. A configuration error of the crate is
/// a failure of the options.
pub open spec fn adopted(error: json5format::Error) -> Failure {
    match error {
        json5format::Error::Configuration(message) => Failure::InvalidOptions { message },
        json5format::Error::Parse(location, message) => Failure::Parse {
            location: location_from(location),
            message,
        },
        json5format::Error::Internal(location, message) => Failure::Internal {
            location: location_from(location),
            message,
        },
        json5format::Error::TestFailure(location, message) => Failure::TestFailure {
            location: location_from(location),
            message,
        },
    }
}

impl From<json5format::Error> for Failure {
    /// Takes over an error of `json5format`, variant by variant, with its
    /// location and its message.
    fn from(error: json5format::Error) -> (own: Failure) {
        match error {
            json5format::Error::Configuration(message) => Failure::InvalidOptions { message },
            json5format::Error::Parse(location, message) => Failure::Parse {
                location: own_location(location),
                message,
            },
            json5format::Error::Internal(location, message) => Failure::Internal {
                location: own_location(location),
                message,
            },
            json5format::Error::TestFailure(location, message) => Failure::TestFailure {
                location: own_location(location),
                message,
            },
        }
    }
}

impl vstd::std_specs::convert::FromSpecImpl<json5format::Error> for Failure {
    open spec fn obeys_from_spec() -> bool {
        true
    }

    open spec fn from_spec(error: json5format::Error) -> Failure {
        adopted(error)
    }
}

impl Failure {
    /// The text that reports this error to a user.
    pub fn describe(&self) -> (text: String)
        ensures
            text@ == self@.description(),
    {
        match self {
            Failure::NoFiles => String::from_str("No files to format"),
            Failure::InvalidOptions { message } => report_text("Configuration error", &None, message),
            Failure::Parse { location, message } => report_text("Parse error", location, message),
            Failure::Internal { location, message } => report_text(
                "Internal error",
                location,
                message,
            ),
            Failure::TestFailure { location, message } => report_text(
                "Test failure",
                location,
                message,
            ),
        }
    }
}

} // verus!
