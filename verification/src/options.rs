//! The options that set the style of the formatted text.

use crate::failure::{Failure, FailureView};
use vstd::prelude::*;
use vstd::string::*;

verus! {

/// The widest indent that is accepted, in spaces per level.
pub const MAX_INDENT: usize = 1024;

/// The style of the formatted text.
#[derive(Debug, Clone, Copy, PartialEq, Eq, Structural)]
pub struct FormatOptions {
    /// Spaces per level of nesting.
    pub indent_by: usize,
    /// Whether the last item of a container that spans several lines is
    /// followed by a comma.
    pub trailing_commas: bool,
    /// Whether a container that holds one item, and no comment, is written on
    /// one line.
    pub collapse_containers_of_one: bool,
    /// Whether the primitive items of an array are put in order.
    pub sort_array_items: bool,
}

/// The options that apply where none are given: four spaces, trailing commas,
/// nothing collapsed, nothing sorted.
pub open spec fn default_options() -> FormatOptions {
    FormatOptions {
        indent_by: 4,
        trailing_commas: true,
        collapse_containers_of_one: false,
        sort_array_items: false,
    }
}

/// The options that a set of command-line flags asks for. Two of the flags
/// switch a default off, so they enter negated.
pub open spec fn flag_options(
    indent: usize,
    no_trailing_commas: bool,
    one_element_lines: bool,
    sort_arrays: bool,
) -> FormatOptions {
    FormatOptions {
        indent_by: indent,
        trailing_commas: !no_trailing_commas,
        collapse_containers_of_one: one_element_lines,
        sort_array_items: sort_arrays,
    }
}

/// The error that reports an indent wider than [`MAX_INDENT`].
pub open spec fn indent_refused() -> FailureView {
    FailureView::InvalidOptions { message: "indent_by must not be greater than 1024"@ }
}

impl Default for FormatOptions {
    fn default() -> (options: Self)
        ensures
            options == default_options(),
    {
        FormatOptions {
            indent_by: 4,
            trailing_commas: true,
            collapse_containers_of_one: false,
            sort_array_items: false,
        }
    }
}

impl FormatOptions {
    /// Whether a formatter can be made with these options.
    pub open spec fn is_valid(self) -> bool {
        self.indent_by <= MAX_INDENT
    }

    /// The options for the flags of the command line.
    pub fn from_flags(
        indent: usize,
        no_trailing_commas: bool,
        one_element_lines: bool,
        sort_arrays: bool,
    ) -> (options: Self)
        ensures
            options == flag_options(indent, no_trailing_commas, one_element_lines, sort_arrays),
    {
        FormatOptions {
            indent_by: indent,
            trailing_commas: !no_trailing_commas,
            collapse_containers_of_one: one_element_lines,
            sort_array_items: sort_arrays,
        }
    }

    /// Accepts the options, or says why they cannot be used.
    pub fn validate(&self) -> (checked: Result<(), Failure>)
        ensures
            match checked {
                Ok(_) => self.is_valid(),
                Err(e) => !self.is_valid() && e@ == indent_refused(),
            },
    {
        if self.indent_by <= MAX_INDENT {
            Ok(())
        } else {
            Err(
                Failure::InvalidOptions {
                    message: String::from_str("indent_by must not be greater than 1024"),
                },
            )
        }
    }
}

} // verus!
