//! What a run is asked to do: the document, the number of workers, and the
//! search strategy with its parameters.

use vstd::prelude::*;

verus! {

/// Parameters of the word list strategy.
#[derive(Debug, Clone)]
pub struct DictionaryArgs {
    /// The path of the word list.
    pub wordlist: String,
}

/// Parameters of the numeric range strategy.
#[derive(Debug, Clone)]
pub struct RangeArgs {
    /// Whether shorter numerals get leading zeros.
    pub add_preceding_zeros: bool,
    /// The first number of the range.
    pub lower_bound: usize,
    /// The last number of the range.
    pub upper_bound: usize,
}

/// Parameters of the template strategy.
#[derive(Debug, Clone)]
pub struct CustomQueryArgs {
    /// The template, such as `ab{0-99}`.
    pub custom_query: String,
    /// Whether shorter numerals get leading zeros.
    pub add_preceding_zeros: bool,
}

/// Parameters of the brute force strategy.
#[derive(Debug, Clone)]
pub struct DefaultQueryArgs {
    /// The length of the shortest candidates.
    pub min_length: u32,
    /// The length of the longest candidates.
    pub max_length: u32,
}

/// Parameters of the date strategy.
#[derive(Debug, Clone)]
pub struct DateArgs {
    /// The first year.
    pub start: usize,
    /// The last year.
    pub end: usize,
}

/// The search strategy of a run.
#[derive(Debug, Clone)]
pub enum Method {
    /// The lines of a word list.
    Wordlist(DictionaryArgs),
    /// The numbers of a range.
    Range(RangeArgs),
    /// The candidates of a template.
    CustomQuery(CustomQueryArgs),
    /// The dates of a range of years.
    Date(DateArgs),
    /// Every word over the printable characters.
    DefaultQuery(DefaultQueryArgs),
}

/// What a run is asked to do.
#[derive(Debug)]
pub struct Arguments {
    /// The number of workers.
    pub number_of_threads: usize,
    /// The path of the document.
    pub filename: String,
    /// The search strategy.
    pub subcommand: Method,
}

} // verus!
