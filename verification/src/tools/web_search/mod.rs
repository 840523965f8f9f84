//! The tool that searches the web through the Tavily API.

pub mod definition;
pub mod execute;

use vstd::prelude::*;

use crate::json::{Json, JsonModel};
use crate::tools::tool::Tool;
use crate::tools::web_search::definition::{parameters_model, DESCRIPTION};

verus! {

/// Tool name, used both in the definition and in dispatch.
pub const NAME: &'static str = "web_search";

/// How many results are asked for when the model does not say.
pub const DEFAULT_MAX_RESULTS: u8 = 5;

/// The most results the API gives; it rejects a request for more.
pub const MAX_RESULTS_LIMIT: u8 = 20;

/// Arguments as a model gives them.
#[derive(Debug, PartialEq, Eq)]
pub struct WebSearchArgs {
    pub query: String,
    /// Models routinely leave it out.
    pub max_results: Option<u8>,
}

/// How many results are asked for: what the model wants, brought into the accepted range.
pub open spec fn results_wanted(max_results: Option<u8>) -> u8 {
    match max_results {
        None => DEFAULT_MAX_RESULTS,
        Some(n) => if n < 1 {
            1
        } else if n > MAX_RESULTS_LIMIT {
            MAX_RESULTS_LIMIT
        } else {
            n
        },
    }
}

impl WebSearchArgs {
    /// How many results are asked for. An unreasonable number is corrected rather than refused:
    /// it should not turn a usable query into an error.
    pub fn effective_max_results(&self) -> (n: u8)
        ensures
            n == results_wanted(self.max_results),
            1 <= n <= MAX_RESULTS_LIMIT,
    {
        match self.max_results {
            None => DEFAULT_MAX_RESULTS,
            Some(n) => if n < 1 {
                1
            } else if n > MAX_RESULTS_LIMIT {
                MAX_RESULTS_LIMIT
            } else {
                n
            },
        }
    }
}

/// Web search, offered to a model as a tool.
#[derive(Debug, Clone, Copy, PartialEq, Eq, Structural)]
pub struct WebSearch;

impl Tool for WebSearch {
    open spec fn called(&self) -> Seq<char> {
        NAME@
    }

    open spec fn described(&self) -> Seq<char> {
        DESCRIPTION@
    }

    open spec fn schema(&self) -> JsonModel {
        parameters_model()
    }

    fn name(&self) -> (name: &str) {
        NAME
    }

    fn description(&self) -> (text: &str) {
        DESCRIPTION
    }

    fn parameters(&self) -> (schema: Json) {
        definition::parameters()
    }
}

/// A number of results that the API accepts is asked for as it is, and any other becomes the
/// nearest that is.
pub proof fn an_acceptable_number_is_asked_for(n: u8)
    ensures
        1 <= n <= 20 ==> results_wanted(Some(n)) == n,
        n > 20 ==> results_wanted(Some(n)) == 20,
        n == 0 ==> results_wanted(Some(n)) == 1,
        1 <= results_wanted(None) <= 20,
{
}

} // verus!
