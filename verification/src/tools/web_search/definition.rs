//! How web search is advertised. Search depth and credentials are not the model's to choose,
//! so the schema does not name them.

use vstd::prelude::*;

use crate::json::{field_models, item_models, model_of, Json, JsonModel};
use crate::llm::client::ToolDefinition;
use crate::text::{decimal, decimal_text};
use crate::tools::web_search::{DEFAULT_MAX_RESULTS, MAX_RESULTS_LIMIT, NAME};

verus! {

/// What a model is told of web search.
pub const DESCRIPTION: &'static str = "Search the web for current information. Use this for facts that may have changed recently, or that fall outside your knowledge. Returns ranked snippets, each with its source URL.";

/// What a model is told of the query.
pub const QUERY_DESCRIPTION: &'static str = "Search query in natural language, e.g. `who won the 2026 world cup final`";

/// What a model is told of the number of results.
pub open spec fn results_description() -> Seq<char> {
    "How many results to return, 1-"@ + decimal(MAX_RESULTS_LIMIT as nat) + " (default "@ + decimal(
        DEFAULT_MAX_RESULTS as nat,
    ) + ")"@
}

/// The schema of the arguments: a query, which is required, and how many results to return;
/// nothing else allowed.
pub open spec fn parameters_model() -> JsonModel {
    JsonModel::Object(
        seq![
            ("type"@, JsonModel::Text("object"@)),
            (
                "properties"@,
                JsonModel::Object(
                    seq![
                        (
                            "query"@,
                            JsonModel::Object(
                                seq![
                                    ("type"@, JsonModel::Text("string"@)),
                                    ("description"@, JsonModel::Text(QUERY_DESCRIPTION@)),
                                ],
                            ),
                        ),
                        (
                            "max_results"@,
                            JsonModel::Object(
                                seq![
                                    ("type"@, JsonModel::Text("integer"@)),
                                    ("description"@, JsonModel::Text(results_description())),
                                    ("minimum"@, JsonModel::Number(decimal(1))),
                                    (
                                        "maximum"@,
                                        JsonModel::Number(decimal(MAX_RESULTS_LIMIT as nat)),
                                    ),
                                ],
                            ),
                        ),
                    ],
                ),
            ),
            ("required"@, JsonModel::Array(seq![JsonModel::Text("query"@)])),
            ("additionalProperties"@, JsonModel::Bool(false)),
        ],
    )
}

/// JSON Schema of the arguments.
pub fn parameters() -> (schema: Json)
    ensures
        model_of(schema) == parameters_model(),
{
    let limit = decimal_text(MAX_RESULTS_LIMIT as u64);
    let default = decimal_text(DEFAULT_MAX_RESULTS as u64);
    let mut wanted = "How many results to return, 1-".to_owned();
    wanted.append(limit.as_str());
    wanted.append(" (default ");
    wanted.append(default.as_str());
    wanted.append(")");
    let query = Json::Object(
        vec![
            ("type".to_owned(), Json::text("string")),
            ("description".to_owned(), Json::text(QUERY_DESCRIPTION)),
        ],
    );
    let max_results = Json::Object(
        vec![
            ("type".to_owned(), Json::text("integer")),
            ("description".to_owned(), Json::Text(wanted)),
            ("minimum".to_owned(), Json::Number(decimal_text(1))),
            ("maximum".to_owned(), Json::Number(limit)),
        ],
    );
    let properties = Json::Object(
        vec![("query".to_owned(), query), ("max_results".to_owned(), max_results)],
    );
    let required = Json::Array(vec![Json::text("query")]);
    let schema = Json::Object(
        vec![
            ("type".to_owned(), Json::text("object")),
            ("properties".to_owned(), properties),
            ("required".to_owned(), required),
            ("additionalProperties".to_owned(), Json::Bool(false)),
        ],
    );
    proof {
        reveal_with_fuel(field_models, 5);
        reveal_with_fuel(item_models, 2);
        let all = parameters_model()->Object_0;
        let fields = all[1].1->Object_0;
        assert(field_models(query, 2) =~= fields[0].1->Object_0);
        assert(field_models(max_results, 4) =~= fields[1].1->Object_0);
        assert(field_models(properties, 2) =~= fields);
        assert(item_models(required, 1) =~= all[2].1->Array_0);
        assert(field_models(schema, 4) =~= all);
    }
    schema
}

/// The function definition advertised to a model.
pub fn definition() -> (tool: ToolDefinition)
    ensures
        tool.name@ == NAME@,
        tool.description@ == DESCRIPTION@,
        model_of(tool.parameters) == parameters_model(),
{
    ToolDefinition {
        name: NAME.to_owned(),
        description: DESCRIPTION.to_owned(),
        parameters: parameters(),
    }
}

} // verus!
