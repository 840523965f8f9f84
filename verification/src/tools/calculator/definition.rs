//! How the calculator is advertised.

use vstd::prelude::*;

use crate::json::{field_models, item_models, model_of, Json, JsonModel};
use crate::llm::client::ToolDefinition;
use crate::tools::calculator::{word, Operator, NAME};

verus! {

/// What a model is told of the calculator.
pub const DESCRIPTION: &'static str = "Perform basic arithmetic operations.";

/// A property of the schema: its type and what is said of it.
pub open spec fn property_model(kind: Seq<char>, description: Seq<char>) -> JsonModel {
    JsonModel::Object(
        seq![
            ("type"@, JsonModel::Text(kind)),
            ("description"@, JsonModel::Text(description)),
        ],
    )
}

/// The words of every operation.
pub open spec fn words_model() -> JsonModel {
    JsonModel::Array(
        seq![
            JsonModel::Text(word(Operator::Add)),
            JsonModel::Text(word(Operator::Subtract)),
            JsonModel::Text(word(Operator::Multiply)),
            JsonModel::Text(word(Operator::Divide)),
        ],
    )
}

/// The schema of the calculator's arguments: an operation and two numbers, all required,
/// nothing else allowed.
pub open spec fn parameters_model() -> JsonModel {
    JsonModel::Object(
        seq![
            ("type"@, JsonModel::Text("object"@)),
            (
                "properties"@,
                JsonModel::Object(
                    seq![
                        (
                            "operator"@,
                            JsonModel::Object(
                                seq![
                                    ("type"@, JsonModel::Text("string"@)),
                                    (
                                        "description"@,
                                        JsonModel::Text("Arithmetic operation to perform"@),
                                    ),
                                    ("enum"@, words_model()),
                                ],
                            ),
                        ),
                        (
                            "first_number"@,
                            property_model("number"@, "First number for the calculation"@),
                        ),
                        (
                            "second_number"@,
                            property_model("number"@, "Second number for the calculation"@),
                        ),
                    ],
                ),
            ),
            (
                "required"@,
                JsonModel::Array(
                    seq![
                        JsonModel::Text("operator"@),
                        JsonModel::Text("first_number"@),
                        JsonModel::Text("second_number"@),
                    ],
                ),
            ),
            ("additionalProperties"@, JsonModel::Bool(false)),
        ],
    )
}

fn number_property(description: &str) -> (json: Json)
    ensures
        model_of(json) == property_model("number"@, description@),
{
    let json = Json::Object(
        vec![
            ("type".to_owned(), Json::text("number")),
            ("description".to_owned(), Json::text(description)),
        ],
    );
    proof {
        reveal_with_fuel(field_models, 3);
        assert(field_models(json, 2) =~= property_model("number"@, description@)->Object_0);
    }
    json
}

fn words() -> (json: Json)
    ensures
        model_of(json) == words_model(),
{
    let json = Json::Array(
        vec![
            Json::text(Operator::Add.as_str()),
            Json::text(Operator::Subtract.as_str()),
            Json::text(Operator::Multiply.as_str()),
            Json::text(Operator::Divide.as_str()),
        ],
    );
    proof {
        reveal_with_fuel(item_models, 5);
        assert(item_models(json, 4) =~= words_model()->Array_0);
    }
    json
}

/// JSON Schema of the arguments.
pub fn parameters() -> (schema: Json)
    ensures
        model_of(schema) == parameters_model(),
{
    let operator = Json::Object(
        vec![
            ("type".to_owned(), Json::text("string")),
            ("description".to_owned(), Json::text("Arithmetic operation to perform")),
            ("enum".to_owned(), words()),
        ],
    );
    let properties = Json::Object(
        vec![
            ("operator".to_owned(), operator),
            ("first_number".to_owned(), number_property("First number for the calculation")),
            ("second_number".to_owned(), number_property("Second number for the calculation")),
        ],
    );
    let required = Json::Array(
        vec![Json::text("operator"), Json::text("first_number"), Json::text("second_number")],
    );
    let schema = Json::Object(
        vec![
            ("type".to_owned(), Json::text("object")),
            ("properties".to_owned(), properties),
            ("required".to_owned(), required),
            ("additionalProperties".to_owned(), Json::Bool(false)),
        ],
    );
    proof {
        reveal_with_fuel(field_models, 5);
        reveal_with_fuel(item_models, 4);
        let all = parameters_model()->Object_0;
        assert(field_models(operator, 3) =~= all[1].1->Object_0[0].1->Object_0);
        assert(field_models(properties, 3) =~= all[1].1->Object_0);
        assert(item_models(required, 3) =~= all[2].1->Array_0);
        assert(field_models(schema, 4) =~= all);
    }
    schema
}

/// The function definition advertised to a model. The operations are listed from the words
/// they are read back from, so the two cannot drift apart.
pub fn definition() -> (tool: ToolDefinition)
    ensures
        tool.name@ == NAME@,
        tool.description@ == DESCRIPTION@,
        model_of(tool.parameters) == parameters_model(),
{
    ToolDefinition {
        name: NAME.to_owned(),
        description: DESCRIPTION.to_owned(),
        parameters: parameters(),
    }
}

} // verus!
