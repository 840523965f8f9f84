//! What every tool says of itself.

use vstd::prelude::*;

use crate::json::{model_of, Json, JsonModel};
use crate::llm::client::ToolDefinition;

verus! {

/// A tool a model can call, as far as the model is told of it. How it is run is not part of it:
/// the registry keeps a handle for that beside each tool that is added.
pub trait Tool {
    /// The name it is advertised and called by.
    spec fn called(&self) -> Seq<char>;

    /// What is said of it.
    spec fn described(&self) -> Seq<char>;

    /// What the JSON Schema of its arguments says.
    spec fn schema(&self) -> JsonModel;

    /// Name used both in the advertised definition and for dispatch.
    fn name(&self) -> (name: &str)
        ensures
            name@ == self.called(),
    ;

    /// What the tool does, and when a model should reach for it.
    fn description(&self) -> (text: &str)
        ensures
            text@ == self.described(),
    ;

    /// JSON Schema of the arguments.
    fn parameters(&self) -> (schema: Json)
        ensures
            model_of(schema) == self.schema(),
    ;

    /// The definition advertised to a model.
    fn definition(&self) -> (definition: ToolDefinition)
        ensures
            definition.name@ == self.called(),
            definition.description@ == self.described(),
            model_of(definition.parameters) == self.schema(),
    {
        ToolDefinition {
            name: self.name().to_owned(),
            description: self.description().to_owned(),
            parameters: self.parameters(),
        }
    }
}

} // verus!
