# agent

A small agent framework: a tool-calling loop around a chat model, with structured output, streamed
answers, tools of other programs over the Model Context Protocol, approval of dangerous calls, and
a context optimizer that keeps requests within a token budget.

`src/` is the library: the rules, written in Verus with their contracts proved. It does no I/O. A
function that needs the outside world is a step that says what to do next, and another that takes
what came of it.

| Module | What it decides |
|---|---|
| `agent` | what a conversation is made of, and which memory it shares |
| `callback::context_optimizer` | how a request is brought within budget: notes in place of spent results, a recap of the middle, and dropping what is left |
| `callback::dual_approval`, `callback::approval` | which calls a person is asked about, and what their answer does |
| `callback::path_guard`, `callback::mcp_guard` | which paths a call may name |
| `callback::search_compressor`, `knowledge_base` | which passages of a long search result are kept |
| `llm` | what is sent to a model, and what is made of its answer |
| `tools` | the built-in tools, the registry, and what other programs' tools look like |
| `gaia` | loading, solving and scoring benchmark problems |
| `config` | settings, from their raw values |
| `json`, `text`, `path`, `pairs`, `platform`, `util` | plain values |

`app/` is the program around it: the environment, the network, files and the console.

`tests/` runs the library on concrete values.
