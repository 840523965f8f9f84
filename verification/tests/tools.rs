//! The built-in tools and the registry that offers them; configuration and small utilities.

use std::io::{Cursor, Write};

use agent::agent::continuity::ContinuityCache;
use agent::agent::ExecutionContext;
use agent::config;
use agent::json::Json;
use agent::llm::client::ToolDefinition;
use agent::text::{lowercase, trim, trim_end};
use agent::tools::calculator::{self, Calculator, Operator};
use agent::tools::file_delete::execute::Removal;
use agent::tools::file_delete::DeleteFileArgs;
use agent::tools::file_list::execute::Entry;
use agent::tools::file_list::ListFilesArgs;
use agent::tools::file_read::execute::{markdown_table, number_lines, read_csv_as_markdown, Reading};
use agent::tools::file_read::ReadFileArgs;
use agent::tools::file_upzip::execute::{extract, place, summary, ArchiveEntry, Placed};
use agent::tools::file_upzip::UnzipFileArgs;
use agent::tools::read_image::execute::{data_url, mime, NoVisionContent};
use agent::tools::read_image::ReadImageArgs;
use agent::tools::registry::{answer, AnyTool, Builtin, RegistryError};
use agent::tools::web_search::execute::{
    invalid_arguments, refused, render, reply, search, unparsable, SearchRefusal, TavilyResponse,
    TavilyResult, SNIPPET_PREVIEW_CHARS, TAVILY_ENDPOINT,
};
use agent::tools::web_search::{WebSearch, WebSearchArgs, DEFAULT_MAX_RESULTS, MAX_RESULTS_LIMIT};
use agent::tools::{
    file_delete, file_list, file_read, file_upzip, read_image, web_search, Tool, ToolRegistry,
};
use agent::util::truncate_chars;

type Registry = ToolRegistry<u32>;

fn no_schema(_: Builtin) -> Json {
    Json::Object(Vec::new())
}

fn builtin() -> Registry {
    ToolRegistry::builtin(&no_schema).unwrap()
}

fn select(names: &[&str]) -> Result<Registry, RegistryError> {
    ToolRegistry::select(&names.iter().map(|name| (*name).to_owned()).collect(), &no_schema)
}

fn remote(name: &str) -> AnyTool<u32> {
    let definition = ToolDefinition {
        name: name.to_owned(),
        description: "remote".to_owned(),
        parameters: Json::Null,
    };
    AnyTool::Added { definition, handle: 0 }
}

#[test]
fn empty_registry_advertises_nothing() {
    let registry = Registry::empty();
    assert!(registry.is_empty());
    assert!(registry.definitions().is_empty());
}

#[test]
fn builtin_registers_every_tool_once() {
    let registry = builtin();
    assert_eq!(registry.len(), registry.definitions().len());
    for name in [
        calculator::NAME,
        web_search::NAME,
        file_delete::NAME,
        file_list::NAME,
        file_read::NAME,
        file_upzip::NAME,
        read_image::NAME,
    ] {
        assert!(registry.contains(name), "missing built-in tool `{name}`");
    }
    assert_eq!(registry.len(), 7);
}

#[test]
fn select_builds_only_the_named_tools() {
    let registry = select(&[calculator::NAME]).unwrap();
    assert!(registry.contains(calculator::NAME));
    assert!(!registry.contains(web_search::NAME));
}

#[test]
fn select_accepts_filesystem_tool_names() {
    let registry = select(&[file_delete::NAME]).unwrap();
    assert!(registry.contains(file_delete::NAME));
    assert!(!registry.contains(calculator::NAME));
}

#[test]
fn select_rejects_unknown_tool_names() {
    let err = select(&["nope"]).unwrap_err();
    assert!(err.message().contains("unknown tool"));
    let twice = select(&[calculator::NAME, calculator::NAME]).unwrap_err();
    assert_eq!(twice, RegistryError::DuplicateName(calculator::NAME.to_owned()));
}

#[test]
fn select_of_empty_list_is_the_empty_registry() {
    assert!(select(&[]).unwrap().is_empty());
}

#[test]
fn rejects_duplicate_names() {
    let mut registry = builtin();
    let again = AnyTool::Builtin {
        tool: Builtin::Calculator,
        parameters: Calculator.parameters(),
    };
    let err = registry.add(again).unwrap_err();
    assert!(err.message().contains("duplicate tool name"));
}

#[test]
fn reports_unknown_tool_instead_of_failing() {
    let registry = builtin();
    assert!(registry.dispatch("nope").unwrap_err().starts_with("Error:"));
}

#[test]
fn reports_tool_failure_as_text() {
    let output = answer(Err("invalid calculator arguments".to_owned()));
    assert!(output.starts_with("Error:"), "got: {output}");
    assert_eq!(answer(Ok("5".to_owned())), "5");
}

#[test]
fn discovered_tools_join_the_registry_unless_their_name_is_taken() {
    let mut registry = builtin();
    let skipped = registry.add_discovered(vec![
        remote("demo__a"),
        remote("calculator"),
        remote("demo__a"),
        remote("demo__b"),
    ]);
    assert_eq!(skipped, ["calculator", "demo__a"]);
    assert_eq!(registry.len(), 9);
    assert_eq!(registry.names()[7..], ["demo__a", "demo__b"]);
    assert_eq!(registry.get("demo__b").unwrap().description(), "remote");

    let mut other = Registry::empty();
    let clash = other.extend(vec![
        remote("x"),
        remote("x"),
        remote("y"),
    ]);
    assert_eq!(clash, Err(RegistryError::DuplicateName("x".to_owned())));
    assert_eq!(other.names(), ["x"]);
}

#[test]
fn as_str_matches_serde_representation() {
    for operator in Operator::ALL {
        assert_eq!(
            Operator::from_name(operator.as_str()),
            Some(operator),
            "schema value must be read back"
        );
    }
    assert_eq!(Operator::from_name("Add"), None);
}

#[test]
fn definitions_describe_their_arguments() {
    let calculator = agent::tools::calculator::definition::definition();
    assert_eq!(
        calculator.parameters.to_text(),
        concat_text(&[
            r#"{"type":"object","properties":{"operator":{"type":"string","#,
            r#""description":"Arithmetic operation to perform","#,
            r#""enum":["add","subtract","multiply","divide"]},"#,
            r#""first_number":{"type":"number","#,
            r#""description":"First number for the calculation"},"#,
            r#""second_number":{"type":"number","#,
            r#""description":"Second number for the calculation"}},"#,
            r#""required":["operator","first_number","second_number"],"#,
            r#""additionalProperties":false}"#,
        ])
    );
    let search = agent::tools::web_search::definition::definition();
    assert_eq!(search.name, web_search::NAME);
    let text = search.parameters.to_text();
    assert!(text.contains("1-20 (default 5)"), "got: {text}");
    assert!(text.contains(r#""minimum":1,"maximum":20"#), "got: {text}");
    assert_eq!(WebSearch.parameters().to_text(), text);
    assert_eq!(Calculator.name(), "calculator");
}

fn concat_text(parts: &[&str]) -> String {
    parts.iter().copied().collect()
}

#[test]
fn execute_rejects_missing_path() {
    let args = DeleteFileArgs { file_path: "/no/such".to_owned() };
    let err = file_delete::execute::run(&args, file_delete::execute::Found::Nothing).unwrap_err();
    assert!(err.contains("Path not found"));
    let listed = ListFilesArgs::new(Some("/no/such".to_owned()));
    let err = file_list::execute::check(&listed, file_list::execute::Found::Nothing).unwrap_err();
    assert!(err.contains("Path not found"));
}

#[test]
fn what_stands_at_a_path_decides_how_it_is_removed() {
    let args = DeleteFileArgs { file_path: "a".to_owned() };
    let found = file_delete::execute::Found::Directory;
    assert_eq!(file_delete::execute::run(&args, found), Ok(Removal::Tree));
    let found = file_delete::execute::Found::File;
    assert_eq!(file_delete::execute::run(&args, found), Ok(Removal::File));
    assert_eq!(file_delete::execute::removed(&args), "Path: a\n");
}

#[test]
fn rejects_a_path_that_is_a_file() {
    let args = ListFilesArgs::new(Some("/tmp/a.txt".to_owned()));
    let err = file_list::execute::check(&args, file_list::execute::Found::File).unwrap_err();
    assert!(err.contains("Not a directory"));
}

fn entry(name: &str, is_dir: bool) -> Entry {
    Entry { name: name.to_owned(), is_dir }
}

#[test]
fn lists_directories_before_files_and_skips_hidden_entries() {
    let args = ListFilesArgs::new(Some("dir".to_owned()));
    let entries = vec![
        entry("a_file.txt", false),
        entry(".hidden", false),
        entry("b_dir", true),
        entry("a_dir", true),
        entry("B.txt", false),
    ];
    let output = file_list::execute::run(&args, &entries);

    let dir_pos = output.find("b_dir/").expect("directory should be listed");
    let file_pos = output.find("a_file.txt").expect("file should be listed");
    assert!(dir_pos < file_pos, "directories must be listed first");
    assert!(!output.contains(".hidden"), "hidden entries must be skipped");
    assert_eq!(output, "Directory: dir\n. a_dir/\n. b_dir/\n. B.txt\n. a_file.txt\n");
    let reversed = entries.into_iter().rev().collect();
    assert_eq!(file_list::execute::run(&args, &reversed), output);
}

#[test]
fn defaults_path_to_current_directory_when_omitted() {
    let output = file_list::execute::run(&ListFilesArgs::new(None), &Vec::new());
    assert!(output.starts_with("Directory: ."));
}

fn read_args(path: &str) -> ReadFileArgs {
    ReadFileArgs::new(path.to_owned(), None, None)
}

#[test]
fn execute_rejects_missing_file() {
    let err = file_read::execute::run(&read_args("/no/such.txt"), false).unwrap_err();
    assert!(err.contains("File not found"));
}

#[test]
fn the_extension_decides_how_a_file_is_read() {
    for (path, how) in [
        ("a/b.csv", Reading::Table),
        ("a/b.csv/", Reading::Table),
        ("a/b.CSV", Reading::Text),
        (".csv", Reading::Text),
        ("a.csv/b", Reading::Text),
        ("notes", Reading::Text),
    ] {
        assert_eq!(file_read::execute::run(&read_args(path), true), Ok(how), "{path}");
    }
}

#[test]
fn reads_a_text_file_with_line_numbers_by_default() {
    let args = read_args("plain.txt");
    let output = number_lines("a\nb\nc\n", args.start_line, args.end_line);
    assert_eq!(output, "   1 | a\n   2 | b\n   3 | c\n");
}

#[test]
fn reads_only_the_requested_line_range() {
    let output = number_lines("a\nb\nc\nd\ne\n", 2, 4);
    assert_eq!(output, "   2 | b\n   3 | c\n   4 | d\n");
}

#[test]
fn a_line_range_is_clamped() {
    assert_eq!(number_lines("a\r\nb", 0, 99), "   1 | a\n   2 | b\n");
    assert_eq!(number_lines("a\nb\r", 2, -1), "   2 | b\r\n");
    assert_eq!(number_lines("a\nb", 2, 1), "");
    assert_eq!(number_lines("a\nb", 9, -1), "");
    assert_eq!(number_lines("a\nb", usize::MAX, i64::MAX), "");
    assert_eq!(number_lines("", 1, -1), "");
    let many = "x\n".repeat(10_000);
    assert!(number_lines(&many, 10_000, -1).starts_with("10000 | x"));
}

#[test]
fn reads_a_csv_file_as_a_markdown_table() {
    let output = read_csv_as_markdown(b"a,b\n1,2\n3,4\n").unwrap();
    assert_eq!(output, "| a | b |\n|---|---|\n| 1 | 2 |\n| 3 | 4 |\n");
    let quoted = read_csv_as_markdown(b"a\n\"x, \"\"y\"\"\"\n").unwrap();
    assert_eq!(quoted, "| a |\n|---|\n| x, \"y\" |\n");
    assert!(read_csv_as_markdown(b"a,b\n1\n").is_err(), "a row of another width");
    assert_eq!(markdown_table(&Vec::new(), &Vec::new()), "|  |\n|\n");
}

fn unzip(path: &str, to: Option<&str>) -> UnzipFileArgs {
    UnzipFileArgs { zip_path: path.to_owned(), extract_to: to.map(str::to_owned) }
}

#[test]
fn rejects_missing_zip() {
    let err = file_upzip::execute::run(&unzip("/no/such.zip", None), false).unwrap_err();
    assert!(err.contains("File not found"));
}

#[test]
fn extracts_into_the_requested_directory() {
    let bytes = stored_archive(&[("entry.txt", b"hello world")]);
    let to = file_upzip::execute::run(&unzip("a.zip", Some("out")), true).unwrap();
    assert_eq!(to, "out");
    let extraction = extract(&to, &bytes);
    assert!(extraction.failure.is_none());
    let summary = summary(&extraction.names, &to);
    assert!(summary.contains("Extracted 1 files"));
    assert!(summary.contains("entry.txt"));
    assert_eq!(summary, "Extracted 1 files to out/\n\nContents:\n. - entry.txt\n");
    assert_eq!(extraction.placed.len(), 1);
    assert_eq!(extraction.placed[0].path, "out/entry.txt");
    let extracted_content =
        String::from_utf8(extraction.placed[0].contents.clone().unwrap()).unwrap();
    assert_eq!(extracted_content, "hello world");
}

/// An archive with one directory and one file in it.
fn archive() -> Vec<u8> {
    let mut zip = zip::ZipWriter::new(Cursor::new(Vec::new()));
    let options = zip::write::SimpleFileOptions::default();
    zip.add_directory("sub", options).unwrap();
    zip.start_file("sub/entry.txt", options).unwrap();
    zip.write_all(b"hello world").unwrap();
    zip.finish().unwrap().into_inner()
}

#[test]
fn an_archive_is_laid_out_under_its_destination() {
    let extraction = extract("out", &archive());
    assert!(extraction.failure.is_none());
    assert_eq!(extraction.names, ["sub/", "sub/entry.txt"]);
    assert_eq!(
        extraction.placed,
        [
            Placed { path: "out/sub/".to_owned(), contents: None },
            Placed {
                path: "out/sub/entry.txt".to_owned(),
                contents: Some(b"hello world".to_vec()),
            },
        ]
    );
    let broken = extract("out", b"not an archive");
    assert!(broken.failure.is_some() && broken.placed.is_empty());
    let entries = vec![ArchiveEntry {
        name: "/etc/x".to_owned(),
        is_dir: false,
        contents: Vec::new(),
    }];
    assert_eq!(place("out/", entries)[0].path, "/etc/x");
}

#[test]
fn defaults_extract_dir_to_the_zip_name_without_extension() {
    for path in ["/tmp/archive.zip", "a/b.tar.zip", "a/b.zip/", "./x.zip", "noext", ".zip", "a/b/.", ".."] {
        let expected = std::path::Path::new(path).with_extension("");
        let chosen = file_upzip::execute::run(&unzip(path, None), true).unwrap();
        assert_eq!(chosen, expected.to_str().unwrap(), "{path}");
    }
}

#[test]
fn a_long_archive_is_summed_up() {
    let names: Vec<String> = (0..25).map(|i| format!("f{i}")).collect();
    let text = summary(&names, "out");
    assert!(text.contains(". - f19\n") && !text.contains("f20"));
    assert!(text.ends_with("  ... and 5 more files\n"));
}

#[test]
fn an_image_is_sent_as_a_data_url() {
    let args = ReadImageArgs {
        file_path: "chart.png".to_owned(),
        query: "what is this?".to_owned(),
        model: "gpt-4o-mini".to_owned(),
    };
    let request = read_image::execute::run(args, b"hi!?");
    assert_eq!(request.image_url, "data:image/png;base64,aGkhPw==");
    assert_eq!(request.query, "what is this?");
    assert_eq!(request.max_tokens, 1024);
    assert_eq!(mime("a.gif"), "image/gif");
    assert_eq!(mime("a.webp"), "image/webp");
    assert_eq!(mime("a.jpg"), "image/jpeg");
    assert_eq!(mime("a"), "image/jpeg");
    assert_eq!(data_url("image/gif", "AA=="), "data:image/gif;base64,AA==");
    let said = vec![Some("a chart".to_owned()), None];
    assert_eq!(read_image::execute::answer(said), Ok("a chart".to_owned()));
    let silent = vec![None, Some("late".to_owned())];
    assert_eq!(read_image::execute::answer(silent), Err(NoVisionContent));
    assert_eq!(NoVisionContent.message(), "No content in vision response");
}

fn result(title: &str, url: &str, content: &str) -> TavilyResult {
    TavilyResult { title: title.to_owned(), url: url.to_owned(), content: content.to_owned() }
}

#[test]
fn renders_answer_and_numbered_results() {
    let response = TavilyResponse {
        answer: Some("Argentina won.".to_owned()),
        results: vec![
            result("Final report", "https://example.com/a", "Argentina beat France."),
            result("Match stats", "https://example.com/b", "Score was 3-3."),
        ],
    };
    assert_eq!(
        render(&response),
        "Answer: Argentina won.\n\n\
         [1] Final report\nhttps://example.com/a\nArgentina beat France.\n\n\
         [2] Match stats\nhttps://example.com/b\nScore was 3-3."
    );
}

#[test]
fn omits_answer_section_when_blank() {
    let response = TavilyResponse {
        answer: Some("   ".to_owned()),
        results: vec![result("Title", "https://example.com", "Body")],
    };
    assert_eq!(render(&response), "[1] Title\nhttps://example.com\nBody");
}

#[test]
fn falls_back_to_answer_when_no_results() {
    let response =
        TavilyResponse { answer: Some("Direct answer.".to_owned()), results: Vec::new() };
    assert_eq!(render(&response), "Answer: Direct answer.");
}

#[test]
fn reports_empty_result_set() {
    let response = TavilyResponse { answer: None, results: Vec::new() };
    assert_eq!(render(&response), "No results found.");
}

#[test]
fn truncates_long_snippets() {
    let response = TavilyResponse {
        answer: None,
        results: vec![result("T", "https://example.com", &"x".repeat(1000))],
    };
    assert!(render(&response).ends_with(&"x".repeat(SNIPPET_PREVIEW_CHARS)));
    assert!(!render(&response).contains(&"x".repeat(SNIPPET_PREVIEW_CHARS + 1)));
}

fn search_args(query: &str, max_results: Option<u8>) -> WebSearchArgs {
    WebSearchArgs { query: query.to_owned(), max_results }
}

#[test]
fn reports_malformed_arguments_as_text() {
    assert!(invalid_arguments("expected value").starts_with("Error: invalid arguments"));
}

#[test]
fn a_search_is_sent_as_the_model_asked() {
    let key = || Some("k".to_owned());
    let depth = || "basic".to_owned();
    let request = search(&search_args("  rust  ", Some(3)), key(), depth()).unwrap();
    assert_eq!(request.endpoint, TAVILY_ENDPOINT);
    assert_eq!(request.api_key, "k");
    assert_eq!(
        request.body.to_text(),
        r#"{"query":"rust","search_depth":"basic","max_results":3,"include_answer":true}"#
    );
    assert_eq!(search(&search_args(" ", None), None, depth()), Err(SearchRefusal::EmptyQuery));
    assert_eq!(search(&search_args("q", None), None, depth()), Err(SearchRefusal::NoApiKey));
    assert_eq!(SearchRefusal::EmptyQuery.message(), "query must not be empty");
    assert!(SearchRefusal::NoApiKey.message().starts_with("TAVILY_API_KEY is not set"));
    assert_eq!(refused("401 Unauthorized", "no"), "Tavily returned 401 Unauthorized: no");
    assert_eq!(
        unparsable("bad", &"x".repeat(300)),
        format!("failed to parse Tavily response: bad; body: {}", "x".repeat(200))
    );
    assert_eq!(reply(Err("boom")), "Error: boom");
    let empty = TavilyResponse { answer: None, results: Vec::new() };
    assert_eq!(reply(Ok(&empty)), "No results found.");
}

#[test]
fn defaults_max_results_when_omitted() {
    let args = search_args("rust async book", None);
    assert_eq!(args.query, "rust async book");
    assert_eq!(args.effective_max_results(), DEFAULT_MAX_RESULTS);
}

#[test]
fn honours_requested_max_results() {
    assert_eq!(search_args("q", Some(3)).effective_max_results(), 3);
}

#[test]
fn clamps_out_of_range_max_results() {
    assert_eq!(search_args("q", Some(99)).effective_max_results(), MAX_RESULTS_LIMIT);
    assert_eq!(search_args("q", Some(0)).effective_max_results(), 1);
}

#[test]
fn keeps_short_content_as_is() {
    assert_eq!(truncate_chars("abc", 10), "abc");
}

#[test]
fn truncates_on_char_boundary() {
    assert_eq!(truncate_chars("中文内容", 2), "中文");
}

#[test]
fn handles_zero_limit() {
    assert_eq!(truncate_chars("中文", 0), "");
}

#[test]
fn reasoning_models_do_not_support_tool_choice() {
    for model in ["deepseek-v4-flash", "DeepSeek-V3", "deepseek-ai/DeepSeek-R1"] {
        assert!(
            !config::infer_tool_choice_support(model),
            "{model} should be treated as unsupported"
        );
    }
}

#[test]
fn other_models_support_tool_choice_by_default() {
    for model in ["gpt-4o", "gpt-4o-mini"] {
        assert!(config::infer_tool_choice_support(model), "{model} should support");
    }
}

#[test]
fn parsed_var_falls_back_on_unset_blank_or_unparseable() {
    for value in [None, Some(""), Some("  "), Some("junk"), Some("-1"), Some("99999999999999999999999")] {
        assert_eq!(config::parsed_var(value, 7), 7, "{value:?} should fall back");
    }
}

#[test]
fn parsed_var_accepts_zero_and_any_other_valid_value() {
    assert_eq!(config::parsed_var(Some("0"), 7), 0);
    assert_eq!(config::parsed_var(Some("5"), 7), 5);
}

#[test]
fn parsed_var_nonzero_treats_zero_as_invalid() {
    assert_eq!(
        config::parsed_var_nonzero(Some("0"), 7),
        7,
        "0 should fall back to the default"
    );
    assert_eq!(config::parsed_var_nonzero(Some("5"), 7), 5);
    assert_eq!(config::parsed_var_nonzero(None, 7), 7);
}

#[test]
fn settings_have_their_defaults() {
    assert_eq!(config::approval_timeout(None), 300);
    assert_eq!(config::parse_bool_var(Some("true")), Some(true));
    assert_eq!(config::parse_bool_var(Some("maybe")), None);
    assert_eq!(config::non_empty_var(Some("  ")), None);
    assert!(config::model_supports_tool_choice(Some("true"), "deepseek-r1"));
    assert!(!config::model_supports_tool_choice(None, "deepseek-r1"));
    assert_eq!(config::log_level(Some("debug")), config::LogLevel::Debug);
    assert_eq!(config::log_level(Some("loud")), config::LogLevel::Info);
}

#[test]
fn memory_is_kept_per_conversation() {
    let mut cache: ContinuityCache<u32> = ContinuityCache::new(2);
    cache.put("a".to_owned(), 1);
    cache.put("b".to_owned(), 2);
    assert_eq!(cache.get("a"), Some(&1));
    cache.put("c".to_owned(), 3);
    assert_eq!(cache.get("b"), None, "the least recently used one is forgotten");
    assert_eq!(cache.get("a"), Some(&1));
    assert_eq!(cache.len(), 2);

    let mut scoped = ExecutionContext::new("run".to_owned());
    let anonymous = scoped.continuity_key();
    scoped.conversation_id = Some("run".to_owned());
    assert_ne!(anonymous, scoped.continuity_key());
    scoped.conversation_scope = Some("web".to_owned());
    let mut other = ExecutionContext::new("run".to_owned());
    other.conversation_id = Some("brun".to_owned());
    other.conversation_scope = Some("we".to_owned());
    assert_ne!(other.continuity_key(), scoped.continuity_key());
}

#[test]
fn white_space_is_trimmed_as_unicode_has_it() {
    for text in ["  a b\u{3000}\n", "\u{85}x\u{a0}", "\t", "", "\u{200b}y\u{200b}"] {
        assert_eq!(trim(text), text.trim());
        assert_eq!(trim_end(text), text.trim_end());
        assert_eq!(lowercase(text), text.to_ascii_lowercase());
    }
}

#[test]
fn directories_are_ordered_by_their_names() {
    let args = ListFilesArgs::new(Some("d".to_owned()));
    let entries =
        vec![entry("a-b", true), entry("c.txt", false), entry(".env", false), entry("a", true)];
    assert_eq!(
        file_list::execute::run(&args, &entries),
        "Directory: d\n. a/\n. a-b/\n. c.txt\n"
    );
}

/// An archive of stored entries, each with the data it says.
fn stored_archive(entries: &[(&str, &[u8])]) -> Vec<u8> {
    let mut zip = zip::ZipWriter::new(Cursor::new(Vec::new()));
    let options = zip::write::SimpleFileOptions::default()
        .compression_method(zip::CompressionMethod::Stored);
    for (name, data) in entries {
        zip.start_file(*name, options).unwrap();
        zip.write_all(data).unwrap();
    }
    zip.finish().unwrap().into_inner()
}

fn damage(bytes: &mut [u8], data: &[u8]) {
    let at = bytes.windows(data.len()).position(|window| window == data).unwrap();
    bytes[at] ^= 1;
}

#[test]
fn the_data_of_a_directory_is_left_alone() {
    let mut bytes = stored_archive(&[("odd/", b"payload"), ("a.txt", b"hello")]);
    damage(&mut bytes, b"payload");
    let extraction = extract("out", &bytes);
    assert!(extraction.failure.is_none());
    assert_eq!(extraction.names, ["odd/", "a.txt"]);
    assert_eq!(extraction.placed[0].contents, None);
    assert_eq!(extraction.placed[1].contents.as_deref(), Some(&b"hello"[..]));
}

#[test]
fn what_stands_before_a_damaged_file_is_extracted() {
    let mut bytes = stored_archive(&[("a.txt", b"hello"), ("b.txt", b"payload"), ("c.txt", b"x")]);
    damage(&mut bytes, b"payload");
    let extraction = extract("out", &bytes);
    assert!(extraction.failure.is_some());
    assert_eq!(extraction.names, ["a.txt"]);
    assert_eq!(extraction.placed.len(), 1);
}
