//! Remote tools: their names, headers, arguments and answers, and how a server is reached.

use agent::json::Json;
use agent::platform::Platform;
use agent::tools::mcp::client::{
    adapt_tool, build_headers, call_outcome, check_label, check_url, is_mcp_tool_name, local_name,
    parse_arguments, render_content, ContentBlock, InvalidTarget, McpTool, RemoteTool,
    MAX_NAME_CHARS,
};
use agent::tools::mcp::config::{
    apply_allow_list, connection, expand, http_target, inherited_names, stdio_env, stdio_launch,
    variables, variables_in, ConfigError, Connection, McpConfig, ServerConfig, TransportKind, INHERITED_ENV_VARS,
};
use agent::tools::Tool;

#[test]
fn namespaces_remote_names() {
    assert_eq!(local_name("demo", "current_time"), "demo__current_time");
}

#[test]
fn recognizes_mcp_tool_names_by_the_label_separator() {
    assert!(is_mcp_tool_name("demo__current_time"));
    assert!(!is_mcp_tool_name("delete_file"));
    assert!(!is_mcp_tool_name("calculator"));
}

fn pairs(given: &[(&str, &str)]) -> Vec<(String, String)> {
    given.iter().map(|(name, value)| ((*name).to_owned(), (*value).to_owned())).collect()
}

fn value<'a>(pairs: &'a [(String, String)], name: &str) -> Option<&'a str> {
    pairs.iter().rev().find(|(key, _)| key == name).map(|(_, value)| value.as_str())
}

#[test]
fn forwards_every_header_including_authorization() {
    let built = build_headers(&pairs(&[
        ("Authorization", "Bearer t0ken"),
        ("X-Api-Key", "k123"),
        ("X-Tenant", "acme"),
    ]))
    .unwrap();

    assert_eq!(built.len(), 3);
    assert_eq!(value(&built, "authorization"), Some("Bearer t0ken"));
    assert_eq!(value(&built, "x-api-key"), Some("k123"));
    assert_eq!(value(&built, "x-tenant"), Some("acme"));
}

#[test]
fn preserves_non_bearer_auth_schemes() {
    let built = build_headers(&pairs(&[("Authorization", "Basic dXNlcjpwYXNz")])).unwrap();
    assert_eq!(value(&built, "authorization"), Some("Basic dXNlcjpwYXNz"));
}

#[test]
fn trims_surrounding_whitespace() {
    let built = build_headers(&pairs(&[("  X-Api-Key  ", "  k123  ")])).unwrap();
    assert_eq!(value(&built, "x-api-key"), Some("k123"));
}

#[test]
fn accepts_no_headers() {
    assert!(build_headers(&Vec::new()).unwrap().is_empty());
}

#[test]
fn rejects_invalid_header_names() {
    assert!(build_headers(&pairs(&[("bad header", "v")])).is_err());
}

#[test]
fn rejects_invalid_header_values_without_leaking_them() {
    let err = build_headers(&pairs(&[("X-Token", "secret\nInjected: 1")])).unwrap_err();
    let message = err.message();
    assert!(message.contains("X-Token"), "got: {message}");
    assert!(!message.contains("secret"), "value leaked: {message}");
}

#[test]
fn sanitizes_characters_the_api_rejects() {
    assert_eq!(local_name("demo", "time.now/utc"), "demo__time_now_utc");
}

#[test]
fn keeps_hyphens_which_the_api_allows() {
    assert_eq!(local_name("everything", "get-sum"), "everything__get-sum");
}

#[test]
fn truncates_names_over_the_api_limit() {
    let name = local_name("demo", &"x".repeat(100));
    assert_eq!(name.chars().count(), MAX_NAME_CHARS);
    assert!(name.starts_with("demo__"));
}

#[test]
fn treats_blank_arguments_as_an_empty_object() {
    assert!(parse_arguments("").unwrap().is_empty());
    assert!(parse_arguments("  ").unwrap().is_empty());
    assert!(parse_arguments("null").unwrap().is_empty());
    assert!(parse_arguments("{}").unwrap().is_empty());
}

#[test]
fn parses_object_arguments() {
    let args = parse_arguments(r#"{"city":"Paris"}"#).unwrap();
    assert_eq!(args.get("city").unwrap(), "Paris");
}

#[test]
fn rejects_non_object_arguments() {
    let refused = parse_arguments("[1,2]");
    assert!(refused.is_err());
    assert!(refused.unwrap_err().message().contains("object"));
}

#[test]
fn joins_text_blocks() {
    let content =
        vec![ContentBlock::Text("first".to_owned()), ContentBlock::Text("second".to_owned())];
    assert_eq!(render_content(&content, None), "first\nsecond");
}

#[test]
fn notes_non_text_blocks() {
    assert_eq!(render_content(&vec![ContentBlock::Image], None), "[image content omitted]");
    assert_eq!(
        render_content(&vec![ContentBlock::ResourceLink("file:///x".to_owned())], None),
        "[resource link: file:///x]"
    );
}

#[test]
fn falls_back_to_structured_content() {
    let structured =
        Json::Object(vec![("temperature".to_owned(), Json::Number("21".to_owned()))]);
    assert_eq!(render_content(&Vec::new(), Some(&structured)), r#"{"temperature":21}"#);
    let spoken = vec![ContentBlock::Text("warm".to_owned())];
    assert_eq!(render_content(&spoken, Some(&structured)), "warm");
}

#[test]
fn json_texts_are_quoted_as_serde_json_quotes_them() {
    let structured =
        Json::Object(vec![("a\"b".to_owned(), Json::text("line\nbreak\\ \u{7}中"))]);
    let text = render_content(&Vec::new(), Some(&structured));
    let parsed: serde_json::Value = serde_json::from_str(&text).unwrap();
    assert_eq!(parsed["a\"b"], "line\nbreak\\ \u{7}中");
    assert_eq!(parsed.to_string(), text);
}

#[test]
fn reports_an_empty_result_explicitly() {
    assert_eq!(render_content(&Vec::new(), None), "(the tool returned no content)");
}

#[test]
fn an_error_of_the_remote_tool_is_attributed() {
    assert_eq!(call_outcome("t", None, "fine".to_owned()), Ok("fine".to_owned()));
    assert_eq!(
        call_outcome("t", Some(true), "broke".to_owned()),
        Err("MCP tool `t` reported an error: broke".to_owned())
    );
}

#[test]
fn a_target_needs_a_label_and_a_url() {
    assert_eq!(check_label(" "), Err(InvalidTarget::EmptyLabel));
    assert_eq!(check_url("demo", "  https://x  "), Ok("https://x"));
    assert_eq!(check_url("demo", "  "), Err(InvalidTarget::EmptyUrl));
    assert_eq!(InvalidTarget::EmptyUrl.message(), "server url must not be empty");
}

fn tool(remote: &str) -> McpTool {
    adapt_tool(
        "demo",
        RemoteTool { name: remote.to_owned(), description: None, input_schema: Json::Null },
    )
}

#[test]
fn a_remote_tool_is_offered_under_its_local_name() {
    let tool = tool("read_file");
    assert_eq!(tool.name(), "demo__read_file");
    assert_eq!(tool.remote_name, "read_file");
    assert_eq!(tool.description(), "Tool provided by the `demo` MCP server.");
    assert_eq!(tool.definition().name, "demo__read_file");
}

fn spawned(command: &str) -> ServerConfig {
    ServerConfig { command: Some(command.to_owned()), ..ServerConfig::default() }
}

fn remote(url: &str) -> ServerConfig {
    ServerConfig { url: Some(url.to_owned()), ..ServerConfig::default() }
}

#[test]
fn parses_claude_desktop_shape() {
    let server = ServerConfig {
        args: ["-y", "@modelcontextprotocol/server-filesystem", "/tmp"]
            .map(str::to_owned)
            .to_vec(),
        ..spawned("npx")
    };
    assert_eq!(server.command.as_deref(), Some("npx"));
    assert_eq!(server.args.len(), 3);
    assert_eq!(server.transport().unwrap(), TransportKind::Stdio);
}

#[test]
fn parses_vscode_servers_key_and_explicit_type() {
    let server = ServerConfig { kind: Some(TransportKind::Stdio), ..spawned("server") };
    assert_eq!(server.transport().unwrap(), TransportKind::Stdio);
}

#[test]
fn infers_http_from_url() {
    assert_eq!(remote("https://x/mcp").transport().unwrap(), TransportKind::StreamableHttp);
}

#[test]
fn accepts_streamable_http_spellings() {
    for spelling in ["http", "streamable-http", "streamableHttp", "streamable_http"] {
        let kind = TransportKind::named(spelling);
        assert!(kind.is_some(), "{spelling}");
        let server = ServerConfig { kind, ..remote("https://x") };
        assert!(server.transport().is_ok(), "{spelling}");
    }
    assert_eq!(TransportKind::named("STDIO"), Some(TransportKind::Stdio));
    assert_eq!(TransportKind::named("sse"), Some(TransportKind::Sse));
    assert_eq!(TransportKind::named("carrier pigeon"), None);
}

#[test]
fn rejects_entry_without_command_or_url() {
    assert!(ServerConfig::default().transport().is_err());
}

#[test]
fn rejects_ambiguous_entry() {
    let server = ServerConfig { url: Some("https://u".to_owned()), ..spawned("c") };
    assert_eq!(server.transport(), Err(ConfigError::AmbiguousTransport));
}

#[test]
fn honours_both_disable_spellings() {
    let config = McpConfig {
        mcp_servers: vec![
            ("a".to_owned(), spawned("s")),
            ("b".to_owned(), ServerConfig { disabled: true, ..spawned("s") }),
            ("c".to_owned(), ServerConfig { enabled: Some(false), ..spawned("s") }),
            (
                "d".to_owned(),
                ServerConfig { enabled: Some(true), disabled: true, ..spawned("s") },
            ),
        ],
    };
    let enabled: Vec<&str> = config
        .enabled()
        .into_iter()
        .map(|at| config.mcp_servers[at].0.as_str())
        .collect();
    assert_eq!(enabled, ["a", "d"]);
}

#[test]
fn defaults_to_no_servers() {
    assert!(McpConfig::default().enabled().is_empty());
}

#[test]
fn expands_environment_variables() {
    let env = pairs(&[("AGENT_TEST_MCP_TOKEN", "s3cret")]);
    assert_eq!(expand("Bearer ${AGENT_TEST_MCP_TOKEN}", &env).unwrap(), "Bearer s3cret");
    assert_eq!(expand("${env:AGENT_TEST_MCP_TOKEN}", &env).unwrap(), "s3cret");
    assert_eq!(
        expand("a${AGENT_TEST_MCP_TOKEN}b${env:AGENT_TEST_MCP_TOKEN}", &env).unwrap(),
        "as3cretbs3cret"
    );
}

#[test]
fn leaves_plain_text_untouched() {
    assert_eq!(expand("npx", &Vec::new()).unwrap(), "npx");
    assert_eq!(expand("", &Vec::new()).unwrap(), "");
}

#[test]
fn rejects_undefined_and_unterminated_variables() {
    assert!(expand("${AGENT_TEST_DEFINITELY_UNSET}", &Vec::new()).is_err());
    assert!(expand("${oops", &Vec::new()).is_err());
}

fn allowing(names: &[&str]) -> ServerConfig {
    ServerConfig {
        allowed_tools: Some(names.iter().map(|name| (*name).to_owned()).collect()),
        ..ServerConfig::default()
    }
}

#[test]
fn allow_list_absent_keeps_every_tool() {
    let tools = vec![tool("read_file"), tool("write_file")];
    assert_eq!(apply_allow_list("demo", &ServerConfig::default(), tools).len(), 2);
}

#[test]
fn allow_list_keeps_only_the_named_remote_tools() {
    let tools = vec![tool("read_file"), tool("write_file")];
    let filtered = apply_allow_list("demo", &allowing(&["read_file"]), tools);
    let names: Vec<&str> = filtered.iter().map(|tool| tool.name()).collect();
    assert_eq!(names, ["demo__read_file"]);
}

#[test]
fn allow_list_of_empty_vec_keeps_nothing() {
    assert!(apply_allow_list("demo", &allowing(&[]), vec![tool("read_file")]).is_empty());
}

#[test]
fn allow_list_naming_an_unadvertised_tool_does_not_panic_or_drop_the_rest() {
    let filtered =
        apply_allow_list("demo", &allowing(&["read_file", "typo_tool"]), vec![tool("read_file")]);
    assert_eq!(filtered.len(), 1);
    assert_eq!(filtered[0].name(), "demo__read_file");
}

fn process_env() -> Vec<(String, String)> {
    pairs(&[
        ("PATH", "/usr/bin"),
        ("HOME", "/home/me"),
        ("AGENT_TEST_MCP_SECRET", "s3cret"),
        ("AGENT_TEST_MCP_EXPAND_SOURCE", "expanded"),
    ])
}

#[test]
fn stdio_env_does_not_leak_unrelated_variables() {
    let env = stdio_env(&ServerConfig::default(), &process_env(), Platform::Unix).unwrap();
    assert!(
        value(&env, "AGENT_TEST_MCP_SECRET").is_none(),
        "an env var outside INHERITED_ENV_VARS must not be passed to the child process"
    );
}

#[test]
fn stdio_env_carries_only_the_inherited_allowlist_by_default() {
    let env = stdio_env(&ServerConfig::default(), &process_env(), Platform::Unix).unwrap();
    assert_eq!(value(&env, "PATH"), Some("/usr/bin"));
    for (key, _) in &env {
        assert!(
            INHERITED_ENV_VARS.contains(&key.as_str()),
            "`{key}` is not in INHERITED_ENV_VARS and `server.env` is empty here"
        );
    }
}

#[test]
fn stdio_env_lets_configured_vars_override_the_inherited_ones() {
    let server = ServerConfig {
        env: pairs(&[("PATH", "/configured/path")]),
        ..ServerConfig::default()
    };
    let env = stdio_env(&server, &process_env(), Platform::Unix).unwrap();
    assert_eq!(value(&env, "PATH"), Some("/configured/path"));
}

#[test]
fn stdio_env_expands_configured_values() {
    let server = ServerConfig {
        env: pairs(&[("TARGET", "${AGENT_TEST_MCP_EXPAND_SOURCE}")]),
        ..ServerConfig::default()
    };
    let env = stdio_env(&server, &process_env(), Platform::Unix).unwrap();
    assert_eq!(value(&env, "TARGET"), Some("expanded"));
}

#[test]
fn a_server_is_reached_as_its_entry_says() {
    let env = process_env();
    let launch = stdio_launch(
        &ServerConfig { args: vec!["${HOME}/x".to_owned()], ..spawned("npx") },
        &env,
        Platform::Unix,
    )
    .unwrap();
    assert_eq!((launch.program.as_str(), launch.args[0].as_str()), ("npx", "/home/me/x"));
    let target = http_target(
        &ServerConfig { headers: pairs(&[("X-Home", "${HOME}")]), ..remote("https://x") },
        &env,
    )
    .unwrap();
    assert_eq!(target.headers, pairs(&[("X-Home", "/home/me")]));

    assert!(matches!(connection(&spawned("npx"), &env, Platform::Unix), Ok(Connection::Stdio(_))));
    assert!(matches!(
        connection(&remote("https://x"), &env, Platform::Unix),
        Ok(Connection::Http(_))
    ));
    let sse = ServerConfig { kind: Some(TransportKind::Sse), ..remote("https://x") };
    assert!(matches!(
        connection(&sse, &env, Platform::Unix),
        Err(ConfigError::UnsupportedSse)
    ));
    assert!(matches!(
        stdio_launch(&ServerConfig::default(), &env, Platform::Unix),
        Err(ConfigError::MissingCommand)
    ));
    assert!(matches!(
        http_target(&ServerConfig::default(), &env),
        Err(ConfigError::MissingUrl)
    ));
    for error in [
        ConfigError::AmbiguousTransport,
        ConfigError::MissingTransport,
        ConfigError::UnsupportedSse,
        ConfigError::MissingCommand,
        ConfigError::MissingUrl,
        ConfigError::Unterminated("${x".to_owned()),
        ConfigError::Undefined { text: "${X}".to_owned(), name: "X".to_owned() },
    ] {
        assert!(!error.message().is_empty());
    }
}

#[test]
fn a_label_never_crowds_out_the_separator() {
    for width in [1, 61, 62, 63, 64, 200] {
        let label = "x".repeat(width);
        let name = local_name(&label, "current_time");
        assert!(is_mcp_tool_name(&name), "{name} must be recognized");
        assert!(name.chars().count() <= MAX_NAME_CHARS);
    }
    assert_eq!(local_name(&"x".repeat(64), "t"), format!("{}__", "x".repeat(62)));
    assert_eq!(local_name(&"x".repeat(61), "time"), format!("{}__t", "x".repeat(61)));
    let labelled = format!("team__{}", "x".repeat(64));
    assert_eq!(labelled.len(), 70);
    assert_eq!(local_name(&labelled, "t"), &labelled[..64], "it holds a separator already");
}

#[test]
fn what_a_server_inherits_depends_on_the_system() {
    let own = pairs(&[("PATH", "p"), ("HOME", "h"), ("SystemRoot", "r"), ("SECRET", "s")]);
    let unix = stdio_env(&ServerConfig::default(), &own, Platform::Unix).unwrap();
    assert_eq!(unix, pairs(&[("HOME", "h"), ("PATH", "p")]));
    let windows = stdio_env(&ServerConfig::default(), &own, Platform::Windows).unwrap();
    assert_eq!(windows, pairs(&[("PATH", "p"), ("SystemRoot", "r")]));
    assert_eq!(inherited_names(Platform::Unix), INHERITED_ENV_VARS);
    assert_eq!(inherited_names(Platform::Windows).last(), Some(&"windir"));
    assert_eq!(Platform::Unix.home_variable(), "HOME");
    assert_eq!(Platform::Windows.home_variable(), "USERPROFILE");
}

#[test]
fn every_character_is_escaped_as_json_asks() {
    let quoted = |c: char| Json::Text(c.to_string()).to_text();
    assert_eq!(quoted('"'), "\"\\\"\"");
    assert_eq!(quoted('\\'), "\"\\\\\"");
    assert_eq!(quoted('\u{8}'), "\"\\b\"");
    assert_eq!(quoted('\u{c}'), "\"\\f\"");
    assert_eq!(quoted('\n'), "\"\\n\"");
    assert_eq!(quoted('\r'), "\"\\r\"");
    assert_eq!(quoted('\t'), "\"\\t\"");
    for n in (0u8..0x20).filter(|n| ![8, 9, 10, 12, 13].contains(n)) {
        assert_eq!(quoted(char::from(n)), format!("\"\\u{n:04x}\""));
    }
    for c in (' '..='\u{2ff}').chain(['\u{2028}', '\u{10ffff}', '/', '\u{7f}']) {
        if c != '"' && c != '\\' {
            assert_eq!(quoted(c), format!("\"{c}\""));
        }
    }
}

#[test]
fn servers_stand_in_the_order_of_their_labels() {
    let mut config = McpConfig::default();
    for label in ["b", "c", "a", "b", "Z", "中", "aa"] {
        config.insert(label.to_owned(), spawned(label));
    }
    let off = ServerConfig { disabled: true, ..spawned("off") };
    config.insert("c".to_owned(), off);
    let labels: Vec<&str> = config.mcp_servers.iter().map(|(label, _)| label.as_str()).collect();
    assert_eq!(labels, ["Z", "a", "aa", "b", "c", "中"]);
    let started: Vec<&str> =
        config.enabled().into_iter().map(|at| config.mcp_servers[at].0.as_str()).collect();
    assert_eq!(started, ["Z", "a", "aa", "b", "中"]);

    let mut server = ServerConfig::default();
    for (name, value) in [("B", "1"), ("A", "2"), ("B", "3")] {
        server.set_variable(name.to_owned(), value.to_owned());
        server.set_header(name.to_owned(), value.to_owned());
    }
    assert_eq!(server.env, pairs(&[("A", "2"), ("B", "3")]));
    assert_eq!(server.headers, server.env);
}

#[test]
fn the_system_is_asked_for_what_an_entry_names() {
    assert_eq!(variables_in("a${X}b${env: Y }${ env:Z }${X}${"), ["X", " Y", "Z", "X"]);
    assert!(variables_in("plain $X {Y}").is_empty());

    let server = ServerConfig {
        args: vec!["${ARG}".to_owned()],
        cwd: Some("${CWD}".to_owned()),
        env: pairs(&[("K", "${VALUE}")]),
        ..spawned("${COMMAND}")
    };
    let asked = variables(&server, Platform::Unix);
    assert_eq!(asked[..5], INHERITED_ENV_VARS);
    assert_eq!(asked[5..], ["COMMAND", "ARG", "VALUE", "CWD"]);
    let server = ServerConfig {
        headers: pairs(&[("X-${NAME}", "${SECRET}")]),
        ..remote("https://${HOST}")
    };
    assert_eq!(variables(&server, Platform::Windows)[11..], ["NAME", "SECRET", "HOST"]);

    // A system that compares names in any case answers for the name it was asked for by.
    let answered = pairs(&[("path", "/usr/bin")]);
    assert_eq!(expand("${path}", &answered).unwrap(), "/usr/bin");
}
