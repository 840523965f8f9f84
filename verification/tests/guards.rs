//! Which paths a tool call may name.

use agent::agent::{ToolCallDecision, ToolCallView, ToolResultStatus};
use agent::callback::mcp_guard::{absolute_or_home_relative, McpGuardCallback};
use agent::callback::path_guard::{
    lexical_normalize, LexicalPath, Lookup, Resolution, Resolved, WorkspaceGuardCallback,
};
use agent::json::Json;
use agent::tools::registry::Builtin;
use agent::tools::{
    file_delete, file_list, file_read, file_upzip, read_image, ToolRegistry,
};

/// What is on disk: each path with the place it really is.
type Disk = &'static [(&'static str, &'static str)];

const ROOT: &str = "/work/root";

const DISK: Disk = &[
    ("/", "/"),
    ("/work", "/work"),
    ("/work/root", "/work/root"),
    ("/work/root/escape", "/outside"),
    ("/outside", "/outside"),
    ("/etc", "/etc"),
    ("/etc/passwd", "/etc/passwd"),
    ("/home", "/home"),
    ("/home/me", "/home/me"),
];

fn resolve(disk: Disk, place: LexicalPath) -> Resolved {
    let mut resolution = Resolution::start(place);
    loop {
        let Some(prefix) = resolution.probe() else {
            panic!("every path of these tests is absolute");
        };
        let found = disk.iter().find(|(path, _)| *path == prefix).map(|(_, real)| *real);
        match resolution.advance(found) {
            Lookup::Done(resolved) => return resolved,
            Lookup::Continue(next) => resolution = next,
        }
    }
}

fn view<'a>(name: &'a str, arguments: &'a Json) -> ToolCallView<'a> {
    ToolCallView { tool_call_id: "call-1", name, arguments, raw_arguments: "" }
}

fn object(fields: &[(&str, &str)]) -> Json {
    Json::Object(
        fields.iter().map(|(name, value)| ((*name).to_owned(), Json::text(value))).collect(),
    )
}

fn guard(name: &str, arguments: &Json) -> ToolCallDecision {
    let guard = WorkspaceGuardCallback::new(ROOT);
    let call = view(name, arguments);
    let candidates = WorkspaceGuardCallback::candidates(&call);
    let resolved = candidates
        .iter()
        .map(|candidate| resolve(DISK, guard.requested(candidate)))
        .collect();
    guard.decide(&candidates, &resolved)
}

fn refused(decision: &ToolCallDecision) -> bool {
    matches!(decision, ToolCallDecision::ShortCircuit(ToolResultStatus::Error, _))
}

#[test]
fn allows_a_relative_path_inside_the_root() {
    let args = object(&[("file_path", "notes.txt")]);
    assert!(matches!(guard(file_delete::NAME, &args), ToolCallDecision::Proceed));
}

#[test]
fn allows_an_absolute_path_inside_the_root() {
    let args = object(&[("file_path", "/work/root/notes.txt")]);
    assert!(matches!(guard(file_delete::NAME, &args), ToolCallDecision::Proceed));
}

#[test]
fn denies_a_parent_directory_escape() {
    let args = object(&[("file_path", "../../etc/passwd")]);
    assert!(refused(&guard(file_delete::NAME, &args)));
}

#[test]
fn denies_an_absolute_path_outside_the_root() {
    let args = object(&[("file_path", "/etc/passwd")]);
    assert!(refused(&guard(file_delete::NAME, &args)));
}

#[test]
fn checks_the_field_list_files_actually_uses() {
    let args = object(&[("path", "../outside")]);
    assert!(!guard(file_list::NAME, &args).is_proceed());
}

#[test]
fn checks_both_fields_of_unzip_file() {
    let args = object(&[("zip_path", "archive.zip"), ("extract_to", "../escape")]);
    assert!(!guard(file_upzip::NAME, &args).is_proceed());
}

#[test]
fn allows_a_not_yet_existing_path_via_lexical_resolution() {
    let args = object(&[("zip_path", "archive.zip"), ("extract_to", "brand-new-subdir")]);
    assert!(matches!(guard(file_upzip::NAME, &args), ToolCallDecision::Proceed));
}

#[test]
fn denies_read_image_escaping_the_root() {
    let args = object(&[
        ("file_path", "../outside.png"),
        ("query", "what is this?"),
        ("model", "vision"),
    ]);
    assert!(refused(&guard(read_image::NAME, &args)));
}

#[test]
fn every_path_taking_builtin_tool_is_guarded() {
    let path_taking_tools = [
        file_delete::NAME,
        file_list::NAME,
        file_read::NAME,
        file_upzip::NAME,
        read_image::NAME,
    ];
    let registry: ToolRegistry<u32> =
        ToolRegistry::builtin(&|_: Builtin| Json::Null).unwrap();
    for name in registry.names() {
        if path_taking_tools.contains(&name.as_str()) {
            assert!(
                !WorkspaceGuardCallback::guarded_fields(&name).is_empty(),
                "`{name}` reads/writes a filesystem path but is not guarded by \
                 WorkspaceGuardCallback"
            );
        }
    }
}

#[test]
fn ignores_tools_it_does_not_guard() {
    let args = object(&[("operator", "add")]);
    assert!(matches!(guard("calculator", &args), ToolCallDecision::Proceed));
}

#[test]
fn denies_an_existing_symlink_that_points_outside_the_root() {
    let args = object(&[("file_path", "escape/secret.txt")]);
    assert!(refused(&guard(file_delete::NAME, &args)));
}

#[test]
fn paths_are_normalized_without_the_disk() {
    assert_eq!(lexical_normalize("/a/./b/../c//d").display(), "/a/c/d");
    let again = lexical_normalize(&lexical_normalize("/a/../b").display());
    assert_eq!(again.display(), "/b");
    assert!(lexical_normalize("/a/b").starts_with(&lexical_normalize("/a")));
    assert!(!lexical_normalize("/ab").starts_with(&lexical_normalize("/a")));
}

const HOME: &str = "/home/me";

fn mcp_guard(name: &str, arguments: &Json) -> ToolCallDecision {
    let call = view(name, arguments);
    let candidates = McpGuardCallback::candidates(&call, Some(HOME));
    let resolved = candidates
        .iter()
        .map(|candidate| {
            let place = absolute_or_home_relative(candidate, HOME).expect("it names a place");
            resolve(DISK, place)
        })
        .collect();
    let roots = McpGuardCallback::sensitive_places(HOME)
        .into_iter()
        .map(|place| resolve(DISK, place))
        .collect();
    McpGuardCallback::decide(&candidates, &resolved, &roots)
}

#[test]
fn ignores_non_mcp_tool_names() {
    let args = object(&[("file_path", "~/.ssh/id_rsa")]);
    assert!(matches!(mcp_guard("delete_file", &args), ToolCallDecision::Proceed));
}

#[test]
fn denies_a_tilde_relative_sensitive_path() {
    let args = object(&[("path", "~/.ssh/id_rsa")]);
    assert!(refused(&mcp_guard("demo__read_file", &args)));
}

#[test]
fn denies_an_absolute_sensitive_path() {
    let args = object(&[("path", "/home/me/.aws/credentials")]);
    assert!(refused(&mcp_guard("demo__read_file", &args)));
}

#[test]
fn denies_a_sensitive_path_nested_inside_an_array() {
    let args = Json::Object(vec![(
        "paths".to_owned(),
        Json::Array(vec![Json::text("notes.txt"), Json::text("~/.ssh/id_rsa")]),
    )]);
    assert!(refused(&mcp_guard("demo__read_many", &args)));
}

#[test]
fn allows_an_ordinary_relative_path() {
    let args = object(&[("path", "notes.txt")]);
    assert!(matches!(mcp_guard("demo__read_file", &args), ToolCallDecision::Proceed));
}

#[test]
fn allows_free_text_that_merely_contains_a_slash() {
    let args = object(&[("query", "rust async/await tutorial")]);
    assert!(matches!(mcp_guard("demo__web_search", &args), ToolCallDecision::Proceed));
}

#[test]
fn allows_an_absolute_path_outside_the_sensitive_list() {
    let args = object(&[("path", "/home/me/Documents/report.pdf")]);
    assert!(matches!(mcp_guard("demo__read_file", &args), ToolCallDecision::Proceed));
}

#[test]
fn without_a_home_nothing_is_checked() {
    let args = object(&[("path", "~/.ssh/id_rsa")]);
    let call = view("demo__read_file", &args);
    assert!(McpGuardCallback::candidates(&call, None).is_empty());
}
