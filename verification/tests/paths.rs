use deslop::paths::{default_output, output_file_name};

#[test]
fn output_next_to_input() {
    assert_eq!(default_output("notes/draft.md"), "notes/draft.rewritten.md");
    assert_eq!(default_output("draft.md"), "draft.rewritten.md");
    assert_eq!(default_output("/tmp/a.b.md"), "/tmp/a.b.rewritten.md");
}

#[test]
fn input_without_extension() {
    assert_eq!(default_output("README"), "README.rewritten.md");
    assert_eq!(default_output("dir/.hidden"), "dir/.hidden.rewritten.md");
}

#[test]
fn input_without_file_name() {
    assert_eq!(default_output("/"), "/output.rewritten.md");
}

#[test]
fn output_name_from_stem() {
    assert_eq!(output_file_name(Some("x".to_string())), "x.rewritten.md");
    assert_eq!(output_file_name(None), "output.rewritten.md");
}

use deslop::paths::{output_path, same_path};
use std::path::Path;

#[test]
fn default_output_keeps_parent_and_names_file() {
    for input in [
        "notes/draft.md", "draft.md", "/tmp/a.b.md", "a//b.md", "a/b.md/", "a/./b.md", "./x.md",
        ".hidden", "dir/.hidden", "../up/x.txt",
    ] {
        let out = default_output(input);
        let stem = Path::new(input).file_stem().unwrap().to_str().unwrap();
        let expected_name = format!("{}.rewritten.md", stem);
        assert_eq!(Path::new(&out).parent(), Path::new(input).parent(), "{:?}", input);
        assert_eq!(
            Path::new(&out).file_name().unwrap().to_str().unwrap(),
            expected_name,
            "{:?}",
            input
        );
    }
}

#[test]
fn output_defaults_next_to_input() {
    assert_eq!(output_path("a/b.md", None), Some("a/b.rewritten.md".to_string()));
}

#[test]
fn explicit_output_is_used() {
    assert_eq!(output_path("a/b.md", Some("c.md".to_string())), Some("c.md".to_string()));
}

#[test]
fn input_is_never_the_output() {
    assert_eq!(output_path("a/b.md", Some("a/b.md".to_string())), None);
    assert_eq!(output_path("a.md", Some("./a.md".to_string())), None);
    assert_eq!(output_path("a/b.md", Some("a//./b.md".to_string())), None);
    assert_eq!(output_path("./a/b.md", Some("a/b.md/".to_string())), None);
}

#[test]
fn same_path_compares_components() {
    assert!(same_path("a.md", "./a.md"));
    assert!(same_path("/x/y", "/x//y/"));
    assert!(!same_path("/x/y", "x/y"));
    assert!(!same_path("a/../b", "b"));
    assert!(!same_path("a.md", "b.md"));
}

#[test]
fn default_output_components() {
    for input in ["./x.md", "notes/draft.md", "a//b.md", "a/b.md/.", ".hidden", "../up/x.txt", "/b", "a.", ".x.y"] {
        let out = default_output(input);
        let comps = |p: &str| -> Vec<String> {
            Path::new(p).components().map(|c| c.as_os_str().to_string_lossy().into_owned()).collect()
        };
        let mut expected = comps(input);
        expected.pop();
        let stem = Path::new(input).file_stem().unwrap().to_str().unwrap().to_string();
        expected.push(format!("{}.rewritten.md", stem));
        assert_eq!(comps(&out), expected, "{:?}", input);
        assert!(!same_path(input, &out));
        assert_eq!(output_path(input, None), Some(out));
    }
}
