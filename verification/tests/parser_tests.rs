use rfast::parser::{
    extract_dependencies_text, meta_from_toml, metadata_readable, parse_meta, replace_comments,
    strip_shebang, MetaError, ScriptMeta,
};
use rfast::toml_doc::{FeaturesField, TomlFields};

fn meta(deps: &str, features: &str, edition: &str) -> ScriptMeta {
    ScriptMeta {
        dependencies: deps.to_string(),
        features: features.to_string(),
        edition: edition.to_string(),
    }
}

#[test]
fn no_metadata_gives_default_edition() {
    let m = parse_meta("fn main() {\n    println!(\"hi\");\n}\n").unwrap();
    assert_eq!(m, meta("", "", "2024"));
}

#[test]
fn empty_source_gives_default_edition() {
    assert_eq!(parse_meta("").unwrap(), meta("", "", "2024"));
}

#[test]
fn block_comment_after_shebang() {
    let src = "#!/usr/bin/env rfast\n/*\n[dependencies]\nserde = \"1\"\n*/\nfn main() {}\n";
    let m = parse_meta(src).unwrap();
    assert_eq!(m, meta("[dependencies]\nserde = \"1\"", "", "2024"));
}

#[test]
fn block_comment_with_edition_and_features() {
    let src = "/*!\nedition = \"2021\"\n[dependencies]\nrand = \"0.8\"\n[features]\ndefault = []\n*/\nfn main() {}\n";
    let m = parse_meta(src).unwrap();
    assert_eq!(m.edition, "2021");
    assert_eq!(m.dependencies, "[dependencies]\nrand = \"0.8\"");
    assert_eq!(m.features, "default = []\n");
}

#[test]
fn empty_block_comment_gives_default() {
    let m = parse_meta("/*\n*/\nfn main() {}").unwrap();
    assert_eq!(m, meta("", "", "2024"));
}

#[test]
fn block_comment_must_come_first() {
    // a block comment after code is not metadata
    let m = parse_meta("fn main() {}\n/* [dependencies]\nx = \"1\" */\n").unwrap();
    assert_eq!(m, meta("", "", "2024"));
}

#[test]
fn unclosed_block_comment_is_an_error() {
    let r = parse_meta("/*\n[dependencies]\nserde = \"1\"\n");
    assert_eq!(r, Err(MetaError::UnclosedBlock));
}

#[test]
fn line_comments_keep_raw_dependencies() {
    let src = "#!/usr/bin/env rfust\n//! [dependencies]\n//! serde_json = \"1.0\"\n//! [dependencies.reqwest]\n//! version = \"0.13.2\"\n//! default-features = false   // disable native TLS\n//! features = [\"blocking\", \"json\"]\n\nfn main() {}\n";
    let m = parse_meta(src).unwrap();
    assert_eq!(
        m.dependencies,
        "[dependencies]\nserde_json = \"1.0\"\n[dependencies.reqwest]\nversion = \"0.13.2\"\ndefault-features = false   // disable native TLS\nfeatures = [\"blocking\", \"json\"]"
    );
    assert_eq!(m.edition, "2024");
    assert_eq!(m.features, "");
}

#[test]
fn line_comments_with_trailing_comments() {
    let src = "#!/usr/bin/env rfust\n//! [dependencies]\n//! colored = \"3.1.1\"      // for terminal coloring\n//! chrono = \"0.4\"       // for date/time handling\n\nuse colored::*;\nfn main() {}\n";
    let m = parse_meta(src).unwrap();
    assert_eq!(
        m.dependencies,
        "[dependencies]\ncolored = \"3.1.1\"      // for terminal coloring\nchrono = \"0.4\"       // for date/time handling"
    );
}

#[test]
fn cargo_script_code_block() {
    let src = "//! ```cargo\n//! [dependencies]\n//! time = \"0.1.25\"\n//! ```\nfn main() {}\n";
    let m = parse_meta(src).unwrap();
    assert_eq!(m.dependencies, "[dependencies]\ntime = \"0.1.25\"");
}

#[test]
fn cargo_script_code_block_wins_over_block_comment() {
    let src = "/*\n[dependencies]\na = \"1\"\n*/\n//! ```cargo\n//! [dependencies]\n//! b = \"2\"\n//! ```\n";
    let m = parse_meta(src).unwrap();
    assert_eq!(m.dependencies, "[dependencies]\nb = \"2\"");
}

#[test]
fn cargo_script_short_comment() {
    let src = "#!/usr/bin/env run-cargo-script\n// cargo-deps: time=\"0.1.25\", colored=\"2.0\"\n\nextern crate time;\nfn main() {}\n";
    let m = parse_meta(src).unwrap();
    assert_eq!(m.dependencies, "[dependencies]\ntime = \"0.1.25\"\ncolored = \"2.0\"");
}

#[test]
fn cargo_script_short_comment_bare_names() {
    let m = parse_meta("//cargo-deps: regex, rand = 0.8\nfn main() {}").unwrap();
    assert_eq!(m.dependencies, "[dependencies]\nregex = \"*\"\nrand = \"0.8\"");
}

#[test]
fn cargo_play_lines() {
    let src = "//# serde_json = \"*\"\n//# anyhow = \"1.0\"\n//# regex\n\nuse serde_json::json;\n//# ignored = \"1\"\nfn main() {}\n";
    let m = parse_meta(src).unwrap();
    assert_eq!(
        m.dependencies,
        "[dependencies]\nserde_json = \"*\"\nanyhow = \"1.0\"\nregex = \"*\""
    );
}

#[test]
fn supported_edition_is_kept() {
    let m = parse_meta("/*\nedition = \"2018\"\n*/").unwrap();
    assert_eq!(m.edition, "2018");
}

#[test]
fn unsupported_edition_is_refused() {
    let r = parse_meta("/*\nedition = \"2019\"\n*/");
    assert_eq!(r, Err(MetaError::UnsupportedEdition("2019".to_string())));
}

#[test]
fn invalid_toml_is_refused() {
    match parse_meta("/*\n[dependencies\nserde = \n*/") {
        Err(MetaError::InvalidToml { fragment, detail }) => {
            assert_eq!(fragment, "[dependencies\nserde =");
            assert!(!detail.is_empty());
        }
        other => panic!("unexpected {:?}", other),
    }
}

#[test]
fn malformed_blocks_are_detected() {
    assert!(!metadata_readable("/**/"));
    assert!(!metadata_readable("/*/"));
    assert!(metadata_readable("/*!*/"));
    assert!(metadata_readable("/* */"));
    assert!(metadata_readable("fn main() {}"));
}

#[test]
fn strip_shebang_removes_first_line() {
    assert_eq!(strip_shebang("#!/usr/bin/env rfast\nfn main() {}"), "fn main() {}");
    assert_eq!(strip_shebang("#!/usr/bin/env rfast"), "");
    assert_eq!(strip_shebang("fn main() {}"), "fn main() {}");
}

#[test]
fn comments_replaced_outside_strings() {
    assert_eq!(replace_comments("a = 1 // note"), "a = 1 # note");
    assert_eq!(replace_comments("url = \"http://x\" // c"), "url = \"http://x\" # c");
    assert_eq!(replace_comments("a = 1"), "a = 1");
}

#[test]
fn dependencies_text_stops_at_other_section() {
    let f = "edition = \"2021\"\n[dependencies]\na = \"1\"\n  [dependencies.b]\n  version = \"2\"\n[features]\nx = []";
    assert_eq!(
        extract_dependencies_text(f),
        "[dependencies]\na = \"1\"\n  [dependencies.b]\n  version = \"2\""
    );
    assert_eq!(extract_dependencies_text("edition = \"2021\""), "");
}

#[test]
fn meta_from_reader_results() {
    let ok = TomlFields { edition: Some("2015".to_string()), features: FeaturesField::Absent };
    let m = meta_from_toml("[dependencies]\nx = \"1\"", Ok(ok)).unwrap();
    assert_eq!(m, meta("[dependencies]\nx = \"1\"", "", "2015"));

    let feats = TomlFields { edition: None, features: FeaturesField::Rendered("a = []\n".to_string()) };
    let m = meta_from_toml("[features]\na = []", Ok(feats)).unwrap();
    assert_eq!(m, meta("", "a = []\n", "2024"));

    let bad = TomlFields { edition: Some("2030".to_string()), features: FeaturesField::Absent };
    assert_eq!(
        meta_from_toml("edition = \"2030\"", Ok(bad)),
        Err(MetaError::UnsupportedEdition("2030".to_string()))
    );

    let unrenderable = TomlFields { edition: None, features: FeaturesField::Unrenderable("m".to_string()) };
    assert_eq!(
        meta_from_toml("features = 1", Ok(unrenderable)),
        Err(MetaError::FeaturesNotSerializable("m".to_string()))
    );

    assert_eq!(
        meta_from_toml("x =", Err("oops".to_string())),
        Err(MetaError::InvalidToml { detail: "oops".to_string(), fragment: "x =".to_string() })
    );
}

#[test]
fn scalar_features_cannot_be_rendered() {
    let r = parse_meta("/*\nfeatures = 1\n*/");
    assert!(matches!(r, Err(MetaError::FeaturesNotSerializable(ref msg)) if !msg.is_empty()));
}

#[test]
fn law_edition_is_supported_on_examples() {
    for src in ["", "/*\nedition = \"2015\"\n*/", "//! edition = \"2021\"", "//# a"] {
        let m = parse_meta(src).unwrap();
        assert!(["2015", "2018", "2021", "2024"].contains(&m.edition.as_str()));
    }
}

#[test]
fn law_script_without_comments_gets_defaults_example() {
    let m = parse_meta("#!/usr/bin/env rfast\nfn main() { let x = 1 * 2; }\n").unwrap();
    assert_eq!(m, meta("", "", "2024"));
}

#[test]
fn documentation_marker_is_the_character_after_the_opening() {
    let m = parse_meta("\u{3000}/*!\n[dependencies]\nfoo = \"1\"\n*/\nfn main() {}").unwrap();
    assert_eq!(m.dependencies, "[dependencies]\nfoo = \"1\"");
    let m = parse_meta("/**\n[dependencies]\nbar = \"2\"\n*/").unwrap();
    assert_eq!(m.dependencies, "[dependencies]\nbar = \"2\"");
    assert!(metadata_readable("\u{3000}/*!*/"));
}

#[test]
fn law_shebang_does_not_change_metadata_example() {
    let body = "/*\n[dependencies]\nserde = \"1\"\n*/\nfn main() {}\n";
    let with = format!("#!/usr/bin/env rfast\n{}", body);
    assert_eq!(parse_meta(&with).unwrap(), parse_meta(body).unwrap());
    assert_eq!(parse_meta(&format!("#!x\n{}", "fn main() {}")).unwrap(), parse_meta("fn main() {}").unwrap());
}

#[test]
fn invalid_toml_carries_the_reader_message() {
    match parse_meta("/*\n[dependencies\n*/") {
        Err(MetaError::InvalidToml { detail, fragment }) => {
            assert!(!detail.is_empty());
            assert_eq!(fragment, "[dependencies");
        }
        other => panic!("unexpected {:?}", other),
    }
}
