use rfast::cache::CacheLayout;
use rfast::parser::{parse_meta, ScriptMeta};
use rfast::runner::{
    add_dep, add_dep_applicable, built_binary_path, eval_hash, eval_manifest, eval_source,
    eval_step, generate_cargo_toml, new_script_template, parse_dep_spec, plan_compile, run, DepSpec,
    EvalStep,
};

fn dep(name: &str, version: &str, features: &[&str]) -> DepSpec {
    DepSpec {
        name: name.to_string(),
        version: version.to_string(),
        features: features.iter().map(|f| f.to_string()).collect(),
    }
}

#[test]
fn dep_specs_from_arguments() {
    assert_eq!(parse_dep_spec("regex"), dep("regex", "*", &[]));
    assert_eq!(parse_dep_spec(" tokio = 1 "), dep("tokio", "1", &[]));
    assert_eq!(parse_dep_spec("serde=1.0,derive, rc"), dep("serde", "1.0", &["derive", "rc"]));
}

#[test]
fn manifest_for_script() {
    let m = ScriptMeta {
        dependencies: "[dependencies]\nserde = \"1\" // json\n\n   // only a comment\nrand = \"0.8\"".to_string(),
        features: String::new(),
        edition: "2021".to_string(),
    };
    assert_eq!(
        generate_cargo_toml(&m, false),
        "[package]\nname = \"script\"\nversion = \"0.1.0\"\nedition = \"2021\"\n\n[dependencies]\nserde = \"1\" \nrand = \"0.8\"\n"
    );
}

#[test]
fn manifest_with_features_and_cranelift() {
    let m = ScriptMeta { dependencies: String::new(), features: "default = []\n".to_string(), edition: "2024".to_string() };
    assert_eq!(
        generate_cargo_toml(&m, true),
        "[package]\nname = \"script\"\nversion = \"0.1.0\"\nedition = \"2024\"\n\n[features]\ndefault = []\n\n[profile.dev]\nopt-level = 0\ndebug = false\n\n"
    );
}

#[test]
fn compile_plan_for_script() {
    let l = CacheLayout { root: "/c/rfast".to_string() };
    let src = "#!/usr/bin/env rfast\n/*\n[dependencies]\nserde = \"1\"\n*/\nfn main() {}\n";
    let p = plan_compile(&l, "h1", src, true, true).unwrap();
    assert_eq!(p.project_dir, "/c/rfast/h1");
    assert_eq!(p.src_dir, "/c/rfast/h1/src");
    assert_eq!(p.manifest_path, "/c/rfast/h1/Cargo.toml");
    assert_eq!(p.main_path, "/c/rfast/h1/src/main.rs");
    assert_eq!(p.main_source, "/*\n[dependencies]\nserde = \"1\"\n*/\nfn main() {}\n");
    assert_eq!(
        p.manifest,
        "[package]\nname = \"script\"\nversion = \"0.1.0\"\nedition = \"2024\"\n\n[dependencies]\nserde = \"1\"\n[profile.dev]\nopt-level = 0\ndebug = false\n\n"
    );
    let (dir, file, text) = p.cranelift.unwrap();
    assert_eq!(dir, "/c/rfast/h1/.cargo");
    assert_eq!(file, "/c/rfast/h1/.cargo/config.toml");
    assert_eq!(text, "[unstable]\ncodegen-backend = true\n\n[profile.dev]\ncodegen-backend = \"cranelift\"\n");
    assert_eq!(p.cargo_args, vec!["build".to_string(), "--release".to_string()]);
}

#[test]
fn compile_plan_reports_metadata_errors() {
    let l = CacheLayout { root: "/c".to_string() };
    assert!(plan_compile(&l, "h", "/* edition = \"1999\" */", false, false).is_err());
    let p = plan_compile(&l, "h", "fn main() {}", false, false).unwrap();
    assert!(p.cranelift.is_none());
    assert_eq!(p.cargo_args, vec!["build".to_string()]);
}

#[test]
fn run_decisions() {
    let h = "e3b0c44298fc1c149afbf4c8996fb92427ae41e4649b934ca495991b7852b855";
    let p = run(false, true, true, h);
    assert!(!p.compile);
    assert_eq!(p.cache_hit_note.as_deref(), Some("cache hit · e3b0c44298fc"));
    let p = run(true, true, true, h);
    assert!(p.compile && p.cache_hit_note.is_none());
    let p = run(false, false, false, h);
    assert!(p.compile);
    let p = run(false, true, false, h);
    assert!(!p.compile && p.cache_hit_note.is_none());
}

#[test]
fn built_binary_locations() {
    let l = CacheLayout { root: "/c".to_string() };
    assert_eq!(built_binary_path(&l, "h", true), "/c/h/target/release/script");
    assert_eq!(built_binary_path(&l, "h", false), "/c/h/target/debug/script");
}

#[test]
fn template_of_new_script() {
    assert_eq!(
        new_script_template("hello"),
        "#!/usr/bin/env rfast\n/*\n[dependencies]\n# add crates here, e.g.:\n# colored = \"2.0\"\n*/\n\nfn main() {\n    println!(\"Hello from hello!\");\n}\n"
    );
}

#[test]
fn add_dep_after_existing_header() {
    let src = "#!/usr/bin/env rfast\n/*\n[dependencies]\n*/\nfn main() {}\n";
    assert_eq!(
        add_dep(src, "serde", "1"),
        "#!/usr/bin/env rfast\n/*\n[dependencies]\nserde = \"1\"\n*/\nfn main() {}\n"
    );
}

#[test]
fn add_dep_without_block() {
    assert_eq!(
        add_dep("fn main() {}\n", "serde", "*"),
        "/*\n[dependencies]\nserde = \"*\"\n*/\n\nfn main() {}\n"
    );
    assert_eq!(
        add_dep("#!/usr/bin/env rfast\nfn main() {}\n", "x", "2"),
        "#!/usr/bin/env rfast\n/*\n[dependencies]\nx = \"2\"\n*/\n\nfn main() {}\n"
    );
}

#[test]
fn add_dep_block_without_header() {
    assert_eq!(
        add_dep("/* edition = \"2021\" */\nfn main(){}", "x", "1"),
        "/* edition = \"2021\" \n[dependencies]\nx = \"1\"\n*/\nfn main(){}"
    );
    assert_eq!(
        add_dep("/*\nedition = \"2021\"\n*/\n", "x", "1"),
        "/*\nedition = \"2021\"\n[dependencies]\nx = \"1\"\n*/\n"
    );
}

#[test]
fn add_dep_inputs_that_cannot_be_edited() {
    assert!(!add_dep_applicable("#!/usr/bin/env rfast"));
    assert!(!add_dep_applicable("/*/ x */"));
    assert!(add_dep_applicable("fn main() {}"));
    assert!(add_dep_applicable("/**/"));
}

#[test]
fn law_add_dep_keeps_script_example() {
    let src = "#!/usr/bin/env rfast\n/*\n[dependencies]\na = \"1\"\n*/\nfn main() { work(); }\n";
    let out = add_dep(src, "serde", "1.0");
    assert!(out.starts_with("#!/usr/bin/env rfast\n"));
    assert!(out.ends_with("\nfn main() { work(); }\n"));
    assert!(out.contains("serde = \"1.0\""));
}

#[test]
fn law_added_dependency_is_read_back_example() {
    for src in [
        "#!/usr/bin/env rfast\n/*\n[dependencies]\na = \"1\"\n*/\nfn main() {}\n",
        "fn main() {}\n",
        "/*\nedition = \"2021\"\n*/\nfn main() {}\n",
    ] {
        let out = add_dep(src, "serde", "1.0");
        let m = parse_meta(&out).unwrap();
        assert!(m.dependencies.lines().any(|l| l == "serde = \"1.0\""), "{}", out);
    }
}

#[test]
fn law_dep_spec_round_trip_example() {
    assert_eq!(parse_dep_spec("anyhow=1.0"), dep("anyhow", "1.0", &[]));
}

#[test]
fn law_manifest_dependency_lines_are_clean_example() {
    let m = ScriptMeta {
        dependencies: "[dependencies] // deps\na = \"1\" // x\n   \n".to_string(),
        features: String::new(),
        edition: "2024".to_string(),
    };
    let toml = generate_cargo_toml(&m, false);
    assert!(!toml.contains("//"));
    assert!(!toml.contains("\n   \n"));
}

#[test]
fn eval_program_source() {
    assert_eq!(
        eval_source("println!(\"hi\")", &["std::io".to_string()]),
        "#[allow(unused_imports)]\nuse std::io;\n\nfn main() {\n    println!(\"hi\")\n}"
    );
    assert_eq!(eval_source("  fn main() {}", &[]), "  fn main() {}");
}

#[test]
fn eval_manifest_lists_dependencies() {
    assert_eq!(
        eval_manifest(&[dep("serde", "1", &["derive", "rc"]), dep("rand", "0.8", &[])]),
        "[package]\nname = \"rfast-eval\"\nversion = \"0.1.0\"\nedition = \"2024\"\n\n[dependencies]\nserde = { version = \"1\", features = [\"derive\", \"rc\"] }\nrand = \"0.8\"\n\n"
    );
}

#[test]
fn eval_hash_covers_code_deps_and_imports() {
    assert_eq!(
        eval_hash("abc", &[], &[]),
        "ba7816bf8f01cfea414140de5dae2223b00361a396177a9cb410ff61f20015ad"
    );
    // the pieces are hashed one after the other
    assert_eq!(eval_hash("a", &[dep("b", "c", &[])], &[]), eval_hash("abc", &[], &[]));
    assert_eq!(eval_hash("a", &[], &["bc".to_string()]), eval_hash("abc", &[], &[]));
    assert_ne!(eval_hash("abc", &[], &[]), eval_hash("abd", &[], &[]));
}

#[test]
fn eval_steps() {
    assert_eq!(eval_step(false, true, 3), EvalStep::RunCached);
    assert_eq!(eval_step(true, true, 0), EvalStep::CompileWithRustc);
    assert_eq!(eval_step(false, false, 2), EvalStep::CompileWithCargo);
}

#[test]
fn manifest_keeps_urls_in_strings() {
    let m = ScriptMeta {
        dependencies: "[dependencies]\nfoo = { git = \"https://github.com/a/foo\" }".to_string(),
        features: String::new(),
        edition: "2024".to_string(),
    };
    let toml = generate_cargo_toml(&m, false);
    assert!(toml.contains("\nfoo = { git = \"https://github.com/a/foo\" }\n"));
    let m2 = ScriptMeta {
        dependencies: "[dependencies]\nbar = { git = \"https://x.org/bar\" } // pinned".to_string(),
        features: String::new(),
        edition: "2024".to_string(),
    };
    assert!(generate_cargo_toml(&m2, false).contains("\nbar = { git = \"https://x.org/bar\" } \n"));
}

#[test]
fn eval_hash_is_sixty_four_hex_digits() {
    let h = eval_hash("println!(\"hi\");", &[dep("rand", "0.8", &["small_rng"])], &["std::io".to_string()]);
    assert_eq!(h.len(), 64);
    assert!(h.chars().all(|c| c.is_ascii_digit() || ('a'..='f').contains(&c)));
}

#[test]
fn law_template_metadata_is_read_back_example() {
    let m = parse_meta(&new_script_template("demo")).unwrap();
    assert_eq!(m.dependencies, "[dependencies]\n# add crates here, e.g.:\n# colored = \"2.0\"");
    assert_eq!(m.edition, "2024");
    assert_eq!(m.features, "");
}

#[test]
fn law_add_dep_only_inserts_example() {
    let src = "#!/usr/bin/env rfast\n/*\n[dependencies]\nrand = \"0.8\"\n*/\nfn main() {}\n";
    let out = add_dep(src, "serde", "1");
    let pos = "#!/usr/bin/env rfast\n/*\n[dependencies]".len();
    assert_eq!(out, format!("{}{}{}", &src[..pos], "\nserde = \"1\"", &src[pos..]));
    let plain = "fn main() {}\n";
    assert_eq!(add_dep(plain, "a", "2"), format!("/*\n[dependencies]\na = \"2\"\n*/\n\n{}", plain));
}

fn deps_lines(src: &str) -> Vec<String> {
    parse_meta(src).unwrap().dependencies.lines().map(|l| l.trim().to_string()).collect()
}

#[test]
fn add_dep_into_doc_lines() {
    let src = "//! [dependencies]\n//! anyhow = \"1\"\nfn main() {}\n";
    let out = add_dep(src, "serde", "1.0");
    assert_eq!(out, "//! [dependencies]\n//! serde = \"1.0\"\n//! anyhow = \"1\"\nfn main() {}\n");
    let d = deps_lines(&out);
    assert!(d.contains(&"anyhow = \"1\"".to_string()) && d.contains(&"serde = \"1.0\"".to_string()));
    let no_header = "//! edition = \"2021\"\nfn main() {}";
    assert_eq!(
        add_dep(no_header, "serde", "1"),
        "//! edition = \"2021\"\n//! [dependencies]\n//! serde = \"1\"\nfn main() {}"
    );
    assert_eq!(add_dep("//! edition = \"2021\"", "a", "1"), "//! edition = \"2021\"\n//! [dependencies]\n//! a = \"1\"\n");
}

#[test]
fn add_dep_into_play_lines() {
    let src = "//# anyhow = \"1\"\n\nfn main() {}\n";
    let out = add_dep(src, "serde", "1.0");
    assert_eq!(out, "//# anyhow = \"1\"\n//# serde = \"1.0\"\n\nfn main() {}\n");
    let d = deps_lines(&out);
    assert!(d.contains(&"anyhow = \"1\"".to_string()) && d.contains(&"serde = \"1.0\"".to_string()));
}

#[test]
fn add_dep_into_deps_comment() {
    let src = "// cargo-deps: time=\"0.1.25\"\nfn main() {}\n";
    let out = add_dep(src, "serde", "1.0");
    assert_eq!(out, "// cargo-deps: time=\"0.1.25\", serde=\"1.0\"\nfn main() {}\n");
    let d = deps_lines(&out);
    assert!(d.contains(&"time = \"0.1.25\"".to_string()) && d.contains(&"serde = \"1.0\"".to_string()));
}

#[test]
fn add_dep_into_code_block() {
    let src = "//! ```cargo\n//! [dependencies]\n//! time = \"0.1.25\"\n//! ```\nfn main() {}\n";
    let out = add_dep(src, "serde", "1.0");
    assert_eq!(out, "//! ```cargo\n//! [dependencies]\n//! serde = \"1.0\"\n//! time = \"0.1.25\"\n//! ```\nfn main() {}\n");
    let d = deps_lines(&out);
    assert!(d.contains(&"time = \"0.1.25\"".to_string()) && d.contains(&"serde = \"1.0\"".to_string()));
    let no_header = "//! ```cargo\n//! edition = \"2021\"\n//! ```\nfn main() {}\n";
    let out = add_dep(no_header, "serde", "1.0");
    let m = parse_meta(&out).unwrap();
    assert_eq!(m.edition, "2021");
    assert!(m.dependencies.contains("serde = \"1.0\""));
}

#[test]
fn add_dep_keeps_edition_of_a_block() {
    let out = add_dep("/*\nedition = \"2021\"\n*/\nfn main() {}\n", "serde", "1");
    let m = parse_meta(&out).unwrap();
    assert_eq!(m.edition, "2021");
    assert!(m.dependencies.contains("serde = \"1\""));
}

#[test]
fn inner_attribute_is_not_a_shebang() {
    let src = "#![allow(unused)]\nfn main() {}";
    assert_eq!(rfast::parser::strip_shebang(src), src);
    let out = add_dep(src, "x", "1");
    assert_eq!(out, "/*\n[dependencies]\nx = \"1\"\n*/\n\n#![allow(unused)]\nfn main() {}");
}

#[test]
fn law_added_doc_line_is_read_back_example() {
    let src = "#!/usr/bin/env rfast\n//! [dependencies]\n//! anyhow = \"1\"\n//! [features]\n//! default = []\nfn main() {}\n";
    let out = add_dep(src, "serde", "1.0");
    let m = parse_meta(&out).unwrap();
    assert_eq!(m.dependencies, "[dependencies]\nserde = \"1.0\"\nanyhow = \"1\"");
    assert_eq!(m.features, parse_meta(src).unwrap().features);
}

#[test]
fn law_added_play_line_is_read_back_example() {
    let src = "//# anyhow = \"1\"\n//# regex\nfn main() {}\n";
    let out = add_dep(src, "serde", "1.0");
    assert_eq!(
        parse_meta(&out).unwrap().dependencies,
        "[dependencies]\nanyhow = \"1\"\nserde = \"1.0\"\nregex = \"*\""
    );
}

#[test]
fn law_block_without_header_keeps_its_content_example() {
    let src = "/*\nedition = \"2018\"\n[features]\ndefault = []\n*/\nfn main() {}\n";
    let out = add_dep(src, "serde", "1");
    assert!(out.starts_with("/*\nedition = \"2018\"\n[features]\ndefault = []\n[dependencies]\nserde = \"1\"\n*/"));
    let m = parse_meta(&out).unwrap();
    assert_eq!(m.edition, "2018");
    assert_eq!(m.features, parse_meta(src).unwrap().features);
}

#[test]
fn inner_attribute_reaches_main_source() {
    let l = CacheLayout { root: "/c".to_string() };
    let src = "#![allow(unused)]\nfn main() {}\n";
    let p = plan_compile(&l, "h", src, false, false).unwrap();
    assert_eq!(p.main_source, src);
}
