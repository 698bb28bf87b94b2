use bullet::cli::{escape, manifest, strategy_package, wrapper, ArgumentError, Arguments};

fn arguments(values: &[&str]) -> Vec<String> {
    values.iter().map(|value| value.to_string()).collect()
}

#[test]
fn a_run_names_a_strategy_and_a_configuration() {
    assert_eq!(
        Arguments::parse(&arguments(&["run", "dual_ma.rs", "--config", "im8888.toml"])),
        Ok(Arguments {
            strategy: "dual_ma.rs".into(),
            config: "im8888.toml".into(),
        })
    );
    for values in [
        &["run"][..],
        &["run", "a.rs"][..],
        &["run", "a.rs", "--configuration", "b.toml"][..],
        &["run", "a.rs", "--config"][..],
        &["run", "a.rs", "--config", "b.toml", "c"][..],
        &["walk", "a.rs", "--config", "b.toml"][..],
        &[][..],
    ] {
        assert_eq!(
            Arguments::parse(&arguments(values)),
            Err(ArgumentError::Usage)
        );
    }
    assert_eq!(
        ArgumentError::Usage.to_text(),
        "usage: bullet run <strategy.rs> --config <backtest.toml>"
    );
}

#[test]
fn paths_are_escaped_inside_quotation_marks() {
    assert_eq!(escape("C:\\a \"b\".rs"), "C:\\\\a \\\"b\\\".rs");
    assert_eq!(escape("\\\""), "\\\\\\\"");
    assert_eq!(escape(""), "");
}

#[test]
fn a_package_is_written_around_a_strategy() {
    assert_eq!(strategy_package("0123"), "bullet-strategy-0123");
    assert_eq!(
        manifest("bullet-strategy-0123", "/crates/bullet"),
        "[package]\nname = \"bullet-strategy-0123\"\nversion = \"0.0.0\"\nedition = \"2024\"\n\n[dependencies]\nbullet = { path = \"/crates/bullet\" }\n"
    );
    let program = wrapper("/a/\"b\".rs");
    assert!(program.starts_with("#[path = \"/a/\\\"b\\\".rs\"]\nmod user_strategy;\n\nfn main() {\n"));
    assert!(program.contains("        eprintln!(\"bullet: {error}\");\n"));
    assert!(program.ends_with("    }\n}\n"));
}
