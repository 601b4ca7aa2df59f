use kuma_client::env_source::{
    environment_origin, insert_nested_segments, insert_value, normalize_key_segments,
    secret_target, strip_line_end_of, CollectProgress, EnvError, EnvText, EnvVar, Environment,
    SecretRead, SecretTarget,
};
use kuma_client::tree::{ConfigTable, ConfigValue};

fn pairs(items: &[(&str, &str)]) -> Vec<(String, String)> {
    items
        .iter()
        .map(|(k, v)| (k.to_string(), v.to_string()))
        .collect()
}

fn text(v: &ConfigValue) -> &str {
    match v {
        ConfigValue::Text(s) => s.as_str(),
        ConfigValue::Table(_) => panic!("expected a string"),
    }
}

fn table(v: &ConfigValue) -> &ConfigTable {
    match v {
        ConfigValue::Table(t) => t,
        ConfigValue::Text(_) => panic!("expected a table"),
    }
}

/// Collects with a pretend file system: `files` maps paths to contents;
/// the paths that it lacks fail to read. Returns the result and the files
/// that were asked for, in order.
fn collect_files(
    env: &Environment,
    vars: &Vec<EnvVar>,
    files: &[(&str, &str)],
) -> (Result<ConfigTable, EnvError>, Vec<String>) {
    let mut secrets: Vec<SecretRead> = Vec::new();
    let mut asked = Vec::new();
    loop {
        match env.checked_collect(vars, &secrets) {
            CollectProgress::Finished(r) => return (r, asked),
            CollectProgress::Panics => panic!("collecting must not cut a name inside a character"),
            CollectProgress::NeedsFile(path) => {
                assert!(!asked.contains(&path), "a file is asked for once");
                asked.push(path.clone());
                let contents = match files.iter().find(|(p, _)| *p == path) {
                    Some((_, c)) => Ok(c.to_string()),
                    None => Err("No such file or directory (os error 2)".to_string()),
                };
                secrets.push(SecretRead { path, contents });
            }
        }
    }
}

fn collect_all(env: &Environment, files: &[(&str, &str)]) -> Result<ConfigTable, EnvError> {
    collect_files(env, &Vec::new(), files).0
}

#[test]
fn collect_builds_nested_tables_from_separator() {
    let source = pairs(&[
        ("KUMA__URL", "http://localhost:3001"),
        ("KUMA__TLS__VERIFY", "false"),
    ]);

    let values = collect_all(
        &Environment::default().separator("__").source(Some(source)),
        &[],
    )
    .unwrap();

    let Some(kuma) = values.get("kuma") else {
        panic!("expected top-level kuma table");
    };

    let ConfigValue::Table(kuma) = kuma else {
        panic!("expected kuma to be a table");
    };

    let Some(url) = kuma.get("url") else {
        panic!("expected kuma.url value");
    };
    assert_eq!(url, &ConfigValue::Text("http://localhost:3001".into()));

    let Some(tls) = kuma.get("tls") else {
        panic!("expected kuma.tls table");
    };

    let ConfigValue::Table(tls) = tls else {
        panic!("expected kuma.tls to be a table");
    };

    let Some(verify) = tls.get("verify") else {
        panic!("expected kuma.tls.verify value");
    };
    assert_eq!(verify, &ConfigValue::Text("false".into()));
}

#[test]
fn collect_errors_on_scalar_table_path_conflict() {
    let source = pairs(&[
        ("KUMA", "http://localhost:3001"),
        ("KUMA__URL", "http://localhost:3002"),
    ]);

    let error = collect_all(
        &Environment::default().separator("__").source(Some(source)),
        &[],
    )
    .unwrap_err();

    assert!(error.message().contains("Conflicting config definition"));
}

#[test]
fn collect_errors_on_table_scalar_path_conflict() {
    let source = pairs(&[
        ("KUMA__URL", "http://localhost:3002"),
        ("KUMA", "http://localhost:3001"),
    ]);

    let error = collect_all(
        &Environment::default().separator("__").source(Some(source)),
        &[],
    )
    .unwrap_err();

    assert_eq!(
        error.message(),
        "Conflicting config definition for \"KUMA\"."
    );
}

#[test]
fn collect_ignores_empty_values_when_flag_set() {
    let source = pairs(&[("FOO__BAR", ""), ("FOO__BAZ", "present")]);

    let values = collect_all(
        &Environment::default()
            .separator("__")
            .ignore_empty(true)
            .source(Some(source)),
        &[],
    )
    .unwrap();

    let ConfigValue::Table(foo) = values.get("foo").expect("expected foo") else {
        panic!("expected foo table");
    };

    assert!(foo.get("bar").is_none(), "empty value should be ignored");
    assert!(foo.get("baz").is_some(), "non-empty value must be present");
}

#[test]
fn collect_keeps_empty_values_by_default() {
    let source = pairs(&[("FOO__BAR", "")]);
    let values = collect_all(
        &Environment::default().separator("__").source(Some(source)),
        &[],
    )
    .unwrap();
    let foo = table(values.get("foo").expect("expected foo"));
    assert_eq!(text(foo.get("bar").expect("expected bar")), "");
}

#[test]
fn collect_secret_file_replaces_value_with_file_contents() {
    let path = "/tmp/autokuma_test_secret_load.txt";
    let mut source = Vec::new();
    source.push(("FOO__PASSWORD".to_string(), format!("@{}", path)));
    let env = Environment::default()
        .separator("__")
        .secret_files(true)
        .source(Some(source));

    let (values, asked) = collect_files(&env, &Vec::new(), &[(path, "s3cr3t\n")]);
    assert_eq!(asked, vec![path.to_string()]);
    let values = values.unwrap();

    let ConfigValue::Table(foo) = values.get("foo").expect("expected foo") else {
        panic!("expected foo table");
    };
    let pw = foo.get("password").expect("expected password");
    assert_eq!(pw, &ConfigValue::Text("s3cr3t".into()));
}

#[test]
fn collect_secret_file_strips_single_trailing_newline() {
    let path = "/tmp/autokuma_test_secret_newline.txt";
    let source = vec![("KEY".to_string(), format!("@{}", path))];

    let values = collect_all(
        &Environment::default().secret_files(true).source(Some(source)),
        &[(path, "value\r\n")],
    )
    .unwrap();

    let v = values.get("key").expect("expected key");
    assert_eq!(v, &ConfigValue::Text("value".into()));
}

#[test]
fn collect_secret_file_escape_preserves_literal_at() {
    let source = pairs(&[("KEY", "@@/not/a/file")]);

    let env = Environment::default().secret_files(true).source(Some(source));
    let (values, asked) = collect_files(&env, &Vec::new(), &[]);
    assert!(asked.is_empty());
    let values = values.unwrap();

    let v = values.get("key").expect("expected key");
    assert_eq!(v, &ConfigValue::Text("@/not/a/file".into()));
}

#[test]
fn collect_secret_file_missing_returns_error() {
    let source = pairs(&[("KEY", "@/does/not/exist/autokuma_secret")]);
    let env = Environment::default().secret_files(true).source(Some(source));

    let (err, asked) = collect_files(&env, &Vec::new(), &[]);
    let err = err.unwrap_err();
    assert_eq!(asked, vec!["/does/not/exist/autokuma_secret".to_string()]);

    assert!(err.message().contains("failed to read secret file"));
    assert_eq!(
        err.message(),
        "failed to read secret file \"/does/not/exist/autokuma_secret\" for config key \"key\": No such file or directory (os error 2)"
    );
}

#[test]
fn collect_reads_only_the_files_of_taken_variables() {
    let vars = vec![
        EnvVar {
            key: Some("OTHER".to_string()),
            value: EnvText::Unicode("@/x".to_string()),
        },
        EnvVar {
            key: Some("APP_EMPTY".to_string()),
            value: EnvText::Unicode("".to_string()),
        },
        EnvVar {
            key: None,
            value: EnvText::Unicode("@/y".to_string()),
        },
        EnvVar {
            key: Some("APP_A".to_string()),
            value: EnvText::Unicode("@/a".to_string()),
        },
        EnvVar {
            key: Some("APP_B".to_string()),
            value: EnvText::Unicode("@/missing".to_string()),
        },
        EnvVar {
            key: Some("APP_C".to_string()),
            value: EnvText::Unicode("@/c".to_string()),
        },
    ];
    let env = Environment::with_prefix("app").ignore_empty(true).secret_files(true);
    let (r, asked) = collect_files(&env, &vars, &[("/a", "1"), ("/c", "3")]);
    // `/x` (no prefix) and `/y` (no Unicode name) are never read; `/c` is
    // not read because the failure of `/missing` ends the collection.
    assert_eq!(asked, vec!["/a".to_string(), "/missing".to_string()]);
    assert!(r.unwrap_err().message().contains("\"/missing\""));
}

#[test]
fn collect_secret_file_disabled_passes_through_at_value() {
    let source = pairs(&[("KEY", "@/some/path")]);

    let env = Environment::default().secret_files(false).source(Some(source));
    let (values, asked) = collect_files(&env, &Vec::new(), &[]);
    assert!(asked.is_empty());
    let values = values.unwrap();

    let v = values.get("key").expect("expected key");
    assert_eq!(v, &ConfigValue::Text("@/some/path".into()));
}

#[test]
fn collect_strips_prefix_and_skips_other_variables() {
    let vars = vec![
        EnvVar {
            key: Some("AUTOKUMA__KUMA__URL".to_string()),
            value: EnvText::Unicode("http://kuma:3001".to_string()),
        },
        EnvVar {
            key: Some("PATH".to_string()),
            value: EnvText::Unicode("/usr/bin".to_string()),
        },
        EnvVar {
            key: None,
            value: EnvText::Unicode("ignored".to_string()),
        },
    ];
    let env = Environment::with_prefix("autokuma").separator("__");
    assert!(env.reads_process_env());
    let values = collect_files(&env, &vars, &[]).0.unwrap();
    assert_eq!(values.entries.len(), 1);
    let kuma = table(values.get("kuma").expect("expected kuma"));
    assert_eq!(text(kuma.get("url").expect("expected url")), "http://kuma:3001");
}

#[test]
fn collect_keeps_prefix_when_asked() {
    let vars = vec![EnvVar {
        key: Some("APP_DEBUG".to_string()),
        value: EnvText::Unicode("1".to_string()),
    }];
    let env = Environment::with_prefix("app").keep_prefix(true);
    let values = collect_files(&env, &vars, &[]).0.unwrap();
    assert_eq!(text(values.get("app_debug").expect("expected app_debug")), "1");
}

#[test]
fn collect_uses_prefix_separator() {
    let vars = vec![EnvVar {
        key: Some("APP-DEBUG".to_string()),
        value: EnvText::Unicode("yes".to_string()),
    }];
    let env = Environment::with_prefix("app").prefix_separator("-");
    let values = collect_files(&env, &vars, &[]).0.unwrap();
    assert_eq!(text(values.get("debug").expect("expected debug")), "yes");
}

#[test]
fn collect_reports_non_unicode_value() {
    let vars = vec![EnvVar {
        key: Some("FOO".to_string()),
        value: EnvText::NonUnicode("\"fo\\xFFo\"".to_string()),
    }];
    let err = collect_files(&Environment::default(), &vars, &[]).0.unwrap_err();
    assert_eq!(
        err.message(),
        "env variable \"foo\" contains non-Unicode data: \"fo\\xFFo\""
    );
}

#[test]
fn collect_detects_a_prefix_cut_inside_a_character() {
    // The Kelvin sign lower-cases to `k`, but takes three bytes where the
    // prefix takes one: dropping the prefix would cut the character.
    let vars = vec![EnvVar {
        key: Some("\u{212A}_URL".to_string()),
        value: EnvText::Unicode("x".to_string()),
    }];
    let env = Environment::with_prefix("k");
    assert!(matches!(env.checked_collect(&vars, &Vec::new()), CollectProgress::Panics));
}

#[test]
fn collect_uses_the_source_over_the_process_environment() {
    let vars = vec![EnvVar {
        key: Some("OTHER".to_string()),
        value: EnvText::Unicode("x".to_string()),
    }];
    let env = Environment::default().source(Some(pairs(&[("MINE", "y")])));
    assert!(!env.reads_process_env());
    let values = collect_files(&env, &vars, &[]).0.unwrap();
    assert!(values.get("other").is_none());
    assert_eq!(text(values.get("mine").expect("expected mine")), "y");
}

#[test]
fn normalize_key_segments_drops_empty_pieces_and_lowercases() {
    assert_eq!(
        normalize_key_segments("__A____B__", "__"),
        vec!["a".to_string(), "b".to_string()]
    );
    assert_eq!(normalize_key_segments("A__B", ""), vec!["a__b".to_string()]);
    assert_eq!(
        normalize_key_segments("a___b", "__"),
        vec!["a".to_string(), "_b".to_string()]
    );
    assert!(normalize_key_segments("____", "__").is_empty());
}

#[test]
fn insert_value_without_segments_uses_the_lowercased_name() {
    let mut t = ConfigTable::new();
    insert_value(&mut t, "____".to_string(), ConfigValue::Text("v".to_string()), "__").unwrap();
    assert_eq!(text(t.get("____").unwrap()), "v");
    insert_value(&mut t, "A__B".to_string(), ConfigValue::Text("w".to_string()), "").unwrap();
    assert_eq!(text(t.get("a__b").unwrap()), "w");
}

#[test]
fn insert_nested_overwrites_strings_and_refuses_tables() {
    let mut t = ConfigTable::new();
    let path = vec!["a".to_string(), "b".to_string()];
    insert_nested_segments(&mut t, &path, ConfigValue::Text("1".to_string()), "A__B").unwrap();
    insert_nested_segments(&mut t, &path, ConfigValue::Text("2".to_string()), "A__B").unwrap();
    let a = table(t.get("a").unwrap());
    assert_eq!(a.entries.len(), 1);
    assert_eq!(text(a.get("b").unwrap()), "2");

    let err = insert_nested_segments(
        &mut t,
        &["a".to_string()],
        ConfigValue::Text("3".to_string()),
        "A",
    )
    .unwrap_err();
    assert_eq!(err.message(), "Conflicting config definition for \"A\".");
    assert_eq!(text(table(t.get("a").unwrap()).get("b").unwrap()), "2");
}

#[test]
fn secret_references() {
    assert!(matches!(secret_target("@@/x"), SecretTarget::Literal(s) if s == "@/x"));
    assert!(matches!(secret_target("@/x"), SecretTarget::File(s) if s == "/x"));
    assert!(matches!(secret_target("x@/"), SecretTarget::Literal(s) if s == "x@/"));
    assert_eq!(strip_line_end_of("a\n\n"), "a\n");
    assert_eq!(strip_line_end_of("a\r\n"), "a");
    assert_eq!(strip_line_end_of("a"), "a");
    assert_eq!(strip_line_end_of("a\r"), "a\r");
}

#[test]
fn values_come_from_the_environment() {
    assert_eq!(environment_origin(), "the environment");
}

#[test]
fn collect_failure_does_not_depend_on_order() {
    let orders: [&[(&str, &str)]; 2] = [
        &[("A__B", "1"), ("X__Y", "2"), ("A__B__C", "3")],
        &[("A__B__C", "3"), ("X__Y", "2"), ("A__B", "1")],
    ];
    for order in orders {
        let r = collect_all(&Environment::default().separator("__").source(Some(pairs(order))), &[]);
        assert!(r.unwrap_err().message().contains("Conflicting config definition"));
    }
    let orders: [&[(&str, &str)]; 2] = [
        &[("A__B", "1"), ("A__C", "2"), ("X", "3")],
        &[("X", "3"), ("A__C", "2"), ("A__B", "1")],
    ];
    for order in orders {
        let values = collect_all(&Environment::default().separator("__").source(Some(pairs(order))), &[]).unwrap();
        let a = table(values.get("a").unwrap());
        assert_eq!(text(a.get("b").unwrap()), "1");
        assert_eq!(text(a.get("c").unwrap()), "2");
        assert_eq!(text(values.get("x").unwrap()), "3");
        assert_eq!(values.entries.len(), 2);
    }
}

#[test]
fn normalize_key_segments_has_one_piece_more_than_separators_at_most() {
    let segs = normalize_key_segments("A__B__C", "__");
    assert_eq!(segs.len(), 3);
    assert!(segs.iter().all(|s| !s.is_empty()));
    assert_eq!(normalize_key_segments("A____B", "__").len(), 2);
}

#[test]
fn collect_drops_exactly_an_ascii_prefix() {
    let vars = vec![EnvVar {
        key: Some("AutoKuma__Kuma__Url".to_string()),
        value: EnvText::Unicode("u".to_string()),
    }];
    let env = Environment::with_prefix("AUTOKUMA").separator("__");
    let values = collect_files(&env, &vars, &[]).0.unwrap();
    let kuma = table(values.get("kuma").unwrap());
    assert_eq!(text(kuma.get("url").unwrap()), "u");
}

#[test]
fn collect_stores_names_without_segments_beside_nested_ones() {
    // `____` has no segment under `__`: it is stored under its own name and
    // never meets the table `a`, in either order.
    let orders: [&[(&str, &str)]; 2] = [
        &[("____", "flat"), ("A__B", "1"), ("__", "also flat")],
        &[("__", "also flat"), ("A__B", "1"), ("____", "flat")],
    ];
    for order in orders {
        let values = collect_all(&Environment::default().separator("__").source(Some(pairs(order))), &[]).unwrap();
        assert_eq!(text(values.get("____").unwrap()), "flat");
        assert_eq!(text(values.get("__").unwrap()), "also flat");
        assert_eq!(text(table(values.get("a").unwrap()).get("b").unwrap()), "1");
        assert_eq!(values.entries.len(), 3);
    }
    // A conflict among the names with segments is still found.
    let r = collect_all(
        &Environment::default().separator("__").source(Some(pairs(&[("__", "x"), ("A", "1"), ("A__B", "2")]))),
        &[],
    );
    assert_eq!(r.unwrap_err().message(), "Conflicting config definition for \"A__B\".");
}

#[test]
fn collect_secret_file_error_names_path_and_key_only() {
    let source = pairs(&[("DB__PASSWORD", "@/run/secrets/db")]);
    let env = Environment::default().separator("__").secret_files(true).source(Some(source));
    let (err, asked) = collect_files(&env, &Vec::new(), &[]);
    assert_eq!(asked, vec!["/run/secrets/db".to_string()]);
    assert_eq!(
        err.unwrap_err().message(),
        "failed to read secret file \"/run/secrets/db\" for config key \"db__password\": No such file or directory (os error 2)"
    );
}
