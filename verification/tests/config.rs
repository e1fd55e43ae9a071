use nebulang::engine::config::{extract_config, Config};

fn arguments(items: &[&str]) -> Vec<String> {
    items.iter().map(|item| String::from(*item)).collect()
}

#[test]
fn source_and_target_make_a_configuration() {
    let config = extract_config(&arguments(&["prog", "--src", "a.neb", "--out", "a.out"]));
    assert_eq!(
        config,
        Ok(Config {
            src: String::from("a.neb"),
            out: String::from("a.out"),
            origin: String::from("."),
            debbuging: false,
            low_mem: false,
            string_delimiter: '"',
        })
    );
}

#[test]
fn flags_set_the_reader_and_the_delimiter() {
    let config =
        extract_config(&arguments(&["--low-mem", "--qq", "ab'", "--out", "o", "--src", "s"]))
            .unwrap();
    assert!(config.low_mem);
    assert_eq!(config.string_delimiter, '\'');
    assert_eq!(config.src, "s");
    assert_eq!(config.out, "o");
}

#[test]
fn a_flag_at_the_end_takes_its_fallback() {
    let config = extract_config(&arguments(&["--out", "o", "--src"])).unwrap();
    assert_eq!(config.src, "./src");
    let config = extract_config(&arguments(&["--src", "--out"])).unwrap();
    assert_eq!(config.src, "--out");
    assert_eq!(config.out, "./target");
    let config = extract_config(&arguments(&["--src", "s", "--out", "o", "--qq"])).unwrap();
    assert_eq!(config.string_delimiter, '"');
}

#[test]
fn without_source_or_target_there_is_no_configuration() {
    let message = Err(String::from("No configuration provided!"));
    assert_eq!(extract_config(&arguments(&[])), message);
    assert_eq!(extract_config(&arguments(&["--src", "a"])), message);
    assert_eq!(extract_config(&arguments(&["--out", "a", "--low-mem"])), message);
    assert_eq!(extract_config(&arguments(&["--qq", ""])), message);
}
