use minigrep::Config;
use minigrep::matching_lines;

fn tokens(words: &[&str]) -> Vec<String> {
    words.iter().map(|w| w.to_string()).collect()
}

#[test]
fn resolves_query_and_path() {
    let args = tokens(&["-q", "duct", "-p", "poem.txt"]);
    let (query, file_path, ignore_case) = Config::parse_arguements(&args, false).unwrap();
    assert_eq!("duct", query);
    assert_eq!("poem.txt", file_path);
    assert_eq!("0", ignore_case);
}

#[test]
fn resolves_long_flags() {
    let args = tokens(&["--query", "duct", "--path", "poem.txt"]);
    let (query, file_path, ignore_case) = Config::parse_arguements(&args, false).unwrap();
    assert_eq!("duct", query);
    assert_eq!("poem.txt", file_path);
    assert_eq!("0", ignore_case);
}

#[test]
fn missing_query_fails_with_exact_message() {
    let args = tokens(&["-p", "poem.txt"]);
    assert_eq!(
        Err("Didn't get a query string"),
        Config::parse_arguements(&args, false)
    );
    assert_eq!(
        Err("Didn't get a query string"),
        Config::parse_arguements(&Vec::new(), true)
    );
}

#[test]
fn query_flag_without_value_fails() {
    let args = tokens(&["-p", "poem.txt", "-q"]);
    assert_eq!(
        Err("Didn't get a query string"),
        Config::parse_arguements(&args, false)
    );
}

#[test]
fn missing_path_fails_with_exact_message() {
    let args = tokens(&["-q", "duct"]);
    assert_eq!(
        Err("Didn't get a file path"),
        Config::parse_arguements(&args, false)
    );
    let dangling = tokens(&["-q", "duct", "--path"]);
    assert_eq!(
        Err("Didn't get a file path"),
        Config::parse_arguements(&dangling, false)
    );
}

#[test]
fn ignore_case_flag_overrides_environment_default() {
    let on = tokens(&["-q", "a", "-p", "f", "-i", "true"]);
    let (_, _, ignore_case) = Config::parse_arguements(&on, false).unwrap();
    assert_eq!("1", ignore_case);

    let off = tokens(&["-q", "a", "-p", "f", "--ignore_case", "false"]);
    let (_, _, ignore_case) = Config::parse_arguements(&off, true).unwrap();
    assert_eq!("0", ignore_case);
}

#[test]
fn environment_default_used_without_flag() {
    let args = tokens(&["-q", "a", "-p", "f"]);
    let (_, _, ignore_case) = Config::parse_arguements(&args, true).unwrap();
    assert_eq!("1", ignore_case);
}

#[test]
fn bad_ignore_case_value_fails() {
    let args = tokens(&["-q", "a", "-p", "f", "-i", "yes"]);
    assert_eq!(
        Err("wrong input after -i or --ignore_case"),
        Config::parse_arguements(&args, false)
    );
    let dangling = tokens(&["-q", "a", "-p", "f", "-i"]);
    assert_eq!(
        Err("wrong input after -i or --ignore_case"),
        Config::parse_arguements(&dangling, false)
    );
}

#[test]
fn unrecognized_token_fails() {
    let args = tokens(&["-q", "a", "-x", "f"]);
    assert_eq!(
        Err("Illegal arguments"),
        Config::parse_arguements(&args, false)
    );
}

#[test]
fn later_flag_overrides_earlier_value() {
    let args = tokens(&["-q", "first", "-p", "f", "-q", "second"]);
    let (query, _, _) = Config::parse_arguements(&args, false).unwrap();
    assert_eq!("second", query);
}

#[test]
fn build_produces_config() {
    let args = tokens(&["-q", "duct", "-p", "poem.txt", "-i", "true"]);
    let config = Config::build(&args, false).unwrap();
    assert_eq!("duct", config.query);
    assert_eq!("poem.txt", config.file_path);
    assert_eq!("1", config.ignore_case);
}

#[test]
fn build_reports_resolution_errors() {
    assert!(Config::build(&tokens(&["-p", "f"]), false).is_err());
}

#[test]
fn matching_lines_follows_the_toggle() {
    let contents = "Rust:\nsafe, fast, productive.\nPick three.\nDuct tape.";
    let sensitive = Config {
        query: "duct".to_string(),
        file_path: "poem.txt".to_string(),
        ignore_case: "0".to_string(),
    };
    assert_eq!(
        vec!["safe, fast, productive."],
        matching_lines(&sensitive, contents)
    );
    let insensitive = Config {
        query: "duct".to_string(),
        file_path: "poem.txt".to_string(),
        ignore_case: "1".to_string(),
    };
    assert_eq!(
        vec!["safe, fast, productive.", "Duct tape."],
        matching_lines(&insensitive, contents)
    );
}
