use pscan::arguments::parser::ParsedArgs;

#[test]
fn no_flags_passed() {
    let args: Vec<String> = vec!["./search_path".to_string(), "search_query".to_string()];
    let parsed = match ParsedArgs::new(&args) {
        Ok(p) => p,
        Err(_) => panic!("Arg parsing failed"),
    };
    assert!(!parsed.recursive);
    assert!(parsed.case_sensitive);
    assert_eq!(parsed.context_before, 0);
    assert_eq!(parsed.context_after, 0);
    assert!(parsed.include_file_types.is_none());
    assert!(parsed.exclude_file_types.is_none());
}

#[test]
fn recursion_flag_passed() {
    let args: Vec<String> = vec![
        "-r".to_string(),
        "./search_path".to_string(),
        "search_query".to_string(),
    ];
    let parsed = match ParsedArgs::new(&args) {
        Ok(p) => p,
        Err(_) => panic!("Arg parsing failed"),
    };
    assert!(parsed.recursive);
    assert!(parsed.case_sensitive);
    assert_eq!(parsed.context_before, 0);
    assert_eq!(parsed.context_after, 0);
    assert!(parsed.include_file_types.is_none());
    assert!(parsed.exclude_file_types.is_none());
}

#[test]
fn context_after_flag_passed() {
    let args: Vec<String> = vec![
        "./search_path".to_string(),
        "search_query".to_string(),
        "-A".to_string(),
        "3".to_string(),
    ];
    let parsed = match ParsedArgs::new(&args) {
        Ok(p) => p,
        Err(_) => panic!("Arg parsing failed"),
    };
    assert!(!parsed.recursive);
    assert!(parsed.case_sensitive);
    assert_eq!(parsed.context_before, 0);
    assert_eq!(parsed.context_after, 3);
    assert!(parsed.include_file_types.is_none());
    assert!(parsed.exclude_file_types.is_none());
}

#[test]
fn context_before_flag_passed() {
    let args: Vec<String> = vec![
        "./search_path".to_string(),
        "search_query".to_string(),
        "-B".to_string(),
        "3".to_string(),
    ];
    let parsed = match ParsedArgs::new(&args) {
        Ok(p) => p,
        Err(_) => panic!("Arg parsing failed"),
    };
    assert!(!parsed.recursive);
    assert!(parsed.case_sensitive);
    assert_eq!(parsed.context_before, 3);
    assert_eq!(parsed.context_after, 0);
    assert!(parsed.include_file_types.is_none());
    assert!(parsed.exclude_file_types.is_none());
}

#[test]
fn context_before_and_after_flag_passed() {
    let args: Vec<String> = vec![
        "./search_path".to_string(),
        "search_query".to_string(),
        "-C".to_string(),
        "3".to_string(),
    ];
    let parsed = match ParsedArgs::new(&args) {
        Ok(p) => p,
        Err(_) => panic!("Arg parsing failed"),
    };
    assert!(!parsed.recursive);
    assert!(parsed.case_sensitive);
    assert_eq!(parsed.context_before, 3);
    assert_eq!(parsed.context_after, 3);
    assert!(parsed.include_file_types.is_none());
    assert!(parsed.exclude_file_types.is_none());
}

#[test]
fn exclude_file_types_flag_passed() {
    let args: Vec<String> = vec![
        "./search_path".to_string(),
        "search_query".to_string(),
        "-E".to_string(),
        ".py".to_string(),
    ];
    let parsed = match ParsedArgs::new(&args) {
        Ok(p) => p,
        Err(_) => panic!("Arg parsing failed"),
    };
    assert!(!parsed.recursive);
    assert!(parsed.case_sensitive);
    assert_eq!(parsed.context_before, 0);
    assert_eq!(parsed.context_after, 0);
    assert!(parsed.include_file_types.is_none());
    assert!(parsed.exclude_file_types.is_some());
    assert!(parsed.exclude_file_types.unwrap().len() > 0);
}

#[test]
fn include_file_types_flag_passed() {
    let args: Vec<String> = vec![
        "./search_path".to_string(),
        "search_query".to_string(),
        "-I".to_string(),
        ".sh".to_string(),
    ];
    let parsed = match ParsedArgs::new(&args) {
        Ok(p) => p,
        Err(_) => panic!("Arg parsing failed"),
    };
    assert!(!parsed.recursive);
    assert!(parsed.case_sensitive);
    assert_eq!(parsed.context_before, 0);
    assert_eq!(parsed.context_after, 0);
    assert!(parsed.include_file_types.is_some());
    assert!(parsed.include_file_types.unwrap().len() > 0);
    assert!(parsed.exclude_file_types.is_none());
}

#[test]
fn positional_arguments_fill_path_then_query() {
    let args: Vec<String> = vec!["./somewhere".to_string(), "needle".to_string()];
    let parsed = match pscan::arguments::parser::parse(&args) {
        Ok(p) => p,
        Err(_) => panic!("Arg parsing failed"),
    };
    assert_eq!(parsed.path.unwrap(), "./somewhere");
    assert_eq!(parsed.query.unwrap(), "needle");
}

#[test]
fn too_few_arguments_are_rejected() {
    let args: Vec<String> = vec!["only_one".to_string()];
    let result = ParsedArgs::new(&args);
    match result {
        Ok(_) => panic!("a single argument must be rejected"),
        Err(msg) => assert_eq!(msg, "Must pass a search path and phrase, in that order"),
    }
}

#[test]
fn bundled_short_flags_set_both_options() {
    let args: Vec<String> = vec![
        "-ri".to_string(),
        "./search_path".to_string(),
        "search_query".to_string(),
    ];
    let parsed = match ParsedArgs::new(&args) {
        Ok(p) => p,
        Err(_) => panic!("Arg parsing failed"),
    };
    assert!(parsed.recursive);
    assert!(!parsed.case_sensitive);
}

#[test]
fn context_value_that_is_not_a_number_is_ignored() {
    let args: Vec<String> = vec![
        "./search_path".to_string(),
        "search_query".to_string(),
        "-A".to_string(),
        "many".to_string(),
    ];
    let parsed = match ParsedArgs::new(&args) {
        Ok(p) => p,
        Err(_) => panic!("Arg parsing failed"),
    };
    assert_eq!(parsed.context_after, 0);
}

#[test]
fn context_value_over_a_byte_is_ignored() {
    let args: Vec<String> = vec![
        "./search_path".to_string(),
        "search_query".to_string(),
        "-C".to_string(),
        "256".to_string(),
    ];
    let parsed = match ParsedArgs::new(&args) {
        Ok(p) => p,
        Err(_) => panic!("Arg parsing failed"),
    };
    assert_eq!(parsed.context_before, 0);
    assert_eq!(parsed.context_after, 0);
}

#[test]
fn plus_signed_context_value_is_accepted() {
    let args: Vec<String> = vec![
        "./search_path".to_string(),
        "search_query".to_string(),
        "-B".to_string(),
        "+7".to_string(),
    ];
    let parsed = match ParsedArgs::new(&args) {
        Ok(p) => p,
        Err(_) => panic!("Arg parsing failed"),
    };
    assert_eq!(parsed.context_before, 7);
}
