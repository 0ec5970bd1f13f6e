use shellcp::flags::{CommandFlags, Context};

fn create_test_flags() -> CommandFlags {
    let mut flags = CommandFlags::new();
    flags.add_flag('v', "verbose", "Enable verbose output");
    flags.add_value('o', "output", "file", "Specify output file");
    flags.add_with_default(
        Some('d'),
        "debug",
        Some("level".to_string()),
        "Set debug level",
        Some("0"),
    );
    flags
}

#[test]
fn test_default_values() {
    let mut flags = create_test_flags();
    let result = flags.parse(&mut Context::new(), &vec![]);
    assert!(result.is_ok());
    assert_eq!(flags.value("debug"), Some("0"));
}

#[test]
fn test_parse_long_flags() {
    let mut flags = create_test_flags();
    let mut ctx = Context::new();
    let args = vec![
        "--verbose".to_string(),
        "--output".to_string(),
        "file.txt".to_string(),
    ];
    let result = flags.parse(&mut ctx, &args);
    assert!(result.is_ok());
    assert!(flags.is_present("verbose"));
    assert_eq!(flags.value("output"), Some("file.txt"));
}

#[test]
fn test_parse_short_flags() {
    let mut flags = create_test_flags();
    let mut ctx = Context::new();
    let args = vec!["-v".to_string(), "-o".to_string(), "file.txt".to_string()];
    let result = flags.parse(&mut ctx, &args);
    assert!(result.is_ok());
    assert!(flags.is_present("verbose"));
    assert_eq!(flags.value("output"), Some("file.txt"));
}

#[test]
fn test_boolean_flag_negation() {
    let mut flags = create_test_flags();
    let mut ctx = Context::new();
    let args = vec!["--no-verbose".to_string()];
    let result = flags.parse(&mut ctx, &args);
    assert!(result.is_ok());
    assert!(!flags.is_present("verbose"));
}

#[test]
fn test_boolean_flag_negation_after() {
    let mut flags = create_test_flags();
    let mut ctx = Context::new();
    let args = vec!["--verbose".to_string(), "--no-verbose".to_string()];
    let result = flags.parse(&mut ctx, &args);
    assert!(result.is_ok());
    assert!(!flags.is_present("verbose"));

    let args = vec![
        "--verbose".to_string(),
        "--no-verbose".to_string(),
        "--verbose".to_string(),
    ];
    let result = flags.parse(&mut ctx, &args);
    assert!(result.is_ok());
    assert!(flags.is_present("verbose"));
}

#[test]
fn test_invalid_negation() {
    let mut flags = create_test_flags();
    let mut ctx = Context::new();
    let args = vec!["--no-output".to_string(), "file.txt".to_string()];
    let result = flags.parse(&mut ctx, &args);
    assert!(result.is_err());
}

#[test]
fn test_override_default_value() {
    let mut flags = create_test_flags();
    let mut ctx = Context::new();
    let args = vec!["--debug".to_string(), "2".to_string()];
    let result = flags.parse(&mut ctx, &args);
    assert!(result.is_ok());
    assert_eq!(flags.value("debug"), Some("2"));
}

#[test]
fn test_help_output() {
    let flags = create_test_flags();
    let help_text = flags.help();
    assert!(help_text.contains("Enable verbose output"));
    assert!(help_text.contains("Specify output file"));
    assert!(help_text.contains("Set debug level (default: 0)"));
}

#[test]
fn test_is_present() {
    let mut flags = create_test_flags();
    let mut ctx = Context::new();
    let args = vec!["--verbose".to_string()];
    let result = flags.parse(&mut ctx, &args);
    assert!(result.is_ok());
    assert!(flags.is_present("verbose"));
    assert!(!flags.is_present("output"));
}

#[test]
fn test_parse_all() {
    let mut flags = create_test_flags();
    let mut ctx = Context::new();
    let args = vec![
        "--verbose".to_string(),
        "--unknown".to_string(),
        "--output".to_string(),
        "file.txt".to_string(),
    ];
    let non_flag_args = flags.parse_relaxed(&mut ctx, &args);
    assert!(flags.is_present("verbose"));
    assert_eq!(flags.value("output"), Some("file.txt"));
    assert_eq!(non_flag_args, vec!["--unknown"]);
}

#[test]
fn test_short_flag_with_separate_value() {
    let mut flags = CommandFlags::new();
    let mut ctx = Context::new();
    flags.add_value('d', "debug", "level", "Set debug level");
    let args = vec!["-d".to_string(), "2".to_string()];
    let result: Result<Vec<String>, String> = flags.parse(&mut ctx, &args);
    assert!(result.is_ok(), "Expected the parser to succeed");
    assert_eq!(flags.value("debug"), Some("2"));
}

#[test]
fn test_concatenated_short_flag_with_value() {
    let mut flags = CommandFlags::new();
    let mut ctx = Context::new();
    flags.add_value('d', "debug", "level", "Set debug level");
    let args = vec!["-d2".to_string()];
    let result = flags.parse(&mut ctx, &args);
    assert!(result.is_ok(), "Expected the parser to succeed");
    assert_eq!(flags.value("debug"), Some("2"));
}

#[test]
fn test_parse_all_valid_flags() {
    let mut flags = create_test_flags();
    let mut ctx = Context::new();
    let args = vec![
        "--verbose".to_string(),
        "--output".to_string(),
        "file.txt".to_string(),
        "--debug".to_string(),
        "2".to_string(),
    ];
    let non_flag_args = flags.parse_relaxed(&mut ctx, &args);
    assert!(non_flag_args.is_empty(), "Expected no non-flag arguments");
    assert!(flags.is_present("verbose"));
    assert_eq!(flags.value("output"), Some("file.txt"));
    assert_eq!(flags.value("debug"), Some("2"));
}

#[test]
fn test_parse_all_with_unknown_flags() {
    let mut flags = create_test_flags();
    let mut ctx = Context::new();
    let args = vec![
        "--verbose".to_string(),
        "--unknown".to_string(),
        "-x".to_string(),
        "--output".to_string(),
        "file.txt".to_string(),
    ];
    let non_flag_args = flags.parse_relaxed(&mut ctx, &args);
    assert_eq!(non_flag_args, vec!["--unknown", "-x"]);
    assert!(flags.is_present("verbose"));
    assert_eq!(flags.value("output"), Some("file.txt"));
}

#[test]
fn test_parse_all_with_missing_value() {
    let mut flags = create_test_flags();
    let mut ctx = Context::new();
    let args = vec!["--output".to_string()];
    let non_flag_args = flags.parse_relaxed(&mut ctx, &args);
    assert_eq!(non_flag_args, vec!["--output"]);
    assert!(!flags.is_present("output"));
}

#[test]
fn test_parse_all_with_mixed_valid_and_invalid() {
    let mut flags = create_test_flags();
    let mut ctx = Context::new();
    let args = vec![
        "--verbose".to_string(),
        "--unknown".to_string(),
        "-o".to_string(),
        "file.txt".to_string(),
        "-x".to_string(),
        "--debug".to_string(),
        "2".to_string(),
        "non-flag-arg".to_string(),
    ];
    let non_flag_args = flags.parse_relaxed(&mut ctx, &args);
    assert_eq!(non_flag_args, vec!["--unknown", "-x", "non-flag-arg"]);
    assert!(flags.is_present("verbose"));
    assert_eq!(flags.value("output"), Some("file.txt"));
    assert_eq!(flags.value("debug"), Some("2"));
}

#[test]
fn test_parse_all_with_double_dash() {
    let mut flags = create_test_flags();
    let mut ctx = Context::new();
    let args = vec![
        "--verbose".to_string(),
        "--".to_string(),
        "--output".to_string(),
        "file.txt".to_string(),
    ];
    let non_flag_args = flags.parse_relaxed(&mut ctx, &args);
    assert_eq!(non_flag_args, vec!["--", "--output", "file.txt"]);
    assert!(flags.is_present("verbose"));
    assert!(!flags.is_present("output"));
}

#[test]
fn test_parse_all_with_short_flags() {
    let mut flags = create_test_flags();
    let mut ctx = Context::new();
    let args = vec![
        "-v".to_string(),
        "-o".to_string(),
        "file.txt".to_string(),
        "-d2".to_string(),
    ];
    let non_flag_args = flags.parse_relaxed(&mut ctx, &args);
    assert!(non_flag_args.is_empty(), "Expected no non-flag arguments");
    assert!(flags.is_present("verbose"));
    assert_eq!(flags.value("output"), Some("file.txt"));
    assert_eq!(flags.value("debug"), Some("2"));
}

#[test]
fn test_alias() {
    let mut flags = CommandFlags::new();
    flags.add_flag('L', "follow", "Follow symbolic links");
    flags.add_alias(None, "deref", "follow");
    let result = flags.parse(&mut Context::new(), &vec!["--deref".to_string()]);
    assert!(result.is_ok());
    assert!(flags.is_present("follow"));
    assert!(!flags.is_present("deref"));
}

#[test]
fn test_alias_negate() {
    let mut flags = CommandFlags::new();
    flags.add_flag_enabled('L', "follow", "Follow symbolic links");
    flags.add_alias(None, "deref", "follow");
    let result = flags.parse(&mut Context::new(), &vec!["--no-deref".to_string()]);
    assert!(result.is_ok());
    assert!(!flags.is_present("follow"));
    assert!(!flags.is_present("deref"));
}

#[test]
fn test_alias_short_negate() {
    let mut flags = CommandFlags::new();
    flags.add_flag_enabled('L', "follow", "Follow symbolic links");
    flags.add_alias(Some('P'), "no-deref", "no-follow");
    let result = flags.parse(&mut Context::new(), &vec!["-P".to_string()]);
    assert!(result.is_ok());
    assert!(!flags.is_present("follow"));
    assert!(!flags.is_present("deref"));
}

#[test]
fn test_negate() {
    let mut flags = CommandFlags::new();
    flags.add_with_default(Some('m'), "messages", None, "", Some("true"));
    flags.add_alias(Some('s'), "silent", "no-messages");
    let result = flags.parse(&mut Context::new(), &vec!["-s".to_string()]);
    assert!(result.is_ok());
    assert!(!flags.is_present("messages"));
    assert!(!flags.is_present("silent"));
}
