use ruson::cli::{Cli, CliFlag, CliOption};

fn create_cli(name: &'static str) -> Cli {
    let mut cli = Cli::new(name);
    cli.add_flag(CliFlag {
        short: "-h",
        long: Some("--help"),
        description: vec![],
    })
    .add_flag(CliFlag {
        short: "-v",
        long: Some("--version"),
        description: vec![],
    })
    .add_flag(CliFlag {
        short: "-a",
        long: Some("--argument"),
        description: vec![],
    })
    .add_option(CliOption {
        name: "option1",
        default: Some("default".into()),
        flag: CliFlag {
            short: "-1",
            long: Some("--option1"),
            description: vec![],
        },
    })
    .add_option(CliOption {
        name: "option2",
        default: None,
        flag: CliFlag {
            short: "-2",
            long: Some("--option2"),
            description: vec![],
        },
    })
    .add_option(CliOption {
        name: "option3",
        default: None,
        flag: CliFlag {
            short: "-3",
            long: Some("--option3"),
            description: vec![],
        },
    })
    .add_option(CliOption {
        name: "option4",
        default: None,
        flag: CliFlag {
            short: "-4",
            long: Some("--option4"),
            description: vec![],
        },
    })
    .add_option(CliOption {
        name: "option5",
        default: Some("default".into()),
        flag: CliFlag {
            short: "-5",
            long: Some("--option5"),
            description: vec![],
        },
    });
    cli
}

#[test]
fn success_cli() {
    let cli = create_cli("ruson");

    let mut flags: Vec<String> = vec![];
    let mut options: Vec<(&str, String)> = Vec::new();

    let args: Vec<String> = vec![
        "-av1".into(),
        "value".into(),
        "-h2value".into(),
        "--option3".into(),
        "value".into(),
        "--option4=value".into(),
    ];

    let parsed = cli.parse_and_populate(&args, &mut flags, &mut options);
    assert!(parsed.is_ok(), "{:?}", parsed);

    assert_eq!(flags.len(), 3);
    for flag in flags.iter() {
        match flag.as_str() {
            "-h" | "-v" | "-a" => {}
            _ => panic!("Invalid flag: '{}'", flag),
        }
    }

    assert_eq!(options.len(), 5);
    for (key, value) in options.iter() {
        match key {
            &"option1" | &"option2" | &"option3" | &"option4" => {
                assert_eq!(*value, String::from("value"))
            }
            &"option5" => assert_eq!(*value, String::from("default")),
            _ => panic!("Invalid option: '{}'", key),
        }
    }
}

fn populate(args: &[&str]) -> (Result<Option<String>, String>, Vec<String>, Vec<(&'static str, String)>) {
    let cli = create_cli("ruson");
    let args: Vec<String> = args.iter().map(|arg| arg.to_string()).collect();
    let mut flags: Vec<String> = vec![];
    let mut options: Vec<(&'static str, String)> = Vec::new();
    let parsed = cli.parse_and_populate(&args, &mut flags, &mut options);
    (parsed, flags, options)
}

#[test]
fn a_flag_matches_its_short_or_its_long_name() {
    let flag = CliFlag { short: "-p", long: Some("--pretty"), description: vec![] };
    assert!(flag.matches("-p"));
    assert!(flag.matches("--pretty"));
    assert!(!flag.matches("--prett"));
    assert!(!flag.matches(""));
    let flag = CliFlag { short: "-p", long: None, description: vec![] };
    assert!(flag.matches("-p"));
    assert!(!flag.matches(""));
    assert!(!flag.matches("--pretty"));
}

#[test]
fn an_option_reads_its_value_after_an_equals_sign() {
    let option = CliOption {
        name: "query",
        default: None,
        flag: CliFlag { short: "-q", long: Some("--query"), description: vec![] },
    };
    assert_eq!(option.assoc_value("--query=.a.b"), Some(".a.b".to_string()));
    assert_eq!(option.assoc_value("--query="), Some(String::new()));
    assert_eq!(option.assoc_value("--query"), None);
    assert_eq!(option.assoc_value("--quer=x"), None);
    assert_eq!(option.assoc_value("-q=x"), None);
    let option = CliOption {
        name: "query",
        default: None,
        flag: CliFlag { short: "-q", long: None, description: vec![] },
    };
    assert_eq!(option.assoc_value("=x"), None);
}

#[test]
fn the_path_ends_the_arguments() {
    let (parsed, flags, options) = populate(&["-a", "file.json", "-h"]);
    assert_eq!(parsed, Ok(Some("file.json".to_string())));
    assert_eq!(flags, vec!["-a"]);
    assert_eq!(options.len(), 2);
    assert_eq!(populate(&[]).0, Ok(None));
    assert_eq!(populate(&["-"]).0, Ok(None));
    assert_eq!(populate(&["-", "file"]).0, Ok(None));
    assert_eq!(populate(&[""]).0, Ok(Some(String::new())));
    assert_eq!(populate(&["--", "-h"]).0, Ok(Some("-h".to_string())));
    assert_eq!(populate(&["--"]).0, Ok(None));
    assert_eq!(populate(&["--unknown", "file"]).0, Ok(Some("file".to_string())));
}

#[test]
fn long_arguments_name_flags_and_options() {
    let (parsed, flags, options) = populate(&["--argument", "--option2", "x", "--option1=y"]);
    assert_eq!(parsed, Ok(None));
    assert_eq!(flags, vec!["-a"]);
    assert_eq!(options, vec![
        ("option1", "y".to_string()),
        ("option5", "default".to_string()),
        ("option2", "x".to_string()),
    ]);
}

#[test]
fn an_option_needs_a_value() {
    assert_eq!(populate(&["--option2"]).0, Err("'option2' cannot be empty.".to_string()));
    assert_eq!(populate(&["-a2"]).0, Err("'option2' cannot be empty.".to_string()));
    let (parsed, flags, _) = populate(&["-ahx"]);
    assert_eq!(parsed, Err(" Invalid flag: '-x'.".to_string()));
    assert_eq!(flags, vec!["-a", "-h"]);
}

#[test]
fn the_help_text_lists_flags_and_options() {
    let mut cli = Cli::new("tool");
    assert_eq!(
        cli.usage(),
        "USAGE: tool [FLAGS|OPTIONS]... FILE\nFLAGS:\n  -h, --help\n\t\tDisplay this help and exit.\n  -v, --version\n\t\tDisplay version and exit.\n\n"
    );
    cli.set_description(vec!["One.".into(), "Two.".into()])
        .set_footer(vec!["Bye.".into(), "Really.".into()])
        .add_flag(CliFlag { short: "-x", long: None, description: vec![] })
        .add_option(CliOption {
            name: "file",
            default: None,
            flag: CliFlag {
                short: "-f",
                long: Some("--file"),
                description: vec!["First.".into(), "Second.".into()],
            },
        });
    assert_eq!(
        cli.usage(),
        "USAGE: tool [FLAGS|OPTIONS]... FILE\nOne.\nTwo.\n\nFLAGS:\n  -h, --help\n\t\tDisplay this help and exit.\n  -v, --version\n\t\tDisplay version and exit.\n  -x\n\nOPTIONS:\n  -f, --file <file>\n\t\tFirst.\n\t\tSecond.\n\nBye.\nReally."
    );
}

#[test]
fn the_program_has_its_flags_and_its_query() {
    let cli = ruson::cli::create_cli("ruson");
    let args: Vec<String> = vec!["-pt".into(), "-q.a".into(), "in.json".into()];
    let mut flags: Vec<String> = vec![];
    let mut options: Vec<(&'static str, String)> = Vec::new();
    assert_eq!(
        cli.parse_and_populate(&args, &mut flags, &mut options),
        Ok(Some("in.json".to_string()))
    );
    assert_eq!(flags, vec!["-p", "-t"]);
    assert_eq!(options, vec![("query", ".a".to_string())]);
    let mut options: Vec<(&'static str, String)> = Vec::new();
    assert_eq!(cli.parse_and_populate(&vec![], &mut flags, &mut options), Ok(None));
    assert_eq!(options, vec![("query", String::new())]);
    assert!(cli.usage().starts_with("USAGE: ruson [FLAGS|OPTIONS]... FILE\nExtract sub tree"));
}
