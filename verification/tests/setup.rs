use roused::plist::{write_escaped_xml, PropertyListValue};
use roused::setup::{
    gateway_plist_xml, select_log_directory, validate_output_path, LogDirectory, SetupError,
};

fn plist(label: &str, program: &str, config: &str, log_dir: &str) -> Result<String, SetupError> {
    gateway_plist_xml(
        label,
        program.as_bytes(),
        config.as_bytes(),
        log_dir.as_bytes(),
        LogDirectory::Directory,
    )
}

#[test]
fn generates_deterministic_gateway_plist_and_escapes_every_string() {
    let label = "net.example.&<>\"'";
    let program = "/Applications/Roused & <Tools>/roused\"'";
    let config = "/Users/example/Roused & <Config>/roused\"'.toml";
    let log_dir = "/tmp";

    let first = plist(label, program, config, log_dir).unwrap();
    let second = plist(label, program, config, log_dir).unwrap();

    assert_eq!(first, second);
    assert!(first.contains("<string>net.example.&amp;&lt;&gt;&quot;&apos;</string>"));
    assert!(first
        .contains("<string>/Applications/Roused &amp; &lt;Tools&gt;/roused&quot;&apos;</string>"));
    assert!(first.contains(
        "<string>/Users/example/Roused &amp; &lt;Config&gt;/roused&quot;&apos;.toml</string>"
    ));
    assert!(
        first.contains("<string>/tmp/net.example.&amp;&lt;&gt;&quot;&apos;.stdout.log</string>")
    );
    assert!(
        first.contains("<string>/tmp/net.example.&amp;&lt;&gt;&quot;&apos;.stderr.log</string>")
    );
    assert!(first.contains("<key>RunAtLoad</key>\n  <true/>"));
    assert!(first.contains("<key>KeepAlive</key>\n  <true/>"));
    assert!(first.contains("<key>StandardOutPath</key>"));
    assert!(first.contains("<key>StandardErrorPath</key>"));
}

#[test]
fn rejects_invalid_labels_and_paths() {
    assert!(matches!(
        plist("bad label", "/bin/roused", "/tmp/a.toml", "/tmp"),
        Err(SetupError::InvalidLabel)
    ));
    assert!(matches!(
        plist("net.example.roused", "relative/roused", "/tmp/a.toml", "/tmp"),
        Err(SetupError::PathNotAbsolute {
            name: "program",
            ..
        })
    ));
    assert!(matches!(
        plist("net.example.roused", "/bin/roused", "relative/a.toml", "/tmp"),
        Err(SetupError::PathNotAbsolute {
            name: "configuration",
            ..
        })
    ));
    assert!(matches!(
        plist("net.example.roused", "/bin/roused", "/tmp/a.toml", "relative/logs"),
        Err(SetupError::PathNotAbsolute {
            name: "log directory",
            ..
        })
    ));
    assert!(matches!(
        plist("net.example.roused", "/bin/roused", "/tmp/bad\u{1}.toml", "/tmp"),
        Err(SetupError::InvalidXmlCharacter {
            name: "configuration",
            character: '\u{1}',
        })
    ));
}

#[test]
fn rejects_missing_and_non_directory_log_paths() {
    let missing = gateway_plist_xml(
        "net.example.roused",
        b"/bin/roused",
        b"/tmp/a.toml",
        b"/tmp/missing",
        LogDirectory::Unavailable("No such file or directory".to_owned()),
    );
    match missing {
        Err(SetupError::LogDirectoryUnavailable { path, source }) => {
            assert_eq!(path, b"/tmp/missing");
            assert_eq!(source, "No such file or directory");
        }
        _ => panic!("a missing log directory was not reported"),
    }
    let regular_file = gateway_plist_xml(
        "net.example.roused",
        b"/bin/roused",
        b"/tmp/a.toml",
        b"/tmp/regular-file",
        LogDirectory::NotDirectory,
    );
    assert!(matches!(
        regular_file,
        Err(SetupError::LogDirectoryNotDirectory { path }) if path == b"/tmp/regular-file"
    ));
}

#[test]
fn rejects_non_utf8_paths() {
    assert!(matches!(
        gateway_plist_xml(
            "net.example.roused",
            b"/tmp/roused-\xff",
            b"/tmp/a.toml",
            b"/tmp",
            LogDirectory::Directory,
        ),
        Err(SetupError::PathNotUtf8 {
            name: "program",
            ..
        })
    ));
    assert!(matches!(
        gateway_plist_xml(
            "net.example.roused",
            b"/bin/roused",
            b"/tmp/a.toml",
            b"/tmp/roused-logs-\xff",
            LogDirectory::Directory,
        ),
        Err(SetupError::PathNotUtf8 {
            name: "log directory",
            ..
        })
    ));
}

#[test]
fn accepts_a_log_directory_symlink_without_canonicalizing_it() {
    let plist = plist(
        "net.example.roused",
        "/bin/roused",
        "/tmp/a.toml",
        "/tmp/stable-logs",
    )
    .expect("generate plist through log-directory symlink");
    assert!(plist.contains("/tmp/stable-logs/net.example.roused.stderr.log"));
    assert!(!plist.contains("/tmp/real-logs/net.example.roused.stderr.log"));
}

#[test]
fn the_whole_property_list_is_written() {
    assert_eq!(
        plist("net.example.roused", "/bin/roused", "/etc/é.toml", "/var/logs/").unwrap(),
        "<?xml version=\"1.0\" encoding=\"UTF-8\"?>\n\
         <!DOCTYPE plist PUBLIC \"-//Apple//DTD PLIST 1.0//EN\" \"http://www.apple.com/DTDs/PropertyList-1.0.dtd\">\n\
         <plist version=\"1.0\">\n\
         <dict>\n\
         \x20 <key>Label</key>\n\
         \x20 <string>net.example.roused</string>\n\
         \x20 <key>ProgramArguments</key>\n\
         \x20 <array>\n\
         \x20   <string>/bin/roused</string>\n\
         \x20   <string>/etc/é.toml</string>\n\
         \x20 </array>\n\
         \x20 <key>RunAtLoad</key>\n\
         \x20 <true/>\n\
         \x20 <key>KeepAlive</key>\n\
         \x20 <true/>\n\
         \x20 <key>ExitTimeOut</key>\n\
         \x20 <integer>30</integer>\n\
         \x20 <key>StandardOutPath</key>\n\
         \x20 <string>/var/logs/net.example.roused.stdout.log</string>\n\
         \x20 <key>StandardErrorPath</key>\n\
         \x20 <string>/var/logs/net.example.roused.stderr.log</string>\n\
         </dict>\n\
         </plist>\n"
    );
}

#[test]
fn values_are_written_at_their_depth() {
    let mut output = String::new();
    PropertyListValue::Array(vec![
        PropertyListValue::Bool(false),
        PropertyListValue::Dictionary(vec![("a&b", PropertyListValue::Integer(1_000))]),
    ])
    .write_xml(&mut output, 1);
    assert_eq!(
        output,
        "  <array>\n    <false/>\n    <dict>\n      <key>a&amp;b</key>\n      <integer>1000</integer>\n    </dict>\n  </array>\n"
    );
}

#[test]
fn messages_say_what_is_wrong() {
    let message = |error: SetupError| error.message();
    assert_eq!(message(SetupError::InvalidLabel), "launchd label is invalid");
    assert_eq!(
        message(SetupError::PathNotAbsolute {
            name: "program",
            path: b"roused".to_vec(),
        }),
        "program path must be absolute: roused"
    );
    assert_eq!(
        message(SetupError::PathNotUtf8 {
            name: "program",
            path: b"/tmp/\xff".to_vec(),
        }),
        "program path is not valid UTF-8: /tmp/\u{fffd}"
    );
    assert_eq!(
        message(SetupError::InvalidXmlCharacter {
            name: "configuration",
            character: '\u{1}',
        }),
        "configuration contains an XML 1.0-incompatible character (U+0001)"
    );
    assert_eq!(
        message(SetupError::InvalidXmlCharacter {
            name: "launchd label",
            character: '\u{fffe}',
        }),
        "launchd label contains an XML 1.0-incompatible character (U+FFFE)"
    );
    assert_eq!(
        message(SetupError::InvalidXmlCharacter {
            name: "launchd label",
            character: '\u{10abcd}',
        }),
        "launchd label contains an XML 1.0-incompatible character (U+10ABCD)"
    );
    assert_eq!(
        message(SetupError::LogDirectoryUnavailable {
            path: b"/logs".to_vec(),
            source: "denied".to_owned(),
        }),
        "cannot inspect log directory /logs: denied"
    );
    assert_eq!(
        message(SetupError::LogDirectoryNotDirectory {
            path: b"/logs".to_vec(),
        }),
        "log directory path is not a directory: /logs"
    );
}

#[test]
fn a_default_log_directory_comes_with_a_hint() {
    let hint = "; pass --log-dir to select another directory";
    let helped = [
        SetupError::LogDirectoryUnavailable {
            path: b"/logs".to_vec(),
            source: "denied".to_owned(),
        },
        SetupError::LogDirectoryNotDirectory {
            path: b"/logs".to_vec(),
        },
        SetupError::PathNotUtf8 {
            name: "log directory",
            path: b"/\xff".to_vec(),
        },
        SetupError::InvalidXmlCharacter {
            name: "log directory",
            character: '\u{1}',
        },
    ];
    for error in helped {
        assert!(error.command_message(true).ends_with(hint));
        assert_eq!(error.command_message(false), error.message());
    }
    let not_helped = [
        SetupError::InvalidLabel,
        SetupError::PathNotUtf8 {
            name: "program",
            path: b"/\xff".to_vec(),
        },
        SetupError::PathNotAbsolute {
            name: "log directory",
            path: b"logs".to_vec(),
        },
    ];
    for error in not_helped {
        assert_eq!(error.command_message(true), error.message());
    }
}

#[test]
fn the_log_directory_is_selected() {
    let home = |path: &str| Some(path.as_bytes().to_vec());
    assert_eq!(
        select_log_directory(home("logs"), None).unwrap(),
        b"logs".to_vec()
    );
    assert_eq!(
        select_log_directory(None, home("/Users/me")).unwrap(),
        b"/Users/me/Library/Logs".to_vec()
    );
    assert_eq!(
        select_log_directory(None, home("/")).unwrap(),
        b"/Library/Logs".to_vec()
    );
    for missing in [None, home("")] {
        assert_eq!(
            select_log_directory(None, missing).unwrap_err(),
            "cannot determine the default log directory because HOME is not set; pass --log-dir"
        );
    }
    assert_eq!(
        select_log_directory(None, home("relative-home")).unwrap_err(),
        "cannot determine the default log directory because HOME is not absolute; pass --log-dir"
    );
}

#[test]
fn the_output_path_is_absolute() {
    assert!(validate_output_path(b"/tmp/gateway.plist").is_ok());
    for path in ["", "gateway.plist"] {
        assert_eq!(
            validate_output_path(path.as_bytes()).unwrap_err(),
            "--output must be an absolute path"
        );
    }
}

#[test]
fn labels_do_not_share_log_files() {
    let first = plist("net.a", "/bin/roused", "/a.toml", "/logs").unwrap();
    let second = plist("net.b", "/bin/roused", "/a.toml", "/logs").unwrap();
    assert!(first.contains("<string>/logs/net.a.stdout.log</string>"));
    assert!(first.contains("<string>/logs/net.a.stderr.log</string>"));
    assert!(second.contains("<string>/logs/net.b.stdout.log</string>"));
    assert!(!second.contains("net.a"));
}

fn escaped(text: &str) -> String {
    let mut output = String::new();
    write_escaped_xml(&mut output, text);
    output
}

#[test]
fn escaping_goes_character_by_character() {
    let texts = ["", "a", "&", "a<b", "\"'>", "&amp;", "x\ny"];
    for a in texts {
        for b in texts {
            assert_eq!(escaped(&format!("{a}{b}")), escaped(a) + &escaped(b));
            assert_eq!(escaped(a) == escaped(b), a == b);
        }
        let whole = escaped(a);
        for (at, _) in whole.match_indices('&') {
            let rest = &whole[at..];
            assert!(
                ["&amp;", "&lt;", "&gt;", "&quot;", "&apos;"]
                    .iter()
                    .any(|entity| rest.starts_with(entity)),
                "{whole}"
            );
        }
    }
    assert_eq!(escaped("&amp;"), "&amp;amp;");
}

#[test]
fn one_level_more_puts_two_spaces_before_each_line() {
    let value = PropertyListValue::Dictionary(vec![
        (
            "list",
            PropertyListValue::Array(vec![
                PropertyListValue::Text("a & b"),
                PropertyListValue::Array(Vec::new()),
                PropertyListValue::Integer(30),
            ]),
        ),
        ("flag", PropertyListValue::Bool(false)),
    ]);
    let mut written = String::new();
    value.write_xml(&mut written, 1);
    let mut deeper = String::new();
    value.write_xml(&mut deeper, 2);
    assert!(written.ends_with('\n'));
    let indented: String = written.lines().map(|line| format!("  {line}\n")).collect();
    assert_eq!(deeper, indented);
}
