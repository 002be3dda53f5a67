//! The gateway's own LaunchAgent: its property list and the paths it names.
//!
//! Paths are the bytes that the system uses for them.
use vstd::prelude::*;

use crate::config::{self, valid_launchd_label};
use crate::plist::{self, PropertyListValue};
use crate::text::{self, chars_of};

verus! {

/// What stands before the root element of a property list.
pub const XML_PREFIX: &'static str = "<?xml version=\"1.0\" encoding=\"UTF-8\"?>\n<!DOCTYPE plist PUBLIC \"-//Apple//DTD PLIST 1.0//EN\" \"http://www.apple.com/DTDs/PropertyList-1.0.dtd\">\n<plist version=\"1.0\">\n";

/// The seconds that launchd gives the gateway to exit.
pub const EXIT_TIMEOUT_SECONDS: u64 = 30;

/// Why no property list is generated.
#[derive(Debug)]
pub enum SetupError {
    /// The launchd label is not one.
    InvalidLabel,
    /// A path does not start at the root.
    PathNotAbsolute { name: &'static str, path: Vec<u8> },
    /// A path is not text.
    PathNotUtf8 { name: &'static str, path: Vec<u8> },
    /// A text holds a character that XML cannot.
    InvalidXmlCharacter { name: &'static str, character: char },
    /// The log directory could not be inspected.
    LogDirectoryUnavailable { path: Vec<u8>, source: String },
    /// The log directory is something else.
    LogDirectoryNotDirectory { path: Vec<u8> },
}

/// The contents of a `SetupError`.
#[verifier::ext_equal]
pub enum SetupProblem {
    InvalidLabel,
    PathNotAbsolute { name: Seq<char>, path: Seq<u8> },
    PathNotUtf8 { name: Seq<char>, path: Seq<u8> },
    InvalidXmlCharacter { name: Seq<char>, character: char },
    LogDirectoryUnavailable { path: Seq<u8>, source: Seq<char> },
    LogDirectoryNotDirectory { path: Seq<u8> },
}

impl View for SetupError {
    type V = SetupProblem;

    open spec fn view(&self) -> SetupProblem {
        match self {
            SetupError::InvalidLabel => SetupProblem::InvalidLabel,
            SetupError::PathNotAbsolute { name, path } => SetupProblem::PathNotAbsolute {
                name: name@,
                path: path@,
            },
            SetupError::PathNotUtf8 { name, path } => SetupProblem::PathNotUtf8 {
                name: name@,
                path: path@,
            },
            SetupError::InvalidXmlCharacter {
                name,
                character,
            } => SetupProblem::InvalidXmlCharacter { name: name@, character: *character },
            SetupError::LogDirectoryUnavailable {
                path,
                source,
            } => SetupProblem::LogDirectoryUnavailable { path: path@, source: source@ },
            SetupError::LogDirectoryNotDirectory {
                path,
            } => SetupProblem::LogDirectoryNotDirectory { path: path@ },
        }
    }
}

/// What a look at the log directory found.
pub enum LogDirectory {
    Directory,
    NotDirectory,
    Unavailable(String),
}

/// `str::from_utf8`: the text that the bytes encode, where they are UTF-8.
#[verifier::external_body]
fn utf8_text(bytes: &[u8]) -> (r: Option<String>)
    ensures
        match r {
            Some(text) => vstd::utf8::valid_utf8(bytes@) && text@ == vstd::utf8::decode_utf8(
                bytes@,
            ),
            None => !vstd::utf8::valid_utf8(bytes@),
        },
{
    std::str::from_utf8(bytes).ok().map(|text| text.to_owned())
}

/// How a path is shown.
pub uninterp spec fn lossy_text(bytes: Seq<u8>) -> Seq<char>;

/// `String::from_utf8_lossy`: the text that the bytes encode; bytes that are not
/// UTF-8 are shown by a replacement character.
#[verifier::external_body]
fn display_path(path: &[u8]) -> (text: String)
    ensures
        text@ == lossy_text(path@),
        vstd::utf8::valid_utf8(path@) ==> text@ == vstd::utf8::decode_utf8(path@),
{
    String::from_utf8_lossy(path).into_owned()
}

/// A path that starts at the root.
pub open spec fn is_absolute_path(path: Seq<u8>) -> bool {
    path.len() > 0 && path[0] == 0x2f
}

/// A character that XML 1.0 can hold.
pub open spec fn is_xml_character(c: char) -> bool {
    let n = c as u32;
    n == 0x9 || n == 0xa || n == 0xd || 0x20 <= n <= 0xd7ff || 0xe000 <= n <= 0xfffd || 0x1_0000
        <= n <= 0x10_ffff
}

/// The first character that XML cannot hold.
pub open spec fn first_non_xml(s: Seq<char>) -> Option<char>
    decreases s.len(),
{
    if s.len() == 0 {
        None
    } else {
        match first_non_xml(s.drop_last()) {
            Some(c) => Some(c),
            None => if is_xml_character(s.last()) {
                None
            } else {
                Some(s.last())
            },
        }
    }
}

/// A text that XML can hold.
pub open spec fn checked_text(name: Seq<char>, text: Seq<char>) -> Result<
    Seq<char>,
    SetupProblem,
> {
    match first_non_xml(text) {
        Some(character) => Err(SetupProblem::InvalidXmlCharacter { name, character }),
        None => Ok(text),
    }
}

/// The text of an absolute path.
pub open spec fn checked_path(name: Seq<char>, path: Seq<u8>) -> Result<Seq<char>, SetupProblem> {
    if !is_absolute_path(path) {
        Err(SetupProblem::PathNotAbsolute { name, path })
    } else if !vstd::utf8::valid_utf8(path) {
        Err(SetupProblem::PathNotUtf8 { name, path })
    } else {
        checked_text(name, vstd::utf8::decode_utf8(path))
    }
}

/// A file in a directory.
pub open spec fn joined(directory: Seq<char>, name: Seq<char>) -> Seq<char> {
    if directory.len() > 0 && directory.last() == '/' {
        directory + name
    } else {
        directory + "/"@ + name
    }
}

/// Where the gateway's standard output goes.
pub open spec fn stdout_log(directory: Seq<char>, label: Seq<char>) -> Seq<char> {
    joined(directory, label + ".stdout.log"@)
}

/// Where the gateway's standard error goes.
pub open spec fn stderr_log(directory: Seq<char>, label: Seq<char>) -> Seq<char> {
    joined(directory, label + ".stderr.log"@)
}

/// The gateway's LaunchAgent.
pub open spec fn gateway_plist(
    label: Seq<char>,
    program: Seq<char>,
    config: Seq<char>,
    log_directory: Seq<char>,
) -> plist::Plist {
    plist::Plist::Dictionary(
        seq![
            ("Label"@, plist::Plist::Text(label)),
            (
                "ProgramArguments"@,
                plist::Plist::Array(
                    seq![plist::Plist::Text(program), plist::Plist::Text(config)],
                ),
            ),
            ("RunAtLoad"@, plist::Plist::Bool(true)),
            ("KeepAlive"@, plist::Plist::Bool(true)),
            ("ExitTimeOut"@, plist::Plist::Integer(EXIT_TIMEOUT_SECONDS as nat)),
            ("StandardOutPath"@, plist::Plist::Text(stdout_log(log_directory, label))),
            ("StandardErrorPath"@, plist::Plist::Text(stderr_log(log_directory, label))),
        ],
    )
}

/// A property list as a file.
pub open spec fn plist_document(plist: plist::Plist) -> Seq<char> {
    XML_PREFIX@ + plist::xml(plist, 0) + "</plist>\n"@
}

/// The gateway's property list as a file, or the first thing that is wrong.
pub open spec fn gateway_document(
    label: Seq<char>,
    program: Seq<u8>,
    config: Seq<u8>,
    log_directory: Seq<u8>,
    found: LogDirectory,
) -> Result<Seq<char>, SetupProblem> {
    if !config::is_launchd_label(label) {
        Err(SetupProblem::InvalidLabel)
    } else {
        match checked_text("launchd label"@, label) {
            Err(problem) => Err(problem),
            Ok(label) => match checked_path("program"@, program) {
                Err(problem) => Err(problem),
                Ok(program) => match checked_path("configuration"@, config) {
                    Err(problem) => Err(problem),
                    Ok(config) => match checked_path("log directory"@, log_directory) {
                        Err(problem) => Err(problem),
                        Ok(directory) => match found {
                            LogDirectory::Unavailable(source) => Err(
                                SetupProblem::LogDirectoryUnavailable {
                                    path: log_directory,
                                    source: source@,
                                },
                            ),
                            LogDirectory::NotDirectory => Err(
                                SetupProblem::LogDirectoryNotDirectory { path: log_directory },
                            ),
                            LogDirectory::Directory => Ok(
                                plist_document(gateway_plist(label, program, config, directory)),
                            ),
                        },
                    },
                },
            },
        }
    }
}

fn is_xml_1_0_character(character: char) -> (r: bool)
    ensures
        r == is_xml_character(character),
{
    let n: u32 = character as u32;
    n == 0x9 || n == 0xa || n == 0xd || (0x20 <= n && n <= 0xd7ff) || (0xe000 <= n && n <= 0xfffd)
        || (0x1_0000 <= n && n <= 0x10_ffff)
}

proof fn lemma_first_non_xml_stays(s: Seq<char>, n: int)
    requires
        0 <= n <= s.len(),
        first_non_xml(s.take(n)) is Some,
    ensures
        first_non_xml(s) == first_non_xml(s.take(n)),
    decreases s.len(),
{
    if n == s.len() {
        assert(s.take(n) =~= s);
    } else {
        assert(s.drop_last().take(n) =~= s.take(n));
        lemma_first_non_xml_stays(s.drop_last(), n);
    }
}

/// Checks that XML can hold a text.
fn validate_xml_string(name: &'static str, value: &str) -> (r: Result<(), SetupError>)
    ensures
        match r {
            Ok(_) => checked_text(name@, value@) == Ok::<_, SetupProblem>(value@),
            Err(error) => checked_text(name@, value@) == Err::<Seq<char>, _>(error@),
        },
{
    let chars = chars_of(value);
    for i in 0..chars.len()
        invariant
            chars@ == value@,
            first_non_xml(value@.take(i as int)) is None,
    {
        assert(value@.take(i + 1).drop_last() =~= value@.take(i as int));
        if !is_xml_1_0_character(chars[i]) {
            proof {
                lemma_first_non_xml_stays(value@, i + 1);
            }
            return Err(SetupError::InvalidXmlCharacter { name, character: chars[i] });
        }
    }
    assert(value@.take(value@.len() as int) =~= value@);
    Ok(())
}

/// Checks that a path is absolute and that XML can hold it.
fn validated_path(name: &'static str, path: &[u8]) -> (r: Result<String, SetupError>)
    ensures
        match r {
            Ok(text) => checked_path(name@, path@) == Ok::<_, SetupProblem>(text@),
            Err(error) => checked_path(name@, path@) == Err::<Seq<char>, _>(error@),
        },
{
    if path.len() == 0 || path[0] != 0x2f {
        return Err(SetupError::PathNotAbsolute { name, path: vstd::slice::slice_to_vec(path) });
    }
    match utf8_text(path) {
        None => Err(SetupError::PathNotUtf8 { name, path: vstd::slice::slice_to_vec(path) }),
        Some(text) => match validate_xml_string(name, text.as_str()) {
            Ok(_) => Ok(text),
            Err(error) => Err(error),
        },
    }
}

fn join_path(directory: &str, label: &str, suffix: &str) -> (r: String)
    ensures
        r@ == joined(directory@, label@ + suffix@),
{
    let chars = chars_of(directory);
    let mut path = directory.to_owned();
    if chars.len() == 0 || chars[chars.len() - 1] != '/' {
        path.push_str("/");
    }
    path.push_str(label);
    path.push_str(suffix);
    assert(path@ =~= joined(directory@, label@ + suffix@));
    path
}

/// The gateway's property list, unless the label, a path or the log directory is
/// not in order.
pub fn gateway_plist_xml(
    label: &str,
    program: &[u8],
    config: &[u8],
    log_dir: &[u8],
    found: LogDirectory,
) -> (r: Result<String, SetupError>)
    ensures
        match r {
            Ok(text) => gateway_document(label@, program@, config@, log_dir@, found) == Ok::<
                _,
                SetupProblem,
            >(text@),
            Err(error) => gateway_document(label@, program@, config@, log_dir@, found) == Err::<
                Seq<char>,
                _,
            >(error@),
        },
{
    if !valid_launchd_label(label) {
        return Err(SetupError::InvalidLabel);
    }
    if let Err(error) = validate_xml_string("launchd label", label) {
        return Err(error);
    }
    let program = match validated_path("program", program) {
        Ok(program) => program,
        Err(error) => {
            return Err(error);
        },
    };
    let config = match validated_path("configuration", config) {
        Ok(config) => config,
        Err(error) => {
            return Err(error);
        },
    };
    let directory = match validated_path("log directory", log_dir) {
        Ok(directory) => directory,
        Err(error) => {
            return Err(error);
        },
    };
    match found {
        LogDirectory::Unavailable(source) => {
            return Err(
                SetupError::LogDirectoryUnavailable {
                    path: vstd::slice::slice_to_vec(log_dir),
                    source,
                },
            );
        },
        LogDirectory::NotDirectory => {
            return Err(
                SetupError::LogDirectoryNotDirectory { path: vstd::slice::slice_to_vec(log_dir) },
            );
        },
        LogDirectory::Directory => {},
    }
    let stdout_log_path = join_path(directory.as_str(), label, ".stdout.log");
    let stderr_log_path = join_path(directory.as_str(), label, ".stderr.log");
    let arguments = vec![
        PropertyListValue::Text(program.as_str()),
        PropertyListValue::Text(config.as_str()),
    ];
    let entries = vec![
        ("Label", PropertyListValue::Text(label)),
        ("ProgramArguments", PropertyListValue::Array(arguments)),
        ("RunAtLoad", PropertyListValue::Bool(true)),
        ("KeepAlive", PropertyListValue::Bool(true)),
        ("ExitTimeOut", PropertyListValue::Integer(EXIT_TIMEOUT_SECONDS)),
        ("StandardOutPath", PropertyListValue::Text(stdout_log_path.as_str())),
        ("StandardErrorPath", PropertyListValue::Text(stderr_log_path.as_str())),
    ];
    let plist = PropertyListValue::Dictionary(entries);
    proof {
        plist::lemma_plist(plist);
        plist::lemma_plist(entries@[1].1);
        assert(plist::plists(arguments@) =~= seq![
            plist::Plist::Text(program@),
            plist::Plist::Text(config@),
        ]);
        assert(plist::plist_entries(entries@) =~= gateway_plist(
            label@,
            program@,
            config@,
            directory@,
        )->Dictionary_0);
        reveal_with_fuel(plist::nests_within, 3);
    }
    let mut xml = XML_PREFIX.to_owned();
    plist.write_xml(&mut xml, 0);
    xml.push_str("</plist>\n");
    Ok(xml)
}

/// A hexadecimal digit in upper case.
pub open spec fn hex_digit(n: int) -> char {
    if n < 10 {
        ('0' as int + n) as char
    } else {
        ('A' as int + n - 10) as char
    }
}

/// A number in hexadecimal, with zeros before it up to the width.
pub open spec fn hex(n: nat, width: nat) -> Seq<char>
    decreases n, width,
{
    if n < 16 && width <= 1 {
        seq![hex_digit(n as int)]
    } else {
        hex(
            n / 16,
            if width > 0 {
                (width - 1) as nat
            } else {
                0
            },
        ).push(hex_digit(n as int % 16))
    }
}

fn push_hex(out: &mut String, n: u32, width: u32)
    ensures
        final(out)@ == old(out)@ + hex(n as nat, width as nat),
    decreases n, width,
{
    let low: u8 = (n % 16) as u8;
    if n >= 16 || width > 1 {
        push_hex(
            out,
            n / 16,
            if width > 0 {
                width - 1
            } else {
                0
            },
        );
    }
    out.push(
        if low < 10 {
            (low + ('0' as u8)) as char
        } else {
            (low - 10 + ('A' as u8)) as char
        },
    );
    assert(out@ =~= old(out)@ + hex(n as nat, width as nat));
}

/// The message of a problem.
pub open spec fn setup_message(problem: SetupProblem) -> Seq<char> {
    match problem {
        SetupProblem::InvalidLabel => "launchd label is invalid"@,
        SetupProblem::PathNotAbsolute { name, path } => name + " path must be absolute: "@
            + lossy_text(path),
        SetupProblem::PathNotUtf8 { name, path } => name + " path is not valid UTF-8: "@
            + lossy_text(path),
        SetupProblem::InvalidXmlCharacter { name, character } => name
            + " contains an XML 1.0-incompatible character (U+"@ + hex(character as nat, 4)
            + ")"@,
        SetupProblem::LogDirectoryUnavailable { path, source } => "cannot inspect log directory "@
            + lossy_text(path) + ": "@ + source,
        SetupProblem::LogDirectoryNotDirectory {
            path,
        } => "log directory path is not a directory: "@ + lossy_text(path),
    }
}

impl SetupError {
    /// The message shown to the user.
    pub fn message(&self) -> (message: String)
        ensures
            message@ == setup_message(self@),
    {
        let mut message = String::new();
        match self {
            SetupError::InvalidLabel => {
                message.push_str("launchd label is invalid");
            },
            SetupError::PathNotAbsolute { name, path } => {
                message.push_str(name);
                message.push_str(" path must be absolute: ");
                message.push_str(display_path(path).as_str());
            },
            SetupError::PathNotUtf8 { name, path } => {
                message.push_str(name);
                message.push_str(" path is not valid UTF-8: ");
                message.push_str(display_path(path).as_str());
            },
            SetupError::InvalidXmlCharacter { name, character } => {
                message.push_str(name);
                message.push_str(" contains an XML 1.0-incompatible character (U+");
                push_hex(&mut message, *character as u32, 4);
                message.push_str(")");
            },
            SetupError::LogDirectoryUnavailable { path, source } => {
                message.push_str("cannot inspect log directory ");
                message.push_str(display_path(path).as_str());
                message.push_str(": ");
                message.push_str(source.as_str());
            },
            SetupError::LogDirectoryNotDirectory { path } => {
                message.push_str("log directory path is not a directory: ");
                message.push_str(display_path(path).as_str());
            },
        }
        assert(message@ =~= setup_message(self@));
        message
    }

    /// Whether another log directory would help.
    fn concerns_log_directory(&self) -> (r: bool)
        ensures
            r == is_log_directory_problem(self@),
    {
        match self {
            SetupError::LogDirectoryUnavailable { .. } => true,
            SetupError::LogDirectoryNotDirectory { .. } => true,
            SetupError::PathNotUtf8 { name, .. } => **name == *"log directory",
            SetupError::InvalidXmlCharacter { name, .. } => **name == *"log directory",
            _ => false,
        }
    }

    /// The message of `init-gateway-plist`, with a hint where the log directory was
    /// not chosen by the user.
    pub fn command_message(&self, uses_default_log_dir: bool) -> (message: String)
        ensures
            message@ == if uses_default_log_dir && is_log_directory_problem(self@) {
                setup_message(self@) + "; pass --log-dir to select another directory"@
            } else {
                setup_message(self@)
            },
    {
        let mut message = self.message();
        if uses_default_log_dir && self.concerns_log_directory() {
            message.push_str("; pass --log-dir to select another directory");
        }
        message
    }
}

/// Whether a problem lies with the log directory.
pub open spec fn is_log_directory_problem(problem: SetupProblem) -> bool {
    match problem {
        SetupProblem::LogDirectoryUnavailable { .. } => true,
        SetupProblem::LogDirectoryNotDirectory { .. } => true,
        SetupProblem::PathNotUtf8 { name, .. } => name == "log directory"@,
        SetupProblem::InvalidXmlCharacter { name, .. } => name == "log directory"@,
        _ => false,
    }
}

/// Checks where the property list is to be written.
pub fn validate_output_path(output: &[u8]) -> (r: Result<(), String>)
    ensures
        match r {
            Ok(_) => is_absolute_path(output@),
            Err(message) => !is_absolute_path(output@) && message@
                == "--output must be an absolute path"@,
        },
{
    if output.len() == 0 || output[0] != 0x2f {
        Err("--output must be an absolute path".to_owned())
    } else {
        Ok(())
    }
}

/// The bytes of `Library/Logs`.
pub open spec fn library_logs() -> Seq<u8> {
    vstd::utf8::encode_utf8("Library/Logs"@)
}

/// The log directory under a home directory.
pub open spec fn default_log_directory(home: Seq<u8>) -> Seq<u8> {
    if home.last() == 0x2f {
        home + library_logs()
    } else {
        home.push(0x2f) + library_logs()
    }
}

/// The log directory: the one that was named, else the one under the home
/// directory, which must be known and absolute.
pub open spec fn selected_log_directory(log_dir: Option<Seq<u8>>, home: Option<Seq<u8>>) -> Result<
    Seq<u8>,
    Seq<char>,
> {
    match (log_dir, home) {
        (Some(log_dir), _) => Ok(log_dir),
        (None, Some(home)) => if home.len() == 0 {
            Err(
                "cannot determine the default log directory because HOME is not set; pass --log-dir"@,
            )
        } else if !is_absolute_path(home) {
            Err(
                "cannot determine the default log directory because HOME is not absolute; pass --log-dir"@,
            )
        } else {
            Ok(default_log_directory(home))
        },
        (None, None) => Err(
            "cannot determine the default log directory because HOME is not set; pass --log-dir"@,
        ),
    }
}

/// The contents of optional bytes.
pub open spec fn bytes_view(bytes: Option<Vec<u8>>) -> Option<Seq<u8>> {
    match bytes {
        Some(bytes) => Some(bytes@),
        None => None,
    }
}

/// Selects the log directory.
pub fn select_log_directory(log_dir: Option<Vec<u8>>, home: Option<Vec<u8>>) -> (r: Result<
    Vec<u8>,
    String,
>)
    ensures
        match r {
            Ok(path) => selected_log_directory(bytes_view(log_dir), bytes_view(home)) == Ok::<
                _,
                Seq<char>,
            >(path@),
            Err(message) => selected_log_directory(bytes_view(log_dir), bytes_view(home)) == Err::<
                Seq<u8>,
                _,
            >(message@),
        },
{
    if let Some(log_dir) = log_dir {
        return Ok(log_dir);
    }
    match home {
        Some(home) => {
            if home.len() == 0 {
                return Err(
                    "cannot determine the default log directory because HOME is not set; pass --log-dir".to_owned(),
                );
            }
            if home[0] != 0x2f {
                return Err(
                    "cannot determine the default log directory because HOME is not absolute; pass --log-dir".to_owned(),
                );
            }
            let mut path = home;
            if path[path.len() - 1] != 0x2f {
                path.push(0x2f);
            }
            let logs = "Library/Logs".as_bytes();
            let ghost before = path@;
            for i in 0..logs.len()
                invariant
                    path@ == before + logs@.take(i as int),
            {
                path.push(logs[i]);
                assert(logs@.take(i + 1) =~= logs@.take(i as int).push(logs@[i as int]));
            }
            assert(logs@.take(logs@.len() as int) =~= logs@);
            assert(path@ =~= default_log_directory(home@));
            Ok(path)
        },
        None => Err(
            "cannot determine the default log directory because HOME is not set; pass --log-dir".to_owned(),
        ),
    }
}

/// Gateways with different labels do not share a log file: neither their own two
/// files nor those of two labels in one directory are the same.
pub proof fn law_log_files_are_distinct(
    directory: Seq<char>,
    first_label: Seq<char>,
    second_label: Seq<char>,
)
    ensures
        first_label != second_label ==> stdout_log(directory, first_label) != stdout_log(
            directory,
            second_label,
        ),
        first_label != second_label ==> stderr_log(directory, first_label) != stderr_log(
            directory,
            second_label,
        ),
        stdout_log(directory, first_label) != stderr_log(directory, second_label),
{
    reveal_strlit("/");
    reveal_strlit(".stdout.log");
    reveal_strlit(".stderr.log");
    lemma_joined_names_differ(
        directory,
        first_label + ".stdout.log"@,
        second_label + ".stdout.log"@,
    );
    lemma_joined_names_differ(
        directory,
        first_label + ".stderr.log"@,
        second_label + ".stderr.log"@,
    );
    lemma_joined_names_differ(
        directory,
        first_label + ".stdout.log"@,
        second_label + ".stderr.log"@,
    );
    let a = first_label + ".stdout.log"@;
    let b = second_label + ".stdout.log"@;
    if a == b {
        assert(a.take(a.len() - 11) =~= first_label);
        assert(b.take(b.len() - 11) =~= second_label);
    }
    let c = first_label + ".stderr.log"@;
    let d = second_label + ".stderr.log"@;
    if c == d {
        assert(c.take(c.len() - 11) =~= first_label);
        assert(d.take(d.len() - 11) =~= second_label);
    }
    assert(a[a.len() - 5] == 't');
    assert(d[d.len() - 5] == 'r');
}

proof fn lemma_joined_names_differ(directory: Seq<char>, a: Seq<char>, b: Seq<char>)
    ensures
        a != b ==> joined(directory, a) != joined(directory, b),
{
    let start = joined(directory, Seq::<char>::empty());
    assert(joined(directory, a) =~= start + a);
    assert(joined(directory, b) =~= start + b);
    if start + a == start + b {
        assert((start + a).skip(start.len() as int) =~= a);
        assert((start + b).skip(start.len() as int) =~= b);
    }
}

/// The log files stand in the log directory itself: behind its path and one
/// slash comes a name without a slash.
pub proof fn law_log_files_stay_in_the_directory(directory: Seq<char>, label: Seq<char>)
    requires
        config::is_launchd_label(label),
    ensures
        !(label + ".stdout.log"@).contains('/'),
        !(label + ".stderr.log"@).contains('/'),
        joined(directory, label + ".stdout.log"@) == joined(directory, Seq::<char>::empty()) + (
        label + ".stdout.log"@),
        joined(directory, label + ".stderr.log"@) == joined(directory, Seq::<char>::empty()) + (
        label + ".stderr.log"@),
        joined(directory, Seq::<char>::empty()).last() == '/',
{
    reveal_strlit("/");
    reveal_strlit(".stdout.log");
    reveal_strlit(".stderr.log");
    assert(joined(directory, label + ".stdout.log"@) =~= joined(directory, Seq::<char>::empty()) + (
    label + ".stdout.log"@));
    assert(joined(directory, label + ".stderr.log"@) =~= joined(directory, Seq::<char>::empty()) + (
    label + ".stderr.log"@));
    assert forall|i: int| 0 <= i < (label + ".stdout.log"@).len() implies (label
        + ".stdout.log"@)[i] != '/' by {
        if i < label.len() {
            assert((label + ".stdout.log"@)[i] == label[i]);
        }
    }
    assert forall|i: int| 0 <= i < (label + ".stderr.log"@).len() implies (label
        + ".stderr.log"@)[i] != '/' by {
        if i < label.len() {
            assert((label + ".stderr.log"@)[i] == label[i]);
        }
    }
}

/// The line of a key in the gateway's property list.
pub open spec fn key_line(key: Seq<char>) -> Seq<char> {
    "  "@ + "<key>"@ + key + "</key>\n"@
}

/// The line of a text in the gateway's property list.
pub open spec fn text_line(text: Seq<char>) -> Seq<char> {
    "  "@ + "<string>"@ + plist::escaped(text) + "</string>\n"@
}

/// The lines of the gateway's property list, one key and its value after the other.
pub open spec fn gateway_lines(
    label: Seq<char>,
    program: Seq<char>,
    config: Seq<char>,
    stdout_path: Seq<char>,
    stderr_path: Seq<char>,
) -> Seq<char> {
    let arguments = "  "@ + "<array>\n"@ + ("    "@ + "<string>"@ + plist::escaped(program)
        + "</string>\n"@) + ("    "@ + "<string>"@ + plist::escaped(config) + "</string>\n"@)
        + "  "@ + "</array>\n"@;
    let first = Seq::<char>::empty() + key_line("Label"@) + text_line(label);
    let second = first + key_line("ProgramArguments"@) + arguments;
    let third = second + key_line("RunAtLoad"@) + ("  "@ + "<true/>\n"@);
    let fourth = third + key_line("KeepAlive"@) + ("  "@ + "<true/>\n"@);
    let fifth = fourth + key_line("ExitTimeOut"@) + ("  "@ + "<integer>"@ + text::decimal(30)
        + "</integer>\n"@);
    let sixth = fifth + key_line("StandardOutPath"@) + text_line(stdout_path);
    sixth + key_line("StandardErrorPath"@) + text_line(stderr_path)
}

proof fn lemma_keys_are_plain()
    ensures
        plist::escaped("Label"@) == "Label"@,
        plist::escaped("ProgramArguments"@) == "ProgramArguments"@,
        plist::escaped("RunAtLoad"@) == "RunAtLoad"@,
        plist::escaped("KeepAlive"@) == "KeepAlive"@,
        plist::escaped("ExitTimeOut"@) == "ExitTimeOut"@,
        plist::escaped("StandardOutPath"@) == "StandardOutPath"@,
        plist::escaped("StandardErrorPath"@) == "StandardErrorPath"@,
{
    reveal_strlit("Label");
    reveal_strlit("ProgramArguments");
    reveal_strlit("RunAtLoad");
    reveal_strlit("KeepAlive");
    reveal_strlit("ExitTimeOut");
    reveal_strlit("StandardOutPath");
    reveal_strlit("StandardErrorPath");
    plist::lemma_plain_text_is_not_escaped("Label"@);
    plist::lemma_plain_text_is_not_escaped("ProgramArguments"@);
    plist::lemma_plain_text_is_not_escaped("RunAtLoad"@);
    plist::lemma_plain_text_is_not_escaped("KeepAlive"@);
    plist::lemma_plain_text_is_not_escaped("ExitTimeOut"@);
    plist::lemma_plain_text_is_not_escaped("StandardOutPath"@);
    plist::lemma_plain_text_is_not_escaped("StandardErrorPath"@);
}

proof fn lemma_gateway_lines(
    label: Seq<char>,
    program: Seq<char>,
    config: Seq<char>,
    directory: Seq<char>,
)
    ensures
        plist::xml(gateway_plist(label, program, config, directory), 0) == "<dict>\n"@
            + gateway_lines(
            label,
            program,
            config,
            stdout_log(directory, label),
            stderr_log(directory, label),
        ) + "</dict>\n"@,
{
    lemma_keys_are_plain();
    let list = gateway_plist(label, program, config, directory)->Dictionary_0;
    let e0 = Seq::<(Seq<char>, plist::Plist)>::empty();
    let e1 = e0.push(list[0]);
    let e2 = e1.push(list[1]);
    let e3 = e2.push(list[2]);
    let e4 = e3.push(list[3]);
    let e5 = e4.push(list[4]);
    let e6 = e5.push(list[5]);
    let e7 = e6.push(list[6]);
    assert(list =~= e7);
    plist::lemma_entry_lines(e0, list[0].0, list[0].1);
    plist::lemma_entry_lines(e1, list[1].0, list[1].1);
    plist::lemma_entry_lines(e2, list[2].0, list[2].1);
    plist::lemma_entry_lines(e3, list[3].0, list[3].1);
    plist::lemma_entry_lines(e4, list[4].0, list[4].1);
    plist::lemma_entry_lines(e5, list[5].0, list[5].1);
    plist::lemma_entry_lines(e6, list[6].0, list[6].1);
    plist::lemma_two_texts(program, config);
    let lines = gateway_lines(
        label,
        program,
        config,
        stdout_log(directory, label),
        stderr_log(directory, label),
    );
    assert(plist::entries_xml(e0, 1) == Seq::<char>::empty());
    assert(plist::entries_xml(list, 1) == lines);
    assert(plist::indentation_text(0) =~= Seq::<char>::empty());
    assert(plist::xml(gateway_plist(label, program, config, directory), 0) =~= "<dict>\n"@ + lines
        + "</dict>\n"@);
}

proof fn lemma_text_for_xml(s: Seq<char>)
    ensures
        first_non_xml(s) matches Some(c) ==> exists|i: int|
            0 <= i < s.len() && #[trigger] s[i] == c && !is_xml_character(c) && forall|j: int|
                0 <= j < i ==> is_xml_character(#[trigger] s[j]),
        first_non_xml(s) is None ==> forall|i: int|
            0 <= i < s.len() ==> is_xml_character(#[trigger] s[i]),
    decreases s.len(),
{
    if s.len() > 0 {
        let front = s.drop_last();
        lemma_text_for_xml(front);
        if let Some(c) = first_non_xml(front) {
            let i = choose|i: int|
                0 <= i < front.len() && #[trigger] front[i] == c && !is_xml_character(c) && forall|
                    j: int,
                |
                    0 <= j < i ==> is_xml_character(#[trigger] front[j]);
            assert(s[i] == c);
            assert forall|j: int| 0 <= j < i implies is_xml_character(#[trigger] s[j]) by {
                assert(front[j] == s[j]);
            }
        } else {
            assert forall|i: int| 0 <= i < s.len() - 1 implies is_xml_character(
                #[trigger] s[i],
            ) by {
                assert(front[i] == s[i]);
            }
            if !is_xml_character(s.last()) {
                assert(s[s.len() - 1] == s.last());
            }
        }
    }
}

/// A gateway with a label, absolute paths that are text, and a log directory gets its
/// property list: it is started at login and kept running, has thirty seconds to exit,
/// and writes to two files in the log directory that are named after the label.
pub proof fn law_gateway_property_list_is_complete(
    label: &str,
    labelled: bool,
    program: &[u8],
    config: &[u8],
    log_dir: &[u8],
    found: LogDirectory,
    r: Result<String, SetupError>,
)
    requires
        call_ensures(gateway_plist_xml, (label, program, config, log_dir, found), r),
        call_ensures(valid_launchd_label, (label,), labelled),
        labelled,
        found is Directory,
        program@.len() > 0 && program@[0] == 0x2f && vstd::utf8::valid_utf8(program@),
        config@.len() > 0 && config@[0] == 0x2f && vstd::utf8::valid_utf8(config@),
        log_dir@.len() > 0 && log_dir@[0] == 0x2f && vstd::utf8::valid_utf8(log_dir@),
        first_non_xml(label@) is None,
        first_non_xml(vstd::utf8::decode_utf8(program@)) is None,
        first_non_xml(vstd::utf8::decode_utf8(config@)) is None,
        first_non_xml(vstd::utf8::decode_utf8(log_dir@)) is None,
    ensures
        r is Ok,
        ({
            let directory = vstd::utf8::decode_utf8(log_dir@);
            let start = if directory.len() > 0 && directory.last() == '/' {
                directory
            } else {
                directory + "/"@
            };
            r->Ok_0@
                == "<?xml version=\"1.0\" encoding=\"UTF-8\"?>\n<!DOCTYPE plist PUBLIC \"-//Apple//DTD PLIST 1.0//EN\" \"http://www.apple.com/DTDs/PropertyList-1.0.dtd\">\n<plist version=\"1.0\">\n"@
                + ("<dict>\n"@ + gateway_lines(
                label@,
                vstd::utf8::decode_utf8(program@),
                vstd::utf8::decode_utf8(config@),
                start + (label@ + ".stdout.log"@),
                start + (label@ + ".stderr.log"@),
            ) + "</dict>\n"@) + "</plist>\n"@
        }),
{
    let directory = vstd::utf8::decode_utf8(log_dir@);
    lemma_gateway_lines(
        label@,
        vstd::utf8::decode_utf8(program@),
        vstd::utf8::decode_utf8(config@),
        directory,
    );
}

/// The characters that XML can hold, and which of a text is the first that it cannot.
pub proof fn law_first_character_that_xml_cannot_hold(s: Seq<char>, at: int)
    ensures
        (forall|i: int|
            0 <= i < s.len() ==> ' ' <= #[trigger] s[i] && s[i] <= '~' || s[i] == '\t' || s[i]
                == '\n' || s[i] == '\r' || '\u{a0}' <= s[i] && s[i] <= '\u{d7ff}') ==> first_non_xml(
            s,
        ) is None,
        0 <= at < s.len() && ('\u{0}' <= s[at] && s[at] < '\t' || s[at] == '\u{b}' || s[at]
            == '\u{c}' || '\u{e}' <= s[at] && s[at] < ' ' || s[at] == '\u{fffe}' || s[at]
            == '\u{ffff}') && (forall|i: int|
            0 <= i < at ==> ' ' <= #[trigger] s[i] && s[i] <= '~') ==> first_non_xml(s) == Some(
            s[at],
        ),
{
    lemma_text_for_xml(s);
    if forall|i: int|
        0 <= i < s.len() ==> ' ' <= #[trigger] s[i] && s[i] <= '~' || s[i] == '\t' || s[i] == '\n'
            || s[i] == '\r' || '\u{a0}' <= s[i] && s[i] <= '\u{d7ff}' {
        if let Some(c) = first_non_xml(s) {
            let i = choose|i: int|
                0 <= i < s.len() && #[trigger] s[i] == c && !is_xml_character(c) && forall|j: int|
                    0 <= j < i ==> is_xml_character(#[trigger] s[j]);
            assert(is_xml_character(s[i]));
        }
    }
    if 0 <= at < s.len() && ('\u{0}' <= s[at] && s[at] < '\t' || s[at] == '\u{b}' || s[at]
        == '\u{c}' || '\u{e}' <= s[at] && s[at] < ' ' || s[at] == '\u{fffe}' || s[at]
        == '\u{ffff}') && (forall|i: int|
        0 <= i < at ==> ' ' <= #[trigger] s[i] && s[i] <= '~') {
        assert(!is_xml_character(s[at]));
        if let Some(c) = first_non_xml(s) {
            let i = choose|i: int|
                0 <= i < s.len() && #[trigger] s[i] == c && !is_xml_character(c) && forall|j: int|
                    0 <= j < i ==> is_xml_character(#[trigger] s[j]);
            if i < at {
                assert(is_xml_character(s[i]));
            } else if at < i {
                assert(is_xml_character(s[at]));
            }
        }
    }
}

/// What is not in order is reported instead: the label first, then the program, the
/// configuration and the log directory, each for not being absolute before not being
/// text, and last that the log directory is none.
pub proof fn law_broken_setup_is_reported(
    label: &str,
    labelled: bool,
    program: &[u8],
    config: &[u8],
    log_dir: &[u8],
    found: LogDirectory,
    r: Result<String, SetupError>,
)
    requires
        call_ensures(gateway_plist_xml, (label, program, config, log_dir, found), r),
        call_ensures(valid_launchd_label, (label,), labelled),
    ensures
        !labelled ==> r is Err && r->Err_0@ == SetupProblem::InvalidLabel,
        labelled && first_non_xml(label@) is Some ==> r is Err && r->Err_0@
            == (SetupProblem::InvalidXmlCharacter {
            name: "launchd label"@,
            character: first_non_xml(label@)->0,
        }),
        labelled && first_non_xml(label@) is None && !(program@.len() > 0 && program@[0] == 0x2f)
            ==> r is Err && r->Err_0@ == (SetupProblem::PathNotAbsolute {
            name: "program"@,
            path: program@,
        }),
        labelled && first_non_xml(label@) is None && program@.len() > 0 && program@[0] == 0x2f
            && !vstd::utf8::valid_utf8(program@) ==> r is Err && r->Err_0@
            == (SetupProblem::PathNotUtf8 { name: "program"@, path: program@ }),
        r is Ok ==> labelled && found is Directory && program@.len() > 0 && program@[0] == 0x2f
            && config@.len() > 0 && config@[0] == 0x2f && log_dir@.len() > 0 && log_dir@[0] == 0x2f
            && vstd::utf8::valid_utf8(program@) && vstd::utf8::valid_utf8(config@)
            && vstd::utf8::valid_utf8(log_dir@),
{
}

/// The paths behind a program that is in order are reported in the same way.
pub proof fn law_broken_paths_are_reported(
    label: &str,
    labelled: bool,
    program: &[u8],
    config: &[u8],
    log_dir: &[u8],
    found: LogDirectory,
    r: Result<String, SetupError>,
)
    requires
        call_ensures(gateway_plist_xml, (label, program, config, log_dir, found), r),
        call_ensures(valid_launchd_label, (label,), labelled),
        labelled,
        first_non_xml(label@) is None,
        program@.len() > 0 && program@[0] == 0x2f && vstd::utf8::valid_utf8(program@),
        first_non_xml(vstd::utf8::decode_utf8(program@)) is None,
    ensures
        !(config@.len() > 0 && config@[0] == 0x2f) ==> r is Err && r->Err_0@
            == (SetupProblem::PathNotAbsolute { name: "configuration"@, path: config@ }),
        ({
            let configured = config@.len() > 0 && config@[0] == 0x2f && vstd::utf8::valid_utf8(
                config@,
            ) && first_non_xml(vstd::utf8::decode_utf8(config@)) is None;
            let directory = log_dir@.len() > 0 && log_dir@[0] == 0x2f && vstd::utf8::valid_utf8(
                log_dir@,
            ) && first_non_xml(vstd::utf8::decode_utf8(log_dir@)) is None;
            &&& configured && !(log_dir@.len() > 0 && log_dir@[0] == 0x2f) ==> r is Err
                && r->Err_0@ == (SetupProblem::PathNotAbsolute {
                name: "log directory"@,
                path: log_dir@,
            })
            &&& configured && directory && found is NotDirectory ==> r is Err && r->Err_0@
                == (SetupProblem::LogDirectoryNotDirectory { path: log_dir@ })
            &&& configured && directory && found is Unavailable ==> r is Err && r->Err_0@
                == (SetupProblem::LogDirectoryUnavailable {
                path: log_dir@,
                source: found->Unavailable_0@,
            })
        }),
{
}

/// The log directory is the one that was named, whatever the home directory is; without
/// one it is `Library/Logs` in the home directory, which must be known and absolute.
pub proof fn law_log_directory_is_selected(
    log_dir: Option<Vec<u8>>,
    home: Option<Vec<u8>>,
    r: Result<Vec<u8>, String>,
)
    requires
        call_ensures(select_log_directory, (log_dir, home), r),
    ensures
        log_dir matches Some(path) ==> r is Ok && r->Ok_0@ == path@,
        log_dir is None && home is Some && home->0@.len() > 0 && home->0@[0] == 0x2f ==> {
            let path = home->0@;
            let logs = seq![
                0x4cu8,
                0x69,
                0x62,
                0x72,
                0x61,
                0x72,
                0x79,
                0x2f,
                0x4c,
                0x6f,
                0x67,
                0x73,
            ];
            &&& r is Ok
            &&& path.last() == 0x2f ==> r->Ok_0@ == path + logs
            &&& path.last() != 0x2f ==> r->Ok_0@ == path.push(0x2f) + logs
        },
        log_dir is None && (home is None || home->0@.len() == 0) ==> r is Err && r->Err_0@
            == "cannot determine the default log directory because HOME is not set; pass --log-dir"@,
        log_dir is None && home is Some && home->0@.len() > 0 && home->0@[0] != 0x2f ==> r is Err
            && r->Err_0@
            == "cannot determine the default log directory because HOME is not absolute; pass --log-dir"@,
{
    reveal_strlit("Library/Logs");
    vstd::utf8::is_ascii_chars_encode_utf8("Library/Logs"@);
    assert(library_logs() =~= seq![
        0x4cu8,
        0x69,
        0x62,
        0x72,
        0x61,
        0x72,
        0x79,
        0x2f,
        0x4c,
        0x6f,
        0x67,
        0x73,
    ]);
}

/// The property list is written to an absolute path only.
pub proof fn law_output_path_is_absolute(output: &[u8], r: Result<(), String>)
    requires
        call_ensures(validate_output_path, (output,), r),
    ensures
        r is Ok <==> output@.len() > 0 && output@[0] == 0x2f,
        r is Err ==> r->Err_0@ == "--output must be an absolute path"@,
{
}

/// What is shown of a problem names what it lies with; where it lies with the log
/// directory that was not chosen, and is not that the path is not absolute, another can
/// be chosen.
pub proof fn law_setup_problems_are_shown(
    error: SetupError,
    message: String,
    by_default: bool,
    command: String,
)
    requires
        call_ensures(SetupError::message, (&error,), message),
        call_ensures(SetupError::command_message, (&error, by_default), command),
    ensures
        error is InvalidLabel ==> message@ == "launchd label is invalid"@,
        error matches SetupError::PathNotAbsolute { name, path } ==> message@ == name@
            + " path must be absolute: "@ + lossy_text(path@),
        error matches SetupError::PathNotUtf8 { name, path } ==> message@ == name@
            + " path is not valid UTF-8: "@ + lossy_text(path@),
        error matches SetupError::LogDirectoryUnavailable { path, source } ==> message@
            == "cannot inspect log directory "@ + lossy_text(path@) + ": "@ + source@,
        error matches SetupError::LogDirectoryNotDirectory { path } ==> message@
            == "log directory path is not a directory: "@ + lossy_text(path@),
        error matches SetupError::InvalidXmlCharacter { name, character } ==> (
        name@ + " contains an XML 1.0-incompatible character (U+"@).is_prefix_of(message@),
        by_default && (error is LogDirectoryUnavailable || error is LogDirectoryNotDirectory)
            ==> command@ == message@ + "; pass --log-dir to select another directory"@,
        by_default && (error matches SetupError::PathNotUtf8 { name, .. } && name@
            == "log directory"@) ==> command@ == message@
            + "; pass --log-dir to select another directory"@,
        !by_default || error is InvalidLabel || error is PathNotAbsolute ==> command@ == message@,
{
    if let SetupError::InvalidXmlCharacter { name, character } = error {
        let start = name@ + " contains an XML 1.0-incompatible character (U+"@;
        assert(message@.take(start.len() as int) =~= start);
    }
}

/// A hexadecimal digit, as it is shown.
pub open spec fn shown_digit(n: int) -> char {
    if n < 10 {
        (0x30 + n) as char
    } else {
        (0x37 + n) as char
    }
}

/// A character that XML cannot hold is shown by its number, in four hexadecimal digits
/// where it has no more.
pub proof fn law_broken_characters_are_shown_by_number(error: SetupError, message: String)
    requires
        call_ensures(SetupError::message, (&error,), message),
    ensures
        error matches SetupError::InvalidXmlCharacter { name, character } ==> (character as u32
            <= 0xffff ==> {
            let n = character as int;
            message@ == name@ + " contains an XML 1.0-incompatible character (U+"@ + seq![
                shown_digit(n / 0x1000),
                shown_digit(n / 0x100 % 0x10),
                shown_digit(n / 0x10 % 0x10),
                shown_digit(n % 0x10),
            ] + ")"@
        }),
{
    if let SetupError::InvalidXmlCharacter { name, character } = error {
        if character as u32 <= 0xffff {
            let n = character as nat;
            reveal_with_fuel(hex, 5);
            assert(n / 16 / 16 == n / 256 && n / 16 / 16 / 16 == n / 4096);
            assert(hex(n, 4) =~= seq![
                shown_digit(n as int / 0x1000),
                shown_digit(n as int / 0x100 % 0x10),
                shown_digit(n as int / 0x10 % 0x10),
                shown_digit(n as int % 0x10),
            ]);
        }
    }
}

} // verus!
