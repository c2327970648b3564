use sherlog::dispatch::route;
use sherlog::search::message_matches;
use sherlog::dispatch::LogParseError;
use sherlog::dispatch::ParserKind;

#[test]
fn extension_matching_is_case_insensitive() {
    assert_eq!(route("foo.GLOG"), Ok(ParserKind::Glog));
    assert_eq!(route("foo.glog"), Ok(ParserKind::Glog));
    assert_eq!(route("foo.GlOg"), Ok(ParserKind::Glog));
}

#[test]
fn known_extensions_route() {
    assert_eq!(route("a.sfile"), Ok(ParserKind::Sfile));
    assert_eq!(route("a.LFILE"), Ok(ParserKind::Sfile));
    assert_eq!(route("a.txt"), Ok(ParserKind::SniffText));
    assert_eq!(route("dir.name.glog"), Ok(ParserKind::Glog));
}

#[test]
fn unknown_extension_is_reported() {
    match route("foo.xyz") {
        Err(LogParseError::UnrecognizedFileExtension(e)) => assert_eq!(e, "xyz"),
        _ => panic!("expected an unrecognized-extension error"),
    }
}

#[test]
fn missing_extension_is_reported() {
    assert!(matches!(route("foo"), Err(LogParseError::NoFileExtension)));
    // A hidden file's leading dot is not an extension separator.
    assert!(matches!(route(".glog"), Err(LogParseError::NoFileExtension)));
}

#[test]
fn error_descriptions() {
    assert_eq!(
        LogParseError::UnrecognizedFileExtension("xyz".to_string()).describe(),
        "Unrecognized file extension: xyz"
    );
    assert_eq!(LogParseError::NoFileExtension.describe(), "No file extension");
    assert_eq!(
        LogParseError::UnrecognizedLogFile("a.txt".to_string()).describe(),
        "File 'a.txt' is not known log file. Parsing failed."
    );
    assert_eq!(
        LogParseError::IoError("denied".to_string()).describe(),
        "I/O error: denied"
    );
}

#[test]
fn search_predicate_case_modes() {
    assert!(message_matches("Selecting tracker", "track", false));
    assert!(!message_matches("Selecting tracker", "TRACK", false));
    assert!(message_matches("Selecting tracker", "TRACK", true));
    assert!(message_matches("abc", "", true));
    assert!(message_matches("abc", "", false));
    assert!(!message_matches("ab", "abc", true));
    assert!(message_matches("xxAbCyy", "aBc", true));
}
