use virtualdj_library::error::LibraryError;

#[test]
fn not_found_has_a_fixed_message() {
    assert_eq!(LibraryError::NotFound.message(), "VirtualDJ files not found");
}

#[test]
fn io_failure_says_its_cause() {
    let error = LibraryError::Io("No such file or directory (os error 2)".to_string());
    assert_eq!(error.message(), "No such file or directory (os error 2)");
}

#[test]
fn parse_failure_says_its_cause_behind_an_opening() {
    let error = LibraryError::Parse("missing field `@FilePath`".to_string());
    assert_eq!(error.message(), "XML parsing error: missing field `@FilePath`");
    assert_eq!(LibraryError::Parse(String::new()).message(), "XML parsing error: ");
}
