use rustdb::RustDbError;
use std::collections::BTreeMap;

fn json_error(text: &str) -> serde_json::Error {
    serde_json::from_str::<BTreeMap<String, String>>(text).expect_err("an error")
}

#[test]
fn io_error_becomes_io_error() {
    let err = std::io::Error::new(std::io::ErrorKind::PermissionDenied, "denied");
    match RustDbError::from(err) {
        RustDbError::IoError(inner) => {
            assert_eq!(inner.kind(), std::io::ErrorKind::PermissionDenied);
        }
        other => panic!("not an I/O error: {:?}", other),
    }
}

#[test]
fn json_error_of_an_early_end_becomes_deserialization_error() {
    let err = json_error("{\"a\": \"1\"");
    assert!(err.is_eof());
    let line = err.line();
    match RustDbError::from(err) {
        RustDbError::DeserializationError(inner) => {
            assert!(inner.is_eof());
            assert_eq!(inner.line(), line);
        }
        other => panic!("not a deserialization error: {:?}", other),
    }
}

#[test]
fn json_error_of_bad_syntax_becomes_deserialization_error() {
    let err = json_error("{\"a\" \"1\"}");
    assert!(err.is_syntax());
    match RustDbError::from(err) {
        RustDbError::DeserializationError(inner) => assert!(inner.is_syntax()),
        other => panic!("not a deserialization error: {:?}", other),
    }
}

#[test]
fn json_error_of_bad_data_becomes_deserialization_error() {
    let err = json_error("{\"a\": 1}");
    assert!(err.is_data());
    match RustDbError::from(err) {
        RustDbError::DeserializationError(inner) => assert!(inner.is_data()),
        other => panic!("not a deserialization error: {:?}", other),
    }
}

#[test]
fn question_mark_converts_both_errors() {
    fn read() -> Result<(), RustDbError> {
        Err(std::io::Error::new(std::io::ErrorKind::NotFound, "missing"))?;
        Ok(())
    }
    fn parse() -> Result<BTreeMap<String, String>, RustDbError> {
        Ok(serde_json::from_str("{")?)
    }
    assert!(matches!(read(), Err(RustDbError::IoError(_))));
    assert!(matches!(parse(), Err(RustDbError::DeserializationError(_))));
}

#[test]
fn errors_can_be_printed_for_debugging() {
    assert_eq!(format!("{:?}", RustDbError::KeyNotFound), "KeyNotFound");
    let text = format!("{:?}", RustDbError::from(json_error("{")));
    assert!(text.starts_with("DeserializationError("), "{}", text);
}
