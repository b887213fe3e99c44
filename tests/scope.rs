use jailer::error::JailError;
use jailer::scope::finish_scope;
use std::io::{Error, ErrorKind};

#[test]
fn scope_returns_work_when_close_succeeds() {
    assert_eq!(finish_scope::<u32, String>(Ok(5), Ok(())), Ok(5));
    assert_eq!(
        finish_scope::<u32, String>(Err("work".to_string()), Ok(())),
        Err("work".to_string())
    );
}

#[test]
fn scope_close_error_wins() {
    assert_eq!(
        finish_scope::<u32, String>(Ok(5), Err("close".to_string())),
        Err("close".to_string())
    );
    assert_eq!(
        finish_scope::<u32, String>(Err("work".to_string()), Err("close".to_string())),
        Err("close".to_string())
    );
}

#[test]
fn error_kinds_keep_their_source() {
    let e = JailError::TempDirCreationFailed(Error::new(ErrorKind::NotFound, "gone"));
    assert_eq!(e.into_source().kind(), ErrorKind::NotFound);
    let e = JailError::DirectoryDeletionFailed(Error::new(ErrorKind::Other, "busy"));
    assert_eq!(e.into_source().to_string(), "busy");
}
