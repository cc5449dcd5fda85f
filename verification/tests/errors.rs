use protein_graph::{AppError, AppErrorType};

#[test]
fn error_codes_follow_kind_order() {
    let cases = [
        (AppErrorType::Success, 0),
        (AppErrorType::DefaultErr, 1),
        (AppErrorType::Neo4jErr, 2),
        (AppErrorType::ArgmentErr, 3),
        (AppErrorType::MalformedResult, 4),
        (AppErrorType::ScoreParseErr, 5),
    ];
    for (kind, code) in cases {
        let e = AppError::new(kind, String::new());
        assert_eq!(e.code(), code);
        assert_eq!(e.kind(), kind);
    }
}

#[test]
fn error_message_is_label_colon_detail() {
    let e = AppError::new(AppErrorType::Neo4jErr, "connection refused".to_string());
    assert_eq!(e.msg(), "Neo4jErr:connection refused");
    let ok = AppError::new(AppErrorType::Success, String::new());
    assert_eq!(ok.msg(), "Ok:");
    let p = AppError::new(AppErrorType::ScoreParseErr, "bad score".to_string());
    assert_eq!(p.msg(), "ScoreParseErr:bad score");
    assert_eq!(p.code(), 5);
}
