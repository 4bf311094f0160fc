use lumindd::DdError;

#[test]
fn display_out_of_nodes() {
    let e = DdError::OutOfNodes { limit: 1_000_000 };
    assert!(e.to_string().contains("1000000"));
}

#[test]
fn display_invalid_variable() {
    let e = DdError::InvalidVariable {
        var: 42,
        num_vars: 10,
    };
    let s = e.to_string();
    assert!(s.contains("42"));
    assert!(s.contains("10"));
}

#[test]
fn from_io_error() {
    let io_err = std::io::Error::new(std::io::ErrorKind::NotFound, "file missing");
    let dd_err: DdError = io_err.into();
    match dd_err {
        DdError::IoError(msg) => assert!(msg.contains("file missing")),
        _ => panic!("expected IoError variant"),
    }
}

#[test]
fn from_string() {
    let dd_err: DdError = "something went wrong".into();
    match dd_err {
        DdError::Other(msg) => assert_eq!(msg, "something went wrong"),
        _ => panic!("expected Other variant"),
    }
}

#[test]
fn error_trait() {
    let e = DdError::Timeout;
    assert!(e.to_string().contains("timed out"));
}

#[test]
fn error_messages_exact() {
    assert_eq!(
        DdError::OutOfNodes { limit: 12 }.to_string(),
        "node arena capacity exceeded (limit: 12)"
    );
    assert_eq!(
        DdError::NodeLimitExceeded { limit: 0 }.to_string(),
        "operation exceeded node count limit of 0"
    );
    assert_eq!(DdError::Timeout.to_string(), "operation timed out");
    assert_eq!(
        DdError::InvalidVariable { var: 3, num_vars: 2 }.to_string(),
        "invalid variable index 3 (manager has 2 variables)"
    );
    assert_eq!(DdError::IoError("x".to_string()).to_string(), "I/O error: x");
    assert_eq!(DdError::Other("plain".to_string()).to_string(), "plain");
}

#[test]
fn error_from_owned_string() {
    let e: DdError = String::from("owned").into();
    match e {
        DdError::Other(msg) => assert_eq!(msg, "owned"),
        _ => panic!("expected Other variant"),
    }
}
