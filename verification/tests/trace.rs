use git_sshripped::trace::init_trace;

#[test]
fn tracing_switched_on_by_known_values() {
    for v in ["1", "true", "on"] {
        assert_eq!(init_trace(Some(v), None), Some("trace".to_string()));
    }
    assert_eq!(init_trace(Some("on"), Some("git_sshripped=debug")), Some("git_sshripped=debug".to_string()));
}

#[test]
fn tracing_off_otherwise() {
    assert_eq!(init_trace(None, Some("trace")), None);
    assert_eq!(init_trace(Some("0"), None), None);
    assert_eq!(init_trace(Some("TRUE"), None), None);
    assert_eq!(init_trace(Some("yes"), None), None);
    assert_eq!(init_trace(Some(""), None), None);
}
