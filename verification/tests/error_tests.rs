use msw_core::error::Error;

#[test]
fn every_error_reads_as_a_sentence() {
    assert_eq!(Error::BufferSizes(87).message(), "GetDisplayConfigBufferSizes failed (Win32 error 87)");
    assert_eq!(Error::Query(5).message(), "QueryDisplayConfig failed (Win32 error 5)");
    assert_eq!(
        Error::ApplyFailed { last_status: -2 }.message(),
        "could not apply the display configuration; every strategy was rejected (last Win32 error -2)"
    );
    assert_eq!(Error::NoSuchProfile("Nope".into()).message(), "no profile named \"Nope\"");
    assert_eq!(Error::ProfileExists("Work".into()).message(), "a profile named \"Work\" already exists");
    assert_eq!(Error::InvalidProfileName("a/b".into()).message(), "\"a/b\" is not a usable profile name");
    assert_eq!(
        Error::ProfileParse { path: "p.json".into(), message: "eof".into() }.message(),
        "profile p.json is not valid JSON: eof"
    );
    assert_eq!(
        Error::Io { path: "p.json".into(), message: "denied".into() }.message(),
        "could not read or write p.json: denied"
    );
    assert_eq!(
        Error::NoDataDir.message(),
        "could not locate the per-user application data directory"
    );
}

#[test]
fn a_carried_name_is_shown_as_given() {
    assert_eq!(Error::NoSuchProfile("x".into()).message_with("<Work>"), "no profile named <Work>");
    assert_eq!(Error::NoDataDir.message_with("ignored"), "could not locate the per-user application data directory");
}
