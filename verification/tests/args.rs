use gash::args::{parse_i64, Args, ConfigValues, RawArgs};
use gash::error::GashError;

fn raw(signature: Option<&str>, max_variance: Option<i64>) -> RawArgs {
    RawArgs {
        signature: signature.map(|s| s.to_string()),
        max_variance,
        parallel: false,
        progress: false,
        color: false,
        stealth: false,
        force: false,
        dry_run: false,
        verbosity: 0,
    }
}

fn cfg() -> ConfigValues {
    ConfigValues {
        default_signature: None,
        max_variance: None,
        parallel: None,
        progress: None,
        color: None,
        stealth: None,
    }
}

#[test]
fn parse_i64_accepts_standard_forms() {
    assert_eq!(Some(0), parse_i64("0"));
    assert_eq!(Some(42), parse_i64("+42"));
    assert_eq!(Some(-5), parse_i64("-5"));
    assert_eq!(Some(12), parse_i64("00012"));
    assert_eq!(Some(i64::MAX), parse_i64("9223372036854775807"));
    assert_eq!(Some(i64::MIN), parse_i64("-9223372036854775808"));
}

#[test]
fn parse_i64_rejects_bad_forms() {
    assert_eq!(None, parse_i64(""));
    assert_eq!(None, parse_i64("+"));
    assert_eq!(None, parse_i64("-"));
    assert_eq!(None, parse_i64("1a"));
    assert_eq!(None, parse_i64(" 1"));
    assert_eq!(None, parse_i64("9223372036854775808"));
    assert_eq!(None, parse_i64("-9223372036854775809"));
    assert_eq!(None, parse_i64("99999999999999999999999"));
}

#[test]
fn command_line_signature_wins_over_config() {
    let mut c = cfg();
    c.default_signature = Some("beef".to_string());
    let a = Args::resolve(&raw(Some("dead"), None), &c).unwrap();
    assert_eq!("dead", a.signature());
}

#[test]
fn configured_default_signature_applies() {
    let mut c = cfg();
    c.default_signature = Some("beef".to_string());
    let a = Args::resolve(&raw(None, None), &c).unwrap();
    assert_eq!("beef", a.signature());
}

#[test]
fn missing_signature_is_an_error() {
    match Args::resolve(&raw(None, None), &cfg()) {
        Err(GashError::NoSignature) => {}
        _ => panic!("expected NoSignature"),
    }
}

#[test]
fn long_signature_is_an_error() {
    let sig = "0123456789012345678901234567890123456789a";
    match Args::resolve(&raw(Some(sig), None), &cfg()) {
        Err(GashError::SignatureTooLong) => {}
        _ => panic!("expected SignatureTooLong"),
    }
}

#[test]
fn non_hex_signature_is_an_error() {
    match Args::resolve(&raw(Some("nope!"), None), &cfg()) {
        Err(GashError::SignatureNotHex) => {}
        _ => panic!("expected SignatureNotHex"),
    }
}

#[test]
fn hook_bypasses_the_hex_check() {
    let a = Args::resolve(&raw(Some("hook"), None), &cfg()).unwrap();
    assert_eq!("hook", a.signature());
}

#[test]
fn variance_defaults_to_an_hour() {
    let a = Args::resolve(&raw(Some("ab"), None), &cfg()).unwrap();
    assert_eq!(3600, a.max_variance());
}

#[test]
fn configured_variance_is_parsed() {
    let mut c = cfg();
    c.max_variance = Some("7200".to_string());
    let a = Args::resolve(&raw(Some("ab"), None), &c).unwrap();
    assert_eq!(7200, a.max_variance());
}

#[test]
fn command_line_variance_wins_over_config() {
    let mut c = cfg();
    c.max_variance = Some("7200".to_string());
    let a = Args::resolve(&raw(Some("ab"), Some(60)), &c).unwrap();
    assert_eq!(60, a.max_variance());
}

#[test]
fn unparsable_variance_is_an_error() {
    let mut c = cfg();
    c.max_variance = Some("soon".to_string());
    match Args::resolve(&raw(Some("ab"), None), &c) {
        Err(GashError::BadMaxVariance) => {}
        _ => panic!("expected BadMaxVariance"),
    }
}

#[test]
fn boolean_settings_follow_flag_or_config() {
    let mut c = cfg();
    c.parallel = Some("true".to_string());
    c.progress = Some("false".to_string());
    c.stealth = Some("yes".to_string());
    let mut r = raw(Some("ab"), None);
    r.color = true;
    let a = Args::resolve(&r, &c).unwrap();
    assert_eq!(true, a.parallel());
    assert_eq!(false, a.progress());
    assert_eq!(true, a.color());
    assert_eq!(false, a.stealth());
}

#[test]
fn legacy_surface_resolves_the_same_values() {
    let mut c = cfg();
    c.max_variance = Some("60".to_string());
    c.parallel = Some("true".to_string());
    let a = gash::cli::Args::resolve(&raw(Some("cafe"), None), &c);
    assert_eq!("cafe", a.prefix());
    assert_eq!(60, a.max_variance());
    assert_eq!(true, a.parallel());
    assert_eq!(false, a.progress());
    assert_eq!(false, a.color());
}
