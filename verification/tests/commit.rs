use gash::args::{Args, ConfigValues, RawArgs};
use gash::commit::Commit;
use gash::error::GashError;
use sha1::{Digest, Sha1};

fn no_config() -> ConfigValues {
    ConfigValues {
        default_signature: None,
        max_variance: None,
        parallel: None,
        progress: None,
        color: None,
        stealth: None,
    }
}

fn make_args(signature: &str, max_variance: i64, parallel: bool, stealth: bool) -> Args {
    let raw = RawArgs {
        signature: Some(signature.to_string()),
        max_variance: Some(max_variance),
        parallel,
        progress: false,
        color: false,
        stealth,
        force: false,
        dry_run: false,
        verbosity: 0,
    };
    Args::resolve(&raw, &no_config()).unwrap()
}

fn sample_commit() -> String {
    let mut s = String::new();
    s.push_str("tree 0123456789abcdef0123456789abcdef01234567\n");
    s.push_str("author Ada Lovelace <ada@example.com> 1585818825 +1100\n");
    s.push_str("committer Grace Hopper <grace@example.com> 1585818825 +1100\n");
    s.push_str("\n");
    s.push_str("Search target\n");
    s
}

fn reference_digest_hex(record: &[u8]) -> String {
    let mut framed = format!("commit {}\0", record.len()).into_bytes();
    framed.extend_from_slice(record);
    hex::encode(Sha1::digest(&framed))
}

#[test]
fn zero_delta_reproduces_the_record() {
    let text = sample_commit();
    let commit = Commit::new(text.clone().into_bytes()).unwrap();
    assert_eq!(text.as_bytes(), commit.with_diff(0, 0).as_slice());
}

#[test]
fn patch_changes_only_the_timestamps() {
    let text = sample_commit();
    let commit = Commit::new(text.clone().into_bytes()).unwrap();
    let patched = String::from_utf8(commit.with_diff(5, -7)).unwrap();
    let expected = text
        .replace(
            "author Ada Lovelace <ada@example.com> 1585818825",
            "author Ada Lovelace <ada@example.com> 1585818830",
        )
        .replace(
            "committer Grace Hopper <grace@example.com> 1585818825",
            "committer Grace Hopper <grace@example.com> 1585818818",
        );
    assert_eq!(expected, patched);
}

#[test]
fn patch_can_cross_zero() {
    let text = "author A <a@b> 5 +0000\ncommitter A <a@b> 5 +0000\n";
    let commit = Commit::new(text.as_bytes().to_vec()).unwrap();
    let patched = String::from_utf8(commit.with_diff(-9, 9)).unwrap();
    assert_eq!("author A <a@b> -4 +0000\ncommitter A <a@b> 14 +0000\n", patched);
}

#[test]
fn missing_timestamps_is_an_error() {
    let cases = [
        "",
        "tree 0123\n\nno timestamps here\n",
        "author Ada Lovelace <ada@example.com> 1585818825 +1100\n",
        "author broken line without marker 1585818825 +1100\ncommitter also broken\n",
    ];
    for text in cases {
        match Commit::new(text.as_bytes().to_vec()) {
            Err(GashError::MissingTimestamps) => {}
            _ => panic!("expected MissingTimestamps for {:?}", text),
        }
    }
}

#[test]
fn oversized_timestamp_is_an_error() {
    let text = "author A <a@b> 1234567890123456789012 +0000\n\
                committer A <a@b> 1234567890123456789012 +0000\n";
    match Commit::new(text.as_bytes().to_vec()) {
        Err(GashError::TimestampOutOfRange) => {}
        _ => panic!("expected TimestampOutOfRange"),
    }
}

#[test]
fn search_even_prefix() {
    let text = sample_commit();
    let commit = Commit::new(text.clone().into_bytes()).unwrap();
    let args = make_args("1337", 3600, false, false);
    let result = commit.brute_force_sha1(&args).unwrap().expect("no match found");
    assert!(result.sha1.starts_with("1337"), "got {}", result.sha1);
    // The engine's digest agrees with an independent hash of its own record.
    assert_eq!(reference_digest_hex(&result.patched_commit), result.sha1);
    // The patched record still parses, with timestamps within the variance.
    let patched = String::from_utf8(result.patched_commit.clone()).unwrap();
    assert!(patched.contains("author Ada Lovelace <ada@example.com> "));
    assert!(patched.contains("committer Grace Hopper <grace@example.com> "));
}

#[test]
fn search_odd_prefix() {
    let text = sample_commit();
    let commit = Commit::new(text.into_bytes()).unwrap();
    let args = make_args("123", 3600, false, false);
    let result = commit.brute_force_sha1(&args).unwrap().expect("no match found");
    assert!(result.sha1.starts_with("123"), "got {}", result.sha1);
    // Verify via the odd-length nibble-range rule, not substring match alone:
    // the leftover character '3' covers byte values 48..=63 of the second byte.
    let bytes = hex::decode(&result.sha1).unwrap();
    assert_eq!(0x12, bytes[0]);
    assert!((48..=63).contains(&bytes[1]), "byte {}", bytes[1]);
    assert_eq!(reference_digest_hex(&result.patched_commit), result.sha1);
}

#[test]
fn search_odd_suffix() {
    let text = sample_commit();
    let commit = Commit::new(text.into_bytes()).unwrap();
    let args = make_args("123", 3600, false, true);
    let result = commit.brute_force_sha1(&args).unwrap().expect("no match found");
    assert!(result.sha1.ends_with("123"), "got {}", result.sha1);
    // Verified via the subtraction rule: the byte before the even chunk has
    // the leftover character's value as its lower nibble.
    let bytes = hex::decode(&result.sha1).unwrap();
    assert_eq!(0x23, bytes[19]);
    let word = bytes[18];
    assert!(word >= 1 && (word - 1) & 0xf == 0, "byte {}", word);
    assert_eq!(reference_digest_hex(&result.patched_commit), result.sha1);
}

#[test]
fn sequential_search_is_reproducible() {
    let text = sample_commit();
    let commit = Commit::new(text.clone().into_bytes()).unwrap();
    let args = make_args("ab", 3600, false, false);
    let first = commit.brute_force_sha1(&args).unwrap().expect("no match found");
    let again = Commit::new(text.into_bytes()).unwrap();
    let second = again.brute_force_sha1(&args).unwrap().expect("no match found");
    assert_eq!(first.sha1, second.sha1);
    assert_eq!(first.patched_commit, second.patched_commit);
}

#[test]
fn parallel_search_result_satisfies_the_signature() {
    let text = sample_commit();
    let commit = Commit::new(text.into_bytes()).unwrap();
    let args = make_args("ab", 3600, true, false);
    let result = commit.brute_force_sha1(&args).unwrap().expect("no match found");
    assert!(result.sha1.starts_with("ab"), "got {}", result.sha1);
    assert_eq!(reference_digest_hex(&result.patched_commit), result.sha1);
}

#[test]
fn invalid_signature_fails_before_any_search() {
    let text = sample_commit();
    let commit = Commit::new(text.into_bytes()).unwrap();
    // The special word "hook" passes resolution but is not a hex signature.
    let args = make_args("hook", 3600, false, false);
    match commit.brute_force_sha1(&args) {
        Err(GashError::SignatureNotHex) => {}
        _ => panic!("expected SignatureNotHex"),
    }
}

#[test]
fn zero_variance_exhausts_immediately() {
    let text = sample_commit();
    let commit = Commit::new(text.into_bytes()).unwrap();
    let args = make_args("1337", 0, false, false);
    assert!(commit.brute_force_sha1(&args).unwrap().is_none());
}

#[test]
fn result_reports_the_deltas() {
    let text = sample_commit();
    let commit = Commit::new(text.into_bytes()).unwrap();
    let args = make_args("e", 3600, false, false);
    let result = commit.brute_force_sha1(&args).unwrap().expect("no match found");
    // Both timestamps came from 1585818825 +1100; the result's deltas
    // render against that instant.
    let shown = result.da.display_string();
    assert!(shown.contains("+1100)"), "got {}", shown);
    let shown_c = result.dc.display_string();
    assert!(shown_c.contains("+1100)"), "got {}", shown_c);
}
