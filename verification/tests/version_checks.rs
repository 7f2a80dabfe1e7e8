use buildsys::retry::{default_build_retry, docker_retry_decision, Retry, RetryDecision, RetryPolicy};
use buildsys::version::{check_docker_version, parse_version, version_meets_minimum, VersionError};

#[test]
fn test_docker_version_req_25_0_5_passes() {
    let version = parse_version("25.0.5").unwrap();
    assert!(version_meets_minimum(&version));
}

#[test]
fn test_docker_version_req_27_1_4_passes() {
    let version = parse_version("27.1.4").unwrap();
    assert!(version_meets_minimum(&version));
}

#[test]
fn test_docker_version_req_18_0_9_fails() {
    let version = parse_version("18.0.9").unwrap();
    assert!(!version_meets_minimum(&version));
}

#[test]
fn test_docker_version_req_20_10_27_fails() {
    let version = parse_version("20.10.27").unwrap();
    assert!(!version_meets_minimum(&version));
}

#[test]
fn version_minimum_boundary() {
    assert!(matches!(check_docker_version("22.9.9"), Err(VersionError::TooOld { major: 22, minor: 9, patch: 9 })));
    assert!(check_docker_version("23.0.0").is_ok());
    assert!(check_docker_version("27.1.4").is_ok());
}

#[test]
fn version_rejects_garbage() {
    assert!(matches!(check_docker_version("not-a-version"), Err(VersionError::Unparseable)));
    assert!(matches!(check_docker_version(""), Err(VersionError::Unparseable)));
}

#[test]
fn version_rejects_prerelease() {
    assert!(matches!(check_docker_version("24.0.0-rc.1"), Err(VersionError::TooOld { major: 24, .. })));
}

#[test]
fn version_fields_come_through() {
    let v = parse_version("25.0.5").unwrap();
    assert_eq!(v.major, 25);
    assert_eq!(v.minor, 0);
    assert_eq!(v.patch, 5);
    assert!(v.pre.is_empty());
}

#[test]
fn retry_on_dead_record_signature() {
    let retry = default_build_retry();
    let text = "some output\nerror: failed to get dead record\nmore text\n";
    assert_eq!(docker_retry_decision(false, text, 1, &retry), RetryDecision::TryAgain);
}

#[test]
fn no_retry_without_matching_signature() {
    let retry = default_build_retry();
    let text = "some output\nerror: compilation failed\n";
    assert_eq!(docker_retry_decision(false, text, 1, &retry), RetryDecision::GiveUp);
}

#[test]
fn success_is_accepted_at_once() {
    let retry = default_build_retry();
    assert_eq!(docker_retry_decision(true, "anything", 1, &retry), RetryDecision::Accept);
}

#[test]
fn retry_bound_is_respected() {
    let retry = default_build_retry();
    let text = "error: failed to get dead record\n";
    assert_eq!(docker_retry_decision(false, text, 9, &retry), RetryDecision::TryAgain);
    assert_eq!(docker_retry_decision(false, text, 10, &retry), RetryDecision::GiveUp);
}

#[test]
fn no_retry_when_disallowed() {
    let text = "error: failed to get dead record\n";
    assert_eq!(docker_retry_decision(false, text, 1, &Retry::No), RetryDecision::GiveUp);
}

#[test]
fn line_end_signature_needs_a_line_end() {
    let retry = default_build_retry();
    assert_eq!(
        docker_retry_decision(false, "log: unexpected EOF\nrest\n", 1, &retry),
        RetryDecision::TryAgain
    );
    assert_eq!(
        docker_retry_decision(false, "log: unexpected EOF", 1, &retry),
        RetryDecision::TryAgain
    );
    assert_eq!(
        docker_retry_decision(false, "log: unexpected EOF happened\n", 1, &retry),
        RetryDecision::GiveUp
    );
}

#[test]
fn custom_policy_patterns_apply() {
    let policy = RetryPolicy {
        attempts: 3,
        patterns: vec![buildsys::retry::Pattern { text: "flaky".to_string(), at_line_end: false }],
    };
    let retry = Retry::Yes(policy);
    assert_eq!(docker_retry_decision(false, "a flaky failure", 2, &retry), RetryDecision::TryAgain);
    assert_eq!(docker_retry_decision(false, "a real failure", 2, &retry), RetryDecision::GiveUp);
}
