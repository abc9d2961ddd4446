use rumgap::interceptor::auth::{AccessError, ADMIN, USER};
use rumgap::service::v1::scraper::{HostnameAggregate, LatestAttempt, RecentError, ScraperController};

fn attempt(hostname: &str, at: i64, success: bool) -> LatestAttempt {
    LatestAttempt { hostname: hostname.to_string(), last_attempt_at: at, last_attempt_success: success }
}

fn aggregate(hostname: &str, last_success_at: Option<i64>, attempts: i64, failures: i64) -> HostnameAggregate {
    HostnameAggregate { hostname: hostname.to_string(), last_success_at, attempts_24h: attempts, failures_24h: failures }
}

fn failure(hostname: &str, url: &str, message: Option<&str>, at: i64) -> RecentError {
    RecentError {
        hostname: hostname.to_string(),
        operation: "manga".to_string(),
        url: url.to_string(),
        error_type: Some("NETWORK".to_string()),
        error_message: message.map(|m| m.to_string()),
        created_at: at,
    }
}

#[test]
fn status_lines_are_sorted_and_joined_by_hostname() {
    let latest = vec![attempt("zeta.example", 30, false), attempt("alpha.example", 20, true), attempt("mid.example", 10, true)];
    let aggregates = vec![aggregate("alpha.example", Some(20), 4, 1), aggregate("zeta.example", None, 3, 3)];
    let errors = vec![
        failure("alpha.example", "https://alpha.example/a", Some("timeout"), 15),
        failure("zeta.example", "https://zeta.example/z2", None, 30),
        failure("zeta.example", "https://zeta.example/z1", Some("404"), 25),
    ];
    let lines = ScraperController::status_lines(&latest, &aggregates, &errors);
    let hostnames: Vec<&str> = lines.iter().map(|l| l.hostname.as_str()).collect();
    assert_eq!(hostnames, vec!["alpha.example", "mid.example", "zeta.example"]);

    let alpha = &lines[0];
    assert_eq!(alpha.last_attempt_at, Some(20));
    assert!(alpha.last_attempt_success);
    assert_eq!(alpha.last_success_at, Some(20));
    assert_eq!((alpha.attempts_24h, alpha.failures_24h), (4, 1));
    assert_eq!(alpha.recent_errors.len(), 1);
    assert_eq!(alpha.recent_errors[0].message, "timeout");

    let mid = &lines[1];
    assert_eq!(mid.last_success_at, None);
    assert_eq!((mid.attempts_24h, mid.failures_24h), (0, 0));
    assert!(mid.recent_errors.is_empty());

    let zeta = &lines[2];
    assert_eq!(zeta.last_success_at, None);
    assert_eq!((zeta.attempts_24h, zeta.failures_24h), (3, 3));
    let urls: Vec<&str> = zeta.recent_errors.iter().map(|e| e.url.as_str()).collect();
    assert_eq!(urls, vec!["https://zeta.example/z2", "https://zeta.example/z1"]);
    assert_eq!(zeta.recent_errors[0].message, "");
    assert_eq!(zeta.recent_errors[0].error_type.as_deref(), Some("NETWORK"));
    assert_eq!(zeta.recent_errors[1].created_at, 25);
}

#[test]
fn status_of_a_repeated_hostname_takes_the_last_aggregate_once() {
    let latest = vec![attempt("b.example", 2, true), attempt("b.example", 1, false)];
    let aggregates = vec![aggregate("b.example", Some(1), 1, 0), aggregate("b.example", Some(2), 7, 2)];
    let errors = vec![failure("b.example", "https://b.example/x", Some("boom"), 1)];
    let lines = ScraperController::status_lines(&latest, &aggregates, &errors);
    assert_eq!(lines.len(), 2);
    assert_eq!(lines[0].last_attempt_at, Some(2));
    assert_eq!((lines[0].attempts_24h, lines[0].failures_24h), (7, 2));
    assert_eq!(lines[0].recent_errors.len(), 1);
    assert_eq!(lines[1].last_attempt_at, Some(1));
    assert_eq!((lines[1].attempts_24h, lines[1].last_success_at), (0, None));
    assert!(lines[1].recent_errors.is_empty());
}

#[test]
fn no_attempts_no_lines() {
    let lines = ScraperController::status_lines(&vec![], &vec![aggregate("a", None, 1, 1)], &vec![]);
    assert!(lines.is_empty());
}

#[test]
fn the_status_page_is_for_administrators() {
    assert_eq!(ScraperController::guard().perms.bits, ADMIN);
    assert_eq!(ScraperController::guard().call(Some(USER as i16)), Err(AccessError::PermissionDenied));
    assert_eq!(ScraperController::guard().call(Some((USER | ADMIN) as i16)), Ok(()));
    assert_eq!(rumgap::service::v1::reading::ReadingController::guard().perms.bits, USER);
}
