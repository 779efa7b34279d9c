use tarpit::service::{delay_duration, request_labels, ApplicationConfig, ConfigError};
use tarpit::stream::Stream;

#[test]
fn config_rejects_inverted_delay_range() {
    let r = ApplicationConfig::new(String::new(), 20, 10);
    assert!(matches!(r, Err(ConfigError::InvalidDelayRange)));
}

#[test]
fn config_accepts_valid_delay_range() {
    let cfg = ApplicationConfig::new(String::new(), 10, 20).expect("valid");
    assert_eq!(cfg.response_delay_min, 10);
    assert_eq!(cfg.response_delay_max, 20);
}

#[test]
fn zero_max_disables_throttling() {
    let cfg = ApplicationConfig::new(String::new(), 0, 0).expect("valid");
    let mut rng = Stream::from_seed("delays");
    for _ in 0..10 {
        assert!(delay_duration(&cfg, &mut rng).is_none());
    }
}

#[test]
fn sampled_delays_within_bounds_and_spread() {
    let cfg = ApplicationConfig::new(String::new(), 10, 20).expect("valid");
    let mut rng = Stream::from_seed("delays");
    let mut counts = [0usize; 11];
    for _ in 0..1000 {
        let d = delay_duration(&cfg, &mut rng).expect("throttling is on");
        assert!(10 <= d && d <= 20);
        counts[(d - 10) as usize] += 1;
    }
    // Roughly uniform: every value appears, none dominates.
    for c in counts {
        assert!(c >= 40);
        assert!(c <= 200);
    }
}

#[test]
fn labels_pass_through() {
    let r = request_labels(
        Some(String::from("203.0.113.7")),
        Some(String::from("crawler/1.0")),
        Some(String::from("/some/path")),
        Some(String::from("tarpit.example")),
    );
    assert_eq!(r.ip, "203.0.113.7");
    assert_eq!(r.user_agent, "crawler/1.0");
    assert_eq!(r.path, "/some/path");
    assert_eq!(r.host, "tarpit.example");
}

#[test]
fn missing_labels_default_to_empty() {
    let r = request_labels(None, None, Some(String::from("/p")), None);
    assert_eq!(r.ip, "");
    assert_eq!(r.user_agent, "");
    assert_eq!(r.path, "/p");
    assert_eq!(r.host, "");
}
