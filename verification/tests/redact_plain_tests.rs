use vibes::redact_plain::{count_domains, redact_text};

#[test]
fn plain_ips_and_domains_redacted() {
    let r = redact_text("connecting to 10.40.1.7 from host2.gsr.io");
    assert_eq!(r.redacted, "connecting to 1.2.3.4 from example.com");
    assert_eq!(r.ip_count, 1);
    assert_eq!(r.domain_count, 1);
}

#[test]
fn plain_replaces_even_well_known_domains() {
    let r = redact_text("see example.com and github.com");
    assert_eq!(r.redacted, "see example.com and example.com");
    assert_eq!(r.domain_count, 1);
}

#[test]
fn plain_leaves_partial_tokens() {
    let r = redact_text("build id foo.bar123 unchanged");
    assert_eq!(r.redacted, "build id foo.bar123 unchanged");
    assert_eq!(r.domain_count, 0);
}

#[test]
fn plain_count_skips_placeholders() {
    let text = "example.com x.io";
    let spans = vec![(0usize, 11usize), (12, 16)];
    assert_eq!(count_domains(text, &spans), 1);
}
