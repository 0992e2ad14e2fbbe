use vibes::redact::{
    is_allowed_domain, is_code_reference, placeholder_for, redact_domains, redact_text,
};

#[test]
fn code_references_untouched() {
    let input = "INFO  Using Teleport identity file file:/var/lib/teleport/bot/machine-id/identity event-handler/cli.go:284";
    let r = redact_text(input);
    assert_eq!(r.redacted, input);
    assert_eq!(r.domain_count, 0);
}

#[test]
fn storage_dir_tenant_redacted_code_ref_kept() {
    let input = "INFO  Using existing storage directory dir:/var/lib/teleport-event-handler/heb-dev.teleport.sh_443 event-handler/state.go:148";
    let r = redact_text(input);
    assert_eq!(
        r.redacted,
        "INFO  Using existing storage directory dir:/var/lib/teleport-event-handler/example.teleport.sh_443 event-handler/state.go:148"
    );
    assert_eq!(r.domain_count, 1);
}

#[test]
fn partial_token_not_matched() {
    let r = redact_text("build id foo.bar123 unchanged");
    assert_eq!(r.redacted, "build id foo.bar123 unchanged");
    assert_eq!(r.domain_count, 0);
}

#[test]
fn idempotent_on_own_output() {
    let once = redact_text("https://gsrio.teleport.sh:443 and username@gsr.io").redacted;
    let twice = redact_text(&once);
    assert_eq!(twice.redacted, once);
    assert_eq!(twice.domain_count, 0);
}

#[test]
fn allowed_domains_untouched() {
    let r = redact_text("clone it from github.com or api.github.com today");
    assert_eq!(r.redacted, "clone it from github.com or api.github.com today");
    assert_eq!(r.domain_count, 0);
}

#[test]
fn profile_url_redacted() {
    let r = redact_text("> Profile URL:        https://gsrio.teleport.sh:443");
    assert_eq!(r.redacted, "> Profile URL:        https://example.teleport.sh:443");
    assert_eq!(r.domain_count, 1);
}

#[test]
fn email_domain_redacted() {
    let r = redact_text("Logged in as:       username@gsr.io");
    assert_eq!(r.redacted, "Logged in as:       username@example.com");
    assert_eq!(r.domain_count, 1);
}

#[test]
fn ips_redacted() {
    let r = redact_text("connecting to 10.40.1.7 from host2.gsr.io");
    assert_eq!(r.redacted, "connecting to 1.2.3.4 from example.com");
    assert_eq!(r.ip_count, 1);
    assert_eq!(r.domain_count, 1);
}

#[test]
fn empty_text_stays_empty() {
    let r = redact_text("");
    assert_eq!(r.redacted, "");
    assert_eq!(r.ip_count, 0);
    assert_eq!(r.domain_count, 0);
}

#[test]
fn several_ips_counted() {
    let r = redact_text("a 192.168.0.1 b 8.8.8.8 c");
    assert_eq!(r.redacted, "a 1.2.3.4 b 1.2.3.4 c");
    assert_eq!(r.ip_count, 2);
    assert_eq!(r.domain_count, 0);
}

#[test]
fn upper_case_tenant_gets_tenant_placeholder() {
    let r = redact_text("see ACME.Teleport.SH now");
    assert_eq!(r.redacted, "see example.teleport.sh now");
    assert_eq!(r.domain_count, 1);
}

#[test]
fn text_without_domains_unchanged() {
    let r = redact_text("no hosts here, only words");
    assert_eq!(r.redacted, "no hosts here, only words");
    assert_eq!(r.domain_count, 0);
}

#[test]
fn non_ascii_text_around_domains() {
    let r = redact_text("héllo wörld at shop.acme.de ✓");
    assert_eq!(r.redacted, "héllo wörld at example.com ✓");
    assert_eq!(r.domain_count, 1);
}

#[test]
fn allowed_domain_exact_and_subdomains() {
    assert!(is_allowed_domain("github.com"));
    assert!(is_allowed_domain("api.github.com"));
    assert!(is_allowed_domain("API.GitHub.COM"));
    assert!(is_allowed_domain("example.teleport.sh"));
    assert!(!is_allowed_domain("notgithub.com"));
    assert!(!is_allowed_domain("acme.teleport.sh"));
    assert!(!is_allowed_domain("github.com.evil.io"));
}

#[test]
fn code_reference_extensions() {
    assert!(is_code_reference("cli.go"));
    assert!(is_code_reference("state.GO"));
    assert!(is_code_reference("Cargo.lock"));
    assert!(is_code_reference("lib.rs"));
    assert!(!is_code_reference("tenant.teleport.sh"));
    assert!(!is_code_reference("gsr.io"));
}

#[test]
fn placeholders_for_tenants_and_others() {
    assert_eq!(placeholder_for("gsrio.teleport.sh"), "example.teleport.sh");
    assert_eq!(placeholder_for("GSRIO.TELEPORT.SH"), "example.teleport.sh");
    assert_eq!(placeholder_for("teleport.sh"), "example.com");
    assert_eq!(placeholder_for("gsr.io"), "example.com");
}

#[test]
fn redact_domains_given_spans() {
    let text = "mail a.bc.de, call x.go and y.github.com";
    // spans of "a.bc.de", "x.go" and "y.github.com"
    let spans = vec![(5usize, 12usize), (19, 23), (28, 40)];
    let (out, count) = redact_domains(text, &spans);
    assert_eq!(out, "mail example.com, call x.go and y.github.com");
    assert_eq!(count, 1);
}

#[test]
fn redact_domains_keeps_mid_token_match() {
    let text = "id foo.bar123";
    let spans = vec![(3usize, 10usize)];
    let (out, count) = redact_domains(text, &spans);
    assert_eq!(out, "id foo.bar123");
    assert_eq!(count, 0);
}

#[test]
fn redact_domains_without_spans_is_identity() {
    let (out, count) = redact_domains("anything at all", &Vec::new());
    assert_eq!(out, "anything at all");
    assert_eq!(count, 0);
}

#[test]
fn ip_replacement_keeps_the_rest() {
    let r = redact_text("10.0.0.1,10.0.0.2;x");
    assert_eq!(r.redacted, "1.2.3.4,1.2.3.4;x");
    assert_eq!(r.ip_count, 2);
}
