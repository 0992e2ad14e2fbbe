//! The plain redaction: IP addresses become `1.2.3.4` and every domain becomes
//! `example.com`, with no allowed domains, tenants or code references.

use crate::redact::{
    self, find_matches, replace_matches, same_bytes, slice_text, RedactResponse,
};
use vstd::prelude::*;
use vstd::utf8::{decode_utf8, encode_utf8};

verus! {

/// Domain-shaped names, in any case, ending at a word boundary.
pub open spec fn plain_domain_pattern() -> Seq<char> {
    r"(?i)\b([a-z0-9]([a-z0-9\-]*[a-z0-9])?\.)+([a-z]{2,63})\b"@
}

/// A match is counted as a domain unless it already reads `example.com` (or `1.2.3.4`).
pub open spec fn counts_as_domain(m: Seq<u8>) -> bool {
    m != redact::bytes_of("example.com") && m != redact::bytes_of("1.2.3.4")
}

/// How many of the first `k` matches count as domains.
pub open spec fn counted_through(text: Seq<u8>, spans: Seq<(usize, usize)>, k: int) -> int
    decreases k,
{
    if k <= 0 {
        0
    } else {
        counted_through(text, spans, k - 1) + if counts_as_domain(
            text.subrange(spans[k - 1].0 as int, spans[k - 1].1 as int),
        ) {
            1int
        } else {
            0int
        }
    }
}

/// What the plain `redact_text` gives for `input`: every IP match replaced by
/// `1.2.3.4` and counted, then every domain match of that text replaced by
/// `example.com`, counting the matches that did not already read `example.com`.
/// Where the regex crate turned a pattern down, the input comes back unchanged with
/// nothing counted.
pub open spec fn plain_redaction_of(input: Seq<char>, res: RedactResponse) -> bool {
    let ips = redact::regex_matches(redact::ip_pattern(), input);
    let after = redact::ips_replaced(input, ips->0);
    let domains = redact::regex_matches(plain_domain_pattern(), decode_utf8(after));
    if ips is Some && domains is Some {
        &&& res.ip_count == ips->0.len()
        &&& res.domain_count == counted_through(after, domains->0, domains->0.len() as int)
        &&& encode_utf8(res.redacted@) == redact::replaced_all(
            after,
            domains->0,
            redact::bytes_of("example.com"),
        )
    } else {
        &&& res.redacted@ == input
        &&& res.ip_count == 0
        &&& res.domain_count == 0
    }
}

/// How many of the matches `spans` of `text` count as domains.
pub fn count_domains(text: &str, spans: &Vec<(usize, usize)>) -> (n: usize)
    requires
        redact::spans_in_order(spans@, redact::bytes_of(text)),
    ensures
        n == counted_through(redact::bytes_of(text), spans@, spans@.len() as int),
{
    let mut n: usize = 0;
    let mut k: usize = 0;
    while k < spans.len()
        invariant
            redact::spans_in_order(spans@, redact::bytes_of(text)),
            k <= spans@.len(),
            n <= k,
            n == counted_through(redact::bytes_of(text), spans@, k as int),
        decreases spans@.len() - k,
    {
        let (start, end) = spans[k];
        let matched = slice_text(text, start, end).as_bytes();
        if !same_bytes(matched, "example.com".as_bytes()) && !same_bytes(matched, "1.2.3.4".as_bytes()) {
            n = n + 1;
        }
        k = k + 1;
    }
    n
}

/// Redacts a pasted text: IP addresses, then every domain.
pub fn redact_text(input: &str) -> (res: RedactResponse)
    ensures
        plain_redaction_of(input@, res),
{
    let ip_re = r"\b(\d{1,3}\.\d{1,3}\.\d{1,3}\.\d{1,3})\b";
    let domain_re = r"(?i)\b([a-z0-9]([a-z0-9\-]*[a-z0-9])?\.)+([a-z]{2,63})\b";
    let unchanged = RedactResponse { redacted: String::from_str(input), ip_count: 0, domain_count: 0 };
    let ips = match find_matches(ip_re, input) {
        Some(spans) => spans,
        None => return unchanged,
    };
    proof {
        redact::lemma_placeholders_literal();
    }
    let after_ips = match replace_matches(ip_re, input, "1.2.3.4") {
        Some(text) => text,
        None => return unchanged,
    };
    proof {
        vstd::utf8::encode_utf8_decode_utf8(after_ips@);
    }
    let domains = match find_matches(domain_re, after_ips.as_str()) {
        Some(spans) => spans,
        None => return unchanged,
    };
    // Every match becomes `example.com`: one that already reads so stays as it is.
    let redacted = match replace_matches(domain_re, after_ips.as_str(), "example.com") {
        Some(text) => text,
        None => return unchanged,
    };
    let domain_count = count_domains(after_ips.as_str(), &domains);
    RedactResponse { redacted, ip_count: ips.len(), domain_count }
}

} // verus!
