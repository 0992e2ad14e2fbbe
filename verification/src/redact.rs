//! Redaction of pasted logs: IP addresses become `1.2.3.4`, domains become
//! `example.com`, `*.teleport.sh` tenant hostnames become `example.teleport.sh`;
//! well-known public domains and `file.ext` code references are left as they are.

use vstd::prelude::*;
use vstd::utf8::{decode_utf8, encode_utf8, is_char_boundary, valid_utf8};

verus! {

/// The UTF-8 bytes of a string.
pub open spec fn bytes_of(s: &str) -> Seq<u8> {
    encode_utf8(s@)
}

/// ASCII upper-case letters made lower case; every other byte left alone.
pub open spec fn lower_byte(b: u8) -> u8 {
    if 65 <= b <= 90 {
        (b + 32) as u8
    } else {
        b
    }
}

pub open spec fn lowered(s: Seq<u8>) -> Seq<u8> {
    s.map_values(|b: u8| lower_byte(b))
}

pub open spec fn has_suffix(s: Seq<u8>, suffix: Seq<u8>) -> bool {
    suffix.len() <= s.len() && s.subrange(s.len() - suffix.len(), s.len() as int) == suffix
}

/// Well-known domains that are left in place, with all their subdomains. `teleport.sh`
/// is not among them: its subdomains are customer tenants.
pub open spec fn allowed_domains() -> Seq<&'static str> {
    seq![
        "example.com",
        "github.com",
        "gitlab.com",
        "google.com",
        "goteleport.com",
        "docker.io",
        "ghcr.io",
        "quay.io",
        "kubernetes.io",
        "k8s.io",
        "example.teleport.sh",
    ]
}

/// Extensions of source files, which show up in logs as `file.ext:line`. `sh` is not
/// among them: it would take `*.teleport.sh` hostnames for files.
pub open spec fn code_extensions() -> Seq<&'static str> {
    seq![
        "go", "rs", "py", "js", "ts", "tsx", "jsx", "java", "rb", "php", "c", "h", "cc", "cpp",
        "hpp", "cs", "css", "html", "json", "yaml", "yml", "toml", "proto", "mod", "sum", "lock",
        "md", "txt", "log",
    ]
}

/// A domain is allowed when, in lower case, it is one of the allowed domains or ends
/// in a dot followed by one of them.
pub open spec fn is_allowed_domain_bytes(m: Seq<u8>) -> bool {
    exists|i: int|
        0 <= i < allowed_domains().len() && (lowered(m) == bytes_of(#[trigger] allowed_domains()[i])
            || has_suffix(lowered(m), seq![46u8] + bytes_of(allowed_domains()[i])))
}

/// What follows the last dot (all of it when there is no dot).
pub open spec fn after_last_dot(m: Seq<u8>) -> Seq<u8>
    decreases m.len(),
{
    if m.len() == 0 {
        m
    } else if m.last() == 46 {
        Seq::empty()
    } else {
        after_last_dot(m.drop_last()).push(m.last())
    }
}

/// A match is a code reference when what follows its last dot, in lower case, is a
/// source-file extension.
pub open spec fn is_code_reference_bytes(m: Seq<u8>) -> bool {
    exists|i: int|
        0 <= i < code_extensions().len() && lowered(after_last_dot(m)) == bytes_of(
            #[trigger] code_extensions()[i],
        )
}

/// The placeholder for a domain: `example.teleport.sh` for a tenant (a name ending in
/// `.teleport.sh`, in any case), `example.com` for anything else.
pub open spec fn placeholder_text(m: Seq<u8>) -> Seq<char> {
    if has_suffix(lowered(m), bytes_of(".teleport.sh")) {
        "example.teleport.sh"@
    } else {
        "example.com"@
    }
}

/// The bytes `s` in lower case.
fn lower_bytes(s: &[u8], from: usize) -> (res: Vec<u8>)
    requires
        from <= s@.len(),
    ensures
        res@ == lowered(s@.subrange(from as int, s@.len() as int)),
{
    let mut res: Vec<u8> = Vec::new();
    let mut i: usize = from;
    while i < s.len()
        invariant
            from <= i <= s@.len(),
            res@ =~= lowered(s@.subrange(from as int, i as int)),
        decreases s@.len() - i,
    {
        let b = s[i];
        let l = if 65 <= b && b <= 90 {
            b + 32
        } else {
            b
        };
        res.push(l);
        i = i + 1;
    }
    res
}

/// Whether `a` and `b` hold the same bytes.
pub(crate) fn same_bytes(a: &[u8], b: &[u8]) -> (res: bool)
    ensures
        res == (a@ == b@),
{
    if a.len() != b.len() {
        return false;
    }
    let mut i: usize = 0;
    while i < a.len()
        invariant
            a@.len() == b@.len(),
            i <= a@.len(),
            forall|j: int| 0 <= j < i ==> a@[j] == b@[j],
        decreases a@.len() - i,
    {
        if a[i] != b[i] {
            return false;
        }
        i = i + 1;
    }
    assert(a@ =~= b@);
    true
}

/// Whether `s` ends with `suffix`.
fn ends_with_bytes(s: &[u8], suffix: &[u8]) -> (res: bool)
    ensures
        res == has_suffix(s@, suffix@),
{
    if suffix.len() > s.len() {
        return false;
    }
    let start = s.len() - suffix.len();
    let mut i: usize = 0;
    while i < suffix.len()
        invariant
            start + suffix@.len() == s@.len(),
            s@.len() == s.len(),
            suffix@.len() == suffix.len(),
            i <= suffix@.len(),
            forall|j: int| 0 <= j < i ==> s@[start + j] == suffix@[j],
        decreases suffix@.len() - i,
    {
        if s[start + i] != suffix[i] {
            assert(s@.subrange(start as int, s@.len() as int)[i as int] == s@[start + i]);
            return false;
        }
        i = i + 1;
    }
    assert(s@.subrange(start as int, s@.len() as int) =~= suffix@);
    true
}

/// Whether `s` ends with a dot followed by `suffix`.
fn ends_with_dotted(s: &[u8], suffix: &[u8]) -> (res: bool)
    ensures
        res == has_suffix(s@, seq![46u8] + suffix@),
{
    let ghost dotted = seq![46u8] + suffix@;
    if suffix.len() >= s.len() {
        return false;
    }
    let found = s[s.len() - suffix.len() - 1] == 46 && ends_with_bytes(s, suffix);
    proof {
        let n = s@.len() as int;
        let m = suffix@.len() as int;
        if has_suffix(s@, dotted) {
            assert(s@.subrange(n - m - 1, n)[0] == dotted[0]);
            assert(s@.subrange(n - m, n) =~= s@.subrange(n - m - 1, n).subrange(1, m + 1));
            assert(dotted.subrange(1, m + 1) =~= suffix@);
        }
        if found {
            assert(s@.subrange(n - m - 1, n) =~= dotted);
        }
    }
    found
}

fn allowed_domain_list() -> (list: Vec<&'static str>)
    ensures
        list@ == allowed_domains(),
{
    let mut list: Vec<&'static str> = Vec::new();
    list.push("example.com");
    list.push("github.com");
    list.push("gitlab.com");
    list.push("google.com");
    list.push("goteleport.com");
    list.push("docker.io");
    list.push("ghcr.io");
    list.push("quay.io");
    list.push("kubernetes.io");
    list.push("k8s.io");
    list.push("example.teleport.sh");
    assert(list@ =~= allowed_domains());
    list
}

fn code_extension_list() -> (list: Vec<&'static str>)
    ensures
        list@ == code_extensions(),
{
    let mut list: Vec<&'static str> = Vec::new();
    list.push("go");
    list.push("rs");
    list.push("py");
    list.push("js");
    list.push("ts");
    list.push("tsx");
    list.push("jsx");
    list.push("java");
    list.push("rb");
    list.push("php");
    list.push("c");
    list.push("h");
    list.push("cc");
    list.push("cpp");
    list.push("hpp");
    list.push("cs");
    list.push("css");
    list.push("html");
    list.push("json");
    list.push("yaml");
    list.push("yml");
    list.push("toml");
    list.push("proto");
    list.push("mod");
    list.push("sum");
    list.push("lock");
    list.push("md");
    list.push("txt");
    list.push("log");
    assert(list@ =~= code_extensions());
    list
}

/// Whether a matched domain is one of the allowed domains or a subdomain of one,
/// regardless of case.
pub fn is_allowed_domain(matched: &str) -> (res: bool)
    ensures
        res == is_allowed_domain_bytes(bytes_of(matched)),
{
    let bytes = matched.as_bytes();
    let lower = lower_bytes(bytes, 0);
    assert(bytes@.subrange(0, bytes@.len() as int) =~= bytes@);
    let domains = allowed_domain_list();
    let mut i: usize = 0;
    while i < domains.len()
        invariant
            domains@ == allowed_domains(),
            lower@ == lowered(bytes_of(matched)),
            i <= domains@.len(),
            forall|j: int|
                0 <= j < i ==> !(lower@ == bytes_of(#[trigger] allowed_domains()[j]) || has_suffix(
                    lower@,
                    seq![46u8] + bytes_of(allowed_domains()[j]),
                )),
        decreases domains@.len() - i,
    {
        let domain = domains[i].as_bytes();
        if same_bytes(lower.as_slice(), domain) || ends_with_dotted(lower.as_slice(), domain) {
            assert(bytes_of(allowed_domains()[i as int]) == domain@);
            return true;
        }
        i = i + 1;
    }
    false
}

/// Where what follows the last dot of `m` starts.
fn after_last_dot_start(m: &[u8]) -> (start: usize)
    ensures
        start <= m@.len(),
        after_last_dot(m@) == m@.subrange(start as int, m@.len() as int),
{
    let mut start: usize = 0;
    let mut i: usize = 0;
    assert(m@.take(0) =~= Seq::<u8>::empty());
    while i < m.len()
        invariant
            start <= i <= m@.len(),
            m@.len() == m.len(),
            after_last_dot(m@.take(i as int)) == m@.subrange(start as int, i as int),
        decreases m@.len() - i,
    {
        assert(m@.take(i + 1).drop_last() =~= m@.take(i as int));
        if m[i] == 46 {
            start = i + 1;
            assert(m@.subrange(start as int, i + 1) =~= Seq::<u8>::empty());
        } else {
            assert(m@.subrange(start as int, i + 1) =~= m@.subrange(start as int, i as int).push(
                m@[i as int],
            ));
        }
        i = i + 1;
    }
    assert(m@.take(i as int) =~= m@);
    start
}

/// Whether a match is a `file.ext` reference to a source file: what follows its last
/// dot, in lower case, is a source-file extension.
pub fn is_code_reference(matched: &str) -> (res: bool)
    ensures
        res == is_code_reference_bytes(bytes_of(matched)),
{
    let bytes = matched.as_bytes();
    let start = after_last_dot_start(bytes);
    let ext = lower_bytes(bytes, start);
    let extensions = code_extension_list();
    let mut i: usize = 0;
    while i < extensions.len()
        invariant
            extensions@ == code_extensions(),
            ext@ == lowered(after_last_dot(bytes_of(matched))),
            i <= extensions@.len(),
            forall|j: int|
                0 <= j < i ==> ext@ != bytes_of(#[trigger] code_extensions()[j]),
        decreases extensions@.len() - i,
    {
        let candidate = extensions[i].as_bytes();
        if same_bytes(ext.as_slice(), candidate) {
            assert(bytes_of(code_extensions()[i as int]) == candidate@);
            return true;
        }
        i = i + 1;
    }
    false
}

/// The placeholder that replaces a domain: `example.teleport.sh` for a tenant of
/// `teleport.sh` (in any case), `example.com` for anything else.
pub fn placeholder_for(matched: &str) -> (res: &'static str)
    ensures
        res@ == placeholder_text(bytes_of(matched)),
{
    let bytes = matched.as_bytes();
    let lower = lower_bytes(bytes, 0);
    assert(bytes@.subrange(0, bytes@.len() as int) =~= bytes@);
    if ends_with_bytes(lower.as_slice(), ".teleport.sh".as_bytes()) {
        "example.teleport.sh"
    } else {
        "example.com"
    }
}

pub open spec fn is_ascii_alphanumeric(b: u8) -> bool {
    (48 <= b <= 57) || (65 <= b <= 90) || (97 <= b <= 122)
}

/// The match ends in the middle of a token: the byte after it is an ASCII letter, digit
/// or `-` (as `foo.bar` inside `foo.bar123`); then it is no domain.
pub open spec fn ends_mid_token(text: Seq<u8>, end: int) -> bool {
    end < text.len() && (is_ascii_alphanumeric(text[end]) || text[end] == 45)
}

/// The spans are byte ranges of `text`, in order and apart, each starting and ending
/// on a character boundary.
pub open spec fn spans_in_order(spans: Seq<(usize, usize)>, text: Seq<u8>) -> bool {
    &&& forall|k: int|
        0 <= k < spans.len() ==> {
            &&& (#[trigger] spans[k]).0 <= spans[k].1 <= text.len()
            &&& is_char_boundary(text, spans[k].0 as int)
            &&& is_char_boundary(text, spans[k].1 as int)
        }
    &&& forall|k: int| 0 <= k < spans.len() - 1 ==> (#[trigger] spans[k]).1 <= spans[k + 1].0
}

/// A matched domain is kept as it is when it ends mid-token, is allowed, or is a
/// code reference.
pub open spec fn keeps_match(text: Seq<u8>, span: (usize, usize)) -> bool {
    let m = text.subrange(span.0 as int, span.1 as int);
    ends_mid_token(text, span.1 as int) || is_allowed_domain_bytes(m) || is_code_reference_bytes(m)
}

/// What a matched domain becomes: itself when kept, else its placeholder.
pub open spec fn match_replacement(text: Seq<u8>, span: (usize, usize)) -> Seq<u8> {
    let m = text.subrange(span.0 as int, span.1 as int);
    if keeps_match(text, span) {
        m
    } else {
        encode_utf8(placeholder_text(m))
    }
}

/// Where the text between the `(k-1)`-th and the `k`-th match starts.
pub open spec fn gap_start(spans: Seq<(usize, usize)>, k: int) -> int {
    if k <= 0 {
        0
    } else {
        spans[k - 1].1 as int
    }
}

/// The redacted text up to the end of the `k`-th match: each match replaced, the text
/// between matches as it was.
pub open spec fn redacted_through(text: Seq<u8>, spans: Seq<(usize, usize)>, k: int) -> Seq<u8>
    decreases k,
{
    if k <= 0 {
        Seq::empty()
    } else {
        redacted_through(text, spans, k - 1) + text.subrange(gap_start(spans, k - 1), spans[k
            - 1].0 as int) + match_replacement(text, spans[k - 1])
    }
}

/// The redacted text: every match replaced, the rest as it was.
pub open spec fn redacted_bytes(text: Seq<u8>, spans: Seq<(usize, usize)>) -> Seq<u8> {
    redacted_through(text, spans, spans.len() as int) + text.subrange(
        gap_start(spans, spans.len() as int),
        text.len() as int,
    )
}

/// How many of the first `k` matches were replaced.
pub open spec fn replaced_through(text: Seq<u8>, spans: Seq<(usize, usize)>, k: int) -> int
    decreases k,
{
    if k <= 0 {
        0
    } else {
        replaced_through(text, spans, k - 1) + if keeps_match(text, spans[k - 1]) {
            0int
        } else {
            1int
        }
    }
}

pub open spec fn replaced_count(text: Seq<u8>, spans: Seq<(usize, usize)>) -> int {
    replaced_through(text, spans, spans.len() as int)
}

/// The encoding of joined strings is the joined encodings.
proof fn lemma_encode_concat(a: Seq<char>, b: Seq<char>)
    ensures
        encode_utf8(a + b) == encode_utf8(a) + encode_utf8(b),
    decreases a.len(),
{
    if a.len() == 0 {
        assert(a + b =~= b);
        assert(encode_utf8(a) + encode_utf8(b) =~= encode_utf8(b));
    } else {
        lemma_encode_concat(a.drop_first(), b);
        assert((a + b).drop_first() =~= a.drop_first() + b);
        assert((a + b)[0] == a[0]);
        assert(encode_utf8(a + b) =~= encode_utf8(a) + encode_utf8(b));
    }
}

/// A character boundary of a text is one of any prefix that reaches it.
proof fn lemma_boundary_in_prefix(bytes: Seq<u8>, a: int, b: int)
    requires
        valid_utf8(bytes),
        0 <= a <= b <= bytes.len(),
        is_char_boundary(bytes, a),
        is_char_boundary(bytes, b),
    ensures
        valid_utf8(bytes.subrange(0, b)),
        is_char_boundary(bytes.subrange(0, b), a),
{
    let left = bytes.subrange(0, b);
    vstd::utf8::valid_utf8_split(bytes, b);
    if a == b {
        vstd::utf8::is_char_boundary_start_end_of_seq(left);
        assert(left.len() == b);
    } else if a > 0 {
        vstd::utf8::is_char_boundary_iff_not_is_continuation_byte(bytes, a);
        vstd::utf8::is_char_boundary_iff_not_is_continuation_byte(left, a);
    }
}

/// The part of `text` between bytes `a` and `b`.
pub(crate) fn slice_text<'a>(text: &'a str, a: usize, b: usize) -> (part: &'a str)
    requires
        a <= b <= bytes_of(text).len(),
        is_char_boundary(bytes_of(text), a as int),
        is_char_boundary(bytes_of(text), b as int),
    ensures
        bytes_of(part) == bytes_of(text).subrange(a as int, b as int),
{
    proof {
        vstd::utf8::encode_utf8_valid_utf8(text@);
        lemma_boundary_in_prefix(bytes_of(text), a as int, b as int);
    }
    let (left, _) = text.split_at(b);
    let (_, part) = left.split_at(a);
    assert(bytes_of(part) =~= bytes_of(text).subrange(a as int, b as int));
    part
}

fn is_ascii_alphanumeric_exec(b: u8) -> (res: bool)
    ensures
        res == is_ascii_alphanumeric(b),
{
    (48 <= b && b <= 57) || (65 <= b && b <= 90) || (97 <= b && b <= 122)
}

/// Replaces the domains that `spans` mark in `text`: each is kept when it ends
/// mid-token, is allowed or is a code reference, else it becomes its placeholder.
/// Gives the redacted text and how many domains were replaced.
pub fn redact_domains(text: &str, spans: &Vec<(usize, usize)>) -> (res: (String, usize))
    requires
        spans_in_order(spans@, bytes_of(text)),
    ensures
        encode_utf8(res.0@) == redacted_bytes(bytes_of(text), spans@),
        res.1 == replaced_count(bytes_of(text), spans@),
{
    let ghost t = bytes_of(text);
    let bytes = text.as_bytes();
    let mut out = String::new();
    let mut count: usize = 0;
    let mut last: usize = 0;
    let mut k: usize = 0;
    proof {
        vstd::utf8::encode_utf8_valid_utf8(text@);
        vstd::utf8::is_char_boundary_start_end_of_seq(t);
    }
    while k < spans.len()
        invariant
            t == bytes_of(text),
            bytes@ == t,
            vstd::utf8::valid_utf8(t),
            is_char_boundary(t, t.len() as int),
            spans_in_order(spans@, t),
            k <= spans@.len(),
            last == gap_start(spans@, k as int),
            last <= t.len(),
            is_char_boundary(t, last as int),
            k < spans@.len() ==> last <= spans@[k as int].0,
            encode_utf8(out@) == redacted_through(t, spans@, k as int),
            count == replaced_through(t, spans@, k as int),
            count <= k,
        decreases spans@.len() - k,
    {
        let (start, end) = spans[k];
        let ghost before = out@;
        let gap = slice_text(text, last, start);
        out.append(gap);
        let matched = slice_text(text, start, end);
        let mid_token = end < bytes.len() && (is_ascii_alphanumeric_exec(bytes[end]) || bytes[end]
            == 45);
        let ghost with_gap = out@;
        let keep = mid_token || is_allowed_domain(matched) || is_code_reference(matched);
        let piece = if keep {
            matched
        } else {
            count = count + 1;
            placeholder_for(matched)
        };
        out.append(piece);
        proof {
            assert(with_gap =~= before + gap@);
            lemma_encode_concat(before, gap@);
            lemma_encode_concat(with_gap, piece@);
            assert(encode_utf8(piece@) == match_replacement(t, spans@[k as int]));
            assert(gap_start(spans@, k as int) == last);
            assert(encode_utf8(out@) =~= redacted_through(t, spans@, k + 1));
        }
        last = end;
        k = k + 1;
    }
    let rest = slice_text(text, last, bytes.len());
    let ghost before = out@;
    out.append(rest);
    proof {
        lemma_encode_concat(before, rest@);
    }
    (out, count)
}

/// The byte spans `(start, end)` of the matches that `regex::Regex::find_iter` yields
/// for `pattern` on `text` (successive, non-overlapping, leftmost-first); `None` when
/// `regex::Regex::new` does not accept the pattern.
pub uninterp spec fn regex_matches(pattern: Seq<char>, text: Seq<char>) -> Option<Seq<(usize, usize)>>;

/// `text` up to the end of the `k`-th span, each span replaced by `replacement` and
/// the text between spans as it was.
pub open spec fn spliced_through(text: Seq<u8>, spans: Seq<(usize, usize)>, k: int, replacement: Seq<u8>) -> Seq<u8>
    decreases k,
{
    if k <= 0 {
        Seq::empty()
    } else {
        spliced_through(text, spans, k - 1, replacement) + text.subrange(
            gap_start(spans, k - 1),
            spans[k - 1].0 as int,
        ) + replacement
    }
}

/// `text` with every span replaced by `replacement` and the rest as it was.
pub open spec fn replaced_all(text: Seq<u8>, spans: Seq<(usize, usize)>, replacement: Seq<u8>) -> Seq<u8> {
    spliced_through(text, spans, spans.len() as int, replacement) + text.subrange(
        gap_start(spans, spans.len() as int),
        text.len() as int,
    )
}

/// `regex::Regex::new`, then `find_iter`, each match taken as its byte span. The
/// contract names the spans; beside the name it claims what the crate documents of
/// every match: the spans come in order without overlapping, inside the text, and on
/// character boundaries.
#[verifier::external_body]
pub(crate) fn find_matches(pattern: &str, text: &str) -> (res: Option<Vec<(usize, usize)>>)
    ensures
        match res {
            Some(spans) => regex_matches(pattern@, text@) == Some(spans@) && spans_in_order(
                spans@,
                bytes_of(text),
            ),
            None => regex_matches(pattern@, text@) is None,
        },
{
    regex::Regex::new(pattern).ok().map(|re| re.find_iter(text).map(|m| (m.start(), m.end())).collect())
}

/// `regex::Regex::new`, then `replace_all`, the result made an owned `String`. For a
/// replacement with no `$` in it, the crate's source (`replacen`, through
/// `no_expansion`) takes the matches of `find_iter` and writes the text between them
/// as it was and the replacement in place of each; the contract claims that, over the
/// matches that `find_matches` names. A pattern that `regex::Regex::new` refuses gives
/// `None`, for both.
#[verifier::external_body]
pub(crate) fn replace_matches(pattern: &str, text: &str, replacement: &str) -> (res: Option<String>)
    requires
        !replacement@.contains('$'),
    ensures
        match res {
            Some(replaced) => regex_matches(pattern@, text@) is Some && encode_utf8(replaced@)
                == replaced_all(bytes_of(text), regex_matches(pattern@, text@)->0, bytes_of(replacement)),
            None => regex_matches(pattern@, text@) is None,
        },
{
    regex::Regex::new(pattern).ok().map(|re| re.replace_all(text, replacement).into_owned())
}

/// IPv4-shaped runs of digits: four groups of one to three digits joined by dots.
pub open spec fn ip_pattern() -> Seq<char> {
    r"\b(\d{1,3}\.\d{1,3}\.\d{1,3}\.\d{1,3})\b"@
}

/// Domain-shaped names, in any case: dot-separated labels of letters, digits and inner
/// hyphens, ending in a label of 2 to 63 letters. There is no `\b` at the end, so a
/// match may stop before a `_`; matches that stop mid-token are rejected afterwards.
pub open spec fn domain_pattern() -> Seq<char> {
    r"(?i)\b([a-z0-9]([a-z0-9\-]*[a-z0-9])?\.)+([a-z]{2,63})"@
}

pub open spec fn ip_placeholder() -> Seq<char> {
    "1.2.3.4"@
}

/// A redacted text with the number of IP addresses and of domains replaced.
pub struct RedactResponse {
    pub redacted: String,
    pub ip_count: usize,
    pub domain_count: usize,
}

/// `input` with its IP matches replaced by `1.2.3.4` and the rest as it was, in bytes.
pub open spec fn ips_replaced(input: Seq<char>, ips: Seq<(usize, usize)>) -> Seq<u8> {
    replaced_all(encode_utf8(input), ips, encode_utf8(ip_placeholder()))
}

/// What `redact_text` gives for `input`: every IP match replaced by `1.2.3.4` and
/// counted, then the domain matches of that text redacted as `redact_domains` does.
/// Where the regex crate turned a pattern down, the input comes back unchanged with
/// nothing counted.
pub open spec fn redaction_of(input: Seq<char>, res: RedactResponse) -> bool {
    let ips = regex_matches(ip_pattern(), input);
    let after = ips_replaced(input, ips->0);
    let domains = regex_matches(domain_pattern(), decode_utf8(after));
    if ips is Some && domains is Some {
        &&& res.ip_count == ips->0.len()
        &&& encode_utf8(res.redacted@) == redacted_bytes(after, domains->0)
        &&& res.domain_count == replaced_count(after, domains->0)
    } else {
        &&& res.redacted@ == input
        &&& res.ip_count == 0
        &&& res.domain_count == 0
    }
}

/// Neither placeholder holds a `$`.
pub(crate) proof fn lemma_placeholders_literal()
    ensures
        !"1.2.3.4"@.contains('$'),
        !"example.com"@.contains('$'),
{
    reveal_strlit("1.2.3.4");
    reveal_strlit("example.com");
    assert("1.2.3.4"@ =~= seq!['1', '.', '2', '.', '3', '.', '4']);
    assert("example.com"@ =~= seq!['e', 'x', 'a', 'm', 'p', 'l', 'e', '.', 'c', 'o', 'm']);
}

/// Redacts a pasted text: IP addresses, then domains.
pub fn redact_text(input: &str) -> (res: RedactResponse)
    ensures
        redaction_of(input@, res),
{
    let ip_re = r"\b(\d{1,3}\.\d{1,3}\.\d{1,3}\.\d{1,3})\b";
    let domain_re = r"(?i)\b([a-z0-9]([a-z0-9\-]*[a-z0-9])?\.)+([a-z]{2,63})";
    let unchanged = RedactResponse { redacted: String::from_str(input), ip_count: 0, domain_count: 0 };
    let ips = match find_matches(ip_re, input) {
        Some(spans) => spans,
        None => return unchanged,
    };
    proof {
        lemma_placeholders_literal();
    }
    let after_ips = match replace_matches(ip_re, input, "1.2.3.4") {
        Some(text) => text,
        None => return unchanged,
    };
    proof {
        vstd::utf8::encode_utf8_decode_utf8(after_ips@);
    }
    let domains = match find_matches(domain_re, after_ips.as_str()) {
        Some(spans) => spans,
        None => return unchanged,
    };
    let (redacted, domain_count) = redact_domains(after_ips.as_str(), &domains);
    RedactResponse { redacted, ip_count: ips.len(), domain_count }
}

/// When every matched domain is kept, redaction gives the text back unchanged and
/// counts no domain.
pub proof fn lemma_nothing_replaced_is_identity(text: Seq<u8>, spans: Seq<(usize, usize)>)
    requires
        spans_in_order(spans, text),
        forall|k: int| 0 <= k < spans.len() ==> keeps_match(text, #[trigger] spans[k]),
    ensures
        redacted_bytes(text, spans) == text,
        replaced_count(text, spans) == 0,
{
    lemma_kept_prefix(text, spans, spans.len() as int);
    let n = spans.len() as int;
    assert(text.subrange(0, gap_start(spans, n)) + text.subrange(gap_start(spans, n), text.len() as int)
        =~= text);
}

proof fn lemma_kept_prefix(text: Seq<u8>, spans: Seq<(usize, usize)>, k: int)
    requires
        spans_in_order(spans, text),
        0 <= k <= spans.len(),
        forall|j: int| 0 <= j < spans.len() ==> keeps_match(text, #[trigger] spans[j]),
    ensures
        redacted_through(text, spans, k) == text.subrange(0, gap_start(spans, k)),
        replaced_through(text, spans, k) == 0,
        0 <= gap_start(spans, k) <= text.len(),
    decreases k,
{
    if k > 0 {
        lemma_kept_prefix(text, spans, k - 1);
        let g = gap_start(spans, k - 1);
        let span = spans[k - 1];
        if k >= 2 {
            assert(spans[k - 2].1 <= spans[k - 1].0);
        }
        assert(text.subrange(0, g) + text.subrange(g, span.0 as int) + text.subrange(
            span.0 as int,
            span.1 as int,
        ) =~= text.subrange(0, span.1 as int));
    }
}

/// Redaction never replaces more domains than were matched.
pub proof fn lemma_replaced_at_most_matched(text: Seq<u8>, spans: Seq<(usize, usize)>)
    ensures
        0 <= replaced_count(text, spans) <= spans.len(),
{
    lemma_replaced_through_bounds(text, spans, spans.len() as int);
}

proof fn lemma_replaced_through_bounds(text: Seq<u8>, spans: Seq<(usize, usize)>, k: int)
    requires
        0 <= k,
    ensures
        0 <= replaced_through(text, spans, k) <= k,
    decreases k,
{
    if k > 0 {
        lemma_replaced_through_bounds(text, spans, k - 1);
    }
}

proof fn lemma_lowered_concat(a: Seq<u8>, b: Seq<u8>)
    ensures
        lowered(a + b) == lowered(a) + lowered(b),
{
    assert(lowered(a + b) =~= lowered(a) + lowered(b));
}

/// Every subdomain of an allowed domain is allowed.
pub proof fn lemma_subdomain_allowed(label: Seq<u8>, domain: Seq<u8>)
    requires
        is_allowed_domain_bytes(domain),
    ensures
        is_allowed_domain_bytes(label + seq![46u8] + domain),
{
    let i = choose|i: int|
        0 <= i < allowed_domains().len() && (lowered(domain) == bytes_of(
            #[trigger] allowed_domains()[i],
        ) || has_suffix(lowered(domain), seq![46u8] + bytes_of(allowed_domains()[i])));
    let d = bytes_of(allowed_domains()[i]);
    let whole = label + seq![46u8] + domain;
    lemma_lowered_concat(label + seq![46u8], domain);
    lemma_lowered_concat(label, seq![46u8]);
    let lw = lowered(whole);
    let ld = lowered(domain);
    assert(lw =~= lowered(label) + seq![46u8] + ld);
    if ld == d {
        assert(lw.subrange(lw.len() - (d.len() + 1), lw.len() as int) =~= seq![46u8] + d);
    } else {
        let m = d.len() + 1;
        assert(ld.subrange(ld.len() - m, ld.len() as int) == seq![46u8] + d);
        assert(lw.subrange(lw.len() - m, lw.len() as int) =~= ld.subrange(ld.len() - m, ld.len() as int));
    }
    assert(has_suffix(lw, seq![46u8] + d));
}

/// The UTF-8 bytes of ASCII text with no upper-case letter are their own lower case.
proof fn lemma_lower_case_text_is_lowered(s: Seq<char>)
    requires
        forall|i: int| 0 <= i < s.len() ==> ('\0' <= #[trigger] s[i] <= '\u{7f}') && !('A' <= s[i]
            <= 'Z'),
    ensures
        lowered(encode_utf8(s)) == encode_utf8(s),
{
    assert(vstd::utf8::is_ascii_chars(s));
    vstd::utf8::is_ascii_chars_encode_utf8(s);
    let e = encode_utf8(s);
    assert forall|i: int| 0 <= i < e.len() implies lower_byte(#[trigger] e[i]) == e[i] by {
        assert(s[i] as u8 == e[i]);
    }
    assert(lowered(e) =~= e);
}

/// The placeholders are allowed domains themselves, so a placeholder that is matched
/// as a whole domain is kept.
pub proof fn lemma_placeholders_allowed()
    ensures
        is_allowed_domain_bytes(encode_utf8("example.com"@)),
        is_allowed_domain_bytes(encode_utf8("example.teleport.sh"@)),
{
    reveal_strlit("example.com");
    reveal_strlit("example.teleport.sh");
    lemma_lower_case_text_is_lowered("example.com"@);
    lemma_lower_case_text_is_lowered("example.teleport.sh"@);
    assert(allowed_domains()[0] == "example.com");
    assert(allowed_domains()[10] == "example.teleport.sh");
}

/// The ASCII bytes of a lower-case word with no dot: their own lower case, and no dot.
proof fn lemma_plain_word(s: Seq<char>)
    requires
        forall|i: int|
            0 <= i < s.len() ==> ('\0' <= #[trigger] s[i] <= '\u{7f}') && !('A' <= s[i] <= 'Z') && s[i]
                != '.',
    ensures
        lowered(encode_utf8(s)) == encode_utf8(s),
        forall|i: int| 0 <= i < encode_utf8(s).len() ==> #[trigger] encode_utf8(s)[i] != 46u8,
{
    lemma_lower_case_text_is_lowered(s);
    vstd::utf8::is_ascii_chars_encode_utf8(s);
    assert forall|i: int| 0 <= i < encode_utf8(s).len() implies #[trigger] encode_utf8(s)[i] != 46u8 by {
        assert(s[i] as u8 == encode_utf8(s)[i]);
    }
}

/// What follows the last dot of `label.ext` is `ext`, when `ext` holds no dot.
proof fn lemma_after_last_dot_of_name(label: Seq<u8>, ext: Seq<u8>)
    requires
        forall|i: int| 0 <= i < ext.len() ==> #[trigger] ext[i] != 46u8,
    ensures
        after_last_dot(label + seq![46u8] + ext) == ext,
    decreases ext.len(),
{
    let name = label + seq![46u8] + ext;
    if ext.len() == 0 {
        assert(name.drop_last() =~= label);
        assert(name.last() == 46u8);
    } else {
        lemma_after_last_dot_of_name(label, ext.drop_last());
        assert(name.drop_last() =~= label + seq![46u8] + ext.drop_last());
        assert(name.last() == ext.last());
        assert(ext.drop_last().push(ext.last()) =~= ext);
    }
}

/// Each well-known domain is allowed, and so is every subdomain of it.
pub proof fn lemma_well_known_domains_allowed(domain: &'static str, label: Seq<u8>)
    requires
        seq![
            "example.com",
            "github.com",
            "gitlab.com",
            "google.com",
            "goteleport.com",
            "docker.io",
            "ghcr.io",
            "quay.io",
            "kubernetes.io",
            "k8s.io",
            "example.teleport.sh",
        ].contains(domain),
    ensures
        is_allowed_domain_bytes(bytes_of(domain)),
        is_allowed_domain_bytes(label + seq![46u8] + bytes_of(domain)),
{
    let list = seq![
            "example.com",
            "github.com",
            "gitlab.com",
            "google.com",
            "goteleport.com",
            "docker.io",
            "ghcr.io",
            "quay.io",
            "kubernetes.io",
            "k8s.io",
            "example.teleport.sh",
        ];
    let j = choose|j: int| 0 <= j < list.len() && list[j] == domain;
    assert(allowed_domains() == list);
    if j == 0 {
        reveal_strlit("example.com");
        lemma_lower_case_text_is_lowered("example.com"@);
    } else if j == 1 {
        reveal_strlit("github.com");
        lemma_lower_case_text_is_lowered("github.com"@);
    } else if j == 2 {
        reveal_strlit("gitlab.com");
        lemma_lower_case_text_is_lowered("gitlab.com"@);
    } else if j == 3 {
        reveal_strlit("google.com");
        lemma_lower_case_text_is_lowered("google.com"@);
    } else if j == 4 {
        reveal_strlit("goteleport.com");
        lemma_lower_case_text_is_lowered("goteleport.com"@);
    } else if j == 5 {
        reveal_strlit("docker.io");
        lemma_lower_case_text_is_lowered("docker.io"@);
    } else if j == 6 {
        reveal_strlit("ghcr.io");
        lemma_lower_case_text_is_lowered("ghcr.io"@);
    } else if j == 7 {
        reveal_strlit("quay.io");
        lemma_lower_case_text_is_lowered("quay.io"@);
    } else if j == 8 {
        reveal_strlit("kubernetes.io");
        lemma_lower_case_text_is_lowered("kubernetes.io"@);
    } else if j == 9 {
        reveal_strlit("k8s.io");
        lemma_lower_case_text_is_lowered("k8s.io"@);
    } else if j == 10 {
        reveal_strlit("example.teleport.sh");
        lemma_lower_case_text_is_lowered("example.teleport.sh"@);
    }
    assert(allowed_domains()[j] == domain);
    assert(lowered(bytes_of(domain)) == bytes_of(allowed_domains()[j]));
    lemma_subdomain_allowed(label, bytes_of(domain));
}

/// A file name `label.ext` with the extension of a source file is a code reference,
/// whatever comes before the dot.
pub proof fn lemma_source_file_names_are_code_references(ext: &'static str, label: Seq<u8>)
    requires
        seq![
            "go",
            "rs",
            "py",
            "js",
            "ts",
            "tsx",
            "jsx",
            "java",
            "rb",
            "php",
            "c",
            "h",
            "cc",
            "cpp",
            "hpp",
            "cs",
            "css",
            "html",
            "json",
            "yaml",
            "yml",
            "toml",
            "proto",
            "mod",
            "sum",
            "lock",
            "md",
            "txt",
            "log",
        ].contains(ext),
    ensures
        is_code_reference_bytes(label + seq![46u8] + bytes_of(ext)),
{
    let list = seq![
            "go",
            "rs",
            "py",
            "js",
            "ts",
            "tsx",
            "jsx",
            "java",
            "rb",
            "php",
            "c",
            "h",
            "cc",
            "cpp",
            "hpp",
            "cs",
            "css",
            "html",
            "json",
            "yaml",
            "yml",
            "toml",
            "proto",
            "mod",
            "sum",
            "lock",
            "md",
            "txt",
            "log",
        ];
    let j = choose|j: int| 0 <= j < list.len() && list[j] == ext;
    assert(code_extensions() == list);
    if j == 0 {
        reveal_strlit("go");
        lemma_plain_word("go"@);
    } else if j == 1 {
        reveal_strlit("rs");
        lemma_plain_word("rs"@);
    } else if j == 2 {
        reveal_strlit("py");
        lemma_plain_word("py"@);
    } else if j == 3 {
        reveal_strlit("js");
        lemma_plain_word("js"@);
    } else if j == 4 {
        reveal_strlit("ts");
        lemma_plain_word("ts"@);
    } else if j == 5 {
        reveal_strlit("tsx");
        lemma_plain_word("tsx"@);
    } else if j == 6 {
        reveal_strlit("jsx");
        lemma_plain_word("jsx"@);
    } else if j == 7 {
        reveal_strlit("java");
        lemma_plain_word("java"@);
    } else if j == 8 {
        reveal_strlit("rb");
        lemma_plain_word("rb"@);
    } else if j == 9 {
        reveal_strlit("php");
        lemma_plain_word("php"@);
    } else if j == 10 {
        reveal_strlit("c");
        lemma_plain_word("c"@);
    } else if j == 11 {
        reveal_strlit("h");
        lemma_plain_word("h"@);
    } else if j == 12 {
        reveal_strlit("cc");
        lemma_plain_word("cc"@);
    } else if j == 13 {
        reveal_strlit("cpp");
        lemma_plain_word("cpp"@);
    } else if j == 14 {
        reveal_strlit("hpp");
        lemma_plain_word("hpp"@);
    } else if j == 15 {
        reveal_strlit("cs");
        lemma_plain_word("cs"@);
    } else if j == 16 {
        reveal_strlit("css");
        lemma_plain_word("css"@);
    } else if j == 17 {
        reveal_strlit("html");
        lemma_plain_word("html"@);
    } else if j == 18 {
        reveal_strlit("json");
        lemma_plain_word("json"@);
    } else if j == 19 {
        reveal_strlit("yaml");
        lemma_plain_word("yaml"@);
    } else if j == 20 {
        reveal_strlit("yml");
        lemma_plain_word("yml"@);
    } else if j == 21 {
        reveal_strlit("toml");
        lemma_plain_word("toml"@);
    } else if j == 22 {
        reveal_strlit("proto");
        lemma_plain_word("proto"@);
    } else if j == 23 {
        reveal_strlit("mod");
        lemma_plain_word("mod"@);
    } else if j == 24 {
        reveal_strlit("sum");
        lemma_plain_word("sum"@);
    } else if j == 25 {
        reveal_strlit("lock");
        lemma_plain_word("lock"@);
    } else if j == 26 {
        reveal_strlit("md");
        lemma_plain_word("md"@);
    } else if j == 27 {
        reveal_strlit("txt");
        lemma_plain_word("txt"@);
    } else if j == 28 {
        reveal_strlit("log");
        lemma_plain_word("log"@);
    }
    lemma_after_last_dot_of_name(label, bytes_of(ext));
    assert(code_extensions()[j] == ext);
    assert(lowered(after_last_dot(label + seq![46u8] + bytes_of(ext))) == bytes_of(
        code_extensions()[j],
    ));
}

} // verus!
