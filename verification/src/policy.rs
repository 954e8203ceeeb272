//! Sampling policy: which target applies to a record.
//!
//! Rules are tried top-down and the first match wins; without one the default
//! target applies. A rule may ask for a namespace (a `*` pattern) and for a
//! severity at or below a bound, and matches only where everything it asks
//! for holds.

use crate::glob;
use crate::text;
use vstd::prelude::*;

verus! {

/// A compiled sampling rule. A rule that asks for nothing matches everything.
#[derive(Debug, Clone)]
pub struct Rule {
    /// Namespace pattern, e.g. `batch-*`.
    pub namespace_glob: Option<String>,
    /// Highest severity number that matches.
    pub severity_lte: Option<i32>,
    /// Percent kept where this rule wins.
    pub target: u8,
}

/// Ordered rules and the target that applies without a match.
#[derive(Debug, Clone)]
pub struct SamplingPolicy {
    rules: Vec<Rule>,
    default_target: u8,
}

/// Whether a rule matches a record. What a rule asks for and the record does
/// not have is no match.
pub open spec fn rule_applies(
    rule: Rule,
    namespace: Option<Seq<u8>>,
    severity: Option<i32>,
) -> bool {
    &&& rule.namespace_glob matches Some(g) ==> namespace matches Some(ns) && glob::glob(
        vstd::utf8::encode_utf8(g@),
        ns,
    )
    &&& rule.severity_lte matches Some(t) ==> severity matches Some(s) && s <= t
}

/// The target of the first rule that matches, else `default_target`.
pub open spec fn target_for(
    rules: Seq<Rule>,
    default_target: u8,
    namespace: Option<Seq<u8>>,
    severity: Option<i32>,
) -> u8
    decreases rules.len(),
{
    if rules.len() == 0 {
        default_target
    } else if rule_applies(rules[0], namespace, severity) {
        rules[0].target
    } else {
        target_for(rules.drop_first(), default_target, namespace, severity)
    }
}

/// The bytes of an optional slice.
pub open spec fn bytes_opt(s: Option<&[u8]>) -> Option<Seq<u8>> {
    match s {
        Some(s) => Some(s@),
        None => None,
    }
}

fn rule_matches(rule: &Rule, namespace: Option<&[u8]>, severity: Option<i32>) -> (r: bool)
    ensures
        r == rule_applies(*rule, bytes_opt(namespace), severity),
{
    if let Some(pattern) = &rule.namespace_glob {
        match namespace {
            Some(ns) => {
                if !glob_matches(pattern.as_str().as_bytes(), ns) {
                    return false;
                }
            },
            None => {
                return false;
            },
        }
    }
    if let Some(threshold) = rule.severity_lte {
        match severity {
            Some(sev) => {
                if sev > threshold {
                    return false;
                }
            },
            None => {
                return false;
            },
        }
    }
    true
}

impl SamplingPolicy {
    /// The rules, in order.
    pub closed spec fn rules(self) -> Seq<Rule> {
        self.rules@
    }

    /// The target that applies without a match.
    pub closed spec fn fallback(self) -> u8 {
        self.default_target
    }

    pub fn new(rules: Vec<Rule>, default_target: u8) -> (p: Self)
        ensures
            p.rules() == rules@,
            p.fallback() == default_target,
    {
        Self { rules, default_target }
    }

    /// The sampling target of a record: the first matching rule's, else the
    /// default.
    pub fn resolve(&self, namespace: Option<&[u8]>, severity: Option<i32>) -> (r: u8)
        ensures
            r == target_for(self.rules(), self.fallback(), bytes_opt(namespace), severity),
    {
        let mut i: usize = 0;
        proof {
            assert(self.rules@.skip(0) =~= self.rules@);
        }
        while i < self.rules.len()
            invariant
                i <= self.rules@.len(),
                target_for(self.rules@, self.default_target, bytes_opt(namespace), severity)
                    == target_for(
                    self.rules@.skip(i as int),
                    self.default_target,
                    bytes_opt(namespace),
                    severity,
                ),
            decreases self.rules@.len() - i,
        {
            proof {
                assert(self.rules@.skip(i as int).drop_first() =~= self.rules@.skip(i + 1));
            }
            if rule_matches(&self.rules[i], namespace, severity) {
                return self.rules[i].target;
            }
            i = i + 1;
        }
        self.default_target
    }

    pub fn default_target(&self) -> (r: u8)
        ensures
            r == self.fallback(),
    {
        self.default_target
    }
}

/// First match wins: rules behind one that matches have no say, and a rule
/// that does not match has none either.
pub proof fn law_first_match_wins(
    rules: Seq<Rule>,
    k: int,
    default_target: u8,
    namespace: Option<Seq<u8>>,
    severity: Option<i32>,
)
    requires
        0 <= k < rules.len(),
        rule_applies(rules[k], namespace, severity),
        forall|j: int| 0 <= j < k ==> !rule_applies(#[trigger] rules[j], namespace, severity),
    ensures
        target_for(rules, default_target, namespace, severity) == rules[k].target,
    decreases k,
{
    if k > 0 {
        assert(!rule_applies(rules[0], namespace, severity));
        let rest = rules.drop_first();
        assert forall|j: int| 0 <= j < k - 1 implies !rule_applies(
            #[trigger] rest[j],
            namespace,
            severity,
        ) by {
            assert(rest[j] == rules[j + 1]);
        }
        law_first_match_wins(rest, k - 1, default_target, namespace, severity);
    }
}

/// Without a match the default target applies.
pub proof fn law_no_match_is_default(
    rules: Seq<Rule>,
    default_target: u8,
    namespace: Option<Seq<u8>>,
    severity: Option<i32>,
)
    requires
        forall|j: int| 0 <= j < rules.len() ==> !rule_applies(#[trigger] rules[j], namespace, severity),
    ensures
        target_for(rules, default_target, namespace, severity) == default_target,
    decreases rules.len(),
{
    if rules.len() > 0 {
        let rest = rules.drop_first();
        assert(!rule_applies(rules[0], namespace, severity));
        assert forall|j: int| 0 <= j < rest.len() implies !rule_applies(
            #[trigger] rest[j],
            namespace,
            severity,
        ) by {
            assert(rest[j] == rules[j + 1]);
        }
        law_no_match_is_default(rest, default_target, namespace, severity);
    }
}

/// A letter in upper case; any other byte as it is.
pub open spec fn upper(b: u8) -> u8 {
    if 97 <= b <= 122 {
        (b - 32) as u8
    } else {
        b
    }
}

/// Text with its ASCII letters in upper case.
pub open spec fn upper_all(s: Seq<u8>) -> Seq<u8> {
    s.map_values(|b: u8| upper(b))
}

/// The highest severity number in the band of a name, in whatever case:
/// TRACE 1-4, DEBUG 5-8, INFO 9-12, WARN 13-16, ERROR 17-20, FATAL 21-24.
pub open spec fn band_max(name: Seq<u8>) -> Option<i32> {
    let u = upper_all(name);
    if u == vstd::utf8::encode_utf8("TRACE"@) {
        Some(4)
    } else if u == vstd::utf8::encode_utf8("DEBUG"@) {
        Some(8)
    } else if u == vstd::utf8::encode_utf8("INFO"@) {
        Some(12)
    } else if u == vstd::utf8::encode_utf8("WARN"@) || u == vstd::utf8::encode_utf8("WARNING"@) {
        Some(16)
    } else if u == vstd::utf8::encode_utf8("ERROR"@) {
        Some(20)
    } else if u == vstd::utf8::encode_utf8("FATAL"@) {
        Some(24)
    } else {
        None
    }
}

/// Names that differ in the case of letters only have the same band.
pub proof fn law_case_does_not_matter(a: Seq<u8>, b: Seq<u8>)
    requires
        a.len() == b.len(),
        forall|i: int|
            0 <= i < a.len() ==> {
                ||| #[trigger] a[i] == b[i]
                ||| 65 <= a[i] <= 90 && b[i] == a[i] + 32
                ||| 65 <= b[i] <= 90 && a[i] == b[i] + 32
            },
    ensures
        band_max(a) == band_max(b),
{
    assert forall|i: int| 0 <= i < a.len() implies #[trigger] upper_all(a)[i] == upper_all(b)[i] by {
        assert(a[i] == b[i] || (65 <= a[i] <= 90 && b[i] == a[i] + 32) || (65 <= b[i] <= 90 && a[i]
            == b[i] + 32));
    }
    assert(upper_all(a) =~= upper_all(b));
}

/// A severity name, in whatever case, stands for everything up to the end of
/// its band: trace 4, debug 8, info 12, warn or warning 16, error 20, fatal
/// 24. There are no other names.
#[verifier::rlimit(40)]
pub proof fn law_names_have_their_bands(name: Seq<u8>)
    ensures
        (name.len() == 5 && (name[0] == 84 || name[0] == 116) && (name[1] == 82 || name[1] == 114)
            && (name[2] == 65 || name[2] == 97) && (name[3] == 67 || name[3] == 99)
            && (name[4] == 69 || name[4] == 101)) ==> band_max(name) == Some(4i32),
        (name.len() == 5 && (name[0] == 68 || name[0] == 100) && (name[1] == 69 || name[1] == 101)
            && (name[2] == 66 || name[2] == 98) && (name[3] == 85 || name[3] == 117)
            && (name[4] == 71 || name[4] == 103)) ==> band_max(name) == Some(8i32),
        (name.len() == 4 && (name[0] == 73 || name[0] == 105) && (name[1] == 78 || name[1] == 110)
            && (name[2] == 70 || name[2] == 102)
            && (name[3] == 79 || name[3] == 111)) ==> band_max(name) == Some(12i32),
        (name.len() == 4 && (name[0] == 87 || name[0] == 119) && (name[1] == 65 || name[1] == 97)
            && (name[2] == 82 || name[2] == 114)
            && (name[3] == 78 || name[3] == 110)) ==> band_max(name) == Some(16i32),
        (name.len() == 7 && (name[0] == 87 || name[0] == 119) && (name[1] == 65 || name[1] == 97)
            && (name[2] == 82 || name[2] == 114) && (name[3] == 78 || name[3] == 110)
            && (name[4] == 73 || name[4] == 105) && (name[5] == 78 || name[5] == 110)
            && (name[6] == 71 || name[6] == 103)) ==> band_max(name) == Some(16i32),
        (name.len() == 5 && (name[0] == 69 || name[0] == 101) && (name[1] == 82 || name[1] == 114)
            && (name[2] == 82 || name[2] == 114) && (name[3] == 79 || name[3] == 111)
            && (name[4] == 82 || name[4] == 114)) ==> band_max(name) == Some(20i32),
        (name.len() == 5 && (name[0] == 70 || name[0] == 102) && (name[1] == 65 || name[1] == 97)
            && (name[2] == 84 || name[2] == 116) && (name[3] == 65 || name[3] == 97)
            && (name[4] == 76 || name[4] == 108)) ==> band_max(name) == Some(24i32),
        band_max(name) is Some ==> {
            ||| name.len() == 5 && (name[0] == 84 || name[0] == 116)
                && (name[1] == 82 || name[1] == 114) && (name[2] == 65 || name[2] == 97)
                && (name[3] == 67 || name[3] == 99) && (name[4] == 69 || name[4] == 101)
            ||| name.len() == 5 && (name[0] == 68 || name[0] == 100)
                && (name[1] == 69 || name[1] == 101) && (name[2] == 66 || name[2] == 98)
                && (name[3] == 85 || name[3] == 117) && (name[4] == 71 || name[4] == 103)
            ||| name.len() == 4 && (name[0] == 73 || name[0] == 105)
                && (name[1] == 78 || name[1] == 110) && (name[2] == 70 || name[2] == 102)
                && (name[3] == 79 || name[3] == 111)
            ||| name.len() == 4 && (name[0] == 87 || name[0] == 119)
                && (name[1] == 65 || name[1] == 97) && (name[2] == 82 || name[2] == 114)
                && (name[3] == 78 || name[3] == 110)
            ||| name.len() == 7 && (name[0] == 87 || name[0] == 119)
                && (name[1] == 65 || name[1] == 97) && (name[2] == 82 || name[2] == 114)
                && (name[3] == 78 || name[3] == 110) && (name[4] == 73 || name[4] == 105)
                && (name[5] == 78 || name[5] == 110) && (name[6] == 71 || name[6] == 103)
            ||| name.len() == 5 && (name[0] == 69 || name[0] == 101)
                && (name[1] == 82 || name[1] == 114) && (name[2] == 82 || name[2] == 114)
                && (name[3] == 79 || name[3] == 111) && (name[4] == 82 || name[4] == 114)
            ||| name.len() == 5 && (name[0] == 70 || name[0] == 102)
                && (name[1] == 65 || name[1] == 97) && (name[2] == 84 || name[2] == 116)
                && (name[3] == 65 || name[3] == 97) && (name[4] == 76 || name[4] == 108)
        },
{
    let u = upper_all(name);
    assert(u.len() == name.len());
    reveal_strlit("TRACE");
    vstd::utf8::is_ascii_chars_encode_utf8("TRACE"@);
    assert(vstd::utf8::encode_utf8("TRACE"@) =~= seq![84u8, 82u8, 65u8, 67u8, 69u8]);
    reveal_strlit("DEBUG");
    vstd::utf8::is_ascii_chars_encode_utf8("DEBUG"@);
    assert(vstd::utf8::encode_utf8("DEBUG"@) =~= seq![68u8, 69u8, 66u8, 85u8, 71u8]);
    reveal_strlit("INFO");
    vstd::utf8::is_ascii_chars_encode_utf8("INFO"@);
    assert(vstd::utf8::encode_utf8("INFO"@) =~= seq![73u8, 78u8, 70u8, 79u8]);
    reveal_strlit("WARN");
    vstd::utf8::is_ascii_chars_encode_utf8("WARN"@);
    assert(vstd::utf8::encode_utf8("WARN"@) =~= seq![87u8, 65u8, 82u8, 78u8]);
    reveal_strlit("WARNING");
    vstd::utf8::is_ascii_chars_encode_utf8("WARNING"@);
    assert(vstd::utf8::encode_utf8("WARNING"@) =~= seq![87u8, 65u8, 82u8, 78u8, 73u8, 78u8, 71u8]);
    reveal_strlit("ERROR");
    vstd::utf8::is_ascii_chars_encode_utf8("ERROR"@);
    assert(vstd::utf8::encode_utf8("ERROR"@) =~= seq![69u8, 82u8, 82u8, 79u8, 82u8]);
    reveal_strlit("FATAL");
    vstd::utf8::is_ascii_chars_encode_utf8("FATAL"@);
    assert(vstd::utf8::encode_utf8("FATAL"@) =~= seq![70u8, 65u8, 84u8, 65u8, 76u8]);
    if name.len() == 5 && (name[0] == 84 || name[0] == 116) && (name[1] == 82 || name[1] == 114)
        && (name[2] == 65 || name[2] == 97) && (name[3] == 67 || name[3] == 99)
        && (name[4] == 69 || name[4] == 101) {
        assert(u =~= seq![84u8, 82u8, 65u8, 67u8, 69u8]);
    }
    if u == seq![84u8, 82u8, 65u8, 67u8, 69u8] {
        assert(u[0] == 84);
        assert(u[1] == 82);
        assert(u[2] == 65);
        assert(u[3] == 67);
        assert(u[4] == 69);
    }
    if name.len() == 5 && (name[0] == 68 || name[0] == 100) && (name[1] == 69 || name[1] == 101)
        && (name[2] == 66 || name[2] == 98) && (name[3] == 85 || name[3] == 117)
        && (name[4] == 71 || name[4] == 103) {
        assert(u =~= seq![68u8, 69u8, 66u8, 85u8, 71u8]);
    }
    if u == seq![68u8, 69u8, 66u8, 85u8, 71u8] {
        assert(u[0] == 68);
        assert(u[1] == 69);
        assert(u[2] == 66);
        assert(u[3] == 85);
        assert(u[4] == 71);
    }
    if name.len() == 4 && (name[0] == 73 || name[0] == 105) && (name[1] == 78 || name[1] == 110)
        && (name[2] == 70 || name[2] == 102) && (name[3] == 79 || name[3] == 111) {
        assert(u =~= seq![73u8, 78u8, 70u8, 79u8]);
    }
    if u == seq![73u8, 78u8, 70u8, 79u8] {
        assert(u[0] == 73);
        assert(u[1] == 78);
        assert(u[2] == 70);
        assert(u[3] == 79);
    }
    if name.len() == 4 && (name[0] == 87 || name[0] == 119) && (name[1] == 65 || name[1] == 97)
        && (name[2] == 82 || name[2] == 114) && (name[3] == 78 || name[3] == 110) {
        assert(u =~= seq![87u8, 65u8, 82u8, 78u8]);
    }
    if u == seq![87u8, 65u8, 82u8, 78u8] {
        assert(u[0] == 87);
        assert(u[1] == 65);
        assert(u[2] == 82);
        assert(u[3] == 78);
    }
    if name.len() == 7 && (name[0] == 87 || name[0] == 119) && (name[1] == 65 || name[1] == 97)
        && (name[2] == 82 || name[2] == 114) && (name[3] == 78 || name[3] == 110)
        && (name[4] == 73 || name[4] == 105) && (name[5] == 78 || name[5] == 110)
        && (name[6] == 71 || name[6] == 103) {
        assert(u =~= seq![87u8, 65u8, 82u8, 78u8, 73u8, 78u8, 71u8]);
    }
    if u == seq![87u8, 65u8, 82u8, 78u8, 73u8, 78u8, 71u8] {
        assert(u[0] == 87);
        assert(u[1] == 65);
        assert(u[2] == 82);
        assert(u[3] == 78);
        assert(u[4] == 73);
        assert(u[5] == 78);
        assert(u[6] == 71);
    }
    if name.len() == 5 && (name[0] == 69 || name[0] == 101) && (name[1] == 82 || name[1] == 114)
        && (name[2] == 82 || name[2] == 114) && (name[3] == 79 || name[3] == 111)
        && (name[4] == 82 || name[4] == 114) {
        assert(u =~= seq![69u8, 82u8, 82u8, 79u8, 82u8]);
    }
    if u == seq![69u8, 82u8, 82u8, 79u8, 82u8] {
        assert(u[0] == 69);
        assert(u[1] == 82);
        assert(u[2] == 82);
        assert(u[3] == 79);
        assert(u[4] == 82);
    }
    if name.len() == 5 && (name[0] == 70 || name[0] == 102) && (name[1] == 65 || name[1] == 97)
        && (name[2] == 84 || name[2] == 116) && (name[3] == 65 || name[3] == 97)
        && (name[4] == 76 || name[4] == 108) {
        assert(u =~= seq![70u8, 65u8, 84u8, 65u8, 76u8]);
    }
    if u == seq![70u8, 65u8, 84u8, 65u8, 76u8] {
        assert(u[0] == 70);
        assert(u[1] == 65);
        assert(u[2] == 84);
        assert(u[3] == 65);
        assert(u[4] == 76);
    }
}

/// The bytes of a text with its ASCII letters in upper case.
fn to_upper(s: &str) -> (r: Vec<u8>)
    ensures
        r@ == upper_all(vstd::utf8::encode_utf8(s@)),
{
    let bytes = s.as_bytes();
    let mut out: Vec<u8> = Vec::new();
    let mut i: usize = 0;
    while i < bytes.len()
        invariant
            i <= bytes@.len(),
            out@ == upper_all(bytes@.take(i as int)),
        decreases bytes@.len() - i,
    {
        let b: u8 = bytes[i];
        let c: u8 = if 97 <= b && b <= 122 {
            b - 32
        } else {
            b
        };
        proof {
            assert(upper_all(bytes@.take(i + 1)) =~= upper_all(bytes@.take(i as int)).push(c));
        }
        out.push(c);
        i = i + 1;
    }
    assert(bytes@.take(i as int) =~= bytes@);
    out
}

/// Severity name to the highest number of its band. Case does not matter.
pub fn severity_band_max(name: &str) -> (r: Option<i32>)
    ensures
        r == band_max(vstd::utf8::encode_utf8(name@)),
{
    let u = to_upper(name);
    let u = u.as_slice();
    if text::bytes_eq(u, "TRACE".as_bytes()) {
        Some(4)
    } else if text::bytes_eq(u, "DEBUG".as_bytes()) {
        Some(8)
    } else if text::bytes_eq(u, "INFO".as_bytes()) {
        Some(12)
    } else if text::bytes_eq(u, "WARN".as_bytes()) || text::bytes_eq(u, "WARNING".as_bytes()) {
        Some(16)
    } else if text::bytes_eq(u, "ERROR".as_bytes()) {
        Some(20)
    } else if text::bytes_eq(u, "FATAL".as_bytes()) {
        Some(24)
    } else {
        None
    }
}

/// The namespace pattern match, with the semantics of [`glob::matches`].
pub fn glob_matches(pattern: &[u8], key: &[u8]) -> (r: bool)
    ensures
        r == glob::glob(pattern@, key@),
{
    glob::matches(pattern, key)
}

} // verus!
