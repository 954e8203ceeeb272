//! Configuration: typed sections, their defaults, and validation.
//!
//! Every key is optional; the default configuration is a working pass-through
//! without sampling or redaction. Validation is fail-fast: an out-of-range
//! target or a bad field selector stops the agent before it starts.

use crate::hash;
use crate::redact;
use crate::redact::{FieldSelector, RuleSpec};
use crate::text;
use vstd::prelude::*;
use vstd::string::*;
use xxhash_rust::xxh64::Xxh64;

verus! {

pub const DEFAULT_GRPC_ENDPOINT: &'static str = "0.0.0.0:4317";

pub const DEFAULT_HTTP_ENDPOINT: &'static str = "0.0.0.0:4318";

pub const DEFAULT_CHANNEL_CAPACITY: usize = 8192;

/// 512 MiB.
pub const DEFAULT_SPOOL_MAX_BYTES: u64 = 536_870_912;

pub const DEFAULT_SPOOL_DIR: &'static str = "/var/lib/archiv/spool";

/// 4 MiB.
pub const DEFAULT_MAX_BODY_BYTES: usize = 4_194_304;

/// Why a configuration is rejected.
#[derive(Debug)]
pub enum ConfigError {
    /// A sampling target above 100.
    TargetOutOfRange { which: String, target: u16 },
    ZeroChannelCapacity,
    ZeroMaxBodyBytes,
    /// A redaction rule that scans nothing.
    EmptyFields { rule: String },
    /// A field selector that is neither `body` nor `attributes.<pattern>`.
    InvalidFieldSelector { rule: String, selector: String },
}

/// Why a configuration is rejected, by its texts.
pub enum ConfigFault {
    TargetOutOfRange { which: Seq<char>, target: u16 },
    ZeroChannelCapacity,
    ZeroMaxBodyBytes,
    EmptyFields { rule: Seq<char> },
    InvalidFieldSelector { rule: Seq<char>, selector: Seq<char> },
}

impl View for ConfigError {
    type V = ConfigFault;

    open spec fn view(&self) -> ConfigFault {
        match *self {
            ConfigError::TargetOutOfRange { which, target } => ConfigFault::TargetOutOfRange {
                which: which@,
                target,
            },
            ConfigError::ZeroChannelCapacity => ConfigFault::ZeroChannelCapacity,
            ConfigError::ZeroMaxBodyBytes => ConfigFault::ZeroMaxBodyBytes,
            ConfigError::EmptyFields { rule } => ConfigFault::EmptyFields { rule: rule@ },
            ConfigError::InvalidFieldSelector { rule, selector } =>
                ConfigFault::InvalidFieldSelector { rule: rule@, selector: selector@ },
        }
    }
}

#[derive(Debug, Clone)]
pub struct AgentConfig {
    /// Count what the policy would do, and forward everything.
    pub dry_run: bool,
    pub ingest: IngestConfig,
    pub sampling: SamplingConfig,
    pub redaction: RedactionConfig,
    pub export: ExportConfig,
    pub limits: Limits,
}

#[derive(Debug, Clone)]
pub struct IngestConfig {
    pub grpc_endpoint: String,
    pub http_endpoint: String,
    pub channel_capacity: usize,
}

#[derive(Debug, Clone)]
pub struct SamplingConfig {
    /// Percent kept where no rule matches; 100 disables sampling.
    pub default_target: u16,
    /// First match wins, tried top-down.
    pub rules: Vec<SamplingRule>,
}

#[derive(Debug, Clone)]
pub struct SamplingRule {
    pub selector: SamplingMatch,
    pub target: u16,
}

#[derive(Debug, Clone)]
pub struct SamplingMatch {
    /// Namespace pattern, e.g. `payments`, `batch-*`.
    pub namespace: Option<String>,
    /// Highest severity that matches, e.g. `DEBUG`.
    pub severity_lte: Option<String>,
}

#[derive(Debug, Clone)]
pub struct RedactionConfig {
    pub regex_rules: Vec<RegexRuleConfig>,
}

#[derive(Debug, Clone)]
pub struct RegexRuleConfig {
    pub name: String,
    pub pattern: String,
    pub mask: String,
    /// e.g. `[body, "attributes.*"]`.
    pub fields: Vec<String>,
}

#[derive(Debug, Clone)]
pub struct ExportConfig {
    /// Destination OTLP endpoint; without one nothing is forwarded.
    pub otlp_endpoint: Option<String>,
    pub spool_dir: String,
    pub spool_max_bytes: u64,
}

#[derive(Debug, Clone)]
pub struct Limits {
    pub max_body_bytes: usize,
}

impl Default for IngestConfig {
    fn default() -> (c: Self)
        ensures
            c.grpc_endpoint@ == DEFAULT_GRPC_ENDPOINT@,
            c.http_endpoint@ == DEFAULT_HTTP_ENDPOINT@,
            c.channel_capacity == DEFAULT_CHANNEL_CAPACITY,
    {
        IngestConfig {
            grpc_endpoint: DEFAULT_GRPC_ENDPOINT.to_owned(),
            http_endpoint: DEFAULT_HTTP_ENDPOINT.to_owned(),
            channel_capacity: DEFAULT_CHANNEL_CAPACITY,
        }
    }
}

impl Default for SamplingConfig {
    fn default() -> (c: Self)
        ensures
            c.default_target == 100,
            c.rules@.len() == 0,
    {
        SamplingConfig { default_target: 100, rules: Vec::new() }
    }
}

impl Default for SamplingMatch {
    fn default() -> (c: Self)
        ensures
            c.namespace is None,
            c.severity_lte is None,
    {
        SamplingMatch { namespace: None, severity_lte: None }
    }
}

impl Default for RedactionConfig {
    fn default() -> (c: Self)
        ensures
            c.regex_rules@.len() == 0,
    {
        RedactionConfig { regex_rules: Vec::new() }
    }
}

impl Default for ExportConfig {
    fn default() -> (c: Self)
        ensures
            c.otlp_endpoint is None,
            c.spool_dir@ == DEFAULT_SPOOL_DIR@,
            c.spool_max_bytes == DEFAULT_SPOOL_MAX_BYTES,
    {
        ExportConfig {
            otlp_endpoint: None,
            spool_dir: DEFAULT_SPOOL_DIR.to_owned(),
            spool_max_bytes: DEFAULT_SPOOL_MAX_BYTES,
        }
    }
}

impl Default for Limits {
    fn default() -> (c: Self)
        ensures
            c.max_body_bytes == DEFAULT_MAX_BODY_BYTES,
    {
        Limits { max_body_bytes: DEFAULT_MAX_BODY_BYTES }
    }
}

impl Default for AgentConfig {
    /// A pass-through configuration, which is valid.
    fn default() -> (c: Self)
        ensures
            !c.dry_run,
            c.ingest.grpc_endpoint@ == DEFAULT_GRPC_ENDPOINT@,
            c.ingest.http_endpoint@ == DEFAULT_HTTP_ENDPOINT@,
            c.ingest.channel_capacity == DEFAULT_CHANNEL_CAPACITY,
            c.sampling.default_target == 100,
            c.sampling.rules@.len() == 0,
            c.redaction.regex_rules@.len() == 0,
            c.export.otlp_endpoint is None,
            c.export.spool_dir@ == DEFAULT_SPOOL_DIR@,
            c.export.spool_max_bytes == DEFAULT_SPOOL_MAX_BYTES,
            c.limits.max_body_bytes == DEFAULT_MAX_BODY_BYTES,
            config_fault(c) is None,
    {
        AgentConfig {
            dry_run: false,
            ingest: IngestConfig::default(),
            sampling: SamplingConfig::default(),
            redaction: RedactionConfig::default(),
            export: ExportConfig::default(),
            limits: Limits::default(),
        }
    }
}

/// The first sampling rule from `i` on whose target is out of range.
pub open spec fn bad_target(rules: Seq<SamplingRule>, i: int) -> Option<int>
    decreases rules.len() - i,
{
    if i >= rules.len() {
        None
    } else if rules[i].target > 100 {
        Some(i)
    } else {
        bad_target(rules, i + 1)
    }
}

/// The first field selector from `i` on that is none.
pub open spec fn bad_selector(fields: Seq<String>, i: int) -> Option<int>
    decreases fields.len() - i,
{
    if i >= fields.len() {
        None
    } else if redact::selector_of(fields[i]@) is None {
        Some(i)
    } else {
        bad_selector(fields, i + 1)
    }
}

/// What is wrong with a redaction rule's selectors.
pub open spec fn rule_fault(rule: RegexRuleConfig) -> Option<ConfigFault> {
    if rule.fields@.len() == 0 {
        Some(ConfigFault::EmptyFields { rule: rule.name@ })
    } else {
        match bad_selector(rule.fields@, 0) {
            Some(i) => Some(
                ConfigFault::InvalidFieldSelector {
                    rule: rule.name@,
                    selector: rule.fields@[i]@,
                },
            ),
            None => None,
        }
    }
}

/// What is wrong with the first faulty redaction rule from `i` on.
pub open spec fn redaction_fault(rules: Seq<RegexRuleConfig>, i: int) -> Option<ConfigFault>
    decreases rules.len() - i,
{
    if i >= rules.len() {
        None
    } else {
        match rule_fault(rules[i]) {
            Some(f) => Some(f),
            None => redaction_fault(rules, i + 1),
        }
    }
}

/// What is wrong with a configuration, in the order it is looked for.
pub open spec fn config_fault(c: AgentConfig) -> Option<ConfigFault> {
    if c.sampling.default_target > 100 {
        Some(
            ConfigFault::TargetOutOfRange {
                which: "default"@,
                target: c.sampling.default_target,
            },
        )
    } else {
        match bad_target(c.sampling.rules@, 0) {
            Some(i) => Some(
                ConfigFault::TargetOutOfRange {
                    which: "rules["@ + text::decimal(i as nat) + "]"@,
                    target: c.sampling.rules@[i].target,
                },
            ),
            None => if c.ingest.channel_capacity == 0 {
                Some(ConfigFault::ZeroChannelCapacity)
            } else if c.limits.max_body_bytes == 0 {
                Some(ConfigFault::ZeroMaxBodyBytes)
            } else {
                redaction_fault(c.redaction.regex_rules@, 0)
            },
        }
    }
}

/// Text as bytes, the absent text as none.
pub open spec fn text_bytes(s: Option<String>) -> Seq<u8> {
    match s {
        Some(s) => vstd::utf8::encode_utf8(s@),
        None => Seq::empty(),
    }
}

/// Sixteen bits, low byte first.
pub open spec fn le_bytes(n: u16) -> Seq<u8> {
    seq![(n % 256) as u8, (n / 256) as u8]
}

/// What a sampling rule contributes to the fingerprint.
pub open spec fn sampling_rule_bytes(r: SamplingRule) -> Seq<u8> {
    text_bytes(r.selector.namespace) + seq![0u8] + text_bytes(r.selector.severity_lte) + seq![0u8]
        + le_bytes(r.target)
}

/// What several sampling rules contribute.
pub open spec fn sampling_rules_bytes(rules: Seq<SamplingRule>) -> Seq<u8>
    decreases rules.len(),
{
    if rules.len() == 0 {
        Seq::empty()
    } else {
        sampling_rules_bytes(rules.drop_last()) + sampling_rule_bytes(rules.last())
    }
}

/// What several field selectors contribute.
pub open spec fn fields_bytes(fields: Seq<String>) -> Seq<u8>
    decreases fields.len(),
{
    if fields.len() == 0 {
        Seq::empty()
    } else {
        fields_bytes(fields.drop_last()) + vstd::utf8::encode_utf8(fields.last()@) + seq![0u8]
    }
}

/// What a redaction rule contributes.
pub open spec fn redaction_rule_bytes(r: RegexRuleConfig) -> Seq<u8> {
    vstd::utf8::encode_utf8(r.name@) + seq![0u8] + vstd::utf8::encode_utf8(r.pattern@) + seq![0u8]
        + vstd::utf8::encode_utf8(r.mask@) + seq![0u8] + fields_bytes(r.fields@) + seq![0xFEu8]
}

/// What several redaction rules contribute.
pub open spec fn redaction_rules_bytes(rules: Seq<RegexRuleConfig>) -> Seq<u8>
    decreases rules.len(),
{
    if rules.len() == 0 {
        Seq::empty()
    } else {
        redaction_rules_bytes(rules.drop_last()) + redaction_rule_bytes(rules.last())
    }
}

/// The governance policy as bytes: sampling, a separator, redaction.
pub open spec fn policy_bytes(sampling: SamplingConfig, redaction: RedactionConfig) -> Seq<u8> {
    le_bytes(sampling.default_target) + sampling_rules_bytes(sampling.rules@) + seq![0xFFu8]
        + redaction_rules_bytes(redaction.regex_rules@)
}

/// The fingerprint of a governance policy.
pub open spec fn fingerprint(sampling: SamplingConfig, redaction: RedactionConfig) -> u64 {
    hash::xxh64_streamed(policy_bytes(sampling, redaction), 0)
}

/// Transport and limits have no part in the fingerprint.
pub proof fn law_fingerprint_is_policy_only(a: AgentConfig, b: AgentConfig)
    requires
        a.sampling == b.sampling,
        a.redaction == b.redaction,
    ensures
        fingerprint(a.sampling, a.redaction) == fingerprint(b.sampling, b.redaction),
{
}

/// Policies with different default targets are different byte strings.
pub proof fn law_default_target_shows(
    s1: SamplingConfig,
    r1: RedactionConfig,
    s2: SamplingConfig,
    r2: RedactionConfig,
)
    requires
        policy_bytes(s1, r1) == policy_bytes(s2, r2),
    ensures
        s1.default_target == s2.default_target,
{
    let a = policy_bytes(s1, r1);
    let b = policy_bytes(s2, r2);
    assert(a[0] == (s1.default_target % 256) as u8 && a[1] == (s1.default_target / 256) as u8);
    assert(b[0] == (s2.default_target % 256) as u8 && b[1] == (s2.default_target / 256) as u8);
}

proof fn lemma_bad_target(rules: Seq<SamplingRule>, i: int)
    requires
        0 <= i <= rules.len(),
    ensures
        match bad_target(rules, i) {
            Some(k) => i <= k < rules.len() && rules[k].target > 100 && forall|j: int|
                i <= j < k ==> (#[trigger] rules[j]).target <= 100,
            None => forall|j: int| i <= j < rules.len() ==> (#[trigger] rules[j]).target <= 100,
        },
    decreases rules.len() - i,
{
    if i < rules.len() {
        lemma_bad_target(rules, i + 1);
    }
}

proof fn lemma_bad_selector(fields: Seq<String>, i: int)
    requires
        0 <= i <= fields.len(),
    ensures
        match bad_selector(fields, i) {
            Some(k) => i <= k < fields.len() && redact::selector_of(fields[k]@) is None && forall|
                j: int,
            |
                i <= j < k ==> redact::selector_of((#[trigger] fields[j])@) is Some,
            None => forall|j: int|
                i <= j < fields.len() ==> redact::selector_of((#[trigger] fields[j])@) is Some,
        },
    decreases fields.len() - i,
{
    if i < fields.len() {
        lemma_bad_selector(fields, i + 1);
    }
}

proof fn lemma_redaction_fault(rules: Seq<RegexRuleConfig>, i: int)
    requires
        0 <= i <= rules.len(),
    ensures
        match redaction_fault(rules, i) {
            Some(f) => exists|k: int|
                i <= k < rules.len() && rule_fault(#[trigger] rules[k]) == Some(f) && forall|j: int|
                    i <= j < k ==> rule_fault(#[trigger] rules[j]) is None,
            None => forall|j: int| i <= j < rules.len() ==> rule_fault(#[trigger] rules[j]) is None,
        },
    decreases rules.len() - i,
{
    if i < rules.len() {
        lemma_redaction_fault(rules, i + 1);
        match rule_fault(rules[i]) {
            Some(f) => {
                assert(rule_fault(rules[i]) == Some(f));
            },
            None => {
                if redaction_fault(rules, i + 1) is Some {
                    let f = redaction_fault(rules, i + 1)->0;
                    let k = choose|k: int|
                        i + 1 <= k < rules.len() && rule_fault(#[trigger] rules[k]) == Some(f)
                            && forall|j: int|
                            i + 1 <= j < k ==> rule_fault(#[trigger] rules[j]) is None;
                    assert(rule_fault(rules[k]) == Some(f));
                }
            },
        }
    }
}

/// A configuration is accepted exactly where every target is a percentage,
/// queue and body cap are not zero, and every redaction rule has a field
/// selector and only such that say `body` or `attributes.` and a pattern.
pub proof fn law_what_is_accepted(c: AgentConfig)
    ensures
        config_fault(c) is None <==> {
            &&& c.sampling.default_target <= 100
            &&& forall|i: int|
                0 <= i < c.sampling.rules@.len() ==> (#[trigger] c.sampling.rules@[i]).target <= 100
            &&& c.ingest.channel_capacity > 0
            &&& c.limits.max_body_bytes > 0
            &&& forall|i: int|
                0 <= i < c.redaction.regex_rules@.len() ==> (
                #[trigger] c.redaction.regex_rules@[i]).fields@.len() > 0
            &&& forall|i: int, n: int|
                0 <= i < c.redaction.regex_rules@.len() && 0 <= n
                    < c.redaction.regex_rules@[i].fields@.len() ==> {
                    let text = (#[trigger] c.redaction.regex_rules@[i].fields@[n])@;
                    text == "body"@ || ("attributes."@.is_prefix_of(text) && text.len() > 11)
                }
        },
{
    let rules = c.redaction.regex_rules@;
    lemma_bad_target(c.sampling.rules@, 0);
    lemma_redaction_fault(rules, 0);
    reveal_strlit("attributes.");
    assert forall|i: int| 0 <= i < rules.len() implies (rule_fault(#[trigger] rules[i]) is None <==> (
    rules[i].fields@.len() > 0 && forall|n: int|
        0 <= n < rules[i].fields@.len() ==> redact::selector_of((#[trigger] rules[i].fields@[n])@)
            is Some)) by {
        lemma_bad_selector(rules[i].fields@, 0);
    }
    if config_fault(c) is None {
        assert forall|i: int, n: int|
            0 <= i < rules.len() && 0 <= n < rules[i].fields@.len() implies {
            let text = (#[trigger] rules[i].fields@[n])@;
            text == "body"@ || ("attributes."@.is_prefix_of(text) && text.len() > 11)
        } by {
            assert(rule_fault(rules[i]) is None);
            assert(redact::selector_of(rules[i].fields@[n]@) is Some);
        }
        assert forall|i: int| 0 <= i < rules.len() implies (#[trigger] rules[i]).fields@.len()
            > 0 by {
            assert(rule_fault(rules[i]) is None);
        }
    } else if c.sampling.default_target <= 100 && bad_target(c.sampling.rules@, 0) is None
        && c.ingest.channel_capacity > 0 && c.limits.max_body_bytes > 0 {
        let f = redaction_fault(rules, 0)->0;
        let k = choose|k: int|
            0 <= k < rules.len() && rule_fault(#[trigger] rules[k]) == Some(f) && forall|j: int|
                0 <= j < k ==> rule_fault(#[trigger] rules[j]) is None;
        lemma_bad_selector(rules[k].fields@, 0);
        if rules[k].fields@.len() > 0 {
            let n = bad_selector(rules[k].fields@, 0)->0;
            assert(redact::selector_of(rules[k].fields@[n]@) is None);
        }
    }
}

/// What a rejection says: the first target that is no percentage, with its
/// place and its number, before everything else; then an empty queue, then an
/// empty body cap, then the first redaction rule without a selector or with
/// one that cannot be read.
pub proof fn law_what_a_rejection_says(c: AgentConfig)
    ensures
        c.sampling.default_target > 100 ==> config_fault(c) == Some(
            ConfigFault::TargetOutOfRange {
                which: "default"@,
                target: c.sampling.default_target,
            },
        ),
        forall|i: int|
            (c.sampling.default_target <= 100 && 0 <= i < c.sampling.rules@.len() && (
            #[trigger] c.sampling.rules@[i]).target > 100 && forall|j: int|
                0 <= j < i ==> (#[trigger] c.sampling.rules@[j]).target <= 100) ==> config_fault(c)
                == Some(
                ConfigFault::TargetOutOfRange {
                    which: "rules["@ + text::decimal(i as nat) + "]"@,
                    target: c.sampling.rules@[i].target,
                },
            ),
        ({
            let targets = c.sampling.default_target <= 100 && forall|i: int|
                0 <= i < c.sampling.rules@.len() ==> (#[trigger] c.sampling.rules@[i]).target <= 100;
            &&& targets && c.ingest.channel_capacity == 0 ==> config_fault(c) == Some(
                ConfigFault::ZeroChannelCapacity,
            )
            &&& targets && c.ingest.channel_capacity > 0 && c.limits.max_body_bytes == 0
                ==> config_fault(c) == Some(ConfigFault::ZeroMaxBodyBytes)
        }),
{
    lemma_bad_target(c.sampling.rules@, 0);
}

/// What a rejection says of redaction rules: the first rule that is wrong, by
/// its name, and its first selector that cannot be read.
pub proof fn law_the_first_bad_selector_is_told(rules: Seq<RegexRuleConfig>, k: int)
    requires
        0 <= k < rules.len(),
        forall|j: int, n: int|
            0 <= j < k && 0 <= n < rules[j].fields@.len() ==> redact::selector_of(
                (#[trigger] rules[j].fields@[n])@,
            ) is Some,
        forall|j: int| 0 <= j < k ==> (#[trigger] rules[j]).fields@.len() > 0,
    ensures
        rules[k].fields@.len() == 0 ==> redaction_fault(rules, 0) == Some(
            ConfigFault::EmptyFields { rule: rules[k].name@ },
        ),
        forall|n: int|
            (0 <= n < rules[k].fields@.len() && redact::selector_of(
                (#[trigger] rules[k].fields@[n])@,
            ) is None && forall|m: int|
                0 <= m < n ==> redact::selector_of((#[trigger] rules[k].fields@[m])@) is Some)
                ==> redaction_fault(rules, 0) == Some(
                ConfigFault::InvalidFieldSelector {
                    rule: rules[k].name@,
                    selector: rules[k].fields@[n]@,
                },
            ),
{
    lemma_redaction_fault(rules, 0);
    assert forall|j: int| 0 <= j < k implies rule_fault(#[trigger] rules[j]) is None by {
        lemma_bad_selector(rules[j].fields@, 0);
        if bad_selector(rules[j].fields@, 0) is Some {
            let n = bad_selector(rules[j].fields@, 0)->0;
            assert(redact::selector_of(rules[j].fields@[n]@) is Some);
        }
    }
    lemma_bad_selector(rules[k].fields@, 0);
    assert forall|n: int|
        (0 <= n < rules[k].fields@.len() && redact::selector_of(
            (#[trigger] rules[k].fields@[n])@,
        ) is None && forall|m: int|
            0 <= m < n ==> redact::selector_of((#[trigger] rules[k].fields@[m])@) is Some) implies bad_selector(
        rules[k].fields@,
        0,
    ) == Some(n) by {
        if bad_selector(rules[k].fields@, 0) is Some {
            let x = bad_selector(rules[k].fields@, 0)->0;
            if x < n {
                assert(redact::selector_of(rules[k].fields@[x]@) is Some);
            }
        }
    }
    if rule_fault(rules[k]) is Some {
        if redaction_fault(rules, 0) is None {
            assert(rule_fault(rules[k]) is None);
        } else {
            let f = redaction_fault(rules, 0)->0;
            let x = choose|x: int|
                0 <= x < rules.len() && rule_fault(#[trigger] rules[x]) == Some(f) && forall|
                    j: int,
                |
                    0 <= j < x ==> rule_fault(#[trigger] rules[j]) is None;
            if x < k {
                assert(rule_fault(rules[x]) is None);
            }
            if k < x {
                assert(rule_fault(rules[k]) is None);
            }
        }
    }
}

/// What stands between two byte strings shows.
proof fn lemma_between(a: Seq<u8>, x: Seq<u8>, y: Seq<u8>, b: Seq<u8>)
    requires
        a + x + b == a + y + b,
    ensures
        x == y,
{
    let s = a + x + b;
    let t = a + y + b;
    assert(s.len() == a.len() + x.len() + b.len());
    assert(t.len() == a.len() + y.len() + b.len());
    assert(x =~= s.subrange(a.len() as int, (a.len() + x.len()) as int));
    assert(y =~= t.subrange(a.len() as int, (a.len() + y.len()) as int));
}

proof fn lemma_sampling_split(rules: Seq<SamplingRule>, i: int) -> (parts: (Seq<u8>, Seq<u8>))
    requires
        0 <= i < rules.len(),
    ensures
        forall|r: SamplingRule| #[trigger]
            sampling_rules_bytes(rules.update(i, r)) == parts.0 + sampling_rule_bytes(r) + parts.1,
    decreases rules.len(),
{
    let last = rules.len() - 1;
    if i == last {
        let front = sampling_rules_bytes(rules.drop_last());
        assert forall|r: SamplingRule| #[trigger] sampling_rules_bytes(rules.update(i, r)) == front
            + sampling_rule_bytes(r) + Seq::<u8>::empty() by {
            assert(rules.update(i, r).drop_last() =~= rules.drop_last());
            assert(front + sampling_rule_bytes(r) + Seq::<u8>::empty() =~= front
                + sampling_rule_bytes(r));
        }
        (front, Seq::empty())
    } else {
        let (a, b) = lemma_sampling_split(rules.drop_last(), i);
        let end = sampling_rule_bytes(rules.last());
        assert forall|r: SamplingRule| #[trigger] sampling_rules_bytes(rules.update(i, r)) == a
            + sampling_rule_bytes(r) + (b + end) by {
            assert(rules.update(i, r).drop_last() =~= rules.drop_last().update(i, r));
            assert(rules.update(i, r).last() == rules.last());
            assert(sampling_rules_bytes(rules.drop_last().update(i, r)) == a + sampling_rule_bytes(r) + b);
            assert((a + sampling_rule_bytes(r) + b) + end =~= a + sampling_rule_bytes(r) + (b
                + end));
        }
        (a, b + end)
    }
}

/// Policies that differ in one sampling rule are told apart by that rule.
proof fn lemma_rule_shows(
    a: SamplingConfig,
    b: SamplingConfig,
    redaction: RedactionConfig,
    i: int,
)
    requires
        a.default_target == b.default_target,
        0 <= i < a.rules@.len(),
        b.rules@ == a.rules@.update(i, b.rules@[i]),
        policy_bytes(a, redaction) == policy_bytes(b, redaction),
    ensures
        sampling_rule_bytes(a.rules@[i]) == sampling_rule_bytes(b.rules@[i]),
{
    let (x, y) = lemma_sampling_split(a.rules@, i);
    let ra = a.rules@[i];
    let rb = b.rules@[i];
    assert(a.rules@.update(i, ra) =~= a.rules@);
    let head = le_bytes(a.default_target);
    let tail = seq![0xFFu8] + redaction_rules_bytes(redaction.regex_rules@);
    assert(policy_bytes(a, redaction) =~= (head + x) + sampling_rule_bytes(ra) + (y + tail));
    assert(policy_bytes(b, redaction) =~= (head + x) + sampling_rule_bytes(rb) + (y + tail));
    lemma_between(head + x, sampling_rule_bytes(ra), sampling_rule_bytes(rb), y + tail);
}

/// Another target of any sampling rule is another policy.
pub proof fn law_rule_targets_show(
    a: SamplingConfig,
    b: SamplingConfig,
    redaction: RedactionConfig,
    i: int,
)
    requires
        a.default_target == b.default_target,
        0 <= i < a.rules@.len(),
        b.rules@ == a.rules@.update(i, b.rules@[i]),
        b.rules@[i].selector == a.rules@[i].selector,
        a.rules@[i].target != b.rules@[i].target,
    ensures
        policy_bytes(a, redaction) != policy_bytes(b, redaction),
{
    let ra = a.rules@[i];
    let rb = b.rules@[i];
    if policy_bytes(a, redaction) == policy_bytes(b, redaction) {
        lemma_rule_shows(a, b, redaction, i);
        let front = text_bytes(ra.selector.namespace) + seq![0u8] + text_bytes(
            ra.selector.severity_lte,
        ) + seq![0u8];
        assert(sampling_rule_bytes(ra) =~= front + le_bytes(ra.target) + Seq::<u8>::empty());
        assert(sampling_rule_bytes(rb) =~= front + le_bytes(rb.target) + Seq::<u8>::empty());
        lemma_between(front, le_bytes(ra.target), le_bytes(rb.target), Seq::empty());
        assert(le_bytes(ra.target)[0] == le_bytes(rb.target)[0]);
        assert(le_bytes(ra.target)[1] == le_bytes(rb.target)[1]);
    }
}

/// Another namespace or another severity of any sampling rule is another
/// policy.
pub proof fn law_rule_conditions_show(
    a: SamplingConfig,
    b: SamplingConfig,
    redaction: RedactionConfig,
    i: int,
)
    requires
        a.default_target == b.default_target,
        0 <= i < a.rules@.len(),
        b.rules@ == a.rules@.update(i, b.rules@[i]),
        b.rules@[i].target == a.rules@[i].target,
        ({
            let (x, y) = (a.rules@[i].selector, b.rules@[i].selector);
            ||| x.severity_lte == y.severity_lte && x.namespace is Some && y.namespace is Some
                && x.namespace->0@ != y.namespace->0@
            ||| x.namespace == y.namespace && x.severity_lte is Some && y.severity_lte is Some
                && x.severity_lte->0@ != y.severity_lte->0@
        }),
    ensures
        policy_bytes(a, redaction) != policy_bytes(b, redaction),
{
    let ra = a.rules@[i];
    let rb = b.rules@[i];
    if policy_bytes(a, redaction) == policy_bytes(b, redaction) {
        lemma_rule_shows(a, b, redaction, i);
        if ra.selector.severity_lte == rb.selector.severity_lte {
            lemma_namespace_shows(ra, rb);
        } else {
            lemma_severity_shows(ra, rb);
        }
    }
}

proof fn lemma_namespace_shows(a: SamplingRule, b: SamplingRule)
    requires
        sampling_rule_bytes(a) == sampling_rule_bytes(b),
        a.target == b.target,
        a.selector.severity_lte == b.selector.severity_lte,
        a.selector.namespace is Some,
        b.selector.namespace is Some,
    ensures
        a.selector.namespace->0@ == b.selector.namespace->0@,
{
    let (x, y) = (text_bytes(a.selector.namespace), text_bytes(b.selector.namespace));
    let none = Seq::<u8>::empty();
    let behind = seq![0u8] + text_bytes(a.selector.severity_lte) + seq![0u8] + le_bytes(a.target);
    assert(sampling_rule_bytes(a) =~= none + x + behind);
    assert(sampling_rule_bytes(b) =~= none + y + behind);
    lemma_between(none, x, y, behind);
    text::lemma_utf8_injective(a.selector.namespace->0@, b.selector.namespace->0@);
}

proof fn lemma_severity_shows(a: SamplingRule, b: SamplingRule)
    requires
        sampling_rule_bytes(a) == sampling_rule_bytes(b),
        a.target == b.target,
        a.selector.namespace == b.selector.namespace,
        a.selector.severity_lte is Some,
        b.selector.severity_lte is Some,
    ensures
        a.selector.severity_lte->0@ == b.selector.severity_lte->0@,
{
    let (x, y) = (text_bytes(a.selector.severity_lte), text_bytes(b.selector.severity_lte));
    let front = text_bytes(a.selector.namespace) + seq![0u8];
    let behind = seq![0u8] + le_bytes(a.target);
    assert(sampling_rule_bytes(a) =~= front + x + behind);
    assert(sampling_rule_bytes(b) =~= front + y + behind);
    lemma_between(front, x, y, behind);
    text::lemma_utf8_injective(a.selector.severity_lte->0@, b.selector.severity_lte->0@);
}

proof fn lemma_redaction_split(rules: Seq<RegexRuleConfig>, i: int) -> (parts: (Seq<u8>, Seq<u8>))
    requires
        0 <= i < rules.len(),
    ensures
        forall|r: RegexRuleConfig| #[trigger]
            redaction_rules_bytes(rules.update(i, r)) == parts.0 + redaction_rule_bytes(r)
                + parts.1,
    decreases rules.len(),
{
    let last = rules.len() - 1;
    if i == last {
        let front = redaction_rules_bytes(rules.drop_last());
        assert forall|r: RegexRuleConfig| #[trigger] redaction_rules_bytes(rules.update(i, r))
            == front + redaction_rule_bytes(r) + Seq::<u8>::empty() by {
            assert(rules.update(i, r).drop_last() =~= rules.drop_last());
            assert(front + redaction_rule_bytes(r) + Seq::<u8>::empty() =~= front
                + redaction_rule_bytes(r));
        }
        (front, Seq::empty())
    } else {
        let (a, b) = lemma_redaction_split(rules.drop_last(), i);
        let end = redaction_rule_bytes(rules.last());
        assert forall|r: RegexRuleConfig| #[trigger] redaction_rules_bytes(rules.update(i, r)) == a
            + redaction_rule_bytes(r) + (b + end) by {
            assert(rules.update(i, r).drop_last() =~= rules.drop_last().update(i, r));
            assert(rules.update(i, r).last() == rules.last());
            assert(redaction_rules_bytes(rules.drop_last().update(i, r)) == a + redaction_rule_bytes(r) + b);
            assert((a + redaction_rule_bytes(r) + b) + end =~= a + redaction_rule_bytes(r) + (b
                + end));
        }
        (a, b + end)
    }
}

/// Another pattern, or another mask, of any redaction rule is another policy.
pub proof fn law_patterns_and_masks_show(
    sampling: SamplingConfig,
    a: RedactionConfig,
    b: RedactionConfig,
    i: int,
)
    requires
        0 <= i < a.regex_rules@.len(),
        b.regex_rules@ == a.regex_rules@.update(i, b.regex_rules@[i]),
        b.regex_rules@[i].name == a.regex_rules@[i].name,
        b.regex_rules@[i].fields == a.regex_rules@[i].fields,
        ({
            let (x, y) = (a.regex_rules@[i], b.regex_rules@[i]);
            ||| x.pattern@ != y.pattern@ && x.mask == y.mask
            ||| x.pattern == y.pattern && x.mask@ != y.mask@
        }),
    ensures
        policy_bytes(sampling, a) != policy_bytes(sampling, b),
{
    let (x, y) = lemma_redaction_split(a.regex_rules@, i);
    let ra = a.regex_rules@[i];
    let rb = b.regex_rules@[i];
    assert(a.regex_rules@.update(i, ra) =~= a.regex_rules@);
    let head = le_bytes(sampling.default_target) + sampling_rules_bytes(sampling.rules@)
        + seq![0xFFu8];
    if policy_bytes(sampling, a) == policy_bytes(sampling, b) {
        assert(policy_bytes(sampling, a) =~= (head + x) + redaction_rule_bytes(ra) + y);
        assert(policy_bytes(sampling, b) =~= (head + x) + redaction_rule_bytes(rb) + y);
        lemma_between(head + x, redaction_rule_bytes(ra), redaction_rule_bytes(rb), y);
        let name = vstd::utf8::encode_utf8(ra.name@) + seq![0u8];
        let end = seq![0u8] + fields_bytes(ra.fields@) + seq![0xFEu8];
        let (pa, pb) = (
            vstd::utf8::encode_utf8(ra.pattern@),
            vstd::utf8::encode_utf8(rb.pattern@),
        );
        let (ma, mb) = (vstd::utf8::encode_utf8(ra.mask@), vstd::utf8::encode_utf8(rb.mask@));
        if ra.pattern@ != rb.pattern@ {
            let behind = seq![0u8] + ma + end;
            assert(redaction_rule_bytes(ra) =~= name + pa + behind);
            assert(redaction_rule_bytes(rb) =~= name + pb + behind);
            lemma_between(name, pa, pb, behind);
            text::lemma_utf8_injective(ra.pattern@, rb.pattern@);
        } else {
            let front = name + pa + seq![0u8];
            assert(redaction_rule_bytes(ra) =~= front + ma + end);
            assert(redaction_rule_bytes(rb) =~= front + mb + end);
            lemma_between(front, ma, mb, end);
            text::lemma_utf8_injective(ra.mask@, rb.mask@);
        }
    }
}

/// Another name of any redaction rule is another policy.
pub proof fn law_rule_names_show(
    sampling: SamplingConfig,
    a: RedactionConfig,
    b: RedactionConfig,
    i: int,
)
    requires
        0 <= i < a.regex_rules@.len(),
        b.regex_rules@ == a.regex_rules@.update(i, b.regex_rules@[i]),
        b.regex_rules@[i].name@ != a.regex_rules@[i].name@,
        b.regex_rules@[i].pattern == a.regex_rules@[i].pattern,
        b.regex_rules@[i].mask == a.regex_rules@[i].mask,
        b.regex_rules@[i].fields == a.regex_rules@[i].fields,
    ensures
        policy_bytes(sampling, a) != policy_bytes(sampling, b),
{
    let (x, y) = lemma_redaction_split(a.regex_rules@, i);
    let ra = a.regex_rules@[i];
    let rb = b.regex_rules@[i];
    assert(a.regex_rules@.update(i, ra) =~= a.regex_rules@);
    let head = le_bytes(sampling.default_target) + sampling_rules_bytes(sampling.rules@)
        + seq![0xFFu8];
    if policy_bytes(sampling, a) == policy_bytes(sampling, b) {
        assert(policy_bytes(sampling, a) =~= (head + x) + redaction_rule_bytes(ra) + y);
        assert(policy_bytes(sampling, b) =~= (head + x) + redaction_rule_bytes(rb) + y);
        lemma_between(head + x, redaction_rule_bytes(ra), redaction_rule_bytes(rb), y);
        let none = Seq::<u8>::empty();
        let (na, nb) = (vstd::utf8::encode_utf8(ra.name@), vstd::utf8::encode_utf8(rb.name@));
        let behind = seq![0u8] + vstd::utf8::encode_utf8(ra.pattern@) + seq![0u8]
            + vstd::utf8::encode_utf8(ra.mask@) + seq![0u8] + fields_bytes(ra.fields@)
            + seq![0xFEu8];
        assert(redaction_rule_bytes(ra) =~= none + na + behind);
        assert(redaction_rule_bytes(rb) =~= none + nb + behind);
        lemma_between(none, na, nb, behind);
        text::lemma_utf8_injective(ra.name@, rb.name@);
    }
}

fn feed_text(h: &mut Xxh64, s: &Option<String>)
    ensures
        hash::fed(*final(h)) == hash::fed(*old(h)) + text_bytes(*s),
        hash::seed_of(*final(h)) == hash::seed_of(*old(h)),
{
    match s {
        Some(s) => h.update(s.as_str().as_bytes()),
        None => {
            assert(hash::fed(*h) + Seq::<u8>::empty() =~= hash::fed(*h));
        },
    }
}

fn feed_byte(h: &mut Xxh64, b: u8)
    ensures
        hash::fed(*final(h)) == hash::fed(*old(h)) + seq![b],
        hash::seed_of(*final(h)) == hash::seed_of(*old(h)),
{
    let one: [u8; 1] = [b];
    h.update(&one);
    assert(one@ =~= seq![b]);
}

fn feed_u16(h: &mut Xxh64, n: u16)
    ensures
        hash::fed(*final(h)) == hash::fed(*old(h)) + le_bytes(n),
        hash::seed_of(*final(h)) == hash::seed_of(*old(h)),
{
    let two: [u8; 2] = [(n % 256) as u8, (n / 256) as u8];
    h.update(&two);
    assert(two@ =~= le_bytes(n));
}

fn feed_sampling_rule(h: &mut Xxh64, r: &SamplingRule)
    ensures
        hash::fed(*final(h)) == hash::fed(*old(h)) + sampling_rule_bytes(*r),
        hash::seed_of(*final(h)) == hash::seed_of(*old(h)),
{
    feed_text(h, &r.selector.namespace);
    feed_byte(h, 0);
    feed_text(h, &r.selector.severity_lte);
    feed_byte(h, 0);
    feed_u16(h, r.target);
    assert(hash::fed(*h) =~= hash::fed(*old(h)) + sampling_rule_bytes(*r));
}

fn feed_redaction_rule(h: &mut Xxh64, r: &RegexRuleConfig)
    ensures
        hash::fed(*final(h)) == hash::fed(*old(h)) + redaction_rule_bytes(*r),
        hash::seed_of(*final(h)) == hash::seed_of(*old(h)),
{
    h.update(r.name.as_str().as_bytes());
    feed_byte(h, 0);
    h.update(r.pattern.as_str().as_bytes());
    feed_byte(h, 0);
    h.update(r.mask.as_str().as_bytes());
    feed_byte(h, 0);
    let ghost head = hash::fed(*h);
    let mut i: usize = 0;
    assert(head + fields_bytes(r.fields@.take(0)) =~= head);
    while i < r.fields.len()
        invariant
            i <= r.fields@.len(),
            hash::fed(*h) == head + fields_bytes(r.fields@.take(i as int)),
            hash::seed_of(*h) == hash::seed_of(*old(h)),
        decreases r.fields@.len() - i,
    {
        proof {
            assert(r.fields@.take(i + 1).drop_last() =~= r.fields@.take(i as int));
        }
        h.update(r.fields[i].as_str().as_bytes());
        feed_byte(h, 0);
        assert(hash::fed(*h) =~= head + fields_bytes(r.fields@.take(i + 1)));
        i = i + 1;
    }
    assert(r.fields@.take(i as int) =~= r.fields@);
    feed_byte(h, 0xFE);
    assert(hash::fed(*h) =~= hash::fed(*old(h)) + redaction_rule_bytes(*r));
}

impl AgentConfig {
    /// Fingerprint of the governance policy: sampling and redaction, in order.
    /// Comments, formatting, transport and limits have no part in it.
    pub fn policy_fingerprint(&self) -> (r: u64)
        ensures
            r == fingerprint(self.sampling, self.redaction),
            policy_bytes(self.sampling, self.redaction).len() <= u64::MAX ==> r == hash::xxh64_of(
                policy_bytes(self.sampling, self.redaction),
                0,
            ),
    {
        let mut h = Xxh64::new(0);
        feed_u16(&mut h, self.sampling.default_target);
        let ghost head = hash::fed(h);
        let mut i: usize = 0;
        assert(head + sampling_rules_bytes(self.sampling.rules@.take(0)) =~= head);
        while i < self.sampling.rules.len()
            invariant
                i <= self.sampling.rules@.len(),
                hash::fed(h) == head + sampling_rules_bytes(self.sampling.rules@.take(i as int)),
                hash::seed_of(h) == 0,
            decreases self.sampling.rules@.len() - i,
        {
            proof {
                assert(self.sampling.rules@.take(i + 1).drop_last() =~= self.sampling.rules@.take(
                    i as int,
                ));
            }
            feed_sampling_rule(&mut h, &self.sampling.rules[i]);
            assert(hash::fed(h) =~= head + sampling_rules_bytes(
                self.sampling.rules@.take(i + 1),
            ));
            i = i + 1;
        }
        assert(self.sampling.rules@.take(i as int) =~= self.sampling.rules@);
        feed_byte(&mut h, 0xFF);
        let ghost head = hash::fed(h);
        let mut i: usize = 0;
        assert(head + redaction_rules_bytes(self.redaction.regex_rules@.take(0)) =~= head);
        while i < self.redaction.regex_rules.len()
            invariant
                i <= self.redaction.regex_rules@.len(),
                hash::fed(h) == head + redaction_rules_bytes(
                    self.redaction.regex_rules@.take(i as int),
                ),
                hash::seed_of(h) == 0,
            decreases self.redaction.regex_rules@.len() - i,
        {
            proof {
                assert(self.redaction.regex_rules@.take(i + 1).drop_last()
                    =~= self.redaction.regex_rules@.take(i as int));
            }
            feed_redaction_rule(&mut h, &self.redaction.regex_rules[i]);
            assert(hash::fed(h) =~= head + redaction_rules_bytes(
                self.redaction.regex_rules@.take(i + 1),
            ));
            i = i + 1;
        }
        assert(self.redaction.regex_rules@.take(i as int) =~= self.redaction.regex_rules@);
        assert(hash::fed(h) =~= policy_bytes(self.sampling, self.redaction));
        h.digest()
    }

    /// Checks targets, sizes and field selectors.
    pub fn validate(&self) -> (r: Result<(), ConfigError>)
        ensures
            match r {
                Ok(()) => config_fault(*self) is None,
                Err(e) => config_fault(*self) == Some(e@),
            },
    {
        if self.sampling.default_target > 100 {
            return Err(
                ConfigError::TargetOutOfRange {
                    which: "default".to_owned(),
                    target: self.sampling.default_target,
                },
            );
        }
        let mut i: usize = 0;
        while i < self.sampling.rules.len()
            invariant
                i <= self.sampling.rules@.len(),
                self.sampling.default_target <= 100,
                bad_target(self.sampling.rules@, 0) == bad_target(
                    self.sampling.rules@,
                    i as int,
                ),
            decreases self.sampling.rules@.len() - i,
        {
            if self.sampling.rules[i].target > 100 {
                let mut which = "rules[".to_owned();
                let number = decimal_of(i);
                which.append(number.as_str());
                which.append("]");
                return Err(
                    ConfigError::TargetOutOfRange { which, target: self.sampling.rules[i].target },
                );
            }
            i = i + 1;
        }
        if self.ingest.channel_capacity == 0 {
            return Err(ConfigError::ZeroChannelCapacity);
        }
        if self.limits.max_body_bytes == 0 {
            return Err(ConfigError::ZeroMaxBodyBytes);
        }
        let mut i: usize = 0;
        while i < self.redaction.regex_rules.len()
            invariant
                i <= self.redaction.regex_rules@.len(),
                config_fault(*self) == redaction_fault(
                    self.redaction.regex_rules@,
                    i as int,
                ),
            decreases self.redaction.regex_rules@.len() - i,
        {
            match self.redaction.regex_rules[i].parse_selectors() {
                Ok(_) => {},
                Err(e) => {
                    return Err(e);
                },
            }
            i = i + 1;
        }
        Ok(())
    }

    /// The redaction section as rule specs.
    pub fn into_redaction_rule_specs(self) -> (r: Result<Vec<RuleSpec>, ConfigError>)
        ensures
            match r {
                Ok(specs) => redaction_fault(self.redaction.regex_rules@, 0) is None
                    && specs_of(specs@, self.redaction.regex_rules@),
                Err(e) => redaction_fault(self.redaction.regex_rules@, 0) == Some(e@),
            },
    {
        self.redaction.into_rule_specs()
    }
}

fn decimal_of(i: usize) -> (s: String)
    ensures
        s@ == text::decimal(i as nat),
{
    text::decimal_string(i as u64)
}

/// Whether a rule spec is what a configured rule stands for.
pub open spec fn spec_of(spec: RuleSpec, rule: RegexRuleConfig) -> bool {
    &&& spec.name@ == rule.name@
    &&& spec.pattern@ == rule.pattern@
    &&& spec.mask@ == rule.mask@
    &&& selectors_of(spec.fields@, rule.fields@)
}

/// Whether selectors are what configured texts stand for.
pub open spec fn selectors_of(fields: Seq<FieldSelector>, texts: Seq<String>) -> bool {
    &&& fields.len() == texts.len()
    &&& forall|i: int|
        0 <= i < texts.len() ==> redact::selector_of((#[trigger] texts[i])@) == Some(fields[i]@)
}

/// [`spec_of`] rule by rule.
pub open spec fn specs_of(specs: Seq<RuleSpec>, rules: Seq<RegexRuleConfig>) -> bool {
    &&& specs.len() == rules.len()
    &&& forall|i: int| 0 <= i < rules.len() ==> spec_of(#[trigger] specs[i], rules[i])
}

impl RedactionConfig {
    /// Consume into rule specs, in order. The first faulty rule is the error.
    pub fn into_rule_specs(self) -> (r: Result<Vec<RuleSpec>, ConfigError>)
        ensures
            match r {
                Ok(specs) => redaction_fault(self.regex_rules@, 0) is None && specs_of(
                    specs@,
                    self.regex_rules@,
                ),
                Err(e) => redaction_fault(self.regex_rules@, 0) == Some(e@),
            },
    {
        let ghost all = self.regex_rules@;
        let mut rules = self.regex_rules;
        let n: usize = rules.len();
        let mut specs: Vec<RuleSpec> = Vec::new();
        let mut i: usize = 0;
        while i < n
            invariant
                i <= n,
                n == all.len(),
                all == self.regex_rules@,
                rules@ == all.skip(i as int),
                specs@.len() == i,
                forall|j: int| 0 <= j < i ==> spec_of(#[trigger] specs@[j], all[j]),
                redaction_fault(all, 0) == redaction_fault(all, i as int),
            decreases n - i,
        {
            match rules.remove(0).into_rule_spec() {
                Ok(spec) => {
                    specs.push(spec);
                },
                Err(e) => {
                    return Err(e);
                },
            }
            i = i + 1;
        }
        Ok(specs)
    }
}

impl RegexRuleConfig {
    /// The rule's field selectors.
    pub fn parse_selectors(&self) -> (r: Result<Vec<FieldSelector>, ConfigError>)
        ensures
            match r {
                Ok(fields) => rule_fault(*self) is None && selectors_of(fields@, self.fields@),
                Err(e) => rule_fault(*self) == Some(e@),
            },
    {
        if self.fields.len() == 0 {
            return Err(ConfigError::EmptyFields { rule: self.name.clone() });
        }
        let mut out: Vec<FieldSelector> = Vec::new();
        let mut i: usize = 0;
        while i < self.fields.len()
            invariant
                i <= self.fields@.len(),
                self.fields@.len() > 0,
                out@.len() == i,
                forall|j: int|
                    0 <= j < i ==> redact::selector_of((#[trigger] self.fields@[j])@) == Some(
                        out@[j]@,
                    ),
                bad_selector(self.fields@, 0) == bad_selector(self.fields@, i as int),
            decreases self.fields@.len() - i,
        {
            match FieldSelector::parse(self.fields[i].as_str()) {
                Some(sel) => {
                    out.push(sel);
                },
                None => {
                    return Err(
                        ConfigError::InvalidFieldSelector {
                            rule: self.name.clone(),
                            selector: self.fields[i].clone(),
                        },
                    );
                },
            }
            i = i + 1;
        }
        Ok(out)
    }

    /// Consume into a rule spec.
    pub fn into_rule_spec(self) -> (r: Result<RuleSpec, ConfigError>)
        ensures
            match r {
                Ok(spec) => rule_fault(self) is None && spec_of(spec, self),
                Err(e) => rule_fault(self) == Some(e@),
            },
    {
        match self.parse_selectors() {
            Ok(fields) => Ok(
                RuleSpec { name: self.name, pattern: self.pattern, mask: self.mask, fields },
            ),
            Err(e) => Err(e),
        }
    }
}

} // verus!
