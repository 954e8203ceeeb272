//! The pipeline: one payload through the fixed stage order
//!
//! ```text
//! parse -> sample -> redact -> assemble
//! ```
//!
//! It always yields exportable bytes. A payload that does not parse, or that
//! cannot be assembled, leaves as it came; a failing redaction is left out. In
//! a dry run every payload leaves as it came, and the numbers tell what the
//! policy would have done to it.

use crate::breaker;
use crate::breaker::CircuitBreaker;
use crate::buffer;
use crate::clock;
use crate::config;
use crate::config::{AgentConfig, ConfigError, SamplingRule};
use crate::envelope;
use crate::envelope::{Envelope, RecordModel, RecordView, SampleVerdict, StageRedaction};
use crate::export;
use crate::export::{AssembledPayload, MaskTable};
use crate::fidelity;
use crate::glob;
use crate::guard::{settle, Attempt, Stage, StageId, StageOutcome};
use crate::hash;
use crate::ingest::{ParseStage, STAGE_PARSE};
use crate::otlp;
use crate::pattern;
use crate::policy;
use crate::policy::{severity_band_max, Rule, SamplingPolicy};
use crate::redact;
use crate::redact::{
    CompileError, CompileLimits, EngineRule, RedactEngine, RuleSpec, STAGE_REDACT_REGEX,
};
use crate::sampling;
use crate::sampling::{keep, keep_untraced};
use bytes::Bytes;
use std::time::Instant;
use vstd::prelude::*;

verus! {

/// Why a pipeline cannot be built from a configuration.
#[derive(Debug)]
pub enum BuildError {
    Config(ConfigError),
    Redact(CompileError),
    /// A severity name that is none of TRACE, DEBUG, INFO, WARN, ERROR, FATAL.
    UnknownSeverity { name: String },
}

/// Outcome of one request in numbers, never payload content.
#[derive(Debug, Clone, Copy, PartialEq, Eq, Structural)]
pub struct Stats {
    pub records_in: usize,
    pub kept: usize,
    pub dropped: usize,
    pub redactions: usize,
    pub bytes_in: usize,
    pub bytes_out: usize,
    /// Parsing failed: the payload was forwarded as it came.
    pub parse_bypassed: bool,
    /// Redaction failed or was held back: no masks were applied.
    pub redact_bypassed: bool,
    /// Assembly failed: the payload was forwarded as it came.
    pub assemble_bypassed: bool,
}

impl Default for Stats {
    fn default() -> (s: Self)
        ensures
            s == (Stats {
                records_in: 0,
                kept: 0,
                dropped: 0,
                redactions: 0,
                bytes_in: 0,
                bytes_out: 0,
                parse_bypassed: false,
                redact_bypassed: false,
                assemble_bypassed: false,
            }),
    {
        Stats {
            records_in: 0,
            kept: 0,
            dropped: 0,
            redactions: 0,
            bytes_in: 0,
            bytes_out: 0,
            parse_bypassed: false,
            redact_bypassed: false,
            assemble_bypassed: false,
        }
    }
}

/// A governed request.
#[derive(Debug)]
pub struct Processed {
    pub output: AssembledPayload,
    pub stats: Stats,
}

/// A governance policy: what sampling and redaction go by.
pub struct Policy {
    pub rules: Seq<Rule>,
    pub default_target: u8,
    pub redaction: Seq<EngineRule>,
    pub masks: Seq<Seq<u8>>,
}

/// The bytes of an optional byte string, none where it is absent.
pub open spec fn or_empty(s: Option<Seq<u8>>) -> Seq<u8> {
    match s {
        Some(s) => s,
        None => Seq::empty(),
    }
}

/// The sampling target of a record.
pub open spec fn record_target(p: Policy, rec: RecordModel, raw: Seq<u8>) -> u8 {
    policy::target_for(
        p.rules,
        p.default_target,
        envelope::bytes_at_opt(raw, rec.namespace),
        rec.severity_number,
    )
}

/// The hash that decides on a record: of its trace id, or of service name and
/// body where it has none.
pub open spec fn record_hash(rec: RecordModel, raw: Seq<u8>) -> u64 {
    match rec.trace_bytes(raw) {
        Some(id) => hash::xxh64_of(id, sampling::SEED),
        None => hash::xxh64_streamed(
            sampling::untraced_key(
                or_empty(envelope::bytes_at_opt(raw, rec.service_name)),
                or_empty(envelope::bytes_at(raw, rec.body)),
            ),
            sampling::SEED,
        ),
    }
}

/// The verdict on a record.
pub open spec fn record_verdict(p: Policy, rec: RecordModel, raw: Seq<u8>) -> SampleVerdict {
    if sampling::kept_at(record_hash(rec, raw), record_target(p, rec, raw)) {
        SampleVerdict::Keep
    } else {
        SampleVerdict::Drop
    }
}

/// The verdicts on several records.
pub open spec fn verdicts(p: Policy, records: Seq<RecordModel>, raw: Seq<u8>) -> Seq<
    SampleVerdict,
> {
    records.map_values(|r: RecordModel| record_verdict(p, r, raw))
}

/// How often a verdict occurs.
pub open spec fn tally(vs: Seq<SampleVerdict>, v: SampleVerdict) -> nat
    decreases vs.len(),
{
    if vs.len() == 0 {
        0
    } else {
        tally(vs.drop_last(), v) + (if vs.last() == v {
            1nat
        } else {
            0
        })
    }
}

/// The records of a payload; none where it does not parse.
pub open spec fn records_in(raw: Seq<u8>) -> Seq<RecordModel> {
    match otlp::parsed(raw) {
        Ok(rs) => rs,
        Err(_) => Seq::empty(),
    }
}

/// The spans that redaction asks for, where it runs.
pub open spec fn spans_for(p: Policy, raw: Seq<u8>, redacted: bool) -> Seq<StageRedaction> {
    if redacted {
        redact::redactions(p.redaction, raw, records_in(raw))
    } else {
        Seq::empty()
    }
}

/// All decisions on a payload.
pub open spec fn plan_for(p: Policy, raw: Seq<u8>, redacted: bool) -> export::Plan {
    export::Plan {
        verdicts: verdicts(p, records_in(raw), raw),
        entries: spans_for(p, raw, redacted),
        masks: p.masks,
    }
}

/// The assembled payload.
pub open spec fn assembly(p: Policy, raw: Seq<u8>, redacted: bool) -> Result<
    Seq<u8>,
    export::AssembleError,
> {
    export::assembled(plan_for(p, raw, redacted), raw, records_in(raw).len())
}

/// What leaves the pipeline: the assembled payload, or the payload as it came.
pub open spec fn output_for(p: Policy, raw: Seq<u8>, redacted: bool) -> Seq<u8> {
    match assembly(p, raw, redacted) {
        Ok(out) => out,
        Err(_) => raw,
    }
}

/// What is handed on: in a dry run the payload as it came, else what leaves
/// the pipeline.
pub open spec fn handed_on(p: Policy, raw: Seq<u8>, redacted: bool, dry_run: bool) -> Seq<u8> {
    if dry_run {
        raw
    } else {
        output_for(p, raw, redacted)
    }
}

/// Whether numbers tell of a payload that was governed. In a dry run they tell
/// of what would have left.
pub open spec fn tells(s: Stats, p: Policy, raw: Seq<u8>, redacted: bool) -> bool {
    let vs = verdicts(p, records_in(raw), raw);
    &&& s.records_in == records_in(raw).len()
    &&& s.kept == tally(vs, SampleVerdict::Keep)
    &&& s.dropped == tally(vs, SampleVerdict::Drop)
    &&& s.redactions == spans_for(p, raw, redacted).len()
    &&& s.bytes_in == raw.len()
    &&& s.bytes_out == output_for(p, raw, redacted).len()
    &&& s.parse_bypassed == otlp::parsed(raw) is Err
    &&& s.redact_bypassed == !redacted
    &&& s.assemble_bypassed == assembly(p, raw, redacted) is Err
}

/// What becomes of redaction in one run of a payload.
#[derive(Debug, Clone, Copy, PartialEq, Eq, Structural)]
pub enum Redaction {
    /// It runs.
    Run,
    /// Its breaker is open: it is left out.
    HeldBack,
    /// It panicked: what it decided is discarded.
    Panicked,
}

/// What redaction remembers from payload to payload: its breaker, and the
/// matches so far.
pub struct RedactGate {
    breaker: CircuitBreaker,
    counts: Vec<u64>,
}

/// Counts of nothing, one for each of `n` rules.
pub open spec fn no_counts(n: nat) -> Seq<u64> {
    Seq::new(n, |i: int| 0u64)
}

/// Counts of nothing, one for each rule.
fn none_counted(n: usize) -> (r: Vec<u64>)
    ensures
        r@ == no_counts(n as nat),
{
    let mut out: Vec<u64> = Vec::new();
    let mut i: usize = 0;
    while i < n
        invariant
            i <= n,
            out@ == no_counts(i as nat),
        decreases n - i,
    {
        out.push(0);
        assert(out@ =~= no_counts((i + 1) as nat));
        i = i + 1;
    }
    out
}

impl RedactGate {
    /// The breaker.
    pub closed spec fn breaker(self) -> breaker::BreakerState {
        self.breaker@
    }

    /// Matches of a rule so far, in 64 bits.
    pub closed spec fn count_of(self, rule: int) -> u64 {
        if 0 <= rule < self.counts@.len() {
            self.counts@[rule]
        } else {
            0
        }
    }

    /// A closed breaker, and nothing counted.
    pub fn new() -> (g: Self)
        ensures
            g.breaker() == breaker::BreakerState::fresh(5, 10_000_000_000, 30_000_000_000),
            forall|i: int| #[trigger] g.count_of(i) == 0,
    {
        RedactGate { breaker: CircuitBreaker::with_defaults(), counts: Vec::new() }
    }

    /// What becomes of redaction in a run that starts at `now`.
    pub fn ask_at(&mut self, now: Instant) -> (r: Redaction)
        ensures
            r == (if old(self).breaker().blocks(clock::time_of(now)) {
                Redaction::HeldBack
            } else {
                Redaction::Run
            }),
            final(self).breaker() == old(self).breaker().asked(clock::time_of(now)),
            forall|i: int| #[trigger] final(self).count_of(i) == old(self).count_of(i),
    {
        if self.breaker.allow_at(now) {
            Redaction::Run
        } else {
            Redaction::HeldBack
        }
    }

    /// Adds the matches of one run.
    pub fn count(&mut self, hits: &Vec<u64>)
        ensures
            final(self).breaker() == old(self).breaker(),
            forall|i: int| #[trigger]
                final(self).count_of(i) == (if 0 <= i < hits@.len() {
                    redact::counted(old(self).count_of(i), hits@[i] as nat)
                } else {
                    old(self).count_of(i)
                }),
    {
        let mut i: usize = 0;
        while i < hits.len()
            invariant
                self.breaker() == old(self).breaker(),
                i <= hits@.len(),
                i <= self.counts@.len(),
                forall|j: int| #[trigger]
                    self.count_of(j) == (if 0 <= j < i {
                        redact::counted(old(self).count_of(j), hits@[j] as nat)
                    } else {
                        old(self).count_of(j)
                    }),
            decreases hits@.len() - i,
        {
            let ghost before = *self;
            if i == self.counts.len() {
                self.counts.push(0);
            }
            assert(forall|j: int| #[trigger] self.count_of(j) == before.count_of(j));
            let ghost padded = *self;
            let sum: u64 = self.counts[i].wrapping_add(hits[i]);
            self.counts.set(i, sum);
            proof {
                let at = i as int;
                assert(self.count_of(at) == redact::counted(padded.count_of(at), hits@[at] as nat));
                assert(forall|j: int|
                    j != at ==> #[trigger] self.count_of(j) == padded.count_of(j));
                assert(padded.count_of(at) == old(self).count_of(at));
            }
            i = i + 1;
        }
    }

    /// Notes that redaction panicked at `now`, and tells whether that opened
    /// the breaker.
    pub fn fault_at(&mut self, now: Instant) -> (opened: bool)
        ensures
            final(self).breaker() == old(self).breaker().faulted(clock::time_of(now)),
            opened == old(self).breaker().trips(clock::time_of(now)),
            forall|i: int| #[trigger] final(self).count_of(i) == old(self).count_of(i),
    {
        self.breaker.record_fault_at(now)
    }

    /// Matches of a rule so far.
    pub fn matches_of(&self, rule: usize) -> (r: u64)
        ensures
            r == self.count_of(rule as int),
    {
        if rule < self.counts.len() {
            self.counts[rule]
        } else {
            0
        }
    }
}

/// A compiled pipeline. Built once per policy.
pub struct Pipeline {
    redact: RedactEngine,
    masks: MaskTable,
    policy: SamplingPolicy,
    max_body_bytes: usize,
    dry_run: bool,
    gate: RedactGate,
}

/// Whether a compiled sampling rule is what a configured one stands for.
pub open spec fn rule_of(rule: Rule, c: SamplingRule) -> bool {
    &&& rule.namespace_glob == c.selector.namespace
    &&& rule.severity_lte == (match c.selector.severity_lte {
        Some(name) => policy::band_max(vstd::utf8::encode_utf8(name@)),
        None => None,
    })
    &&& rule.target == c.target as u8
}

/// The first sampling rule from `i` on that names no known severity.
pub open spec fn unknown_severity(rules: Seq<SamplingRule>, i: int) -> Option<int>
    decreases rules.len() - i,
{
    if i >= rules.len() {
        None
    } else if rules[i].selector.severity_lte matches Some(name) && policy::band_max(
        vstd::utf8::encode_utf8(name@),
    ) is None {
        Some(i)
    } else {
        unknown_severity(rules, i + 1)
    }
}

/// Whether an error tells why specs do not compile.
pub open spec fn tells_compile(e: CompileError, specs: Seq<RuleSpec>, size_limit: usize) -> bool {
    match redact::first_fault(specs, size_limit, 0) {
        Some((i, fault)) => redact::tells_fault(e, specs[i], fault),
        None => e matches CompileError::Regex { rule, .. } && rule@ == "<set>"@
            && !pattern::set_compiles(
            redact::patterns_of(specs),
            redact::set_limit(size_limit, specs.len()),
            usize::BITS,
        ),
    }
}

/// Whether specs compile.
pub open spec fn specs_compile(specs: Seq<RuleSpec>, size_limit: usize) -> bool {
    redact::first_fault(specs, size_limit, 0) is None && pattern::set_compiles(
        redact::patterns_of(specs),
        redact::set_limit(size_limit, specs.len()),
        usize::BITS,
    )
}

/// The size limit of one compiled rule in a pipeline.
pub const RULE_SIZE_LIMIT: usize = 1_048_576;

/// Compiles the sampling section.
fn compile_rules(rules: Vec<SamplingRule>) -> (r: Result<Vec<Rule>, BuildError>)
    ensures
        match unknown_severity(rules@, 0) {
            Some(i) => r matches Err(BuildError::UnknownSeverity { name })
                && rules@[i].selector.severity_lte == Some(name),
            None => r matches Ok(out) && out@.len() == rules@.len() && forall|i: int|
                0 <= i < rules@.len() ==> rule_of(#[trigger] out@[i], rules@[i]),
        },
{
    let ghost all = rules@;
    let mut rest = rules;
    let n: usize = rest.len();
    let mut out: Vec<Rule> = Vec::new();
    let mut i: usize = 0;
    while i < n
        invariant
            i <= n,
            n == all.len(),
            all == rules@,
            rest@ == all.skip(i as int),
            out@.len() == i,
            forall|j: int| 0 <= j < i ==> rule_of(#[trigger] out@[j], all[j]),
            unknown_severity(all, 0) == unknown_severity(all, i as int),
        decreases n - i,
    {
        let rule = rest.remove(0);
        let severity_lte: Option<i32> = match rule.selector.severity_lte {
            Some(name) => match severity_band_max(name.as_str()) {
                Some(max) => Some(max),
                None => {
                    return Err(BuildError::UnknownSeverity { name });
                },
            },
            None => None,
        };
        out.push(
            Rule {
                namespace_glob: rule.selector.namespace,
                severity_lte,
                target: rule.target as u8,
            },
        );
        i = i + 1;
    }
    Ok(out)
}

/// Owned copies of several texts.
fn owned(texts: Vec<&str>) -> (r: Vec<String>)
    ensures
        redact::strings(r@) == pattern::texts(texts@),
{
    let mut out: Vec<String> = Vec::new();
    let mut i: usize = 0;
    while i < texts.len()
        invariant
            i <= texts@.len(),
            out@.len() == i,
            forall|j: int| 0 <= j < i ==> (#[trigger] out@[j])@ == texts@[j]@,
        decreases texts@.len() - i,
    {
        out.push(texts[i].to_owned());
        i = i + 1;
    }
    assert(redact::strings(out@) =~= pattern::texts(texts@));
    out
}

/// Texts as bytes.
pub open spec fn texts_bytes(texts: Seq<Seq<char>>) -> Seq<Seq<u8>> {
    texts.map_values(|t: Seq<char>| vstd::utf8::encode_utf8(t))
}

impl Pipeline {
    /// The policy that this pipeline applies.
    pub closed spec fn policy(self) -> Policy {
        Policy {
            rules: self.policy.rules(),
            default_target: self.policy.fallback(),
            redaction: self.redact.rules(),
            masks: self.masks@,
        }
    }

    /// The breaker around redaction.
    pub closed spec fn breaker(self) -> breaker::BreakerState {
        self.gate.breaker()
    }

    /// Redaction matches so far, rule by rule, in 64 bits.
    pub closed spec fn counts(self) -> Seq<u64> {
        Seq::new(self.redact.rules().len(), |i: int| self.gate.count_of(i))
    }

    /// The request-size cap.
    pub closed spec fn body_limit(self) -> usize {
        self.max_body_bytes
    }

    /// Whether every payload leaves as it came.
    pub closed spec fn is_dry_run(self) -> bool {
        self.dry_run
    }

    /// Builds the pipeline from a configuration: sampling rules, then
    /// redaction rules. Consumes the configuration.
    pub fn from_config(config: AgentConfig) -> (r: Result<Self, BuildError>)
        requires
            config.redaction.regex_rules@.len() <= u32::MAX,
        ensures
            match unknown_severity(config.sampling.rules@, 0) {
                Some(i) => r matches Err(BuildError::UnknownSeverity { name })
                    && config.sampling.rules@[i].selector.severity_lte == Some(name),
                None => match config::redaction_fault(config.redaction.regex_rules@, 0) {
                    Some(fault) => r matches Err(BuildError::Config(e)) && e@ == fault,
                    None => exists|specs: Seq<RuleSpec>|
                        {
                            &&& #[trigger] config::specs_of(specs, config.redaction.regex_rules@)
                            &&& match r {
                                Ok(p) => {
                                    &&& specs_compile(specs, RULE_SIZE_LIMIT)
                                    &&& p.policy().rules.len() == config.sampling.rules@.len()
                                    &&& forall|i: int|
                                        0 <= i < config.sampling.rules@.len() ==> rule_of(
                                            #[trigger] p.policy().rules[i],
                                            config.sampling.rules@[i],
                                        )
                                    &&& p.policy().default_target
                                        == config.sampling.default_target as u8
                                    &&& redact::compiled(p.policy().redaction, specs)
                                    &&& p.policy().masks == texts_bytes(redact::mask_table(specs))
                                    &&& well_built(p.policy())
                                    &&& p.body_limit() == config.limits.max_body_bytes
                                    &&& p.is_dry_run() == config.dry_run
                                    &&& p.breaker() == breaker::BreakerState::fresh(
                                        5,
                                        10_000_000_000,
                                        30_000_000_000,
                                    )
                                    &&& p.counts() == no_counts(specs.len())
                                },
                                Err(e) => e matches BuildError::Redact(e) && !specs_compile(
                                    specs,
                                    RULE_SIZE_LIMIT,
                                ) && tells_compile(e, specs, RULE_SIZE_LIMIT),
                            }
                        },
                },
            },
    {
        let max_body_bytes: usize = config.limits.max_body_bytes;
        let dry_run: bool = config.dry_run;
        let default_target: u8 = config.sampling.default_target as u8;
        let rules = match compile_rules(config.sampling.rules) {
            Ok(rules) => rules,
            Err(e) => {
                return Err(e);
            },
        };
        let policy = SamplingPolicy::new(rules, default_target);
        let specs = match config.redaction.into_rule_specs() {
            Ok(specs) => specs,
            Err(e) => {
                return Err(BuildError::Config(e));
            },
        };
        let ghost all = specs@;
        assert(config::specs_of(all, config.redaction.regex_rules@));
        let engine = match RedactEngine::compile(specs, CompileLimits::default()) {
            Ok(engine) => engine,
            Err(e) => {
                return Err(BuildError::Redact(e));
            },
        };
        let texts = owned(engine.masks());
        let masks = MaskTable::new(texts);
        proof {
            assert(masks@ =~= texts_bytes(redact::mask_table(all)));
        }
        let built = Pipeline {
            redact: engine,
            masks,
            policy,
            max_body_bytes,
            dry_run,
            gate: RedactGate::new(),
        };
        proof {
            assert(redact::compiled(built.policy().redaction, all));
            assert(well_built(built.policy()));
            assert(built.counts() =~= no_counts(all.len()));
        }
        Ok(built)
    }

    /// The request-size cap that receivers enforce.
    pub fn max_body_bytes(&self) -> (r: usize)
        ensures
            r == self.body_limit(),
    {
        self.max_body_bytes
    }

    /// The sampling target where no rule matches.
    pub fn default_target(&self) -> (r: u8)
        ensures
            r == self.policy().default_target,
    {
        self.policy.default_target()
    }

    /// The verdict on one record.
    pub fn sample_verdict(&self, rec: &RecordView, raw: &Bytes) -> (r: SampleVerdict)
        ensures
            r == record_verdict(self.policy(), rec.model(), buffer::content(*raw)),
    {
        let target: u8 = self.policy.resolve(rec.namespace_bytes(raw), rec.severity_number);
        let keep_it: bool = match rec.trace_id_bytes(raw) {
            Some(id) => keep(&id, target),
            None => {
                let none: [u8; 0] = [];
                assert(none@ =~= Seq::<u8>::empty());
                let body: &[u8] = match envelope::view_of(raw, &rec.body) {
                    Some(body) => body,
                    None => &none,
                };
                let service: &[u8] = match rec.service_name_bytes(raw) {
                    Some(service) => service,
                    None => &none,
                };
                keep_untraced(service, body, target)
            },
        };
        if keep_it {
            SampleVerdict::Keep
        } else {
            SampleVerdict::Drop
        }
    }

    /// Parses and samples a payload.
    fn parse_and_sample(&self, raw: Bytes) -> (r: (Envelope, Stats))
        ensures
            r.0.raw == raw,
            envelope::record_models(r.0.records@) == records_in(buffer::content(raw)),
            r.0.decisions.verdicts() == verdicts(
                self.policy(),
                records_in(buffer::content(raw)),
                buffer::content(raw),
            ),
            r.0.decisions.entries() == Seq::<StageRedaction>::empty(),
            r.1.records_in == records_in(buffer::content(raw)).len(),
            r.1.kept == tally(r.0.decisions.verdicts(), SampleVerdict::Keep),
            r.1.dropped == tally(r.0.decisions.verdicts(), SampleVerdict::Drop),
            r.1.bytes_in == buffer::content(raw).len(),
            r.1.parse_bypassed == otlp::parsed(buffer::content(raw)) is Err,
            !r.1.redact_bypassed,
            !r.1.assemble_bypassed,
    {
        let mut stats = Stats::default();
        stats.bytes_in = raw.len();
        let mut env = Envelope::new(raw);
        let mut parse = ParseStage;
        let parsed = parse.apply(&mut env);
        if let StageOutcome::Bypassed(_) = settle(
            &mut env,
            StageId(STAGE_PARSE),
            Attempt::Returned(parsed),
        ) {
            stats.parse_bypassed = true;
        }
        proof {
            let none = Seq::<StageRedaction>::empty();
            reveal(Seq::filter);
            assert(envelope::without_stage(none, STAGE_PARSE@) =~= none);
            reveal_strlit("parse");
            reveal_strlit("sample");
            assert("parse"@.len() != "sample"@.len());
            assert(envelope::record_models(env.records@) =~= records_in(buffer::content(raw)));
        }
        stats.records_in = env.records.len();
        let ghost models = envelope::record_models(env.records@);
        let ghost all = verdicts(self.policy(), models, buffer::content(raw));
        let mut out: Vec<SampleVerdict> = Vec::new();
        let mut i: usize = 0;
        while i < env.records.len()
            invariant
                i <= env.records@.len(),
                env.raw == raw,
                models == envelope::record_models(env.records@),
                all == verdicts(self.policy(), models, buffer::content(raw)),
                all.len() == env.records@.len(),
                out@ == all.take(i as int),
                stats.kept == tally(all.take(i as int), SampleVerdict::Keep),
                stats.dropped == tally(all.take(i as int), SampleVerdict::Drop),
                stats.kept + stats.dropped == i,
                stats.records_in == models.len(),
                stats.bytes_in == buffer::content(raw).len(),
                stats.parse_bypassed == otlp::parsed(buffer::content(raw)) is Err,
                !stats.redact_bypassed,
                !stats.assemble_bypassed,
            decreases env.records@.len() - i,
        {
            let v: SampleVerdict = self.sample_verdict(&env.records.items()[i], &env.raw);
            proof {
                assert(models[i as int] == env.records@[i as int].model());
                assert(all[i as int] == v);
                assert(all.take(i + 1).drop_last() =~= all.take(i as int));
                assert(all.take(i + 1) =~= all.take(i as int).push(v));
            }
            match v {
                SampleVerdict::Keep => {
                    stats.kept = stats.kept + 1;
                },
                SampleVerdict::Drop => {
                    stats.dropped = stats.dropped + 1;
                },
            }
            out.push(v);
            i = i + 1;
        }
        assert(all.take(i as int) =~= all);
        env.decisions.set_sampling(out);
        (env, stats)
    }

    /// Assembles what leaves the pipeline.
    fn finish(&self, env: Envelope, stats: Stats) -> (r: Processed)
        requires
            export::spans_fit(env.decisions.entries(), buffer::content(env.raw).len()),
        ensures
            ({
                let raw = buffer::content(env.raw);
                let plan = export::Plan {
                    verdicts: env.decisions.verdicts(),
                    entries: env.decisions.entries(),
                    masks: self.policy().masks,
                };
                let out = export::assembled(plan, raw, env.records@.len());
                let governed = match out {
                    Ok(b) => b,
                    Err(_) => raw,
                };
                &&& r.output@ == (if self.is_dry_run() {
                    raw
                } else {
                    governed
                })
                &&& r.stats == (Stats {
                    redactions: plan.entries.len() as usize,
                    bytes_out: governed.len() as usize,
                    assemble_bypassed: stats.assemble_bypassed || out is Err,
                    ..stats
                })
                &&& governed.len() <= usize::MAX
                &&& plan.entries.len() <= usize::MAX
            }),
    {
        let mut stats = stats;
        stats.redactions = env.decisions.redaction_total();
        let output = match export::assemble(&env, &self.masks) {
            Ok(payload) => payload,
            Err(_) => {
                stats.assemble_bypassed = true;
                AssembledPayload::passthrough(env.raw.clone())
            },
        };
        stats.bytes_out = output.len();
        if self.dry_run {
            return Processed { output: AssembledPayload::passthrough(env.raw), stats };
        }
        Processed { output, stats }
    }

    /// Runs one request through every stage, with what is to become of
    /// redaction, and hands back the matches too, rule by rule. Nothing is
    /// remembered: requests may run side by side, and a gate that they share
    /// tells each of them what becomes of redaction.
    pub fn govern(&self, raw: Bytes, redaction: Redaction) -> (r: (Processed, Vec<u64>))
        ensures
            r.0.output@ == handed_on(
                self.policy(),
                buffer::content(raw),
                redaction is Run,
                self.is_dry_run(),
            ),
            tells(r.0.stats, self.policy(), buffer::content(raw), redaction is Run),
            redaction is Run ==> counted_all(
                self.policy().redaction,
                buffer::content(raw),
                no_counts(self.policy().redaction.len()),
                r.1@,
            ),
            !(redaction is Run) ==> r.1@ == no_counts(self.policy().redaction.len()),
    {
        let ghost b = buffer::content(raw);
        let (mut env, mut stats) = self.parse_and_sample(raw);
        let mut hits = none_counted(self.redact.rule_count());
        proof {
            let none = Seq::<StageRedaction>::empty();
            let spans = redact::redactions(self.policy().redaction, b, records_in(b));
            assert(none + spans =~= spans);
            reveal(Seq::filter);
            assert(envelope::without_stage(none, STAGE_REDACT_REGEX@) =~= none);
            reveal_strlit("redact-regex");
            reveal_strlit("sample");
            assert("redact-regex"@.len() != "sample"@.len());
        }
        match redaction {
            Redaction::Run => {
                self.redact.mark(&mut env, &mut hits);
            },
            Redaction::HeldBack => {
                // Unredacted data still leaves.
                stats.redact_bypassed = true;
            },
            Redaction::Panicked => {
                let _ = settle(&mut env, StageId(STAGE_REDACT_REGEX), Attempt::Panicked);
                stats.redact_bypassed = true;
            },
        }
        (self.finish(env, stats), hits)
    }

    /// Runs one request through every stage at the current time.
    pub fn process(&mut self, raw: Bytes) -> (r: Processed)
        ensures
            final(self).policy() == old(self).policy(),
            final(self).body_limit() == old(self).body_limit(),
            final(self).is_dry_run() == old(self).is_dry_run(),
            exists|now: Instant|
                {
                    let t = #[trigger] clock::time_of(now);
                    let redacted = !old(self).breaker().blocks(t);
                    let b = buffer::content(raw);
                    &&& r.output@ == handed_on(old(self).policy(), b, redacted, old(self).is_dry_run())
                    &&& tells(r.stats, old(self).policy(), b, redacted)
                    &&& final(self).breaker() == old(self).breaker().asked(t)
                    &&& redacted ==> counted_all(
                        old(self).policy().redaction,
                        b,
                        old(self).counts(),
                        final(self).counts(),
                    )
                    &&& !redacted ==> final(self).counts() == old(self).counts()
                },
    {
        let now = clock::now();
        self.process_at(raw, now)
    }

    /// Runs one request through every stage. Redaction is left out while its
    /// breaker is open.
    pub fn process_at(&mut self, raw: Bytes, now: Instant) -> (r: Processed)
        ensures
            final(self).policy() == old(self).policy(),
            final(self).body_limit() == old(self).body_limit(),
            final(self).is_dry_run() == old(self).is_dry_run(),
            ({
                let t = clock::time_of(now);
                let redacted = !old(self).breaker().blocks(t);
                let b = buffer::content(raw);
                &&& r.output@ == handed_on(old(self).policy(), b, redacted, old(self).is_dry_run())
                &&& tells(r.stats, old(self).policy(), b, redacted)
                &&& final(self).breaker() == old(self).breaker().asked(t)
                &&& redacted ==> counted_all(
                    old(self).policy().redaction,
                    b,
                    old(self).counts(),
                    final(self).counts(),
                )
                &&& !redacted ==> final(self).counts() == old(self).counts()
            }),
    {
        let redaction = self.gate.ask_at(now);
        let (processed, hits) = self.govern(raw, redaction);
        self.gate.count(&hits);
        proof {
            if redaction is HeldBack {
                assert(self.counts() =~= old(self).counts());
            }
        }
        processed
    }

    /// Runs one request whose redaction panicked at `now`: what it decided is
    /// discarded, sampling stands, and the breaker counts a fault.
    pub fn process_after_panic(&mut self, raw: Bytes, now: Instant) -> (r: Processed)
        ensures
            final(self).policy() == old(self).policy(),
            final(self).body_limit() == old(self).body_limit(),
            final(self).is_dry_run() == old(self).is_dry_run(),
            final(self).counts() == old(self).counts(),
            r.output@ == handed_on(
                old(self).policy(),
                buffer::content(raw),
                false,
                old(self).is_dry_run(),
            ),
            tells(r.stats, old(self).policy(), buffer::content(raw), false),
            final(self).breaker() == old(self).breaker().faulted(clock::time_of(now)),
    {
        let (processed, _) = self.govern(raw, Redaction::Panicked);
        let _ = self.gate.fault_at(now);
        assert(self.counts() =~= old(self).counts());
        processed
    }

    /// Redaction match counts with their rules, in rule order.
    pub fn redaction_counts(&self) -> (r: Vec<(&str, u64)>)
        ensures
            r@.len() == self.policy().redaction.len(),
            forall|i: int|
                0 <= i < r@.len() ==> (#[trigger] r@[i]).0@ == self.policy().redaction[i].name
                    && r@[i].1 == self.counts()[i],
    {
        let names = self.redact.rule_names();
        let mut out: Vec<(&str, u64)> = Vec::new();
        let mut i: usize = 0;
        while i < names.len()
            invariant
                i <= names@.len(),
                names@.len() == self.policy().redaction.len(),
                forall|j: int|
                    0 <= j < names@.len() ==> (#[trigger] names@[j])@
                        == self.policy().redaction[j].name,
                out@.len() == i,
                forall|j: int|
                    0 <= j < i ==> (#[trigger] out@[j]).0@ == self.policy().redaction[j].name
                        && out@[j].1 == self.counts()[j],
            decreases names@.len() - i,
        {
            out.push((names[i], self.gate.matches_of(i)));
            i = i + 1;
        }
        out
    }
}

/// Whether match counters have grown by the matches in a payload.
pub open spec fn counted_all(
    rules: Seq<EngineRule>,
    raw: Seq<u8>,
    before: Seq<u64>,
    after: Seq<u64>,
) -> bool {
    &&& before.len() == rules.len()
    &&& after.len() == rules.len()
    &&& forall|i: int|
        0 <= i < rules.len() ==> #[trigger] after[i] == redact::counted(
            before[i],
            redact::hits_in(rules[i], redact::record_scans(raw, records_in(raw))),
        )
}

/// A payload that does not parse leaves as it came.
pub proof fn law_unparsable_passes_through(p: Policy, raw: Seq<u8>, redacted: bool)
    requires
        otlp::parsed(raw) is Err,
    ensures
        output_for(p, raw, redacted) == raw,
{
    assert(verdicts(p, records_in(raw), raw) =~= Seq::<SampleVerdict>::empty());
}

/// Where every record is kept and nothing is masked, the payload leaves as it
/// came.
pub proof fn law_untouched_passes_through(p: Policy, raw: Seq<u8>, redacted: bool)
    requires
        tally(verdicts(p, records_in(raw), raw), SampleVerdict::Drop) == 0,
        spans_for(p, raw, redacted).len() == 0,
    ensures
        output_for(p, raw, redacted) == raw,
{
    let vs = verdicts(p, records_in(raw), raw);
    if vs.contains(SampleVerdict::Drop) {
        let i = choose|i: int| 0 <= i < vs.len() && vs[i] == SampleVerdict::Drop;
        lemma_tally_met(vs, i);
    }
}

/// Without sampling and redaction every payload leaves as it came.
pub proof fn law_no_policy_changes_nothing(p: Policy, raw: Seq<u8>, redacted: bool)
    requires
        p.rules.len() == 0,
        p.default_target >= 100,
        p.redaction.len() == 0,
    ensures
        output_for(p, raw, redacted) == raw,
{
    let vs = verdicts(p, records_in(raw), raw);
    assert forall|i: int| 0 <= i < vs.len() implies vs[i] == SampleVerdict::Keep by {
        sampling::law_target_extremes(record_hash(records_in(raw)[i], raw));
    }
    redact::law_no_rules_no_spans(p.redaction, redact::record_scans(raw, records_in(raw)));
}

/// A dry run drops and masks nothing: every payload is handed on as it came.
pub proof fn law_dry_run_hands_on_everything(p: Policy, raw: Seq<u8>, redacted: bool)
    ensures
        handed_on(p, raw, redacted, true) == raw,
{
}

/// A verdict that occurs is counted.
proof fn lemma_tally_met(vs: Seq<SampleVerdict>, i: int)
    requires
        0 <= i < vs.len(),
    ensures
        tally(vs, vs[i]) > 0,
    decreases vs.len(),
{
    if i < vs.len() - 1 {
        lemma_tally_met(vs.drop_last(), i);
    }
}

/// Every record is either kept or dropped.
pub proof fn law_every_record_is_decided(vs: Seq<SampleVerdict>)
    ensures
        tally(vs, SampleVerdict::Keep) + tally(vs, SampleVerdict::Drop) == vs.len(),
    decreases vs.len(),
{
    if vs.len() > 0 {
        law_every_record_is_decided(vs.drop_last());
    }
}

/// Two records of one trace get one verdict wherever their targets agree:
/// whatever payload, agent or policy decides on them.
pub proof fn law_trace_is_kept_whole(
    p: Policy,
    rec: RecordModel,
    raw: Seq<u8>,
    p2: Policy,
    rec2: RecordModel,
    raw2: Seq<u8>,
)
    requires
        rec.trace_bytes(raw) is Some,
        rec.trace_bytes(raw) == rec2.trace_bytes(raw2),
        record_target(p, rec, raw) == record_target(p2, rec2, raw2),
    ensures
        record_verdict(p, rec, raw) == record_verdict(p2, rec2, raw2),
{
}

/// The first rule that matches decides: where rule `k` matches a record and no
/// rule before it does, the record is kept exactly where its hash modulo 100
/// is below the target of rule `k`. The hash is that of the trace id, or, for
/// a record without one, of service name, a zero byte and body. A rule matches
/// where the record has everything that it asks for: a namespace that its
/// pattern matches, and a severity at or below its bound.
pub proof fn law_first_match_decides(p: Policy, rec: RecordModel, raw: Seq<u8>, k: int)
    requires
        0 <= k < p.rules.len(),
        ({
            let rule = p.rules[k];
            &&& rule.namespace_glob matches Some(g) ==> {
                &&& envelope::bytes_at_opt(raw, rec.namespace) is Some
                &&& glob::glob(
                    vstd::utf8::encode_utf8(g@),
                    envelope::bytes_at_opt(raw, rec.namespace)->0,
                )
            }
            &&& rule.severity_lte matches Some(t) ==> rec.severity_number is Some
                && rec.severity_number->0 <= t
        }),
        forall|j: int|
            #![trigger p.rules[j]]
            0 <= j < k ==> {
                let rule = p.rules[j];
                ||| rule.namespace_glob matches Some(g) && (envelope::bytes_at_opt(
                    raw,
                    rec.namespace,
                ) is None || !glob::glob(
                    vstd::utf8::encode_utf8(g@),
                    envelope::bytes_at_opt(raw, rec.namespace)->0,
                ))
                ||| rule.severity_lte matches Some(t) && (rec.severity_number is None
                    || rec.severity_number->0 > t)
            },
    ensures
        match rec.trace_bytes(raw) {
            Some(id) => (record_verdict(p, rec, raw) == SampleVerdict::Keep) == (hash::xxh64_of(
                id,
                0,
            ) % 100 < p.rules[k].target),
            None => (record_verdict(p, rec, raw) == SampleVerdict::Keep) == (
            hash::xxh64_streamed(
                (match envelope::bytes_at_opt(raw, rec.service_name) {
                    Some(service) => service,
                    None => Seq::empty(),
                }) + seq![0u8] + (match envelope::bytes_at(raw, rec.body) {
                    Some(body) => body,
                    None => Seq::empty(),
                }),
                0,
            ) % 100 < p.rules[k].target),
        },
        p.rules[k].target == 0 ==> record_verdict(p, rec, raw) == SampleVerdict::Drop,
        p.rules[k].target >= 100 ==> record_verdict(p, rec, raw) == SampleVerdict::Keep,
{
    policy::law_first_match_wins(
        p.rules,
        k,
        p.default_target,
        envelope::bytes_at_opt(raw, rec.namespace),
        rec.severity_number,
    );
}

/// The default target decides only where no rule matches: each asks for a
/// namespace or a severity that the record does not have.
pub proof fn law_default_decides_without_a_match(p: Policy, rec: RecordModel, raw: Seq<u8>)
    requires
        forall|j: int|
            #![trigger p.rules[j]]
            0 <= j < p.rules.len() ==> {
                let rule = p.rules[j];
                ||| rule.namespace_glob matches Some(g) && (envelope::bytes_at_opt(
                    raw,
                    rec.namespace,
                ) is None || !glob::glob(
                    vstd::utf8::encode_utf8(g@),
                    envelope::bytes_at_opt(raw, rec.namespace)->0,
                ))
                ||| rule.severity_lte matches Some(t) && (rec.severity_number is None
                    || rec.severity_number->0 > t)
            },
    ensures
        match rec.trace_bytes(raw) {
            Some(id) => (record_verdict(p, rec, raw) == SampleVerdict::Keep) == (hash::xxh64_of(
                id,
                0,
            ) % 100 < p.default_target),
            None => (record_verdict(p, rec, raw) == SampleVerdict::Keep) == (
            hash::xxh64_streamed(
                (match envelope::bytes_at_opt(raw, rec.service_name) {
                    Some(service) => service,
                    None => Seq::empty(),
                }) + seq![0u8] + (match envelope::bytes_at(raw, rec.body) {
                    Some(body) => body,
                    None => Seq::empty(),
                }),
                0,
            ) % 100 < p.default_target),
        },
        p.default_target == 0 ==> record_verdict(p, rec, raw) == SampleVerdict::Drop,
        p.default_target >= 100 ==> record_verdict(p, rec, raw) == SampleVerdict::Keep,
{
    policy::law_no_match_is_default(
        p.rules,
        p.default_target,
        envelope::bytes_at_opt(raw, rec.namespace),
        rec.severity_number,
    );
}

/// Every record gets its own verdict, in its own place.
pub proof fn law_each_record_has_its_verdict(
    p: Policy,
    records: Seq<RecordModel>,
    raw: Seq<u8>,
    i: int,
)
    requires
        0 <= i < records.len(),
    ensures
        verdicts(p, records, raw).len() == records.len(),
        verdicts(p, records, raw)[i] == record_verdict(p, records[i], raw),
{
}

/// What is handed on outside a dry run: what assembly makes of the payload,
/// with a verdict for every record that was parsed and, where redaction runs,
/// every span that the rules ask for in these records; the payload as it came
/// where assembly fails.
pub proof fn law_what_is_handed_on(p: Policy, raw: Seq<u8>, redacted: bool)
    ensures
        ({
            let records = match otlp::parsed(raw) {
                Ok(rs) => rs,
                Err(_) => Seq::<RecordModel>::empty(),
            };
            let asked = redact::redactions(p.redaction, raw, records);
            let none = Seq::<StageRedaction>::empty();
            let out = export::assembled(
                export::Plan {
                    verdicts: records.map_values(|r: RecordModel| record_verdict(p, r, raw)),
                    entries: if redacted {
                        asked
                    } else {
                        none
                    },
                    masks: p.masks,
                },
                raw,
                records.len(),
            );
            &&& out matches Ok(o) ==> handed_on(p, raw, redacted, false) == o
            &&& out is Err ==> handed_on(p, raw, redacted, false) == raw
            &&& otlp::parsed(raw) is Err ==> handed_on(p, raw, redacted, false) == raw
            &&& handed_on(p, raw, redacted, true) == raw
        }),
{
    if otlp::parsed(raw) is Err {
        law_unparsable_passes_through(p, raw, redacted);
    }
}

/// How often a verdict occurs: as often as it is among the verdicts.
proof fn lemma_tally_is_a_count(vs: Seq<SampleVerdict>, v: SampleVerdict)
    ensures
        tally(vs, v) == vs.filter(|x: SampleVerdict| x == v).len(),
    decreases vs.len(),
{
    reveal(Seq::filter);
    if vs.len() > 0 {
        lemma_tally_is_a_count(vs.drop_last(), v);
    }
}

/// What the numbers of a request say: how many records there were, how many of
/// them were kept and how many dropped, how many spans were asked for, how
/// long the payload was and how long what leaves is, and which step was left
/// out.
pub proof fn law_numbers_tell_what_happened(s: Stats, p: Policy, raw: Seq<u8>, redacted: bool)
    requires
        tells(s, p, raw, redacted),
    ensures
        ({
            let records = match otlp::parsed(raw) {
                Ok(rs) => rs,
                Err(_) => Seq::<RecordModel>::empty(),
            };
            let vs = records.map_values(|r: RecordModel| record_verdict(p, r, raw));
            &&& s.records_in == records.len()
            &&& s.kept + s.dropped == s.records_in
            &&& s.kept == vs.filter(|v: SampleVerdict| v == SampleVerdict::Keep).len()
            &&& s.dropped == vs.filter(|v: SampleVerdict| v == SampleVerdict::Drop).len()
            &&& redacted ==> s.redactions == redact::redactions(p.redaction, raw, records).len()
            &&& !redacted ==> s.redactions == 0
            &&& s.bytes_in == raw.len()
            &&& s.bytes_out == handed_on(p, raw, redacted, false).len()
            &&& s.parse_bypassed <==> otlp::parsed(raw) is Err
            &&& s.redact_bypassed <==> !redacted
            &&& s.assemble_bypassed ==> handed_on(p, raw, redacted, false) == raw
        }),
{
    let vs = verdicts(p, records_in(raw), raw);
    law_every_record_is_decided(vs);
    lemma_tally_is_a_count(vs, SampleVerdict::Keep);
    lemma_tally_is_a_count(vs, SampleVerdict::Drop);
}

/// The counter of every rule grows by the matches of that rule, in 64 bits.
pub proof fn law_counters_grow_by_matches(
    rules: Seq<EngineRule>,
    raw: Seq<u8>,
    before: Seq<u64>,
    after: Seq<u64>,
    i: int,
)
    requires
        counted_all(rules, raw, before, after),
        0 <= i < rules.len(),
        otlp::parsed(raw) is Ok,
    ensures
        after.len() == rules.len(),
        after[i] == (before[i] + redact::hits_in(
            rules[i],
            redact::record_scans(raw, otlp::parsed(raw)->Ok_0),
        )) % 0x1_0000_0000_0000_0000,
{
}

/// An engine is built as configured: each rule under its own name, with its
/// own pattern, its own mask and its own selectors, in their order.
pub proof fn law_built_redaction_is_as_configured(
    rules: Seq<EngineRule>,
    masks: Seq<Seq<u8>>,
    specs: Seq<RuleSpec>,
    configured: Seq<config::RegexRuleConfig>,
    i: int,
)
    requires
        redact::compiled(rules, specs),
        masks == texts_bytes(redact::mask_table(specs)),
        config::specs_of(specs, configured),
        0 <= i < configured.len(),
    ensures
        rules.len() == configured.len(),
        rules[i].name == configured[i].name@,
        rules[i].pattern == configured[i].pattern@,
        rules[i].mask < masks.len(),
        masks[rules[i].mask as int] == vstd::utf8::encode_utf8(configured[i].mask@),
        rules[i].fields.len() == configured[i].fields@.len(),
        forall|n: int|
            0 <= n < rules[i].fields.len() ==> match #[trigger] rules[i].fields[n] {
                redact::Selector::Body => configured[i].fields@[n]@ == "body"@,
                redact::Selector::Attrs(g) => g.len() > 0 && configured[i].fields@[n]@
                    == "attributes."@ + g,
            },
{
    assert(rules[i].fields == redact::selectors(specs[i].fields@));
    assert forall|n: int| 0 <= n < rules[i].fields.len() implies match #[trigger] rules[i].fields[n] {
        redact::Selector::Body => configured[i].fields@[n]@ == "body"@,
        redact::Selector::Attrs(g) => g.len() > 0 && configured[i].fields@[n]@ == "attributes."@
            + g,
    } by {
        redact::law_selectors_are_read(configured[i].fields@[n]@);
    }
}

/// A built sampling rule matches exactly where the configured one does: the
/// namespace pattern, if one is configured, matches the record's namespace,
/// and the severity, if a name is configured, is at or below the end of that
/// name's band. Both where both are configured. Its target is the configured
/// one.
pub proof fn law_built_rules_match_as_configured(
    rule: Rule,
    c: SamplingRule,
    namespace: Option<Seq<u8>>,
    severity: Option<i32>,
)
    requires
        rule_of(rule, c),
        c.selector.severity_lte matches Some(name) ==> policy::band_max(
            vstd::utf8::encode_utf8(name@),
        ) is Some,
    ensures
        policy::rule_applies(rule, namespace, severity) <==> {
            &&& c.selector.namespace matches Some(g) ==> {
                &&& namespace is Some
                &&& glob::glob(vstd::utf8::encode_utf8(g@), namespace->0)
            }
            &&& c.selector.severity_lte matches Some(name) ==> {
                &&& severity is Some
                &&& severity->0 <= policy::band_max(vstd::utf8::encode_utf8(name@))->0
            }
        },
        c.target <= 255 ==> rule.target == c.target,
{
}

/// Rules compile exactly where each of them has a field, nests no unbounded
/// repetition and compiles alone, and where all of them compile together.
pub proof fn law_which_rules_compile(specs: Seq<RuleSpec>, size_limit: usize)
    ensures
        specs_compile(specs, size_limit) <==> {
            &&& forall|j: int|
                0 <= j < specs.len() ==> (#[trigger] specs[j]).fields@.len() > 0
                    && !crate::lint::nested_repetition(
                    vstd::utf8::encode_utf8(specs[j].pattern@),
                ) && pattern::compiles(specs[j].pattern@, size_limit, usize::BITS)
            &&& pattern::set_compiles(
                specs.map_values(|s: RuleSpec| s.pattern@),
                redact::set_limit(size_limit, specs.len()),
                usize::BITS,
            )
        },
{
    redact::law_the_first_bad_rule_is_told(specs, size_limit, 0);
}

/// The first fault stops a build: no severity before it is unknown, and where
/// none is unknown there is no fault.
pub proof fn law_unknown_severities_are_found(rules: Seq<SamplingRule>, i: int)
    requires
        0 <= i <= rules.len(),
    ensures
        match unknown_severity(rules, i) {
            Some(k) => {
                &&& i <= k < rules.len()
                &&& rules[k].selector.severity_lte is Some
                &&& policy::band_max(
                    vstd::utf8::encode_utf8(rules[k].selector.severity_lte->0@),
                ) is None
                &&& forall|j: int|
                    i <= j < k ==> ((#[trigger] rules[j]).selector.severity_lte matches Some(name)
                        ==> policy::band_max(vstd::utf8::encode_utf8(name@)) is Some)
            },
            None => forall|j: int|
                i <= j < rules.len() ==> ((#[trigger] rules[j]).selector.severity_lte matches Some(
                    name,
                ) ==> policy::band_max(vstd::utf8::encode_utf8(name@)) is Some),
        },
    decreases rules.len() - i,
{
    if i < rules.len() {
        law_unknown_severities_are_found(rules, i + 1);
    }
}

/// Whether a policy is what redaction rules compile to, with its own masks.
pub open spec fn well_built(p: Policy) -> bool {
    exists|specs: Seq<RuleSpec>|
        #![trigger redact::compiled(p.redaction, specs)]
        redact::compiled(p.redaction, specs) && p.masks == texts_bytes(redact::mask_table(specs))
}

/// Of a payload that parses, assembly fails only where a value of a kept
/// record is malformed behind its first string, or where the output outgrows
/// memory: every mask is found, and every record is met.
pub proof fn law_assembly_is_sound(p: Policy, raw: Seq<u8>, redacted: bool)
    requires
        well_built(p),
        otlp::parsed(raw) is Ok,
    ensures
        assembly(p, raw, redacted) matches Err(e) ==> e is TooLarge || (e is Wire
            && export::read_through(
            verdicts(p, records_in(raw), raw),
            raw,
            export::Level::Request,
            0,
            raw.len() as int,
            0,
        ) is None),
{
    let specs = choose|specs: Seq<RuleSpec>|
        #![trigger redact::compiled(p.redaction, specs)]
        redact::compiled(p.redaction, specs) && p.masks == texts_bytes(redact::mask_table(specs));
    let plan = plan_for(p, raw, redacted);
    redact::lemma_spans_use_rule_masks(
        p.redaction,
        redact::record_scans(raw, records_in(raw)),
        p.masks.len(),
    );
    export::law_known_masks_are_found(plan, raw, export::Level::Request, 0, raw.len() as int, 0);
    fidelity::law_walk_meets_every_record(plan, raw);
    fidelity::law_assembly_succeeds(plan, raw);
}

/// Of a payload that parses, what leaves parses too. Unless the payload had
/// to leave as it came, it holds exactly the records that were kept, in their
/// order, each masked as redaction asks.
pub proof fn law_output_is_a_request(p: Policy, raw: Seq<u8>, redacted: bool)
    requires
        otlp::parsed(raw) is Ok,
    ensures
        otlp::parsed(output_for(p, raw, redacted)) is Ok,
        assembly(p, raw, redacted) is Ok ==> fidelity::same_records(
            plan_for(p, raw, redacted),
            raw,
            0,
            records_in(raw),
            output_for(p, raw, redacted),
            records_in(output_for(p, raw, redacted)),
        ),
        assembly(p, raw, redacted) is Ok ==> records_in(output_for(p, raw, redacted)).len()
            == tally(verdicts(p, records_in(raw), raw), SampleVerdict::Keep),
{
    let plan = plan_for(p, raw, redacted);
    let out = output_for(p, raw, redacted);
    fidelity::law_output_holds_the_kept_records(plan, raw);
    if assembly(p, raw, redacted) is Ok {
        lemma_kept_count(plan, raw, 0, records_in(raw), out, records_in(out));
        assert(plan.verdicts.skip(0) =~= plan.verdicts);
    }
}

/// A verdict in front is counted as one behind is.
proof fn lemma_tally_first(vs: Seq<SampleVerdict>, v: SampleVerdict)
    requires
        vs.len() > 0,
    ensures
        tally(vs, v) == tally(vs.drop_first(), v) + (if vs[0] == v {
            1nat
        } else {
            0
        }),
    decreases vs.len(),
{
    if vs.len() == 1 {
        assert(vs.drop_first() =~= vs.drop_last());
    } else {
        lemma_tally_first(vs.drop_last(), v);
        assert(vs.drop_last().drop_first() =~= vs.drop_first().drop_last());
    }
}

/// As many records are left as verdicts keep.
proof fn lemma_kept_count(
    plan: export::Plan,
    b: Seq<u8>,
    idx: int,
    xs: Seq<RecordModel>,
    c: Seq<u8>,
    ys: Seq<RecordModel>,
)
    requires
        fidelity::same_records(plan, b, idx, xs, c, ys),
        0 <= idx,
        idx + xs.len() == plan.verdicts.len(),
    ensures
        ys.len() == tally(plan.verdicts.skip(idx), SampleVerdict::Keep),
    decreases xs.len(),
{
    let rest = plan.verdicts.skip(idx);
    if xs.len() > 0 {
        assert(rest.drop_first() =~= plan.verdicts.skip(idx + 1));
        lemma_tally_first(rest, SampleVerdict::Keep);
        if plan.verdicts[idx] == SampleVerdict::Drop {
            lemma_kept_count(plan, b, idx + 1, xs.drop_first(), c, ys);
        } else {
            lemma_kept_count(plan, b, idx + 1, xs.drop_first(), c, ys.drop_first());
        }
    }
}

} // verus!
