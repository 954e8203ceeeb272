//! Static regex redaction.
//!
//! Rules are compiled once per policy. Applying them to an envelope adds
//! replacement spans; the payload is never rewritten here. A mask says what
//! kind of content stood in its place, never the content.

use crate::buffer;
use crate::envelope;
use crate::envelope::{Decisions, Envelope, MaskId, RecordModel, Redaction, StageRedaction};
use crate::glob;
use crate::guard::{Stage, StageError, StageId};
use crate::lint;
use crate::pattern;
use crate::text;
use regex::bytes::{Regex, RegexSet};
use std::ops::Range;
use vstd::prelude::*;

verus! {

/// Stage id of the regex engine.
pub const STAGE_REDACT_REGEX: &'static str = "redact-regex";

/// Which payload fields a rule scans.
#[derive(Debug, Clone, PartialEq, Eq)]
pub enum FieldSelector {
    /// The record body.
    Body,
    /// Attribute values whose key matches this `*` pattern.
    Attrs(String),
}

/// A field selector, by its text.
pub enum Selector {
    Body,
    Attrs(Seq<char>),
}

impl View for FieldSelector {
    type V = Selector;

    open spec fn view(&self) -> Selector {
        match *self {
            FieldSelector::Body => Selector::Body,
            FieldSelector::Attrs(g) => Selector::Attrs(g@),
        }
    }
}

/// The selector that a configuration text stands for: `body`, or
/// `attributes.` and a pattern that is not empty.
pub open spec fn selector_of(s: Seq<char>) -> Option<Selector> {
    if s == "body"@ {
        Some(Selector::Body)
    } else if "attributes."@.is_prefix_of(s) && s.len() > "attributes."@.len() {
        Some(Selector::Attrs(s.skip("attributes."@.len() as int)))
    } else {
        None
    }
}

/// A selector is `body`, or `attributes.` with a pattern behind it, and the
/// pattern is all that stands there. Nothing else is a selector.
pub proof fn law_selectors_are_read(s: Seq<char>)
    ensures
        selector_of("body"@) == Some(Selector::Body),
        forall|g: Seq<char>|
            g.len() > 0 ==> #[trigger] selector_of("attributes."@ + g) == Some(Selector::Attrs(g)),
        selector_of(s) matches Some(Selector::Body) ==> s == "body"@,
        selector_of(s) matches Some(Selector::Attrs(g)) ==> g.len() > 0 && s == "attributes."@ + g,
{
    reveal_strlit("body");
    reveal_strlit("attributes.");
    let head = "attributes."@;
    assert forall|g: Seq<char>| g.len() > 0 implies #[trigger] selector_of(head + g) == Some(
        Selector::Attrs(g),
    ) by {
        assert((head + g)[0] == head[0]);
        assert((head + g).skip(head.len() as int) =~= g);
        assert(head.is_prefix_of(head + g));
    }
    if head.is_prefix_of(s) {
        assert(s =~= head + s.skip(head.len() as int));
    }
}

impl FieldSelector {
    /// Parse the configuration form: `body` or `attributes.<pattern>`.
    pub fn parse(s: &str) -> (r: Option<Self>)
        ensures
            match r {
                Some(f) => selector_of(s@) == Some(f@),
                None => selector_of(s@) is None,
            },
    {
        if text::str_eq(s, "body") {
            return Some(FieldSelector::Body);
        }
        match text::strip_prefix(s, "attributes.") {
            Some(pattern) => {
                proof {
                    assert(s@.take("attributes."@.len() as int) =~= "attributes."@);
                    assert(s@.skip("attributes."@.len() as int) =~= pattern@);
                }
                if pattern.is_empty() {
                    None
                } else {
                    Some(FieldSelector::Attrs(pattern.to_owned()))
                }
            },
            None => None,
        }
    }
}

/// One rule as configured.
#[derive(Debug, Clone)]
pub struct RuleSpec {
    pub name: String,
    pub pattern: String,
    pub mask: String,
    pub fields: Vec<FieldSelector>,
}

/// The selectors of several fields.
pub open spec fn selectors(fields: Seq<FieldSelector>) -> Seq<Selector> {
    fields.map_values(|f: FieldSelector| f@)
}

/// Compile-time limits of a policy.
#[derive(Debug, Clone, Copy)]
pub struct CompileLimits {
    /// Most bytes that one compiled rule may take.
    pub size_limit: usize,
}

impl Default for CompileLimits {
    /// 1 MiB per compiled rule.
    fn default() -> (l: Self)
        ensures
            l.size_limit == 1048576,
    {
        CompileLimits { size_limit: 1048576 }
    }
}

/// Why a rule set is rejected.
#[derive(Debug)]
pub enum CompileError {
    /// An unbounded quantifier on a group that holds one.
    NestedRepetition { rule: String, detail: &'static str },
    /// The regex crate rejects the pattern, or the rules together.
    Regex { rule: String, source: regex::Error },
    /// A field selector that is neither `body` nor `attributes.<pattern>`.
    Selector { rule: String, selector: String },
    /// A rule that scans nothing.
    NoFields { rule: String },
}

/// What can be wrong with one rule.
pub enum RuleFault {
    NoFields,
    NestedRepetition,
    Regex,
}

/// What is wrong with a rule, in the order it is looked for.
pub open spec fn rule_fault(spec: RuleSpec, size_limit: usize) -> Option<RuleFault> {
    if spec.fields@.len() == 0 {
        Some(RuleFault::NoFields)
    } else if lint::nested_repetition(vstd::utf8::encode_utf8(spec.pattern@)) {
        Some(RuleFault::NestedRepetition)
    } else if !pattern::compiles(spec.pattern@, size_limit, usize::BITS) {
        Some(RuleFault::Regex)
    } else {
        None
    }
}

/// The first rule that is rejected.
pub open spec fn first_fault(specs: Seq<RuleSpec>, size_limit: usize, i: int) -> Option<
    (int, RuleFault),
>
    decreases specs.len() - i,
{
    if i >= specs.len() {
        None
    } else {
        match rule_fault(specs[i], size_limit) {
            Some(f) => Some((i, f)),
            None => first_fault(specs, size_limit, i + 1),
        }
    }
}

/// The patterns of several rules.
pub open spec fn patterns_of(specs: Seq<RuleSpec>) -> Seq<Seq<char>> {
    specs.map_values(|s: RuleSpec| s.pattern@)
}

/// The size limit of all rules together: that of one rule for each of them,
/// as far as a `usize` reaches.
pub open spec fn set_limit(size_limit: usize, rules: nat) -> usize {
    let n = if rules > 0 {
        rules
    } else {
        1
    };
    if size_limit * n > usize::MAX {
        usize::MAX
    } else {
        (size_limit * n) as usize
    }
}

/// The different masks of several rules, in the order they first come up.
pub open spec fn mask_table(specs: Seq<RuleSpec>) -> Seq<Seq<char>>
    decreases specs.len(),
{
    if specs.len() == 0 {
        Seq::empty()
    } else {
        let before = mask_table(specs.drop_last());
        if before.contains(specs.last().mask@) {
            before
        } else {
            before.push(specs.last().mask@)
        }
    }
}

/// Whether an error tells of a rejected rule.
pub open spec fn tells_fault(e: CompileError, rule: RuleSpec, fault: RuleFault) -> bool {
    match fault {
        RuleFault::NoFields => e matches CompileError::NoFields { rule: r } && r@ == rule.name@,
        RuleFault::NestedRepetition => e matches CompileError::NestedRepetition { rule: r, detail }
            && r@ == rule.name@ && detail == lint::NESTED_REPETITION,
        RuleFault::Regex => e matches CompileError::Regex { rule: r, .. } && r@ == rule.name@,
    }
}

/// An error names the rule that it tells of, and says what is wrong with it.
pub proof fn law_errors_name_their_rule(e: CompileError, rule: RuleSpec, fault: RuleFault)
    requires
        tells_fault(e, rule, fault),
    ensures
        fault is NoFields <==> e is NoFields,
        fault is NestedRepetition <==> e is NestedRepetition,
        fault is Regex <==> e is Regex,
        e matches CompileError::NoFields { rule: r } ==> r@ == rule.name@,
        e matches CompileError::NestedRepetition { rule: r, .. } ==> r@ == rule.name@,
        e matches CompileError::Regex { rule: r, .. } ==> r@ == rule.name@,
{
}

/// A rule of a compiled engine.
#[derive(Debug)]
struct CompiledRule {
    name: String,
    regex: Regex,
    mask: MaskId,
    fields: Vec<FieldSelector>,
}

/// A compiled rule, in plain values.
#[verifier::ext_equal]
pub struct EngineRule {
    pub name: Seq<char>,
    pub pattern: Seq<char>,
    pub mask: u32,
    pub fields: Seq<Selector>,
}

impl CompiledRule {
    spec fn model(self) -> EngineRule {
        EngineRule {
            name: self.name@,
            pattern: pattern::source_of(self.regex),
            mask: self.mask.0,
            fields: selectors(self.fields@),
        }
    }
}

/// Whether a selector picks a field: the body where `key` is absent, else the
/// attribute with that key.
pub open spec fn selects(s: Selector, key: Option<Seq<u8>>) -> bool {
    match (s, key) {
        (Selector::Body, None) => true,
        (Selector::Attrs(g), Some(k)) => glob::glob(vstd::utf8::encode_utf8(g), k),
        _ => false,
    }
}

/// Whether a rule scans a field.
pub open spec fn scans(fields: Seq<Selector>, key: Option<Seq<u8>>) -> bool {
    exists|i: int| 0 <= i < fields.len() && selects(#[trigger] fields[i], key)
}

impl CompiledRule {
    fn applies_to_body(&self) -> (r: bool)
        ensures
            r == scans(self.model().fields, None),
    {
        let mut i: usize = 0;
        while i < self.fields.len()
            invariant
                i <= self.fields@.len(),
                forall|j: int|
                    0 <= j < i ==> !selects(#[trigger] self.model().fields[j], None),
            decreases self.fields@.len() - i,
        {
            if let FieldSelector::Body = &self.fields[i] {
                assert(selects(self.model().fields[i as int], None));
                return true;
            }
            i = i + 1;
        }
        false
    }

    fn applies_to_attr(&self, key: &[u8]) -> (r: bool)
        ensures
            r == scans(self.model().fields, Some(key@)),
    {
        let mut i: usize = 0;
        while i < self.fields.len()
            invariant
                i <= self.fields@.len(),
                forall|j: int|
                    0 <= j < i ==> !selects(#[trigger] self.model().fields[j], Some(key@)),
            decreases self.fields@.len() - i,
        {
            if let FieldSelector::Attrs(g) = &self.fields[i] {
                if glob::matches(g.as_str().as_bytes(), key) {
                    assert(selects(self.model().fields[i as int], Some(key@)));
                    return true;
                }
            }
            i = i + 1;
        }
        false
    }
}

/// A compiled rule set. Built once per policy; evaluation only reads it.
#[derive(Debug)]
pub struct RedactEngine {
    /// Which rules match a field at all.
    prefilter: RegexSet,
    rules: Vec<CompiledRule>,
    /// Mask texts by mask id.
    masks: Vec<String>,
}

/// The rules that specs compile to: each spec's own texts, and the id of its
/// mask in the mask table.
pub open spec fn compiled(rules: Seq<EngineRule>, specs: Seq<RuleSpec>) -> bool {
    &&& rules.len() == specs.len()
    &&& forall|i: int|
        0 <= i < specs.len() ==> {
            let rule = #[trigger] rules[i];
            &&& rule.name == specs[i].name@
            &&& rule.pattern == specs[i].pattern@
            &&& rule.fields == selectors(specs[i].fields@)
            &&& rule.mask < mask_table(specs).len()
            &&& mask_table(specs)[rule.mask as int] == specs[i].mask@
        }
}

/// The texts of several strings.
pub open spec fn strings(ss: Seq<String>) -> Seq<Seq<char>> {
    ss.map_values(|s: String| s@)
}

/// There are no more masks than rules.
proof fn lemma_mask_table_len(specs: Seq<RuleSpec>)
    ensures
        mask_table(specs).len() <= specs.len(),
    decreases specs.len(),
{
    if specs.len() > 0 {
        lemma_mask_table_len(specs.drop_last());
    }
}

/// Equal masks share one id: the mask table holds no text twice.
pub proof fn law_masks_are_distinct(specs: Seq<RuleSpec>)
    ensures
        mask_table(specs).no_duplicates(),
        forall|i: int| 0 <= i < specs.len() ==> mask_table(specs).contains(#[trigger] specs[i].mask@),
    decreases specs.len(),
{
    if specs.len() > 0 {
        let before = mask_table(specs.drop_last());
        law_masks_are_distinct(specs.drop_last());
        assert forall|i: int| 0 <= i < specs.len() implies mask_table(specs).contains(
            #[trigger] specs[i].mask@,
        ) by {
            if i < specs.len() - 1 {
                assert(before.contains(specs.drop_last()[i].mask@));
                let j = choose|j: int| 0 <= j < before.len() && before[j] == specs[i].mask@;
                assert(mask_table(specs)[j] == specs[i].mask@);
            } else if !before.contains(specs[i].mask@) {
                assert(mask_table(specs)[before.len() as int] == specs[i].mask@);
            }
        }
    }
}

impl RedactEngine {
    #[verifier::type_invariant]
    spec fn inv(self) -> bool {
        &&& pattern::sources_of(self.prefilter).len() == self.rules@.len()
        &&& forall|i: int|
            0 <= i < self.rules@.len() ==> pattern::source_of((#[trigger] self.rules@[i]).regex)
                == pattern::sources_of(self.prefilter)[i]
        &&& forall|i: int|
            0 <= i < self.rules@.len() ==> (#[trigger] self.rules@[i]).mask.0 < self.masks@.len()
    }

    /// The rules, in order.
    pub closed spec fn rules(self) -> Seq<EngineRule> {
        self.rules@.map_values(|r: CompiledRule| r.model())
    }

    /// The mask texts, by mask id.
    pub closed spec fn mask_texts(self) -> Seq<Seq<char>> {
        strings(self.masks@)
    }

    /// Compiles a rule set. Each rule is checked on its own first, so that an
    /// error names the rule; then all rules are compiled together.
    pub fn compile(specs: Vec<RuleSpec>, limits: CompileLimits) -> (r: Result<Self, CompileError>)
        requires
            specs@.len() <= u32::MAX,
        ensures
            match first_fault(specs@, limits.size_limit, 0) {
                Some((i, fault)) => r matches Err(e) && tells_fault(e, specs@[i], fault),
                None => if pattern::set_compiles(
                    patterns_of(specs@),
                    set_limit(limits.size_limit, specs@.len()),
                    usize::BITS,
                ) {
                    r matches Ok(engine) && compiled(engine.rules(), specs@) && engine.mask_texts()
                        == mask_table(specs@)
                } else {
                    r matches Err(CompileError::Regex { rule, .. }) && rule@ == "<set>"@
                },
            },
    {
        let mut regexes: Vec<Regex> = Vec::new();
        let mut patterns: Vec<&str> = Vec::new();
        let mut i: usize = 0;
        while i < specs.len()
            invariant
                i <= specs@.len(),
                regexes@.len() == i,
                patterns@.len() == i,
                forall|j: int|
                    0 <= j < i ==> pattern::source_of(#[trigger] regexes@[j]) == specs@[j].pattern@,
                forall|j: int| 0 <= j < i ==> (#[trigger] patterns@[j])@ == specs@[j].pattern@,
                first_fault(specs@, limits.size_limit, 0) == first_fault(
                    specs@,
                    limits.size_limit,
                    i as int,
                ),
            decreases specs@.len() - i,
        {
            let spec = &specs[i];
            if spec.fields.len() == 0 {
                return Err(CompileError::NoFields { rule: spec.name.clone() });
            }
            if let Err(detail) = lint::check_nested_repetition(spec.pattern.as_str()) {
                return Err(CompileError::NestedRepetition { rule: spec.name.clone(), detail });
            }
            match pattern::build(spec.pattern.as_str(), limits.size_limit) {
                Ok(regex) => {
                    regexes.push(regex);
                },
                Err(source) => {
                    return Err(CompileError::Regex { rule: spec.name.clone(), source });
                },
            }
            patterns.push(spec.pattern.as_str());
            i = i + 1;
        }
        let n: usize = if specs.len() > 0 {
            specs.len()
        } else {
            1
        };
        let limit: usize = match limits.size_limit.checked_mul(n) {
            Some(limit) => limit,
            None => usize::MAX,
        };
        proof {
            assert(pattern::texts(patterns@) =~= patterns_of(specs@));
        }
        let prefilter = match pattern::build_set(patterns, limit) {
            Ok(set) => set,
            Err(source) => {
                return Err(CompileError::Regex { rule: "<set>".to_owned(), source });
            },
        };
        Ok(Self::from_parts(specs, regexes, prefilter))
    }

    /// The engine of rules whose patterns are compiled. Equal masks share one
    /// mask id.
    pub fn from_parts(specs: Vec<RuleSpec>, regexes: Vec<Regex>, prefilter: RegexSet) -> (r: Self)
        requires
            specs@.len() <= u32::MAX,
            regexes@.len() == specs@.len(),
            forall|i: int|
                0 <= i < specs@.len() ==> pattern::source_of(#[trigger] regexes@[i])
                    == specs@[i].pattern@,
            pattern::sources_of(prefilter) == patterns_of(specs@),
        ensures
            compiled(r.rules(), specs@),
            r.mask_texts() == mask_table(specs@),
    {
        let ghost all = specs@;
        let ghost sources = pattern::sources_of(prefilter);
        let mut specs = specs;
        let mut regexes = regexes;
        let mut rules: Vec<CompiledRule> = Vec::new();
        let mut masks: Vec<String> = Vec::new();
        let n: usize = specs.len();
        let mut i: usize = 0;
        proof {
            assert(all.take(0) =~= Seq::<RuleSpec>::empty());
            assert(strings(masks@) =~= mask_table(all.take(0)));
        }
        while i < n
            invariant
                i <= n,
                n == all.len() <= u32::MAX,
                specs@ == all.skip(i as int),
                regexes@.len() == n - i,
                forall|j: int|
                    0 <= j < regexes@.len() ==> pattern::source_of(#[trigger] regexes@[j])
                        == specs@[j].pattern@,
                rules@.len() == i,
                strings(masks@) == mask_table(all.take(i as int)),
                forall|j: int|
                    0 <= j < i ==> {
                        let rule = (#[trigger] rules@[j]).model();
                        &&& rule.name == all[j].name@
                        &&& rule.pattern == all[j].pattern@
                        &&& rule.fields == selectors(all[j].fields@)
                        &&& rule.mask < masks@.len()
                        &&& strings(masks@)[rule.mask as int] == all[j].mask@
                    },
            decreases n - i,
        {
            let spec = specs.remove(0);
            let regex = regexes.remove(0);
            proof {
                lemma_mask_table_len(all.take(i as int));
                assert(all.take(i + 1).drop_last() =~= all.take(i as int));
                assert(all.take(i + 1).last() == spec);
                assert(strings(masks@).len() == masks@.len());
            }
            let mask: MaskId = match position(&masks, &spec.mask) {
                Some(at) => {
                    assert(strings(masks@)[at as int] == spec.mask@);
                    MaskId(at as u32)
                },
                None => {
                    let ghost before = masks@;
                    let at: usize = masks.len();
                    masks.push(spec.mask);
                    proof {
                        assert(strings(masks@) =~= strings(before).push(spec.mask@));
                        assert forall|j: int| 0 <= j < i implies {
                            let rule = (#[trigger] rules@[j]).model();
                            &&& rule.mask < masks@.len()
                            &&& strings(masks@)[rule.mask as int] == all[j].mask@
                        } by {
                            assert(strings(before)[rules@[j].model().mask as int] == all[j].mask@);
                        }
                    }
                    MaskId(at as u32)
                },
            };
            rules.push(CompiledRule { name: spec.name, regex, mask, fields: spec.fields });
            i = i + 1;
        }
        assert(all.take(n as int) =~= all);
        let engine = RedactEngine { prefilter, rules, masks };
        engine
    }
}

/// The position of a text in a list.
fn position(list: &Vec<String>, s: &String) -> (r: Option<usize>)
    ensures
        match r {
            Some(i) => i < list@.len() && list@[i as int]@ == s@,
            None => !strings(list@).contains(s@),
        },
{
    let mut i: usize = 0;
    while i < list.len()
        invariant
            i <= list@.len(),
            forall|j: int| 0 <= j < i ==> (#[trigger] list@[j])@ != s@,
        decreases list@.len() - i,
    {
        if text::str_eq(list[i].as_str(), s.as_str()) {
            return Some(i);
        }
        i = i + 1;
    }
    None
}

/// One field that the engine looks at: where it stands, whose it is, and its
/// key where it is an attribute.
pub struct Scan {
    pub record: int,
    pub base: int,
    pub key: Option<Seq<u8>>,
    pub field: Seq<u8>,
}

/// How many matches a rule has in a field that it scans.
pub open spec fn hits(rule: EngineRule, scan: Scan) -> nat {
    if scan.field.len() > 0 && scans(rule.fields, scan.key) {
        pattern::matches_of(rule.pattern, scan.field).len()
    } else {
        0
    }
}

/// The span that a match at `m` in a field asks for.
pub open spec fn span_at(rule: EngineRule, scan: Scan, m: (int, int)) -> StageRedaction {
    StageRedaction {
        stage: StageId(STAGE_REDACT_REGEX),
        record: scan.record as usize,
        redaction: Redaction {
            target: Range {
                start: (scan.base + m.0) as usize,
                end: (scan.base + m.1) as usize,
            },
            mask: MaskId(rule.mask),
        },
    }
}

/// The spans that one rule asks for in one field.
pub open spec fn rule_spans(rule: EngineRule, scan: Scan) -> Seq<StageRedaction> {
    if scan.field.len() > 0 && scans(rule.fields, scan.key) {
        pattern::matches_of(rule.pattern, scan.field).map_values(
            |m: (int, int)| span_at(rule, scan, m),
        )
    } else {
        Seq::empty()
    }
}

/// The spans that all rules ask for in one field, rule by rule.
pub open spec fn field_spans(rules: Seq<EngineRule>, scan: Scan) -> Seq<StageRedaction>
    decreases rules.len(),
{
    if rules.len() == 0 {
        Seq::empty()
    } else {
        field_spans(rules.drop_last(), scan) + rule_spans(rules.last(), scan)
    }
}

/// The spans that all rules ask for in several fields, field by field.
pub open spec fn spans_in(rules: Seq<EngineRule>, scanned: Seq<Scan>) -> Seq<StageRedaction>
    decreases scanned.len(),
{
    if scanned.len() == 0 {
        Seq::empty()
    } else {
        spans_in(rules, scanned.drop_last()) + field_spans(rules, scanned.last())
    }
}

/// How many matches a rule has in several fields.
pub open spec fn hits_in(rule: EngineRule, scanned: Seq<Scan>) -> nat
    decreases scanned.len(),
{
    if scanned.len() == 0 {
        0
    } else {
        hits_in(rule, scanned.drop_last()) + hits(rule, scanned.last())
    }
}

/// The fields of a record: its body, and the value of each attribute.
pub open spec fn body_scan(raw: Seq<u8>, idx: int, rec: RecordModel) -> Seq<Scan> {
    match envelope::bytes_at(raw, rec.body) {
        Some(field) => seq![Scan { record: idx, base: rec.body.0, key: None, field }],
        None => Seq::empty(),
    }
}

/// One attribute, where its key and its value lie in the payload.
pub open spec fn attr_scan(
    raw: Seq<u8>,
    idx: int,
    attr: ((int, int), (int, int)),
) -> Seq<Scan> {
    match (envelope::bytes_at(raw, attr.0), envelope::bytes_at(raw, attr.1)) {
        (Some(key), Some(field)) => seq![
            Scan { record: idx, base: attr.1.0, key: Some(key), field },
        ],
        _ => Seq::empty(),
    }
}

/// The attributes of a record, in order.
pub open spec fn attr_scans(
    raw: Seq<u8>,
    idx: int,
    attrs: Seq<((int, int), (int, int))>,
) -> Seq<Scan>
    decreases attrs.len(),
{
    if attrs.len() == 0 {
        Seq::empty()
    } else {
        attr_scans(raw, idx, attrs.drop_last()) + attr_scan(raw, idx, attrs.last())
    }
}

/// Every field of several records, in order.
pub open spec fn record_scans(raw: Seq<u8>, records: Seq<RecordModel>) -> Seq<Scan>
    decreases records.len(),
{
    if records.len() == 0 {
        Seq::empty()
    } else {
        let idx = records.len() - 1;
        record_scans(raw, records.drop_last()) + body_scan(raw, idx, records.last()) + attr_scans(
            raw,
            idx,
            records.last().attrs,
        )
    }
}

/// Every span that the rules ask for in several records of a payload.
pub open spec fn redactions(
    rules: Seq<EngineRule>,
    raw: Seq<u8>,
    records: Seq<RecordModel>,
) -> Seq<StageRedaction> {
    spans_in(rules, record_scans(raw, records))
}

/// Without rules nothing is masked.
pub proof fn law_no_rules_no_spans(rules: Seq<EngineRule>, scanned: Seq<Scan>)
    requires
        rules.len() == 0,
    ensures
        spans_in(rules, scanned).len() == 0,
    decreases scanned.len(),
{
    if scanned.len() > 0 {
        law_no_rules_no_spans(rules, scanned.drop_last());
    }
}

proof fn lemma_match_is_asked_for(rules: Seq<EngineRule>, scan: Scan, i: int, j: int)
    requires
        0 <= i < rules.len(),
        scan.field.len() > 0,
        scans(rules[i].fields, scan.key),
        0 <= j < pattern::matches_of(rules[i].pattern, scan.field).len(),
    ensures
        field_spans(rules, scan).contains(
            span_at(rules[i], scan, pattern::matches_of(rules[i].pattern, scan.field)[j]),
        ),
    decreases rules.len(),
{
    let front = field_spans(rules.drop_last(), scan);
    let last = rule_spans(rules.last(), scan);
    let m = pattern::matches_of(rules[i].pattern, scan.field)[j];
    if i < rules.len() - 1 {
        lemma_match_is_asked_for(rules.drop_last(), scan, i, j);
        let k = choose|k: int| 0 <= k < front.len() && front[k] == span_at(rules[i], scan, m);
        assert(field_spans(rules, scan)[k] == front[k]);
    } else {
        assert(last[j] == span_at(rules[i], scan, m));
        assert(field_spans(rules, scan)[front.len() + j] == last[j]);
    }
}

/// Every match of a rule in a field that it scans is asked to be masked.
pub proof fn law_every_match_is_asked_for(
    rules: Seq<EngineRule>,
    scanned: Seq<Scan>,
    i: int,
    k: int,
    j: int,
)
    requires
        0 <= i < rules.len(),
        0 <= k < scanned.len(),
        scanned[k].field.len() > 0,
        scans(rules[i].fields, scanned[k].key),
        0 <= j < pattern::matches_of(rules[i].pattern, scanned[k].field).len(),
    ensures
        spans_in(rules, scanned).contains(
            span_at(rules[i], scanned[k], pattern::matches_of(rules[i].pattern, scanned[k].field)[j]),
        ),
    decreases scanned.len(),
{
    let front = spans_in(rules, scanned.drop_last());
    let last = field_spans(rules, scanned.last());
    let m = pattern::matches_of(rules[i].pattern, scanned[k].field)[j];
    let asked = span_at(rules[i], scanned[k], m);
    if k < scanned.len() - 1 {
        law_every_match_is_asked_for(rules, scanned.drop_last(), i, k, j);
        let n = choose|n: int| 0 <= n < front.len() && front[n] == asked;
        assert(spans_in(rules, scanned)[n] == front[n]);
    } else {
        lemma_match_is_asked_for(rules, scanned.last(), i, j);
        let n = choose|n: int| 0 <= n < last.len() && last[n] == asked;
        assert(spans_in(rules, scanned)[front.len() + n] == last[n]);
    }
}

/// A part of several scans is scanned where they are.
proof fn lemma_record_scans_grow(raw: Seq<u8>, records: Seq<RecordModel>, r: int, scan: Scan)
    requires
        0 <= r < records.len(),
        (body_scan(raw, r, records[r]) + attr_scans(raw, r, records[r].attrs)).contains(scan),
    ensures
        record_scans(raw, records).contains(scan),
    decreases records.len(),
{
    let idx = records.len() - 1;
    let front = record_scans(raw, records.drop_last());
    let own = body_scan(raw, idx, records.last()) + attr_scans(raw, idx, records.last().attrs);
    let all = record_scans(raw, records);
    assert(all =~= front + own);
    if r < idx {
        assert(records.drop_last()[r] == records[r]);
        lemma_record_scans_grow(raw, records.drop_last(), r, scan);
        let n = choose|n: int| 0 <= n < front.len() && front[n] == scan;
        assert(all[n] == scan);
    } else {
        let n = choose|n: int| 0 <= n < own.len() && own[n] == scan;
        assert(all[front.len() + n] == scan);
    }
}

proof fn lemma_attr_is_scanned(
    raw: Seq<u8>,
    idx: int,
    attrs: Seq<((int, int), (int, int))>,
    k: int,
    scan: Scan,
)
    requires
        0 <= k < attrs.len(),
        attr_scan(raw, idx, attrs[k]) == seq![scan],
    ensures
        attr_scans(raw, idx, attrs).contains(scan),
    decreases attrs.len(),
{
    let front = attr_scans(raw, idx, attrs.drop_last());
    let last = attr_scan(raw, idx, attrs.last());
    let all = attr_scans(raw, idx, attrs);
    if k < attrs.len() - 1 {
        lemma_attr_is_scanned(raw, idx, attrs.drop_last(), k, scan);
        let n = choose|n: int| 0 <= n < front.len() && front[n] == scan;
        assert(all[n] == scan);
    } else {
        assert(last[0] == scan);
        assert(all[front.len() as int] == scan);
    }
}

/// Every match in a body is masked: in every record, for every rule that
/// scans bodies, and for every match of its pattern in the bytes of the body,
/// a span over exactly that match, with the mask of the rule, is asked for.
pub proof fn law_every_match_in_a_body_is_asked_for(
    rules: Seq<EngineRule>,
    raw: Seq<u8>,
    records: Seq<RecordModel>,
    r: int,
    i: int,
    n: int,
    j: int,
)
    requires
        0 <= r < records.len(),
        0 <= records[r].body.0 < records[r].body.1 <= raw.len(),
        0 <= i < rules.len(),
        0 <= n < rules[i].fields.len(),
        rules[i].fields[n] is Body,
        0 <= j < pattern::matches_of(
            rules[i].pattern,
            raw.subrange(records[r].body.0, records[r].body.1),
        ).len(),
    ensures
        ({
            let at = records[r].body.0;
            let m = pattern::matches_of(
                rules[i].pattern,
                raw.subrange(records[r].body.0, records[r].body.1),
            )[j];
            redactions(rules, raw, records).contains(
                StageRedaction {
                    stage: StageId("redact-regex"),
                    record: r as usize,
                    redaction: Redaction {
                        target: Range { start: (at + m.0) as usize, end: (at + m.1) as usize },
                        mask: MaskId(rules[i].mask),
                    },
                },
            )
        }),
{
    let rec = records[r];
    let field = raw.subrange(rec.body.0, rec.body.1);
    let scan = Scan { record: r, base: rec.body.0, key: None, field };
    let own = body_scan(raw, r, rec) + attr_scans(raw, r, rec.attrs);
    assert(own[0] == scan);
    lemma_record_scans_grow(raw, records, r, scan);
    let scanned = record_scans(raw, records);
    let k = choose|k: int| 0 <= k < scanned.len() && scanned[k] == scan;
    assert(selects(rules[i].fields[n], None));
    law_every_match_is_asked_for(rules, scanned, i, k, j);
}

/// Every match in a selected attribute is masked: in every record, for every
/// one of its attributes, for every rule that has a pattern which the key
/// matches, and for every match of the rule's pattern in the bytes of the
/// value, a span over exactly that match, with the mask of the rule, is asked
/// for.
pub proof fn law_every_match_in_an_attribute_is_asked_for(
    rules: Seq<EngineRule>,
    raw: Seq<u8>,
    records: Seq<RecordModel>,
    r: int,
    k: int,
    i: int,
    n: int,
    j: int,
)
    requires
        0 <= r < records.len(),
        0 <= k < records[r].attrs.len(),
        ({
            let (key, value) = records[r].attrs[k];
            &&& 0 <= key.0 <= key.1 <= raw.len()
            &&& 0 <= value.0 < value.1 <= raw.len()
            &&& 0 <= i < rules.len()
            &&& 0 <= n < rules[i].fields.len()
            &&& rules[i].fields[n] is Attrs
            &&& glob::glob(
                vstd::utf8::encode_utf8(rules[i].fields[n]->Attrs_0),
                raw.subrange(key.0, key.1),
            )
            &&& 0 <= j < pattern::matches_of(
                rules[i].pattern,
                raw.subrange(value.0, value.1),
            ).len()
        }),
    ensures
        ({
            let (key, value) = records[r].attrs[k];
            let m = pattern::matches_of(rules[i].pattern, raw.subrange(value.0, value.1))[j];
            redactions(rules, raw, records).contains(
                StageRedaction {
                    stage: StageId("redact-regex"),
                    record: r as usize,
                    redaction: Redaction {
                        target: Range {
                            start: (value.0 + m.0) as usize,
                            end: (value.0 + m.1) as usize,
                        },
                        mask: MaskId(rules[i].mask),
                    },
                },
            )
        }),
{
    let rec = records[r];
    let (key, value) = rec.attrs[k];
    let field = raw.subrange(value.0, value.1);
    let name = raw.subrange(key.0, key.1);
    let scan = Scan { record: r, base: value.0, key: Some(name), field };
    let body = body_scan(raw, r, rec);
    let attrs = attr_scans(raw, r, rec.attrs);
    lemma_attr_is_scanned(raw, r, rec.attrs, k, scan);
    let at = choose|at: int| 0 <= at < attrs.len() && attrs[at] == scan;
    assert((body + attrs)[body.len() + at] == scan);
    lemma_record_scans_grow(raw, records, r, scan);
    let scanned = record_scans(raw, records);
    let place = choose|place: int| 0 <= place < scanned.len() && scanned[place] == scan;
    assert(selects(rules[i].fields[n], Some(name)));
    law_every_match_is_asked_for(rules, scanned, i, place, j);
}

/// Whether a span covers a match of rule `i` in the string at `at` of record
/// `r`.
pub open spec fn covers_a_match(
    e: StageRedaction,
    rules: Seq<EngineRule>,
    raw: Seq<u8>,
    r: int,
    i: int,
    at: (int, int),
) -> bool {
    &&& 0 <= i < rules.len()
    &&& e.record == r as usize
    &&& e.redaction.mask.0 == rules[i].mask
    &&& 0 <= at.0 < at.1 <= raw.len()
    &&& exists|j: int|
        {
            &&& 0 <= j < pattern::matches_of(rules[i].pattern, raw.subrange(at.0, at.1)).len()
            &&& e.redaction.target.start == (at.0 + (#[trigger] pattern::matches_of(
                rules[i].pattern,
                raw.subrange(at.0, at.1),
            )[j]).0) as usize
            &&& e.redaction.target.end == (at.0 + pattern::matches_of(
                rules[i].pattern,
                raw.subrange(at.0, at.1),
            )[j].1) as usize
        }
}

proof fn lemma_field_span_has_a_rule(rules: Seq<EngineRule>, scan: Scan, e: StageRedaction) -> (i:
    int)
    requires
        field_spans(rules, scan).contains(e),
    ensures
        0 <= i < rules.len(),
        rule_spans(rules[i], scan).contains(e),
    decreases rules.len(),
{
    let front = field_spans(rules.drop_last(), scan);
    let last = rule_spans(rules.last(), scan);
    let n = choose|n: int| 0 <= n < (front + last).len() && (front + last)[n] == e;
    if n < front.len() {
        assert(front[n] == e);
        lemma_field_span_has_a_rule(rules.drop_last(), scan, e)
    } else {
        assert(last[n - front.len()] == e);
        rules.len() - 1
    }
}

proof fn lemma_span_has_a_scan(rules: Seq<EngineRule>, scanned: Seq<Scan>, e: StageRedaction) -> (k:
    int)
    requires
        spans_in(rules, scanned).contains(e),
    ensures
        0 <= k < scanned.len(),
        field_spans(rules, scanned[k]).contains(e),
    decreases scanned.len(),
{
    let front = spans_in(rules, scanned.drop_last());
    let last = field_spans(rules, scanned.last());
    let n = choose|n: int| 0 <= n < (front + last).len() && (front + last)[n] == e;
    if n < front.len() {
        assert(front[n] == e);
        lemma_span_has_a_scan(rules, scanned.drop_last(), e)
    } else {
        assert(last[n - front.len()] == e);
        scanned.len() - 1
    }
}

proof fn lemma_scan_has_an_attr(
    raw: Seq<u8>,
    idx: int,
    attrs: Seq<((int, int), (int, int))>,
    scan: Scan,
) -> (k: int)
    requires
        attr_scans(raw, idx, attrs).contains(scan),
    ensures
        0 <= k < attrs.len(),
        attr_scan(raw, idx, attrs[k]) == seq![scan],
    decreases attrs.len(),
{
    let front = attr_scans(raw, idx, attrs.drop_last());
    let last = attr_scan(raw, idx, attrs.last());
    let n = choose|n: int| 0 <= n < (front + last).len() && (front + last)[n] == scan;
    if n < front.len() {
        assert(front[n] == scan);
        lemma_scan_has_an_attr(raw, idx, attrs.drop_last(), scan)
    } else {
        assert(last[n - front.len()] == scan);
        assert(last =~= seq![scan]);
        attrs.len() - 1
    }
}

proof fn lemma_scan_has_a_record(raw: Seq<u8>, records: Seq<RecordModel>, scan: Scan) -> (r: int)
    requires
        record_scans(raw, records).contains(scan),
    ensures
        0 <= r < records.len(),
        body_scan(raw, r, records[r]).contains(scan) || attr_scans(
            raw,
            r,
            records[r].attrs,
        ).contains(scan),
    decreases records.len(),
{
    let idx = records.len() - 1;
    let front = record_scans(raw, records.drop_last());
    let body = body_scan(raw, idx, records.last());
    let attrs = attr_scans(raw, idx, records.last().attrs);
    let all = front + body + attrs;
    let n = choose|n: int| 0 <= n < all.len() && all[n] == scan;
    if n < front.len() {
        assert(front[n] == scan);
        let r = lemma_scan_has_a_record(raw, records.drop_last(), scan);
        assert(records.drop_last()[r] == records[r]);
        r
    } else if n < front.len() + body.len() {
        assert(body[n - front.len()] == scan);
        idx
    } else {
        assert(attrs[n - front.len() - body.len()] == scan);
        idx
    }
}

/// Nothing else is masked: every span that is asked for covers a match of some
/// rule in the body of some record, where the rule scans bodies, or in the
/// value of one of its attributes, where the rule has a pattern which the key
/// matches.
pub proof fn law_only_matches_are_asked_for(
    rules: Seq<EngineRule>,
    raw: Seq<u8>,
    records: Seq<RecordModel>,
    e: StageRedaction,
)
    requires
        redactions(rules, raw, records).contains(e),
    ensures
        e.stage@ == "redact-regex"@,
        exists|r: int, i: int, n: int|
            {
                &&& 0 <= r < records.len()
                &&& 0 <= i < rules.len()
                &&& 0 <= n < rules[i].fields.len()
                &&& match #[trigger] rules[i].fields[n] {
                    Selector::Body => covers_a_match(
                        e,
                        rules,
                        raw,
                        r,
                        i,
                        (#[trigger] records[r]).body,
                    ),
                    Selector::Attrs(g) => exists|k: int|
                        {
                            &&& 0 <= k < records[r].attrs.len()
                            &&& covers_a_match(
                                e,
                                rules,
                                raw,
                                r,
                                i,
                                (#[trigger] records[r].attrs[k]).1,
                            )
                            &&& ({
                                let key = records[r].attrs[k].0;
                                &&& 0 <= key.0 <= key.1 <= raw.len()
                                &&& glob::glob(
                                    vstd::utf8::encode_utf8(g),
                                    raw.subrange(key.0, key.1),
                                )
                            })
                        },
                }
            },
{
    let scanned = record_scans(raw, records);
    let s = lemma_span_has_a_scan(rules, scanned, e);
    let scan = scanned[s];
    let i = lemma_field_span_has_a_rule(rules, scan, e);
    let rule = rules[i];
    let ms = pattern::matches_of(rule.pattern, scan.field);
    let spans = rule_spans(rule, scan);
    let j = choose|j: int| 0 <= j < spans.len() && spans[j] == e;
    assert(e == span_at(rule, scan, ms[j]));
    let n = choose|n: int| 0 <= n < rule.fields.len() && selects(#[trigger] rule.fields[n], scan.key);
    assert(record_scans(raw, records).contains(scan));
    let r = lemma_scan_has_a_record(raw, records, scan);
    let rec = records[r];
    if body_scan(raw, r, rec).contains(scan) {
        assert(scan.key is None);
        assert(raw.subrange(rec.body.0, rec.body.1) == scan.field);
        assert(covers_a_match(e, rules, raw, r, i, rec.body));
    } else {
        let k = lemma_scan_has_an_attr(raw, r, rec.attrs, scan);
        assert(attr_scan(raw, r, rec.attrs[k])[0] == scan);
        assert(raw.subrange(rec.attrs[k].1.0, rec.attrs[k].1.1) == scan.field);
        assert(covers_a_match(e, rules, raw, r, i, rec.attrs[k].1));
    }
}

/// A record without attributes adds the matches of its body, where the rule
/// scans bodies, and nothing else.
pub proof fn law_a_body_adds_its_matches(
    rule: EngineRule,
    raw: Seq<u8>,
    records: Seq<RecordModel>,
    rec: RecordModel,
)
    requires
        rec.attrs.len() == 0,
        0 <= rec.body.0 < rec.body.1 <= raw.len(),
    ensures
        hits_in(rule, record_scans(raw, Seq::empty())) == 0,
        (exists|n: int| 0 <= n < rule.fields.len() && #[trigger] rule.fields[n] is Body)
            ==> hits_in(rule, record_scans(raw, records.push(rec))) == hits_in(
            rule,
            record_scans(raw, records),
        ) + pattern::matches_of(rule.pattern, raw.subrange(rec.body.0, rec.body.1)).len(),
        !(exists|n: int| 0 <= n < rule.fields.len() && #[trigger] rule.fields[n] is Body)
            ==> hits_in(rule, record_scans(raw, records.push(rec))) == hits_in(
            rule,
            record_scans(raw, records),
        ),
{
    let field = raw.subrange(rec.body.0, rec.body.1);
    let scan = Scan { record: records.len() as int, base: rec.body.0, key: None, field };
    let before = record_scans(raw, records);
    let all = record_scans(raw, records.push(rec));
    assert(records.push(rec).drop_last() =~= records);
    assert(all =~= before.push(scan));
    assert(all.drop_last() =~= before);
    if exists|n: int| 0 <= n < rule.fields.len() && #[trigger] rule.fields[n] is Body {
        let n = choose|n: int| 0 <= n < rule.fields.len() && #[trigger] rule.fields[n] is Body;
        assert(selects(rule.fields[n], None));
    }
}

/// One more attribute adds the matches of its value, where the rule has a
/// pattern which the key matches, and nothing else.
pub proof fn law_an_attribute_adds_its_matches(
    rule: EngineRule,
    raw: Seq<u8>,
    records: Seq<RecordModel>,
    rec: RecordModel,
    key: (int, int),
    value: (int, int),
)
    requires
        0 <= key.0 <= key.1 <= raw.len(),
        0 <= value.0 < value.1 <= raw.len(),
    ensures
        ({
            let more = RecordModel { attrs: rec.attrs.push((key, value)), ..rec };
            let before = hits_in(rule, record_scans(raw, records.push(rec)));
            let after = hits_in(rule, record_scans(raw, records.push(more)));
            if exists|n: int|
                0 <= n < rule.fields.len() && #[trigger] rule.fields[n] is Attrs && glob::glob(
                    vstd::utf8::encode_utf8(rule.fields[n]->Attrs_0),
                    raw.subrange(key.0, key.1),
                ) {
                after == before + pattern::matches_of(
                    rule.pattern,
                    raw.subrange(value.0, value.1),
                ).len()
            } else {
                after == before
            }
        }),
{
    let more = RecordModel { attrs: rec.attrs.push((key, value)), ..rec };
    let name = raw.subrange(key.0, key.1);
    let field = raw.subrange(value.0, value.1);
    let idx = records.len() as int;
    let scan = Scan { record: idx, base: value.0, key: Some(name), field };
    let before = record_scans(raw, records.push(rec));
    let after = record_scans(raw, records.push(more));
    assert(records.push(rec).drop_last() =~= records);
    assert(records.push(more).drop_last() =~= records);
    assert(more.attrs.drop_last() =~= rec.attrs);
    assert(after =~= before.push(scan));
    assert(after.drop_last() =~= before);
    if exists|n: int|
        0 <= n < rule.fields.len() && #[trigger] rule.fields[n] is Attrs && glob::glob(
            vstd::utf8::encode_utf8(rule.fields[n]->Attrs_0),
            name,
        ) {
        let n = choose|n: int|
            0 <= n < rule.fields.len() && #[trigger] rule.fields[n] is Attrs && glob::glob(
                vstd::utf8::encode_utf8(rule.fields[n]->Attrs_0),
                name,
            );
        assert(selects(rule.fields[n], Some(name)));
    }
}

/// As many spans are asked for as matches are counted, rule by rule.
pub proof fn law_every_span_is_counted(
    rules: Seq<EngineRule>,
    rule: EngineRule,
    raw: Seq<u8>,
    records: Seq<RecordModel>,
)
    ensures
        redactions(Seq::empty(), raw, records).len() == 0,
        redactions(rules.push(rule), raw, records).len() == redactions(rules, raw, records).len()
            + hits_in(rule, record_scans(raw, records)),
{
    law_no_rules_no_spans(Seq::empty(), record_scans(raw, records));
    lemma_spans_counted(rules, rule, record_scans(raw, records));
}

proof fn lemma_spans_counted(rules: Seq<EngineRule>, rule: EngineRule, scanned: Seq<Scan>)
    ensures
        spans_in(rules.push(rule), scanned).len() == spans_in(rules, scanned).len() + hits_in(
            rule,
            scanned,
        ),
    decreases scanned.len(),
{
    assert(rules.push(rule).drop_last() =~= rules);
    if scanned.len() > 0 {
        lemma_spans_counted(rules, rule, scanned.drop_last());
    }
}

/// Spans are asked for record by record, within a record field by field, and
/// within a field rule by rule.
pub proof fn law_spans_are_asked_for_in_order(
    rules: Seq<EngineRule>,
    rule: EngineRule,
    raw: Seq<u8>,
    records: Seq<RecordModel>,
    rec: RecordModel,
    attr: ((int, int), (int, int)),
)
    ensures
        redactions(rules, raw, records).is_prefix_of(redactions(rules, raw, records.push(rec))),
        redactions(rules, raw, records.push(rec)).is_prefix_of(
            redactions(
                rules,
                raw,
                records.push(RecordModel { attrs: rec.attrs.push(attr), ..rec }),
            ),
        ),
        rec.attrs.len() == 0 ==> redactions(rules.push(rule), raw, seq![rec]) == redactions(
            rules,
            raw,
            seq![rec],
        ) + redactions(seq![rule], raw, seq![rec]),
{
    let more = RecordModel { attrs: rec.attrs.push(attr), ..rec };
    let idx = records.len() as int;
    let before = record_scans(raw, records);
    let body = body_scan(raw, idx, rec);
    let attrs = attr_scans(raw, idx, rec.attrs);
    let one = attr_scan(raw, idx, attr);
    assert(records.push(rec).drop_last() =~= records);
    assert(records.push(more).drop_last() =~= records);
    assert(more.attrs.drop_last() =~= rec.attrs);
    assert(record_scans(raw, records.push(rec)) =~= before + (body + attrs));
    assert(record_scans(raw, records.push(more)) =~= (before + body + attrs) + one);
    assert(record_scans(raw, records.push(rec)) =~= before + body + attrs);
    lemma_spans_grow(rules, before, body + attrs);
    lemma_spans_grow(rules, before + body + attrs, one);
    if rec.attrs.len() == 0 {
        let field = body_scan(raw, 0, rec);
        let none = Seq::<RecordModel>::empty();
        assert(seq![rec].drop_last() =~= none);
        assert(seq![rec].last() == rec);
        assert(record_scans(raw, none) =~= Seq::<Scan>::empty());
        assert(attr_scans(raw, 0, rec.attrs) =~= Seq::<Scan>::empty());
        reveal_with_fuel(record_scans, 2);
        assert(record_scans(raw, seq![rec]) =~= field);
        assert(rules.push(rule).drop_last() =~= rules);
        assert(seq![rule].drop_last() =~= Seq::empty());
        reveal_with_fuel(spans_in, 3);
        reveal_with_fuel(field_spans, 3);
        if field.len() == 1 {
            let scan = field[0];
            assert(field.drop_last() =~= Seq::empty());
            assert(field.last() == scan);
            let empty = Seq::<StageRedaction>::empty();
            assert(spans_in(rules, field) =~= field_spans(rules, scan));
            assert(spans_in(rules.push(rule), field) =~= field_spans(rules, scan) + rule_spans(
                rule,
                scan,
            ));
            assert(spans_in(seq![rule], field) =~= rule_spans(rule, scan));
        } else {
            assert(redactions(rules.push(rule), raw, seq![rec]) =~= redactions(
                rules,
                raw,
                seq![rec],
            ) + redactions(seq![rule], raw, seq![rec]));
        }
    }
}

proof fn lemma_spans_grow(rules: Seq<EngineRule>, a: Seq<Scan>, b: Seq<Scan>)
    ensures
        spans_in(rules, a).is_prefix_of(spans_in(rules, a + b)),
    decreases b.len(),
{
    if b.len() == 0 {
        assert(a + b =~= a);
    } else {
        lemma_spans_grow(rules, a, b.drop_last());
        assert((a + b).drop_last() =~= a + b.drop_last());
        let x = spans_in(rules, a);
        let y = spans_in(rules, a + b.drop_last());
        let z = y + field_spans(rules, b.last());
        assert(x =~= z.subrange(0, x.len() as int)) by {
            assert(x == y.subrange(0, x.len() as int));
        }
    }
}

/// Whether every span names one of the first `n` masks.
pub open spec fn uses_masks(spans: Seq<StageRedaction>, n: nat) -> bool {
    forall|i: int| 0 <= i < spans.len() ==> (#[trigger] spans[i]).redaction.mask.0 < n
}

proof fn lemma_field_spans_use_rule_masks(rules: Seq<EngineRule>, scan: Scan, n: nat)
    requires
        forall|i: int| 0 <= i < rules.len() ==> (#[trigger] rules[i]).mask < n,
    ensures
        uses_masks(field_spans(rules, scan), n),
    decreases rules.len(),
{
    if rules.len() > 0 {
        assert(rules.last() == rules[rules.len() - 1]);
        lemma_field_spans_use_rule_masks(rules.drop_last(), scan, n);
    }
}

/// A span names the mask of the rule that asked for it.
pub proof fn lemma_spans_use_rule_masks(rules: Seq<EngineRule>, scanned: Seq<Scan>, n: nat)
    requires
        forall|i: int| 0 <= i < rules.len() ==> (#[trigger] rules[i]).mask < n,
    ensures
        uses_masks(spans_in(rules, scanned), n),
    decreases scanned.len(),
{
    if scanned.len() > 0 {
        lemma_spans_use_rule_masks(rules, scanned.drop_last(), n);
        lemma_field_spans_use_rule_masks(rules, scanned.last(), n);
    }
}

/// Rules that have no match in a field ask for nothing there.
proof fn lemma_silent_rules(rules: Seq<EngineRule>, scan: Scan, from: int, to: int)
    requires
        0 <= from <= to <= rules.len(),
        forall|i: int| from <= i < to ==> rule_spans(#[trigger] rules[i], scan).len() == 0,
    ensures
        field_spans(rules.take(to), scan) == field_spans(rules.take(from), scan),
    decreases to - from,
{
    if from < to {
        assert(rules.take(to).drop_last() =~= rules.take(to - 1));
        assert(rule_spans(rules[to - 1], scan).len() == 0);
        lemma_silent_rules(rules, scan, from, to - 1);
        assert(field_spans(rules.take(to - 1), scan) + rule_spans(rules[to - 1], scan)
            =~= field_spans(rules.take(to - 1), scan));
    }
}

impl RedactEngine {
    /// The bytes of a mask, where the engine has it.
    pub fn mask_bytes(&self, id: MaskId) -> (r: Option<&[u8]>)
        ensures
            match r {
                Some(b) => id.0 < self.mask_texts().len() && b@ == vstd::utf8::encode_utf8(
                    self.mask_texts()[id.0 as int],
                ),
                None => id.0 >= self.mask_texts().len(),
            },
    {
        if (id.0 as usize) < self.masks.len() {
            Some(self.masks[id.0 as usize].as_str().as_bytes())
        } else {
            None
        }
    }

    /// How many rules there are.
    pub(crate) fn rule_count(&self) -> (r: usize)
        ensures
            r == self.rules().len(),
    {
        self.rules.len()
    }

    /// The names of the rules, in order.
    pub fn rule_names(&self) -> (r: Vec<&str>)
        ensures
            r@.len() == self.rules().len(),
            forall|i: int| 0 <= i < r@.len() ==> (#[trigger] r@[i])@ == self.rules()[i].name,
    {
        let mut out: Vec<&str> = Vec::new();
        let mut i: usize = 0;
        while i < self.rules.len()
            invariant
                i <= self.rules@.len(),
                out@.len() == i,
                forall|j: int| 0 <= j < i ==> (#[trigger] out@[j])@ == self.rules()[j].name,
            decreases self.rules@.len() - i,
        {
            out.push(self.rules[i].name.as_str());
            i = i + 1;
        }
        out
    }

    /// All masks, in mask id order.
    pub fn masks(&self) -> (r: Vec<&str>)
        ensures
            pattern::texts(r@) == self.mask_texts(),
    {
        let mut out: Vec<&str> = Vec::new();
        let mut i: usize = 0;
        while i < self.masks.len()
            invariant
                i <= self.masks@.len(),
                out@.len() == i,
                forall|j: int| 0 <= j < i ==> (#[trigger] out@[j])@ == self.mask_texts()[j],
            decreases self.masks@.len() - i,
        {
            out.push(self.masks[i].as_str());
            i = i + 1;
        }
        assert(pattern::texts(out@) =~= self.mask_texts());
        out
    }
}

/// A count that has grown, in 64 bits.
pub open spec fn counted(count: u64, more: nat) -> u64 {
    ((count + more) % 0x1_0000_0000_0000_0000) as u64
}

/// Counts add up, whichever was counted first.
pub proof fn law_counting_order_does_not_matter(count: u64, a: nat, b: nat)
    ensures
        counted(counted(count, a), b) == counted(count, a + b),
        counted(counted(count, a), b) == counted(counted(count, b), a),
{
    let m: int = 0x1_0000_0000_0000_0000;
    vstd::arithmetic::div_mod::lemma_add_mod_noop_right(b as int, count + a, m);
    vstd::arithmetic::div_mod::lemma_add_mod_noop_right(a as int, count + b, m);
}

/// The redaction stage: an engine and a match counter for each rule.
#[derive(Debug)]
pub struct RedactStage {
    engine: RedactEngine,
    counts: Vec<u64>,
}

impl RedactStage {
    #[verifier::type_invariant]
    spec fn inv(self) -> bool {
        self.counts@.len() == self.engine.rules@.len()
    }

    /// The rules, in order.
    pub closed spec fn rules(self) -> Seq<EngineRule> {
        self.engine.rules()
    }

    /// The mask texts, by mask id.
    pub closed spec fn mask_texts(self) -> Seq<Seq<char>> {
        self.engine.mask_texts()
    }

    /// Matches so far, rule by rule, in 64 bits.
    pub closed spec fn tally(self) -> Seq<u64> {
        self.counts@
    }

    pub fn new(engine: RedactEngine) -> (s: Self)
        ensures
            s.rules() == engine.rules(),
            s.mask_texts() == engine.mask_texts(),
            s.tally() == Seq::new(engine.rules().len(), |i: int| 0u64),
    {
        let mut counts: Vec<u64> = Vec::new();
        let mut i: usize = 0;
        while i < engine.rules.len()
            invariant
                i <= engine.rules@.len(),
                counts@ == Seq::new(i as nat, |i: int| 0u64),
            decreases engine.rules@.len() - i,
        {
            counts.push(0);
            assert(counts@ =~= Seq::new((i + 1) as nat, |i: int| 0u64));
            i = i + 1;
        }
        RedactStage { engine, counts }
    }

    pub fn engine(&self) -> (r: &RedactEngine)
        ensures
            r.rules() == self.rules(),
            r.mask_texts() == self.mask_texts(),
    {
        &self.engine
    }

    /// Match counts with the names of their rules, in rule order.
    pub fn counts(&self) -> (r: Vec<(&str, u64)>)
        ensures
            r@.len() == self.rules().len(),
            forall|i: int|
                0 <= i < r@.len() ==> (#[trigger] r@[i]).0@ == self.rules()[i].name && r@[i].1
                    == self.tally()[i],
    {
        proof {
            use_type_invariant(self);
        }
        let mut out: Vec<(&str, u64)> = Vec::new();
        let mut i: usize = 0;
        while i < self.engine.rules.len()
            invariant
                i <= self.engine.rules@.len(),
                self.counts@.len() == self.engine.rules@.len(),
                out@.len() == i,
                forall|j: int|
                    0 <= j < i ==> (#[trigger] out@[j]).0@ == self.rules()[j].name && out@[j].1
                        == self.tally()[j],
            decreases self.engine.rules@.len() - i,
        {
            out.push((self.engine.rules[i].name.as_str(), self.counts[i]));
            i = i + 1;
        }
        out
    }
}

/// Adds the spans that the rules ask for in one field, and counts them.
fn redact_field(
    engine: &RedactEngine,
    counts: &mut Vec<u64>,
    field: &[u8],
    base: usize,
    record: usize,
    key: Option<&[u8]>,
    decisions: &mut Decisions,
)
    requires
        old(counts)@.len() == engine.rules().len(),
        base + field@.len() <= usize::MAX,
    ensures
        ({
            let scan = Scan {
                record: record as int,
                base: base as int,
                key: crate::policy::bytes_opt(key),
                field: field@,
            };
            &&& final(decisions).entries() == old(decisions).entries() + field_spans(
                engine.rules(),
                scan,
            )
            &&& final(decisions).verdicts() == old(decisions).verdicts()
            &&& envelope::spans_lie(
                final(decisions).entries(),
                old(decisions).entries().len() as int,
                base + field@.len(),
            )
            &&& final(counts)@.len() == old(counts)@.len()
            &&& forall|i: int|
                0 <= i < old(counts)@.len() ==> #[trigger] final(counts)@[i] == counted(
                    old(counts)@[i],
                    hits(engine.rules()[i], scan),
                )
        }),
{
    let ghost scan = Scan {
        record: record as int,
        base: base as int,
        key: crate::policy::bytes_opt(key),
        field: field@,
    };
    let ghost rules = engine.rules();
    let ghost entries = decisions.entries();
    let total: usize = engine.rules.len();
    proof {
        use_type_invariant(engine);
        assert(rules.take(0) =~= Seq::<EngineRule>::empty());
        assert(rules.take(rules.len() as int) =~= rules);
        assert(entries + field_spans(rules.take(0), scan) =~= entries);
    }
    if field.len() == 0 {
        proof {
            lemma_silent_rules(rules, scan, 0, rules.len() as int);
        }
        return;
    }
    let candidates = pattern::which_match(&engine.prefilter, field);
    let mut c: usize = 0;
    let ghost mut done: int = 0;
    while c < candidates.len()
        invariant
            c <= candidates@.len(),
            0 <= done <= rules.len(),
            rules == engine.rules(),
            rules.len() == engine.rules@.len() == total,
            engine.inv(),
            field@.len() > 0,
            base + field@.len() <= usize::MAX,
            scan == (Scan {
                record: record as int,
                base: base as int,
                key: crate::policy::bytes_opt(key),
                field: field@,
            }),
            counts@.len() == rules.len(),
            old(counts)@.len() == rules.len(),
            forall|i: int, j: int|
                0 <= i < j < candidates@.len() ==> (#[trigger] candidates@[i])
                    < (#[trigger] candidates@[j]),
            forall|k: int| 0 <= k < candidates@.len() ==> (#[trigger] candidates@[k]) < rules.len(),
            forall|i: int|
                0 <= i < rules.len() && pattern::matches_of(
                    (#[trigger] rules[i]).pattern,
                    field@,
                ).len() > 0 ==> candidates@.contains(i as usize),
            c > 0 ==> done == candidates@[c - 1] + 1,
            c == 0 ==> done == 0,
            decisions.verdicts() == old(decisions).verdicts(),
            decisions.entries() == entries + field_spans(rules.take(done), scan),
            entries == old(decisions).entries(),
            envelope::spans_lie(
                decisions.entries(),
                entries.len() as int,
                base + field@.len(),
            ),
            forall|i: int|
                0 <= i < done ==> #[trigger] counts@[i] == counted(
                    old(counts)@[i],
                    hits(rules[i], scan),
                ),
            forall|i: int|
                done <= i < rules.len() ==> #[trigger] counts@[i] == old(counts)@[i],
        decreases candidates@.len() - c,
    {
        let rule_idx: usize = candidates[c];
        let rule = &engine.rules[rule_idx];
        let ghost model = rules[rule_idx as int];
        proof {
            lemma_gap(rules, scan, candidates@, c as int, done, rule_idx as int);
            lemma_silent_rules(rules, scan, done, rule_idx as int);
            assert(rules.take(rule_idx + 1).drop_last() =~= rules.take(rule_idx as int));
            assert(rules.take(rule_idx + 1).last() == model);
            assert(model == rule.model());
        }
        let applies: bool = match key {
            None => rule.applies_to_body(),
            Some(k) => rule.applies_to_attr(k),
        };
        let ghost start = decisions.entries();
        if applies {
            let found = pattern::find_all(&rule.regex, field);
            let ghost wanted = rule_spans(model, scan);
            let mut m: usize = 0;
            assert(start + wanted.take(0) =~= start);
            while m < found.len()
                invariant
                    m <= found@.len(),
                    base + field@.len() <= usize::MAX,
                    pattern::offsets(found@) == pattern::matches_of(model.pattern, field@),
                    forall|i: int|
                        0 <= i < found@.len() ==> (#[trigger] found@[i]).0 <= found@[i].1
                            <= field@.len(),
                    model == rule.model(),
                    wanted == rule_spans(model, scan),
                    scans(model.fields, scan.key),
                    field@.len() > 0,
                    scan.field == field@,
                    scan.base == base,
                    scan.record == record,
                    wanted.len() == found@.len(),
                    decisions.verdicts() == old(decisions).verdicts(),
                    decisions.entries() == start + wanted.take(m as int),
                    envelope::spans_lie(
                        decisions.entries(),
                        entries.len() as int,
                        base + field@.len(),
                    ),
                decreases found@.len() - m,
            {
                let (lo, hi) = found[m];
                proof {
                    assert(pattern::offsets(found@)[m as int] == (lo as int, hi as int));
                    assert(wanted[m as int] == span_at(model, scan, (lo as int, hi as int)));
                    assert(wanted.take(m + 1) =~= wanted.take(m as int).push(wanted[m as int]));
                    assert(start + wanted.take(m as int).push(wanted[m as int]) =~= (start
                        + wanted.take(m as int)).push(wanted[m as int]));
                }
                decisions.push_redaction(
                    StageId(STAGE_REDACT_REGEX),
                    record,
                    Redaction { target: base + lo..base + hi, mask: rule.mask },
                );
                m = m + 1;
            }
            let n: u64 = found.len() as u64;
            let before: u64 = counts[rule_idx];
            counts.set(rule_idx, before.wrapping_add(n));
            proof {
                assert(wanted.take(m as int) =~= wanted);
                assert(pattern::offsets(found@).len() == found@.len());
            }
        } else {
            proof {
                assert(start + rule_spans(model, scan) =~= start);
            }
        }
        proof {
            assert((entries + field_spans(rules.take(rule_idx as int), scan)) + rule_spans(
                model,
                scan,
            ) =~= entries + field_spans(rules.take(rule_idx + 1), scan));
            done = rule_idx + 1;
        }
        c = c + 1;
    }
    proof {
        lemma_gap(rules, scan, candidates@, c as int, done, rules.len() as int);
        lemma_silent_rules(rules, scan, done, rules.len() as int);
    }
}

/// Between two candidates no rule has a match.
proof fn lemma_gap(
    rules: Seq<EngineRule>,
    scan: Scan,
    candidates: Seq<usize>,
    c: int,
    from: int,
    to: int,
)
    requires
        0 <= c <= candidates.len(),
        0 <= from,
        to <= rules.len(),
        forall|i: int, j: int|
            0 <= i < j < candidates.len() ==> (#[trigger] candidates[i]) < (#[trigger] candidates[j]),
        forall|i: int|
            0 <= i < rules.len() && pattern::matches_of(
                (#[trigger] rules[i]).pattern,
                scan.field,
            ).len() > 0 ==> candidates.contains(i as usize),
        c > 0 ==> from == candidates[c - 1] + 1,
        c < candidates.len() ==> to <= candidates[c],
        rules.len() <= usize::MAX,
    ensures
        forall|i: int|
            from <= i < to ==> rule_spans(#[trigger] rules[i], scan).len() == 0 && hits(
                rules[i],
                scan,
            ) == 0,
{
    assert forall|i: int| from <= i < to implies rule_spans(#[trigger] rules[i], scan).len() == 0
        && hits(rules[i], scan) == 0 by {
        if pattern::matches_of(rules[i].pattern, scan.field).len() > 0 {
            let k = choose|k: int| 0 <= k < candidates.len() && candidates[k] == i as usize;
            assert(candidates[k] == i);
            if k < c {
                if k < c - 1 {
                    assert(candidates[k] < candidates[c - 1]);
                }
            } else if k > c {
                assert(candidates[c] < candidates[k]);
            }
        }
    }
}

/// Spans that one stage asked for vanish with that stage.
proof fn lemma_own_spans_vanish(rules: Seq<EngineRule>, scanned: Seq<Scan>)
    ensures
        envelope::without_stage(spans_in(rules, scanned), STAGE_REDACT_REGEX@)
            =~= Seq::<StageRedaction>::empty(),
{
    lemma_spans_are_own(rules, scanned);
    let spans = spans_in(rules, scanned);
    let other = envelope::not_asked_by(STAGE_REDACT_REGEX@);
    if spans.filter(other).len() > 0 {
        let e = spans.filter(other)[0];
        spans.lemma_filter_pred(other, 0);
        assert(spans.filter(other).contains(e));
        spans.lemma_filter_contains_rev(other, e);
    }
}

proof fn lemma_field_spans_are_own(rules: Seq<EngineRule>, scan: Scan)
    ensures
        forall|i: int|
            0 <= i < field_spans(rules, scan).len() ==> (#[trigger] field_spans(rules, scan)[i]).stage@
                == STAGE_REDACT_REGEX@,
    decreases rules.len(),
{
    if rules.len() > 0 {
        lemma_field_spans_are_own(rules.drop_last(), scan);
        let head = field_spans(rules.drop_last(), scan);
        let tail = rule_spans(rules.last(), scan);
        assert forall|i: int| 0 <= i < field_spans(rules, scan).len() implies (
        #[trigger] field_spans(rules, scan)[i]).stage@ == STAGE_REDACT_REGEX@ by {
            if i < head.len() {
                assert(field_spans(rules, scan)[i] == head[i]);
            } else {
                assert(field_spans(rules, scan)[i] == tail[i - head.len()]);
            }
        }
    }
}

proof fn lemma_spans_are_own(rules: Seq<EngineRule>, scanned: Seq<Scan>)
    ensures
        forall|i: int|
            0 <= i < spans_in(rules, scanned).len() ==> (#[trigger] spans_in(rules, scanned)[i]).stage@
                == STAGE_REDACT_REGEX@,
    decreases scanned.len(),
{
    if scanned.len() > 0 {
        lemma_spans_are_own(rules, scanned.drop_last());
        lemma_field_spans_are_own(rules, scanned.last());
        let head = spans_in(rules, scanned.drop_last());
        let tail = field_spans(rules, scanned.last());
        assert forall|i: int| 0 <= i < spans_in(rules, scanned).len() implies (#[trigger] spans_in(
            rules,
            scanned,
        )[i]).stage@ == STAGE_REDACT_REGEX@ by {
            if i < head.len() {
                assert(spans_in(rules, scanned)[i] == head[i]);
            } else {
                assert(spans_in(rules, scanned)[i] == tail[i - head.len()]);
            }
        }
    }
}

/// Spans added, and matches counted, after some fields were scanned.
spec fn scanned_so_far(
    rules: Seq<EngineRule>,
    len: int,
    scanned: Seq<Scan>,
    before: Decisions,
    now: Decisions,
    counts_before: Seq<u64>,
    counts_now: Seq<u64>,
) -> bool {
    &&& now.verdicts() == before.verdicts()
    &&& now.entries() == before.entries() + spans_in(rules, scanned)
    &&& envelope::spans_lie(now.entries(), before.entries().len() as int, len)
    &&& counts_now.len() == counts_before.len()
    &&& counts_before.len() == rules.len()
    &&& forall|i: int|
        0 <= i < rules.len() ==> #[trigger] counts_now[i] == counted(
            counts_before[i],
            hits_in(rules[i], scanned),
        )
}

/// One more field is scanned.
proof fn lemma_scanned_one(
    rules: Seq<EngineRule>,
    len: int,
    scanned: Seq<Scan>,
    scan: Scan,
    before: Decisions,
    mid: Decisions,
    now: Decisions,
    counts_before: Seq<u64>,
    counts_mid: Seq<u64>,
    counts_now: Seq<u64>,
)
    requires
        scanned_so_far(rules, len, scanned, before, mid, counts_before, counts_mid),
        envelope::spans_lie(now.entries(), mid.entries().len() as int, len),
        now.verdicts() == mid.verdicts(),
        now.entries() == mid.entries() + field_spans(rules, scan),
        counts_now.len() == counts_mid.len(),
        forall|i: int|
            0 <= i < counts_mid.len() ==> #[trigger] counts_now[i] == counted(
                counts_mid[i],
                hits(rules[i], scan),
            ),
    ensures
        scanned_so_far(rules, len, scanned.push(scan), before, now, counts_before, counts_now),
{
    assert(scanned.push(scan).drop_last() =~= scanned);
    assert((before.entries() + spans_in(rules, scanned)) + field_spans(rules, scan)
        =~= before.entries() + (spans_in(rules, scanned) + field_spans(rules, scan)));
    assert forall|i: int| 0 <= i < rules.len() implies #[trigger] counts_now[i] == counted(
        counts_before[i],
        hits_in(rules[i], scanned.push(scan)),
    ) by {
        assert(counts_mid[i] == counted(counts_before[i], hits_in(rules[i], scanned)));
    }
}

/// Whether an envelope has been marked by rules: the spans that they ask for
/// stand behind those already there, their matches are counted, and nothing
/// else has changed.
pub open spec fn marked(
    rules: Seq<EngineRule>,
    env: Envelope,
    left: Envelope,
    before: Seq<u64>,
    after: Seq<u64>,
) -> bool {
    let raw = buffer::content(env.raw);
    let models = envelope::record_models(env.records@);
    &&& left.raw == env.raw
    &&& left.records == env.records
    &&& left.received_at == env.received_at
    &&& left.decisions.verdicts() == env.decisions.verdicts()
    &&& left.decisions.entries() == env.decisions.entries() + redactions(rules, raw, models)
    &&& envelope::spans_lie(
        left.decisions.entries(),
        env.decisions.entries().len() as int,
        raw.len() as int,
    )
    &&& before.len() == rules.len()
    &&& after.len() == rules.len()
    &&& forall|i: int|
        0 <= i < rules.len() ==> #[trigger] after[i] == counted(
            before[i],
            hits_in(rules[i], record_scans(raw, models)),
        )
}

/// A rule set is rejected exactly where a rule has no field, nests unbounded
/// repetition, or has a pattern that does not compile; the first such rule is
/// the one that is told of, and for the first of these reasons.
pub proof fn law_the_first_bad_rule_is_told(specs: Seq<RuleSpec>, size_limit: usize, i: int)
    requires
        0 <= i <= specs.len(),
    ensures
        match first_fault(specs, size_limit, i) {
            Some((k, fault)) => {
                &&& i <= k < specs.len()
                &&& forall|j: int|
                    i <= j < k ==> (#[trigger] specs[j]).fields@.len() > 0
                        && !lint::nested_repetition(vstd::utf8::encode_utf8(specs[j].pattern@))
                        && pattern::compiles(specs[j].pattern@, size_limit, usize::BITS)
                &&& match fault {
                    RuleFault::NoFields => specs[k].fields@.len() == 0,
                    RuleFault::NestedRepetition => specs[k].fields@.len() > 0
                        && lint::nested_repetition(vstd::utf8::encode_utf8(specs[k].pattern@)),
                    RuleFault::Regex => specs[k].fields@.len() > 0 && !lint::nested_repetition(
                        vstd::utf8::encode_utf8(specs[k].pattern@),
                    ) && !pattern::compiles(specs[k].pattern@, size_limit, usize::BITS),
                }
            },
            None => forall|j: int|
                i <= j < specs.len() ==> (#[trigger] specs[j]).fields@.len() > 0
                    && !lint::nested_repetition(vstd::utf8::encode_utf8(specs[j].pattern@))
                    && pattern::compiles(specs[j].pattern@, size_limit, usize::BITS),
        },
    decreases specs.len() - i,
{
    if i < specs.len() {
        law_the_first_bad_rule_is_told(specs, size_limit, i + 1);
    }
}

/// All rules together may take what one may, once for each of them.
pub proof fn law_the_limit_grows_with_the_rules(size_limit: usize, rules: nat)
    ensures
        rules > 0 && size_limit * rules <= usize::MAX ==> set_limit(size_limit, rules) == size_limit
            * rules,
        size_limit * rules > usize::MAX ==> set_limit(size_limit, rules) == usize::MAX,
        rules == 0 ==> set_limit(size_limit, rules) == size_limit,
{
    if rules == 0 {
        assert(size_limit * 1 == size_limit);
        assert(size_limit * rules == 0) by (nonlinear_arith)
            requires
                rules == 0,
        ;
    }
}

/// The mask table holds the masks of the rules and no others, in the order in
/// which they first come up: a further rule leaves it as it is, or adds its
/// own mask at the end.
pub proof fn law_masks_are_those_of_the_rules(specs: Seq<RuleSpec>, spec: RuleSpec)
    ensures
        mask_table(Seq::empty()).len() == 0,
        mask_table(specs).contains(spec.mask@) ==> mask_table(specs.push(spec)) == mask_table(
            specs,
        ),
        !mask_table(specs).contains(spec.mask@) ==> mask_table(specs.push(spec)) == mask_table(
            specs,
        ).push(spec.mask@),
{
    assert(specs.push(spec).drop_last() =~= specs);
}

/// What marking an envelope does: the spans that were there stay in front, the
/// spans that the rules ask for in its records follow, and each counter grows
/// by the matches of its rule.
pub proof fn law_marking_adds_what_is_asked_for(
    rules: Seq<EngineRule>,
    env: Envelope,
    left: Envelope,
    before: Seq<u64>,
    after: Seq<u64>,
)
    requires
        marked(rules, env, left, before, after),
    ensures
        left.raw == env.raw,
        left.records == env.records,
        left.decisions.verdicts() == env.decisions.verdicts(),
        left.decisions.entries() == env.decisions.entries() + redactions(
            rules,
            buffer::content(env.raw),
            envelope::record_models(env.records@),
        ),
        after.len() == rules.len(),
        forall|i: int|
            0 <= i < rules.len() ==> #[trigger] after[i] == (before[i] + hits_in(
                rules[i],
                record_scans(buffer::content(env.raw), envelope::record_models(env.records@)),
            )) % 0x1_0000_0000_0000_0000,
{
}

impl RedactEngine {
    /// Adds every span that the rules ask for to an envelope, and counts the
    /// matches rule by rule.
    pub fn mark(&self, env: &mut Envelope, counts: &mut Vec<u64>)
        requires
            old(counts)@.len() == self.rules().len(),
        ensures
            marked(self.rules(), *old(env), *final(env), old(counts)@, final(counts)@),
            envelope::without_stage(final(env).decisions.entries(), STAGE_REDACT_REGEX@)
                == envelope::without_stage(old(env).decisions.entries(), STAGE_REDACT_REGEX@),
    {
        let ghost rules = self.rules();
        let ghost raw = buffer::content(env.raw);
        let ghost models = envelope::record_models(env.records@);
        let ghost before = env.decisions;
        let ghost counts_before = counts@;
        let ghost mut scanned = Seq::<Scan>::empty();
        proof {
            assert(before.entries() + spans_in(rules, scanned) =~= before.entries());
            assert(record_scans(raw, models.take(0)) =~= scanned);
            assert(models.len() == env.records@.len());
        }
        let mut idx: usize = 0;
        while idx < env.records.len()
            invariant
                rules == self.rules(),
                counts@.len() == rules.len(),
                env.raw == old(env).raw,
                env.records == old(env).records,
                env.received_at == old(env).received_at,
                raw == buffer::content(env.raw),
                models == envelope::record_models(env.records@),
                models.len() == env.records@.len(),
                idx <= models.len(),
                before == old(env).decisions,
                counts_before == old(counts)@,
                scanned == record_scans(raw, models.take(idx as int)),
                scanned_so_far(
                    rules,
                    raw.len() as int,
                    scanned,
                    before,
                    env.decisions,
                    counts_before,
                    counts@,
                ),
            decreases models.len() - idx,
        {
            let rec = &env.records.items()[idx];
            let ghost model = models[idx as int];
            proof {
                assert(model == rec.model());
                assert(models.take(idx + 1).drop_last() =~= models.take(idx as int));
                assert(models.take(idx + 1).last() == model);
            }
            let ghost head = scanned;
            if let Some(body) = envelope::view_of(&env.raw, &rec.body) {
                let ghost mid = env.decisions;
                let ghost counts_mid = counts@;
                redact_field(
                    self,
                    counts,
                    body,
                    rec.body.start,
                    idx,
                    None,
                    &mut env.decisions,
                );
                proof {
                    let scan = Scan {
                        record: idx as int,
                        base: rec.body.start as int,
                        key: None,
                        field: body@,
                    };
                    lemma_scanned_one(
                        rules,
                        raw.len() as int,
                        scanned,
                        scan,
                        before,
                        mid,
                        env.decisions,
                        counts_before,
                        counts_mid,
                        counts@,
                    );
                    scanned = scanned.push(scan);
                }
            }
            proof {
                assert(scanned =~= head + body_scan(raw, idx as int, model));
            }
            let ghost middle = scanned;
            let ghost attrs = model.attrs;
            let mut a: usize = 0;
            proof {
                assert(middle + attr_scans(raw, idx as int, attrs.take(0)) =~= middle);
                assert(attrs.len() == rec.attrs@.len());
            }
            while a < rec.attrs.len()
                invariant
                    rules == self.rules(),
                    counts@.len() == rules.len(),
                    env.raw == old(env).raw,
                    env.records == old(env).records,
                    env.received_at == old(env).received_at,
                    raw == buffer::content(env.raw),
                    attrs == envelope::attr_models(rec.attrs@),
                    attrs.len() == rec.attrs@.len(),
                    a <= attrs.len(),
                    scanned == middle + attr_scans(raw, idx as int, attrs.take(a as int)),
                    scanned_so_far(
                        rules,
                        raw.len() as int,
                        scanned,
                        before,
                        env.decisions,
                        counts_before,
                        counts@,
                    ),
                decreases attrs.len() - a,
            {
                let attr = &rec.attrs.items()[a];
                let ghost start = scanned;
                proof {
                    assert(attrs[a as int] == attr.model());
                    assert(attrs.take(a + 1).drop_last() =~= attrs.take(a as int));
                    assert(attrs.take(a + 1).last() == attr.model());
                }
                if let Some(key) = envelope::view_of(&env.raw, &attr.key) {
                    if let Some(value) = envelope::view_of(&env.raw, &attr.value) {
                        let ghost mid = env.decisions;
                        let ghost counts_mid = counts@;
                        redact_field(
                            self,
                            counts,
                            value,
                            attr.value.start,
                            idx,
                            Some(key),
                            &mut env.decisions,
                        );
                        proof {
                            let scan = Scan {
                                record: idx as int,
                                base: attr.value.start as int,
                                key: Some(key@),
                                field: value@,
                            };
                            lemma_scanned_one(
                                rules,
                                raw.len() as int,
                                scanned,
                                scan,
                                before,
                                mid,
                                env.decisions,
                                counts_before,
                                counts_mid,
                                counts@,
                            );
                            scanned = scanned.push(scan);
                        }
                    }
                }
                proof {
                    assert(scanned =~= start + attr_scan(raw, idx as int, attr.model()));
                    assert(start + attr_scan(raw, idx as int, attr.model()) =~= middle
                        + attr_scans(raw, idx as int, attrs.take(a + 1)));
                }
                a = a + 1;
            }
            proof {
                assert(attrs.take(a as int) =~= attrs);
                assert(scanned =~= record_scans(raw, models.take(idx + 1)));
            }
            idx = idx + 1;
        }
        proof {
            assert(models.take(idx as int) =~= models);
            lemma_own_spans_vanish(rules, scanned);
            Seq::filter_distributes_over_add(
                before.entries(),
                spans_in(rules, scanned),
                envelope::not_asked_by(STAGE_REDACT_REGEX@),
            );
            assert(envelope::without_stage(env.decisions.entries(), STAGE_REDACT_REGEX@)
                =~= envelope::without_stage(before.entries(), STAGE_REDACT_REGEX@));
        }
    }
}

impl Stage for RedactStage {
    open spec fn label(&self) -> Seq<char> {
        STAGE_REDACT_REGEX@
    }

    /// It never fails, adds the spans that its rules ask for behind those
    /// already there, and counts their matches.
    open spec fn runs(
        &self,
        env: Envelope,
        after: &Self,
        left: Envelope,
        r: Result<(), StageError>,
    ) -> bool {
        &&& r is Ok
        &&& after.rules() == self.rules()
        &&& after.mask_texts() == self.mask_texts()
        &&& marked(self.rules(), env, left, self.tally(), after.tally())
    }

    fn id(&self) -> (r: StageId) {
        StageId(STAGE_REDACT_REGEX)
    }

    /// Adds every span that the rules ask for, and counts the matches. It
    /// never fails.
    fn apply(&mut self, env: &mut Envelope) -> (r: Result<(), StageError>) {
        proof {
            use_type_invariant(&*self);
        }
        let mut counts = self.counts.clone();
        assert(counts@ =~= self.counts@);
        self.engine.mark(env, &mut counts);
        self.counts = counts;
        Ok(())
    }
}

} // verus!
