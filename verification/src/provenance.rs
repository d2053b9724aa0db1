//! Provenance: why a fact holds.
//!
//! An evaluated [`Model`] keeps, for each fact, the fixpoint round it first
//! appeared in and every ground rule instance ([`Derivation`]) that derived it.
//! [`ProofTree::explain`] turns that store into one finite proof: base facts are
//! leaves, and a derived fact is justified by the least derivation (by rule,
//! then premises) whose fact premises all appeared in a strictly earlier
//! round, so the proof
//! is finite even where facts support each other cyclically.
use vstd::prelude::*;

use crate::ast::{AggOp, CmpOp, TypeName};
use crate::ir::{
    copy_fact, copy_value, fact_eq, value_eq, Fact, PredId, RuleId, Tuple, Value, ValueView,
};
use crate::sources::table::{row_less, spec_row_lt, spec_row_view, spec_value_lt, value_less};

verus! {

/// A pattern that no fact matched, which is what satisfied a negated body
/// literal: the negated atom under the rule's bindings, `None` for a slot left
/// open (existential under the negation).
#[derive(Debug, Clone, PartialEq, Eq, Hash, PartialOrd, Ord)]
pub struct NoMatchPattern {
    pub pred: PredId,
    pub args: Vec<Option<Value>>,
}

/// The view of an optional value.
pub open spec fn opt_view(v: Option<Value>) -> Option<ValueView> {
    match v {
        Some(x) => Some(x@),
        None => None,
    }
}

/// Whether a pattern slot admits a value: open, or closed to an equal value.
pub open spec fn slot_admits(slot: Option<Value>, v: Value) -> bool {
    match slot {
        None => true,
        Some(x) => x@ == v@,
    }
}

impl NoMatchPattern {
    /// Whether `tuple` falls under the pattern. A closed slot compares
    /// structurally, `absent` included: this is a membership test, not a join.
    pub fn matches(&self, tuple: &Tuple) -> (r: bool)
        ensures
            r == (self.args@.len() == tuple.0@.len() && forall|i: int|
                0 <= i < self.args@.len() ==> slot_admits(
                    #[trigger] self.args@[i],
                    tuple.0@[i],
                )),
    {
        if self.args.len() != tuple.0.len() {
            return false;
        }
        let mut i: usize = 0;
        while i < self.args.len()
            invariant
                i <= self.args.len() == tuple.0.len(),
                forall|j: int| 0 <= j < i ==> slot_admits(#[trigger] self.args@[j], tuple.0@[j]),
            decreases self.args.len() - i,
        {
            match &self.args[i] {
                None => {},
                Some(expected) => {
                    if !value_eq(expected, &tuple.0[i]) {
                        assert(!slot_admits(self.args@[i as int], tuple.0@[i as int]));
                        return false;
                    }
                },
            }
            i += 1;
        }
        true
    }
}

/// A conversion that failed on data, summarised for one premise: the type it
/// failed into, and how many values failed it there.
#[derive(Debug, Clone, Copy, PartialEq, Eq, Hash, PartialOrd, Ord)]
pub struct LostConversion {
    pub to: TypeName,
    pub count: u32,
}

/// One premise of a derivation, aligned with its body literal.
#[derive(Debug, Clone, PartialEq, Eq, Hash, PartialOrd, Ord)]
pub enum Premise {
    /// The fact that matched a positive literal.
    Fact(Fact),
    /// The pattern no fact matched, satisfying a negated literal.
    NoMatch(NoMatchPattern),
    /// A satisfied comparison or assignment, with its evaluated operands and
    /// any conversions that failed on data while evaluating it.
    Builtin { op: CmpOp, lhs: Value, rhs: Value, lost: Option<LostConversion> },
    /// A satisfied presence test on its evaluated operand.
    Presence { value: Value, negated: bool },
    /// A satisfied aggregate: the produced value, and how many inputs were
    /// folded and how many `absent` ones skipped.
    Aggregate { op: AggOp, value: Value, present: usize, skipped: usize },
}

/// One way a fact was derived: a ground rule instance, `premises[i]` answering
/// body literal `i` of the rule.
#[derive(Debug, Clone, PartialEq, Eq, Hash, PartialOrd, Ord)]
pub struct Derivation {
    pub rule: RuleId,
    pub premises: Vec<Premise>,
}

/// Whether a premise carries something a warning reads: skipped `absent`
/// inputs, or conversions lost on data.
pub open spec fn premise_reports(p: Premise) -> bool {
    match p {
        Premise::Aggregate { skipped, .. } => skipped > 0,
        Premise::Builtin { lost, .. } => lost is Some,
        _ => false,
    }
}

/// Whether any premise carries something a warning reads.
pub fn premises_report(premises: &[Premise]) -> (r: bool)
    ensures
        r == exists|i: int| 0 <= i < premises@.len() && premise_reports(#[trigger] premises@[i]),
{
    let mut i: usize = 0;
    while i < premises.len()
        invariant
            i <= premises.len(),
            forall|j: int| 0 <= j < i ==> !premise_reports(#[trigger] premises@[j]),
        decreases premises.len() - i,
    {
        let hit = match &premises[i] {
            Premise::Aggregate { skipped, .. } => *skipped > 0,
            Premise::Builtin { lost, .. } => lost.is_some(),
            _ => false,
        };
        if hit {
            return true;
        }
        i += 1;
    }
    false
}

impl Derivation {
    /// Whether this instance carries something the skip-count or lost-conversion
    /// warnings read.
    pub fn reports(&self) -> (r: bool)
        ensures
            r == exists|i: int|
                0 <= i < self.premises@.len() && premise_reports(#[trigger] self.premises@[i]),
    {
        premises_report(self.premises.as_slice())
    }
}

/// The answer to a goal that does not hold: per rule, how far it got.
#[derive(Debug, Clone, PartialEq)]
pub struct FailureTrace {
    pub goal: Fact,
    /// One entry per rule whose head unifies with the goal, in rule order.
    pub near_misses: Vec<NearMiss>,
}

/// How far one rule got, and what stopped it.
#[derive(Debug, Clone, PartialEq)]
pub struct NearMiss {
    pub rule: RuleId,
    /// Premises for the literals the body satisfied; `None` from the block on.
    pub satisfied: Vec<Option<Premise>>,
    /// The body index of the first literal the body could not satisfy.
    pub blocked: usize,
    /// For a blocked comparison, the operand values it was evaluated on.
    pub blocked_values: Option<(CmpOp, Value, Value)>,
    pub repair: Repair,
}

/// What would advance a blocked rule one step.
#[derive(Debug, Clone, PartialEq)]
pub enum Repair {
    /// The blocked literal reads a relation no rule defines: assert this fact.
    Add(Fact),
    /// The blocked predicate is derived: the next question to ask.
    Ask(Fact),
    /// The blocked pattern has a slot nothing bound.
    Unbound(NoMatchPattern),
    /// A slot is bound to `absent`, which unifies with nothing.
    AbsentKey(NoMatchPattern),
    /// A negation refuted by a row that exists.
    Refuted(Fact),
    /// A builtin that did not hold on its operands.
    Builtin,
}

/// A finite proof of one fact.
#[derive(Debug, PartialEq, Eq)]
pub enum ProofTree {
    /// A base fact.
    Leaf(Fact),
    /// A satisfied negation: no fact matches the pattern.
    NoMatch(NoMatchPattern),
    /// A satisfied comparison or assignment.
    Builtin { op: CmpOp, lhs: Value, rhs: Value, lost: Option<LostConversion> },
    /// A satisfied presence test.
    Presence { value: Value, negated: bool },
    /// A satisfied aggregate.
    Aggregate { op: AggOp, value: Value, present: usize, skipped: usize },
    /// A derived fact with one supporting rule instance; `children[i]` proves
    /// its `premises[i]`.
    Derived { fact: Fact, rule: RuleId, children: Vec<ProofTree> },
}

/// What an evaluated model can say about one fact.
#[derive(Debug, PartialEq)]
pub enum Explained {
    /// One finite proof.
    Proof(ProofTree),
    /// The fact does not hold in this model.
    DoesNotHold,
    /// The run did not record provenance, so there is no proof to extract.
    Unrecorded,
}

impl Explained {
    /// The proof, if there is one.
    pub fn proof_tree(self) -> (r: Option<ProofTree>)
        ensures
            match self {
                Explained::Proof(t) => r == Some(t),
                _ => r is None,
            },
    {
        match self {
            Explained::Proof(tree) => Some(tree),
            Explained::DoesNotHold | Explained::Unrecorded => None,
        }
    }
}

/// How much of the derivation store a run kept.
#[derive(Debug, Clone, Copy, PartialEq, Eq, Structural)]
pub enum Provenance {
    /// Every derivation of every fact.
    Recorded,
    /// Only the derivations a warning reads.
    Reports,
    /// None.
    Unrecorded,
}

/// What an evaluated model knows of one fact.
#[derive(Debug)]
pub struct ModelEntry {
    pub fact: Fact,
    /// Asserted in the program or imported, rather than only derived.
    pub base: bool,
    /// The fixpoint round the fact first appeared in.
    pub round: u32,
    /// Every recorded derivation, in the order recorded.
    pub derivations: Vec<Derivation>,
}

/// An evaluated model with its provenance store.
#[derive(Debug)]
pub struct Model {
    pub entries: Vec<ModelEntry>,
    pub provenance: Provenance,
}

/// Two entries record the same fact, base flag and round.
pub open spec fn same_fact(a: ModelEntry, b: ModelEntry) -> bool {
    a.fact == b.fact && a.base == b.base && a.round == b.round
}

/// The view of a fact.
pub type FactView = (PredId, Seq<ValueView>);

/// The first entry for `f`.
pub open spec fn find_entry(entries: Seq<ModelEntry>, f: FactView) -> Option<int>
    decreases entries.len(),
{
    if entries.len() == 0 {
        None
    } else {
        match find_entry(entries.drop_last(), f) {
            Some(i) => Some(i),
            None => if entries.last().fact@ == f {
                Some(entries.len() - 1)
            } else {
                None
            },
        }
    }
}

impl Model {
    /// Whether `f` holds.
    pub open spec fn holds(self, f: FactView) -> bool {
        find_entry(self.entries@, f) is Some
    }

    /// The entry of a fact that holds.
    pub open spec fn entry(self, f: FactView) -> ModelEntry {
        self.entries@[find_entry(self.entries@, f)->0]
    }

    /// The round `f` first appeared in, if it holds.
    pub open spec fn round_of(self, f: FactView) -> Option<int> {
        if self.holds(f) {
            Some(self.entry(f).round as int)
        } else {
            None
        }
    }

    /// An empty model.
    pub fn new(provenance: Provenance) -> (r: Model)
        ensures
            r.entries@.len() == 0,
            r.provenance == provenance,
    {
        Model { entries: Vec::new(), provenance }
    }

    /// The index of the entry for `fact`.
    fn position(&self, fact: &Fact) -> (r: Option<usize>)
        ensures
            match r {
                Some(i) => find_entry(self.entries@, fact@) == Some(i as int) && i < self.entries@.len()
                    && self.entries@[i as int].fact@ == fact@,
                None => find_entry(self.entries@, fact@) is None,
            },
    {
        proof {
            lemma_find_entry_facts(self.entries@, fact@);
        }
        let mut i: usize = 0;
        while i < self.entries.len()
            invariant
                i <= self.entries.len(),
                find_entry(self.entries@.take(i as int), fact@) is None,
            decreases self.entries.len() - i,
        {
            assert(self.entries@.take(i as int + 1).drop_last() =~= self.entries@.take(i as int));
            if fact_eq(&self.entries[i].fact, fact) {
                proof {
                    lemma_find_entry_prefix(self.entries@, i as int + 1, fact@);
                }
                return Some(i);
            }
            i += 1;
        }
        assert(self.entries@.take(i as int) =~= self.entries@);
        None
    }

    /// Records that `fact` holds, first appearing in `round`; `base` when it is
    /// asserted or imported. A fact already recorded keeps its entry.
    pub fn insert_fact(&mut self, fact: Fact, round: u32, base: bool)
        ensures
            final(self).provenance == old(self).provenance,
            old(self).holds(fact@) ==> final(self).entries@ == old(self).entries@,
            !old(self).holds(fact@) ==> final(self).entries@.len() == old(self).entries@.len() + 1
                && final(self).entries@.take(old(self).entries@.len() as int) == old(self).entries@
                && final(self).entries@.last().fact@ == fact@ && final(self).entries@.last().base
                == base && final(self).entries@.last().round == round
                && final(self).entries@.last().derivations@.len() == 0,
    {
        if self.position(&fact).is_none() {
            self.entries.push(ModelEntry { fact, base, round, derivations: Vec::new() });
            assert(self.entries@.take(old(self).entries@.len() as int) =~= old(self).entries@);
        }
    }

    /// Records one more derivation of a fact that holds; a fact that does not
    /// hold is left alone.
    pub fn record(&mut self, fact: &Fact, derivation: Derivation)
        ensures
            final(self).provenance == old(self).provenance,
            final(self).entries@.len() == old(self).entries@.len(),
            forall|i: int| 0 <= i < old(self).entries@.len() ==> same_fact(#[trigger] final(self).entries@[i], old(self).entries@[i]),
            match find_entry(old(self).entries@, fact@) {
                Some(i) => final(self).entries@[i].derivations@ == old(self).entries@[i].derivations@.push(derivation)
                    && forall|j: int| 0 <= j < old(self).entries@.len() && j != i ==> (#[trigger] final(self).entries@[j]).derivations == old(self).entries@[j].derivations,
                None => final(self).entries@ == old(self).entries@,
            },
    {
        if let Some(i) = self.position(fact) {
            let ghost before = self.entries@;
            let mut entry = self.entries.remove(i);
            entry.derivations.push(derivation);
            self.entries.insert(i, entry);
            assert forall|j: int| 0 <= j < before.len() && j != i implies self.entries@[j] == before[j] by {
                if j < i {
                    assert(self.entries@[j] == before[j]);
                } else {
                    assert(self.entries@[j] == before[j]);
                }
            }
        }
    }

    /// Whether `fact` holds.
    pub fn contains(&self, fact: &Fact) -> (r: bool)
        ensures
            r == self.holds(fact@),
    {
        self.position(fact).is_some()
    }

    /// Whether `fact` holds as a base fact.
    pub fn is_base(&self, fact: &Fact) -> (r: bool)
        ensures
            r == (self.holds(fact@) && self.entry(fact@).base),
    {
        match self.position(fact) {
            Some(i) => self.entries[i].base,
            None => false,
        }
    }

    /// The round `fact` first appeared in.
    pub fn first_round(&self, fact: &Fact) -> (r: Option<u32>)
        ensures
            match r {
                Some(n) => self.round_of(fact@) == Some(n as int),
                None => self.round_of(fact@) is None,
            },
    {
        match self.position(fact) {
            Some(i) => Some(self.entries[i].round),
            None => None,
        }
    }

    /// How much of the derivation store this model kept.
    pub fn provenance(&self) -> (r: Provenance)
        ensures
            r == self.provenance,
    {
        self.provenance
    }
}

/// An entry found in a prefix is the first entry.
proof fn lemma_find_entry_prefix(entries: Seq<ModelEntry>, j: int, f: FactView)
    requires
        0 <= j <= entries.len(),
        find_entry(entries.take(j), f) is Some,
    ensures
        find_entry(entries, f) == find_entry(entries.take(j), f),
    decreases entries.len() - j,
{
    if j < entries.len() {
        assert(entries.take(j + 1).drop_last() =~= entries.take(j));
        lemma_find_entry_prefix(entries, j + 1, f);
    } else {
        assert(entries.take(j) =~= entries);
    }
}

/// The first entry found is in range and is an entry for `f`.
proof fn lemma_find_entry_facts(entries: Seq<ModelEntry>, f: FactView)
    ensures
        find_entry(entries, f) matches Some(i) ==> 0 <= i < entries.len() && entries[i].fact@ == f,
    decreases entries.len(),
{
    if entries.len() > 0 {
        lemma_find_entry_facts(entries.drop_last(), f);
    }
}


// ---------------------------------------------------------------------------
// Proof extraction
// ---------------------------------------------------------------------------

/// A derivation qualifies for a fact first seen in `round` when each of its
/// fact premises first appeared strictly earlier.
pub open spec fn qualifies(m: Model, d: Derivation, round: int) -> bool {
    forall|i: int|
        0 <= i < d.premises@.len() ==> match #[trigger] d.premises@[i] {
            Premise::Fact(g) => m.round_of(g@) matches Some(r) && r < round,
            _ => true,
        }
}

/// The position of a comparison operator in its declaration.
pub open spec fn spec_comparison_rank(op: CmpOp) -> int {
    match op {
        CmpOp::Eq => 0,
        CmpOp::Ne => 1,
        CmpOp::Lt => 2,
        CmpOp::Le => 3,
        CmpOp::Gt => 4,
        CmpOp::Ge => 5,
    }
}

/// The position of an aggregate operator in its declaration.
pub open spec fn spec_agg_rank(op: AggOp) -> int {
    match op {
        AggOp::Count => 0,
        AggOp::Sum => 1,
        AggOp::Min => 2,
        AggOp::Max => 3,
        AggOp::Avg => 4,
    }
}

/// The position of a type name in its declaration.
pub open spec fn spec_type_rank(t: TypeName) -> int {
    match t {
        TypeName::Symbol => 0,
        TypeName::String => 1,
        TypeName::Int => 2,
        TypeName::Float => 3,
        TypeName::Bool => 4,
        TypeName::Date => 5,
        TypeName::Timestamp => 6,
        TypeName::Duration => 7,
    }
}

/// The order of optional values: none first, then by value.
pub open spec fn spec_slot_lt(a: Option<ValueView>, b: Option<ValueView>) -> bool {
    match (a, b) {
        (None, Some(_)) => true,
        (Some(x), Some(y)) => spec_value_lt(x, y),
        _ => false,
    }
}

/// The lexicographic order of pattern slots.
pub open spec fn spec_slots_lt(a: Seq<Option<ValueView>>, b: Seq<Option<ValueView>>) -> bool
    decreases a.len(),
{
    if a.len() == 0 {
        b.len() > 0
    } else if b.len() == 0 {
        false
    } else if a[0] != b[0] {
        spec_slot_lt(a[0], b[0])
    } else {
        spec_slots_lt(a.drop_first(), b.drop_first())
    }
}

/// A pattern's slots by value.
pub open spec fn slot_views(args: Seq<Option<Value>>) -> Seq<Option<ValueView>> {
    args.map_values(|o: Option<Value>| opt_view(o))
}

/// The order of lost-conversion summaries: none first, then by target type
/// and count.
pub open spec fn spec_lost_lt(a: Option<LostConversion>, b: Option<LostConversion>) -> bool {
    match (a, b) {
        (None, Some(_)) => true,
        (Some(x), Some(y)) => spec_type_rank(x.to) < spec_type_rank(y.to) || (x.to == y.to && x.count < y.count),
        _ => false,
    }
}

/// The position of a premise's kind in its declaration.
pub open spec fn spec_premise_rank(p: Premise) -> int {
    match p {
        Premise::Fact(_) => 0,
        Premise::NoMatch(_) => 1,
        Premise::Builtin { .. } => 2,
        Premise::Presence { .. } => 3,
        Premise::Aggregate { .. } => 4,
    }
}

/// The order of premises: by kind, then field by field in declaration order
/// (a fact by predicate then tuple; a pattern by predicate then slots).
pub open spec fn spec_premise_lt(a: Premise, b: Premise) -> bool {
    if spec_premise_rank(a) != spec_premise_rank(b) {
        spec_premise_rank(a) < spec_premise_rank(b)
    } else {
        match (a, b) {
            (Premise::Fact(f), Premise::Fact(g)) => f.pred.0 < g.pred.0 || (f.pred.0 == g.pred.0 && spec_row_lt(
                spec_row_view(f.tuple.0),
                spec_row_view(g.tuple.0),
            )),
            (Premise::NoMatch(p), Premise::NoMatch(q)) => p.pred.0 < q.pred.0 || (p.pred.0 == q.pred.0
                && spec_slots_lt(slot_views(p.args@), slot_views(q.args@))),
            (
                Premise::Builtin { op, lhs, rhs, lost },
                Premise::Builtin { op: op2, lhs: lhs2, rhs: rhs2, lost: lost2 },
            ) => spec_comparison_rank(op) < spec_comparison_rank(op2) || (op == op2 && (spec_value_lt(lhs@, lhs2@) || (lhs@
                == lhs2@ && (spec_value_lt(rhs@, rhs2@) || (rhs@ == rhs2@ && spec_lost_lt(lost, lost2)))))),
            (Premise::Presence { value, negated }, Premise::Presence { value: value2, negated: negated2 }) =>
                spec_value_lt(value@, value2@) || (value@ == value2@ && !negated && negated2),
            (
                Premise::Aggregate { op, value, present, skipped },
                Premise::Aggregate { op: op2, value: value2, present: present2, skipped: skipped2 },
            ) => spec_agg_rank(op) < spec_agg_rank(op2) || (op == op2 && (spec_value_lt(value@, value2@) || (value@
                == value2@ && (present < present2 || (present == present2 && skipped < skipped2))))),
            _ => false,
        }
    }
}

/// The lexicographic order of premise lists, two premises neither before
/// the other counting as the same.
pub open spec fn spec_premises_lt(a: Seq<Premise>, b: Seq<Premise>) -> bool
    decreases a.len(),
{
    if a.len() == 0 {
        b.len() > 0
    } else if b.len() == 0 {
        false
    } else if spec_premise_lt(a[0], b[0]) {
        true
    } else if spec_premise_lt(b[0], a[0]) {
        false
    } else {
        spec_premises_lt(a.drop_first(), b.drop_first())
    }
}

/// The order of derivations: by rule, then by premises.
pub open spec fn spec_derivation_lt(a: Derivation, b: Derivation) -> bool {
    a.rule.0 < b.rule.0 || (a.rule.0 == b.rule.0 && spec_premises_lt(a.premises@, b.premises@))
}

fn slot_less(a: &Option<Value>, b: &Option<Value>) -> (r: bool)
    ensures
        r == spec_slot_lt(opt_view(*a), opt_view(*b)),
{
    match (a, b) {
        (None, Some(_)) => true,
        (Some(x), Some(y)) => value_less(x, y),
        _ => false,
    }
}

fn slot_same(a: &Option<Value>, b: &Option<Value>) -> (r: bool)
    ensures
        r == (opt_view(*a) == opt_view(*b)),
{
    match (a, b) {
        (None, None) => true,
        (Some(x), Some(y)) => value_eq(x, y),
        _ => false,
    }
}

fn slots_less(a: &Vec<Option<Value>>, b: &Vec<Option<Value>>) -> (r: bool)
    ensures
        r == spec_slots_lt(slot_views(a@), slot_views(b@)),
{
    let ghost va = slot_views(a@);
    let ghost vb = slot_views(b@);
    let mut i: usize = 0;
    assert(va.skip(0) =~= va);
    assert(vb.skip(0) =~= vb);
    while i < a.len() && i < b.len()
        invariant
            i <= a@.len(),
            i <= b@.len(),
            va == slot_views(a@),
            vb == slot_views(b@),
            spec_slots_lt(va, vb) == spec_slots_lt(va.skip(i as int), vb.skip(i as int)),
        decreases a.len() - i,
    {
        assert(va.skip(i as int)[0] == opt_view(a@[i as int]));
        assert(vb.skip(i as int)[0] == opt_view(b@[i as int]));
        if !slot_same(&a[i], &b[i]) {
            return slot_less(&a[i], &b[i]);
        }
        assert(va.skip(i as int).drop_first() =~= va.skip(i + 1));
        assert(vb.skip(i as int).drop_first() =~= vb.skip(i + 1));
        i += 1;
    }
    i == a.len() && i < b.len()
}

fn lost_less(a: Option<LostConversion>, b: Option<LostConversion>) -> (r: bool)
    ensures
        r == spec_lost_lt(a, b),
{
    match (a, b) {
        (None, Some(_)) => true,
        (Some(x), Some(y)) => type_rank(x.to) < type_rank(y.to) || (type_rank(x.to) == type_rank(y.to) && x.count
            < y.count),
        _ => false,
    }
}

fn type_rank(t: TypeName) -> (r: u8)
    ensures
        r as int == spec_type_rank(t),
{
    match t {
        TypeName::Symbol => 0,
        TypeName::String => 1,
        TypeName::Int => 2,
        TypeName::Float => 3,
        TypeName::Bool => 4,
        TypeName::Date => 5,
        TypeName::Timestamp => 6,
        TypeName::Duration => 7,
    }
}

fn comparison_rank(op: CmpOp) -> (r: u8)
    ensures
        r as int == spec_comparison_rank(op),
{
    match op {
        CmpOp::Eq => 0,
        CmpOp::Ne => 1,
        CmpOp::Lt => 2,
        CmpOp::Le => 3,
        CmpOp::Gt => 4,
        CmpOp::Ge => 5,
    }
}

fn agg_rank(op: AggOp) -> (r: u8)
    ensures
        r as int == spec_agg_rank(op),
{
    match op {
        AggOp::Count => 0,
        AggOp::Sum => 1,
        AggOp::Min => 2,
        AggOp::Max => 3,
        AggOp::Avg => 4,
    }
}

fn premise_rank(p: &Premise) -> (r: u8)
    ensures
        r as int == spec_premise_rank(*p),
{
    match p {
        Premise::Fact(_) => 0,
        Premise::NoMatch(_) => 1,
        Premise::Builtin { .. } => 2,
        Premise::Presence { .. } => 3,
        Premise::Aggregate { .. } => 4,
    }
}

/// Whether premise `a` comes before premise `b`.
fn premise_less(a: &Premise, b: &Premise) -> (r: bool)
    ensures
        r == spec_premise_lt(*a, *b),
{
    let ra = premise_rank(a);
    let rb = premise_rank(b);
    if ra != rb {
        return ra < rb;
    }
    match (a, b) {
        (Premise::Fact(f), Premise::Fact(g)) => f.pred.0 < g.pred.0 || (f.pred.0 == g.pred.0 && row_less(
            &f.tuple.0,
            &g.tuple.0,
        )),
        (Premise::NoMatch(p), Premise::NoMatch(q)) => p.pred.0 < q.pred.0 || (p.pred.0 == q.pred.0 && slots_less(
            &p.args,
            &q.args,
        )),
        (
            Premise::Builtin { op, lhs, rhs, lost },
            Premise::Builtin { op: op2, lhs: lhs2, rhs: rhs2, lost: lost2 },
        ) => {
            let r1 = comparison_rank(*op);
            let r2 = comparison_rank(*op2);
            if r1 != r2 {
                return r1 < r2;
            }
            if value_less(lhs, lhs2) {
                return true;
            }
            if !value_eq(lhs, lhs2) {
                return false;
            }
            if value_less(rhs, rhs2) {
                return true;
            }
            if !value_eq(rhs, rhs2) {
                return false;
            }
            lost_less(*lost, *lost2)
        },
        (Premise::Presence { value, negated }, Premise::Presence { value: value2, negated: negated2 }) => {
            value_less(value, value2) || (value_eq(value, value2) && !*negated && *negated2)
        },
        (
            Premise::Aggregate { op, value, present, skipped },
            Premise::Aggregate { op: op2, value: value2, present: present2, skipped: skipped2 },
        ) => {
            let r1 = agg_rank(*op);
            let r2 = agg_rank(*op2);
            if r1 != r2 {
                return r1 < r2;
            }
            if value_less(value, value2) {
                return true;
            }
            if !value_eq(value, value2) {
                return false;
            }
            *present < *present2 || (*present == *present2 && *skipped < *skipped2)
        },
        _ => false,
    }
}

/// Whether derivation `a` comes before derivation `b`.
fn derivation_less(a: &Derivation, b: &Derivation) -> (r: bool)
    ensures
        r == spec_derivation_lt(*a, *b),
{
    if a.rule.0 != b.rule.0 {
        return a.rule.0 < b.rule.0;
    }
    let ghost va = a.premises@;
    let ghost vb = b.premises@;
    let mut i: usize = 0;
    assert(va.skip(0) =~= va);
    assert(vb.skip(0) =~= vb);
    while i < a.premises.len() && i < b.premises.len()
        invariant
            i <= va.len(),
            i <= vb.len(),
            va == a.premises@,
            vb == b.premises@,
            a.rule.0 == b.rule.0,
            spec_premises_lt(va, vb) == spec_premises_lt(va.skip(i as int), vb.skip(i as int)),
        decreases a.premises.len() - i,
    {
        assert(va.skip(i as int)[0] == va[i as int]);
        assert(vb.skip(i as int)[0] == vb[i as int]);
        let ghost sa = va.skip(i as int);
        let ghost sb = vb.skip(i as int);
        assert(sa.len() > 0 && sb.len() > 0);
        if premise_less(&a.premises[i], &b.premises[i]) {
            assert(spec_premise_lt(sa[0], sb[0]));
            assert(spec_premises_lt(sa, sb));
            return true;
        }
        if premise_less(&b.premises[i], &a.premises[i]) {
            assert(spec_premise_lt(sb[0], sa[0]));
            assert(!spec_premises_lt(sa, sb));
            return false;
        }
        assert(va.skip(i as int).drop_first() =~= va.skip(i + 1));
        assert(vb.skip(i as int).drop_first() =~= vb.skip(i + 1));
        i += 1;
    }
    i == a.premises.len() && i < b.premises.len()
}

/// The index of the least qualifying derivation in the order of
/// derivations (of equal ones, the first recorded).
pub open spec fn least_qualifying(m: Model, derivs: Seq<Derivation>, round: int) -> Option<int>
    decreases derivs.len(),
{
    if derivs.len() == 0 {
        None
    } else {
        let best = least_qualifying(m, derivs.drop_last(), round);
        if qualifies(m, derivs.last(), round) && match best {
            None => true,
            Some(i) => spec_derivation_lt(derivs.last(), derivs[i]),
        } {
            Some(derivs.len() - 1)
        } else {
            best
        }
    }
}

/// The chosen derivation of a fact that holds: the least that qualifies.
pub open spec fn chosen(m: Model, f: FactView) -> Option<Derivation> {
    match least_qualifying(m, m.entry(f).derivations@, m.entry(f).round as int) {
        Some(j) => Some(m.entry(f).derivations@[j]),
        None => None,
    }
}

/// Whether `t` is the proof-tree node of a premise that justifies itself.
pub open spec fn node_of(p: Premise, t: ProofTree) -> bool {
    match (p, t) {
        (Premise::NoMatch(a), ProofTree::NoMatch(b)) => a.pred == b.pred && a.args@.len()
            == b.args@.len() && forall|i: int|
            0 <= i < a.args@.len() ==> opt_view(#[trigger] a.args@[i]) == opt_view(b.args@[i]),
        (
            Premise::Builtin { op, lhs, rhs, lost },
            ProofTree::Builtin { op: op2, lhs: lhs2, rhs: rhs2, lost: lost2 },
        ) => op == op2 && lhs@ == lhs2@ && rhs@ == rhs2@ && lost == lost2,
        (
            Premise::Presence { value, negated },
            ProofTree::Presence { value: value2, negated: negated2 },
        ) => value@ == value2@ && negated == negated2,
        (
            Premise::Aggregate { op, value, present, skipped },
            ProofTree::Aggregate { op: op2, value: value2, present: present2, skipped: skipped2 },
        ) => op == op2 && value@ == value2@ && present == present2 && skipped == skipped2,
        _ => false,
    }
}

/// `t` is the proof of `f` that the model determines: a leaf for a base fact;
/// for a derived fact, the least qualifying derivation with each premise
/// proved in turn.
pub open spec fn proves(m: Model, f: FactView, t: ProofTree) -> bool
    decreases t, 1int,
{
    match t {
        ProofTree::Leaf(g) => g@ == f && m.holds(f) && m.entry(f).base,
        ProofTree::Derived { fact, rule, children } => fact@ == f && m.holds(f) && !m.entry(f).base
            && match chosen(m, f) {
            Some(d) => rule == d.rule && proves_all(m, d.premises@, children@),
            None => false,
        },
        _ => false,
    }
}

/// Each child proves its premise.
pub open spec fn proves_all(m: Model, premises: Seq<Premise>, children: Seq<ProofTree>) -> bool
    decreases children, 0int,
{
    premises.len() == children.len() && (children.len() == 0 || (proves_all(
        m,
        premises.drop_last(),
        children.drop_last(),
    ) && proves_premise(m, premises.last(), children.last())))
}

/// A fact premise is proved by a proof of the fact; any other premise by its
/// own node.
pub open spec fn proves_premise(m: Model, p: Premise, t: ProofTree) -> bool
    decreases t, 2int,
{
    match p {
        Premise::Fact(g) => proves(m, g@, t),
        _ => node_of(p, t),
    }
}

/// Every derived fact that holds has a derivation whose fact premises all
/// appeared strictly earlier.
pub open spec fn well_founded(m: Model) -> bool {
    forall|f: FactView| #[trigger] m.holds(f) && !m.entry(f).base ==> chosen(m, f) is Some
}

/// A copy of a pattern.
fn copy_pattern(p: &NoMatchPattern) -> (r: NoMatchPattern)
    ensures
        r.pred == p.pred,
        r.args@.len() == p.args@.len(),
        forall|i: int| 0 <= i < p.args@.len() ==> opt_view(#[trigger] r.args@[i]) == opt_view(p.args@[i]),
{
    let mut args: Vec<Option<Value>> = Vec::new();
    let mut i: usize = 0;
    while i < p.args.len()
        invariant
            i <= p.args.len(),
            args@.len() == i,
            forall|j: int| 0 <= j < i ==> opt_view(#[trigger] args@[j]) == opt_view(p.args@[j]),
        decreases p.args.len() - i,
    {
        let slot = match &p.args[i] {
            Some(v) => Some(copy_value(v)),
            None => None,
        };
        args.push(slot);
        i += 1;
    }
    NoMatchPattern { pred: p.pred, args }
}

/// The proof-tree node of a premise that justifies itself.
fn premise_node(p: &Premise) -> (r: ProofTree)
    requires
        !(p is Fact),
    ensures
        node_of(*p, r),
{
    match p {
        Premise::Fact(_) => ProofTree::Builtin { op: CmpOp::Eq, lhs: Value::Absent, rhs: Value::Absent, lost: None },
        Premise::NoMatch(pattern) => ProofTree::NoMatch(copy_pattern(pattern)),
        Premise::Builtin { op, lhs, rhs, lost } => ProofTree::Builtin {
            op: *op,
            lhs: copy_value(lhs),
            rhs: copy_value(rhs),
            lost: *lost,
        },
        Premise::Presence { value, negated } => ProofTree::Presence {
            value: copy_value(value),
            negated: *negated,
        },
        Premise::Aggregate { op, value, present, skipped } => ProofTree::Aggregate {
            op: *op,
            value: copy_value(value),
            present: *present,
            skipped: *skipped,
        },
    }
}

/// Whether a derivation qualifies for a fact first seen in `round`.
fn qualifies_exec(model: &Model, d: &Derivation, round: u32) -> (r: bool)
    ensures
        r == qualifies(*model, *d, round as int),
{
    let mut i: usize = 0;
    while i < d.premises.len()
        invariant
            i <= d.premises.len(),
            forall|j: int|
                0 <= j < i ==> match #[trigger] d.premises@[j] {
                    Premise::Fact(g) => model.round_of(g@) matches Some(r) && r < round,
                    _ => true,
                },
        decreases d.premises.len() - i,
    {
        if let Premise::Fact(g) = &d.premises[i] {
            match model.first_round(g) {
                Some(r) => {
                    if r >= round {
                        return false;
                    }
                },
                None => {
                    return false;
                },
            }
        }
        i += 1;
    }
    true
}

/// The least qualifying derivation is in range and qualifies; one exists
/// exactly when some derivation qualifies.
proof fn lemma_least_qualifying_facts(m: Model, derivs: Seq<Derivation>, round: int)
    ensures
        least_qualifying(m, derivs, round) matches Some(j) ==> 0 <= j < derivs.len() && qualifies(
            m,
            derivs[j],
            round,
        ),
        least_qualifying(m, derivs, round) is None ==> forall|k: int|
            0 <= k < derivs.len() ==> !qualifies(m, #[trigger] derivs[k], round),
    decreases derivs.len(),
{
    if derivs.len() > 0 {
        lemma_least_qualifying_facts(m, derivs.drop_last(), round);
        assert forall|k: int| 0 <= k < derivs.len() - 1 implies derivs.drop_last()[k] == #[trigger] derivs[k] by {}
    }
}

/// Each child of a proof proves the premise at its position.
proof fn lemma_proves_all_each(m: Model, premises: Seq<Premise>, children: Seq<ProofTree>, k: int)
    requires
        proves_all(m, premises, children),
        0 <= k < children.len(),
    ensures
        proves_premise(m, premises[k], children[k]),
    decreases children.len(),
{
    if k < children.len() - 1 {
        lemma_proves_all_each(m, premises.drop_last(), children.drop_last(), k);
    }
}

/// The index of the least derivation that qualifies for `round`.
fn find_qualifying(model: &Model, derivs: &[Derivation], round: u32) -> (r: Option<usize>)
    ensures
        r matches Some(j) ==> least_qualifying(*model, derivs@, round as int) == Some(j as int),
        r is None ==> least_qualifying(*model, derivs@, round as int) is None,
{
    let mut best: Option<usize> = None;
    let mut j: usize = 0;
    while j < derivs.len()
        invariant
            j <= derivs.len(),
            least_qualifying(*model, derivs@.take(j as int), round as int) == match best {
                Some(b) => Some(b as int),
                None => None::<int>,
            },
            best matches Some(b) ==> b < j,
        decreases derivs.len() - j,
    {
        let ghost t = derivs@.take(j + 1);
        assert(t.drop_last() =~= derivs@.take(j as int));
        assert(t.last() == derivs@[j as int]);
        if qualifies_exec(model, &derivs[j], round) {
            let better = match best {
                None => true,
                Some(b) => {
                    assert(t[b as int] == derivs@[b as int]);
                    derivation_less(&derivs[j], &derivs[b])
                },
            };
            if better {
                best = Some(j);
            }
        }
        j += 1;
    }
    assert(derivs@.take(j as int) =~= derivs@);
    best
}

impl ProofTree {
    /// The model's proof of `fact`, on a model whose store is complete; `None`
    /// exactly where the model determines no proof (in a well-founded model,
    /// where the fact does not hold).
    fn extract(model: &Model, fact: &Fact) -> (r: Option<ProofTree>)
        ensures
            r matches Some(t) ==> proves(*model, fact@, t),
            r is None ==> forall|t: ProofTree| !proves(*model, fact@, t),
            well_founded(*model) && model.holds(fact@) ==> r is Some,
        decreases (if model.holds(fact@) {
            model.entry(fact@).round as int
        } else {
            0
        }),
    {
        let i = match model.position(fact) {
            None => {
                return None;
            },
            Some(i) => i,
        };
        let entry = &model.entries[i];
        assert(model.entry(fact@) == model.entries@[i as int]);
        if entry.base {
            return Some(ProofTree::Leaf(copy_fact(fact)));
        }
        let round = entry.round;
        let ghost derivs = entry.derivations@;
        let j = match find_qualifying(model, entry.derivations.as_slice(), round) {
            Some(j) => j,
            None => {
                return None;
            },
        };
        proof {
            lemma_least_qualifying_facts(*model, derivs, round as int);
        }
        let d = &entry.derivations[j];
        assert(least_qualifying(*model, derivs, round as int) == Some(j as int));
        assert(model.entry(fact@).derivations@ == derivs);
        assert(model.entry(fact@).round == round);
        assert(*d == derivs[j as int]);
        assert(chosen(*model, fact@) == Some(*d));
        let mut children: Vec<ProofTree> = Vec::new();
        let mut k: usize = 0;
        while k < d.premises.len()
            invariant
                k <= d.premises.len(),
                chosen(*model, fact@) == Some(*d),
                qualifies(*model, *d, round as int),
                round as int == model.entry(fact@).round,
                model.holds(fact@),
                !model.entry(fact@).base,
                proves_all(*model, d.premises@.take(k as int), children@),
            decreases d.premises.len() - k,
        {
            let ghost pk = d.premises@[k as int];
            assert(d.premises@.take(k as int + 1).drop_last() =~= d.premises@.take(k as int));
            assert(d.premises@.take(k as int + 1).last() == pk);
            let child = match &d.premises[k] {
                Premise::Fact(g) => {
                    assert(model.round_of(g@) is Some);
                    match ProofTree::extract(model, g) {
                        Some(t) => t,
                        None => {
                            proof {
                                assert forall|t: ProofTree| !proves(*model, fact@, t) by {
                                    if proves(*model, fact@, t) {
                                        assert(t is Derived);
                                        let ch = t->Derived_children@;
                                        assert(proves_all(*model, d.premises@, ch));
                                        lemma_proves_all_each(*model, d.premises@, ch, k as int);
                                        assert(proves(*model, g@, ch[k as int]));
                                    }
                                }
                            }
                            return None;
                        },
                    }
                },
                other => premise_node(other),
            };
            let ghost before = children@;
            let ghost cg = child;
            assert(proves_premise(*model, pk, cg));
            children.push(child);
            assert(children@.drop_last() =~= before);
            assert(children@.last() == cg);
            k += 1;
        }
        assert(d.premises@.take(k as int) =~= d.premises@);
        Some(ProofTree::Derived { fact: copy_fact(fact), rule: d.rule, children })
    }

    /// Explains `fact` from an evaluated model: its proof, or that it does not
    /// hold, or that the run kept no complete store to prove it from.
    pub fn explain(model: &Model, fact: &Fact) -> (r: Explained)
        ensures
            model.provenance != Provenance::Recorded ==> r == Explained::Unrecorded,
            model.provenance == Provenance::Recorded ==> match r {
                Explained::Proof(t) => proves(*model, fact@, t),
                Explained::DoesNotHold => !model.holds(fact@) || forall|t: ProofTree|
                    !proves(*model, fact@, t),
                Explained::Unrecorded => false,
            },
            model.provenance == Provenance::Recorded && well_founded(*model) && model.holds(fact@)
                ==> r is Proof,
    {
        if model.provenance() != Provenance::Recorded {
            return Explained::Unrecorded;
        }
        if !model.contains(fact) {
            return Explained::DoesNotHold;
        }
        match ProofTree::extract(model, fact) {
            Some(tree) => Explained::Proof(tree),
            None => Explained::DoesNotHold,
        }
    }

    /// The fact this tree proves; `None` for a node that proves no fact.
    pub fn fact(&self) -> (r: Option<&Fact>)
        ensures
            match *self {
                ProofTree::Leaf(f) => r == Some(&f),
                ProofTree::Derived { fact, .. } => r == Some(&fact),
                _ => r is None,
            },
    {
        match self {
            ProofTree::Leaf(fact) => Some(fact),
            ProofTree::Derived { fact, .. } => Some(fact),
            ProofTree::NoMatch(_)
            | ProofTree::Builtin { .. }
            | ProofTree::Presence { .. }
            | ProofTree::Aggregate { .. } => None,
        }
    }
}

} // verus!
