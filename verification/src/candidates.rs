//! Which relations look as if they should be declared unique: those under which some holder has
//! two or more open values. What is listed here is for a person to decide on.

use crate::confidence::Confidence;
use crate::ledger::{Entity, Fact, FactModel, Ledger, LedgerModel, RelationType};
use crate::order::{arrange, lemma_sorted, selected, sorted_positions};
use crate::outside::{json_as_str, json_compact, json_get, json_member, json_str, json_to_string};
use crate::replay::{by_start, sort_key, ReplayOrder};
use crate::review::{find_name, find_object_name};
use crate::text::{joined, opt_text, same_text};
use crate::timeline::Uniqueness;
use vstd::prelude::*;

verus! {

/// An open value of a holder.
#[derive(Debug)]
pub struct OpenValue {
    pub fact_id: u128,
    pub name: String,
    pub valid_from: Option<i64>,
    pub confidence: Confidence,
}

/// What an [`OpenValue`] says.
pub struct ValueModel {
    pub fact_id: u128,
    pub name: Seq<char>,
    pub valid_from: Option<i64>,
    pub confidence: Confidence,
}

impl View for OpenValue {
    type V = ValueModel;

    open spec fn view(&self) -> ValueModel {
        ValueModel {
            fact_id: self.fact_id,
            name: self.name@,
            valid_from: self.valid_from,
            confidence: self.confidence,
        }
    }
}

/// The contents of a list of open values.
pub open spec fn value_models(s: Seq<OpenValue>) -> Seq<ValueModel> {
    Seq::new(s.len(), |i: int| s[i]@)
}

/// What happens when an observation meets another value that is still open.
pub enum Meeting {
    /// Which succeeds which cannot be told, or not surely enough: a person decides.
    Review,
    /// The observation ends where the other value starts.
    EndsNew,
    /// The other value ends where the observation starts.
    EndsOld,
}

/// What happens when the observation `new` meets the open value `old`.
pub open spec fn meeting(old: ValueModel, new: ValueModel) -> Meeting {
    if new.valid_from is None || old.valid_from == new.valid_from || new.confidence.is_low() {
        Meeting::Review
    } else if old.valid_from is Some && new.valid_from->0 < old.valid_from->0 {
        Meeting::EndsNew
    } else {
        Meeting::EndsOld
    }
}

/// Reconciling under way, on paper: which values are still open, how many were closed, and how
/// many pairs were left to a person.
#[verifier::ext_equal]
pub struct Plan {
    pub open: Seq<bool>,
    pub close: nat,
    pub review: nat,
}

impl Plan {
    /// The observation `i` has met the value `j`.
    pub open spec fn met(self, values: Seq<ValueModel>, i: int, j: int) -> Plan {
        match meeting(values[j], values[i]) {
            Meeting::Review => Plan { review: self.review + 1, ..self },
            Meeting::EndsNew => Plan {
                open: self.open.update(i, false),
                close: self.close + 1,
                ..self
            },
            Meeting::EndsOld => Plan {
                open: self.open.update(j, false),
                close: self.close + 1,
                ..self
            },
        }
    }

    /// The observation `i`, while it is open, has met the open values from `j` on.
    pub open spec fn met_from(self, values: Seq<ValueModel>, i: int, j: int) -> Plan
        decreases values.len() - j,
    {
        if j >= values.len() || !self.open[i] {
            self
        } else if self.open[j] {
            self.met(values, i, j).met_from(values, i, j + 1)
        } else {
            self.met_from(values, i, j + 1)
        }
    }

    /// The values from `i` on have been taken for new observations, one after another.
    pub open spec fn ran_from(self, values: Seq<ValueModel>, i: int) -> Plan
        decreases values.len() - i,
    {
        if i >= values.len() {
            self
        } else {
            self.met_from(values, i, i + 1).ran_from(values, i + 1)
        }
    }
}

/// A plan before anything has happened.
pub open spec fn unplanned(n: nat) -> Plan {
    Plan { open: Seq::new(n, |i: int| true), close: 0, review: 0 }
}

/// What reconciling the open values of a holder would come to: each is taken for a new
/// observation in turn, and meets the open ones behind it.
pub open spec fn plan(values: Seq<ValueModel>) -> Plan {
    unplanned(values.len()).ran_from(values, 0)
}

/// A count, as far as a machine word goes.
pub open spec fn capped(n: nat) -> usize {
    if n <= usize::MAX {
        n as usize
    } else {
        usize::MAX
    }
}

/// What reconciling the open values of a holder would come to: how many would be closed, and how
/// many pairs would be left to a person. It is an estimate.
pub fn plan_closures(values: &[OpenValue]) -> (r: (usize, usize))
    ensures
        r.0 == capped(plan(value_models(values@)).close),
        r.1 == capped(plan(value_models(values@)).review),
{
    let ghost all = value_models(values@);
    let n: usize = values.len();
    let mut open: Vec<bool> = Vec::new();
    let mut close: usize = 0;
    let mut review: usize = 0;
    let mut k: usize = 0;
    while k < n
        invariant
            k <= n,
            open@.len() == k,
            forall|j: int| 0 <= j < k ==> #[trigger] open@[j],
        decreases n - k,
    {
        open.push(true);
        k = k + 1;
    }
    let ghost mut now = unplanned(n as nat);
    assert(open@ =~= now.open);
    let mut i: usize = 0;
    while i < n
        invariant
            i <= n,
            n == values@.len(),
            all == value_models(values@),
            open@ == now.open,
            open@.len() == n,
            close == capped(now.close),
            review == capped(now.review),
            plan(all) == now.ran_from(all, i as int),
        decreases n - i,
    {
        let ghost after = now.met_from(all, i as int, i + 1);
        let mut j: usize = i + 1;
        while j < n && open[i]
            invariant
                i < j <= n,
                n == values@.len(),
                all == value_models(values@),
                open@ == now.open,
                open@.len() == n,
                close == capped(now.close),
                review == capped(now.review),
                after == now.met_from(all, i as int, j as int),
            decreases n - j,
        {
            if open[j] {
                let old = &values[j];
                let new = &values[i];
                assert(all[j as int] == old@);
                assert(all[i as int] == new@);
                proof {
                    now = now.met(all, i as int, j as int);
                }
                match (old.valid_from, new.valid_from) {
                    (_, None) => {
                        review = review.saturating_add(1);
                    },
                    (Some(of), Some(nf)) => {
                        if of == nf || new.confidence.low() {
                            review = review.saturating_add(1);
                        } else if nf < of {
                            close = close.saturating_add(1);
                            open.set(i, false);
                        } else {
                            close = close.saturating_add(1);
                            open.set(j, false);
                        }
                    },
                    (None, Some(_)) => {
                        if new.confidence.low() {
                            review = review.saturating_add(1);
                        } else {
                            close = close.saturating_add(1);
                            open.set(j, false);
                        }
                    },
                }
            }
            j = j + 1;
        }
        i = i + 1;
    }
    (close, review)
}

/// What is read of a JSON literal: the string that it is; the member `value` as JSON and, where it
/// is a string, as that; the member `unit` where it is a string; and the whole as compact JSON.
#[derive(Debug)]
pub struct Literal {
    pub text: Option<String>,
    pub value: Option<String>,
    pub value_text: Option<String>,
    pub unit: Option<String>,
    pub whole: String,
}

/// What a [`Literal`] says.
pub struct LiteralModel {
    pub text: Option<Seq<char>>,
    pub value: Option<Seq<char>>,
    pub value_text: Option<Seq<char>>,
    pub unit: Option<Seq<char>>,
    pub whole: Seq<char>,
}

impl View for Literal {
    type V = LiteralModel;

    open spec fn view(&self) -> LiteralModel {
        LiteralModel {
            text: opt_text(self.text),
            value: opt_text(self.value),
            value_text: opt_text(self.value_text),
            unit: opt_text(self.unit),
            whole: self.whole@,
        }
    }
}

impl LiteralModel {
    /// How the literal reads: a string as itself; a value with its unit, if it has one; anything
    /// else as JSON.
    pub open spec fn reads(self) -> Seq<char> {
        if self.text is Some {
            self.text->0
        } else if self.value is Some {
            let value = if self.value_text is Some {
                self.value_text->0
            } else {
                self.value->0
            };
            if self.unit is Some && self.unit->0.len() > 0 {
                value + " "@ + self.unit->0
            } else {
                value
            }
        } else {
            self.whole
        }
    }
}

impl Literal {
    /// How the literal reads.
    pub fn read(&self) -> (r: String)
        ensures
            r@ == self@.reads(),
    {
        match &self.text {
            Some(s) => s.clone(),
            None => match &self.value {
                None => self.whole.clone(),
                Some(json) => {
                    let value: String = match &self.value_text {
                        Some(s) => s.clone(),
                        None => json.clone(),
                    };
                    match &self.unit {
                        Some(unit) => if unit.as_str().unicode_len() > 0 {
                            joined(joined(value.as_str(), " ").as_str(), unit.as_str())
                        } else {
                            value
                        },
                        None => value,
                    }
                },
            },
        }
    }
}

/// The string that a nullable JSON text denotes.
pub open spec fn member_text(member: Option<Seq<char>>) -> Option<Seq<char>> {
    match member {
        Some(json) => json_str(json),
        None => None,
    }
}

/// What is read of a JSON text. A text that is not JSON is left as it is.
pub open spec fn literal(json: Seq<char>) -> LiteralModel {
    LiteralModel {
        text: json_str(json),
        value: json_member(json, "value"@),
        value_text: member_text(json_member(json, "value"@)),
        unit: member_text(json_member(json, "unit"@)),
        whole: match json_compact(json) {
            Some(whole) => whole,
            None => json,
        },
    }
}

fn text_of_member(member: &Option<String>) -> (r: Option<String>)
    ensures
        opt_text(r) == member_text(opt_text(*member)),
{
    match member {
        Some(json) => json_as_str(json.as_str()),
        None => None,
    }
}

/// How a literal reads to a person: `{value, unit}` as the value with its unit, a string as
/// itself, anything else as JSON.
pub fn literal_name(json: &str) -> (r: String)
    ensures
        r@ == literal(json@).reads(),
{
    let value = json_get(json, "value");
    let value_text = text_of_member(&value);
    let unit = text_of_member(&json_get(json, "unit"));
    let whole: String = match json_to_string(json) {
        Some(whole) => whole,
        None => json.to_owned(),
    };
    let read = Literal { text: json_as_str(json), value, value_text, unit, whole };
    assert(read@ == literal(json@));
    read.read()
}

/// A holder and its open values.
#[derive(Debug)]
pub struct HolderExample {
    pub holder: String,
    pub values: Vec<OpenValue>,
}

/// What a [`HolderExample`] says.
pub struct HolderModel {
    pub holder: Seq<char>,
    pub values: Seq<ValueModel>,
}

impl View for HolderExample {
    type V = HolderModel;

    open spec fn view(&self) -> HolderModel {
        HolderModel { holder: self.holder@, values: value_models(self.values@) }
    }
}

/// The contents of a list of holders.
pub open spec fn holder_models(s: Seq<HolderExample>) -> Seq<HolderModel> {
    Seq::new(s.len(), |i: int| s[i]@)
}

/// A relation under which some holders have two or more open values on one side. Where the side
/// is not declared unique, it looks as if it should be; where it is, these facts have not been
/// reconciled.
#[derive(Debug)]
pub struct UniquenessCandidate {
    pub predicate_id: u128,
    pub key: String,
    pub label: String,
    /// `relation` or `attribute`.
    pub kind: String,
    /// `subject` or `object`.
    pub side: &'static str,
    /// Whether this side is declared unique.
    pub declared: bool,
    /// How many holders have two or more open values.
    pub holders: usize,
    /// How many open facts those holders have.
    pub open_facts: usize,
    /// How many intervals reconciling would close.
    pub would_close: usize,
    /// How many pairs reconciling would leave to a person.
    pub would_review: usize,
    /// The first holders, and their open values in the order of time.
    pub examples: Vec<HolderExample>,
}

/// What a [`UniquenessCandidate`] says.
pub struct CandidateModel {
    pub predicate_id: u128,
    pub key: Seq<char>,
    pub label: Seq<char>,
    pub kind: Seq<char>,
    pub side: Seq<char>,
    pub declared: bool,
    pub holders: usize,
    pub open_facts: usize,
    pub would_close: usize,
    pub would_review: usize,
    pub examples: Seq<HolderModel>,
}

impl View for UniquenessCandidate {
    type V = CandidateModel;

    open spec fn view(&self) -> CandidateModel {
        CandidateModel {
            predicate_id: self.predicate_id,
            key: self.key@,
            label: self.label@,
            kind: self.kind@,
            side: self.side@,
            declared: self.declared,
            holders: self.holders,
            open_facts: self.open_facts,
            would_close: self.would_close,
            would_review: self.would_review,
            examples: holder_models(self.examples@),
        }
    }
}

/// The contents of a list of candidates.
pub open spec fn candidate_models(s: Seq<UniquenessCandidate>) -> Seq<CandidateModel> {
    Seq::new(s.len(), |i: int| s[i]@)
}

/// How many holders are shown of a candidate.
pub const EXAMPLE_HOLDERS: usize = 3;

/// A present and open fact of a holder under a relation, on one side.
pub open spec fn open_at(kb_id: u128, side: Uniqueness, predicate_id: u128, holder: u128) -> spec_fn(
    FactModel,
) -> bool {
    |f: FactModel|
        {
            &&& f.kb_id == kb_id
            &&& f.is_alive()
            &&& f.is_open()
            &&& f.predicate_id == Some(predicate_id)
            &&& match side {
                Uniqueness::SubjectSide => f.subject_id == holder && (f.object_id is Some
                    || f.object_value is Some),
                Uniqueness::ObjectSide => f.object_id == Some(holder),
            }
        }
}

/// Two facts have the same value: on the subject side the same entity, or else the same literal
/// text; on the object side the same subject.
pub open spec fn same_key(side: Uniqueness, a: FactModel, b: FactModel) -> bool {
    match side {
        Uniqueness::SubjectSide => a.object_id == b.object_id && (a.object_id is Some
            || a.object_value == b.object_value),
        Uniqueness::ObjectSide => a.subject_id == b.subject_id,
    }
}

/// Some facts have two different values among them.
pub open spec fn crowded(side: Uniqueness, facts: Seq<FactModel>) -> bool {
    exists|i: int, j: int|
        0 <= i < facts.len() && 0 <= j < facts.len() && !same_key(
            side,
            #[trigger] facts[i],
            #[trigger] facts[j],
        )
}

/// A fact of which the value has a name on the object side.
pub open spec fn can_list(l: LedgerModel, side: Uniqueness) -> spec_fn(FactModel) -> bool {
    |f: FactModel| side is SubjectSide || l.name_of(f.subject_id) is Some
}

/// The name of the value of a fact: that of the entity, or else how the literal reads.
pub open spec fn value_name(l: LedgerModel, side: Uniqueness, f: FactModel) -> Seq<char> {
    let other = match side {
        Uniqueness::SubjectSide => l.object_name(f.object_id),
        Uniqueness::ObjectSide => l.name_of(f.subject_id),
    };
    match other {
        Some(name) => name,
        None => match f.object_value {
            Some(json) => literal(json).reads(),
            None => "?"@,
        },
    }
}

/// The value of a fact.
pub open spec fn value_of(l: LedgerModel, side: Uniqueness) -> spec_fn(FactModel) -> ValueModel {
    |f: FactModel|
        ValueModel {
            fact_id: f.id,
            name: value_name(l, side, f),
            valid_from: f.valid_from,
            confidence: f.confidence,
        }
}

/// The open values of a holder under a relation in the order of time, if there are two or more
/// different ones.
pub open spec fn open_values(
    l: LedgerModel,
    kb_id: u128,
    side: Uniqueness,
    predicate_id: u128,
    holder: u128,
) -> Seq<ValueModel> {
    let facts = l.facts.filter(open_at(kb_id, side, predicate_id, holder));
    if crowded(side, facts) {
        arrange(facts.filter(can_list(l, side)), by_start()).map_values(value_of(l, side))
    } else {
        Seq::empty()
    }
}

/// An entity, and its open values under a relation.
pub open spec fn as_holder(
    l: LedgerModel,
    kb_id: u128,
    side: Uniqueness,
    predicate_id: u128,
) -> spec_fn(Entity) -> HolderModel {
    |e: Entity|
        HolderModel {
            holder: e.canonical_name@,
            values: open_values(l, kb_id, side, predicate_id, e.id),
        }
}

/// A holder with values to be listed.
pub open spec fn has_values() -> spec_fn(HolderModel) -> bool {
    |h: HolderModel| h.values.len() > 0
}

/// The holders with two or more different open values under a relation, by name.
pub open spec fn holders(
    l: LedgerModel,
    kb_id: u128,
    side: Uniqueness,
    predicate_id: u128,
) -> Seq<HolderModel> {
    l.entities.map_values(as_holder(l, kb_id, side, predicate_id)).filter(has_values())
}

/// The sum of a count over some holders.
pub open spec fn total(s: Seq<HolderModel>, count: spec_fn(HolderModel) -> nat) -> nat
    decreases s.len(),
{
    if s.len() == 0 {
        0
    } else {
        total(s.drop_last(), count) + count(s.last())
    }
}

/// How many values a holder has.
pub open spec fn values_of() -> spec_fn(HolderModel) -> nat {
    |h: HolderModel| h.values.len()
}

/// How many values of a holder would be closed.
pub open spec fn closes_of() -> spec_fn(HolderModel) -> nat {
    |h: HolderModel| plan(h.values).close
}

/// How many pairs of values of a holder would be left to a person.
pub open spec fn reviews_of() -> spec_fn(HolderModel) -> nat {
    |h: HolderModel| plan(h.values).review
}

/// The first holders, as many as are shown.
pub open spec fn shown_of(s: Seq<HolderModel>) -> Seq<HolderModel> {
    if s.len() <= EXAMPLE_HOLDERS {
        s
    } else {
        s.take(EXAMPLE_HOLDERS as int)
    }
}

/// The name of a side.
pub open spec fn side_name(side: Uniqueness) -> Seq<char> {
    match side {
        Uniqueness::SubjectSide => "subject"@,
        Uniqueness::ObjectSide => "object"@,
    }
}

/// A state of which one side could be unique. An entity may well have two names; and a literal is
/// held by none.
pub open spec fn could_be_unique(side: Uniqueness) -> spec_fn(RelationType) -> bool {
    |r: RelationType|
        {
            &&& r.temporal@ == "state"@
            &&& match side {
                Uniqueness::SubjectSide => !(r.builtin && r.key@ == "known_as"@),
                Uniqueness::ObjectSide => r.kind@ == "relation"@,
            }
        }
}

/// What is to be said of a relation on one side.
pub open spec fn candidate(l: LedgerModel, kb_id: u128, side: Uniqueness) -> spec_fn(
    RelationType,
) -> CandidateModel {
    |r: RelationType|
        {
            let found = holders(l, kb_id, side, r.id);
            CandidateModel {
                predicate_id: r.id,
                key: r.key@,
                label: r.label@,
                kind: r.kind@,
                side: side_name(side),
                declared: match side {
                    Uniqueness::SubjectSide => r.functional,
                    Uniqueness::ObjectSide => r.inverse_functional,
                },
                holders: capped(found.len()),
                open_facts: capped(total(found, values_of())),
                would_close: capped(total(found, closes_of())),
                would_review: capped(total(found, reviews_of())),
                examples: shown_of(found),
            }
        }
}

/// A candidate with some holder.
pub open spec fn has_holders() -> spec_fn(CandidateModel) -> bool {
    |c: CandidateModel| c.examples.len() > 0
}

/// The candidates of one side, by key.
pub open spec fn candidates(l: LedgerModel, kb_id: u128, side: Uniqueness) -> Seq<CandidateModel> {
    l.relations.filter(could_be_unique(side)).map_values(candidate(l, kb_id, side)).filter(
        has_holders(),
    )
}

/// Whether a fact is present and open, of a holder under a relation, on one side.
fn is_open_at(f: &Fact, kb_id: u128, side: Uniqueness, predicate_id: u128, holder: u128) -> (r:
    bool)
    ensures
        r == open_at(kb_id, side, predicate_id, holder)(f@),
{
    let related: bool = match f.predicate_id {
        Some(p) => p == predicate_id,
        None => false,
    };
    let held: bool = match side {
        Uniqueness::SubjectSide => f.subject_id == holder && (f.object_id.is_some()
            || f.object_value.is_some()),
        Uniqueness::ObjectSide => match f.object_id {
            Some(o) => o == holder,
            None => false,
        },
    };
    f.kb_id == kb_id && f.is_alive() && f.is_open() && related && held
}

/// Whether two nullable texts are the same.
fn same_nullable(a: &Option<String>, b: &Option<String>) -> (r: bool)
    ensures
        r == (opt_text(*a) == opt_text(*b)),
{
    match (a, b) {
        (Some(x), Some(y)) => same_text(x.as_str(), y.as_str()),
        (None, None) => true,
        _ => false,
    }
}

/// Whether two facts have the same value.
fn has_same_key(side: Uniqueness, a: &Fact, b: &Fact) -> (r: bool)
    ensures
        r == same_key(side, a@, b@),
{
    match side {
        Uniqueness::SubjectSide => a.object_id == b.object_id && (a.object_id.is_some()
            || same_nullable(&a.object_value, &b.object_value)),
        Uniqueness::ObjectSide => a.subject_id == b.subject_id,
    }
}

/// Whether the facts at some positions have two different values among them.
fn is_crowded(ledger: &Ledger, side: Uniqueness, picked: &Vec<usize>) -> (r: bool)
    requires
        forall|j: int| 0 <= j < picked@.len() ==> (#[trigger] picked@[j]) < ledger.facts@.len(),
    ensures
        r == crowded(side, selected(ledger@.facts, picked@)),
{
    let ghost found = selected(ledger@.facts, picked@);
    let mut i: usize = 0;
    while i < picked.len()
        invariant
            i <= picked@.len(),
            found == selected(ledger@.facts, picked@),
            forall|j: int| 0 <= j < picked@.len() ==> (#[trigger] picked@[j]) < ledger.facts@.len(),
            forall|a: int, b: int|
                0 <= a < i && 0 <= b < found.len() ==> same_key(
                    side,
                    #[trigger] found[a],
                    #[trigger] found[b],
                ),
        decreases picked@.len() - i,
    {
        let mut k: usize = 0;
        while k < picked.len()
            invariant
                i < picked@.len(),
                k <= picked@.len(),
                found == selected(ledger@.facts, picked@),
                forall|j: int|
                    0 <= j < picked@.len() ==> (#[trigger] picked@[j]) < ledger.facts@.len(),
                forall|b: int|
                    0 <= b < k ==> same_key(side, found[i as int], #[trigger] found[b]),
            decreases picked@.len() - k,
        {
            assert(found[i as int] == ledger.facts@[picked@[i as int] as int]@);
            assert(found[k as int] == ledger.facts@[picked@[k as int] as int]@);
            if !has_same_key(side, &ledger.facts[picked[i]], &ledger.facts[picked[k]]) {
                return true;
            }
            k = k + 1;
        }
        i = i + 1;
    }
    false
}

/// The name of the value of a fact.
fn find_value_name(ledger: &Ledger, side: Uniqueness, f: &Fact) -> (r: String)
    ensures
        r@ == value_name(ledger@, side, f@),
{
    let other = match side {
        Uniqueness::SubjectSide => find_object_name(ledger, f.object_id),
        Uniqueness::ObjectSide => find_name(ledger, f.subject_id),
    };
    match other {
        Some(name) => name,
        None => match &f.object_value {
            Some(json) => literal_name(json.as_str()),
            None => "?".to_owned(),
        },
    }
}

/// The open values of a holder under a relation, if there are two or more different ones.
fn load_values(
    ledger: &Ledger,
    kb_id: u128,
    side: Uniqueness,
    predicate_id: u128,
    holder: u128,
) -> (r: Vec<OpenValue>)
    ensures
        value_models(r@) == open_values(ledger@, kb_id, side, predicate_id, holder),
{
    let ghost p = open_at(kb_id, side, predicate_id, holder);
    let ghost q = can_list(ledger@, side);
    let ghost facts = ledger@.facts;
    let mut found: Vec<usize> = Vec::new();
    let mut picked: Vec<usize> = Vec::new();
    let mut keys: Vec<(i128, u128)> = Vec::new();
    let mut i: usize = 0;
    proof {
        reveal(Seq::filter);
        assert(selected(facts, found@) =~= facts.take(0).filter(p));
        assert(selected(facts, picked@) =~= facts.take(0).filter(p).filter(q));
    }
    while i < ledger.facts.len()
        invariant
            i <= ledger.facts@.len(),
            p == open_at(kb_id, side, predicate_id, holder),
            q == can_list(ledger@, side),
            facts == ledger@.facts,
            selected(facts, found@) == facts.take(i as int).filter(p),
            selected(facts, picked@) == facts.take(i as int).filter(p).filter(q),
            forall|j: int| 0 <= j < found@.len() ==> (#[trigger] found@[j]) < ledger.facts@.len(),
            keys@.len() == picked@.len(),
            forall|j: int|
                0 <= j < picked@.len() ==> (#[trigger] picked@[j]) < ledger.facts@.len()
                    && by_start()(facts[picked@[j] as int]) == (
                    keys@[j].0 as int,
                    keys@[j].1 as int,
                ),
        decreases ledger.facts@.len() - i,
    {
        let ghost held = facts.take(i as int).filter(p);
        proof {
            reveal(Seq::filter);
            assert(facts.take(i + 1).drop_last() =~= facts.take(i as int));
            assert(facts[i as int] == ledger.facts@[i as int]@);
            assert(held.push(facts[i as int]).drop_last() =~= held);
        }
        let ghost found1 = found@;
        let ghost picked1 = picked@;
        let f = &ledger.facts[i];
        if is_open_at(f, kb_id, side, predicate_id, holder) {
            found.push(i);
            assert(selected(facts, found@) =~= selected(facts, found1).push(facts[i as int]));
            let listed: bool = match side {
                Uniqueness::SubjectSide => true,
                Uniqueness::ObjectSide => find_name(ledger, f.subject_id).is_some(),
            };
            if listed {
                picked.push(i);
                keys.push(sort_key(f, ReplayOrder::Chronological));
                assert(selected(facts, picked@) =~= selected(facts, picked1).push(
                    facts[i as int],
                ));
            }
        }
        i = i + 1;
    }
    assert(facts.take(i as int) =~= facts);
    let mut values: Vec<OpenValue> = Vec::new();
    if !is_crowded(ledger, side, &found) {
        assert(value_models(values@) =~= Seq::empty());
        return values;
    }
    let ghost listed = selected(facts, picked@);
    let order = sorted_positions(&keys);
    proof {
        assert forall|j: int| 0 <= j < listed.len() implies by_start()(#[trigger] listed[j]) == (
            keys@[j].0 as int,
            keys@[j].1 as int,
        ) by {
            assert(listed[j] == facts[picked@[j] as int]);
        }
        lemma_sorted(listed, by_start(), keys@, order@);
    }
    let mut k: usize = 0;
    while k < order.len()
        invariant
            k <= order@.len(),
            order@.len() == picked@.len(),
            facts == ledger@.facts,
            listed == selected(facts, picked@),
            forall|j: int| 0 <= j < order@.len() ==> (#[trigger] order@[j]) < picked@.len(),
            forall|j: int|
                0 <= j < picked@.len() ==> (#[trigger] picked@[j]) < ledger.facts@.len(),
            values@.len() == k,
            forall|j: int|
                0 <= j < k ==> (#[trigger] values@[j])@ == value_of(ledger@, side)(
                    selected(listed, order@)[j],
                ),
        decreases order@.len() - k,
    {
        assert(order@[k as int] < picked@.len());
        assert(picked@[order@[k as int] as int] < ledger.facts@.len());
        let f = &ledger.facts[picked[order[k]]];
        assert(f@ == selected(listed, order@)[k as int]);
        let value = OpenValue {
            fact_id: f.id,
            name: find_value_name(ledger, side, f),
            valid_from: f.valid_from,
            confidence: f.confidence,
        };
        assert(value@ == value_of(ledger@, side)(f@));
        values.push(value);
        k = k + 1;
    }
    assert(value_models(values@) =~= selected(listed, order@).map_values(value_of(ledger@, side)));
    values
}

/// What is to be said of a relation on one side.
fn load_candidate(ledger: &Ledger, kb_id: u128, side: Uniqueness, n: usize) -> (r:
    UniquenessCandidate)
    requires
        n < ledger.relations@.len(),
    ensures
        r@ == candidate(ledger@, kb_id, side)(ledger.relations@[n as int]),
{
    let relation = &ledger.relations[n];
    let predicate_id: u128 = relation.id;
    let ghost entities = ledger@.entities;
    let ghost holder = as_holder(ledger@, kb_id, side, predicate_id);
    let ghost mut found = Seq::<HolderModel>::empty();
    let mut count: usize = 0;
    let mut open_facts: usize = 0;
    let mut would_close: usize = 0;
    let mut would_review: usize = 0;
    let mut examples: Vec<HolderExample> = Vec::new();
    let mut i: usize = 0;
    proof {
        reveal(Seq::filter);
        assert(entities.take(0).map_values(holder) =~= Seq::<HolderModel>::empty());
        assert(holder_models(examples@) =~= shown_of(found));
    }
    while i < ledger.entities.len()
        invariant
            i <= ledger.entities@.len(),
            entities == ledger@.entities,
            holder == as_holder(ledger@, kb_id, side, predicate_id),
            found == entities.take(i as int).map_values(holder).filter(has_values()),
            count == capped(found.len()),
            open_facts == capped(total(found, values_of())),
            would_close == capped(total(found, closes_of())),
            would_review == capped(total(found, reviews_of())),
            holder_models(examples@) == shown_of(found),
        decreases ledger.entities@.len() - i,
    {
        let ghost h = holder(entities[i as int]);
        proof {
            reveal(Seq::filter);
            assert(entities.take(i + 1).map_values(holder).drop_last() =~= entities.take(
                i as int,
            ).map_values(holder));
        }
        let values = load_values(ledger, kb_id, side, predicate_id, ledger.entities[i].id);
        assert(value_models(values@) == h.values);
        assert(values@.len() == h.values.len());
        if values.len() > 0 {
            let (close, review) = plan_closures(values.as_slice());
            count = count.saturating_add(1);
            open_facts = open_facts.saturating_add(values.len());
            would_close = would_close.saturating_add(close);
            would_review = would_review.saturating_add(review);
            let ghost before = found;
            proof {
                found = found.push(h);
                assert(found.drop_last() =~= before);
            }
            if examples.len() < EXAMPLE_HOLDERS {
                let ghost shown = holder_models(examples@);
                let example = HolderExample {
                    holder: ledger.entities[i].canonical_name.clone(),
                    values,
                };
                examples.push(example);
                assert(holder_models(examples@) =~= shown.push(h));
                assert(shown_of(found) =~= shown_of(before).push(h));
            } else {
                assert(holder_models(examples@).len() == EXAMPLE_HOLDERS);
                assert(shown_of(found) =~= shown_of(before));
            }
        }
        i = i + 1;
    }
    assert(entities.take(i as int) =~= entities);
    UniquenessCandidate {
        predicate_id,
        key: relation.key.clone(),
        label: relation.label.clone(),
        kind: relation.kind.clone(),
        side: match side {
            Uniqueness::SubjectSide => "subject",
            Uniqueness::ObjectSide => "object",
        },
        declared: match side {
            Uniqueness::SubjectSide => relation.functional,
            Uniqueness::ObjectSide => relation.inverse_functional,
        },
        holders: count,
        open_facts,
        would_close,
        would_review,
        examples,
    }
}

/// Adds the candidates of one side to a list.
fn add_candidates(
    ledger: &Ledger,
    kb_id: u128,
    side: Uniqueness,
    out: &mut Vec<UniquenessCandidate>,
)
    ensures
        candidate_models(final(out)@) == candidate_models(old(out)@) + candidates(
            ledger@,
            kb_id,
            side,
        ),
{
    let ghost p = could_be_unique(side);
    let ghost said = candidate(ledger@, kb_id, side);
    let ghost relations = ledger@.relations;
    let ghost before = candidate_models(out@);
    let ghost mut found = Seq::<CandidateModel>::empty();
    let mut i: usize = 0;
    proof {
        reveal(Seq::filter);
        assert(relations.take(0).filter(p).map_values(said) =~= Seq::<CandidateModel>::empty());
        assert(candidate_models(out@) =~= before + found);
    }
    while i < ledger.relations.len()
        invariant
            i <= ledger.relations@.len(),
            p == could_be_unique(side),
            said == candidate(ledger@, kb_id, side),
            relations == ledger@.relations,
            found == relations.take(i as int).filter(p).map_values(said).filter(has_holders()),
            candidate_models(out@) == before + found,
        decreases ledger.relations@.len() - i,
    {
        let ghost kept = relations.take(i as int).filter(p);
        proof {
            reveal(Seq::filter);
            assert(relations.take(i + 1).drop_last() =~= relations.take(i as int));
            assert(kept.push(relations[i as int]).map_values(said) =~= kept.map_values(said).push(
                said(relations[i as int]),
            ));
            assert(kept.map_values(said).push(said(relations[i as int])).drop_last()
                =~= kept.map_values(said));
        }
        let relation = &ledger.relations[i];
        let possible: bool = match side {
            Uniqueness::SubjectSide => !(relation.builtin && same_text(
                relation.key.as_str(),
                "known_as",
            )),
            Uniqueness::ObjectSide => same_text(relation.kind.as_str(), "relation"),
        };
        if same_text(relation.temporal.as_str(), "state") && possible {
            let cand = load_candidate(ledger, kb_id, side, i);
            assert(cand@.examples.len() == cand.examples@.len());
            if cand.examples.len() > 0 {
                let ghost listed = candidate_models(out@);
                out.push(cand);
                proof {
                    assert(candidate_models(out@) =~= listed.push(cand@));
                    let longer = found.push(cand@);
                    assert(candidate_models(out@) =~= before + longer);
                    found = longer;
                }
            }
        }
        i = i + 1;
    }
    assert(relations.take(i as int) =~= relations);
}

/// The relations of a knowledge base under which some holder has two or more open values: first
/// those of which the subject holds, then those of which the object does.
pub fn uniqueness_candidates(ledger: &Ledger, kb_id: u128) -> (r: Vec<UniquenessCandidate>)
    ensures
        candidate_models(r@) == candidates(ledger@, kb_id, Uniqueness::SubjectSide) + candidates(
            ledger@,
            kb_id,
            Uniqueness::ObjectSide,
        ),
{
    let mut out: Vec<UniquenessCandidate> = Vec::new();
    assert(candidate_models(out@) =~= Seq::empty());
    add_candidates(ledger, kb_id, Uniqueness::SubjectSide, &mut out);
    add_candidates(ledger, kb_id, Uniqueness::ObjectSide, &mut out);
    assert(candidate_models(out@) =~= candidates(ledger@, kb_id, Uniqueness::SubjectSide)
        + candidates(ledger@, kb_id, Uniqueness::ObjectSide));
    out
}

} // verus!
