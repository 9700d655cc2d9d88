//! The graph resolver: a bounded breadth-first traversal over lookup units.
//!
//! A resolution never performs a lookup itself. It says which lookup it needs
//! next, takes what the lookup gave, and says what it needs after that, until it
//! has a response. Whoever drives it performs the lookups.

use vstd::prelude::*;
use crate::config::RootView;
use crate::index::Index;
use crate::index::exposers;
use crate::index::is_distinct;
use crate::index::known;
use crate::index::lemma_exposers;
use crate::index::places;
use crate::listing::Listing;
use crate::listing::canonical;
use crate::listing::copy_listing;
use crate::listing::insert_pair;
use crate::listing::listed;
use crate::listing::pairs_of;
use crate::text::Text;
use crate::text::same_text;
use crate::text::text_pairs;

verus! {

/// The number of rounds that a resolution runs at most, unless it is given another bound.
pub const MAX_DEPTH: usize = 10;

/// A lookup unit: one relation asked for the rows in which one field has one value.
#[derive(Debug, Clone, PartialEq, Eq, Hash)]
pub struct Triple {
    pub relation: String,
    pub field: String,
    pub value: String,
}

/// A lookup unit as a mathematical value.
pub struct TripleView {
    pub relation: Text,
    pub field: Text,
    pub value: Text,
}

impl View for Triple {
    type V = TripleView;

    open spec fn view(&self) -> TripleView {
        TripleView { relation: self.relation@, field: self.field@, value: self.value@ }
    }
}

/// The lookup units that a list holds.
pub open spec fn triples(list: Seq<Triple>) -> Seq<TripleView> {
    Seq::new(list.len(), |i: int| list[i]@)
}

/// What a resolution answers a request with.
#[derive(Default, Debug, Clone, PartialEq)]
pub struct QueryResponse {
    pub success: bool,
    pub message: String,
    /// The fields found, ascending, each with its values, ascending and without repeats.
    pub data: Vec<(String, Vec<String>)>,
}

/// A response as a mathematical value.
pub struct ResponseView {
    pub success: bool,
    pub message: Text,
    pub data: Listing,
}

impl View for QueryResponse {
    type V = ResponseView;

    open spec fn view(&self) -> ResponseView {
        ResponseView { success: self.success, message: self.message@, data: listed(self.data@) }
    }
}

/// What a resolution needs next.
#[derive(Debug, Clone, PartialEq)]
pub enum Action {
    /// Perform this lookup and hand back what it gave.
    Lookup(Triple),
    /// The resolution is over: this is its response.
    Respond(QueryResponse),
}

/// An action as a mathematical value.
pub enum ActionView {
    Lookup(TripleView),
    Respond(ResponseView),
}

impl View for Action {
    type V = ActionView;

    open spec fn view(&self) -> ActionView {
        match self {
            Action::Lookup(triple) => ActionView::Lookup(triple@),
            Action::Respond(response) => ActionView::Respond(response@),
        }
    }
}

/// What a lookup gave, as a mathematical value: the (field, value) pairs of the
/// matched rows, or why the lookup failed.
pub type Outcome = Result<Seq<(Text, Text)>, Text>;

/// The mathematical value of what a lookup gave.
pub open spec fn outcome_view(outcome: Result<Vec<(String, String)>, String>) -> Outcome {
    match outcome {
        Ok(pairs) => Ok(text_pairs(pairs@)),
        Err(why) => Err(why@),
    }
}

/// The message of a request that names a field which no relation exposes.
pub open spec fn unknown_field_text(field: Text) -> Text {
    "no relation has field `"@ + field + "`"@
}

/// The message of a request in which a lookup failed.
pub open spec fn lookup_failure_text(triple: TripleView, why: Text) -> Text {
    "failed to query relation `"@ + triple.relation + "` with field `"@ + triple.field
        + "`, value `"@ + triple.value + "`: "@ + why
}

/// The message of a request that was cut short by the bound on rounds.
pub open spec fn depth_warning_text() -> Text {
    "depth length limit exceeded"@
}

/// The state of a resolution.
pub struct Progress {
    /// Every lookup of the rounds begun so far, in the order in which they are asked for.
    pub issued: Seq<TripleView>,
    /// How many of them have been answered.
    pub answered: nat,
    /// The lookups gathered for the next round.
    pub pending: Seq<TripleView>,
    /// The (field, value) pairs found so far.
    pub found: Set<(Text, Text)>,
    /// The number of rounds begun.
    pub rounds: nat,
    /// The number of rounds that may be begun.
    pub limit: nat,
    /// Why the request failed, if it did.
    pub failure: Option<Text>,
}

/// The names of the relations that expose `field`, in declaration order.
pub open spec fn exposer_names(cfg: RootView, field: Text) -> Seq<Text> {
    Seq::new(
        exposers(cfg.relations, field).len(),
        |i: int| cfg.relations[exposers(cfg.relations, field)[i]].name,
    )
}

/// `pending`, and behind it a lookup of (`field`, `value`) in each of the relations
/// `names` that is neither issued nor lined up yet.
pub open spec fn enqueue(
    names: Seq<Text>,
    field: Text,
    value: Text,
    issued: Seq<TripleView>,
    pending: Seq<TripleView>,
) -> Seq<TripleView>
    decreases names.len(),
{
    if names.len() == 0 {
        pending
    } else {
        let earlier = enqueue(names.drop_last(), field, value, issued, pending);
        let triple = TripleView { relation: names.last(), field, value };
        if issued.contains(triple) || earlier.contains(triple) {
            earlier
        } else {
            earlier.push(triple)
        }
    }
}

/// The state before anything was asked for.
pub open spec fn fresh(limit: nat) -> Progress {
    Progress {
        issued: Seq::empty(),
        answered: 0,
        pending: Seq::empty(),
        found: Set::empty(),
        rounds: 0,
        limit,
        failure: None,
    }
}

/// Takes in one (field, value) pair. A field that no relation exposes fails the request.
/// A seed lines up a lookup in every relation that exposes its field. A pair that a
/// lookup gave is recorded as found, and lines up lookups only if its field is distinct.
pub open spec fn take_in(cfg: RootView, p: Progress, field: Text, value: Text, seeding: bool) -> Progress {
    if !known(cfg, field) {
        Progress { failure: Some(unknown_field_text(field)), ..p }
    } else {
        Progress {
            found: if seeding {
                p.found
            } else {
                p.found.insert((field, value))
            },
            pending: if seeding || is_distinct(cfg.fields, field) {
                enqueue(exposer_names(cfg, field), field, value, p.issued, p.pending)
            } else {
                p.pending
            },
            ..p
        }
    }
}

/// Takes in pairs in their order, up to the first that fails the request.
pub open spec fn take_all(cfg: RootView, p: Progress, pairs: Seq<(Text, Text)>, seeding: bool) -> Progress
    decreases pairs.len(),
{
    if pairs.len() == 0 {
        p
    } else {
        let q = take_all(cfg, p, pairs.drop_last(), seeding);
        if q.failure is Some {
            q
        } else {
            take_in(cfg, q, pairs.last().0, pairs.last().1, seeding)
        }
    }
}

/// Taking pairs in touches neither the lookups issued, nor the count of answers, nor
/// the rounds.
pub proof fn lemma_take_all_keeps(cfg: RootView, p: Progress, pairs: Seq<(Text, Text)>, seeding: bool)
    ensures
        take_all(cfg, p, pairs, seeding).issued == p.issued,
        take_all(cfg, p, pairs, seeding).answered == p.answered,
        take_all(cfg, p, pairs, seeding).rounds == p.rounds,
        take_all(cfg, p, pairs, seeding).limit == p.limit,
    decreases pairs.len(),
{
    if pairs.len() > 0 {
        lemma_take_all_keeps(cfg, p, pairs.drop_last(), seeding);
    }
}

/// The next round is due: the request has not failed, every lookup issued is answered,
/// lookups are lined up, and the bound on rounds is not reached.
pub open spec fn round_due(p: Progress) -> bool {
    p.failure is None && p.answered >= p.issued.len() && p.pending.len() > 0 && p.rounds < p.limit
}

/// Begins the next round where one is due: the lookups lined up are issued, behind
/// those of the rounds before.
pub open spec fn settle(p: Progress) -> Progress {
    if round_due(p) {
        Progress {
            issued: p.issued + p.pending,
            pending: Seq::empty(),
            rounds: p.rounds + 1,
            ..p
        }
    } else {
        p
    }
}

/// The state waits for what a lookup gave.
pub open spec fn in_flight(p: Progress) -> bool {
    p.failure is None && p.answered < p.issued.len()
}

/// What a resolution asks of its driver.
pub enum Asked {
    Lookup(TripleView),
    Respond { success: bool, message: Text, found: Set<(Text, Text)> },
}

/// What a settled state asks for: the next unanswered lookup of the round, or the
/// response. A failed request responds with its failure and no data. A request whose
/// lookups are all answered responds with what it found, and with a warning where
/// lookups were still lined up when the bound on rounds was reached.
pub open spec fn asked(p: Progress) -> Asked {
    match p.failure {
        Some(message) => Asked::Respond { success: false, message, found: Set::empty() },
        None => if in_flight(p) {
            Asked::Lookup(p.issued[p.answered as int])
        } else if p.pending.len() == 0 {
            Asked::Respond { success: true, message: Seq::empty(), found: p.found }
        } else {
            Asked::Respond { success: true, message: depth_warning_text(), found: p.found }
        },
    }
}

/// The action is the one asked for. A response lists what was found in canonical form.
pub open spec fn action_matches(action: ActionView, wanted: Asked) -> bool {
    match wanted {
        Asked::Lookup(triple) => action == ActionView::Lookup(triple),
        Asked::Respond { success, message, found } => {
            &&& action matches ActionView::Respond(response)
            &&& response.success == success
            &&& response.message == message
            &&& canonical(response.data)
            &&& pairs_of(response.data) == found
            &&& !success ==> response.data.len() == 0
        },
    }
}

/// The state in which a request with these seeds starts.
pub open spec fn begin_spec(cfg: RootView, seeds: Seq<(Text, Text)>, limit: nat) -> Progress {
    settle(take_all(cfg, fresh(limit), seeds, true))
}

/// The state after the lookup that was asked for gave `outcome`: a lookup that failed
/// fails the request; the pairs that a lookup gave are taken in. Either way the lookup
/// counts as answered, and the next round begins where it is due. A state that asked
/// for no lookup stays as it is.
pub open spec fn step_spec(cfg: RootView, p: Progress, outcome: Outcome) -> Progress {
    if !in_flight(p) {
        p
    } else {
        let q = match outcome {
            Err(why) => Progress {
                failure: Some(lookup_failure_text(p.issued[p.answered as int], why)),
                ..p
            },
            Ok(pairs) => take_all(cfg, p, pairs, false),
        };
        settle(Progress { answered: p.answered + 1, ..q })
    }
}

/// The message of a request that names a field which no relation exposes.
pub fn unknown_field_message(field: &str) -> (message: String)
    ensures
        message@ == unknown_field_text(field@),
{
    let mut message = String::from_str("no relation has field `");
    message.append(field);
    message.append("`");
    message
}

/// The message of a request in which the lookup `triple` failed with `why`.
pub fn lookup_failure_message(triple: &Triple, why: &str) -> (message: String)
    ensures
        message@ == lookup_failure_text(triple@, why@),
{
    let mut message = String::from_str("failed to query relation `");
    message.append(triple.relation.as_str());
    message.append("` with field `");
    message.append(triple.field.as_str());
    message.append("`, value `");
    message.append(triple.value.as_str());
    message.append("`: ");
    message.append(why);
    message
}

/// Whether the list holds the lookup unit.
fn holds(list: &Vec<Triple>, relation: &str, field: &str, value: &str) -> (found: bool)
    ensures
        found == triples(list@).contains(TripleView { relation: relation@, field: field@, value: value@ }),
{
    let ghost wanted = TripleView { relation: relation@, field: field@, value: value@ };
    let mut i: usize = 0;
    while i < list.len()
        invariant
            i <= list@.len(),
            wanted == (TripleView { relation: relation@, field: field@, value: value@ }),
            forall|h: int| 0 <= h < i ==> (#[trigger] triples(list@)[h]) != wanted,
        decreases list@.len() - i,
    {
        if same_text(list[i].relation.as_str(), relation) && same_text(
            list[i].field.as_str(),
            field,
        ) && same_text(list[i].value.as_str(), value) {
            assert(triples(list@)[i as int] == wanted);
            return true;
        }
        assert(triples(list@)[i as int] == list@[i as int]@);
        i += 1;
    }
    false
}

/// Lines up a lookup of (`field`, `value`) in each of the relations at `positions`.
fn line_up(
    index: &Index,
    positions: &Vec<usize>,
    field: &str,
    value: &str,
    issued: &Vec<Triple>,
    pending: Vec<Triple>,
) -> (grown: Vec<Triple>)
    requires
        places(positions@) == exposers(index@.relations, field@),
    ensures
        triples(grown@) == enqueue(
            exposer_names(index@, field@),
            field@,
            value@,
            triples(issued@),
            triples(pending@),
        ),
{
    let ghost names = exposer_names(index@, field@);
    let ghost start = triples(pending@);
    let mut grown = pending;
    let mut i: usize = 0;
    proof {
        lemma_exposers(index@.relations, field@);
        assert(names.take(0) =~= Seq::<Text>::empty());
    }
    while i < positions.len()
        invariant
            i <= positions@.len(),
            places(positions@) == exposers(index@.relations, field@),
            names == exposer_names(index@, field@),
            forall|a: int|
                0 <= a < exposers(index@.relations, field@).len() ==> 0 <= #[trigger] exposers(
                    index@.relations,
                    field@,
                )[a] < index@.relations.len(),
            triples(grown@) == enqueue(names.take(i as int), field@, value@, triples(issued@), start),
        decreases positions@.len() - i,
    {
        proof {
            assert(places(positions@)[i as int] == positions@[i as int]);
            assert(0 <= exposers(index@.relations, field@)[i as int] < index@.relations.len());
        }
        let relation = index.relation(positions[i]);
        let ghost before = triples(grown@);
        proof {
            assert(names.take(i + 1).drop_last() =~= names.take(i as int));
            assert(names.take(i + 1).last() == relation@.name);
            assert(relation@.name == relation.name@);
        }
        if !holds(issued, relation.name.as_str(), field, value) && !holds(
            &grown,
            relation.name.as_str(),
            field,
            value,
        ) {
            let triple = Triple {
                relation: relation.name.clone(),
                field: String::from_str(field),
                value: String::from_str(value),
            };
            grown.push(triple);
            assert(triples(grown@) =~= before.push(
                TripleView { relation: relation@.name, field: field@, value: value@ },
            ));
        }
        i += 1;
    }
    assert(names.take(i as int) =~= names);
    grown
}

/// A copy of a lookup unit.
fn copy_triple(triple: &Triple) -> (copy: Triple)
    ensures
        copy@ == triple@,
{
    Triple {
        relation: triple.relation.clone(),
        field: triple.field.clone(),
        value: triple.value.clone(),
    }
}

/// A resolution in progress. It belongs to one request and to the index it was begun with.
pub struct Resolution {
    issued: Vec<Triple>,
    answered: usize,
    pending: Vec<Triple>,
    found: Vec<(String, Vec<String>)>,
    rounds: usize,
    limit: usize,
    failure: Option<String>,
}

impl View for Resolution {
    type V = Progress;

    closed spec fn view(&self) -> Progress {
        Progress {
            issued: triples(self.issued@),
            answered: self.answered as nat,
            pending: triples(self.pending@),
            found: pairs_of(listed(self.found@)),
            rounds: self.rounds as nat,
            limit: self.limit as nat,
            failure: match self.failure {
                Some(message) => Some(message@),
                None => None,
            },
        }
    }
}

impl Resolution {
    /// What is found is kept in canonical form, and no more lookups are answered than
    /// were issued.
    pub closed spec fn wf(&self) -> bool {
        &&& self.answered <= self.issued@.len()
        &&& canonical(listed(self.found@))
    }

    fn take_in(self, index: &Index, field: &str, value: &str, seeding: bool) -> (next: Resolution)
        requires
            index.wf(),
            self.wf(),
        ensures
            next.wf(),
            next@ == take_in(index@, self@, field@, value@, seeding),
    {
        let Resolution { issued, answered, pending, found, rounds, limit, failure } = self;
        match index.lookup(field) {
            None => Resolution {
                issued,
                answered,
                pending,
                found,
                rounds,
                limit,
                failure: Some(unknown_field_message(field)),
            },
            Some((positions, distinct)) => {
                let mut found = found;
                if !seeding {
                    insert_pair(&mut found, field, value);
                }
                let pending = if seeding || distinct {
                    line_up(index, positions, field, value, &issued, pending)
                } else {
                    pending
                };
                Resolution { issued, answered, pending, found, rounds, limit, failure }
            },
        }
    }

    fn take_all(self, index: &Index, pairs: &Vec<(String, String)>, seeding: bool) -> (next: Resolution)
        requires
            index.wf(),
            self.wf(),
        ensures
            next.wf(),
            next@ == take_all(index@, self@, text_pairs(pairs@), seeding),
    {
        let ghost start = self@;
        let ghost all = text_pairs(pairs@);
        let mut state = self;
        let mut i: usize = 0;
        assert(all.take(0) =~= Seq::<(Text, Text)>::empty());
        while i < pairs.len()
            invariant
                i <= pairs@.len(),
                index.wf(),
                state.wf(),
                all == text_pairs(pairs@),
                state@ == take_all(index@, start, all.take(i as int), seeding),
            decreases pairs@.len() - i,
        {
            proof {
                assert(all.take(i + 1).drop_last() =~= all.take(i as int));
                assert(all.take(i + 1).last() == (pairs@[i as int].0@, pairs@[i as int].1@));
            }
            if state.failure.is_none() {
                state = state.take_in(index, pairs[i].0.as_str(), pairs[i].1.as_str(), seeding);
            }
            i += 1;
        }
        assert(all.take(i as int) =~= all);
        state
    }

    fn settle(self) -> (next: Resolution)
        requires
            self.wf(),
        ensures
            next.wf(),
            next@ == settle(self@),
    {
        if self.failure.is_none() && self.answered >= self.issued.len() && self.pending.len() > 0
            && self.rounds < self.limit {
            let Resolution { issued, answered, pending, found, rounds, limit, failure } = self;
            let mut issued = issued;
            let mut pending = pending;
            let ghost first = triples(issued@);
            let ghost second = triples(pending@);
            issued.append(&mut pending);
            assert(triples(issued@) =~= first + second);
            assert(triples(pending@) =~= Seq::<TripleView>::empty());
            Resolution { issued, answered, pending, found, rounds: rounds + 1, limit, failure }
        } else {
            self
        }
    }

    fn action(&self) -> (action: Action)
        requires
            self.wf(),
        ensures
            action_matches(action@, asked(self@)),
    {
        match &self.failure {
            Some(message) => {
                let data: Vec<(String, Vec<String>)> = Vec::new();
                assert(listed(data@) =~= Seq::<(Text, Seq<Text>)>::empty());
                assert(pairs_of(listed(data@)) =~= Set::<(Text, Text)>::empty());
                Action::Respond(QueryResponse { success: false, message: message.clone(), data })
            },
            None => {
                if self.answered < self.issued.len() {
                    Action::Lookup(copy_triple(&self.issued[self.answered]))
                } else if self.pending.len() == 0 {
                    Action::Respond(
                        QueryResponse {
                            success: true,
                            message: String::new(),
                            data: copy_listing(&self.found),
                        },
                    )
                } else {
                    Action::Respond(
                        QueryResponse {
                            success: true,
                            message: String::from_str("depth length limit exceeded"),
                            data: copy_listing(&self.found),
                        },
                    )
                }
            },
        }
    }

    /// The lookups of the round that are not answered yet, in the order in which they are
    /// asked for. What one of them gives changes none of the others: a driver may perform
    /// them side by side, and then hand back what they gave one by one, in this order.
    pub fn unanswered(&self) -> (units: Vec<Triple>)
        requires
            self.wf(),
        ensures
            triples(units@) == if self@.failure is None {
                self@.issued.skip(self@.answered as int)
            } else {
                Seq::empty()
            },
    {
        let mut units: Vec<Triple> = Vec::new();
        if self.failure.is_some() {
            assert(triples(units@) =~= Seq::<TripleView>::empty());
            return units;
        }
        let mut i: usize = self.answered;
        assert(triples(units@) =~= triples(self.issued@).subrange(i as int, i as int));
        while i < self.issued.len()
            invariant
                self.answered <= i <= self.issued@.len(),
                triples(units@) == triples(self.issued@).subrange(self.answered as int, i as int),
            decreases self.issued@.len() - i,
        {
            let ghost before = triples(units@);
            units.push(copy_triple(&self.issued[i]));
            assert(triples(units@) =~= before.push(self.issued@[i as int]@));
            assert(triples(self.issued@).subrange(self.answered as int, i + 1) =~= before.push(
                self.issued@[i as int]@,
            ));
            i += 1;
        }
        assert(triples(self.issued@).subrange(self.answered as int, i as int) =~= triples(
            self.issued@,
        ).skip(self.answered as int));
        units
    }

    /// Begins the resolution of a request, with at most `limit` rounds. The first action
    /// is the first lookup, or the response where nothing is to be looked up: a seed
    /// whose field no relation exposes fails the request, and no seeds find nothing.
    pub fn begin_bounded(index: &Index, seeds: &Vec<(String, String)>, limit: usize) -> (started: (
        Resolution,
        Action,
    ))
        requires
            index.wf(),
        ensures
            started.0.wf(),
            started.0@ == begin_spec(index@, text_pairs(seeds@), limit as nat),
            action_matches(started.1@, asked(started.0@)),
    {
        let state = Resolution {
            issued: Vec::new(),
            answered: 0,
            pending: Vec::new(),
            found: Vec::new(),
            rounds: 0,
            limit,
            failure: None,
        };
        proof {
            assert(triples(state.issued@) =~= Seq::<TripleView>::empty());
            assert(triples(state.pending@) =~= Seq::<TripleView>::empty());
            assert(listed(state.found@) =~= Seq::<(Text, Seq<Text>)>::empty());
            assert(pairs_of(listed(state.found@)) =~= Set::<(Text, Text)>::empty());
            assert(state@ == fresh(limit as nat));
        }
        let state = state.take_all(index, seeds, true).settle();
        let action = state.action();
        (state, action)
    }

    /// Begins the resolution of a request, with at most `MAX_DEPTH` rounds.
    pub fn begin(index: &Index, seeds: &Vec<(String, String)>) -> (started: (Resolution, Action))
        requires
            index.wf(),
        ensures
            started.0.wf(),
            started.0@ == begin_spec(index@, text_pairs(seeds@), MAX_DEPTH as nat),
            action_matches(started.1@, asked(started.0@)),
    {
        Resolution::begin_bounded(index, seeds, MAX_DEPTH)
    }

    /// Takes what the lookup that was asked for gave, and says what is needed next.
    /// Where no lookup was asked for, the state stays as it is and the response comes again.
    pub fn step(self, index: &Index, outcome: Result<Vec<(String, String)>, String>) -> (next: (
        Resolution,
        Action,
    ))
        requires
            index.wf(),
            self.wf(),
        ensures
            next.0.wf(),
            next.0@ == step_spec(index@, self@, outcome_view(outcome)),
            action_matches(next.1@, asked(next.0@)),
    {
        if self.failure.is_some() || self.answered >= self.issued.len() {
            let action = self.action();
            return (self, action);
        }
        let taken = match outcome {
            Err(why) => {
                let message = lookup_failure_message(&self.issued[self.answered], why.as_str());
                let Resolution { issued, answered, pending, found, rounds, limit, failure } = self;
                Resolution { issued, answered, pending, found, rounds, limit, failure: Some(message) }
            },
            Ok(pairs) => {
                proof {
                    lemma_take_all_keeps(index@, self@, text_pairs(pairs@), false);
                }
                self.take_all(index, &pairs, false)
            },
        };
        let Resolution { issued, answered, pending, found, rounds, limit, failure } = taken;
        let counted = Resolution {
            issued,
            answered: answered + 1,
            pending,
            found,
            rounds,
            limit,
            failure,
        };
        let state = counted.settle();
        let action = state.action();
        (state, action)
    }
}

} // verus!
