//! What holds of every resolution, whatever the lookups give.

use vstd::prelude::*;
use vstd::seq_lib::lemma_no_dup_in_concat;
use crate::config::RootView;
use crate::index::is_distinct;
use crate::index::known;
use crate::listing::Listing;
use crate::listing::canonical;
use crate::listing::keys;
use crate::listing::pairs_of;
use crate::resolver::ActionView;
use crate::resolver::Asked;
use crate::resolver::Outcome;
use crate::resolver::Progress;
use crate::resolver::ResponseView;
use crate::resolver::TripleView;
use crate::resolver::action_matches;
use crate::resolver::asked;
use crate::resolver::begin_spec;
use crate::resolver::depth_warning_text;
use crate::resolver::enqueue;
use crate::resolver::exposer_names;
use crate::resolver::fresh;
use crate::resolver::in_flight;
use crate::resolver::round_due;
use crate::resolver::settle;
use crate::resolver::step_spec;
use crate::resolver::take_all;
use crate::resolver::take_in;
use crate::text::Text;
use crate::text::ascending;
use crate::text::lemma_precedes_asymmetric;
use crate::text::precedes;

verus! {

/// A state in good order: no lookup unit is issued twice or lined up twice, none is
/// lined up that was issued, no more lookups are answered than were issued, and no more
/// rounds are begun than allowed.
pub open spec fn tidy(p: Progress) -> bool {
    &&& p.answered <= p.issued.len()
    &&& p.issued.no_duplicates()
    &&& p.pending.no_duplicates()
    &&& forall|t: TripleView| p.pending.contains(t) ==> !p.issued.contains(t)
    &&& p.rounds <= p.limit
}

/// The state that a request is in after its driver handed back `outcomes`, one by one.
pub open spec fn run(cfg: RootView, seeds: Seq<(Text, Text)>, limit: nat, outcomes: Seq<Outcome>) -> Progress
    decreases outcomes.len(),
{
    if outcomes.len() == 0 {
        begin_spec(cfg, seeds, limit)
    } else {
        step_spec(cfg, run(cfg, seeds, limit, outcomes.drop_last()), outcomes.last())
    }
}

/// The lookups that a request asked of its driver in the course of a run, in order.
pub open spec fn lookups(cfg: RootView, seeds: Seq<(Text, Text)>, limit: nat, outcomes: Seq<Outcome>) -> Seq<TripleView>
    decreases outcomes.len(),
{
    let earlier = if outcomes.len() == 0 {
        Seq::empty()
    } else {
        lookups(cfg, seeds, limit, outcomes.drop_last())
    };
    match asked(run(cfg, seeds, limit, outcomes)) {
        Asked::Lookup(triple) => earlier.push(triple),
        Asked::Respond { .. } => earlier,
    }
}

/// How many of the lookups issued were asked of the driver.
pub open spec fn shown(p: Progress) -> nat {
    if in_flight(p) {
        p.answered + 1
    } else {
        p.answered
    }
}

/// What lining up adds: nothing twice, nothing that was issued, and only lookups of the
/// given field and value in the given relations. What was lined up stays.
pub proof fn lemma_enqueue(
    names: Seq<Text>,
    field: Text,
    value: Text,
    issued: Seq<TripleView>,
    pending: Seq<TripleView>,
)
    requires
        pending.no_duplicates(),
        forall|t: TripleView| pending.contains(t) ==> !issued.contains(t),
    ensures
        enqueue(names, field, value, issued, pending).no_duplicates(),
        forall|t: TripleView|
            enqueue(names, field, value, issued, pending).contains(t) ==> !issued.contains(t),
        forall|t: TripleView|
            enqueue(names, field, value, issued, pending).contains(t) ==> pending.contains(t) || (
            t.field == field && t.value == value && names.contains(t.relation)),
        forall|t: TripleView|
            pending.contains(t) ==> enqueue(names, field, value, issued, pending).contains(t),
    decreases names.len(),
{
    let all = enqueue(names, field, value, issued, pending);
    if names.len() > 0 {
        let earlier = enqueue(names.drop_last(), field, value, issued, pending);
        lemma_enqueue(names.drop_last(), field, value, issued, pending);
        let triple = TripleView { relation: names.last(), field, value };
        assert(names.contains(names.last())) by {
            assert(names[names.len() - 1] == names.last());
        }
        assert forall|t: TripleView| #[trigger] earlier.contains(t) implies pending.contains(t) || (
        t.field == field && t.value == value && names.contains(t.relation)) by {
            if !pending.contains(t) {
                let k = choose|k: int|
                    0 <= k < names.drop_last().len() && names.drop_last()[k] == t.relation;
                assert(names[k] == t.relation);
            }
        }
        if !(issued.contains(triple) || earlier.contains(triple)) {
            assert(all == earlier.push(triple));
            assert forall|i: int, j: int| 0 <= i < all.len() && 0 <= j < all.len() && i != j implies all[i]
                != all[j] by {
                if i < earlier.len() && j < earlier.len() {
                    assert(earlier[i] != earlier[j]);
                } else if i < earlier.len() {
                    assert(earlier.contains(earlier[i]));
                } else {
                    assert(earlier.contains(earlier[j]));
                }
            }
            assert forall|t: TripleView| all.contains(t) implies !issued.contains(t) && (
            pending.contains(t) || (t.field == field && t.value == value && names.contains(
                t.relation,
            ))) by {
                let i = choose|i: int| 0 <= i < all.len() && all[i] == t;
                if i < earlier.len() {
                    assert(earlier.contains(t));
                }
            }
            assert forall|t: TripleView| pending.contains(t) implies all.contains(t) by {
                assert(earlier.contains(t));
                let i = choose|i: int| 0 <= i < earlier.len() && earlier[i] == t;
                assert(all[i] == t);
            }
        }
    }
}

/// Taking a pair in keeps a state in good order.
pub proof fn lemma_take_in_tidy(cfg: RootView, p: Progress, field: Text, value: Text, seeding: bool)
    requires
        tidy(p),
    ensures
        tidy(take_in(cfg, p, field, value, seeding)),
        take_in(cfg, p, field, value, seeding).issued == p.issued,
        take_in(cfg, p, field, value, seeding).answered == p.answered,
        take_in(cfg, p, field, value, seeding).rounds == p.rounds,
        take_in(cfg, p, field, value, seeding).limit == p.limit,
{
    lemma_enqueue(exposer_names(cfg, field), field, value, p.issued, p.pending);
}

/// Taking pairs in keeps a state in good order.
pub proof fn lemma_take_all_tidy(cfg: RootView, p: Progress, pairs: Seq<(Text, Text)>, seeding: bool)
    requires
        tidy(p),
    ensures
        tidy(take_all(cfg, p, pairs, seeding)),
        take_all(cfg, p, pairs, seeding).issued == p.issued,
        take_all(cfg, p, pairs, seeding).answered == p.answered,
        take_all(cfg, p, pairs, seeding).rounds == p.rounds,
        take_all(cfg, p, pairs, seeding).limit == p.limit,
    decreases pairs.len(),
{
    if pairs.len() > 0 {
        lemma_take_all_tidy(cfg, p, pairs.drop_last(), seeding);
        let q = take_all(cfg, p, pairs.drop_last(), seeding);
        if q.failure is None {
            lemma_take_in_tidy(cfg, q, pairs.last().0, pairs.last().1, seeding);
        }
    }
}

/// Beginning a round keeps a state in good order, and leaves no round due. The lookups
/// issued before stay in their places.
pub proof fn lemma_settle_tidy(p: Progress)
    requires
        tidy(p),
    ensures
        tidy(settle(p)),
        !round_due(settle(p)),
        settle(p).issued.len() >= p.issued.len(),
        settle(p).issued.take(p.issued.len() as int) == p.issued,
        settle(p).answered == p.answered,
        settle(p).failure == p.failure,
        settle(p).limit == p.limit,
{
    let q = settle(p);
    if round_due(p) {
        assert forall|i: int, j: int| 0 <= i < p.issued.len() && 0 <= j < p.pending.len() implies p.issued[i]
            != p.pending[j] by {
            assert(p.pending.contains(p.pending[j]));
            assert(p.issued.contains(p.issued[i]));
        }
        lemma_no_dup_in_concat(p.issued, p.pending);
        assert(q.issued.take(p.issued.len() as int) =~= p.issued);
    } else {
        assert(q.issued.take(p.issued.len() as int) =~= p.issued);
    }
}

/// A request starts in good order.
pub proof fn lemma_begin_tidy(cfg: RootView, seeds: Seq<(Text, Text)>, limit: nat)
    ensures
        tidy(begin_spec(cfg, seeds, limit)),
        !round_due(begin_spec(cfg, seeds, limit)),
        begin_spec(cfg, seeds, limit).answered == 0,
        begin_spec(cfg, seeds, limit).limit == limit,
{
    lemma_take_all_tidy(cfg, fresh(limit), seeds, true);
    lemma_settle_tidy(take_all(cfg, fresh(limit), seeds, true));
}

/// A step keeps a state in good order and leaves no round due. The lookups issued
/// before stay in their places, and a lookup that was waited for is answered.
pub proof fn lemma_step_tidy(cfg: RootView, p: Progress, outcome: Outcome)
    requires
        tidy(p),
        !round_due(p),
    ensures
        tidy(step_spec(cfg, p, outcome)),
        !round_due(step_spec(cfg, p, outcome)),
        step_spec(cfg, p, outcome).issued.len() >= p.issued.len(),
        step_spec(cfg, p, outcome).issued.take(p.issued.len() as int) == p.issued,
        step_spec(cfg, p, outcome).answered == shown(p),
        step_spec(cfg, p, outcome).limit == p.limit,
        !in_flight(p) ==> step_spec(cfg, p, outcome) == p,
{
    if in_flight(p) {
        let q = match outcome {
            Err(why) => Progress {
                failure: Some(
                    crate::resolver::lookup_failure_text(p.issued[p.answered as int], why),
                ),
                ..p
            },
            Ok(pairs) => take_all(cfg, p, pairs, false),
        };
        match outcome {
            Err(why) => {},
            Ok(pairs) => {
                lemma_take_all_tidy(cfg, p, pairs, false);
            },
        }
        let counted = Progress { answered: p.answered + 1, ..q };
        assert(tidy(counted));
        lemma_settle_tidy(counted);
    } else {
        assert(p.issued.take(p.issued.len() as int) =~= p.issued);
    }
}

/// Every run stays in good order, and the lookups asked of the driver are the first of
/// the lookups issued.
pub proof fn lemma_run(cfg: RootView, seeds: Seq<(Text, Text)>, limit: nat, outcomes: Seq<Outcome>)
    ensures
        tidy(run(cfg, seeds, limit, outcomes)),
        !round_due(run(cfg, seeds, limit, outcomes)),
        run(cfg, seeds, limit, outcomes).limit == limit,
        lookups(cfg, seeds, limit, outcomes) == run(cfg, seeds, limit, outcomes).issued.take(
            shown(run(cfg, seeds, limit, outcomes)) as int,
        ),
    decreases outcomes.len(),
{
    let q = run(cfg, seeds, limit, outcomes);
    if outcomes.len() == 0 {
        lemma_begin_tidy(cfg, seeds, limit);
        assert(lookups(cfg, seeds, limit, outcomes) =~= q.issued.take(shown(q) as int));
    } else {
        let p = run(cfg, seeds, limit, outcomes.drop_last());
        lemma_run(cfg, seeds, limit, outcomes.drop_last());
        lemma_step_tidy(cfg, p, outcomes.last());
        let earlier = lookups(cfg, seeds, limit, outcomes.drop_last());
        assert(earlier == p.issued.take(shown(p) as int));
        assert(q.issued.take(p.issued.len() as int) == p.issued);
        assert(earlier =~= q.issued.take(shown(p) as int)) by {
            assert forall|i: int| 0 <= i < shown(p) implies p.issued[i] == q.issued[i] by {
                assert(q.issued.take(p.issued.len() as int)[i] == q.issued[i]);
            }
        }
        assert(lookups(cfg, seeds, limit, outcomes) =~= q.issued.take(shown(q) as int));
    }
}

/// No lookup unit is looked up more than once: the lookups that a request asks of its
/// driver are pairwise distinct, whatever the lookups give. There are no more of them
/// than lookup units were issued.
pub proof fn lemma_lookups_once(cfg: RootView, seeds: Seq<(Text, Text)>, limit: nat, outcomes: Seq<Outcome>)
    ensures
        lookups(cfg, seeds, limit, outcomes).no_duplicates(),
        lookups(cfg, seeds, limit, outcomes).len() <= run(cfg, seeds, limit, outcomes).issued.len(),
{
    lemma_run(cfg, seeds, limit, outcomes);
    let q = run(cfg, seeds, limit, outcomes);
    let asked = lookups(cfg, seeds, limit, outcomes);
    assert forall|i: int, j: int| 0 <= i < asked.len() && 0 <= j < asked.len() && i != j implies asked[i]
        != asked[j] by {
        assert(asked[i] == q.issued[i]);
        assert(asked[j] == q.issued[j]);
    }
}

/// The lookup unit stems from a seed, or looks up by a distinct field.
pub open spec fn seeded_or_distinct(cfg: RootView, seeds: Seq<(Text, Text)>, triple: TripleView) -> bool {
    is_distinct(cfg.fields, triple.field) || seeds.contains((triple.field, triple.value))
}

/// Every lookup unit that the state issued or lined up stems from a seed or looks up
/// by a distinct field.
pub open spec fn grounded(cfg: RootView, seeds: Seq<(Text, Text)>, p: Progress) -> bool {
    forall|t: TripleView|
        p.issued.contains(t) || p.pending.contains(t) ==> seeded_or_distinct(cfg, seeds, t)
}

/// A value found for a field that is not distinct lines up no lookup: the lookups
/// lined up and the lookups issued stay as they are. Where a relation exposes the field,
/// the value is recorded as found, and nothing else changes.
pub proof fn lemma_terminal_field(cfg: RootView, p: Progress, field: Text, value: Text)
    requires
        !is_distinct(cfg.fields, field),
    ensures
        take_in(cfg, p, field, value, false).pending == p.pending,
        take_in(cfg, p, field, value, false).issued == p.issued,
        known(cfg, field) ==> take_in(cfg, p, field, value, false) == (Progress {
            found: p.found.insert((field, value)),
            ..p
        }),
{
}

proof fn lemma_take_in_grounded(
    cfg: RootView,
    seeds: Seq<(Text, Text)>,
    p: Progress,
    field: Text,
    value: Text,
    seeding: bool,
)
    requires
        tidy(p),
        grounded(cfg, seeds, p),
        seeding ==> seeds.contains((field, value)),
    ensures
        grounded(cfg, seeds, take_in(cfg, p, field, value, seeding)),
{
    lemma_enqueue(exposer_names(cfg, field), field, value, p.issued, p.pending);
}

proof fn lemma_take_all_grounded(
    cfg: RootView,
    seeds: Seq<(Text, Text)>,
    p: Progress,
    pairs: Seq<(Text, Text)>,
    seeding: bool,
)
    requires
        tidy(p),
        grounded(cfg, seeds, p),
        seeding ==> forall|k: int| 0 <= k < pairs.len() ==> seeds.contains(#[trigger] pairs[k]),
    ensures
        grounded(cfg, seeds, take_all(cfg, p, pairs, seeding)),
    decreases pairs.len(),
{
    if pairs.len() > 0 {
        let shorter = pairs.drop_last();
        if seeding {
            assert forall|k: int| 0 <= k < shorter.len() implies seeds.contains(
                #[trigger] shorter[k],
            ) by {
                assert(shorter[k] == pairs[k]);
            }
        }
        lemma_take_all_grounded(cfg, seeds, p, shorter, seeding);
        lemma_take_all_tidy(cfg, p, shorter, seeding);
        let q = take_all(cfg, p, shorter, seeding);
        if q.failure is None {
            if seeding {
                assert(seeds.contains(pairs[pairs.len() - 1]));
            }
            lemma_take_in_grounded(cfg, seeds, q, pairs.last().0, pairs.last().1, seeding);
        }
    }
}

proof fn lemma_settle_grounded(cfg: RootView, seeds: Seq<(Text, Text)>, p: Progress)
    requires
        grounded(cfg, seeds, p),
    ensures
        grounded(cfg, seeds, settle(p)),
{
    let q = settle(p);
    if round_due(p) {
        assert forall|t: TripleView| q.issued.contains(t) || q.pending.contains(t) implies seeded_or_distinct(
            cfg,
            seeds,
            t,
        ) by {
            if q.issued.contains(t) {
                let i = choose|i: int| 0 <= i < q.issued.len() && q.issued[i] == t;
                if i < p.issued.len() {
                    assert(p.issued.contains(t));
                } else {
                    assert(p.pending[i - p.issued.len()] == t);
                    assert(p.pending.contains(t));
                }
            }
        }
    }
}

proof fn lemma_run_grounded(cfg: RootView, seeds: Seq<(Text, Text)>, limit: nat, outcomes: Seq<Outcome>)
    ensures
        grounded(cfg, seeds, run(cfg, seeds, limit, outcomes)),
    decreases outcomes.len(),
{
    if outcomes.len() == 0 {
        let start = fresh(limit);
        lemma_take_all_grounded(cfg, seeds, start, seeds, true);
        lemma_settle_grounded(cfg, seeds, take_all(cfg, start, seeds, true));
    } else {
        let p = run(cfg, seeds, limit, outcomes.drop_last());
        lemma_run_grounded(cfg, seeds, limit, outcomes.drop_last());
        lemma_run(cfg, seeds, limit, outcomes.drop_last());
        if in_flight(p) {
            match outcomes.last() {
                Err(why) => {
                    let q = Progress {
                        failure: Some(
                            crate::resolver::lookup_failure_text(p.issued[p.answered as int], why),
                        ),
                        ..p
                    };
                    let counted = Progress { answered: p.answered + 1, ..q };
                    assert(grounded(cfg, seeds, counted));
                    lemma_settle_grounded(cfg, seeds, counted);
                },
                Ok(pairs) => {
                    lemma_take_all_grounded(cfg, seeds, p, pairs, false);
                    let q = take_all(cfg, p, pairs, false);
                    let counted = Progress { answered: p.answered + 1, ..q };
                    assert(grounded(cfg, seeds, counted));
                    lemma_settle_grounded(cfg, seeds, counted);
                },
            }
        }
    }
}

/// A value found for a field that is not distinct never leads to a lookup: every lookup
/// that a request asks of its driver looks up a seed, or looks up by a distinct field.
pub proof fn lemma_lookups_grounded(
    cfg: RootView,
    seeds: Seq<(Text, Text)>,
    limit: nat,
    outcomes: Seq<Outcome>,
)
    ensures
        forall|i: int|
            0 <= i < lookups(cfg, seeds, limit, outcomes).len() ==> seeded_or_distinct(
                cfg,
                seeds,
                #[trigger] lookups(cfg, seeds, limit, outcomes)[i],
            ),
{
    lemma_run(cfg, seeds, limit, outcomes);
    lemma_run_grounded(cfg, seeds, limit, outcomes);
    let q = run(cfg, seeds, limit, outcomes);
    let asked = lookups(cfg, seeds, limit, outcomes);
    assert forall|i: int| 0 <= i < asked.len() implies seeded_or_distinct(
        cfg,
        seeds,
        #[trigger] asked[i],
    ) by {
        assert(asked[i] == q.issued[i]);
        assert(q.issued.contains(asked[i]));
    }
}

/// Every step on a state that waits for a lookup brings the end nearer: it answers a
/// lookup of the round, or it answers the round's last lookup and begins one of the
/// rounds that are left.
pub proof fn lemma_step_advances(cfg: RootView, p: Progress, outcome: Outcome)
    requires
        tidy(p),
        !round_due(p),
        in_flight(p),
    ensures
        step_spec(cfg, p, outcome).limit == p.limit,
        step_spec(cfg, p, outcome).answered == p.answered + 1,
        step_spec(cfg, p, outcome).rounds == p.rounds && step_spec(cfg, p, outcome).issued
            == p.issued || step_spec(cfg, p, outcome).rounds == p.rounds + 1 && p.rounds < p.limit
            && p.answered + 1 == p.issued.len(),
{
    match outcome {
        Err(why) => {},
        Ok(pairs) => {
            lemma_take_all_tidy(cfg, p, pairs, false);
        },
    }
}

/// The state after `steps` steps from `p`, the lookups giving what `feed` says: the
/// first `feed(from)`, the next `feed(from + 1)`, and so on.
pub open spec fn drive(cfg: RootView, p: Progress, feed: spec_fn(nat) -> Outcome, from: nat, steps: nat) -> Progress
    decreases steps,
{
    if steps == 0 {
        p
    } else {
        drive(cfg, step_spec(cfg, p, feed(from)), feed, from + 1, (steps - 1) as nat)
    }
}

/// Every resolution ends: whatever the lookups give, and be the data endless, after
/// finitely many steps the state waits for no lookup, and no more than `limit` rounds
/// were begun.
pub proof fn lemma_ends(cfg: RootView, p: Progress, feed: spec_fn(nat) -> Outcome, from: nat) -> (steps: nat)
    requires
        tidy(p),
        !round_due(p),
    ensures
        tidy(drive(cfg, p, feed, from, steps)),
        !round_due(drive(cfg, p, feed, from, steps)),
        !in_flight(drive(cfg, p, feed, from, steps)),
        drive(cfg, p, feed, from, steps).limit == p.limit,
        drive(cfg, p, feed, from, steps).rounds <= p.limit,
        asked(drive(cfg, p, feed, from, steps)) is Respond,
    decreases p.limit - p.rounds, p.issued.len() - p.answered,
{
    if !in_flight(p) {
        0
    } else {
        let q = step_spec(cfg, p, feed(from));
        lemma_step_tidy(cfg, p, feed(from));
        lemma_step_advances(cfg, p, feed(from));
        let rest = lemma_ends(cfg, q, feed, from + 1);
        rest + 1
    }
}

/// A request comes to its response within its bound of rounds, whatever the lookups
/// give: after finitely many steps it has failed, or it has reached its fixpoint, or it
/// has used up its rounds and succeeds with the warning.
pub proof fn lemma_request_ends(
    cfg: RootView,
    seeds: Seq<(Text, Text)>,
    limit: nat,
    feed: spec_fn(nat) -> Outcome,
) -> (steps: nat)
    ensures
        asked(drive(cfg, begin_spec(cfg, seeds, limit), feed, 0, steps)) is Respond,
        drive(cfg, begin_spec(cfg, seeds, limit), feed, 0, steps).rounds <= limit,
        ({
            let end = drive(cfg, begin_spec(cfg, seeds, limit), feed, 0, steps);
            end.failure is None ==> asked(end) == (Asked::Respond {
                success: true,
                message: if end.pending.len() == 0 {
                    Seq::empty()
                } else {
                    depth_warning_text()
                },
                found: end.found,
            }) && (end.pending.len() > 0 ==> end.rounds == limit)
        }),
{
    lemma_begin_tidy(cfg, seeds, limit);
    let steps = lemma_ends(cfg, begin_spec(cfg, seeds, limit), feed, 0);
    let end = drive(cfg, begin_spec(cfg, seeds, limit), feed, 0, steps);
    if end.failure is None && end.pending.len() > 0 {
        lemma_depth_warning(end);
    }
    steps
}

/// A request that has used up its rounds while lookups are still lined up succeeds
/// with the warning, and with what it found so far.
pub proof fn lemma_depth_warning(p: Progress)
    requires
        tidy(p),
        !round_due(p),
        p.failure is None,
        !in_flight(p),
        p.pending.len() > 0,
    ensures
        p.rounds == p.limit,
        asked(p) == (Asked::Respond {
            success: true,
            message: depth_warning_text(),
            found: p.found,
        }),
{
}

/// Two ascending sequences that hold the same texts are the same sequence.
pub proof fn lemma_ascending_unique(s: Seq<Text>, t: Seq<Text>)
    requires
        ascending(s),
        ascending(t),
        forall|x: Text| s.contains(x) <==> t.contains(x),
    ensures
        s == t,
    decreases s.len(),
{
    if s.len() == 0 {
        if t.len() > 0 {
            assert(t.contains(t[0]));
        }
        assert(s =~= t);
    } else {
        assert(s.contains(s[0]));
        assert(t.contains(s[0]));
        let j = choose|j: int| 0 <= j < t.len() && t[j] == s[0];
        assert(t.contains(t[0]));
        let i = choose|i: int| 0 <= i < s.len() && s[i] == t[0];
        if j > 0 {
            assert(precedes(t[0], t[j]));
            if i > 0 {
                assert(precedes(s[0], s[i]));
            }
            lemma_precedes_asymmetric(t[0], t[j]);
        }
        let s1 = s.drop_first();
        let t1 = t.drop_first();
        assert forall|a: int, b: int| 0 <= a < b < s1.len() implies precedes(
            #[trigger] s1[a],
            #[trigger] s1[b],
        ) by {
            assert(precedes(s[a + 1], s[b + 1]));
        }
        assert forall|a: int, b: int| 0 <= a < b < t1.len() implies precedes(
            #[trigger] t1[a],
            #[trigger] t1[b],
        ) by {
            assert(precedes(t[a + 1], t[b + 1]));
        }
        assert forall|x: Text| s1.contains(x) <==> t1.contains(x) by {
            if s1.contains(x) {
                let a = choose|a: int| 0 <= a < s1.len() && s1[a] == x;
                assert(s[a + 1] == x);
                assert(precedes(s[0], s[a + 1]));
                lemma_precedes_asymmetric(s[0], x);
                assert(s.contains(x));
                let b = choose|b: int| 0 <= b < t.len() && t[b] == x;
                assert(t1[b - 1] == x);
            }
            if t1.contains(x) {
                let a = choose|a: int| 0 <= a < t1.len() && t1[a] == x;
                assert(t[a + 1] == x);
                assert(precedes(t[0], t[a + 1]));
                lemma_precedes_asymmetric(t[0], x);
                assert(t.contains(x));
                let b = choose|b: int| 0 <= b < s.len() && s[b] == x;
                assert(s1[b - 1] == x);
            }
        }
        lemma_ascending_unique(s1, t1);
        assert(s =~= seq![s[0]] + s1);
        assert(t =~= seq![t[0]] + t1);
    }
}

/// A canonical listing holds each of its fields once.
proof fn lemma_entry_of_pair(data: Listing, i: int, value: Text)
    requires
        canonical(data),
        0 <= i < data.len(),
        pairs_of(data).contains((data[i].0, value)),
    ensures
        data[i].1.contains(value),
{
    let p = (data[i].0, value);
    let (h, j) = choose|h: int, j: int|
        0 <= h < data.len() && 0 <= j < data[h].1.len() && #[trigger] data[h].0 == p.0
            && #[trigger] data[h].1[j] == p.1;
    if h < i {
        assert(precedes(keys(data)[h], keys(data)[i]));
        lemma_precedes_asymmetric(keys(data)[h], keys(data)[i]);
    } else if h > i {
        assert(precedes(keys(data)[i], keys(data)[h]));
        lemma_precedes_asymmetric(keys(data)[i], keys(data)[h]);
    }
}

/// What was found has one canonical listing: two canonical listings that hold the same
/// (field, value) pairs are the same, in whatever order the pairs were found.
pub proof fn lemma_listing_unique(a: Listing, b: Listing)
    requires
        canonical(a),
        canonical(b),
        pairs_of(a) == pairs_of(b),
    ensures
        a == b,
{
    assert forall|x: Text| keys(a).contains(x) <==> keys(b).contains(x) by {
        if keys(a).contains(x) {
            let i = choose|i: int| 0 <= i < keys(a).len() && keys(a)[i] == x;
            assert(a[i].0 == x && a[i].1[0] == a[i].1[0]);
            assert(pairs_of(a).contains((x, a[i].1[0])));
            let p = (x, a[i].1[0]);
            let (h, j) = choose|h: int, j: int|
                0 <= h < b.len() && 0 <= j < b[h].1.len() && #[trigger] b[h].0 == p.0
                    && #[trigger] b[h].1[j] == p.1;
            assert(keys(b)[h] == x);
        }
        if keys(b).contains(x) {
            let i = choose|i: int| 0 <= i < keys(b).len() && keys(b)[i] == x;
            assert(b[i].0 == x && b[i].1[0] == b[i].1[0]);
            assert(pairs_of(b).contains((x, b[i].1[0])));
            let p = (x, b[i].1[0]);
            let (h, j) = choose|h: int, j: int|
                0 <= h < a.len() && 0 <= j < a[h].1.len() && #[trigger] a[h].0 == p.0
                    && #[trigger] a[h].1[j] == p.1;
            assert(keys(a)[h] == x);
        }
    }
    lemma_ascending_unique(keys(a), keys(b));
    assert(a.len() == keys(a).len() && b.len() == keys(b).len());
    assert forall|i: int| 0 <= i < a.len() implies a[i] == b[i] by {
        assert(keys(a)[i] == keys(b)[i]);
        assert(a[i].0 == b[i].0);
        assert forall|x: Text| a[i].1.contains(x) <==> b[i].1.contains(x) by {
            if a[i].1.contains(x) {
                let j = choose|j: int| 0 <= j < a[i].1.len() && a[i].1[j] == x;
                assert(a[i].0 == a[i].0 && a[i].1[j] == x);
                assert(pairs_of(a).contains((a[i].0, x)));
                lemma_entry_of_pair(b, i, x);
            }
            if b[i].1.contains(x) {
                let j = choose|j: int| 0 <= j < b[i].1.len() && b[i].1[j] == x;
                assert(b[i].0 == b[i].0 && b[i].1[j] == x);
                assert(pairs_of(b).contains((b[i].0, x)));
                lemma_entry_of_pair(a, i, x);
            }
        }
        lemma_ascending_unique(a[i].1, b[i].1);
    }
    assert(a =~= b);
}

/// The same request on the same data gives the same response: the state of a run is a
/// function of the configuration, the seeds, the bound and what the lookups gave, and the
/// state leaves no choice of the response.
pub proof fn lemma_response_determined(
    cfg: RootView,
    seeds: Seq<(Text, Text)>,
    limit: nat,
    outcomes: Seq<Outcome>,
    first: ResponseView,
    second: ResponseView,
)
    requires
        action_matches(ActionView::Respond(first), asked(run(cfg, seeds, limit, outcomes))),
        action_matches(ActionView::Respond(second), asked(run(cfg, seeds, limit, outcomes))),
    ensures
        first == second,
        canonical(first.data),
{
    lemma_listing_unique(first.data, second.data);
}

} // verus!
