use link_resolver::config::Field;
use link_resolver::config::Relation;
use link_resolver::config::RelationField;
use link_resolver::config::Root;
use link_resolver::index::Index;
use link_resolver::resolver::Action;
use link_resolver::resolver::QueryResponse;
use link_resolver::resolver::Resolution;
use link_resolver::resolver::Triple;
use link_resolver::resolver::MAX_DEPTH;

fn field(id: &str, distinct: bool) -> Field {
    Field { id: id.to_string(), distinct }
}

fn relation(name: &str, fields: &[&str]) -> Relation {
    Relation {
        name: name.to_string(),
        connect: format!("sqlite::memory:{}", name),
        table_name: format!("{}_table", name),
        fields: fields
            .iter()
            .map(|id| RelationField { id: id.to_string(), query: id.to_string() })
            .collect(),
    }
}

fn index_of(fields: Vec<Field>, relations: Vec<Relation>) -> Index {
    let cfg = Root { listen: "127.0.0.1:3000".to_string(), fields, relations };
    match Index::new(cfg) {
        Ok(index) => index,
        Err(e) => panic!("the configuration was turned down: {:?}", e),
    }
}

fn seeds(pairs: &[(&str, &str)]) -> Vec<(String, String)> {
    pairs.iter().map(|(f, v)| (f.to_string(), v.to_string())).collect()
}

fn triple(relation: &str, field: &str, value: &str) -> Triple {
    Triple { relation: relation.to_string(), field: field.to_string(), value: value.to_string() }
}

fn listing(entries: &[(&str, &[&str])]) -> Vec<(String, Vec<String>)> {
    entries
        .iter()
        .map(|(f, vs)| (f.to_string(), vs.iter().map(|v| v.to_string()).collect()))
        .collect()
}

/// One answer of a stand-in data source: the lookup it answers, and the pairs it gives.
struct Answer {
    relation: &'static str,
    field: &'static str,
    value: &'static str,
    gives: Vec<(&'static str, &'static str)>,
}

fn answer(
    relation: &'static str,
    field: &'static str,
    value: &'static str,
    gives: &[(&'static str, &'static str)],
) -> Answer {
    Answer { relation, field, value, gives: gives.to_vec() }
}

fn look_up(answers: &[Answer], asked: &Triple) -> Result<Vec<(String, String)>, String> {
    let mut pairs = Vec::new();
    for a in answers {
        if a.relation == asked.relation && a.field == asked.field && a.value == asked.value {
            for (f, v) in &a.gives {
                pairs.push((f.to_string(), v.to_string()));
            }
        }
    }
    Ok(pairs)
}

/// Drives a resolution to its response, and reports every lookup it asked for.
fn drive(
    index: &Index,
    seeds: &Vec<(String, String)>,
    limit: usize,
    source: &dyn Fn(&Triple) -> Result<Vec<(String, String)>, String>,
) -> (QueryResponse, Vec<Triple>) {
    let (mut state, mut action) = Resolution::begin_bounded(index, seeds, limit);
    let mut asked = Vec::new();
    loop {
        match action {
            Action::Respond(response) => return (response, asked),
            Action::Lookup(t) => {
                let outcome = source(&t);
                asked.push(t);
                assert!(asked.len() < 100_000, "the resolution does not end");
                let (next, then) = state.step(index, outcome);
                state = next;
                action = then;
            },
        }
    }
}

fn users_index() -> Index {
    index_of(
        vec![field("user_id", true), field("email", true), field("country", false)],
        vec![relation("r1", &["user_id", "email"]), relation("r2", &["email", "country"])],
    )
}

#[test]
fn user_id_leads_to_email_and_country() {
    let index = users_index();
    let answers = vec![
        answer("r1", "user_id", "42", &[("email", "a@x.com")]),
        answer("r2", "email", "a@x.com", &[("country", "US")]),
    ];
    let (response, asked) =
        drive(&index, &seeds(&[("user_id", "42")]), MAX_DEPTH, &|t| look_up(&answers, t));
    assert!(response.success);
    assert_eq!(response.message, "");
    assert_eq!(response.data, listing(&[("country", &["US"]), ("email", &["a@x.com"])]));
    assert_eq!(
        asked,
        vec![
            triple("r1", "user_id", "42"),
            triple("r1", "email", "a@x.com"),
            triple("r2", "email", "a@x.com"),
        ]
    );
}

#[test]
fn begin_uses_the_default_bound() {
    let index = users_index();
    let (_, first) = Resolution::begin(&index, &seeds(&[("user_id", "42")]));
    assert_eq!(first, Action::Lookup(triple("r1", "user_id", "42")));
    assert_eq!(MAX_DEPTH, 10);
}

#[test]
fn undeclared_seed_field_fails_the_request() {
    let index = users_index();
    let (response, asked) = drive(
        &index,
        &seeds(&[("user_id", "42"), ("bogus_field", "1")]),
        MAX_DEPTH,
        &|_| Ok(Vec::new()),
    );
    assert!(!response.success);
    assert!(response.message.contains("no relation has field `bogus_field`"));
    assert_eq!(response.message, "no relation has field `bogus_field`");
    assert!(response.data.is_empty());
    assert!(asked.is_empty());
}

#[test]
fn declared_field_without_relation_is_unknown_as_a_seed() {
    let index = index_of(
        vec![field("user_id", true), field("phone", true)],
        vec![relation("r1", &["user_id"])],
    );
    let (response, _) = drive(&index, &seeds(&[("phone", "555")]), MAX_DEPTH, &|_| Ok(Vec::new()));
    assert!(!response.success);
    assert_eq!(response.message, "no relation has field `phone`");
    assert!(response.data.is_empty());
}

#[test]
fn no_seeds_find_nothing() {
    let index = users_index();
    let (response, asked) = drive(&index, &Vec::new(), MAX_DEPTH, &|_| Ok(Vec::new()));
    assert!(response.success);
    assert_eq!(response.message, "");
    assert!(response.data.is_empty());
    assert!(asked.is_empty());
}

#[test]
fn seed_is_echoed_only_when_rediscovered() {
    let index = users_index();
    let answers = vec![
        answer("r1", "user_id", "42", &[("user_id", "42"), ("email", "a@x.com")]),
        answer("r1", "email", "a@x.com", &[("user_id", "42"), ("email", "a@x.com")]),
    ];
    let (response, asked) =
        drive(&index, &seeds(&[("user_id", "42")]), MAX_DEPTH, &|t| look_up(&answers, t));
    assert!(response.success);
    assert_eq!(response.data, listing(&[("email", &["a@x.com"]), ("user_id", &["42"])]));
    assert_eq!(asked.len(), 3);
}

#[test]
fn non_distinct_seed_is_looked_up() {
    let index = users_index();
    let answers = vec![answer("r2", "country", "US", &[("email", "a@x.com"), ("email", "b@x.com")])];
    let (response, asked) =
        drive(&index, &seeds(&[("country", "US")]), MAX_DEPTH, &|t| look_up(&answers, t));
    assert!(response.success);
    assert_eq!(response.data, listing(&[("email", &["a@x.com", "b@x.com"])]));
    assert_eq!(asked[0], triple("r2", "country", "US"));
    assert_eq!(asked.len(), 5);
}

#[test]
fn non_distinct_field_is_never_expanded() {
    // Only a lookup by `country` would reach the second user.
    let index = users_index();
    let answers = vec![
        answer("r1", "user_id", "42", &[("email", "a@x.com")]),
        answer("r2", "email", "a@x.com", &[("country", "US")]),
        answer("r2", "country", "US", &[("email", "b@x.com")]),
        answer("r1", "email", "b@x.com", &[("user_id", "43")]),
    ];
    let (response, asked) =
        drive(&index, &seeds(&[("user_id", "42")]), MAX_DEPTH, &|t| look_up(&answers, t));
    assert!(response.success);
    assert_eq!(response.message, "");
    assert_eq!(response.data, listing(&[("country", &["US"]), ("email", &["a@x.com"])]));
    assert!(asked.iter().all(|t| t.field != "country"));
    assert!(!asked.contains(&triple("r2", "country", "US")));
}

#[test]
fn no_lookup_is_asked_for_twice() {
    // a and b point at each other through both relations, and every row repeats itself.
    let index = index_of(
        vec![field("a", true), field("b", true)],
        vec![relation("left", &["a", "b"]), relation("right", &["a", "b"])],
    );
    let source = |t: &Triple| -> Result<Vec<(String, String)>, String> {
        let n: u32 = t.value.parse().unwrap();
        let other = if t.field == "a" { "b" } else { "a" };
        Ok(vec![
            (t.field.clone(), t.value.clone()),
            (other.to_string(), ((n + 1) % 4).to_string()),
            (other.to_string(), ((n + 1) % 4).to_string()),
            (t.field.clone(), ((n + 2) % 4).to_string()),
        ])
    };
    let (response, asked) = drive(&index, &seeds(&[("a", "0"), ("a", "0")]), MAX_DEPTH, &source);
    assert!(response.success);
    assert_eq!(response.message, "");
    for i in 0..asked.len() {
        for j in 0..i {
            assert_ne!(asked[i], asked[j]);
        }
    }
    // 2 relations, and 2 values of each of the 2 fields: every unit is looked up, each once.
    assert_eq!(asked.len(), 8);
    assert_eq!(response.data, listing(&[("a", &["0", "2"]), ("b", &["1", "3"])]));
}

fn ping_pong_index() -> Index {
    index_of(
        vec![field("x", true), field("y", true)],
        vec![relation("a", &["x", "y"]), relation("b", &["x", "y"])],
    )
}

/// Relation `a` turns every x into a new y, and relation `b` every y into a new x.
fn ping_pong(t: &Triple) -> Result<Vec<(String, String)>, String> {
    let n: u64 = t.value.parse().unwrap();
    if t.relation == "a" && t.field == "x" {
        Ok(vec![("y".to_string(), (n + 1).to_string())])
    } else if t.relation == "b" && t.field == "y" {
        Ok(vec![("x".to_string(), (n + 1).to_string())])
    } else {
        Ok(Vec::new())
    }
}

#[test]
fn endless_data_ends_with_the_depth_warning() {
    let index = ping_pong_index();
    let (response, asked) = drive(&index, &seeds(&[("x", "0")]), MAX_DEPTH, &ping_pong);
    assert!(response.success);
    assert_eq!(response.message, "depth length limit exceeded");
    // Ten rounds of two lookups each; round k finds the value k.
    assert_eq!(asked.len(), 2 * MAX_DEPTH);
    assert_eq!(
        response.data,
        listing(&[("x", &["10", "2", "4", "6", "8"]), ("y", &["1", "3", "5", "7", "9"])])
    );
}

#[test]
fn bound_of_rounds_is_kept_exactly() {
    let index = ping_pong_index();
    let (none, asked_none) = drive(&index, &seeds(&[("x", "0")]), 0, &ping_pong);
    assert!(none.success);
    assert_eq!(none.message, "depth length limit exceeded");
    assert!(none.data.is_empty());
    assert!(asked_none.is_empty());

    let (one, asked_one) = drive(&index, &seeds(&[("x", "0")]), 1, &ping_pong);
    assert!(one.success);
    assert_eq!(one.message, "depth length limit exceeded");
    assert_eq!(one.data, listing(&[("y", &["1"])]));
    assert_eq!(asked_one, vec![triple("a", "x", "0"), triple("b", "x", "0")]);

    let (three, asked_three) = drive(&index, &seeds(&[("x", "0")]), 3, &ping_pong);
    assert_eq!(three.message, "depth length limit exceeded");
    assert_eq!(three.data, listing(&[("x", &["2"]), ("y", &["1", "3"])]));
    assert_eq!(asked_three.len(), 6);
}

#[test]
fn fixpoint_in_the_last_round_is_no_warning() {
    let index = users_index();
    let answers = vec![
        answer("r1", "user_id", "42", &[("email", "a@x.com")]),
        answer("r2", "email", "a@x.com", &[("country", "US")]),
    ];
    let (response, _) = drive(&index, &seeds(&[("user_id", "42")]), 2, &|t| look_up(&answers, t));
    assert!(response.success);
    assert_eq!(response.message, "");
    assert_eq!(response.data, listing(&[("country", &["US"]), ("email", &["a@x.com"])]));
}

#[test]
fn failed_lookup_fails_the_request_and_discards_what_was_found() {
    let index = users_index();
    let source = |t: &Triple| -> Result<Vec<(String, String)>, String> {
        if t.relation == "r1" && t.field == "user_id" {
            Ok(vec![("email".to_string(), "a@x.com".to_string())])
        } else if t.relation == "r2" {
            Err("database is locked".to_string())
        } else {
            Ok(Vec::new())
        }
    };
    let (response, asked) = drive(&index, &seeds(&[("user_id", "42")]), MAX_DEPTH, &source);
    assert!(!response.success);
    assert_eq!(
        response.message,
        "failed to query relation `r2` with field `email`, value `a@x.com`: database is locked"
    );
    assert!(response.data.is_empty());
    assert_eq!(asked.last(), Some(&triple("r2", "email", "a@x.com")));
}

#[test]
fn discovered_field_without_relation_fails_the_request() {
    let index = users_index();
    let source = |_: &Triple| -> Result<Vec<(String, String)>, String> {
        Ok(vec![
            ("email".to_string(), "a@x.com".to_string()),
            ("shoe_size".to_string(), "44".to_string()),
        ])
    };
    let (response, asked) = drive(&index, &seeds(&[("user_id", "42")]), MAX_DEPTH, &source);
    assert!(!response.success);
    assert_eq!(response.message, "no relation has field `shoe_size`");
    assert!(response.data.is_empty());
    assert_eq!(asked.len(), 1);
}

#[test]
fn same_request_gives_the_same_response() {
    let index = index_of(
        vec![field("a", true), field("b", true), field("tag", false)],
        vec![relation("left", &["a", "b", "tag"]), relation("right", &["b", "a"])],
    );
    let source = |t: &Triple| -> Result<Vec<(String, String)>, String> {
        let n: u32 = t.value.parse().unwrap();
        Ok(vec![
            ("tag".to_string(), format!("t{}", (7 * n) % 5)),
            ("b".to_string(), ((n * 3 + 1) % 6).to_string()),
            ("tag".to_string(), format!("t{}", (7 * n) % 5)),
            ("a".to_string(), ((n * 5 + 2) % 6).to_string()),
        ])
    };
    let (first, asked_first) = drive(&index, &seeds(&[("a", "0")]), MAX_DEPTH, &source);
    let (second, asked_second) = drive(&index, &seeds(&[("a", "0")]), MAX_DEPTH, &source);
    assert_eq!(first, second);
    assert_eq!(asked_first, asked_second);
    assert!(first.success);
    assert!(first.data.windows(2).all(|w| w[0].0 < w[1].0));
    for (_, values) in &first.data {
        assert!(!values.is_empty());
        assert!(values.windows(2).all(|w| w[0] < w[1]));
    }
}

#[test]
fn step_after_the_response_repeats_the_response() {
    let index = users_index();
    let (state, action) = Resolution::begin(&index, &seeds(&[("bogus_field", "1")]));
    let (_, again) = state.step(&index, Ok(vec![("email".to_string(), "a@x.com".to_string())]));
    assert_eq!(action, again);
    match again {
        Action::Respond(response) => assert!(!response.success),
        Action::Lookup(_) => panic!("a failed request asked for a lookup"),
    }

    let (state, action) = Resolution::begin(&index, &Vec::new());
    let (_, again) = state.step(&index, Err("late".to_string()));
    assert_eq!(action, again);
    match again {
        Action::Respond(response) => {
            assert!(response.success);
            assert_eq!(response.message, "");
        },
        Action::Lookup(_) => panic!("a finished request asked for a lookup"),
    }
}

#[test]
fn values_are_listed_in_byte_order() {
    let index = index_of(vec![field("k", true), field("v", false)], vec![relation("r", &["k", "v"])]);
    let source = |_: &Triple| -> Result<Vec<(String, String)>, String> {
        Ok(["b", "a", "B", "é", "ab", "", "z", "a", "10", "9"]
            .iter()
            .map(|v| ("v".to_string(), v.to_string()))
            .collect())
    };
    let (response, _) = drive(&index, &seeds(&[("k", "1")]), MAX_DEPTH, &source);
    let mut expected: Vec<String> =
        ["b", "a", "B", "é", "ab", "", "z", "10", "9"].iter().map(|v| v.to_string()).collect();
    expected.sort();
    assert_eq!(response.data, vec![("v".to_string(), expected)]);
    assert_eq!(response.data[0].1, vec!["", "10", "9", "B", "a", "ab", "b", "z", "é"]);
}
