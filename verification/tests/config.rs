use link_resolver::config::distinct_default;
use link_resolver::config::get_fields;
use link_resolver::config::is_declared;
use link_resolver::config::validate;
use link_resolver::config::ConfigError;
use link_resolver::config::Field;
use link_resolver::config::Relation;
use link_resolver::config::RelationField;
use link_resolver::config::Root;
use link_resolver::index::relation_exposes;
use link_resolver::index::Index;

fn field(id: &str, distinct: bool) -> Field {
    Field { id: id.to_string(), distinct }
}

fn relation(name: &str, fields: &[&str]) -> Relation {
    Relation {
        name: name.to_string(),
        connect: "sqlite::memory:".to_string(),
        table_name: name.to_string(),
        fields: fields
            .iter()
            .map(|id| RelationField { id: id.to_string(), query: id.to_string() })
            .collect(),
    }
}

fn root(fields: Vec<Field>, relations: Vec<Relation>) -> Root {
    Root { listen: "127.0.0.1:3000".to_string(), fields, relations }
}

fn sound() -> Root {
    root(
        vec![field("user_id", true), field("email", true), field("country", false), field("phone", true)],
        vec![
            relation("r1", &["user_id", "email"]),
            relation("r2", &["email", "country"]),
            relation("r3", &["country", "user_id", "email"]),
        ],
    )
}

#[test]
fn distinct_flag_defaults_to_false() {
    assert!(!distinct_default());
}

#[test]
fn field_ids_come_in_declaration_order() {
    assert_eq!(
        get_fields(&sound()),
        Ok(vec![
            "user_id".to_string(),
            "email".to_string(),
            "country".to_string(),
            "phone".to_string()
        ])
    );
    assert_eq!(get_fields(&root(Vec::new(), Vec::new())), Ok(Vec::new()));
}

#[test]
fn first_repeated_field_id_is_reported() {
    let cfg = root(
        vec![field("a", true), field("b", false), field("c", true), field("b", true), field("a", false)],
        Vec::new(),
    );
    assert_eq!(get_fields(&cfg), Err(ConfigError::DuplicateField("b".to_string())));
    assert_eq!(validate(&cfg), Err(ConfigError::DuplicateField("b".to_string())));
}

#[test]
fn declared_fields_are_found_by_id() {
    let cfg = sound();
    assert!(is_declared(&cfg.fields, "country"));
    assert!(is_declared(&cfg.fields, "phone"));
    assert!(!is_declared(&cfg.fields, "Country"));
    assert!(!is_declared(&cfg.fields, ""));
    assert!(relation_exposes(&cfg.relations[1], "country"));
    assert!(!relation_exposes(&cfg.relations[1], "user_id"));
}

#[test]
fn sound_configuration_passes() {
    assert_eq!(validate(&sound()), Ok(()));
    assert_eq!(validate(&root(Vec::new(), Vec::new())), Ok(()));
    assert!(Index::new(sound()).is_ok());
}

#[test]
fn undeclared_field_in_a_relation_is_turned_down() {
    let cfg = root(
        vec![field("user_id", true), field("email", true)],
        vec![relation("r1", &["user_id", "email"]), relation("r2", &["email", "country", "zip"])],
    );
    let expected =
        ConfigError::UndeclaredField { relation: "r2".to_string(), field: "country".to_string() };
    assert_eq!(validate(&cfg), Err(expected.clone()));
    match Index::new(cfg) {
        Ok(_) => panic!("an index was built over an undeclared field"),
        Err(e) => assert_eq!(e, expected),
    }
}

#[test]
fn repeated_relation_name_is_turned_down() {
    let cfg = root(
        vec![field("user_id", true), field("email", true)],
        vec![relation("r1", &["user_id"]), relation("r2", &["email"]), relation("r1", &["email"])],
    );
    assert_eq!(validate(&cfg), Err(ConfigError::DuplicateRelation("r1".to_string())));
}

#[test]
fn relation_without_fields_is_turned_down() {
    let cfg = root(
        vec![field("user_id", true)],
        vec![relation("r1", &["user_id"]), relation("hollow", &[]), relation("bare", &[])],
    );
    assert_eq!(validate(&cfg), Err(ConfigError::EmptyRelation("hollow".to_string())));
}

#[test]
fn faults_are_reported_in_their_order() {
    // A repeated field id comes before everything else.
    let cfg = root(
        vec![field("a", true), field("a", true)],
        vec![relation("r", &["zip"]), relation("r", &[])],
    );
    assert_eq!(validate(&cfg), Err(ConfigError::DuplicateField("a".to_string())));
    // The relations are gone through in order; of one relation the name is held first.
    let cfg = root(
        vec![field("a", true)],
        vec![relation("hollow", &[]), relation("r", &["a"]), relation("r", &["zip"])],
    );
    assert_eq!(validate(&cfg), Err(ConfigError::DuplicateRelation("r".to_string())));
    let cfg = root(
        vec![field("a", true)],
        vec![relation("hollow", &[]), relation("r", &["zip"]), relation("r", &["a"])],
    );
    assert_eq!(
        validate(&cfg),
        Err(ConfigError::UndeclaredField { relation: "r".to_string(), field: "zip".to_string() })
    );
}

#[test]
fn index_lists_relations_in_declaration_order() {
    let index = Index::new(sound()).unwrap();
    assert_eq!(index.relation_count(), 3);
    assert_eq!(index.lookup("email"), Some((&vec![0, 1, 2], true)));
    assert_eq!(index.lookup("user_id"), Some((&vec![0, 2], true)));
    assert_eq!(index.lookup("country"), Some((&vec![1, 2], false)));
    assert_eq!(index.lookup("phone"), None);
    assert_eq!(index.lookup("zip"), None);
    assert_eq!(index.relation(1).name, "r2");
    assert_eq!(index.config(), &sound());
}

#[test]
fn field_used_twice_by_a_relation_lists_the_relation_once() {
    let cfg = root(vec![field("a", true)], vec![relation("r", &["a", "a"])]);
    let index = Index::new(cfg).unwrap();
    assert_eq!(index.lookup("a"), Some((&vec![0], true)));
}
