use link_resolver::adapter::add_cell;
use link_resolver::adapter::extraction_failure_message;
use link_resolver::adapter::read_row;
use link_resolver::adapter::select_statement;
use link_resolver::adapter::statement_for;
use link_resolver::config::Field;
use link_resolver::config::Relation;
use link_resolver::config::RelationField;
use link_resolver::config::Root;
use link_resolver::index::Index;
use link_resolver::resolver::Action;
use link_resolver::resolver::QueryResponse;
use link_resolver::resolver::Resolution;
use link_resolver::resolver::Triple;
use sqlx::sqlite::SqlitePoolOptions;
use sqlx::sqlite::SqliteRow;
use sqlx::SqlitePool;

fn relation(name: &str, table: &str, fields: &[(&str, &str)]) -> Relation {
    Relation {
        name: name.to_string(),
        connect: "sqlite::memory:".to_string(),
        table_name: table.to_string(),
        fields: fields
            .iter()
            .map(|(id, query)| RelationField { id: id.to_string(), query: query.to_string() })
            .collect(),
    }
}

fn triple(relation: &str, field: &str, value: &str) -> Triple {
    Triple { relation: relation.to_string(), field: field.to_string(), value: value.to_string() }
}

fn pairs(list: &[(&str, &str)]) -> Vec<(String, String)> {
    list.iter().map(|(f, v)| (f.to_string(), v.to_string())).collect()
}

fn runtime() -> tokio::runtime::Runtime {
    tokio::runtime::Builder::new_current_thread().enable_all().build().unwrap()
}

async fn store(statements: &[&str]) -> SqlitePool {
    let pool = SqlitePoolOptions::new().max_connections(1).connect("sqlite::memory:").await.unwrap();
    for statement in statements {
        sqlx::query(statement).execute(&pool).await.unwrap();
    }
    pool
}

async fn rows(pool: &SqlitePool, statement: &str, value: &str) -> Vec<SqliteRow> {
    sqlx::query(statement).bind(value).fetch_all(pool).await.unwrap()
}

fn users() -> Relation {
    relation("r1", "users", &[("user_id", "id"), ("email", "lower(mail)")])
}

#[test]
fn statement_projects_every_field_under_its_id() {
    assert_eq!(
        select_statement(&users(), "user_id"),
        "select (id) as user_id,(lower(mail)) as email from users where user_id = ?"
    );
    assert_eq!(
        select_statement(&users(), "email"),
        "select (id) as user_id,(lower(mail)) as email from users where email = ?"
    );
}

#[test]
fn statement_of_a_single_field_has_no_comma() {
    let only = relation("solo", "t", &[("k", "k")]);
    assert_eq!(select_statement(&only, "k"), "select (k) as k from t where k = ?");
}

fn two_relations() -> Index {
    let cfg = Root {
        listen: "127.0.0.1:3000".to_string(),
        fields: vec![
            Field { id: "user_id".to_string(), distinct: true },
            Field { id: "email".to_string(), distinct: true },
            Field { id: "country".to_string(), distinct: false },
        ],
        relations: vec![
            relation("r1", "users", &[("user_id", "id"), ("email", "mail")]),
            relation("r2", "accounts", &[("email", "email"), ("country", "country")]),
        ],
    };
    Index::new(cfg).unwrap()
}

#[test]
fn statement_for_finds_the_relation_of_a_unit() {
    let index = two_relations();
    assert_eq!(
        statement_for(&index, &triple("r2", "email", "a@x.com")),
        Some((
            1,
            "select (email) as email,(country) as country from accounts where email = ?"
                .to_string()
        ))
    );
    assert_eq!(
        statement_for(&index, &triple("r1", "user_id", "42")),
        Some((0, "select (id) as user_id,(mail) as email from users where user_id = ?".to_string()))
    );
}

#[test]
fn statement_for_refuses_units_that_no_relation_serves() {
    let index = two_relations();
    assert_eq!(statement_for(&index, &triple("r1", "country", "US")), None);
    assert_eq!(statement_for(&index, &triple("r3", "email", "a@x.com")), None);
    assert_eq!(statement_for(&index, &triple("r2", "id = id or email", "x")), None);
}

#[test]
fn extraction_failure_names_field_and_relation() {
    assert_eq!(
        extraction_failure_message("r1", "user_id", "mismatched types"),
        "failed to get field `user_id` when querying relation r1: mismatched types"
    );
}

#[test]
fn cell_is_put_behind_those_read_before() {
    let before = pairs(&[("user_id", "42")]);
    assert_eq!(
        add_cell(before.clone(), "email", Ok("a@x.com".to_string()), "r1", "user_id"),
        Ok(pairs(&[("user_id", "42"), ("email", "a@x.com")]))
    );
    assert_eq!(
        add_cell(before, "email", Err("mismatched types".to_string()), "r1", "user_id"),
        Err("failed to get field `user_id` when querying relation r1: mismatched types".to_string())
    );
}

#[test]
fn row_is_read_column_by_column() {
    runtime().block_on(async {
        let pool = store(&[
            "create table users (id text, mail text)",
            "insert into users values ('42', 'A@X.com')",
        ])
        .await;
        let statement = select_statement(&users(), "user_id");
        let found = rows(&pool, &statement, "42").await;
        assert_eq!(found.len(), 1);
        let cells = read_row(&found[0], "r1", "user_id", Vec::new());
        assert_eq!(cells, Ok(pairs(&[("user_id", "42"), ("email", "a@x.com")])));
    });
}

#[test]
fn rows_add_their_pairs_behind_those_read_before() {
    runtime().block_on(async {
        let pool = store(&[
            "create table accounts (email text, country text)",
            "insert into accounts values ('a@x.com', 'US')",
            "insert into accounts values ('a@x.com', 'DE')",
            "insert into accounts values ('b@x.com', 'FR')",
        ])
        .await;
        let accounts = relation("r2", "accounts", &[("email", "email"), ("country", "country")]);
        let statement = select_statement(&accounts, "email");
        let found = rows(&pool, &statement, "a@x.com").await;
        assert_eq!(found.len(), 2);
        let mut cells = pairs(&[("kept", "as it was")]);
        for row in &found {
            cells = read_row(row, "r2", "email", cells).unwrap();
        }
        assert_eq!(
            cells,
            pairs(&[
                ("kept", "as it was"),
                ("email", "a@x.com"),
                ("country", "US"),
                ("email", "a@x.com"),
                ("country", "DE"),
            ])
        );
    });
}

#[test]
fn column_that_is_no_text_fails_the_lookup() {
    runtime().block_on(async {
        let pool = store(&[
            "create table users (id integer, mail text)",
            "insert into users values (42, 'a@x.com')",
        ])
        .await;
        let by_mail = relation("r1", "users", &[("email", "mail"), ("user_id", "id")]);
        let statement = select_statement(&by_mail, "email");
        let found = rows(&pool, &statement, "a@x.com").await;
        assert_eq!(found.len(), 1);
        let before = pairs(&[("kept", "as it was")]);
        match read_row(&found[0], "r1", "email", before) {
            Ok(cells) => panic!("an integer was read as text: {:?}", cells),
            Err(message) => {
                let start = "failed to get field `email` when querying relation r1: ";
                assert!(message.starts_with(start), "{}", message);
                assert!(message.len() > start.len());
            },
        }

        let cast = relation("r1", "users", &[("email", "mail"), ("user_id", "cast(id as text)")]);
        let found = rows(&pool, &select_statement(&cast, "email"), "a@x.com").await;
        assert_eq!(
            read_row(&found[0], "r1", "email", Vec::new()),
            Ok(pairs(&[("email", "a@x.com"), ("user_id", "42")]))
        );
    });
}

async fn look_up(index: &Index, pools: &[SqlitePool], unit: &Triple) -> Result<Vec<(String, String)>, String> {
    let (position, statement) = match statement_for(index, unit) {
        Some(found) => found,
        None => return Err("no relation serves the lookup".to_string()),
    };
    let found = sqlx::query(&statement)
        .bind(&unit.value)
        .fetch_all(&pools[position])
        .await
        .map_err(|e| e.to_string())?;
    let mut cells = Vec::new();
    for row in &found {
        cells = read_row(row, &unit.relation, &unit.field, cells)?;
    }
    Ok(cells)
}

async fn resolve(index: &Index, pools: &[SqlitePool], seeds: &Vec<(String, String)>) -> (QueryResponse, usize) {
    let (mut state, mut action) = Resolution::begin(index, seeds);
    let mut asked = 0;
    loop {
        match action {
            Action::Respond(response) => return (response, asked),
            Action::Lookup(unit) => {
                asked += 1;
                let outcome = look_up(index, pools, &unit).await;
                let (next, then) = state.step(index, outcome);
                state = next;
                action = then;
            },
        }
    }
}

#[test]
fn resolution_over_two_stores() {
    runtime().block_on(async {
        let users = store(&[
            "create table users (id text, mail text)",
            "insert into users values ('42', 'a@x.com')",
            "insert into users values ('43', 'b@x.com')",
        ])
        .await;
        let accounts = store(&[
            "create table accounts (email text, country text)",
            "insert into accounts values ('a@x.com', 'US')",
            "insert into accounts values ('b@x.com', 'US')",
        ])
        .await;
        let index = two_relations();
        let pools = vec![users, accounts];
        let (response, asked) = resolve(&index, &pools, &pairs(&[("user_id", "42")])).await;
        assert!(response.success, "{}", response.message);
        assert_eq!(response.message, "");
        // The rows repeat the id that was looked up: it is found again, and so listed.
        // The second user shares only the country, which is not distinct.
        assert_eq!(
            response.data,
            vec![
                ("country".to_string(), vec!["US".to_string()]),
                ("email".to_string(), vec!["a@x.com".to_string()]),
                ("user_id".to_string(), vec!["42".to_string()]),
            ]
        );
        assert_eq!(asked, 3);
    });
}

#[test]
fn failing_store_fails_the_request() {
    runtime().block_on(async {
        let users = store(&[
            "create table users (id text, mail text)",
            "insert into users values ('42', 'a@x.com')",
        ])
        .await;
        let accounts = store(&["create table other (x text)"]).await;
        let index = two_relations();
        let pools = vec![users, accounts];
        let (response, _) = resolve(&index, &pools, &pairs(&[("user_id", "42")])).await;
        assert!(!response.success);
        assert!(response
            .message
            .starts_with("failed to query relation `r2` with field `email`, value `a@x.com`: "));
        assert!(response.data.is_empty());
    });
}

#[test]
fn column_is_read_by_its_name() {
    runtime().block_on(async {
        let pool = store(&[
            "create table users (id text, mail text)",
            "insert into users values ('42', null)",
        ])
        .await;
        // A null is read as the empty text.
        let plain = relation("r1", "users", &[("user_id", "id"), ("email", "mail")]);
        let found = rows(&pool, &select_statement(&plain, "user_id"), "42").await;
        assert_eq!(
            read_row(&found[0], "r1", "user_id", Vec::new()),
            Ok(pairs(&[("user_id", "42"), ("email", "")]))
        );
        // Of two columns under one name, the name reads the same column both times.
        let twice = relation("r1", "users", &[("user_id", "id"), ("email", "'x'"), ("email", "'y'")]);
        let found = rows(&pool, &select_statement(&twice, "user_id"), "42").await;
        let cells = read_row(&found[0], "r1", "user_id", Vec::new()).unwrap();
        assert_eq!(cells.len(), 3);
        assert_eq!(cells[0], ("user_id".to_string(), "42".to_string()));
        assert_eq!(cells[1].0, "email");
        assert_eq!(cells[2].0, "email");
        assert_eq!(cells[1].1, cells[2].1);
    });
}
