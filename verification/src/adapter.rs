//! The relation adapter: the statement that a lookup runs, and the reading of
//! the rows that it matched.
//!
//! Running the statement is left to the driver. A matched row comes back as an
//! `sqlx` row, and its columns are read here.

use vstd::prelude::*;
use sqlx::Column;
use sqlx::Row;
use sqlx::sqlite::SqliteRow;
use crate::config::Relation;
use crate::config::RelationFieldView;
use crate::config::RelationView;
use crate::index::Index;
use crate::index::exposes;
use crate::index::relation_exposes;
use crate::resolver::Triple;
use crate::resolver::TripleView;
use crate::text::Text;
use crate::text::same_text;
use crate::text::text_pairs;
use crate::text::texts;

verus! {

/// One projected column: a field's extraction expression under the field's id.
pub open spec fn column_text(field: RelationFieldView) -> Text {
    "("@ + field.query + ") as "@ + field.id
}

/// The projected columns of a relation, separated by commas.
pub open spec fn projection_text(fields: Seq<RelationFieldView>) -> Text
    decreases fields.len(),
{
    if fields.len() == 0 {
        Seq::empty()
    } else if fields.len() == 1 {
        column_text(fields[0])
    } else {
        projection_text(fields.drop_last()) + ","@ + column_text(fields.last())
    }
}

/// The statement of a lookup by `field`: it projects every field of the relation from
/// the rows in which `field` has the value bound to its one parameter.
pub open spec fn select_text(relation: RelationView, field: Text) -> Text {
    "select "@ + projection_text(relation.fields) + " from "@ + relation.table_name
        + " where "@ + field + " = ?"@
}

/// The relation is the one that the lookup unit names, and it exposes the unit's field.
pub open spec fn serves(relation: RelationView, triple: TripleView) -> bool {
    relation.name == triple.relation && exposes(relation, triple.field)
}

/// The message of a lookup in which a column of a matched row could not be read.
pub open spec fn extraction_failure_text(relation: Text, field: Text, why: Text) -> Text {
    "failed to get field `"@ + field + "` when querying relation "@ + relation + ": "@ + why
}

/// The statement of a lookup in `relation` by `field`.
pub fn select_statement(relation: &Relation, field: &str) -> (statement: String)
    requires
        exposes(relation@, field@),
    ensures
        statement@ == select_text(relation@, field@),
{
    let ghost fields = relation@.fields;
    let mut statement = String::from_str("select ");
    let mut k: usize = 0;
    while k < relation.fields.len()
        invariant
            k <= relation.fields@.len(),
            fields == relation@.fields,
            fields.len() == relation.fields@.len(),
            statement@ == "select "@ + projection_text(fields.take(k as int)),
        decreases relation.fields@.len() - k,
    {
        let ghost before = statement@;
        proof {
            assert(fields.take(k + 1).drop_last() =~= fields.take(k as int));
            assert(fields.take(k + 1).last() == relation.fields@[k as int]@);
            if k == 1 {
                assert(fields.take(1)[0] == fields[0]);
            }
        }
        if k > 0 {
            statement.append(",");
        }
        statement.append("(");
        statement.append(relation.fields[k].query.as_str());
        statement.append(") as ");
        statement.append(relation.fields[k].id.as_str());
        proof {
            let column = column_text(relation.fields@[k as int]@);
            if k == 0 {
                assert(statement@ =~= "select "@ + column);
            } else {
                assert(statement@ =~= "select "@ + (projection_text(fields.take(k as int)) + ","@
                    + column));
            }
        }
        k += 1;
    }
    proof {
        assert(fields.take(k as int) =~= fields);
    }
    statement.append(" from ");
    statement.append(relation.table_name.as_str());
    statement.append(" where ");
    statement.append(field);
    statement.append(" = ?");
    statement
}

/// The relation that serves a lookup unit, by its position, and the statement to run
/// there. `None` where no relation has the unit's name and exposes its field.
pub fn statement_for(index: &Index, triple: &Triple) -> (found: Option<(usize, String)>)
    ensures
        match found {
            Some((position, statement)) => {
                &&& position < index@.relations.len()
                &&& serves(index@.relations[position as int], triple@)
                &&& statement@ == select_text(index@.relations[position as int], triple@.field)
            },
            None => forall|p: int|
                0 <= p < index@.relations.len() ==> !serves(#[trigger] index@.relations[p], triple@),
        },
{
    let mut p: usize = 0;
    while p < index.relation_count()
        invariant
            p <= index@.relations.len(),
            forall|h: int| 0 <= h < p ==> !serves(#[trigger] index@.relations[h], triple@),
        decreases index@.relations.len() - p,
    {
        let relation = index.relation(p);
        assert(relation@.name == relation.name@);
        if same_text(relation.name.as_str(), triple.relation.as_str()) && relation_exposes(
            relation,
            triple.field.as_str(),
        ) {
            return Some((p, select_statement(relation, triple.field.as_str())));
        }
        p += 1;
    }
    None
}

/// `sqlx::sqlite::SqliteRow`, a matched row. Nothing of its inside is known here.
#[verifier::external_type_specification]
#[verifier::external_body]
pub struct ExSqliteRow(SqliteRow);

/// `sqlx::Error`, with which `sqlx` refuses to read a column. Nothing of its inside is
/// known here.
#[verifier::external_type_specification]
#[verifier::external_body]
pub struct ExSqlxError(sqlx::Error);

/// What a row holds: its columns in their order, each as its name and the text that
/// reading the column by that name gives, `None` where it cannot be read as text.
pub uninterp spec fn row_columns(row: SqliteRow) -> Seq<(Seq<char>, Option<Seq<char>>)>;

/// The names of a row's columns, in the row's order.
pub open spec fn row_names(row: SqliteRow) -> Seq<Text> {
    Seq::new(row_columns(row).len(), |i: int| row_columns(row)[i].0)
}

/// `sqlx::Row::columns`, each column by its `sqlx::Column::name`: the names come in the
/// order of the row's columns.
#[verifier::external_body]
fn column_names(row: &SqliteRow) -> (names: Vec<String>)
    ensures
        texts(names@) == row_names(*row),
{
    row.columns().iter().map(|column| String::from(column.name())).collect()
}

/// `sqlx::Row::try_get` of a `String` by column name: the text of the column of that
/// name, or the error with which `sqlx` refuses to read it as text. What it gives
/// depends on the row and the name alone.
#[verifier::external_body]
fn column_value(row: &SqliteRow, name: &str) -> (value: Result<String, sqlx::Error>)
    ensures
        forall|i: int|
            0 <= i < row_columns(*row).len() && (#[trigger] row_columns(*row)[i]).0 == name@
                ==> match value {
                Ok(text) => row_columns(*row)[i].1 == Some(text@),
                Err(_) => row_columns(*row)[i].1 is None,
            },
{
    row.try_get::<String, &str>(name)
}

/// `sqlx::Error`'s `to_string`: the error in words. Nothing is claimed of the words.
#[verifier::external_body]
fn error_text(error: &sqlx::Error) -> (text: String) {
    error.to_string()
}

/// Every column of the row can be read as text.
pub open spec fn readable(row: SqliteRow) -> bool {
    forall|i: int| 0 <= i < row_columns(row).len() ==> (#[trigger] row_columns(row)[i]).1 is Some
}

/// The (field, value) pairs of a readable row: each column's name with its text, in
/// the row's order.
pub open spec fn row_cells(row: SqliteRow) -> Seq<(Text, Text)> {
    Seq::new(
        row_columns(row).len(),
        |i: int| (row_columns(row)[i].0, row_columns(row)[i].1.unwrap()),
    )
}

/// The message of a lookup in `relation` by `field` in which a column of a matched row
/// could not be read, `why` being the reader's words.
pub fn extraction_failure_message(relation: &str, field: &str, why: &str) -> (message: String)
    ensures
        message@ == extraction_failure_text(relation@, field@, why@),
{
    let mut message = String::from_str("failed to get field `");
    message.append(field);
    message.append("` when querying relation ");
    message.append(relation);
    message.append(": ");
    message.append(why);
    message
}

/// Puts one column of a matched row behind the pairs read so far: the column's name with
/// its text. A column that could not be read fails the lookup, `why` being the reader's
/// words.
pub fn add_cell(
    cells: Vec<(String, String)>,
    name: &str,
    read: Result<String, String>,
    relation: &str,
    field: &str,
) -> (added: Result<Vec<(String, String)>, String>)
    ensures
        match read {
            Ok(text) => added matches Ok(grown) && text_pairs(grown@) == text_pairs(cells@).push(
                (name@, text@),
            ),
            Err(why) => added matches Err(message) && message@ == extraction_failure_text(
                relation@,
                field@,
                why@,
            ),
        },
{
    match read {
        Ok(text) => {
            let ghost before = text_pairs(cells@);
            let mut grown = cells;
            grown.push((String::from_str(name), text));
            assert(text_pairs(grown@) =~= before.push((name@, text@)));
            Ok(grown)
        },
        Err(why) => Err(extraction_failure_message(relation, field, why.as_str())),
    }
}

/// Reads a matched row of a lookup in `relation` by `field`, and puts its (field, value)
/// pairs behind `cells`. Every matched row of a lookup adds its pairs: no row's values
/// replace those of another. A row with a column that cannot be read as text fails the
/// lookup.
pub fn read_row(row: &SqliteRow, relation: &str, field: &str, cells: Vec<(String, String)>) -> (read:
    Result<Vec<(String, String)>, String>)
    ensures
        read is Ok <==> readable(*row),
        read matches Ok(grown) ==> text_pairs(grown@) == text_pairs(cells@) + row_cells(*row),
        read matches Err(message) ==> exists|why: Text|
            message@ == #[trigger] extraction_failure_text(relation@, field@, why),
{
    let ghost start = text_pairs(cells@);
    let names = column_names(row);
    let mut grown = cells;
    let mut i: usize = 0;
    proof {
        assert(texts(names@).len() == names@.len());
        assert(row_names(*row).len() == row_columns(*row).len());
        assert(row_cells(*row).take(0) =~= Seq::<(Text, Text)>::empty());
    }
    while i < names.len()
        invariant
            i <= names@.len(),
            names@.len() == row_columns(*row).len(),
            texts(names@) == row_names(*row),
            forall|h: int| 0 <= h < i ==> (#[trigger] row_columns(*row)[h]).1 is Some,
            text_pairs(grown@) == start + row_cells(*row).take(i as int),
        decreases names@.len() - i,
    {
        proof {
            assert(texts(names@)[i as int] == names@[i as int]@);
            assert(row_names(*row)[i as int] == row_columns(*row)[i as int].0);
        }
        let read = match column_value(row, names[i].as_str()) {
            Ok(text) => Ok(text),
            Err(error) => Err(error_text(&error)),
        };
        proof {
            assert(row_cells(*row).take(i + 1) =~= row_cells(*row).take(i as int).push(
                row_cells(*row)[i as int],
            ));
        }
        match add_cell(grown, names[i].as_str(), read, relation, field) {
            Ok(added) => {
                grown = added;
            },
            Err(message) => {
                assert(row_columns(*row)[i as int].1 is None);
                return Err(message);
            },
        }
        i += 1;
    }
    proof {
        assert(row_cells(*row).take(i as int) =~= row_cells(*row));
    }
    Ok(grown)
}

} // verus!
