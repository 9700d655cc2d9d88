//! The declarative schema: fields, relations, and the rules a schema must meet
//! before anything is resolved against it.

use vstd::prelude::*;
use crate::text::Text;
use crate::text::same_text;
use crate::text::texts;

verus! {

/// A named logical attribute. Values of a `distinct` field may seed further lookups;
/// values of other fields are reported and go no further.
#[derive(Default, Debug, Clone, PartialEq)]
pub struct Field {
    pub id: String,
    pub distinct: bool,
}

/// One field of a relation: the field's id, and the expression that yields its
/// value from a matched row.
#[derive(Default, Debug, Clone, PartialEq)]
pub struct RelationField {
    pub id: String,
    pub query: String,
}

/// A data source that answers lookups by one field and yields the others.
#[derive(Default, Debug, Clone, PartialEq)]
pub struct Relation {
    pub name: String,
    pub connect: String,
    pub table_name: String,
    pub fields: Vec<RelationField>,
}

/// The whole configuration.
#[derive(Default, Debug, Clone, PartialEq)]
pub struct Root {
    pub listen: String,
    pub fields: Vec<Field>,
    pub relations: Vec<Relation>,
}

/// A field as a mathematical value.
pub struct FieldView {
    pub id: Text,
    pub distinct: bool,
}

/// A relation's field as a mathematical value.
pub struct RelationFieldView {
    pub id: Text,
    pub query: Text,
}

/// A relation as a mathematical value.
pub struct RelationView {
    pub name: Text,
    pub connect: Text,
    pub table_name: Text,
    pub fields: Seq<RelationFieldView>,
}

/// A configuration as a mathematical value.
pub struct RootView {
    pub listen: Text,
    pub fields: Seq<FieldView>,
    pub relations: Seq<RelationView>,
}

impl View for Field {
    type V = FieldView;

    open spec fn view(&self) -> FieldView {
        FieldView { id: self.id@, distinct: self.distinct }
    }
}

impl View for RelationField {
    type V = RelationFieldView;

    open spec fn view(&self) -> RelationFieldView {
        RelationFieldView { id: self.id@, query: self.query@ }
    }
}

impl View for Relation {
    type V = RelationView;

    open spec fn view(&self) -> RelationView {
        RelationView {
            name: self.name@,
            connect: self.connect@,
            table_name: self.table_name@,
            fields: Seq::new(self.fields@.len(), |k: int| self.fields@[k]@),
        }
    }
}

/// The declared fields as mathematical values.
pub open spec fn field_views(fields: Seq<Field>) -> Seq<FieldView> {
    Seq::new(fields.len(), |i: int| fields[i]@)
}

/// The relations as mathematical values.
pub open spec fn relation_views(relations: Seq<Relation>) -> Seq<RelationView> {
    Seq::new(relations.len(), |i: int| relations[i]@)
}

impl View for Root {
    type V = RootView;

    open spec fn view(&self) -> RootView {
        RootView {
            listen: self.listen@,
            fields: field_views(self.fields@),
            relations: relation_views(self.relations@),
        }
    }
}

/// Why a configuration is turned down.
#[derive(Debug, Clone, PartialEq)]
pub enum ConfigError {
    /// A field id is declared twice.
    DuplicateField(String),
    /// Two relations share a name.
    DuplicateRelation(String),
    /// A relation uses a field that `fields` does not declare.
    UndeclaredField { relation: String, field: String },
    /// A relation declares no field at all.
    EmptyRelation(String),
}

/// A refusal as a mathematical value.
pub enum ConfigErrorView {
    DuplicateField(Text),
    DuplicateRelation(Text),
    UndeclaredField { relation: Text, field: Text },
    EmptyRelation(Text),
}

impl View for ConfigError {
    type V = ConfigErrorView;

    open spec fn view(&self) -> ConfigErrorView {
        match self {
            ConfigError::DuplicateField(id) => ConfigErrorView::DuplicateField(id@),
            ConfigError::DuplicateRelation(name) => ConfigErrorView::DuplicateRelation(name@),
            ConfigError::UndeclaredField { relation, field } => ConfigErrorView::UndeclaredField {
                relation: relation@,
                field: field@,
            },
            ConfigError::EmptyRelation(name) => ConfigErrorView::EmptyRelation(name@),
        }
    }
}

/// The ids of the declared fields, in declaration order.
pub open spec fn field_ids(fields: Seq<FieldView>) -> Seq<Text> {
    Seq::new(fields.len(), |i: int| fields[i].id)
}

/// `id` is the id of a declared field.
pub open spec fn declared(fields: Seq<FieldView>, id: Text) -> bool {
    exists|i: int| 0 <= i < fields.len() && (#[trigger] fields[i]).id == id
}

/// No two declared fields share an id.
pub open spec fn unique_ids(fields: Seq<FieldView>) -> bool {
    forall|i: int, j: int|
        0 <= i < j < fields.len() ==> (#[trigger] fields[i]).id != (#[trigger] fields[j]).id
}

/// Field `i` is the first whose id an earlier field already has.
pub open spec fn first_repeat(fields: Seq<FieldView>, i: int) -> bool {
    &&& 0 <= i < fields.len()
    &&& unique_ids(fields.take(i))
    &&& declared(fields.take(i), fields[i].id)
}

/// Relation `i` has the name of an earlier relation.
pub open spec fn name_repeats(relations: Seq<RelationView>, i: int) -> bool {
    exists|j: int| 0 <= j < i && (#[trigger] relations[j]).name == relations[i].name
}

/// Every field that the relation uses is declared.
pub open spec fn references_declared(fields: Seq<FieldView>, relation: RelationView) -> bool {
    forall|k: int|
        0 <= k < relation.fields.len() ==> declared(fields, (#[trigger] relation.fields[k]).id)
}

/// Field `k` of the relation is its first that is not declared.
pub open spec fn first_undeclared(fields: Seq<FieldView>, relation: RelationView, k: int) -> bool {
    &&& 0 <= k < relation.fields.len()
    &&& !declared(fields, relation.fields[k].id)
    &&& forall|h: int| 0 <= h < k ==> declared(fields, (#[trigger] relation.fields[h]).id)
}

/// Relation `i` has a name of its own and uses declared fields only.
pub open spec fn relation_sound(cfg: RootView, i: int) -> bool {
    !name_repeats(cfg.relations, i) && references_declared(cfg.fields, cfg.relations[i])
}

/// Relation `i` is the first that is not sound.
pub open spec fn first_unsound(cfg: RootView, i: int) -> bool {
    &&& 0 <= i < cfg.relations.len()
    &&& !relation_sound(cfg, i)
    &&& forall|j: int| 0 <= j < i ==> #[trigger] relation_sound(cfg, j)
}

/// Relation `i` is the first that declares no field.
pub open spec fn first_empty(relations: Seq<RelationView>, i: int) -> bool {
    &&& 0 <= i < relations.len()
    &&& relations[i].fields.len() == 0
    &&& forall|j: int| 0 <= j < i ==> (#[trigger] relations[j]).fields.len() > 0
}

/// What a configuration must meet: field ids are unique, relation names are unique,
/// every relation uses declared fields only, and every relation has a field.
pub open spec fn valid(cfg: RootView) -> bool {
    &&& unique_ids(cfg.fields)
    &&& forall|i: int| 0 <= i < cfg.relations.len() ==> #[trigger] relation_sound(cfg, i)
    &&& forall|i: int| 0 <= i < cfg.relations.len() ==> (#[trigger] cfg.relations[i]).fields.len() > 0
}

/// Some relation uses a field that `fields` does not declare.
pub open spec fn has_undeclared_reference(cfg: RootView) -> bool {
    exists|i: int, k: int|
        0 <= i < cfg.relations.len() && 0 <= k < cfg.relations[i].fields.len() && !declared(
            cfg.fields,
            (#[trigger] cfg.relations[i].fields[k]).id,
        )
}

/// A configuration in which a relation uses an undeclared field is never valid.
pub proof fn lemma_undeclared_reference_invalid(cfg: RootView)
    requires
        has_undeclared_reference(cfg),
    ensures
        !valid(cfg),
{
    let (i, k) = choose|i: int, k: int|
        0 <= i < cfg.relations.len() && 0 <= k < cfg.relations[i].fields.len() && !declared(
            cfg.fields,
            (#[trigger] cfg.relations[i].fields[k]).id,
        );
    assert(!references_declared(cfg.fields, cfg.relations[i]));
    assert(!relation_sound(cfg, i));
}

/// The error that an invalid configuration is turned down with. Field ids are looked at
/// first; then the relations in order, each for its name and then for its fields; and last
/// the relations in order for having a field at all.
pub open spec fn rejected_as(cfg: RootView, e: ConfigErrorView) -> bool {
    match e {
        ConfigErrorView::DuplicateField(id) => exists|i: int|
            first_repeat(cfg.fields, i) && id == (#[trigger] cfg.fields[i]).id,
        ConfigErrorView::DuplicateRelation(name) => {
            &&& unique_ids(cfg.fields)
            &&& exists|i: int|
                first_unsound(cfg, i) && name_repeats(cfg.relations, i) && name == (
                #[trigger] cfg.relations[i]).name
        },
        ConfigErrorView::UndeclaredField { relation, field } => {
            &&& unique_ids(cfg.fields)
            &&& exists|i: int, k: int|
                first_unsound(cfg, i) && !name_repeats(cfg.relations, i) && first_undeclared(
                    cfg.fields,
                    cfg.relations[i],
                    k,
                ) && relation == cfg.relations[i].name && field == (
                #[trigger] cfg.relations[i].fields[k]).id
        },
        ConfigErrorView::EmptyRelation(name) => {
            &&& unique_ids(cfg.fields)
            &&& forall|i: int| 0 <= i < cfg.relations.len() ==> #[trigger] relation_sound(cfg, i)
            &&& exists|i: int|
                first_empty(cfg.relations, i) && name == (#[trigger] cfg.relations[i]).name
        },
    }
}

/// The value of a field's `distinct` flag when the configuration leaves it out.
pub fn distinct_default() -> (flag: bool)
    ensures
        !flag,
{
    false
}

/// Whether one of the first `upto` fields has the id `id`.
fn declared_among(fields: &Vec<Field>, upto: usize, id: &str) -> (found: bool)
    requires
        upto <= fields@.len(),
    ensures
        found == exists|i: int| 0 <= i < upto && (#[trigger] fields@[i]).id@ == id@,
{
    let mut i: usize = 0;
    while i < upto
        invariant
            i <= upto <= fields@.len(),
            forall|h: int| 0 <= h < i ==> (#[trigger] fields@[h]).id@ != id@,
        decreases upto - i,
    {
        if same_text(fields[i].id.as_str(), id) {
            return true;
        }
        i += 1;
    }
    false
}

/// Whether `id` is the id of a declared field.
pub fn is_declared(fields: &Vec<Field>, id: &str) -> (found: bool)
    ensures
        found == declared(field_views(fields@), id@),
{
    let found = declared_among(fields, fields.len(), id);
    proof {
        let views = field_views(fields@);
        if found {
            let i = choose|i: int| 0 <= i < fields@.len() && (#[trigger] fields@[i]).id@ == id@;
            assert(views[i].id == id@);
        } else {
            assert forall|i: int| 0 <= i < views.len() implies (#[trigger] views[i]).id != id@ by {
                assert(fields@[i].id@ != id@);
            }
        }
    }
    found
}

/// The ids of the declared fields, or the first id that is declared twice.
pub fn get_fields(cfg: &Root) -> (names: Result<Vec<String>, ConfigError>)
    ensures
        names is Ok <==> unique_ids(cfg@.fields),
        names matches Ok(ids) ==> texts(ids@) == field_ids(cfg@.fields),
        names matches Err(e) ==> exists|i: int|
            first_repeat(cfg@.fields, i) && e@ == ConfigErrorView::DuplicateField(
                (#[trigger] cfg@.fields[i]).id,
            ),
{
    let mut ids: Vec<String> = Vec::new();
    let mut i: usize = 0;
    while i < cfg.fields.len()
        invariant
            i <= cfg.fields@.len(),
            cfg@.fields.len() == cfg.fields@.len(),
            unique_ids(cfg@.fields.take(i as int)),
            ids@.len() == i,
            forall|h: int| 0 <= h < i ==> (#[trigger] ids@[h])@ == cfg.fields@[h].id@,
        decreases cfg.fields@.len() - i,
    {
        let id = cfg.fields[i].id.clone();
        if declared_among(&cfg.fields, i, id.as_str()) {
            proof {
                let h = choose|h: int| 0 <= h < i && (#[trigger] cfg.fields@[h]).id@ == id@;
                assert(cfg@.fields.take(i as int)[h].id == cfg@.fields[i as int].id);
                assert(first_repeat(cfg@.fields, i as int));
                assert(cfg@.fields[h].id == cfg@.fields[i as int].id);
            }
            return Err(ConfigError::DuplicateField(id));
        }
        proof {
            let next = cfg@.fields.take(i + 1);
            assert forall|a: int, b: int| 0 <= a < b < next.len() implies (#[trigger] next[a]).id != (
            #[trigger] next[b]).id by {
                if b < i {
                    assert(cfg@.fields.take(i as int)[a].id != cfg@.fields.take(i as int)[b].id);
                } else {
                    assert(cfg.fields@[a].id@ != id@);
                }
            }
        }
        ids.push(id);
        i += 1;
    }
    proof {
        assert(cfg@.fields.take(i as int) =~= cfg@.fields);
        assert(texts(ids@) =~= field_ids(cfg@.fields));
    }
    Ok(ids)
}

/// Whether relation `i` has the name of an earlier relation.
fn name_taken(relations: &Vec<Relation>, i: usize) -> (taken: bool)
    requires
        i < relations@.len(),
    ensures
        taken == name_repeats(relation_views(relations@), i as int),
{
    let ghost views = relation_views(relations@);
    let mut j: usize = 0;
    while j < i
        invariant
            j <= i < relations@.len(),
            views == relation_views(relations@),
            forall|h: int| 0 <= h < j ==> (#[trigger] views[h]).name != views[i as int].name,
        decreases i - j,
    {
        if same_text(relations[j].name.as_str(), relations[i].name.as_str()) {
            assert(views[j as int].name == views[i as int].name);
            return true;
        }
        j += 1;
    }
    false
}

/// The position of the relation's first field that is not declared, if it has one.
fn undeclared_field(fields: &Vec<Field>, relation: &Relation) -> (at: Option<usize>)
    ensures
        match at {
            Some(k) => first_undeclared(field_views(fields@), relation@, k as int),
            None => references_declared(field_views(fields@), relation@),
        },
{
    let mut k: usize = 0;
    while k < relation.fields.len()
        invariant
            k <= relation.fields@.len(),
            relation@.fields.len() == relation.fields@.len(),
            forall|h: int|
                0 <= h < k ==> declared(field_views(fields@), (#[trigger] relation@.fields[h]).id),
        decreases relation.fields@.len() - k,
    {
        if !is_declared(fields, relation.fields[k].id.as_str()) {
            assert(relation@.fields[k as int].id == relation.fields@[k as int].id@);
            return Some(k);
        }
        assert(relation@.fields[k as int].id == relation.fields@[k as int].id@);
        k += 1;
    }
    None
}

/// Holds a configuration to the rules; says which one it breaks first.
pub fn validate(cfg: &Root) -> (verdict: Result<(), ConfigError>)
    ensures
        verdict is Ok <==> valid(cfg@),
        verdict matches Err(e) ==> rejected_as(cfg@, e@),
        has_undeclared_reference(cfg@) ==> verdict is Err,
{
    proof {
        if has_undeclared_reference(cfg@) {
            lemma_undeclared_reference_invalid(cfg@);
        }
    }
    match get_fields(cfg) {
        Err(e) => {
            return Err(e);
        },
        Ok(_) => {},
    }
    let mut i: usize = 0;
    while i < cfg.relations.len()
        invariant
            i <= cfg.relations@.len(),
            unique_ids(cfg@.fields),
            forall|j: int| 0 <= j < i ==> #[trigger] relation_sound(cfg@, j),
        decreases cfg.relations@.len() - i,
    {
        if name_taken(&cfg.relations, i) {
            let name = cfg.relations[i].name.clone();
            proof {
                assert(first_unsound(cfg@, i as int));
                assert(name@ == cfg@.relations[i as int].name);
            }
            return Err(ConfigError::DuplicateRelation(name));
        }
        match undeclared_field(&cfg.fields, &cfg.relations[i]) {
            Some(k) => {
                let relation = cfg.relations[i].name.clone();
                let field = cfg.relations[i].fields[k].id.clone();
                proof {
                    assert(cfg@.relations[i as int] == cfg.relations@[i as int]@);
                    assert(!references_declared(cfg@.fields, cfg@.relations[i as int]));
                    assert(first_unsound(cfg@, i as int));
                    assert(field@ == cfg@.relations[i as int].fields[k as int].id);
                }
                return Err(ConfigError::UndeclaredField { relation, field });
            },
            None => {
                assert(cfg@.relations[i as int] == cfg.relations@[i as int]@);
                assert(relation_sound(cfg@, i as int));
            },
        }
        i += 1;
    }
    let mut i: usize = 0;
    while i < cfg.relations.len()
        invariant
            i <= cfg.relations@.len(),
            unique_ids(cfg@.fields),
            forall|j: int| 0 <= j < cfg.relations@.len() ==> #[trigger] relation_sound(cfg@, j),
            forall|j: int| 0 <= j < i ==> (#[trigger] cfg@.relations[j]).fields.len() > 0,
        decreases cfg.relations@.len() - i,
    {
        if cfg.relations[i].fields.len() == 0 {
            let name = cfg.relations[i].name.clone();
            proof {
                assert(cfg@.relations[i as int] == cfg.relations@[i as int]@);
                assert(first_empty(cfg@.relations, i as int));
                assert(name@ == cfg@.relations[i as int].name);
            }
            return Err(ConfigError::EmptyRelation(name));
        }
        assert(cfg@.relations[i as int] == cfg.relations@[i as int]@);
        i += 1;
    }
    Ok(())
}

} // verus!
