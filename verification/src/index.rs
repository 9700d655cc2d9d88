//! The field/relation index: for each field, the relations that expose it.
//!
//! The index is built once from a configuration that meets the rules, and is
//! read-only from then on.

use vstd::prelude::*;
use crate::config::ConfigError;
use crate::config::FieldView;
use crate::config::Relation;
use crate::config::RelationView;
use crate::config::Root;
use crate::config::RootView;
use crate::config::declared;
use crate::config::has_undeclared_reference;
use crate::config::rejected_as;
use crate::config::relation_sound;
use crate::config::relation_views;
use crate::config::valid;
use crate::config::validate;
use crate::text::Text;
use crate::text::same_text;

verus! {

/// The relation declares the field.
pub open spec fn exposes(relation: RelationView, field: Text) -> bool {
    exists|k: int| 0 <= k < relation.fields.len() && (#[trigger] relation.fields[k]).id == field
}

/// The positions of the relations that expose `field`, in declaration order.
pub open spec fn exposers(relations: Seq<RelationView>, field: Text) -> Seq<int>
    decreases relations.len(),
{
    if relations.len() == 0 {
        Seq::empty()
    } else {
        let earlier = exposers(relations.drop_last(), field);
        if exposes(relations.last(), field) {
            earlier.push(relations.len() - 1)
        } else {
            earlier
        }
    }
}

/// Some relation exposes the field: the index has an entry for it.
pub open spec fn known(cfg: RootView, field: Text) -> bool {
    exposers(cfg.relations, field).len() > 0
}

/// The field is declared as distinct.
pub open spec fn is_distinct(fields: Seq<FieldView>, id: Text) -> bool {
    exists|i: int| 0 <= i < fields.len() && (#[trigger] fields[i]).id == id && fields[i].distinct
}

/// Positions as mathematical integers.
pub open spec fn places(positions: Seq<usize>) -> Seq<int> {
    Seq::new(positions.len(), |i: int| positions[i] as int)
}

/// What `exposers` holds: exactly the positions of the exposing relations, in ascending order.
pub proof fn lemma_exposers(relations: Seq<RelationView>, field: Text)
    ensures
        forall|p: int|
            exposers(relations, field).contains(p) <==> (0 <= p < relations.len() && exposes(
                relations[p],
                field,
            )),
        forall|a: int, b: int|
            0 <= a < b < exposers(relations, field).len() ==> exposers(relations, field)[a]
                < exposers(relations, field)[b],
        forall|a: int|
            0 <= a < exposers(relations, field).len() ==> 0 <= #[trigger] exposers(
                relations,
                field,
            )[a] < relations.len(),
    decreases relations.len(),
{
    let all = exposers(relations, field);
    if relations.len() > 0 {
        let earlier = exposers(relations.drop_last(), field);
        lemma_exposers(relations.drop_last(), field);
        assert forall|p: int|
            all.contains(p) <==> (0 <= p < relations.len() && exposes(relations[p], field)) by {
            if 0 <= p < relations.len() - 1 {
                assert(relations.drop_last()[p] == relations[p]);
            }
            if all.contains(p) {
                let a = choose|a: int| 0 <= a < all.len() && all[a] == p;
                if a < earlier.len() {
                    assert(earlier[a] == p);
                    assert(earlier.contains(p));
                }
            }
            if 0 <= p < relations.len() && exposes(relations[p], field) {
                if p < relations.len() - 1 {
                    assert(earlier.contains(p));
                    let a = choose|a: int| 0 <= a < earlier.len() && earlier[a] == p;
                    assert(all[a] == p);
                } else {
                    assert(all[all.len() - 1] == p);
                }
            }
        }
    }
}

/// The entry of one field: whether it is distinct, and which relations expose it.
struct Route {
    field: String,
    distinct: bool,
    relations: Vec<usize>,
}

/// The field/relation index of a configuration that meets the rules.
pub struct Index {
    config: Root,
    routes: Vec<Route>,
}

spec fn route_fits(cfg: RootView, route: Route) -> bool {
    &&& places(route.relations@) == exposers(cfg.relations, route.field@)
    &&& route.relations@.len() > 0
    &&& route.distinct == is_distinct(cfg.fields, route.field@)
}

impl View for Index {
    type V = RootView;

    /// The configuration that the index was built from.
    closed spec fn view(&self) -> RootView {
        self.config@
    }
}

/// Whether the relation declares the field.
pub fn relation_exposes(relation: &Relation, field: &str) -> (found: bool)
    ensures
        found == exposes(relation@, field@),
{
    let mut k: usize = 0;
    while k < relation.fields.len()
        invariant
            k <= relation.fields@.len(),
            relation@.fields.len() == relation.fields@.len(),
            forall|h: int| 0 <= h < k ==> (#[trigger] relation@.fields[h]).id != field@,
        decreases relation.fields@.len() - k,
    {
        if same_text(relation.fields[k].id.as_str(), field) {
            assert(relation@.fields[k as int].id == field@);
            return true;
        }
        assert(relation@.fields[k as int].id == relation.fields@[k as int].id@);
        k += 1;
    }
    false
}

/// The positions of the relations that expose the field.
fn positions_of(relations: &Vec<Relation>, field: &str) -> (positions: Vec<usize>)
    ensures
        places(positions@) == exposers(relation_views(relations@), field@),
{
    let ghost views = relation_views(relations@);
    let mut positions: Vec<usize> = Vec::new();
    let mut j: usize = 0;
    while j < relations.len()
        invariant
            j <= relations@.len(),
            views == relation_views(relations@),
            places(positions@) == exposers(views.take(j as int), field@),
        decreases relations@.len() - j,
    {
        let found = relation_exposes(&relations[j], field);
        proof {
            assert(views.take(j + 1).drop_last() =~= views.take(j as int));
            assert(views.take(j + 1).last() == relations@[j as int]@);
        }
        if found {
            let ghost before = positions@;
            positions.push(j);
            assert(places(positions@) =~= places(before).push(j as int));
        }
        j += 1;
    }
    assert(views.take(j as int) =~= views);
    positions
}

impl Index {
    /// The index keeps to its configuration: every entry lists the relations that expose
    /// its field, and every exposed field has an entry.
    pub closed spec fn wf(&self) -> bool {
        &&& valid(self.config@)
        &&& forall|k: int|
            0 <= k < self.routes@.len() ==> route_fits(self.config@, #[trigger] self.routes@[k])
        &&& forall|t: Text| #[trigger]
            known(self.config@, t) ==> exists|k: int|
                0 <= k < self.routes@.len() && (#[trigger] self.routes@[k]).field@ == t
    }

    /// Builds the index of a configuration, or says which rule the configuration breaks.
    /// A relation that uses an undeclared field is always turned down.
    pub fn new(cfg: Root) -> (built: Result<Index, ConfigError>)
        ensures
            built is Ok <==> valid(cfg@),
            built matches Ok(index) ==> index.wf() && index@ == cfg@,
            built matches Err(e) ==> rejected_as(cfg@, e@),
            has_undeclared_reference(cfg@) ==> built is Err,
    {
        match validate(&cfg) {
            Err(e) => {
                return Err(e);
            },
            Ok(_) => {},
        }
        let mut routes: Vec<Route> = Vec::new();
        let mut i: usize = 0;
        while i < cfg.fields.len()
            invariant
                i <= cfg.fields@.len(),
                valid(cfg@),
                forall|k: int| 0 <= k < routes@.len() ==> route_fits(cfg@, #[trigger] routes@[k]),
                forall|h: int|
                    0 <= h < i && known(cfg@, (#[trigger] cfg@.fields[h]).id) ==> exists|k: int|
                        0 <= k < routes@.len() && (#[trigger] routes@[k]).field@ == cfg@.fields[h].id,
            decreases cfg.fields@.len() - i,
        {
            let positions = positions_of(&cfg.relations, cfg.fields[i].id.as_str());
            if positions.len() > 0 {
                let route = Route {
                    field: cfg.fields[i].id.clone(),
                    distinct: cfg.fields[i].distinct,
                    relations: positions,
                };
                proof {
                    let id = cfg@.fields[i as int].id;
                    assert(cfg@.fields[i as int].distinct == cfg.fields@[i as int].distinct);
                    if is_distinct(cfg@.fields, id) {
                        let h = choose|h: int|
                            0 <= h < cfg@.fields.len() && (#[trigger] cfg@.fields[h]).id == id
                                && cfg@.fields[h].distinct;
                        assert(h == i);
                    }
                    assert(route_fits(cfg@, route));
                }
                let ghost before = routes@;
                routes.push(route);
                proof {
                    assert forall|h: int|
                        0 <= h < i + 1 && known(
                            cfg@,
                            (#[trigger] cfg@.fields[h]).id,
                        ) implies exists|k: int|
                        0 <= k < routes@.len() && (#[trigger] routes@[k]).field@
                            == cfg@.fields[h].id by {
                        if h < i {
                            let k = choose|k: int|
                                0 <= k < before.len() && (#[trigger] before[k]).field@
                                    == cfg@.fields[h].id;
                            assert(routes@[k].field@ == cfg@.fields[h].id);
                        } else {
                            assert(routes@[routes@.len() - 1].field@ == cfg@.fields[h].id);
                        }
                    }
                }
            }
            i += 1;
        }
        let ghost view = cfg@;
        let ghost listed = routes@;
        proof {
            assert forall|t: Text| #[trigger] known(view, t) implies exists|k: int|
                0 <= k < routes@.len() && (#[trigger] routes@[k]).field@ == t by {
                lemma_exposers(view.relations, t);
                let p = exposers(view.relations, t)[0];
                assert(exposers(view.relations, t).contains(p));
                assert(relation_sound(view, p));
                let k = choose|k: int|
                    0 <= k < view.relations[p].fields.len() && (
                    #[trigger] view.relations[p].fields[k]).id == t;
                assert(declared(view.fields, view.relations[p].fields[k].id));
                let h = choose|h: int|
                    0 <= h < view.fields.len() && (#[trigger] view.fields[h]).id == t;
                assert(0 <= h < i && known(view, cfg@.fields[h].id));
                let r = choose|r: int|
                    0 <= r < routes@.len() && (#[trigger] routes@[r]).field@ == cfg@.fields[h].id;
                assert(routes@[r].field@ == t);
            }
        }
        let index = Index { config: cfg, routes };
        proof {
            assert(index.config@ == view);
            assert(index.routes@ == listed);
            assert(forall|k: int|
                0 <= k < listed.len() ==> route_fits(view, #[trigger] listed[k]));
            assert(index.wf());
        }
        Ok(index)
    }

    /// The configuration that the index was built from.
    pub fn config(&self) -> (cfg: &Root)
        ensures
            cfg@ == self@,
    {
        &self.config
    }

    /// The entry of a field: the positions of the relations that expose it, in declaration
    /// order, and whether the field is distinct. `None` where no relation exposes the field.
    pub fn lookup(&self, field: &str) -> (entry: Option<(&Vec<usize>, bool)>)
        requires
            self.wf(),
        ensures
            entry is Some <==> known(self@, field@),
            entry matches Some((positions, distinct)) ==> places(positions@) == exposers(
                self@.relations,
                field@,
            ) && distinct == is_distinct(self@.fields, field@),
    {
        let mut k: usize = 0;
        while k < self.routes.len()
            invariant
                k <= self.routes@.len(),
                self.wf(),
                forall|h: int| 0 <= h < k ==> (#[trigger] self.routes@[h]).field@ != field@,
            decreases self.routes@.len() - k,
        {
            if same_text(self.routes[k].field.as_str(), field) {
                assert(route_fits(self.config@, self.routes@[k as int]));
                return Some((&self.routes[k].relations, self.routes[k].distinct));
            }
            k += 1;
        }
        None
    }

    /// The number of relations.
    pub fn relation_count(&self) -> (count: usize)
        ensures
            count == self@.relations.len(),
    {
        self.config.relations.len()
    }

    /// The relation at a position.
    pub fn relation(&self, position: usize) -> (relation: &Relation)
        requires
            position < self@.relations.len(),
        ensures
            relation@ == self@.relations[position as int],
    {
        &self.config.relations[position]
    }
}

} // verus!
