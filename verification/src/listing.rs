//! The listing of what a resolution found: for each field, its values in
//! ascending order, each once; the fields in ascending order too.

use vstd::prelude::*;
use crate::text::Text;
use crate::text::ascending;
use crate::text::comes_before;
use crate::text::lemma_precedes_total;
use crate::text::lemma_precedes_transitive;
use crate::text::precedes;
use crate::text::same_text;
use crate::text::texts;

verus! {

/// A listing as a mathematical value: fields with their values.
pub type Listing = Seq<(Text, Seq<Text>)>;

/// The listing that a list of fields with their values holds.
pub open spec fn listed(data: Seq<(String, Vec<String>)>) -> Listing {
    Seq::new(data.len(), |i: int| (data[i].0@, texts(data[i].1@)))
}

/// The fields of a listing, in its order.
pub open spec fn keys(data: Listing) -> Seq<Text> {
    Seq::new(data.len(), |i: int| data[i].0)
}

/// The (field, value) pairs that a listing holds.
pub open spec fn pairs_of(data: Listing) -> Set<(Text, Text)> {
    Set::new(
        |p: (Text, Text)|
            exists|i: int, j: int|
                0 <= i < data.len() && 0 <= j < data[i].1.len() && #[trigger] data[i].0 == p.0
                    && #[trigger] data[i].1[j] == p.1,
    )
}

/// A listing in its one canonical form: fields strictly ascending, and under each field
/// at least one value, the values strictly ascending.
pub open spec fn canonical(data: Listing) -> bool {
    &&& ascending(keys(data))
    &&& forall|i: int|
        0 <= i < data.len() ==> (#[trigger] data[i]).1.len() > 0 && ascending(data[i].1)
}

/// What inserting at a position does to an ascending sequence, where the new
/// text lies between its neighbours.
proof fn lemma_insert_ascending(s: Seq<Text>, at: int, t: Text)
    requires
        ascending(s),
        0 <= at <= s.len(),
        forall|h: int| 0 <= h < at ==> precedes(#[trigger] s[h], t),
        at < s.len() ==> precedes(t, s[at]),
    ensures
        ascending(s.insert(at, t)),
        forall|x: Text| s.insert(at, t).contains(x) <==> (s.contains(x) || x == t),
{
    let r = s.insert(at, t);
    assert forall|i: int, j: int| 0 <= i < j < r.len() implies precedes(
        #[trigger] r[i],
        #[trigger] r[j],
    ) by {
        if j == at {
            assert(r[i] == s[i]);
        } else if i == at {
            assert(r[j] == s[j - 1]);
            if j - 1 > at {
                assert(precedes(s[at], s[j - 1]));
                lemma_precedes_transitive(t, s[at], s[j - 1]);
            }
        } else {
            let a = if i < at { i } else { i - 1 };
            let b = if j < at { j } else { j - 1 };
            assert(r[i] == s[a] && r[j] == s[b]);
            assert(precedes(s[a], s[b]));
        }
    }
    assert forall|x: Text| r.contains(x) <==> (s.contains(x) || x == t) by {
        if r.contains(x) {
            let i = choose|i: int| 0 <= i < r.len() && r[i] == x;
            if i < at {
                assert(s[i] == x);
            } else if i > at {
                assert(s[i - 1] == x);
            }
        }
        if s.contains(x) {
            let i = choose|i: int| 0 <= i < s.len() && s[i] == x;
            if i < at {
                assert(r[i] == x);
            } else {
                assert(r[i + 1] == x);
            }
        }
        if x == t {
            assert(r[at] == x);
        }
    }
}

/// Puts a text into an ascending list, unless the list holds it already.
pub fn insert_text(list: &mut Vec<String>, value: &str)
    requires
        ascending(texts(old(list)@)),
    ensures
        ascending(texts(final(list)@)),
        forall|x: Text|
            texts(final(list)@).contains(x) <==> (texts(old(list)@).contains(x) || x
                == value@),
{
    let ghost before = texts(list@);
    let mut at: usize = 0;
    while at < list.len() && comes_before(list[at].as_str(), value)
        invariant
            at <= list@.len(),
            texts(list@) == before,
            forall|h: int| 0 <= h < at ==> precedes(#[trigger] before[h], value@),
        decreases list@.len() - at,
    {
        assert(before[at as int] == list@[at as int]@);
        at += 1;
    }
    if at < list.len() && same_text(list[at].as_str(), value) {
        assert(before[at as int] == list@[at as int]@);
        assert(before.contains(value@));
        return ;
    }
    proof {
        if at < list@.len() {
            assert(before[at as int] == list@[at as int]@);
            lemma_precedes_total(value@, before[at as int]);
        }
        lemma_insert_ascending(before, at as int, value@);
    }
    list.insert(at, String::from_str(value));
    proof {
        let grown = before.insert(at as int, value@);
        assert(texts(list@) =~= grown);
        assert forall|x: Text|
            texts(list@).contains(x) <==> (before.contains(x) || x == value@) by {
            assert(grown.contains(x) <==> (before.contains(x) || x == value@));
        }
        assert(forall|x: Text|
            texts(list@).contains(x) <==> (texts(old(list)@).contains(x) || x == value@));
    }
}

/// Copies a list of strings.
pub fn copy_texts(list: &Vec<String>) -> (copy: Vec<String>)
    ensures
        texts(copy@) == texts(list@),
{
    let mut copy: Vec<String> = Vec::new();
    let mut i: usize = 0;
    while i < list.len()
        invariant
            i <= list@.len(),
            copy@.len() == i,
            forall|h: int| 0 <= h < i ==> (#[trigger] copy@[h])@ == list@[h]@,
        decreases list@.len() - i,
    {
        copy.push(list[i].clone());
        i += 1;
    }
    assert(texts(copy@) =~= texts(list@));
    copy
}

/// Copies a listing.
pub fn copy_listing(data: &Vec<(String, Vec<String>)>) -> (copy: Vec<(String, Vec<String>)>)
    ensures
        listed(copy@) == listed(data@),
{
    let mut copy: Vec<(String, Vec<String>)> = Vec::new();
    let mut i: usize = 0;
    while i < data.len()
        invariant
            i <= data@.len(),
            copy@.len() == i,
            forall|h: int| 0 <= h < i ==> (#[trigger] copy@[h]).0@ == data@[h].0@ && texts(copy@[h].1@) == texts(data@[h].1@),
        decreases data@.len() - i,
    {
        let values = copy_texts(&data[i].1);
        copy.push((data[i].0.clone(), values));
        i += 1;
    }
    assert(listed(copy@) =~= listed(data@));
    copy
}

/// Records a (field, value) pair in a canonical listing.
pub fn insert_pair(data: &mut Vec<(String, Vec<String>)>, field: &str, value: &str)
    requires
        canonical(listed(old(data)@)),
    ensures
        canonical(listed(final(data)@)),
        pairs_of(listed(final(data)@)) == pairs_of(listed(old(data)@)).insert(
            (field@, value@),
        ),
{
    let ghost before = listed(data@);
    let mut at: usize = 0;
    while at < data.len() && comes_before(data[at].0.as_str(), field)
        invariant
            at <= data@.len(),
            listed(data@) == before,
            forall|h: int| 0 <= h < at ==> precedes(#[trigger] keys(before)[h], field@),
        decreases data@.len() - at,
    {
        assert(keys(before)[at as int] == data@[at as int].0@);
        at += 1;
    }
    if at < data.len() && same_text(data[at].0.as_str(), field) {
        assert(before[at as int] == (data@[at as int].0@, texts(data@[at as int].1@)));
        insert_text(&mut data[at].1, value);
        proof {
            let after = listed(data@);
            assert(after.len() == before.len());
            assert(forall|i: int| 0 <= i < after.len() && i != at ==> after[i] == before[i]);
            assert(after[at as int].0 == before[at as int].0);
            assert(keys(after) =~= keys(before));
            assert(after[at as int].1.contains(value@));
            assert forall|p: (Text, Text)|
                pairs_of(after).contains(p) <==> pairs_of(before).insert(
                    (field@, value@),
                ).contains(p) by {
                if pairs_of(after).contains(p) {
                    let (i, j) = choose|i: int, j: int|
                        0 <= i < after.len() && 0 <= j < after[i].1.len() && #[trigger] after[i].0
                            == p.0 && #[trigger] after[i].1[j] == p.1;
                    if i == at {
                        assert(after[i].1.contains(p.1));
                        if p.1 != value@ {
                            assert(before[i].1.contains(p.1));
                            let h = choose|h: int|
                                0 <= h < before[i].1.len() && before[i].1[h] == p.1;
                            assert(before[i].0 == p.0 && before[i].1[h] == p.1);
                        }
                    } else {
                        assert(before[i].0 == p.0 && before[i].1[j] == p.1);
                    }
                }
                if pairs_of(before).contains(p) {
                    let (i, j) = choose|i: int, j: int|
                        0 <= i < before.len() && 0 <= j < before[i].1.len()
                            && #[trigger] before[i].0 == p.0 && #[trigger] before[i].1[j] == p.1;
                    if i == at {
                        assert(before[i].1.contains(p.1));
                        assert(after[i].1.contains(p.1));
                        let h = choose|h: int| 0 <= h < after[i].1.len() && after[i].1[h] == p.1;
                        assert(after[i].0 == p.0 && after[i].1[h] == p.1);
                    } else {
                        assert(after[i].0 == p.0 && after[i].1[j] == p.1);
                    }
                }
                if p == (field@, value@) {
                    let h = choose|h: int|
                        0 <= h < after[at as int].1.len() && after[at as int].1[h] == value@;
                    assert(after[at as int].0 == p.0 && after[at as int].1[h] == p.1);
                }
            }
            assert(pairs_of(after) =~= pairs_of(before).insert((field@, value@)));
        }
        return ;
    }
    proof {
        if at < data@.len() {
            assert(keys(before)[at as int] == data@[at as int].0@);
            lemma_precedes_total(field@, keys(before)[at as int]);
        }
        lemma_insert_ascending(keys(before), at as int, field@);
    }
    let mut values: Vec<String> = Vec::new();
    values.push(String::from_str(value));
    data.insert(at, (String::from_str(field), values));
    proof {
        let after = listed(data@);
        let entry = (field@, seq![value@]);
        assert(texts(values@) =~= seq![value@]);
        assert(after =~= before.insert(at as int, entry));
        assert(keys(after) =~= keys(before).insert(at as int, field@));
        assert forall|i: int| 0 <= i < after.len() implies (#[trigger] after[i]).1.len() > 0
            && ascending(after[i].1) by {
            if i < at {
                assert(after[i] == before[i]);
            } else if i > at {
                assert(after[i] == before[i - 1]);
            }
        }
        assert forall|p: (Text, Text)|
            pairs_of(after).contains(p) <==> pairs_of(before).insert((field@, value@)).contains(
                p,
            ) by {
            if pairs_of(after).contains(p) {
                let (i, j) = choose|i: int, j: int|
                    0 <= i < after.len() && 0 <= j < after[i].1.len() && #[trigger] after[i].0
                        == p.0 && #[trigger] after[i].1[j] == p.1;
                if i < at {
                    assert(before[i].0 == p.0 && before[i].1[j] == p.1);
                } else if i > at {
                    assert(before[i - 1].0 == p.0 && before[i - 1].1[j] == p.1);
                }
            }
            if pairs_of(before).contains(p) {
                let (i, j) = choose|i: int, j: int|
                    0 <= i < before.len() && 0 <= j < before[i].1.len() && #[trigger] before[i].0
                        == p.0 && #[trigger] before[i].1[j] == p.1;
                if i < at {
                    assert(after[i].0 == p.0 && after[i].1[j] == p.1);
                } else {
                    assert(after[i + 1].0 == p.0 && after[i + 1].1[j] == p.1);
                }
            }
            if p == (field@, value@) {
                assert(after[at as int].0 == p.0 && after[at as int].1[0] == p.1);
            }
        }
        assert(pairs_of(after) =~= pairs_of(before).insert((field@, value@)));
    }
}

} // verus!
