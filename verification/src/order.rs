//! The order in which siblings are visited: by name, and by id among equal
//! names, so that it depends on the siblings alone and not on the order in
//! which a store hands them out.

use crate::text::{
    lemma_name_le_antisymmetric, lemma_name_le_reflexive, lemma_name_le_total,
    lemma_name_le_transitive, name_before_or_same, name_le, same_text,
};
use vstd::multiset::Multiset;
use vstd::prelude::*;
use vstd::relations::{sorted_by, total_ordering};
use vstd::seq_lib::lemma_sorted_unique;

verus! {

/// Whether the id `a` is visited no later than the id `b`, where `names`
/// gives each id its name.
pub open spec fn visited_first(names: Map<u64, Seq<char>>, a: u64, b: u64) -> bool {
    if names[a] == names[b] {
        a <= b
    } else {
        name_le(names[a], names[b])
    }
}

/// `visited_first` as a relation on ids.
pub open spec fn visiting_order(names: Map<u64, Seq<char>>) -> spec_fn(u64, u64) -> bool {
    |a: u64, b: u64| visited_first(names, a, b)
}

/// A sequence that lists each id of `names` once, in visiting order.
pub open spec fn is_listing(s: Seq<u64>, names: Map<u64, Seq<char>>) -> bool {
    &&& s.no_duplicates()
    &&& s.to_set() == names.dom()
    &&& sorted_by(s, visiting_order(names))
}

/// The ids of `names` in the order in which they are visited.
pub open spec fn listing(names: Map<u64, Seq<char>>) -> Seq<u64> {
    names.dom().to_sorted_seq(visiting_order(names))
}

/// The visiting order is a total order on ids.
pub proof fn lemma_visiting_order_total(names: Map<u64, Seq<char>>)
    ensures
        total_ordering(visiting_order(names)),
{
    let r = visiting_order(names);
    assert forall|a: u64| #[trigger] r(a, a) by {}
    assert forall|a: u64, b: u64| #[trigger] r(a, b) && #[trigger] r(b, a) implies a == b by {
        if names[a] != names[b] {
            lemma_name_le_antisymmetric(names[a], names[b]);
        }
    }
    assert forall|a: u64, b: u64, c: u64| #[trigger] r(a, b) && #[trigger] r(b, c) implies r(
        a,
        c,
    ) by {
        if names[a] == names[b] {
        } else if names[b] == names[c] {
        } else {
            lemma_name_le_transitive(names[a], names[b], names[c]);
            if names[a] == names[c] {
                lemma_name_le_antisymmetric(names[a], names[b]);
            }
        }
    }
    assert forall|a: u64, b: u64| #[trigger] r(a, b) || #[trigger] r(b, a) by {
        lemma_name_le_total(names[a], names[b]);
    }
}

/// Two sequences without duplicates that hold the same elements hold each
/// as often as the other.
pub proof fn lemma_same_elements<A>(a: Seq<A>, b: Seq<A>)
    requires
        a.no_duplicates(),
        b.no_duplicates(),
        a.to_set() == b.to_set(),
    ensures
        a.to_multiset() == b.to_multiset(),
{
    broadcast use vstd::seq_lib::group_to_multiset_ensures;
    broadcast use vstd::multiset::group_multiset_axioms;

    a.lemma_multiset_has_no_duplicates();
    b.lemma_multiset_has_no_duplicates();
    assert forall|x: A| a.to_multiset().count(x) == b.to_multiset().count(x) by {
        assert(a.contains(x) <==> a.to_set().contains(x));
        assert(b.contains(x) <==> b.to_set().contains(x));
    }
    assert(a.to_multiset() =~= b.to_multiset());
}

/// The sequence of a finite set holds no element twice.
pub proof fn lemma_to_seq_no_duplicates<A>(s: Set<A>)
    requires
        s.finite(),
    ensures
        s.to_seq().no_duplicates(),
    decreases s.len(),
{
    broadcast use vstd::set::group_set_axioms;

    if s.len() != 0 {
        let x = s.choose();
        let rest = s.remove(x);
        lemma_to_seq_no_duplicates(rest);
        rest.lemma_to_seq_to_set_id();
        assert(!rest.to_seq().contains(x)) by {
            assert(rest.to_seq().contains(x) <==> rest.to_seq().to_set().contains(x));
        }
        assert(s.to_seq() == seq![x] + rest.to_seq());
        assert forall|i: int, j: int|
            0 <= i < j < s.to_seq().len() implies s.to_seq()[i] != s.to_seq()[j] by {
            if i > 0 {
                assert(s.to_seq()[i] == rest.to_seq()[i - 1]);
            }
            assert(s.to_seq()[j] == rest.to_seq()[j - 1]);
        }
    }
}

/// The listing of finitely many ids holds each of them once, and holds them
/// in visiting order: names never decrease along it.
pub proof fn lemma_listing_sorted(names: Map<u64, Seq<char>>)
    requires
        names.dom().finite(),
    ensures
        is_listing(listing(names), names),
        forall|i: int, j: int|
            0 <= i < j < listing(names).len() ==> name_le(
                names[#[trigger] listing(names)[i]],
                names[#[trigger] listing(names)[j]],
            ),
{
    broadcast use vstd::seq_lib::group_to_multiset_ensures;

    let r = visiting_order(names);
    let unsorted = names.dom().to_seq();
    let l = listing(names);
    lemma_visiting_order_total(names);
    unsorted.lemma_sort_by_ensures(r);
    lemma_to_seq_no_duplicates(names.dom());
    names.dom().lemma_to_seq_to_set_id();
    unsorted.lemma_multiset_has_no_duplicates();
    l.lemma_multiset_has_no_duplicates_conv();
    assert(l.to_set() =~= names.dom()) by {
        assert forall|x: u64| l.to_set().contains(x) <==> names.dom().contains(x) by {
            assert(l.contains(x) <==> l.to_multiset().count(x) > 0);
            assert(unsorted.contains(x) <==> unsorted.to_multiset().count(x) > 0);
            assert(unsorted.contains(x) <==> unsorted.to_set().contains(x));
        }
    }
    assert forall|i: int, j: int| 0 <= i < j < l.len() implies name_le(
        names[#[trigger] l[i]],
        names[#[trigger] l[j]],
    ) by {
        assert(r(l[i], l[j]));
        lemma_name_le_reflexive(names[l[i]]);
    }
}

/// However a store hands out its ids, their listing is the same: a sequence
/// that holds each id of `names` once, in visiting order, is the listing.
pub proof fn lemma_listing_unique(names: Map<u64, Seq<char>>, s: Seq<u64>)
    requires
        is_listing(s, names),
    ensures
        s == listing(names),
{
    vstd::seq_lib::seq_to_set_is_finite(s);
    lemma_listing_sorted(names);
    lemma_visiting_order_total(names);
    lemma_same_elements(s, listing(names));
    lemma_sorted_unique(s, listing(names), visiting_order(names));
}

/// What a store lists: a thing with an id and the name that it is ordered
/// by.
pub trait Listed {
    spec fn listed_id(&self) -> u64;

    spec fn listed_name(&self) -> Seq<char>;

    fn id(&self) -> (r: u64)
        ensures
            r == self.listed_id(),
    ;

    fn name(&self) -> (r: &str)
        ensures
            r@ == self.listed_name(),
    ;
}

/// Whether `a` is visited no later than `b`: by name, and by id where the
/// names are the same.
pub open spec fn listed_first<T: Listed>(a: T, b: T) -> bool {
    if a.listed_name() == b.listed_name() {
        a.listed_id() <= b.listed_id()
    } else {
        name_le(a.listed_name(), b.listed_name())
    }
}

/// The ids of listed things.
pub open spec fn ids_of<T: Listed>(s: Seq<T>) -> Seq<u64> {
    s.map_values(|e: T| e.listed_id())
}

/// Listed things in visiting order.
pub open spec fn in_visiting_order<T: Listed>(s: Seq<T>) -> bool {
    forall|i: int, j: int| 0 <= i < j < s.len() ==> listed_first(#[trigger] s[i], #[trigger] s[j])
}

/// Of two listed things one is visited no later than the other.
pub proof fn lemma_listed_first_total<T: Listed>(a: T, b: T)
    ensures
        listed_first(a, b) || listed_first(b, a),
{
    lemma_name_le_total(a.listed_name(), b.listed_name());
}

/// Being visited no later carries over a thing in between.
pub proof fn lemma_listed_first_transitive<T: Listed>(a: T, b: T, c: T)
    requires
        listed_first(a, b),
        listed_first(b, c),
    ensures
        listed_first(a, c),
{
    let (x, y, z) = (a.listed_name(), b.listed_name(), c.listed_name());
    if x != y && y != z {
        lemma_name_le_transitive(x, y, z);
        if x == z {
            lemma_name_le_antisymmetric(x, y);
        }
    }
}

/// The ids of listed things, each with the name that it is ordered by.
pub open spec fn keys_of<T: Listed>(s: Seq<T>) -> Seq<(u64, Seq<char>)> {
    s.map_values(|e: T| (e.listed_id(), e.listed_name()))
}

/// Whether the id and name `a` are visited no later than the id and name
/// `b`.
pub open spec fn key_first(a: (u64, Seq<char>), b: (u64, Seq<char>)) -> bool {
    if a.1 == b.1 {
        a.0 <= b.0
    } else {
        name_le(a.1, b.1)
    }
}

/// `key_first` as a relation.
pub open spec fn key_order() -> spec_fn((u64, Seq<char>), (u64, Seq<char>)) -> bool {
    |a: (u64, Seq<char>), b: (u64, Seq<char>)| key_first(a, b)
}

/// A sequence that holds what `keys` holds, each as often, in visiting
/// order.
pub open spec fn is_key_listing(s: Seq<(u64, Seq<char>)>, keys: Multiset<(u64, Seq<char>)>) -> bool {
    &&& sorted_by(s, key_order())
    &&& s.to_multiset() == keys
}

/// Ids with their names in the order in which they are visited.
pub open spec fn key_listing(keys: Multiset<(u64, Seq<char>)>) -> Seq<(u64, Seq<char>)> {
    choose|s: Seq<(u64, Seq<char>)>| is_key_listing(s, keys)
}

/// The visiting order is a total order on ids with their names.
pub proof fn lemma_key_order_total()
    ensures
        total_ordering(key_order()),
{
    let r = key_order();
    assert forall|a: (u64, Seq<char>)| #[trigger] r(a, a) by {}
    assert forall|a: (u64, Seq<char>), b: (u64, Seq<char>)| #[trigger]
        r(a, b) && #[trigger] r(b, a) implies a == b by {
        if a.1 != b.1 {
            lemma_name_le_antisymmetric(a.1, b.1);
        }
    }
    assert forall|a: (u64, Seq<char>), b: (u64, Seq<char>), c: (u64, Seq<char>)| #[trigger]
        r(a, b) && #[trigger] r(b, c) implies r(a, c) by {
        if a.1 != b.1 && b.1 != c.1 {
            lemma_name_le_transitive(a.1, b.1, c.1);
            if a.1 == c.1 {
                lemma_name_le_antisymmetric(a.1, b.1);
            }
        }
    }
    assert forall|a: (u64, Seq<char>), b: (u64, Seq<char>)| #[trigger]
        r(a, b) || #[trigger] r(b, a) by {
        lemma_name_le_total(a.1, b.1);
    }
}

/// Some sequence holds what a multiset holds, each as often.
pub proof fn lemma_sequence_of<A>(ms: Multiset<A>) -> (s: Seq<A>)
    ensures
        s.to_multiset() == ms,
    decreases ms.len(),
{
    broadcast use vstd::seq_lib::group_to_multiset_ensures;
    broadcast use vstd::multiset::group_multiset_axioms;

    if ms.len() == 0 {
        let s = Seq::<A>::empty();
        assert(s.to_multiset() =~= ms);
        s
    } else {
        let x = ms.choose();
        let rest = lemma_sequence_of(ms.remove(x));
        let s = rest.push(x);
        assert(s.to_multiset() =~= ms);
        s
    }
}

/// The listing of ids with their names holds each as often as they are
/// given, in visiting order: names never decrease along it.
pub proof fn lemma_key_listing_sorted(keys: Multiset<(u64, Seq<char>)>)
    ensures
        is_key_listing(key_listing(keys), keys),
        forall|i: int, j: int|
            0 <= i < j < key_listing(keys).len() ==> name_le(
                (#[trigger] key_listing(keys)[i]).1,
                (#[trigger] key_listing(keys)[j]).1,
            ),
{
    let unsorted = lemma_sequence_of(keys);
    lemma_key_order_total();
    unsorted.lemma_sort_by_ensures(key_order());
    assert(is_key_listing(unsorted.sort_by(key_order()), keys));
    let l = key_listing(keys);
    assert forall|i: int, j: int| 0 <= i < j < l.len() implies name_le(
        (#[trigger] l[i]).1,
        (#[trigger] l[j]).1,
    ) by {
        assert(key_order()(l[i], l[j]));
        lemma_name_le_reflexive(l[i].1);
    }
}

/// However a store hands out ids with their names, their listing is the
/// same.
pub proof fn lemma_key_listing_unique(keys: Multiset<(u64, Seq<char>)>, s: Seq<(u64, Seq<char>)>)
    requires
        is_key_listing(s, keys),
    ensures
        s == key_listing(keys),
{
    lemma_key_order_total();
    lemma_sorted_unique(s, key_listing(keys), key_order());
}

/// Whether `a` is visited no later than `b`.
pub fn comes_first<T: Listed>(a: &T, b: &T) -> (r: bool)
    ensures
        r == listed_first(*a, *b),
{
    let a_name = a.name();
    let b_name = b.name();
    if same_text(a_name, b_name) {
        a.id() <= b.id()
    } else {
        name_before_or_same(a_name, b_name)
    }
}

/// Puts listed things in visiting order. The result holds what `items`
/// holds, each thing as often.
pub fn sort_listed<T: Listed>(items: Vec<T>) -> (r: Vec<T>)
    ensures
        r@.to_multiset() == items@.to_multiset(),
        ids_of(r@).to_multiset() == ids_of(items@).to_multiset(),
        keys_of(r@).to_multiset() == keys_of(items@).to_multiset(),
        in_visiting_order(r@),
{
    broadcast use vstd::seq_lib::group_to_multiset_ensures;
    broadcast use vstd::multiset::group_multiset_axioms;

    let ghost all = items@;
    let mut rest = items;
    let mut sorted: Vec<T> = Vec::new();
    while rest.len() > 0
        invariant
            sorted@.to_multiset().add(rest@.to_multiset()) == all.to_multiset(),
            ids_of(sorted@).to_multiset().add(ids_of(rest@).to_multiset()) == ids_of(
                all,
            ).to_multiset(),
            keys_of(sorted@).to_multiset().add(keys_of(rest@).to_multiset()) == keys_of(
                all,
            ).to_multiset(),
            in_visiting_order(sorted@),
        decreases rest.len(),
    {
        let ghost before = rest@;
        let ghost placed = sorted@;
        let item = rest.pop().unwrap();
        assert(before =~= rest@.push(item));
        assert(ids_of(before) =~= ids_of(rest@).push(item.listed_id()));
        assert(keys_of(before) =~= keys_of(rest@).push((item.listed_id(), item.listed_name())));
        let mut at: usize = 0;
        while at < sorted.len() && comes_first(&sorted[at], &item)
            invariant
                at <= sorted.len(),
                sorted@ == placed,
                forall|k: int| 0 <= k < at ==> listed_first(#[trigger] sorted[k], item),
            decreases sorted.len() - at,
        {
            at += 1;
        }
        proof {
            assert forall|k: int| at <= k < placed.len() implies listed_first(
                item,
                #[trigger] placed[k],
            ) by {
                lemma_listed_first_total(placed[at as int], item);
                if k > at {
                    lemma_listed_first_transitive(item, placed[at as int], placed[k]);
                }
            }
        }
        sorted.insert(at, item);
        proof {
            assert(sorted@ == placed.insert(at as int, item));
            assert(ids_of(sorted@) =~= ids_of(placed).insert(at as int, item.listed_id()));
            vstd::seq_lib::to_multiset_insert(placed, at as int, item);
            vstd::seq_lib::to_multiset_insert(ids_of(placed), at as int, item.listed_id());
            let key = (item.listed_id(), item.listed_name());
            assert(keys_of(sorted@) =~= keys_of(placed).insert(at as int, key));
            vstd::seq_lib::to_multiset_insert(keys_of(placed), at as int, key);
            vstd::seq_lib::to_multiset_build(keys_of(rest@), key);
            assert(keys_of(before).to_multiset() =~= keys_of(rest@).to_multiset().insert(key));
            assert(keys_of(sorted@).to_multiset().add(keys_of(rest@).to_multiset()) =~= keys_of(
                placed,
            ).to_multiset().add(keys_of(before).to_multiset()));
            assert(sorted@.to_multiset() =~= placed.to_multiset().insert(item));
            assert(ids_of(sorted@).to_multiset() =~= ids_of(placed).to_multiset().insert(
                item.listed_id(),
            ));
            vstd::seq_lib::to_multiset_build(rest@, item);
            vstd::seq_lib::to_multiset_build(ids_of(rest@), item.listed_id());
            assert(before.to_multiset() =~= rest@.to_multiset().insert(item));
            assert(ids_of(before).to_multiset() =~= ids_of(rest@).to_multiset().insert(
                item.listed_id(),
            ));
            assert(sorted@.to_multiset().add(rest@.to_multiset()) =~= placed.to_multiset().add(
                before.to_multiset(),
            ));
            assert(ids_of(sorted@).to_multiset().add(ids_of(rest@).to_multiset()) =~= ids_of(
                placed,
            ).to_multiset().add(ids_of(before).to_multiset()));
            assert forall|i: int, j: int| 0 <= i < j < sorted@.len() implies listed_first(
                #[trigger] sorted@[i],
                #[trigger] sorted@[j],
            ) by {
                if j < at {
                } else if j == at {
                } else if i == at {
                    assert(sorted@[j] == placed[j - 1]);
                } else if i < at {
                    assert(sorted@[j] == placed[j - 1]);
                } else {
                    assert(sorted@[i] == placed[i - 1]);
                    assert(sorted@[j] == placed[j - 1]);
                }
            }
        }
    }
    proof {
        assert(rest@ =~= Seq::<T>::empty());
        assert(ids_of(rest@) =~= Seq::<u64>::empty());
        assert(keys_of(rest@) =~= Seq::<(u64, Seq<char>)>::empty());
        assert(keys_of(sorted@).to_multiset() =~= keys_of(all).to_multiset());
        assert(sorted@.to_multiset() =~= all.to_multiset());
        assert(ids_of(sorted@).to_multiset() =~= ids_of(all).to_multiset());
    }
    sorted
}

/// A rearrangement of a sequence without duplicates has none either, and
/// holds the same elements.
pub proof fn lemma_rearranged<A>(a: Seq<A>, b: Seq<A>)
    requires
        a.no_duplicates(),
        a.to_multiset() == b.to_multiset(),
    ensures
        b.no_duplicates(),
        b.to_set() == a.to_set(),
{
    broadcast use vstd::seq_lib::group_to_multiset_ensures;

    a.lemma_multiset_has_no_duplicates();
    b.lemma_multiset_has_no_duplicates_conv();
    assert forall|x: A| b.to_set().contains(x) <==> a.to_set().contains(x) by {
        assert(a.contains(x) <==> a.to_multiset().count(x) > 0);
        assert(b.contains(x) <==> b.to_multiset().count(x) > 0);
    }
    assert(b.to_set() =~= a.to_set());
}

} // verus!
