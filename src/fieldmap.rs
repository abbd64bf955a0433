use std::collections::HashMap;
use vstd::prelude::*;
use vstd::std_specs::cmp::PartialEqSpec;
use vstd::std_specs::hash::obeys_key_model;

verus! {

/// A collection of records, each reachable in expected constant time by either
/// of two keys that getters project out of it.  No two records share a first
/// key, and no two share a second key.
///
/// Records live in an arena (`data`); each key index maps a key to the arena
/// position of its record.  Positions never move, so the indices never go
/// stale.
pub struct FieldMap2<T, K1, K2, G1, G2> {
    data: Vec<T>,
    map1: HashMap<K1, usize>,
    map2: HashMap<K2, usize>,
    k1g: G1,
    k2g: G2,
}

/// The error of an insertion whose record would share a key with a different
/// record already present.
pub struct FieldOverlapError<T> {
    /// Arena position of the record that the new one overlaps, where known.
    pub existing: Option<usize>,
    /// The record that was refused.
    pub new: T,
}

impl<T> FieldOverlapError<T> {
    /// The same error without the position of the overlapped record.
    pub fn make_static(self) -> (r: FieldOverlapError<T>)
        ensures
            r.existing is None,
            r.new == self.new,
    {
        FieldOverlapError { existing: None, new: self.new }
    }
}

/// Whether a getter can be called on every record and gives one key for each.
pub open spec fn is_key_getter<T, K, G: Fn(&T) -> K>(g: G) -> bool {
    &&& forall|r: &T| #[trigger] g.requires((r,))
    &&& forall|r: &T, a: K, b: K|
        #[trigger] g.ensures((r,), a) && #[trigger] g.ensures((r,), b) ==> a == b
}

/// The key that a getter gives for a record.
pub open spec fn key_of<T, K, G: Fn(&T) -> K>(g: G, r: T) -> K {
    choose|k: K| g.ensures((&r,), k)
}

/// Whether no record of `s` shares a key with `r`, keys projected by `g1` and
/// `g2`.
pub open spec fn fresh_with<T, K1, K2, G1: Fn(&T) -> K1, G2: Fn(&T) -> K2>(
    g1: G1,
    g2: G2,
    s: Seq<T>,
    r: T,
) -> bool {
    forall|i: int|
        0 <= i < s.len() ==> key_of(g1, #[trigger] s[i]) != key_of(g1, r) && key_of(g2, s[i])
            != key_of(g2, r)
}

/// Whether `s` holds, under both of `r`'s keys, one record equal to `r`.
pub open spec fn holds_with<T: PartialEq, K1, K2, G1: Fn(&T) -> K1, G2: Fn(&T) -> K2>(
    g1: G1,
    g2: G2,
    s: Seq<T>,
    r: T,
) -> bool {
    exists|i: int|
        0 <= i < s.len() && key_of(g1, #[trigger] s[i]) == key_of(g1, r) && key_of(g2, s[i])
            == key_of(g2, r) && s[i].eq_spec(&r)
}

/// The records after inserting `r` into `s`, or `None` where `r` would share a
/// key with a different record.
pub open spec fn insert_with<T: PartialEq, K1, K2, G1: Fn(&T) -> K1, G2: Fn(&T) -> K2>(
    g1: G1,
    g2: G2,
    s: Seq<T>,
    r: T,
) -> Option<Seq<T>> {
    if fresh_with(g1, g2, s, r) {
        Some(s.push(r))
    } else if holds_with(g1, g2, s, r) {
        Some(s)
    } else {
        None
    }
}

/// Inserting the records of `rs` one after the other into `s`: the records
/// then, and how many of `rs` went in before the first refused one.
pub open spec fn insert_all_with<T: PartialEq, K1, K2, G1: Fn(&T) -> K1, G2: Fn(&T) -> K2>(
    g1: G1,
    g2: G2,
    s: Seq<T>,
    rs: Seq<T>,
) -> (Seq<T>, nat)
    decreases rs.len(),
{
    if rs.len() == 0 {
        (s, 0)
    } else {
        match insert_with(g1, g2, s, rs[0]) {
            Some(s2) => {
                let (f, n) = insert_all_with(g1, g2, s2, rs.drop_first());
                (f, n + 1)
            },
            None => (s, 0),
        }
    }
}

/// At most all of `rs` goes in.
pub proof fn lemma_insert_all_count<T: PartialEq, K1, K2, G1: Fn(&T) -> K1, G2: Fn(&T) -> K2>(
    g1: G1,
    g2: G2,
    s: Seq<T>,
    rs: Seq<T>,
)
    ensures
        insert_all_with(g1, g2, s, rs).1 <= rs.len(),
    decreases rs.len(),
{
    if rs.len() > 0 {
        if let Some(s2) = insert_with(g1, g2, s, rs[0]) {
            lemma_insert_all_count(g1, g2, s2, rs.drop_first());
        }
    }
}

impl<T, K1, K2, G1, G2> FieldMap2<T, K1, K2, G1, G2> where
    T: PartialEq,
    K1: Eq + std::hash::Hash,
    K2: Eq + std::hash::Hash,
    G1: Fn(&T) -> K1,
    G2: Fn(&T) -> K2,
 {
    /// The records, in the order in which they were inserted.
    pub closed spec fn view(&self) -> Seq<T> {
        self.data@
    }

    /// The getter of the first key.
    pub closed spec fn getter1(&self) -> G1 {
        self.k1g
    }

    /// The getter of the second key.
    pub closed spec fn getter2(&self) -> G2 {
        self.k2g
    }

    /// The first key of a record.
    pub open spec fn key1(&self, r: T) -> K1 {
        key_of(self.getter1(), r)
    }

    /// The second key of a record.
    pub open spec fn key2(&self, r: T) -> K2 {
        key_of(self.getter2(), r)
    }

    /// Whether `o` projects keys with the same getters as `self`.
    pub open spec fn same_getters(&self, o: &Self) -> bool {
        self.getter1() == o.getter1() && self.getter2() == o.getter2()
    }

    pub closed spec fn wf(&self) -> bool {
        &&& obeys_key_model::<K1>()
        &&& obeys_key_model::<K2>()
        &&& is_key_getter(self.k1g)
        &&& is_key_getter(self.k2g)
        &&& T::obeys_eq_spec()
        &&& forall|k: K1| #[trigger]
            self.map1@.contains_key(k) ==> self.map1@[k] < self.data@.len() && self.key1(
                self.data@[self.map1@[k] as int],
            ) == k
        &&& forall|i: int|
            0 <= i < self.data@.len() ==> #[trigger] self.map1@.contains_key(
                self.key1(self.data@[i]),
            ) && self.map1@[self.key1(self.data@[i])] == i
        &&& forall|k: K2| #[trigger]
            self.map2@.contains_key(k) ==> self.map2@[k] < self.data@.len() && self.key2(
                self.data@[self.map2@[k] as int],
            ) == k
        &&& forall|i: int|
            0 <= i < self.data@.len() ==> #[trigger] self.map2@.contains_key(
                self.key2(self.data@[i]),
            ) && self.map2@[self.key2(self.data@[i])] == i
    }

    /// Whether no record of `s` shares a key with `r`.
    pub open spec fn fresh_in(&self, s: Seq<T>, r: T) -> bool {
        fresh_with(self.getter1(), self.getter2(), s, r)
    }

    /// Whether `s` holds, under both of `r`'s keys, one record equal to `r`.
    pub open spec fn holds_in(&self, s: Seq<T>, r: T) -> bool {
        holds_with(self.getter1(), self.getter2(), s, r)
    }

    /// The records after inserting `r` into `s`, or `None` where `r` would
    /// share a key with a different record.
    pub open spec fn insert_into(&self, s: Seq<T>, r: T) -> Option<Seq<T>> {
        insert_with(self.getter1(), self.getter2(), s, r)
    }

    /// Inserting the records of `rs` one after the other into `s`.
    pub open spec fn insert_all(&self, s: Seq<T>, rs: Seq<T>) -> (Seq<T>, nat) {
        insert_all_with(self.getter1(), self.getter2(), s, rs)
    }

    /// The record whose first key is `k`, if any.
    pub open spec fn find1(&self, k: K1) -> Option<T> {
        if exists|i: int| 0 <= i < self.view().len() && self.key1(#[trigger] self.view()[i]) == k {
            Some(
                self.view()[choose|i: int|
                    0 <= i < self.view().len() && self.key1(#[trigger] self.view()[i]) == k],
            )
        } else {
            None
        }
    }

    /// The record whose second key is `k`, if any.
    pub open spec fn find2(&self, k: K2) -> Option<T> {
        if exists|i: int| 0 <= i < self.view().len() && self.key2(#[trigger] self.view()[i]) == k {
            Some(
                self.view()[choose|i: int|
                    0 <= i < self.view().len() && self.key2(#[trigger] self.view()[i]) == k],
            )
        } else {
            None
        }
    }

    /// An empty map whose records are keyed by `k1g` and `k2g`.  The key types
    /// must hash and compare lawfully, and so must the record type.
    pub fn new(k1g: G1, k2g: G2) -> (r: Self)
        requires
            obeys_key_model::<K1>(),
            obeys_key_model::<K2>(),
            T::obeys_eq_spec(),
            is_key_getter(k1g),
            is_key_getter(k2g),
        ensures
            r.wf(),
            r@ == Seq::<T>::empty(),
            r.getter1() == k1g,
            r.getter2() == k2g,
    {
        FieldMap2 { data: Vec::new(), map1: HashMap::new(), map2: HashMap::new(), k1g, k2g }
    }

    /// The record whose first key is `k1`.
    pub fn get_k1(&self, k1: &K1) -> (r: Option<&T>)
        requires
            self.wf(),
        ensures
            match r {
                Some(x) => self.find1(*k1) == Some(*x),
                None => self.find1(*k1) is None,
            },
    {
        match self.map1.get(k1) {
            Some(i) => {
                let i = *i;
                proof {
                    assert(self.key1(self@[i as int]) == *k1);
                }
                Some(&self.data[i])
            },
            None => {
                proof {
                    if exists|i: int| 0 <= i < self@.len() && self.key1(#[trigger] self@[i]) == *k1 {
                        let i = choose|i: int| 0 <= i < self@.len() && self.key1(#[trigger] self@[i]) == *k1;
                        assert(self.map1@.contains_key(self.key1(self.data@[i])));
                    }
                }
                None
            },
        }
    }

    /// The record whose second key is `k2`.
    pub fn get_k2(&self, k2: &K2) -> (r: Option<&T>)
        requires
            self.wf(),
        ensures
            match r {
                Some(x) => self.find2(*k2) == Some(*x),
                None => self.find2(*k2) is None,
            },
    {
        match self.map2.get(k2) {
            Some(i) => {
                let i = *i;
                proof {
                    assert(self.key2(self@[i as int]) == *k2);
                }
                Some(&self.data[i])
            },
            None => {
                proof {
                    if exists|i: int| 0 <= i < self@.len() && self.key2(#[trigger] self@[i]) == *k2 {
                        let i = choose|i: int| 0 <= i < self@.len() && self.key2(#[trigger] self@[i]) == *k2;
                        assert(self.map2@.contains_key(self.key2(self.data@[i])));
                    }
                }
                None
            },
        }
    }
    /// Inserts `owner`.  It is refused where it shares a key with a record that
    /// is not equal to it; where an equal record is already held under both of
    /// its keys, nothing changes.
    pub fn insert(&mut self, owner: T) -> (r: Result<(), FieldOverlapError<T>>)
        requires
            old(self).wf(),
        ensures
            final(self).wf(),
            final(self).same_getters(old(self)),
            old(self).getter1().ensures((&owner,), old(self).key1(owner)),
            old(self).getter2().ensures((&owner,), old(self).key2(owner)),
            match old(self).insert_into(old(self)@, owner) {
                Some(s) => r is Ok && final(self)@ == s,
                None => r matches Err(e) && e.new == owner && final(self)@ == old(self)@,
            },
    {
        let k1 = (self.k1g)(&owner);
        let k2 = (self.k2g)(&owner);
        proof {
            assert(k1 == self.key1(owner));
            assert(k2 == self.key2(owner));
        }
        let hit1: Option<usize> = match self.map1.get(&k1) {
            Some(i) => Some(*i),
            None => None,
        };
        let hit2: Option<usize> = match self.map2.get(&k2) {
            Some(i) => Some(*i),
            None => None,
        };
        match (hit1, hit2) {
            (None, None) => {
                proof {
                    assert forall|i: int| 0 <= i < self@.len() implies self.key1(#[trigger] self@[i])
                        != self.key1(owner) && self.key2(self@[i]) != self.key2(owner) by {
                        assert(self.map1@.contains_key(self.key1(self.data@[i])));
                        assert(self.map2@.contains_key(self.key2(self.data@[i])));
                    }
                    assert(self.fresh_in(self@, owner));
                }
                let ghost old_data = self.data@;
                let ghost old_map1 = self.map1@;
                let ghost old_map2 = self.map2@;
                let n = self.data.len();
                self.data.push(owner);
                self.map1.insert(k1, n);
                self.map2.insert(k2, n);
                proof {
                    assert(self.data@ == old_data.push(owner));
                    assert forall|k: K1| #[trigger] self.map1@.contains_key(k) implies self.map1@[k]
                        < self.data@.len() && self.key1(self.data@[self.map1@[k] as int]) == k by {
                        if k != k1 {
                            assert(old_map1.contains_key(k));
                            assert(self.data@[self.map1@[k] as int] == old_data[old_map1[k] as int]);
                        }
                    }
                    assert forall|k: K2| #[trigger] self.map2@.contains_key(k) implies self.map2@[k]
                        < self.data@.len() && self.key2(self.data@[self.map2@[k] as int]) == k by {
                        if k != k2 {
                            assert(old_map2.contains_key(k));
                            assert(self.data@[self.map2@[k] as int] == old_data[old_map2[k] as int]);
                        }
                    }
                    assert forall|i: int| 0 <= i < self.data@.len() implies #[trigger] self.map1@.contains_key(
                        self.key1(self.data@[i]),
                    ) && self.map1@[self.key1(self.data@[i])] == i by {
                        if i < n {
                            assert(self.data@[i] == old_data[i]);
                        }
                    }
                    assert forall|i: int| 0 <= i < self.data@.len() implies #[trigger] self.map2@.contains_key(
                        self.key2(self.data@[i]),
                    ) && self.map2@[self.key2(self.data@[i])] == i by {
                        if i < n {
                            assert(self.data@[i] == old_data[i]);
                        }
                    }
                }
                Ok(())
            },
            (Some(i), Some(j)) => {
                if i == j && self.data[i].eq(&owner) {
                    proof {
                        assert(self.key1(self@[i as int]) == self.key1(owner));
                        assert(!self.fresh_in(self@, owner));
                        assert(self.holds_in(self@, owner));
                    }
                    Ok(())
                } else {
                    proof {
                        assert(self.key1(self@[i as int]) == self.key1(owner));
                        assert(!self.fresh_in(self@, owner));
                        assert forall|x: int| 0 <= x < self@.len() && self.key1(#[trigger] self@[x]) == self.key1(owner)
                            && self.key2(self@[x]) == self.key2(owner) implies !self@[x].eq_spec(&owner) by {
                            assert(self.map1@.contains_key(self.key1(self.data@[x])));
                            assert(self.map2@.contains_key(self.key2(self.data@[x])));
                        }
                    }
                    Err(FieldOverlapError { existing: Some(i), new: owner })
                }
            },
            (Some(i), None) => {
                proof {
                    assert(self.key1(self@[i as int]) == self.key1(owner));
                    assert(!self.fresh_in(self@, owner));
                    assert forall|x: int| 0 <= x < self@.len() && self.key1(#[trigger] self@[x]) == self.key1(owner)
                        implies self.key2(self@[x]) != self.key2(owner) by {
                        assert(self.map2@.contains_key(self.key2(self.data@[x])));
                    }
                }
                Err(FieldOverlapError { existing: Some(i), new: owner })
            },
            (None, Some(j)) => {
                proof {
                    assert(self.key2(self@[j as int]) == self.key2(owner));
                    assert(!self.fresh_in(self@, owner));
                    assert forall|x: int| 0 <= x < self@.len() && self.key2(#[trigger] self@[x]) == self.key2(owner)
                        implies self.key1(self@[x]) != self.key1(owner) by {
                        assert(self.map1@.contains_key(self.key1(self.data@[x])));
                    }
                }
                Err(FieldOverlapError { existing: Some(j), new: owner })
            },
        }
    }
    /// Inserts the records of `items` in order, stopping at the first that is
    /// refused; the records before it stay inserted.
    pub fn insert_multi(&mut self, items: Vec<T>) -> (r: Result<(), FieldOverlapError<T>>)
        requires
            old(self).wf(),
        ensures
            final(self).wf(),
            final(self).same_getters(old(self)),
            final(self)@ == old(self).insert_all(old(self)@, items@).0,
            r is Ok <==> old(self).insert_all(old(self)@, items@).1 == items@.len(),
            r matches Err(e) ==> old(self).insert_all(old(self)@, items@).1 < items@.len() && e.new
                == items@[old(self).insert_all(old(self)@, items@).1 as int],
    {
        let ghost all = items@;
        let ghost start = self@;
        proof {
            lemma_insert_all_count(self.getter1(), self.getter2(), start, all);
        }
        let mut rest = reversed(items);
        let ghost mut done: nat = 0;
        proof {
            assert(all.reverse().reverse() =~= all);
            assert(all.skip(0) =~= all);
        }
        while rest.len() > 0
            invariant
                self.wf(),
                self.same_getters(old(self)),
                start == old(self)@,
                all == items@,
                done + rest@.len() == all.len(),
                rest@.reverse() == all.skip(done as int),
                old(self).insert_all(start, all).0 == self.insert_all(self@, rest@.reverse()).0,
                old(self).insert_all(start, all).1 == done + self.insert_all(self@, rest@.reverse()).1,
            decreases rest.len(),
        {
            let ghost before = self@;
            let ghost rs = rest@.reverse();
            assert(old(self).insert_all(start, all).0 == self.insert_all(before, rs).0);
            let owner = rest.pop().unwrap();
            proof {
                assert(rs[0] == owner);
                assert(rs.drop_first() =~= rest@.reverse());
                assert(all.skip(done as int + 1) =~= all.skip(done as int).drop_first());
            }
            match self.insert(owner) {
                Ok(()) => {
                    proof {
                        let s2 = self.insert_into(before, owner);
                        assert(s2 == Some(self@));
                        assert(self.insert_all(before, rs) == (
                            self.insert_all(self@, rs.drop_first()).0,
                            self.insert_all(self@, rs.drop_first()).1 + 1,
                        ));
                        done = done + 1;
                    }
                },
                Err(e) => {
                    proof {
                        assert(self.insert_into(before, owner) is None);
                        assert(self.insert_all(before, rs) == (before, 0nat));
                        assert(all.skip(done as int)[0] == all[done as int]);
                        assert(old(self).insert_all(start, all).1 == done);
                        assert(old(self).insert_all(start, all).0 == self@);
                    }
                    return Err(e);
                },
            }
        }
        Ok(())
    }

    /// A map keyed by `k1g` and `k2g` holding `items`, inserted in order; the
    /// first refused record is the error.
    pub fn from_iter(k1g: G1, k2g: G2, items: Vec<T>) -> (r: Result<Self, FieldOverlapError<T>>)
        requires
            obeys_key_model::<K1>(),
            obeys_key_model::<K2>(),
            T::obeys_eq_spec(),
            is_key_getter(k1g),
            is_key_getter(k2g),
        ensures
            match r {
                Ok(m) => {
                    &&& m.wf()
                    &&& m.getter1() == k1g
                    &&& m.getter2() == k2g
                    &&& m@ == insert_all_with(k1g, k2g, Seq::empty(), items@).0
                    &&& insert_all_with(k1g, k2g, Seq::empty(), items@).1 == items@.len()
                },
                Err(e) => {
                    let n = insert_all_with(k1g, k2g, Seq::empty(), items@).1;
                    &&& n < items@.len()
                    &&& e.new == items@[n as int]
                    &&& e.existing is None
                },
            },
    {
        let mut map = Self::new(k1g, k2g);
        match map.insert_multi(items) {
            Ok(()) => Ok(map),
            Err(e) => Err(e.make_static()),
        }
    }

    /// The records, in the order in which they were inserted.
    pub fn iter(&self) -> (r: &[T])
        ensures
            r@ == self@,
    {
        self.data.as_slice()
    }

    /// A record is held at one position only under each of its keys.
    proof fn lemma_unique_position(&self, i: int, j: int)
        requires
            self.wf(),
            0 <= i < self@.len(),
            0 <= j < self@.len(),
            self.key1(self@[i]) == self.key1(self@[j]) || self.key2(self@[i]) == self.key2(
                self@[j],
            ),
        ensures
            i == j,
    {
        assert(self.map1@.contains_key(self.key1(self.data@[i])));
        assert(self.map1@.contains_key(self.key1(self.data@[j])));
        assert(self.map2@.contains_key(self.key2(self.data@[i])));
        assert(self.map2@.contains_key(self.key2(self.data@[j])));
    }

    /// Every record held is found under its first key and under its second.
    pub proof fn lemma_reachable_by_both_keys(&self, r: T)
        requires
            self.wf(),
            self@.contains(r),
        ensures
            self.find1(self.key1(r)) == Some(r),
            self.find2(self.key2(r)) == Some(r),
    {
        let i = choose|i: int| 0 <= i < self@.len() && self@[i] == r;
        let j1 = choose|j: int|
            0 <= j < self.view().len() && self.key1(#[trigger] self.view()[j]) == self.key1(r);
        self.lemma_unique_position(i, j1);
        let j2 = choose|j: int|
            0 <= j < self.view().len() && self.key2(#[trigger] self.view()[j]) == self.key2(r);
        self.lemma_unique_position(i, j2);
    }

    /// A record that shares either key with a different record already held is
    /// refused, so `insert` leaves the map as it was.
    pub proof fn lemma_overlap_refused(&self, a: T, b: T)
        requires
            self.wf(),
            self@.contains(a),
            self.key1(a) == self.key1(b) || self.key2(a) == self.key2(b),
            !a.eq_spec(&b),
        ensures
            self.insert_into(self@, b) is None,
    {
        let i = choose|i: int| 0 <= i < self@.len() && self@[i] == a;
        assert(!self.fresh_in(self@, b));
        assert forall|x: int|
            0 <= x < self@.len() && self.key1(#[trigger] self@[x]) == self.key1(b) && self.key2(
                self@[x],
            ) == self.key2(b) implies !self@[x].eq_spec(&b) by {
            self.lemma_unique_position(i, x);
        }
    }
}

/// The elements of `v` in reverse order.
fn reversed<T>(v: Vec<T>) -> (r: Vec<T>)
    ensures
        r@ == v@.reverse(),
{
    let mut v = v;
    let ghost orig = v@;
    let mut r: Vec<T> = Vec::new();
    while v.len() > 0
        invariant
            v@ + r@.reverse() == orig,
        decreases v.len(),
    {
        let ghost before = r@;
        let x = v.pop().unwrap();
        r.push(x);
        proof {
            assert(r@.reverse() =~= seq![x] + before.reverse());
        }
    }
    proof {
        assert(v@ =~= Seq::<T>::empty());
        assert(r@.reverse().reverse() =~= r@);
    }
    r
}

} // verus!
