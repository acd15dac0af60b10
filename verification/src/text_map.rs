//! A map from text to values, kept in ascending key order.

use vstd::prelude::*;

use crate::text;

verus! {

/// Whether `a` comes strictly before `b` in lexicographic order of code points.
pub open spec fn precedes(a: Seq<char>, b: Seq<char>) -> bool
    decreases a.len(),
{
    if b.len() == 0 {
        false
    } else if a.len() == 0 {
        true
    } else if a[0] != b[0] {
        (a[0] as int) < (b[0] as int)
    } else {
        precedes(a.drop_first(), b.drop_first())
    }
}

/// The order is transitive.
pub proof fn lemma_precedes_transitive(a: Seq<char>, b: Seq<char>, c: Seq<char>)
    requires
        precedes(a, b),
        precedes(b, c),
    ensures
        precedes(a, c),
    decreases a.len(),
{
    if a.len() > 0 && a[0] == b[0] && b[0] == c[0] {
        lemma_precedes_transitive(a.drop_first(), b.drop_first(), c.drop_first());
    }
}

/// No text precedes itself, and of two different texts exactly one precedes the
/// other.
pub proof fn lemma_precedes_total(a: Seq<char>, b: Seq<char>)
    ensures
        !precedes(a, a),
        a != b ==> precedes(a, b) != precedes(b, a),
        a == b ==> !precedes(a, b),
    decreases a.len(),
{
    if a.len() > 0 {
        lemma_precedes_total(a.drop_first(), a.drop_first());
    }
    if a.len() > 0 && b.len() > 0 && a[0] == b[0] {
        lemma_precedes_total(a.drop_first(), b.drop_first());
        if a.drop_first() == b.drop_first() {
            assert(a =~= seq![a[0]] + a.drop_first());
            assert(b =~= seq![b[0]] + b.drop_first());
        }
    } else if a.len() == 0 && b.len() == 0 {
        assert(a =~= b);
    }
}

/// How two texts compare.
#[derive(Clone, Copy)]
pub enum Order {
    Before,
    Same,
    After,
}

/// Compares two texts by code points.
pub fn order_of(a: &str, b: &str) -> (r: Order)
    ensures
        r is Before <==> precedes(a@, b@),
        r is Same <==> a@ == b@,
        r is After <==> precedes(b@, a@),
{
    proof {
        lemma_precedes_total(a@, b@);
    }
    let x = text::chars_of(a);
    let y = text::chars_of(b);
    let mut i: usize = 0;
    assert(x@.skip(0) =~= x@);
    assert(y@.skip(0) =~= y@);
    while i < x.len() && i < y.len() && x[i] == y[i]
        invariant
            i <= x@.len(),
            i <= y@.len(),
            x@ == a@,
            y@ == b@,
            x@.take(i as int) == y@.take(i as int),
            precedes(a@, b@) == precedes(x@.skip(i as int), y@.skip(i as int)),
            precedes(b@, a@) == precedes(y@.skip(i as int), x@.skip(i as int)),
        decreases x@.len() - i,
    {
        assert(x@.skip(i as int).drop_first() =~= x@.skip(i + 1));
        assert(y@.skip(i as int).drop_first() =~= y@.skip(i + 1));
        assert(x@.take(i + 1) =~= x@.take(i as int).push(x@[i as int]));
        assert(y@.take(i + 1) =~= y@.take(i as int).push(y@[i as int]));
        i += 1;
    }
    if i == x.len() && i == y.len() {
        assert(x@.take(i as int) =~= x@);
        assert(y@.take(i as int) =~= y@);
        Order::Same
    } else if i == x.len() {
        Order::Before
    } else if i == y.len() {
        Order::After
    } else if x[i] < y[i] {
        Order::Before
    } else {
        Order::After
    }
}

/// A map from text to values. Its entries stand in ascending key order.
#[derive(Debug)]
pub struct TextMap<V> {
    pub entries: Vec<(String, V)>,
}

impl<V> TextMap<V> {
    /// The entries as mathematical pairs, in ascending key order.
    pub open spec fn pairs(&self) -> Seq<(Seq<char>, V)> {
        self.entries@.map_values(|e: (String, V)| (e.0@, e.1))
    }

    /// The keys, in ascending order.
    pub open spec fn keys(&self) -> Seq<Seq<char>> {
        self.entries@.map_values(|e: (String, V)| e.0@)
    }

    /// Keys strictly ascend.
    pub open spec fn wf(&self) -> bool {
        forall|i: int, j: int|
            0 <= i < j < self.entries@.len() ==> precedes(
                (#[trigger] self.entries@[i]).0@,
                (#[trigger] self.entries@[j]).0@,
            )
    }

    /// The value stored under `key`, if any.
    pub open spec fn at(&self, key: Seq<char>) -> Option<V> {
        if exists|i: int| 0 <= i < self.entries@.len() && (#[trigger] self.entries@[i]).0@ == key {
            let i = choose|i: int|
                0 <= i < self.entries@.len() && (#[trigger] self.entries@[i]).0@ == key;
            Some(self.entries@[i].1)
        } else {
            None
        }
    }

    /// In a well-formed map an entry is what its key looks up.
    pub proof fn lemma_entry_is_at(&self, i: int)
        requires
            self.wf(),
            0 <= i < self.entries@.len(),
        ensures
            self.at(self.entries@[i].0@) == Some(self.entries@[i].1),
    {
        let key = self.entries@[i].0@;
        let k = choose|k: int|
            0 <= k < self.entries@.len() && (#[trigger] self.entries@[k]).0@ == key;
        assert(0 <= k < self.entries@.len() && self.entries@[k].0@ == key);
        lemma_precedes_total(key, key);
        if k < i {
            assert(precedes(self.entries@[k].0@, self.entries@[i].0@));
        } else if i < k {
            assert(precedes(self.entries@[i].0@, self.entries@[k].0@));
        }
    }

    /// What is found under a key is an entry.
    pub proof fn lemma_at_is_entry(&self, key: Seq<char>)
        requires
            self.at(key) is Some,
        ensures
            exists|i: int|
                0 <= i < self.entries@.len() && (#[trigger] self.entries@[i]).0@ == key
                    && self.at(key) == Some(self.entries@[i].1),
    {
    }

    /// Nothing is found in an empty map.
    pub proof fn lemma_nothing_in_empty(&self)
        requires
            self.entries@.len() == 0,
        ensures
            self.wf(),
            forall|key: Seq<char>| #[trigger] self.at(key) is None,
    {
    }

    /// The empty map.
    pub fn new() -> (r: Self)
        ensures
            r.wf(),
            r.entries@.len() == 0,
            forall|k: Seq<char>| r.at(k) is None,
    {
        TextMap { entries: Vec::new() }
    }

    /// How many entries there are.
    pub fn len(&self) -> (r: usize)
        ensures
            r == self.entries@.len(),
    {
        self.entries.len()
    }

    /// Whether there is no entry.
    pub fn is_empty(&self) -> (r: bool)
        ensures
            r == (self.entries@.len() == 0),
    {
        self.entries.len() == 0
    }

    /// The position of `key`, or where it belongs.
    fn locate(&self, key: &str) -> (r: (usize, bool))
        requires
            self.wf(),
        ensures
            r.0 <= self.entries@.len(),
            r.1 ==> r.0 < self.entries@.len() && self.entries@[r.0 as int].0@ == key@,
            forall|j: int| 0 <= j < r.0 ==> precedes((#[trigger] self.entries@[j]).0@, key@),
            !r.1 ==> forall|j: int|
                r.0 <= j < self.entries@.len() ==> precedes(key@, (#[trigger] self.entries@[j]).0@),
    {
        let mut i: usize = 0;
        while i < self.entries.len()
            invariant
                self.wf(),
                i <= self.entries@.len(),
                forall|j: int| 0 <= j < i ==> precedes((#[trigger] self.entries@[j]).0@, key@),
            decreases self.entries@.len() - i,
        {
            match order_of(self.entries[i].0.as_str(), key) {
                Order::Before => {
                    i += 1;
                },
                Order::Same => {
                    return (i, true);
                },
                Order::After => {
                    assert forall|j: int| i <= j < self.entries@.len() implies precedes(
                        key@,
                        (#[trigger] self.entries@[j]).0@,
                    ) by {
                        if i < j {
                            lemma_precedes_transitive(
                                key@,
                                self.entries@[i as int].0@,
                                self.entries@[j].0@,
                            );
                        }
                    }
                    return (i, false);
                },
            }
        }
        (i, false)
    }

    /// The value stored under `key`.
    pub fn get(&self, key: &str) -> (r: Option<&V>)
        requires
            self.wf(),
        ensures
            match r {
                Some(v) => self.at(key@) == Some(*v),
                None => self.at(key@) is None,
            },
    {
        let (i, found) = self.locate(key);
        if found {
            proof {
                self.lemma_entry_is_at(i as int);
            }
            Some(&self.entries[i].1)
        } else {
            proof {
                assert forall|j: int| 0 <= j < self.entries@.len() implies (
                #[trigger] self.entries@[j]).0@ != key@ by {
                    lemma_precedes_total(key@, key@);
                }
            }
            None
        }
    }

    /// Stores `value` under `key`, replacing what was there.
    pub fn insert(&mut self, key: String, value: V)
        requires
            old(self).wf(),
        ensures
            final(self).wf(),
            final(self).at(key@) == Some(value),
            forall|k: Seq<char>| k != key@ ==> final(self).at(k) == old(self).at(k),
            final(self).entries@.len() == old(self).entries@.len() + (if old(self).at(key@) is Some {
                0int
            } else {
                1
            }),
    {
        let ghost before = *self;
        let ghost k0 = key@;
        let (i, found) = self.locate(key.as_str());
        if found {
            proof {
                before.lemma_entry_is_at(i as int);
            }
            self.entries.set(i, (key, value));
            proof {
                self.lemma_entry_is_at(i as int);
                assert forall|k: Seq<char>| k != k0 implies self.at(k) == before.at(k) by {
                    lemma_at_agrees(before, *self, k);
                }
            }
        } else {
            proof {
                assert forall|j: int| 0 <= j < before.entries@.len() implies (
                #[trigger] before.entries@[j]).0@ != k0 by {
                    lemma_precedes_total(k0, k0);
                }
            }
            self.entries.insert(i, (key, value));
            proof {
                assert forall|a: int, b: int| 0 <= a < b < self.entries@.len() implies precedes(
                    (#[trigger] self.entries@[a]).0@,
                    (#[trigger] self.entries@[b]).0@,
                ) by {
                    let a0 = if a < i { a } else { a - 1 };
                    let b0 = if b < i { b } else { b - 1 };
                    if a != i && b != i {
                        assert(precedes(before.entries@[a0].0@, before.entries@[b0].0@));
                    } else if a == i {
                        assert(precedes(k0, before.entries@[b0].0@));
                    } else {
                        assert(precedes(before.entries@[a0].0@, k0));
                    }
                }
                self.lemma_entry_is_at(i as int);
                assert forall|k: Seq<char>| k != k0 implies self.at(k) == before.at(k) by {
                    lemma_at_agrees_insert(before, *self, i as int, k);
                }
            }
        }
    }
}

proof fn lemma_at_agrees<V>(a: TextMap<V>, b: TextMap<V>, k: Seq<char>)
    requires
        a.wf(),
        b.wf(),
        a.entries@.len() == b.entries@.len(),
        forall|i: int|
            0 <= i < a.entries@.len() ==> ((#[trigger] a.entries@[i]).0@ == k
                <==> b.entries@[i].0@ == k),
        forall|i: int|
            0 <= i < a.entries@.len() && a.entries@[i].0@ == k ==> (#[trigger] a.entries@[i]).1
                == b.entries@[i].1,
    ensures
        a.at(k) == b.at(k),
{
    if exists|i: int| 0 <= i < a.entries@.len() && (#[trigger] a.entries@[i]).0@ == k {
        let i = choose|i: int| 0 <= i < a.entries@.len() && (#[trigger] a.entries@[i]).0@ == k;
        a.lemma_entry_is_at(i);
        b.lemma_entry_is_at(i);
    } else {
        assert forall|i: int| 0 <= i < b.entries@.len() implies (#[trigger] b.entries@[i]).0@
            != k by {
            assert(a.entries@[i].0@ != k);
        }
    }
}

proof fn lemma_at_agrees_insert<V>(a: TextMap<V>, b: TextMap<V>, at: int, k: Seq<char>)
    requires
        a.wf(),
        b.wf(),
        0 <= at <= a.entries@.len(),
        b.entries@.len() == a.entries@.len() + 1,
        b.entries@ == a.entries@.insert(at, b.entries@[at]),
        b.entries@[at].0@ != k,
    ensures
        a.at(k) == b.at(k),
{
    if exists|i: int| 0 <= i < a.entries@.len() && (#[trigger] a.entries@[i]).0@ == k {
        let i = choose|i: int| 0 <= i < a.entries@.len() && (#[trigger] a.entries@[i]).0@ == k;
        a.lemma_entry_is_at(i);
        if i < at {
            assert(b.entries@[i] == a.entries@[i]);
            b.lemma_entry_is_at(i);
        } else {
            assert(b.entries@[i + 1] == a.entries@[i]);
            b.lemma_entry_is_at(i + 1);
        }
    } else {
        assert forall|i: int| 0 <= i < b.entries@.len() implies (#[trigger] b.entries@[i]).0@
            != k by {
            if i < at {
                assert(a.entries@[i].0@ != k);
                assert(b.entries@[i] == a.entries@[i]);
            } else if i > at {
                assert(a.entries@[i - 1].0@ != k);
                assert(b.entries@[i] == a.entries@[i - 1]);
            }
        }
    }
}

} // verus!
