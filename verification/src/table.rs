//! An ordered table: a map from keys to values that lists its keys in order.
//!
//! The table holds its entries sorted by key, so that a listing needs no
//! sorting of its own and a key occurs once.

use vstd::prelude::*;

verus! {

/// How one key stands to another.
#[derive(Clone, Copy, Debug, PartialEq, Eq, Structural)]
pub enum Order {
    Less,
    Equal,
    Greater,
}

/// A totally ordered key, by way of a mathematical model.
pub trait Key: Sized {
    /// What the key is, mathematically.
    type Model;

    /// This key's model.
    spec fn model(&self) -> Self::Model;

    /// Whether `a` is listed before `b`.
    spec fn before(a: Self::Model, b: Self::Model) -> bool;

    /// `before` is a strict total order.
    proof fn lemma_total(a: Self::Model, b: Self::Model, c: Self::Model)
        ensures
            !Self::before(a, a),
            Self::before(a, b) && Self::before(b, c) ==> Self::before(a, c),
            Self::before(a, b) || Self::before(b, a) || a == b,
    ;

    /// Compares this key with another.
    fn order(&self, other: &Self) -> (r: Order)
        ensures
            match r {
                Order::Less => Self::before(self.model(), other.model()),
                Order::Equal => self.model() == other.model(),
                Order::Greater => Self::before(other.model(), self.model()),
            },
    ;
}

/// Whether `a` stands before `b` in the order of strings: character by
/// character, a proper prefix first.
pub open spec fn text_before(a: Seq<char>, b: Seq<char>) -> bool
    decreases a.len(),
{
    if b.len() == 0 {
        false
    } else if a.len() == 0 {
        true
    } else if a[0] == b[0] {
        text_before(a.drop_first(), b.drop_first())
    } else {
        a[0] < b[0]
    }
}

/// No string stands before itself.
proof fn lemma_text_irreflexive(a: Seq<char>)
    ensures
        !text_before(a, a),
    decreases a.len(),
{
    if a.len() > 0 {
        lemma_text_irreflexive(a.drop_first());
    }
}

/// The order of strings is a strict total order.
pub proof fn lemma_text_total(a: Seq<char>, b: Seq<char>, c: Seq<char>)
    ensures
        !text_before(a, a),
        text_before(a, b) && text_before(b, c) ==> text_before(a, c),
        text_before(a, b) || text_before(b, a) || a == b,
    decreases a.len() + b.len() + c.len(),
{
    lemma_text_irreflexive(a);
    if a.len() > 0 && b.len() > 0 && c.len() > 0 {
        lemma_text_total(a.drop_first(), b.drop_first(), c.drop_first());
    }
    if a.len() > 0 && b.len() > 0 {
        lemma_text_total(a.drop_first(), b.drop_first(), Seq::empty());
        if a[0] == b[0] && a.drop_first() == b.drop_first() {
            assert(a =~= seq![a[0]] + a.drop_first());
            assert(b =~= seq![b[0]] + b.drop_first());
        }
    }
    if a.len() == 0 && b.len() == 0 {
        assert(a =~= b);
    }
}

/// Whether names list those of a set, each once and in order.
pub open spec fn lists(names: Seq<Seq<char>>, held: Set<Seq<char>>) -> bool {
    &&& forall|i: int, j: int|
        0 <= i < j < names.len() ==> text_before(#[trigger] names[i], #[trigger] names[j])
    &&& forall|i: int| 0 <= i < names.len() ==> held.contains(#[trigger] names[i])
    &&& forall|name: Seq<char>| #[trigger] held.contains(name) ==> names.contains(name)
}

/// Compares two strings.
pub fn text_order(a: &str, b: &str) -> (r: Order)
    ensures
        match r {
            Order::Less => text_before(a@, b@),
            Order::Equal => a@ == b@,
            Order::Greater => text_before(b@, a@),
        },
{
    let x: Vec<char> = crate::text::chars_of(a);
    let y: Vec<char> = crate::text::chars_of(b);
    let mut i: usize = 0;
    assert(x@.skip(0) =~= x@);
    assert(y@.skip(0) =~= y@);
    while i < x.len() && i < y.len()
        invariant
            i <= x.len(),
            i <= y.len(),
            x@ == a@,
            y@ == b@,
            x@.take(i as int) == y@.take(i as int),
            text_before(a@, b@) == text_before(x@.skip(i as int), y@.skip(i as int)),
            text_before(b@, a@) == text_before(y@.skip(i as int), x@.skip(i as int)),
        decreases x.len() - i,
    {
        if x[i] < y[i] {
            return Order::Less;
        }
        if y[i] < x[i] {
            return Order::Greater;
        }
        i = i + 1;
        assert(x@.skip(i - 1).drop_first() =~= x@.skip(i as int));
        assert(y@.skip(i - 1).drop_first() =~= y@.skip(i as int));
        assert(x@.take(i as int) =~= x@.take(i - 1).push(x@[i - 1]));
        assert(y@.take(i as int) =~= y@.take(i - 1).push(y@[i - 1]));
    }
    if i < y.len() {
        Order::Less
    } else if i < x.len() {
        Order::Greater
    } else {
        assert(x@.take(i as int) =~= x@);
        assert(y@.take(i as int) =~= y@);
        Order::Equal
    }
}

impl Key for String {
    type Model = Seq<char>;

    open spec fn model(&self) -> Seq<char> {
        self@
    }

    open spec fn before(a: Seq<char>, b: Seq<char>) -> bool {
        text_before(a, b)
    }

    proof fn lemma_total(a: Seq<char>, b: Seq<char>, c: Seq<char>) {
        lemma_text_total(a, b, c);
    }

    fn order(&self, other: &Self) -> (r: Order) {
        text_order(self.as_str(), other.as_str())
    }
}

impl<'a> Key for &'a str {
    type Model = Seq<char>;

    open spec fn model(&self) -> Seq<char> {
        self@
    }

    open spec fn before(a: Seq<char>, b: Seq<char>) -> bool {
        text_before(a, b)
    }

    proof fn lemma_total(a: Seq<char>, b: Seq<char>, c: Seq<char>) {
        lemma_text_total(a, b, c);
    }

    fn order(&self, other: &Self) -> (r: Order) {
        text_order(self, other)
    }
}

/// A map from keys to values, listed in key order.
pub struct Table<K: Key, V> {
    entries: Vec<(K, V)>,
}

impl<K: Key, V> View for Table<K, V> {
    type V = Map<K::Model, V>;

    closed spec fn view(&self) -> Map<K::Model, V> {
        Map::new(
            |k: K::Model| self.keys().contains(k),
            |k: K::Model| self.entries@[self.keys().index_of(k)].1,
        )
    }
}

impl<K: Key, V> Table<K, V> {
    /// The keys, as they are listed.
    pub closed spec fn keys(&self) -> Seq<K::Model> {
        Seq::new(self.entries@.len(), |i: int| self.entries@[i].0.model())
    }

    /// The keys are in strictly ascending order, so that each occurs once.
    pub closed spec fn wf(&self) -> bool {
        forall|i: int, j: int|
            0 <= i < j < self.keys().len() ==> K::before(
                #[trigger] self.keys()[i],
                #[trigger] self.keys()[j],
            )
    }

    /// The listing holds the keys of the map, each once and in order.
    pub proof fn lemma_keys(&self)
        requires
            self.wf(),
        ensures
            forall|k: K::Model| #[trigger] self@.contains_key(k) <==> self.keys().contains(k),
            forall|i: int, j: int|
                0 <= i < j < self.keys().len() ==> K::before(
                    #[trigger] self.keys()[i],
                    #[trigger] self.keys()[j],
                ),
            forall|i: int, j: int|
                0 <= i < self.keys().len() && 0 <= j < self.keys().len() && #[trigger] self.keys()[i]
                    == #[trigger] self.keys()[j] ==> i == j,
            forall|i: int| 0 <= i < self.keys().len() ==> self@.contains_key(#[trigger] self.keys()[i]),
    {
        assert forall|i: int, j: int|
            0 <= i < self.keys().len() && 0 <= j < self.keys().len() && #[trigger] self.keys()[i]
                == #[trigger] self.keys()[j] implies i == j by {
            K::lemma_total(self.keys()[i], self.keys()[j], self.keys()[i]);
        }
    }

    proof fn lemma_at(&self, i: int)
        requires
            self.wf(),
            0 <= i < self.keys().len(),
        ensures
            self@.contains_key(self.keys()[i]),
            self@[self.keys()[i]] == self.entries@[i].1,
    {
        self.lemma_keys();
        let k = self.keys()[i];
        let at = self.keys().index_of(k);
        assert(self.keys().contains(k));
        assert(self.keys()[at] == k);
    }

    /// An empty table.
    pub fn new() -> (r: Self)
        ensures
            r.wf(),
            r@ == Map::<K::Model, V>::empty(),
            r.keys() == Seq::<K::Model>::empty(),
    {
        let r = Table { entries: Vec::new() };
        assert(r.keys() =~= Seq::<K::Model>::empty());
        assert(r@ =~= Map::<K::Model, V>::empty());
        r
    }

    /// How many keys there are.
    pub fn len(&self) -> (r: usize)
        ensures
            r == self.keys().len(),
    {
        self.entries.len()
    }

    /// Where `key` stands, or would stand, and whether it is there.
    fn position(&self, key: &K) -> (r: (usize, bool))
        requires
            self.wf(),
        ensures
            r.0 <= self.keys().len(),
            forall|i: int| 0 <= i < r.0 ==> K::before(#[trigger] self.keys()[i], key.model()),
            r.1 ==> r.0 < self.keys().len() && self.keys()[r.0 as int] == key.model(),
            !r.1 ==> forall|i: int|
                r.0 <= i < self.keys().len() ==> K::before(key.model(), #[trigger] self.keys()[i]),
            r.1 == self@.contains_key(key.model()),
    {
        let mut i: usize = 0;
        while i < self.entries.len()
            invariant
                self.wf(),
                i <= self.keys().len(),
                self.keys().len() == self.entries@.len(),
                forall|j: int| 0 <= j < i ==> K::before(#[trigger] self.keys()[j], key.model()),
            decreases self.entries.len() - i,
        {
            let o: Order = self.entries[i].0.order(key);
            assert(self.keys()[i as int] == self.entries@[i as int].0.model());
            match o {
                Order::Less => {},
                Order::Equal => {
                    proof {
                        self.lemma_at(i as int);
                    }
                    return (i, true);
                },
                Order::Greater => {
                    proof {
                        assert forall|j: int| i <= j < self.keys().len() implies K::before(
                            key.model(),
                            #[trigger] self.keys()[j],
                        ) by {
                            K::lemma_total(key.model(), self.keys()[i as int], self.keys()[j]);
                        }
                        self.lemma_absent(key.model(), i as int);
                    }
                    return (i, false);
                },
            }
            i = i + 1;
        }
        proof {
            self.lemma_absent(key.model(), i as int);
        }
        (i, false)
    }

    proof fn lemma_absent(&self, k: K::Model, at: int)
        requires
            0 <= at <= self.keys().len(),
            forall|i: int| 0 <= i < at ==> K::before(#[trigger] self.keys()[i], k),
            forall|i: int| at <= i < self.keys().len() ==> K::before(k, #[trigger] self.keys()[i]),
        ensures
            !self@.contains_key(k),
    {
        if self.keys().contains(k) {
            let j = self.keys().index_of(k);
            assert(self.keys()[j] == k);
            K::lemma_total(k, k, k);
            assert(false);
        }
    }

    /// The value under `key`.
    pub fn get(&self, key: &K) -> (r: Option<&V>)
        requires
            self.wf(),
        ensures
            match r {
                Some(v) => self@.contains_key(key.model()) && *v == self@[key.model()],
                None => !self@.contains_key(key.model()),
            },
    {
        let (i, found): (usize, bool) = self.position(key);
        if found {
            proof {
                self.lemma_at(i as int);
            }
            Some(&self.entries[i].1)
        } else {
            None
        }
    }

    /// Whether there is a value under `key`.
    pub fn contains(&self, key: &K) -> (r: bool)
        requires
            self.wf(),
        ensures
            r == self@.contains_key(key.model()),
    {
        self.position(key).1
    }

    /// The `i`-th key in order.
    pub fn key_at(&self, i: usize) -> (r: &K)
        requires
            i < self.keys().len(),
        ensures
            r.model() == self.keys()[i as int],
    {
        &self.entries[i].0
    }

    /// The value under the `i`-th key in order.
    pub fn value_at(&self, i: usize) -> (r: &V)
        requires
            self.wf(),
            i < self.keys().len(),
        ensures
            *r == self@[self.keys()[i as int]],
    {
        proof {
            self.lemma_at(i as int);
        }
        &self.entries[i].1
    }

    /// Puts `value` under `key`, and gives back the value that was there.
    pub fn insert(&mut self, key: K, value: V) -> (r: Option<V>)
        requires
            old(self).wf(),
        ensures
            final(self).wf(),
            final(self)@ == old(self)@.insert(key.model(), value),
            r == (if old(self)@.contains_key(key.model()) {
                Some(old(self)@[key.model()])
            } else {
                None
            }),
    {
        let ghost k = key.model();
        let ghost before = *self;
        let (i, found): (usize, bool) = self.position(&key);
        if found {
            proof {
                self.lemma_at(i as int);
            }
            let gone: (K, V) = self.entries.remove(i);
            self.entries.insert(i, (key, value));
            proof {
                assert(self.keys() =~= before.keys());
                self.lemma_replaced(before, i as int, value);
            }
            Some(gone.1)
        } else {
            self.entries.insert(i, (key, value));
            proof {
                assert(self.keys() =~= before.keys().insert(i as int, k));
                self.lemma_inserted(before, i as int, k, value);
            }
            None
        }
    }

    proof fn lemma_replaced(&self, before: Self, i: int, value: V)
        requires
            before.wf(),
            0 <= i < before.keys().len(),
            self.keys() == before.keys(),
            self.entries@.len() == before.entries@.len(),
            forall|j: int| 0 <= j < self.entries@.len() && j != i ==> self.entries@[j].1 == before.entries@[j].1,
            self.entries@[i].1 == value,
        ensures
            self.wf(),
            self@ == before@.insert(before.keys()[i], value),
    {
        before.lemma_keys();
        assert forall|k: K::Model| self@.contains_key(k) implies self@[k] == before@.insert(
            before.keys()[i],
            value,
        )[k] by {
            let j = self.keys().index_of(k);
            assert(self.keys().contains(k));
            assert(self.keys()[j] == k);
        }
        assert(self@ =~= before@.insert(before.keys()[i], value));
    }

    proof fn lemma_inserted(&self, before: Self, i: int, k: K::Model, value: V)
        requires
            before.wf(),
            0 <= i <= before.keys().len(),
            self.keys() == before.keys().insert(i, k),
            self.entries@.len() == before.entries@.len() + 1,
            forall|j: int| 0 <= j < i ==> self.entries@[j].1 == before.entries@[j].1,
            forall|j: int| i <= j < before.entries@.len() ==> self.entries@[j + 1].1 == (#[trigger] before.entries@[j]).1,
            self.entries@[i].1 == value,
            forall|j: int| 0 <= j < i ==> K::before(#[trigger] before.keys()[j], k),
            forall|j: int| i <= j < before.keys().len() ==> K::before(k, #[trigger] before.keys()[j]),
            !before@.contains_key(k),
        ensures
            self.wf(),
            self@ == before@.insert(k, value),
    {
        assert forall|a: int, b: int| 0 <= a < b < self.keys().len() implies K::before(
            #[trigger] self.keys()[a],
            #[trigger] self.keys()[b],
        ) by {
            let pa = if a < i {
                a
            } else {
                a - 1
            };
            let pb = if b < i {
                b
            } else {
                b - 1
            };
            if a != i {
                assert(self.keys()[a] == before.keys()[pa]);
            }
            if b != i {
                assert(self.keys()[b] == before.keys()[pb]);
            }
        }
        before.lemma_keys();
        self.lemma_keys();
        assert forall|x: K::Model| self@.contains_key(x) == before@.insert(k, value).contains_key(x) by {
            if before@.contains_key(x) {
                let j = before.keys().index_of(x);
                assert(before.keys().contains(x));
                assert(before.keys()[j] == x);
                if j < i {
                    assert(self.keys()[j] == x);
                } else {
                    assert(self.keys()[j + 1] == x);
                }
                assert(self.keys().contains(x));
            }
            if x == k {
                assert(self.keys()[i] == x);
                assert(self.keys().contains(x));
            }
            if self@.contains_key(x) && x != k {
                let j = self.keys().index_of(x);
                assert(self.keys().contains(x));
                assert(self.keys()[j] == x);
                if j < i {
                    assert(before.keys()[j] == x);
                } else {
                    assert(before.keys()[j - 1] == x);
                }
                assert(before.keys().contains(x));
            }
        }
        assert forall|x: K::Model| self@.contains_key(x) implies self@[x] == before@.insert(k, value)[x] by {
            let j = self.keys().index_of(x);
            assert(self.keys().contains(x));
            assert(self.keys()[j] == x);
            self.lemma_at(j);
            if x == k {
                assert(self.keys()[i] == k);
                assert(i == j);
            } else if j < i {
                assert(before.keys()[j] == x);
                before.lemma_at(j);
            } else {
                assert(before.keys()[j - 1] == x);
                before.lemma_at(j - 1);
                assert(self.entries@[(j - 1) + 1].1 == before.entries@[j - 1].1);
            }
        }
        assert(self@ =~= before@.insert(k, value));
    }

    /// Takes the `i`-th key out, with its value.
    fn remove_at(&mut self, i: usize) -> (r: V)
        requires
            old(self).wf(),
            i < old(self).keys().len(),
        ensures
            final(self).wf(),
            final(self)@ == old(self)@.remove(old(self).keys()[i as int]),
            final(self).keys() == old(self).keys().remove(i as int),
            r == old(self)@[old(self).keys()[i as int]],
    {
        let ghost before = *self;
        proof {
            self.lemma_at(i as int);
        }
        let gone: (K, V) = self.entries.remove(i);
        proof {
            assert(self.keys() =~= before.keys().remove(i as int));
            self.lemma_removed(before, i as int);
        }
        gone.1
    }

    proof fn lemma_removed(&self, before: Self, i: int)
        requires
            before.wf(),
            0 <= i < before.keys().len(),
            self.entries@ == before.entries@.remove(i),
            self.keys() == before.keys().remove(i),
        ensures
            self.wf(),
            self@ == before@.remove(before.keys()[i]),
    {
        let k = before.keys()[i];
        assert forall|a: int, b: int| 0 <= a < b < self.keys().len() implies K::before(
            #[trigger] self.keys()[a],
            #[trigger] self.keys()[b],
        ) by {
            let pa = if a < i {
                a
            } else {
                a + 1
            };
            let pb = if b < i {
                b
            } else {
                b + 1
            };
            assert(self.keys()[a] == before.keys()[pa]);
            assert(self.keys()[b] == before.keys()[pb]);
        }
        before.lemma_keys();
        self.lemma_keys();
        assert forall|x: K::Model| self@.contains_key(x) == before@.remove(k).contains_key(x) by {
            if before@.contains_key(x) && x != k {
                let j = before.keys().index_of(x);
                assert(before.keys().contains(x));
                assert(before.keys()[j] == x);
                if j < i {
                    assert(self.keys()[j] == x);
                } else {
                    assert(self.keys()[j - 1] == x);
                }
                assert(self.keys().contains(x));
            }
            if self@.contains_key(x) {
                let j = self.keys().index_of(x);
                assert(self.keys().contains(x));
                assert(self.keys()[j] == x);
                let pj = if j < i {
                    j
                } else {
                    j + 1
                };
                assert(before.keys()[pj] == x);
                assert(before.keys().contains(x));
                if x == k {
                    assert(pj == i);
                }
            }
        }
        assert forall|x: K::Model| self@.contains_key(x) implies self@[x] == before@.remove(k)[x] by {
            let j = self.keys().index_of(x);
            assert(self.keys().contains(x));
            assert(self.keys()[j] == x);
            self.lemma_at(j);
            let pj = if j < i {
                j
            } else {
                j + 1
            };
            assert(before.keys()[pj] == x);
            before.lemma_at(pj);
        }
        assert(self@ =~= before@.remove(k));
    }

    /// Takes `key` out, and gives back the value that was there.
    pub fn remove(&mut self, key: &K) -> (r: Option<V>)
        requires
            old(self).wf(),
        ensures
            final(self).wf(),
            final(self)@ == old(self)@.remove(key.model()),
            r == (if old(self)@.contains_key(key.model()) {
                Some(old(self)@[key.model()])
            } else {
                None
            }),
    {
        let (i, found): (usize, bool) = self.position(key);
        if found {
            Some(self.remove_at(i))
        } else {
            assert(self@.remove(key.model()) =~= self@);
            None
        }
    }
}

/// Strings are ordered by the first character in which they differ; where one is
/// the beginning of the other, it comes first.
pub proof fn law_strings_are_ordered_by_their_first_difference(
    common: Seq<char>,
    a: Seq<char>,
    b: Seq<char>,
)
    ensures
        a.len() > 0 && b.len() > 0 && a[0] != b[0] ==> text_before(common + a, common + b) == (a[0]
            < b[0]),
        b.len() > 0 ==> text_before(common, common + b),
        !text_before(common + b, common),
    decreases common.len(),
{
    if common.len() == 0 {
        assert(common + a =~= a);
        assert(common + b =~= b);
    } else {
        law_strings_are_ordered_by_their_first_difference(common.drop_first(), a, b);
        assert((common + a).drop_first() =~= common.drop_first() + a);
        assert((common + b).drop_first() =~= common.drop_first() + b);
    }
}

} // verus!
