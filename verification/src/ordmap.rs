//! Maps kept in key order.
//!
//! Evaluation walks nodes, channels and ports in the order of their names, so that the
//! same document always behaves the same way. An [`OrdMap`] holds its entries sorted by
//! key, each key once; that is its type's invariant.
use crate::text::{comes_before, same, text_before, text_order};
use vstd::prelude::*;

verus! {

/// What a map can be keyed by: something with a name, and a strict total order on names.
pub trait Key: Sized {
    type Name;

    spec fn name(&self) -> Self::Name;

    spec fn before(a: Self::Name, b: Self::Name) -> bool;

    proof fn order(a: Self::Name, b: Self::Name, c: Self::Name)
        ensures
            !Self::before(a, a),
            Self::before(a, b) && Self::before(b, c) ==> Self::before(a, c),
            a == b || Self::before(a, b) || Self::before(b, a),
    ;

    fn is(&self, other: &Self) -> (r: bool)
        ensures
            r == (self.name() == other.name()),
    ;

    fn is_before(&self, other: &Self) -> (r: bool)
        ensures
            r == Self::before(self.name(), other.name()),
    ;

    fn duplicate(&self) -> (r: Self)
        ensures
            r.name() == self.name(),
    ;
}

impl Key for String {
    type Name = Seq<char>;

    open spec fn name(&self) -> Seq<char> {
        self@
    }

    open spec fn before(a: Seq<char>, b: Seq<char>) -> bool {
        text_before(a, b)
    }

    proof fn order(a: Seq<char>, b: Seq<char>, c: Seq<char>) {
        text_order(a, b, c);
    }

    fn is(&self, other: &Self) -> (r: bool) {
        same(self.as_str(), other.as_str())
    }

    fn is_before(&self, other: &Self) -> (r: bool) {
        comes_before(self.as_str(), other.as_str())
    }

    fn duplicate(&self) -> (r: Self) {
        self.clone()
    }
}

/// A map whose entries are held in key order.
#[derive(Debug)]
pub struct OrdMap<K: Key, V> {
    keys: Vec<K>,
    values: Vec<V>,
}

/// Whether names are strictly ascending.
pub open spec fn ascending<K: Key>(names: Seq<K::Name>) -> bool {
    forall|i: int, j: int| 0 <= i < j < names.len() ==> K::before(#[trigger] names[i], #[trigger] names[j])
}

impl<K: Key, V> OrdMap<K, V> {
    /// The keys, in order.
    pub closed spec fn names(&self) -> Seq<K::Name> {
        Seq::new(self.keys@.len(), |i: int| self.keys@[i].name())
    }

    /// Keys ascend, and each has one value.
    #[verifier::type_invariant]
    pub closed spec fn wf(&self) -> bool {
        &&& self.keys@.len() == self.values@.len()
        &&& ascending::<K>(self.names())
    }
}

impl<K: Key, V> View for OrdMap<K, V> {
    type V = Map<K::Name, V>;

    closed spec fn view(&self) -> Map<K::Name, V> {
        Map::new(
            |n: K::Name| self.names().contains(n),
            |n: K::Name| self.values@[self.names().index_of(n)],
        )
    }
}

impl<K: Key, V> OrdMap<K, V> {
    /// What the invariant says of the view.
    pub proof fn lemma_wf(&self)
        requires
            self.wf(),
        ensures
            ascending::<K>(self.names()),
            self.names().no_duplicates(),
            forall|n: K::Name| #[trigger] self@.dom().contains(n) <==> self.names().contains(n),
            forall|i: int|
                0 <= i < self.names().len() ==> self@.dom().contains(#[trigger] self.names()[i]),
            self.names().len() <= usize::MAX,
    {
        let names = self.names();
        assert forall|i: int, j: int| 0 <= i < names.len() && 0 <= j < names.len() && i != j implies names[i]
            != names[j] by {
            K::order(names[i], names[j], names[i]);
            if i < j {
                assert(K::before(names[i], names[j]));
            } else {
                assert(K::before(names[j], names[i]));
            }
        }
        assert(self.keys@.len() <= usize::MAX) by {
            vstd::std_specs::vec::axiom_spec_len(&self.keys);
        }
    }

    proof fn lemma_at(&self, i: int)
        requires
            self.wf(),
            0 <= i < self.keys@.len(),
        ensures
            self.names()[i] == self.keys@[i].name(),
            self@.dom().contains(self.names()[i]),
            self@[self.names()[i]] == self.values@[i],
    {
        self.lemma_wf();
        assert(self.names().contains(self.names()[i]));
        let k = self.names().index_of(self.names()[i]);
        assert(self.names()[k] == self.names()[i]);
    }

    /// The empty map.
    pub fn new() -> (r: Self)
        ensures
            r@ == Map::<K::Name, V>::empty(),
            r.names() == Seq::<K::Name>::empty(),
    {
        let r = OrdMap { keys: Vec::new(), values: Vec::new() };
        assert(r@ =~= Map::<K::Name, V>::empty());
        r
    }

    /// How many entries there are.
    pub fn len(&self) -> (n: usize)
        ensures
            n == self.names().len(),
    {
        self.keys.len()
    }

    /// The key at a position.
    pub fn key_at(&self, i: usize) -> (r: &K)
        requires
            i < self.names().len(),
        ensures
            r.name() == self.names()[i as int],
    {
        &self.keys[i]
    }

    /// The value at a position.
    pub fn value_at(&self, i: usize) -> (r: &V)
        requires
            i < self.names().len(),
        ensures
            self@.dom().contains(self.names()[i as int]),
            *r == self@[self.names()[i as int]],
    {
        proof {
            use_type_invariant(self);
            self.lemma_at(i as int);
        }
        &self.values[i]
    }

    /// Where a key is, or where it would go.
    fn position(&self, key: &K) -> (r: (usize, bool))
        ensures
            r.0 <= self.keys@.len(),
            r.1 == self@.dom().contains(key.name()),
            r.1 ==> r.0 < self.keys@.len() && self.names()[r.0 as int] == key.name(),
            forall|j: int| 0 <= j < r.0 ==> K::before(#[trigger] self.names()[j], key.name()),
            forall|j: int|
                r.0 <= j < self.names().len() ==> self.names()[j] == key.name() || K::before(
                    key.name(),
                    #[trigger] self.names()[j],
                ),
            !r.1 ==> forall|j: int|
                r.0 <= j < self.names().len() ==> K::before(key.name(), #[trigger] self.names()[j]),
    {
        proof {
            use_type_invariant(self);
            self.lemma_wf();
        }
        let mut i: usize = 0;
        while i < self.keys.len() && self.keys[i].is_before(key)
            invariant
                i <= self.keys@.len(),
                self.wf(),
                forall|j: int| 0 <= j < i ==> K::before(#[trigger] self.names()[j], key.name()),
            decreases self.keys@.len() - i,
        {
            i += 1;
        }
        let found = i < self.keys.len() && self.keys[i].is(key);
        proof {
            self.lemma_wf();
            let n = self.names();
            let k = key.name();
            assert forall|j: int| 0 <= j < i implies #[trigger] n[j] != k by {
                K::order(k, k, k);
            }
            assert forall|j: int| i <= j < n.len() implies n[j] == k || K::before(k, #[trigger] n[j]) by {
                K::order(k, n[i as int], n[j]);
                K::order(n[i as int], k, k);
                if i < j {
                    assert(K::before(n[i as int], n[j]));
                }
            }
            assert forall|j: int| i < j < n.len() implies #[trigger] n[j] != k by {
                assert(K::before(n[i as int], n[j]));
                K::order(k, n[i as int], k);
                K::order(n[i as int], k, n[i as int]);
            }
            if found {
                self.lemma_at(i as int);
            } else {
                assert(!n.contains(k));
            }
        }
        (i, found)
    }

    /// Whether a key is present.
    pub fn contains_key(&self, key: &K) -> (r: bool)
        ensures
            r == self@.dom().contains(key.name()),
    {
        self.position(key).1
    }

    /// Where a key stands in the order.
    pub fn index_of(&self, key: &K) -> (r: Option<usize>)
        ensures
            match r {
                Some(i) => i < self.names().len() && self.names()[i as int] == key.name()
                    && self.names().index_of(key.name()) == i,
                None => !self@.dom().contains(key.name()),
            },
    {
        let (i, found) = self.position(key);
        if found {
            proof {
                use_type_invariant(self);
                self.lemma_wf();
                assert(self.names().contains(key.name()));
                let k = self.names().index_of(key.name());
                assert(self.names()[k] == key.name());
            }
            Some(i)
        } else {
            None
        }
    }

    /// The value of a key.
    pub fn get(&self, key: &K) -> (r: Option<&V>)
        ensures
            match r {
                Some(v) => self@.dom().contains(key.name()) && *v == self@[key.name()],
                None => !self@.dom().contains(key.name()),
            },
    {
        let (i, found) = self.position(key);
        if found {
            proof {
                use_type_invariant(self);
                self.lemma_at(i as int);
            }
            Some(&self.values[i])
        } else {
            None
        }
    }

    /// Puts a value under a key, and gives back what was there.
    pub fn insert(&mut self, key: K, value: V) -> (r: Option<V>)
        ensures
            final(self)@ == old(self)@.insert(key.name(), value),
            r == if old(self)@.dom().contains(key.name()) {
                Some(old(self)@[key.name()])
            } else {
                None
            },
    {
        let (i, found) = self.position(&key);
        proof {
            use_type_invariant(&*self);
            self.lemma_wf();
        }
        let ghost before = *self;
        let ghost name = key.name();
        let mut whole: Self = OrdMap::new();
        std::mem::swap(&mut whole, self);
        let OrdMap { mut keys, mut values } = whole;
        let mut result = None;
        if found {
            let taken = values.remove(i);
            result = Some(taken);
            values.insert(i, value);
            proof {
                before.lemma_at(i as int);
                assert(keys@ == before.keys@);
                assert(values@ =~= before.values@.update(i as int, value));
            }
        } else {
            keys.insert(i, key);
            values.insert(i, value);
        }
        proof {
            let made = OrdMap { keys, values };
            if found {
                assert(made.names() =~= before.names());
            } else {
                assert(made.names() =~= before.names().insert(i as int, name));
            }
        }
        *self = OrdMap { keys, values };
        proof {
            let after = *self;
            if found {
                assert(after.names() =~= before.names());
            } else {
                assert(after.names() =~= before.names().insert(i as int, name));
            }
            after.lemma_wf();
            assert forall|n: K::Name| #[trigger] after@.dom().contains(n) == before@.insert(
                name,
                value,
            ).dom().contains(n) by {
                if before.names().contains(n) {
                    let j = before.names().index_of(n);
                    if !found {
                        assert(after.names()[if j < i { j } else { j + 1 }] == n);
                    }
                }
                if after.names().contains(n) {
                    let j = after.names().index_of(n);
                    if !found && j != i {
                        assert(before.names()[if j < i { j } else { j - 1 }] == n);
                    }
                }
                assert(after.names()[i as int] == name);
            }
            assert forall|n: K::Name| #[trigger] after@.dom().contains(n) implies after@[n] == before@.insert(
                name,
                value,
            )[n] by {
                let j = after.names().index_of(n);
                after.lemma_at(j);
                assert(after.names()[i as int] == name);
                if n != name {
                    let k = if found || j < i { j } else { j - 1 };
                    before.lemma_at(k);
                    assert(before.names()[k] == n);
                }
            }
            assert(after@ =~= before@.insert(name, value));
        }
        result
    }

    /// Takes a key out, and gives back its value.
    pub fn remove(&mut self, key: &K) -> (r: Option<V>)
        ensures
            final(self)@ == old(self)@.remove(key.name()),
            r == if old(self)@.dom().contains(key.name()) {
                Some(old(self)@[key.name()])
            } else {
                None
            },
    {
        let (i, found) = self.position(key);
        if !found {
            assert(self@ =~= self@.remove(key.name()));
            return None;
        }
        proof {
            use_type_invariant(&*self);
            self.lemma_wf();
            self.lemma_at(i as int);
        }
        let ghost before = *self;
        let ghost name = key.name();
        let mut whole: Self = OrdMap::new();
        std::mem::swap(&mut whole, self);
        let OrdMap { mut keys, mut values } = whole;
        keys.remove(i);
        let taken = values.remove(i);
        proof {
            let made = OrdMap { keys, values };
            assert(made.names() =~= before.names().remove(i as int));
        }
        *self = OrdMap { keys, values };
        proof {
            let after = *self;
            assert(after.names() =~= before.names().remove(i as int));
            after.lemma_wf();
            assert forall|n: K::Name| #[trigger] after@.dom().contains(n) == before@.remove(
                name,
            ).dom().contains(n) by {
                if before.names().contains(n) && n != name {
                    let j = before.names().index_of(n);
                    assert(after.names()[if j < i { j } else { j - 1 }] == n);
                }
                if after.names().contains(n) {
                    let j = after.names().index_of(n);
                    assert(before.names()[if j < i { j } else { j + 1 }] == n);
                }
            }
            assert forall|n: K::Name| #[trigger] after@.dom().contains(n) implies after@[n]
                == before@[n] by {
                let j = after.names().index_of(n);
                after.lemma_at(j);
                let k = if j < i { j } else { j + 1 };
                before.lemma_at(k);
                assert(before.names()[k] == n);
            }
            assert(after@ =~= before@.remove(name));
        }
        Some(taken)
    }

    /// The value at a position, to change.
    pub fn value_mut(&mut self, i: usize) -> (r: &mut V)
        requires
            i < old(self).names().len(),
        ensures
            *r == old(self)@[old(self).names()[i as int]],
            final(self)@ == old(self)@.insert(old(self).names()[i as int], *final(r)),
            final(self).names() == old(self).names(),
    {
        proof {
            use_type_invariant(&*self);
            self.lemma_at(i as int);
            lemma_with_value(*self, i as int);
        }
        &mut self.values[i]
    }

    /// The value of a key, to change; a key that is not there gets `value` first.
    pub fn slot(&mut self, key: K, value: V) -> (r: &mut V)
        ensures
            *r == if old(self)@.dom().contains(key.name()) {
                old(self)@[key.name()]
            } else {
                value
            },
            final(self)@ == old(self)@.insert(key.name(), *final(r)),
    {
        let ghost start = *self;
        let (_, found) = self.position(&key);
        let asked = key.duplicate();
        if !found {
            self.insert(key, value);
        }
        let (i, _) = self.position(&asked);
        proof {
            assert forall|v: V| #[trigger] self@.insert(asked.name(), v) == start@.insert(asked.name(), v) by {
                assert(self@.insert(asked.name(), v) =~= start@.insert(asked.name(), v));
            }
        }
        self.value_mut(i)
    }

    /// Appends an entry whose key comes after every other.
    pub fn push(&mut self, key: K, value: V)
        requires
            forall|n: K::Name| #[trigger] old(self).names().contains(n) ==> K::before(n, key.name()),
        ensures
            final(self)@ == old(self)@.insert(key.name(), value),
            final(self).names() == old(self).names().push(key.name()),
    {
        proof {
            use_type_invariant(&*self);
            self.lemma_wf();
        }
        let ghost before = *self;
        let ghost name = key.name();
        let mut whole: Self = OrdMap::new();
        std::mem::swap(&mut whole, self);
        let OrdMap { mut keys, mut values } = whole;
        keys.push(key);
        values.push(value);
        proof {
            let made = OrdMap { keys, values };
            assert(made.names() =~= before.names().push(name));
            assert forall|i: int, j: int| 0 <= i < j < made.names().len() implies K::before(
                #[trigger] made.names()[i],
                #[trigger] made.names()[j],
            ) by {
                assert(before.names().contains(before.names()[i]));
            }
        }
        *self = OrdMap { keys, values };
        proof {
            let after = *self;
            after.lemma_wf();
            let last = before.names().len() as int;
            assert(after.names()[last] == name);
            assert forall|n: K::Name| #[trigger] after@.dom().contains(n) == before@.insert(
                name,
                value,
            ).dom().contains(n) by {
                if before.names().contains(n) {
                    assert(after.names()[before.names().index_of(n)] == n);
                }
                if after.names().contains(n) && n != name {
                    assert(before.names()[after.names().index_of(n)] == n);
                }
            }
            assert forall|n: K::Name| #[trigger] after@.dom().contains(n) implies after@[n] == before@.insert(
                name,
                value,
            )[n] by {
                let j = after.names().index_of(n);
                after.lemma_at(j);
                if n != name {
                    before.lemma_at(j);
                }
            }
            assert(after@ =~= before@.insert(name, value));
        }
    }
}

/// Changing one value changes the view at its key alone.
proof fn lemma_with_value<K: Key, V>(m: OrdMap<K, V>, i: int)
    requires
        m.wf(),
        0 <= i < m.keys@.len(),
    ensures
        forall|o: OrdMap<K, V>, v: V|
            o.keys == m.keys && o.values@ == m.values@.update(i, v) ==> o.wf() && o.names()
                == m.names() && #[trigger] o@ == #[trigger] m@.insert(m.names()[i], v),
{
    assert forall|o: OrdMap<K, V>, v: V|
        o.keys == m.keys && o.values@ == m.values@.update(i, v) implies o.wf() && o.names()
        == m.names() && #[trigger] o@ == #[trigger] m@.insert(m.names()[i], v) by {
        assert(o.names() =~= m.names());
        m.lemma_wf();
        o.lemma_wf();
        m.lemma_at(i);
        assert forall|n: K::Name| #[trigger] o@.dom().contains(n) implies o@[n] == m@.insert(
            m.names()[i],
            v,
        )[n] by {
            let j = o.names().index_of(n);
            o.lemma_at(j);
            m.lemma_at(j);
        }
        assert(o@ =~= m@.insert(m.names()[i], v));
    }
}

/// Sorted maps with the same keys list them alike.
pub proof fn lemma_names_unique<K: Key>(a: Seq<K::Name>, b: Seq<K::Name>)
    requires
        ascending::<K>(a),
        ascending::<K>(b),
        forall|n: K::Name| a.contains(n) <==> b.contains(n),
    ensures
        a == b,
    decreases a.len(),
{
    if a.len() == 0 {
        if b.len() > 0 {
            assert(b.contains(b[0]));
        }
        assert(a =~= b);
    } else {
        assert(a.contains(a.last()));
        assert(b.contains(a.last()));
        assert(b.contains(b.last()));
        assert(a.contains(b.last()));
        let i = b.index_of(a.last());
        let j = a.index_of(b.last());
        K::order(a.last(), b.last(), a.last());
        if i < b.len() - 1 && j < a.len() - 1 {
            assert(K::before(b[i], b[b.len() - 1]));
            assert(K::before(a[j], a[a.len() - 1]));
        }
        if i < b.len() - 1 {
            assert(a.last() == b.last());
            assert(K::before(b[i], b[b.len() - 1]));
        }
        assert(a.last() == b.last());
        let a1 = a.drop_last();
        let b1 = b.drop_last();
        assert forall|n: K::Name| a1.contains(n) <==> b1.contains(n) by {
            if a1.contains(n) {
                let k = a1.index_of(n);
                assert(a[k] == n);
                assert(K::before(a[k], a[a.len() - 1]));
                K::order(n, n, n);
                assert(a.contains(n));
                let m = b.index_of(n);
                assert(b1[m] == n);
            }
            if b1.contains(n) {
                let k = b1.index_of(n);
                assert(b[k] == n);
                assert(K::before(b[k], b[b.len() - 1]));
                K::order(n, n, n);
                assert(b.contains(n));
                let m = a.index_of(n);
                assert(a1[m] == n);
            }
        }
        lemma_names_unique::<K>(a1, b1);
        assert(a =~= a1.push(a.last()));
        assert(b =~= b1.push(b.last()));
    }
}

impl<K: Key, V: Copy> Clone for OrdMap<K, V> {
    fn clone(&self) -> (r: Self)
        ensures
            r@ == self@,
            r.names() == self.names(),
    {
        let mut out: Self = OrdMap::new();
        let n: usize = self.len();
        proof {
            use_type_invariant(self);
            self.lemma_wf();
        }
        for i in 0..n
            invariant
                n == self.names().len(),
                self.wf(),
                out.names() == self.names().take(i as int),
                forall|k: K::Name|
                    #[trigger] out@.dom().contains(k) ==> self@.dom().contains(k) && out@[k] == self@[k],
        {
            let key = self.key_at(i).duplicate();
            let value = *self.value_at(i);
            proof {
                self.lemma_wf();
                assert forall|k: K::Name| #[trigger] out.names().contains(k) implies K::before(
                    k,
                    key.name(),
                ) by {
                    let j = out.names().index_of(k);
                    assert(self.names()[j] == k);
                }
            }
            out.push(key, value);
            assert(self.names().take(i as int).push(self.names()[i as int]) =~= self.names().take(
                i + 1,
            ));
        }
        proof {
            assert(self.names().take(n as int) =~= self.names());
            use_type_invariant(&out);
            out.lemma_wf();
            self.lemma_wf();
            assert(out@ =~= self@);
        }
        out
    }
}

} // verus!
