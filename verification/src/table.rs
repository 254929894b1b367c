//! Values filed under text keys, kept in the order of the keys.
use vstd::prelude::*;

use crate::split;
use crate::text;
use crate::text::{comes_before, same};

verus! {

/// A copy of a value that stands for the same thing.
pub trait Duplicate: DeepView + Sized {
    fn duplicate(&self) -> (copy: Self)
        ensures
            copy.deep_view() == self.deep_view(),
    ;
}

impl Duplicate for String {
    fn duplicate(&self) -> (copy: Self) {
        self.clone()
    }
}

impl<T: Duplicate> Duplicate for Vec<T> {
    fn duplicate(&self) -> (copy: Self) {
        let mut out: Vec<T> = Vec::new();
        let mut i: usize = 0;
        while i < self.len()
            invariant
                i <= self@.len(),
                out@.len() == i,
                forall|j: int| 0 <= j < i ==> (#[trigger] out@[j]).deep_view() == self@[j].deep_view(),
            decreases self@.len() - i,
        {
            out.push(self[i].duplicate());
            i += 1;
        }
        assert(out.deep_view() =~= self.deep_view());
        out
    }
}

/// Each text comes before the ones that follow it.
pub open spec fn ascending(keys: Seq<Seq<char>>) -> bool {
    forall|i: int, j: int| 0 <= i < j < keys.len() ==> text::before(#[trigger] keys[i], #[trigger] keys[j])
}

/// The keys of a set in ascending order.
pub open spec fn sorted_keys(keys: Set<Seq<char>>) -> Seq<Seq<char>> {
    choose|list: Seq<Seq<char>>| ascending(list) && list.to_set() == keys
}

/// There is only one way to put a set of keys in ascending order.
pub proof fn lemma_ascending_unique(a: Seq<Seq<char>>, b: Seq<Seq<char>>)
    requires
        ascending(a),
        ascending(b),
        a.to_set() == b.to_set(),
    ensures
        a == b,
    decreases a.len(),
{
    if a.len() == 0 {
        if b.len() > 0 {
            assert(b.to_set().contains(b[0]));
            assert(a.to_set().contains(b[0]));
        }
        assert(a =~= b);
    } else {
        assert(a.to_set().contains(a[0]));
        assert(b.to_set().contains(a[0]));
        let j = choose|j: int| 0 <= j < b.len() && b[j] == a[0];
        assert(b.to_set().contains(b[0]));
        assert(a.to_set().contains(b[0]));
        let i = choose|i: int| 0 <= i < a.len() && a[i] == b[0];
        if i > 0 && j > 0 {
            text::lemma_before_total(a[0], b[0]);
        }
        assert(a[0] == b[0]);
        let x = a.drop_first();
        let y = b.drop_first();
        assert forall|k: Seq<char>| x.to_set().contains(k) implies y.to_set().contains(k) by {
            let n = choose|n: int| 0 <= n < x.len() && x[n] == k;
            assert(a[n + 1] == k);
            assert(a.to_set().contains(k));
            let m = choose|m: int| 0 <= m < b.len() && b[m] == k;
            text::lemma_before_irreflexive(k);
            assert(m > 0);
            assert(y[m - 1] == k);
        }
        assert forall|k: Seq<char>| y.to_set().contains(k) implies x.to_set().contains(k) by {
            let n = choose|n: int| 0 <= n < y.len() && y[n] == k;
            assert(b[n + 1] == k);
            assert(b.to_set().contains(k));
            let m = choose|m: int| 0 <= m < a.len() && a[m] == k;
            text::lemma_before_irreflexive(k);
            assert(m > 0);
            assert(x[m - 1] == k);
        }
        assert(x.to_set() =~= y.to_set());
        lemma_ascending_unique(x, y);
        assert(a =~= seq![a[0]] + x);
        assert(b =~= seq![b[0]] + y);
    }
}

/// An ascending list is the sorted list of its own members.
pub proof fn lemma_sorted_keys(list: Seq<Seq<char>>)
    requires
        ascending(list),
    ensures
        sorted_keys(list.to_set()) == list,
{
    let found = sorted_keys(list.to_set());
    assert(ascending(found) && found.to_set() == list.to_set());
    lemma_ascending_unique(found, list);
}

/// The keys of a finite set can be put in ascending order.
pub proof fn lemma_sorted_keys_exist(keys: Set<Seq<char>>)
    requires
        keys.finite(),
    ensures
        ascending(sorted_keys(keys)),
        sorted_keys(keys).to_set() == keys,
    decreases keys.len(),
{
    if keys.len() == 0 {
        let list = Seq::<Seq<char>>::empty();
        assert(list.to_set() =~= keys);
        assert(ascending(list));
    } else {
        let k = keys.choose();
        let rest = keys.remove(k);
        lemma_sorted_keys_exist(rest);
        let list = sorted_keys(rest);
        let n = lemma_place(list, k);
        let longer = list.insert(n, k);
        assert(!list.contains(k)) by {
            if list.contains(k) {
                assert(list.to_set().contains(k));
            }
        }
        assert forall|i: int, j: int| 0 <= i < j < longer.len() implies text::before(
            #[trigger] longer[i],
            #[trigger] longer[j],
        ) by {
            let a = if i < n { i } else { i - 1 };
            let b = if j < n { j } else { j - 1 };
            if i != n {
                assert(longer[i] == list[a]);
            }
            if j != n {
                assert(longer[j] == list[b]);
            }
            if j == n {
                assert(list.contains(list[a]));
            }
        }
        assert(longer.to_set() =~= keys) by {
            assert forall|x: Seq<char>| keys.contains(x) implies longer.to_set().contains(x) by {
                if x == k {
                    assert(longer[n] == x);
                } else {
                    assert(list.to_set().contains(x));
                    let i = choose|i: int| 0 <= i < list.len() && list[i] == x;
                    assert(longer[if i < n { i } else { i + 1 }] == x);
                }
            }
            assert forall|x: Seq<char>| longer.to_set().contains(x) implies keys.contains(x) by {
                let i = choose|i: int| 0 <= i < longer.len() && longer[i] == x;
                if i != n {
                    assert(list[if i < n { i } else { i - 1 }] == x);
                    assert(list.to_set().contains(x));
                }
            }
        }
        assert(ascending(longer));
    }
}

/// Where a new key belongs in an ascending list.
proof fn lemma_place(list: Seq<Seq<char>>, k: Seq<char>) -> (n: int)
    requires
        ascending(list),
    ensures
        0 <= n <= list.len(),
        forall|j: int| 0 <= j < n ==> text::before(#[trigger] list[j], k),
        forall|j: int| n <= j < list.len() ==> list[j] == k || text::before(k, #[trigger] list[j]),
    decreases list.len(),
{
    if list.len() == 0 {
        0
    } else if text::before(list.last(), k) {
        assert forall|j: int| 0 <= j < list.len() implies text::before(#[trigger] list[j], k) by {
            if j < list.len() - 1 {
                text::lemma_before_transitive(list[j], list.last(), k);
            }
        }
        list.len() as int
    } else {
        text::lemma_before_total(list.last(), k);
        let n = lemma_place(list.drop_last(), k);
        assert forall|j: int| 0 <= j < n implies text::before(#[trigger] list[j], k) by {
            assert(list[j] == list.drop_last()[j]);
        }
        assert forall|j: int| n <= j < list.len() implies list[j] == k || text::before(
            k,
            #[trigger] list[j],
        ) by {
            if j < list.len() - 1 {
                assert(list[j] == list.drop_last()[j]);
            }
        }
        n
    }
}

/// Values filed under text keys, in the order of the keys.
pub struct Table<V> {
    entries: Vec<(String, V)>,
}

spec fn keys<V>(entries: Seq<(String, V)>) -> Seq<Seq<char>> {
    Seq::new(entries.len(), |i: int| entries[i].0@)
}

spec fn as_map<V: DeepView>(entries: Seq<(String, V)>) -> Map<Seq<char>, V::V> {
    Map::new(
        |k: Seq<char>| keys(entries).contains(k),
        |k: Seq<char>| entries[keys(entries).index_of(k)].1.deep_view(),
    )
}

proof fn lemma_entry<V: DeepView>(entries: Seq<(String, V)>, i: int)
    requires
        ascending(keys(entries)),
        0 <= i < entries.len(),
    ensures
        as_map(entries).dom().contains(entries[i].0@),
        as_map(entries)[entries[i].0@] == entries[i].1.deep_view(),
{
    let list = keys(entries);
    let k = entries[i].0@;
    assert(list[i] == k);
    assert(list.contains(k));
    let n = list.index_of(k);
    assert(list[n] == k);
    text::lemma_before_irreflexive(k);
    assert(n == i);
}

impl<V: DeepView> View for Table<V> {
    type V = Map<Seq<char>, V::V>;

    closed spec fn view(&self) -> Map<Seq<char>, V::V> {
        as_map(self.entries@)
    }
}

impl<V: DeepView> DeepView for Table<V> {
    type V = Map<Seq<char>, V::V>;

    open spec fn deep_view(&self) -> Map<Seq<char>, V::V> {
        self@
    }
}

impl<V> Table<V> {
    #[verifier::type_invariant]
    spec fn ordered(self) -> bool {
        ascending(keys(self.entries@))
    }
}

impl<V: DeepView> Table<V> {
    pub fn new() -> (table: Self)
        ensures
            table@ == Map::<Seq<char>, V::V>::empty(),
    {
        let table = Table { entries: Vec::new() };
        assert(table@ =~= Map::<Seq<char>, V::V>::empty());
        table
    }

    /// How many of the keys come before `key`.
    fn rank(&self, key: &str) -> (n: usize)
        ensures
            n <= self.entries@.len(),
            forall|j: int| 0 <= j < n ==> text::before(#[trigger] keys(self.entries@)[j], key@),
            n < self.entries@.len() ==> !text::before(keys(self.entries@)[n as int], key@),
    {
        let mut n: usize = 0;
        while n < self.entries.len() && comes_before(self.entries[n].0.as_str(), key)
            invariant
                n <= self.entries@.len(),
                forall|j: int| 0 <= j < n ==> text::before(#[trigger] keys(self.entries@)[j], key@),
            decreases self.entries@.len() - n,
        {
            n += 1;
        }
        n
    }

    /// The position of `key`, if it is there.
    fn locate(&self, key: &str) -> (r: Option<usize>)
        ensures
            match r {
                Some(n) => n < self.entries@.len() && self.entries@[n as int].0@ == key@,
                None => !self@.dom().contains(key@),
            },
    {
        proof {
            use_type_invariant(self);
        }
        let n: usize = self.rank(key);
        if n < self.entries.len() && same(self.entries[n].0.as_str(), key) {
            return Some(n);
        }
        proof {
            let list = keys(self.entries@);
            assert forall|j: int| 0 <= j < list.len() implies #[trigger] list[j] != key@ by {
                text::lemma_before_irreflexive(key@);
                if j > n {
                    text::lemma_before_total(list[n as int], key@);
                    text::lemma_before_total(list[j], list[n as int]);
                }
            }
        }
        None
    }

    /// The value filed under `key`.
    pub fn get(&self, key: &str) -> (r: Option<&V>)
        ensures
            match r {
                Some(value) => self@.dom().contains(key@) && value.deep_view() == self@[key@],
                None => !self@.dom().contains(key@),
            },
    {
        proof {
            use_type_invariant(self);
        }
        match self.locate(key) {
            Some(n) => {
                proof {
                    lemma_entry(self.entries@, n as int);
                }
                Some(&self.entries[n].1)
            },
            None => None,
        }
    }

    pub fn contains(&self, key: &str) -> (r: bool)
        ensures
            r == self@.dom().contains(key@),
    {
        self.get(key).is_some()
    }

    /// How many keys there are.
    pub fn len(&self) -> (n: usize)
        ensures
            n == sorted_keys(self@.dom()).len(),
            ascending(sorted_keys(self@.dom())),
            sorted_keys(self@.dom()).to_set() == self@.dom(),
            self@.dom().finite(),
    {
        proof {
            use_type_invariant(self);
            self.lemma_keys();
        }
        self.entries.len()
    }

    /// The key at position `i` in ascending order.
    pub fn key_at(&self, i: usize) -> (key: &String)
        requires
            i < sorted_keys(self@.dom()).len(),
        ensures
            key@ == sorted_keys(self@.dom())[i as int],
            self@.dom().contains(key@),
    {
        proof {
            use_type_invariant(self);
            self.lemma_keys();
            lemma_entry(self.entries@, i as int);
        }
        &self.entries[i].0
    }

    /// The value of the key at position `i` in ascending order.
    pub fn value_at(&self, i: usize) -> (value: &V)
        requires
            i < sorted_keys(self@.dom()).len(),
        ensures
            value.deep_view() == self@[sorted_keys(self@.dom())[i as int]],
    {
        proof {
            use_type_invariant(self);
            self.lemma_keys();
            lemma_entry(self.entries@, i as int);
        }
        &self.entries[i].1
    }

    proof fn lemma_keys(&self)
        requires
            self.ordered(),
        ensures
            sorted_keys(self@.dom()) == keys(self.entries@),
            keys(self.entries@).to_set() == self@.dom(),
            self@.dom().finite(),
    {
        let list = keys(self.entries@);
        assert(list.to_set() =~= self@.dom());
        lemma_sorted_keys(list);
    }

    /// Files `value` under `key`, in place of what was there.
    pub fn insert(&mut self, key: String, value: V)
        ensures
            final(self)@ == old(self)@.insert(key@, value.deep_view()),
    {
        proof {
            use_type_invariant(&*self);
        }
        let n: usize = self.rank(key.as_str());
        let found: bool = n < self.entries.len() && same(self.entries[n].0.as_str(), key.as_str());
        let ghost before_insert = self.entries@;
        let mut entries: Vec<(String, V)> = Vec::new();
        std::mem::swap(&mut entries, &mut self.entries);
        if found {
            entries.remove(n);
        }
        let ghost without = entries@;
        proof {
            assert(found ==> without =~= before_insert.remove(n as int));
            let list = keys(without);
            let full = keys(before_insert);
            assert(forall|j: int| 0 <= j < n ==> list[j] == full[j]);
            assert(forall|j: int| n <= j < list.len() ==> list[j] == full[if found { j + 1 } else { j }]);
            assert(ascending(list));
            assert forall|j: int| n <= j < list.len() implies text::before(key@, #[trigger] list[j]) by {
                if found {
                    assert(text::before(full[n as int], full[j + 1]));
                } else {
                    text::lemma_before_total(key@, full[n as int]);
                    if j > n {
                        text::lemma_before_transitive(key@, full[n as int], full[j]);
                    }
                }
            }
        }
        entries.insert(n, (key, value));
        proof {
            let after = entries@;
            let list = keys(after);
            let rest = keys(without);
            assert(list =~= rest.insert(n as int, key@));
            assert forall|i: int, j: int| 0 <= i < j < list.len() implies text::before(
                #[trigger] list[i],
                #[trigger] list[j],
            ) by {
                if i < n && j > n {
                    assert(rest[i] == list[i] && rest[j - 1] == list[j]);
                    text::lemma_before_transitive(list[i], key@, list[j]);
                } else if i > n {
                    assert(rest[i - 1] == list[i] && rest[j - 1] == list[j]);
                } else if j < n {
                    assert(rest[i] == list[i] && rest[j] == list[j]);
                }
            }
            let m = as_map(before_insert).insert(key@, value.deep_view());
            assert forall|k: Seq<char>| as_map(after).dom().contains(k) == m.dom().contains(k) by {
                if as_map(after).dom().contains(k) && k != key@ {
                    let i = list.index_of(k);
                    let old_i = if i < n { i } else if found { i } else { i - 1 };
                    assert(keys(before_insert)[old_i] == k);
                }
                if m.dom().contains(k) {
                    if k == key@ {
                        assert(list[n as int] == k);
                    } else {
                        let i = keys(before_insert).index_of(k);
                        let new_i = if i < n { i } else if found { i } else { i + 1 };
                        assert(list[new_i] == k);
                    }
                }
            }
            assert forall|k: Seq<char>| m.dom().contains(k) implies as_map(after)[k] == m[k] by {
                if k == key@ {
                    lemma_entry(after, n as int);
                } else {
                    let i = keys(before_insert).index_of(k);
                    let new_i = if i < n { i } else if found { i } else { i + 1 };
                    assert(list[new_i] == k);
                    lemma_entry(before_insert, i);
                    lemma_entry(after, new_i);
                    assert(after[new_i].1 == before_insert[i].1);
                }
            }
            assert(as_map(after) =~= m);
        }
        self.entries = entries;
    }

    /// Takes out the value filed under `key`.
    pub fn remove(&mut self, key: &str) -> (r: Option<V>)
        ensures
            final(self)@ == old(self)@.remove(key@),
            match r {
                Some(value) => old(self)@.dom().contains(key@) && value.deep_view() == old(
                    self,
                )@[key@],
                None => !old(self)@.dom().contains(key@),
            },
    {
        proof {
            use_type_invariant(&*self);
        }
        match self.locate(key) {
            None => {
                assert(self@ =~= old(self)@.remove(key@));
                None
            },
            Some(n) => {
                let ghost before_remove = self.entries@;
                let mut entries: Vec<(String, V)> = Vec::new();
                std::mem::swap(&mut entries, &mut self.entries);
                let taken = entries.remove(n);
                proof {
                    let after = entries@;
                    let list = keys(after);
                    let full = keys(before_remove);
                    assert(list =~= full.remove(n as int));
                    assert(ascending(list));
                    lemma_entry(before_remove, n as int);
                    let m = as_map(before_remove).remove(key@);
                    assert forall|k: Seq<char>|
                        as_map(after).dom().contains(k) == m.dom().contains(k) by {
                        if as_map(after).dom().contains(k) {
                            let i = list.index_of(k);
                            let old_i = if i < n { i } else { i + 1 };
                            assert(full[old_i] == k);
                            assert(full[n as int] == key@);
                            text::lemma_before_irreflexive(k);
                            assert(k != key@);
                        }
                        if m.dom().contains(k) {
                            let i = full.index_of(k);
                            assert(i != n);
                            assert(list[if i < n { i } else { i - 1 }] == k);
                        }
                    }
                    assert forall|k: Seq<char>| m.dom().contains(k) implies as_map(after)[k]
                        == m[k] by {
                        let i = full.index_of(k);
                        let new_i = if i < n { i } else { i - 1 };
                        assert(list[new_i] == k);
                        lemma_entry(before_remove, i);
                        lemma_entry(after, new_i);
                    }
                    assert(as_map(after) =~= m);
                }
                self.entries = entries;
                Some(taken.1)
            },
        }
    }
}

impl<V: DeepView> Table<V> {
    /// The keys in ascending order.
    pub fn keys(&self) -> (r: Vec<String>)
        ensures
            split::texts(r@) == sorted_keys(self@.dom()),
    {
        let mut out: Vec<String> = Vec::new();
        let count: usize = self.len();
        let ghost all = sorted_keys(self@.dom());
        let mut i: usize = 0;
        while i < count
            invariant
                all == sorted_keys(self@.dom()),
                count == all.len(),
                i <= count,
                split::texts(out@) == all.take(i as int),
            decreases count - i,
        {
            let ghost earlier = out@;
            out.push(self.key_at(i).clone());
            i += 1;
            assert(split::texts(out@) =~= split::texts(earlier).push(all[i - 1]));
            assert(all.take(i as int) =~= all.take(i - 1).push(all[i - 1]));
        }
        assert(all.take(i as int) =~= all);
        out
    }
}

impl<V: Duplicate> Duplicate for Table<V> {
    fn duplicate(&self) -> (copy: Self) {
        let mut copy: Table<V> = Table::new();
        let count: usize = self.len();
        let ghost all = sorted_keys(self@.dom());
        let mut i: usize = 0;
        assert(all.take(0).to_set() =~= Set::empty());
        assert(copy@ =~= self@.restrict(all.take(0).to_set()));
        while i < count
            invariant
                all == sorted_keys(self@.dom()),
                all.to_set() == self@.dom(),
                count == all.len(),
                i <= count,
                copy@ == self@.restrict(all.take(i as int).to_set()),
            decreases count - i,
        {
            proof {
                let key = all[i as int];
                assert(all.contains(key));
                assert(all.take(i + 1) =~= all.take(i as int).push(key));
                lemma_to_set_push(all.take(i as int), key);
                assert(self@.restrict(all.take(i as int).to_set()).insert(key, self@[key])
                    =~= self@.restrict(all.take(i + 1).to_set()));
            }
            copy.insert(self.key_at(i).clone(), self.value_at(i).duplicate());
            i += 1;
        }
        assert(all.take(i as int) =~= all);
        assert(self@.restrict(self@.dom()) =~= self@);
        copy
    }
}

/// A further element of a list is a further element of its set.
pub proof fn lemma_to_set_push<A>(list: Seq<A>, a: A)
    ensures
        list.push(a).to_set() == list.to_set().insert(a),
{
    let longer = list.push(a);
    assert forall|x: A| longer.to_set().contains(x) == list.to_set().insert(a).contains(x) by {
        if longer.contains(x) {
            let i = choose|i: int| 0 <= i < longer.len() && longer[i] == x;
            if i < list.len() {
                assert(list[i] == x);
            }
        }
        if list.contains(x) {
            let i = choose|i: int| 0 <= i < list.len() && list[i] == x;
            assert(longer[i] == x);
        }
        assert(longer[list.len() as int] == a);
    }
    assert(longer.to_set() =~= list.to_set().insert(a));
}

/// The texts in ascending order, each of them once.
pub fn sorted_set(list: &Vec<String>) -> (r: Vec<String>)
    ensures
        split::texts(r@) == sorted_keys(split::texts(list@).to_set()),
{
    let ghost all = split::texts(list@);
    let mut found: Table<()> = Table::new();
    let mut i: usize = 0;
    assert(all.take(0).to_set() =~= Set::empty());
    while i < list.len()
        invariant
            all == split::texts(list@),
            i <= list@.len(),
            found@.dom() == all.take(i as int).to_set(),
        decreases list@.len() - i,
    {
        proof {
            assert(all.take(i + 1) =~= all.take(i as int).push(all[i as int]));
            lemma_to_set_push(all.take(i as int), all[i as int]);
        }
        found.insert(list[i].clone(), ());
        i += 1;
    }
    assert(all.take(i as int) =~= all);
    found.keys()
}

} // verus!
