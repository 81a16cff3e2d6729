//! A map kept as a list of entries in strictly increasing key order.
//!
//! Walking the entries always visits the keys in the same order, whatever the
//! history of insertions, so everything computed by such a walk is a function
//! of the map's contents alone.

use vstd::prelude::*;
use vstd::string::StringSliceAdditionalSpecFns;
use vstd::utf8::{encode_utf8, encode_utf8_decode_utf8};

verus! {

/// Outcome of comparing two keys.
#[derive(Clone, Copy, Debug, PartialEq, Eq, Structural)]
pub enum KeyOrder {
    Less,
    Equal,
    Greater,
}

/// A key type with a strict total order on its views that executable code can
/// decide.
pub trait MapKey: View + Sized {
    /// Whether `a` comes strictly before `b`.
    spec fn key_lt(a: Self::V, b: Self::V) -> bool;

    proof fn lemma_key_lt_irreflexive(a: Self::V)
        ensures
            !Self::key_lt(a, a),
    ;

    proof fn lemma_key_lt_transitive(a: Self::V, b: Self::V, c: Self::V)
        requires
            Self::key_lt(a, b),
            Self::key_lt(b, c),
        ensures
            Self::key_lt(a, c),
    ;

    proof fn lemma_key_lt_total(a: Self::V, b: Self::V)
        ensures
            Self::key_lt(a, b) || a == b || Self::key_lt(b, a),
    ;

    /// Decides how `self` and `other` are ordered.
    fn compare(&self, other: &Self) -> (res: KeyOrder)
        ensures
            res == KeyOrder::Less ==> Self::key_lt(self@, other@),
            res == KeyOrder::Equal ==> self@ == other@,
            res == KeyOrder::Greater ==> Self::key_lt(other@, self@),
    ;

    /// A second key with the same view.
    fn duplicate(&self) -> (res: Self)
        ensures
            res@ == self@,
    ;
}

/// Lexicographic order on byte strings: the first difference decides, and a
/// proper prefix comes first.
pub open spec fn bytes_lt(a: Seq<u8>, b: Seq<u8>) -> bool {
    exists|k: int| #[trigger] first_difference(a, b, k)
}

/// `a` and `b` agree before position `k`, where `a` ends or holds the smaller byte.
pub open spec fn first_difference(a: Seq<u8>, b: Seq<u8>, k: int) -> bool {
    &&& 0 <= k <= a.len()
    &&& k < b.len()
    &&& forall|j: int| 0 <= j < k ==> a[j] == b[j]
    &&& (k == a.len() || a[k] < b[k])
}

/// No byte string comes before itself.
pub proof fn lemma_bytes_lt_irreflexive(a: Seq<u8>)
    ensures
        !bytes_lt(a, a),
{
    if bytes_lt(a, a) {
        let k = choose|k: int| #[trigger] first_difference(a, a, k);
        assert(first_difference(a, a, k));
    }
}

/// What comes before a byte string comes before all that it comes before.
pub proof fn lemma_bytes_lt_transitive(a: Seq<u8>, b: Seq<u8>, c: Seq<u8>)
    requires
        bytes_lt(a, b),
        bytes_lt(b, c),
    ensures
        bytes_lt(a, c),
{
    let k1 = choose|k: int| #[trigger] first_difference(a, b, k);
    let k2 = choose|k: int| #[trigger] first_difference(b, c, k);
    let k = if k1 <= k2 {
        k1
    } else {
        k2
    };
    assert(first_difference(a, b, k1));
    assert(first_difference(b, c, k2));
    assert(first_difference(a, c, k));
}

/// Two byte strings that agree on their first `n` bytes are the same, or one
/// of them comes before the other.
pub proof fn lemma_bytes_lt_total(a: Seq<u8>, b: Seq<u8>, n: int)
    requires
        0 <= n <= a.len(),
        n <= b.len(),
        forall|j: int| 0 <= j < n ==> a[j] == b[j],
    ensures
        bytes_lt(a, b) || a == b || bytes_lt(b, a),
    decreases a.len() - n,
{
    if n == a.len() {
        if n == b.len() {
            assert(a =~= b);
        } else {
            assert(first_difference(a, b, n));
        }
    } else if n == b.len() {
        assert(first_difference(b, a, n));
    } else if a[n] < b[n] {
        assert(first_difference(a, b, n));
    } else if b[n] < a[n] {
        assert(first_difference(b, a, n));
    } else {
        lemma_bytes_lt_total(a, b, n + 1);
    }
}

impl MapKey for String {
    open spec fn key_lt(a: Seq<char>, b: Seq<char>) -> bool {
        bytes_lt(encode_utf8(a), encode_utf8(b))
    }

    proof fn lemma_key_lt_irreflexive(a: Seq<char>) {
        lemma_bytes_lt_irreflexive(encode_utf8(a));
    }

    proof fn lemma_key_lt_transitive(a: Seq<char>, b: Seq<char>, c: Seq<char>) {
        lemma_bytes_lt_transitive(encode_utf8(a), encode_utf8(b), encode_utf8(c));
    }

    proof fn lemma_key_lt_total(a: Seq<char>, b: Seq<char>) {
        lemma_bytes_lt_total(encode_utf8(a), encode_utf8(b), 0);
        encode_utf8_decode_utf8(a);
        encode_utf8_decode_utf8(b);
    }

    fn compare(&self, other: &Self) -> (res: KeyOrder) {
        let a = self.as_str().as_bytes();
        let b = other.as_str().as_bytes();
        let mut i: usize = 0;
        while i < a.len() && i < b.len()
            invariant
                i <= a.len(),
                i <= b.len(),
                a@ == encode_utf8(self@),
                b@ == encode_utf8(other@),
                forall|j: int| 0 <= j < i ==> a@[j] == b@[j],
            decreases a.len() - i,
        {
            if a[i] < b[i] {
                assert(first_difference(a@, b@, i as int));
                return KeyOrder::Less;
            }
            if a[i] > b[i] {
                assert(first_difference(b@, a@, i as int));
                return KeyOrder::Greater;
            }
            i += 1;
        }
        if i < b.len() {
            assert(first_difference(a@, b@, i as int));
            KeyOrder::Less
        } else if i < a.len() {
            assert(first_difference(b@, a@, i as int));
            KeyOrder::Greater
        } else {
            proof {
                assert(a@ =~= b@);
                encode_utf8_decode_utf8(self@);
                encode_utf8_decode_utf8(other@);
            }
            KeyOrder::Equal
        }
    }

    fn duplicate(&self) -> (res: Self) {
        self.clone()
    }
}

impl MapKey for u32 {
    open spec fn key_lt(a: u32, b: u32) -> bool {
        a < b
    }

    proof fn lemma_key_lt_irreflexive(a: u32) {
    }

    proof fn lemma_key_lt_transitive(a: u32, b: u32, c: u32) {
    }

    proof fn lemma_key_lt_total(a: u32, b: u32) {
    }

    fn compare(&self, other: &Self) -> (res: KeyOrder) {
        if *self < *other {
            KeyOrder::Less
        } else if *self == *other {
            KeyOrder::Equal
        } else {
            KeyOrder::Greater
        }
    }

    fn duplicate(&self) -> (res: Self) {
        *self
    }
}

/// The identifiers that a list of strings stands for.
pub open spec fn ids(names: Seq<String>) -> Seq<Seq<char>> {
    names.map_values(|name: String| name@)
}

/// Whether no identifier is in the list twice.
pub open spec fn distinct(list: Seq<Seq<char>>) -> bool {
    forall|i: int, j: int| 0 <= i < j < list.len() ==> #[trigger] list[i] != #[trigger] list[j]
}

/// Whether the keys of `entries` strictly increase.
pub open spec fn strictly_sorted<K: MapKey, V>(entries: Seq<(K::V, V)>) -> bool {
    forall|i: int, j: int|
        0 <= i < j < entries.len() ==> K::key_lt(#[trigger] entries[i].0, #[trigger] entries[j].0)
}

/// Whether some entry of `entries` has the key `key`.
pub open spec fn has_key<KV, V>(entries: Seq<(KV, V)>, key: KV) -> bool {
    exists|i: int| 0 <= i < entries.len() && #[trigger] entries[i].0 == key
}

/// The map that a list of entries stands for.
pub open spec fn entries_map<KV, V>(entries: Seq<(KV, V)>) -> Map<KV, V> {
    Map::new(
        |k: KV| has_key(entries, k),
        |k: KV| entries[choose|i: int| 0 <= i < entries.len() && #[trigger] entries[i].0 == k].1,
    )
}

/// In a sorted list no key occurs twice.
pub proof fn lemma_sorted_keys_distinct<K: MapKey, V>(entries: Seq<(K::V, V)>, i: int, j: int)
    requires
        strictly_sorted::<K, V>(entries),
        0 <= i < entries.len(),
        0 <= j < entries.len(),
        entries[i].0 == entries[j].0,
    ensures
        i == j,
{
    K::lemma_key_lt_irreflexive(entries[i].0);
    if i < j {
        assert(K::key_lt(entries[i].0, entries[j].0));
    } else if j < i {
        assert(K::key_lt(entries[j].0, entries[i].0));
    }
}

/// Each entry of a sorted list is what the map holds under its key.
pub proof fn lemma_entry_in_map<K: MapKey, V>(entries: Seq<(K::V, V)>, i: int)
    requires
        strictly_sorted::<K, V>(entries),
        0 <= i < entries.len(),
    ensures
        entries_map(entries).contains_key(entries[i].0),
        entries_map(entries)[entries[i].0] == entries[i].1,
{
    let k = entries[i].0;
    assert(has_key(entries, k));
    let c = choose|c: int| 0 <= c < entries.len() && #[trigger] entries[c].0 == k;
    lemma_sorted_keys_distinct::<K, V>(entries, i, c);
}

/// A key that falls strictly between two neighbours of a sorted list is absent.
pub proof fn lemma_gap_has_no_key<K: MapKey, V>(entries: Seq<(K::V, V)>, key: K::V, p: int)
    requires
        strictly_sorted::<K, V>(entries),
        0 <= p <= entries.len(),
        forall|j: int| 0 <= j < p ==> K::key_lt(#[trigger] entries[j].0, key),
        p < entries.len() ==> K::key_lt(key, entries[p].0),
    ensures
        !has_key(entries, key),
{
    K::lemma_key_lt_irreflexive(key);
    if has_key(entries, key) {
        let i = choose|i: int| 0 <= i < entries.len() && #[trigger] entries[i].0 == key;
        if i < p {
            assert(K::key_lt(entries[i].0, key));
        } else {
            if p < i {
                assert(K::key_lt(entries[p].0, entries[i].0));
                K::lemma_key_lt_transitive(key, entries[p].0, entries[i].0);
            }
        }
    }
}

/// A sorted list without its last entry stands for the map without the key of
/// that entry.
pub proof fn lemma_drop_last_entry<K: MapKey, V>(entries: Seq<(K::V, V)>)
    requires
        strictly_sorted::<K, V>(entries),
        entries.len() > 0,
    ensures
        strictly_sorted::<K, V>(entries.drop_last()),
        entries_map(entries.drop_last()) == entries_map(entries).remove(entries.last().0),
{
    let shorter = entries.drop_last();
    let last = entries.len() - 1;
    assert forall|k: K::V| has_key(shorter, k) == (has_key(entries, k) && k != entries[last].0) by {
        if has_key(shorter, k) {
            let i = choose|i: int| 0 <= i < shorter.len() && #[trigger] shorter[i].0 == k;
            assert(entries[i].0 == k);
            if k == entries[last].0 {
                lemma_sorted_keys_distinct::<K, V>(entries, i, last);
            }
        }
        if has_key(entries, k) && k != entries[last].0 {
            let i = choose|i: int| 0 <= i < entries.len() && #[trigger] entries[i].0 == k;
            assert(shorter[i].0 == k);
        }
    }
    assert forall|k: K::V| has_key(shorter, k) implies #[trigger] entries_map(shorter)[k]
        == entries_map(entries)[k] by {
        let i = choose|i: int| 0 <= i < shorter.len() && #[trigger] shorter[i].0 == k;
        lemma_entry_in_map::<K, V>(shorter, i);
        assert(entries[i] == shorter[i]);
        lemma_entry_in_map::<K, V>(entries, i);
    }
    assert(entries_map(shorter) =~= entries_map(entries).remove(entries[last].0));
}

/// A map has one sorted list of entries only.
pub proof fn lemma_sorted_unique<K: MapKey, V>(first: Seq<(K::V, V)>, second: Seq<(K::V, V)>)
    requires
        strictly_sorted::<K, V>(first),
        strictly_sorted::<K, V>(second),
        entries_map(first) == entries_map(second),
    ensures
        first == second,
    decreases first.len(),
{
    if first.len() == 0 {
        if second.len() > 0 {
            assert(has_key(second, second[0].0));
            assert(entries_map(second).contains_key(second[0].0));
            assert(has_key(first, second[0].0));
        }
        assert(first =~= second);
    } else {
        let a = first.len() - 1;
        assert(has_key(first, first[a].0));
        assert(entries_map(second).contains_key(first[a].0));
        assert(has_key(second, first[a].0));
        let b = second.len() - 1;
        let j = choose|j: int| 0 <= j < second.len() && #[trigger] second[j].0 == first[a].0;
        assert(has_key(second, second[b].0));
        assert(entries_map(first).contains_key(second[b].0));
        assert(has_key(first, second[b].0));
        let i = choose|i: int| 0 <= i < first.len() && #[trigger] first[i].0 == second[b].0;
        if j < b {
            assert(K::key_lt(second[j].0, second[b].0));
            K::lemma_key_lt_irreflexive(first[a].0);
            if i < a {
                assert(K::key_lt(first[i].0, first[a].0));
                K::lemma_key_lt_transitive(first[a].0, first[i].0, first[a].0);
            }
        }
        lemma_entry_in_map::<K, V>(first, a);
        lemma_entry_in_map::<K, V>(second, b);
        assert(first[a] == second[b]);
        lemma_drop_last_entry::<K, V>(first);
        lemma_drop_last_entry::<K, V>(second);
        lemma_sorted_unique::<K, V>(first.drop_last(), second.drop_last());
        assert(first =~= first.drop_last().push(first[a]));
        assert(second =~= second.drop_last().push(second[b]));
    }
}

/// The entries of a map in key order.
pub open spec fn sorted_entries<K: MapKey, V>(map: Map<K::V, V>) -> Seq<(K::V, V)> {
    choose|entries: Seq<(K::V, V)>|
        strictly_sorted::<K, V>(entries) && entries_map(entries) == map
}

/// `map` with each of `entries` put into it in turn, a later one replacing an
/// earlier one of the same key.
pub open spec fn with_all<KV, V>(map: Map<KV, V>, entries: Seq<(KV, V)>) -> Map<KV, V>
    decreases entries.len(),
{
    if entries.len() == 0 {
        map
    } else {
        with_all(map.insert(entries[0].0, entries[0].1), entries.drop_first())
    }
}

/// The keys of the first `n` entries.
pub open spec fn keys_before<KV, V>(entries: Seq<(KV, V)>, n: int) -> Set<KV> {
    Set::new(|k: KV| exists|j: int| 0 <= j < n && j < entries.len() && #[trigger] entries[j].0 == k)
}

/// Taking one more entry adds its key, which was not there before.
pub proof fn lemma_keys_before_step<K: MapKey, V>(entries: Seq<(K::V, V)>, n: int)
    requires
        strictly_sorted::<K, V>(entries),
        0 <= n < entries.len(),
    ensures
        keys_before(entries, n + 1) == keys_before(entries, n).insert(entries[n].0),
        !keys_before(entries, n).contains(entries[n].0),
{
    let k = entries[n].0;
    if keys_before(entries, n).contains(k) {
        let j = choose|j: int| 0 <= j < n && j < entries.len() && #[trigger] entries[j].0 == k;
        lemma_sorted_keys_distinct::<K, V>(entries, j, n);
    }
    assert forall|q: K::V|
        keys_before(entries, n + 1).contains(q) == keys_before(entries, n).insert(k).contains(
            q,
        ) by {
        if keys_before(entries, n + 1).contains(q) {
            let j = choose|j: int|
                0 <= j < n + 1 && j < entries.len() && #[trigger] entries[j].0 == q;
            if j < n {
                assert(keys_before(entries, n).contains(q));
            }
        }
        if keys_before(entries, n).contains(q) {
            let j = choose|j: int| 0 <= j < n && j < entries.len() && #[trigger] entries[j].0 == q;
            assert(0 <= j < n + 1 && entries[j].0 == q);
        }
        if q == k {
            assert(0 <= n < n + 1 && entries[n].0 == q);
        }
    }
    assert(keys_before(entries, n + 1) =~= keys_before(entries, n).insert(k));
}

/// The first `n` entries of a sorted list have `n` different keys.
pub proof fn lemma_keys_before_len<K: MapKey, V>(entries: Seq<(K::V, V)>, n: int)
    requires
        strictly_sorted::<K, V>(entries),
        0 <= n <= entries.len(),
    ensures
        keys_before(entries, n).finite(),
        keys_before(entries, n).len() == n,
    decreases n,
{
    if n == 0 {
        assert(keys_before(entries, 0) =~= Set::<K::V>::empty());
    } else {
        lemma_keys_before_len::<K, V>(entries, n - 1);
        lemma_keys_before_step::<K, V>(entries, n - 1);
    }
}

/// The keys of all entries are the domain of the map.
pub proof fn lemma_keys_before_all<KV, V>(entries: Seq<(KV, V)>)
    ensures
        keys_before(entries, entries.len() as int) == entries_map(entries).dom(),
{
    assert(keys_before(entries, entries.len() as int) =~= entries_map(entries).dom());
}

/// A map from keys to values whose entries are held in key order.
#[derive(Clone, Debug, PartialEq, Eq)]
pub struct OrderedMap<K: MapKey, V> {
    items: Vec<(K, V)>,
}

impl<K: MapKey, V> View for OrderedMap<K, V> {
    type V = Map<K::V, V>;

    open spec fn view(&self) -> Map<K::V, V> {
        entries_map(self.entries())
    }
}

impl<K: MapKey, V: Copy> OrderedMap<K, V> {
    /// A second map with the same entries.
    pub fn duplicate(&self) -> (res: Self)
        ensures
            res.entries() == self.entries(),
            res@ == self@,
            res.wf() == self.wf(),
    {
        let mut items: Vec<(K, V)> = Vec::new();
        let mut i: usize = 0;
        while i < self.items.len()
            invariant
                i <= self.items.len(),
                items@.len() == i,
                forall|j: int|
                    0 <= j < i ==> (#[trigger] items@[j]).0@ == self.items@[j].0@ && items@[j].1
                        == self.items@[j].1,
            decreases self.items.len() - i,
        {
            items.push((self.items[i].0.duplicate(), self.items[i].1));
            i += 1;
        }
        let res = OrderedMap { items };
        assert(res.entries() =~= self.entries());
        res
    }
}

impl<K: MapKey, V> OrderedMap<K, V> {
    /// The entries in the order in which they are walked.
    pub closed spec fn entries(&self) -> Seq<(K::V, V)> {
        Seq::new(self.items@.len(), |i: int| (self.items@[i].0@, self.items@[i].1))
    }

    /// The keys strictly increase.
    pub open spec fn wf(&self) -> bool {
        strictly_sorted::<K, V>(self.entries())
    }

    /// The value under `key`, if there is one.
    pub open spec fn spec_get(&self, key: K::V) -> Option<V> {
        if self@.contains_key(key) {
            Some(self@[key])
        } else {
            None
        }
    }

    /// Every entry is in the view and every key of the view has an entry.
    pub proof fn lemma_entries_view(&self)
        requires
            self.wf(),
        ensures
            forall|i: int|
                0 <= i < self.entries().len() ==> self@.contains_key(
                    (#[trigger] self.entries()[i]).0,
                ) && self@[self.entries()[i].0] == self.entries()[i].1,
            forall|k: K::V| #[trigger]
                self@.contains_key(k) ==> exists|i: int|
                    0 <= i < self.entries().len() && #[trigger] self.entries()[i].0 == k,
    {
        let entries = self.entries();
        assert forall|i: int| 0 <= i < entries.len() implies self@.contains_key(
            (#[trigger] entries[i]).0,
        ) && self@[entries[i].0] == entries[i].1 by {
            lemma_entry_in_map::<K, V>(entries, i);
        }
    }

    /// The entries of a well-formed map are those of its view in key order.
    pub proof fn lemma_entries_sorted(&self)
        requires
            self.wf(),
        ensures
            self.entries() == sorted_entries::<K, V>(self@),
    {
        let entries = sorted_entries::<K, V>(self@);
        assert(strictly_sorted::<K, V>(self.entries()) && entries_map(self.entries()) == self@);
        lemma_sorted_unique::<K, V>(self.entries(), entries);
    }

    /// Two well-formed maps with the same view have the same entries.
    pub proof fn lemma_same_view(&self, other: &Self)
        requires
            self.wf(),
            other.wf(),
            self@ == other@,
        ensures
            self.entries() == other.entries(),
    {
        lemma_sorted_unique::<K, V>(self.entries(), other.entries());
    }

    /// A property holds of the value of every entry exactly if it holds of
    /// every value of the view.
    pub proof fn lemma_all_values(&self, property: spec_fn(V) -> bool)
        requires
            self.wf(),
        ensures
            (forall|i: int|
                0 <= i < self.entries().len() ==> property((#[trigger] self.entries()[i]).1)) <==> (
            forall|k: K::V| #[trigger] self@.contains_key(k) ==> property(self@[k])),
    {
        self.lemma_entries_view();
        if forall|i: int|
            0 <= i < self.entries().len() ==> property((#[trigger] self.entries()[i]).1) {
            assert forall|k: K::V| #[trigger] self@.contains_key(k) implies property(self@[k]) by {
                let i = choose|i: int|
                    0 <= i < self.entries().len() && #[trigger] self.entries()[i].0 == k;
                assert(property(self.entries()[i].1));
            }
        }
        if forall|k: K::V| #[trigger] self@.contains_key(k) ==> property(self@[k]) {
            assert forall|i: int| 0 <= i < self.entries().len() implies property(
                (#[trigger] self.entries()[i]).1,
            ) by {
                assert(self@.contains_key(self.entries()[i].0));
            }
        }
    }

    /// The view has as many keys as there are entries.
    pub proof fn lemma_len(&self)
        requires
            self.wf(),
        ensures
            self@.dom().finite(),
            self@.dom().len() == self.entries().len(),
    {
        lemma_keys_before_len::<K, V>(self.entries(), self.entries().len() as int);
        lemma_keys_before_all(self.entries());
    }

    /// A map without entries.
    pub fn new() -> (res: Self)
        ensures
            res.wf(),
            res.entries() == Seq::<(K::V, V)>::empty(),
            res@ == Map::<K::V, V>::empty(),
    {
        let res = OrderedMap { items: Vec::new() };
        assert(res.entries() =~= Seq::<(K::V, V)>::empty());
        assert(res@ =~= Map::<K::V, V>::empty());
        res
    }

    /// Number of entries.
    pub fn len(&self) -> (res: usize)
        ensures
            res == self.entries().len(),
    {
        self.items.len()
    }

    /// Whether the map has no entry.
    pub fn is_empty(&self) -> (res: bool)
        ensures
            res == (self.entries().len() == 0),
            res == (self@ == Map::<K::V, V>::empty()),
    {
        proof {
            if self.entries().len() == 0 {
                assert(self@ =~= Map::<K::V, V>::empty());
            } else {
                assert(has_key(self.entries(), self.entries()[0].0));
                assert(self@.contains_key(self.entries()[0].0));
            }
        }
        self.items.len() == 0
    }

    /// The keys in the order in which they are walked.
    pub fn keys(&self) -> (res: Vec<K>)
        ensures
            res@.len() == self.entries().len(),
            forall|i: int| 0 <= i < res@.len() ==> (#[trigger] res@[i])@ == self.entries()[i].0,
    {
        let mut keys: Vec<K> = Vec::new();
        let mut i: usize = 0;
        while i < self.items.len()
            invariant
                i <= self.items.len(),
                keys@.len() == i,
                forall|j: int| 0 <= j < i ==> (#[trigger] keys@[j])@ == self.entries()[j].0,
            decreases self.items.len() - i,
        {
            keys.push(self.items[i].0.duplicate());
            i += 1;
        }
        keys
    }

    /// The key of the entry at position `i` of the walk.
    pub fn key_at(&self, i: usize) -> (res: &K)
        requires
            i < self.entries().len(),
        ensures
            res@ == self.entries()[i as int].0,
    {
        &self.items[i].0
    }

    /// The value of the entry at position `i` of the walk.
    pub fn value_at(&self, i: usize) -> (res: &V)
        requires
            i < self.entries().len(),
        ensures
            *res == self.entries()[i as int].1,
    {
        &self.items[i].1
    }

    /// Position of `key`, or of the first entry behind it.
    fn locate(&self, key: &K) -> (res: (usize, bool))
        requires
            self.wf(),
        ensures
            res.0 <= self.entries().len(),
            forall|j: int| 0 <= j < res.0 ==> K::key_lt(#[trigger] self.entries()[j].0, key@),
            res.1 ==> res.0 < self.entries().len() && self.entries()[res.0 as int].0 == key@,
            !res.1 && res.0 < self.entries().len() ==> K::key_lt(
                key@,
                self.entries()[res.0 as int].0,
            ),
            res.1 == has_key(self.entries(), key@),
            res.1 ==> self@.contains_key(key@) && self@[key@] == self.entries()[res.0 as int].1,
    {
        let mut i: usize = 0;
        while i < self.items.len()
            invariant
                i <= self.items.len(),
                self.wf(),
                forall|j: int| 0 <= j < i ==> K::key_lt(#[trigger] self.entries()[j].0, key@),
            decreases self.items.len() - i,
        {
            match self.items[i].0.compare(key) {
                KeyOrder::Less => {
                    i += 1;
                },
                KeyOrder::Equal => {
                    proof {
                        lemma_entry_in_map::<K, V>(self.entries(), i as int);
                    }
                    return (i, true);
                },
                KeyOrder::Greater => {
                    proof {
                        lemma_gap_has_no_key::<K, V>(self.entries(), key@, i as int);
                    }
                    return (i, false);
                },
            }
        }
        proof {
            lemma_gap_has_no_key::<K, V>(self.entries(), key@, i as int);
        }
        (i, false)
    }

    /// Whether the keys strictly increase from each entry to the next.
    pub fn is_well_formed(&self) -> (res: bool)
        ensures
            res == self.wf(),
    {
        let ghost entries = self.entries();
        let mut i: usize = 1;
        while i < self.items.len()
            invariant
                1 <= i,
                entries == self.entries(),
                forall|a: int, b: int|
                    0 <= a < b < i && b < entries.len() ==> K::key_lt(
                        #[trigger] entries[a].0,
                        #[trigger] entries[b].0,
                    ),
            decreases self.items.len() - i,
        {
            match self.items[i - 1].0.compare(&self.items[i].0) {
                KeyOrder::Less => {
                    proof {
                        assert forall|a: int, b: int|
                            0 <= a < b < i + 1 && b < entries.len() implies K::key_lt(
                            #[trigger] entries[a].0,
                            #[trigger] entries[b].0,
                        ) by {
                            if b == i && a < i - 1 {
                                K::lemma_key_lt_transitive(
                                    entries[a].0,
                                    entries[i - 1].0,
                                    entries[i as int].0,
                                );
                            }
                        }
                    }
                },
                KeyOrder::Equal => {
                    proof {
                        K::lemma_key_lt_irreflexive(entries[i - 1].0);
                        assert(!K::key_lt(entries[i - 1].0, entries[i as int].0));
                    }
                    return false;
                },
                KeyOrder::Greater => {
                    proof {
                        K::lemma_key_lt_irreflexive(entries[i - 1].0);
                        if K::key_lt(entries[i - 1].0, entries[i as int].0) {
                            K::lemma_key_lt_transitive(
                                entries[i - 1].0,
                                entries[i as int].0,
                                entries[i - 1].0,
                            );
                        }
                        assert(!K::key_lt(entries[i - 1].0, entries[i as int].0));
                    }
                    return false;
                },
            }
            i += 1;
        }
        true
    }

    /// Position in the walk of a key that the map holds.
    pub fn position(&self, key: &K) -> (res: usize)
        requires
            self.wf(),
            self@.contains_key(key@),
        ensures
            res < self.entries().len(),
            self.entries()[res as int].0 == key@,
    {
        self.locate(key).0
    }

    /// Whether the map has an entry under `key`.
    pub fn contains_key(&self, key: &K) -> (res: bool)
        requires
            self.wf(),
        ensures
            res == self@.contains_key(key@),
    {
        self.locate(key).1
    }

    /// The value under `key`, if there is one.
    pub fn get(&self, key: &K) -> (res: Option<&V>)
        requires
            self.wf(),
        ensures
            res.is_some() == self@.contains_key(key@),
            res matches Some(v) ==> *v == self@[key@],
    {
        let (p, found) = self.locate(key);
        if found {
            Some(&self.items[p].1)
        } else {
            None
        }
    }

    /// Puts `value` under `key`, replacing what was there.
    pub fn set(&mut self, key: K, value: V)
        requires
            old(self).wf(),
        ensures
            final(self).wf(),
            final(self)@ == old(self)@.insert(key@, value),
            final(self).entries().len() == old(self).entries().len() + (if old(
                self,
            )@.contains_key(key@) {
                0int
            } else {
                1int
            }),
            (forall|i: int|
                0 <= i < old(self).entries().len() ==> K::key_lt(
                    (#[trigger] old(self).entries()[i]).0,
                    key@,
                )) ==> final(self).entries() == old(self).entries().push((key@, value)),
    {
        let (p, found) = self.locate(&key);
        let ghost before = self.entries();
        let ghost k = key@;
        proof {
            if p < before.len() && K::key_lt(before[p as int].0, k) {
                K::lemma_key_lt_irreflexive(k);
                if !found {
                    K::lemma_key_lt_transitive(k, before[p as int].0, k);
                }
            }
        }
        if found {
            self.items.set(p, (key, value));
            proof {
                let after = self.entries();
                assert(after =~= before.update(p as int, (k, value)));
                assert(strictly_sorted::<K, V>(after)) by {
                    assert forall|i: int, j: int| 0 <= i < j < after.len() implies K::key_lt(
                        #[trigger] after[i].0,
                        #[trigger] after[j].0,
                    ) by {
                        assert(after[i].0 == before[i].0);
                        assert(after[j].0 == before[j].0);
                    }
                }
                assert forall|q: K::V| #[trigger]
                    has_key(after, q) == (q == k || has_key(before, q)) by {
                    if has_key(after, q) {
                        let i = choose|i: int| 0 <= i < after.len() && #[trigger] after[i].0 == q;
                        assert(before[i].0 == q);
                    }
                    if has_key(before, q) {
                        let i = choose|i: int|
                            0 <= i < before.len() && #[trigger] before[i].0 == q;
                        assert(after[i].0 == q);
                    }
                    if q == k {
                        assert(after[p as int].0 == q);
                    }
                }
                assert forall|q: K::V| has_key(after, q) implies #[trigger] entries_map(after)[q]
                    == old(self)@.insert(k, value)[q] by {
                    let i = choose|i: int| 0 <= i < after.len() && #[trigger] after[i].0 == q;
                    lemma_entry_in_map::<K, V>(after, i);
                    if q == k {
                        lemma_sorted_keys_distinct::<K, V>(after, i, p as int);
                    } else {
                        assert(after[i] == before[i]);
                        lemma_entry_in_map::<K, V>(before, i);
                    }
                }
                assert(self@ =~= old(self)@.insert(k, value));
            }
        } else {
            self.items.insert(p, (key, value));
            proof {
                let after = self.entries();
                assert(after =~= before.insert(p as int, (k, value)));
                assert(strictly_sorted::<K, V>(after)) by {
                    assert forall|i: int, j: int| 0 <= i < j < after.len() implies K::key_lt(
                        #[trigger] after[i].0,
                        #[trigger] after[j].0,
                    ) by {
                        if j < p {
                            assert(after[i].0 == before[i].0);
                            assert(after[j].0 == before[j].0);
                        } else if j == p {
                            assert(after[i].0 == before[i].0);
                        } else if i < p {
                            assert(after[i].0 == before[i].0);
                            assert(after[j].0 == before[j - 1].0);
                        } else if i == p {
                            assert(after[j].0 == before[j - 1].0);
                            if p < j - 1 {
                                assert(K::key_lt(before[p as int].0, before[j - 1].0));
                                K::lemma_key_lt_transitive(k, before[p as int].0, before[j - 1].0);
                            }
                        } else {
                            assert(after[i].0 == before[i - 1].0);
                            assert(after[j].0 == before[j - 1].0);
                        }
                    }
                }
                assert forall|q: K::V| #[trigger]
                    has_key(after, q) == (q == k || has_key(before, q)) by {
                    if has_key(after, q) && q != k {
                        let i = choose|i: int| 0 <= i < after.len() && #[trigger] after[i].0 == q;
                        if i < p {
                            assert(before[i].0 == q);
                        } else {
                            assert(before[i - 1].0 == q);
                        }
                    }
                    if has_key(before, q) {
                        let i = choose|i: int|
                            0 <= i < before.len() && #[trigger] before[i].0 == q;
                        if i < p {
                            assert(after[i].0 == q);
                        } else {
                            assert(after[i + 1].0 == q);
                        }
                    }
                    if q == k {
                        assert(after[p as int].0 == q);
                    }
                }
                assert forall|q: K::V| has_key(after, q) implies #[trigger] entries_map(after)[q]
                    == old(self)@.insert(k, value)[q] by {
                    let i = choose|i: int| 0 <= i < after.len() && #[trigger] after[i].0 == q;
                    lemma_entry_in_map::<K, V>(after, i);
                    if q == k {
                        assert(after[p as int].0 == k);
                        lemma_sorted_keys_distinct::<K, V>(after, i, p as int);
                    } else {
                        if i < p {
                            assert(after[i] == before[i]);
                            lemma_entry_in_map::<K, V>(before, i);
                        } else {
                            assert(after[p as int].0 == k);
                            assert(after[i] == before[i - 1]);
                            lemma_entry_in_map::<K, V>(before, i - 1);
                        }
                    }
                }
                assert(self@ =~= old(self)@.insert(k, value));
            }
        }
    }

    /// Takes out the entry under `key` and hands back its value.
    pub fn remove(&mut self, key: &K) -> (res: Option<V>)
        requires
            old(self).wf(),
        ensures
            final(self).wf(),
            final(self)@ == old(self)@.remove(key@),
            res == old(self).spec_get(key@),
            !old(self)@.contains_key(key@) ==> *final(self) == *old(self),
            final(self).entries().len() == old(self).entries().len() - (if old(
                self,
            )@.contains_key(key@) {
                1int
            } else {
                0int
            }),
    {
        let (p, found) = self.locate(key);
        let ghost before = self.entries();
        let ghost k = key@;
        if !found {
            assert(self@ =~= old(self)@.remove(k));
            return None;
        }
        let removed = self.items.remove(p);
        proof {
            let after = self.entries();
            assert(after =~= before.remove(p as int));
            assert(strictly_sorted::<K, V>(after)) by {
                assert forall|i: int, j: int| 0 <= i < j < after.len() implies K::key_lt(
                    #[trigger] after[i].0,
                    #[trigger] after[j].0,
                ) by {
                    let bi = if i < p { i } else { i + 1 };
                    let bj = if j < p { j } else { j + 1 };
                    assert(after[i].0 == before[bi].0);
                    assert(after[j].0 == before[bj].0);
                }
            }
            assert forall|q: K::V| #[trigger]
                has_key(after, q) == (q != k && has_key(before, q)) by {
                if has_key(after, q) {
                    let i = choose|i: int| 0 <= i < after.len() && #[trigger] after[i].0 == q;
                    let bi = if i < p { i } else { i + 1 };
                    assert(before[bi].0 == q);
                    if q == k {
                        lemma_sorted_keys_distinct::<K, V>(before, bi, p as int);
                    }
                }
                if has_key(before, q) && q != k {
                    let i = choose|i: int| 0 <= i < before.len() && #[trigger] before[i].0 == q;
                    if i < p {
                        assert(after[i].0 == q);
                    } else {
                        assert(after[i - 1].0 == q);
                    }
                }
            }
            assert forall|q: K::V| has_key(after, q) implies #[trigger] entries_map(after)[q]
                == old(self)@.remove(k)[q] by {
                let i = choose|i: int| 0 <= i < after.len() && #[trigger] after[i].0 == q;
                lemma_entry_in_map::<K, V>(after, i);
                let bi = if i < p { i } else { i + 1 };
                assert(before[bi].0 == q);
                lemma_entry_in_map::<K, V>(before, bi);
            }
            assert(self@ =~= old(self)@.remove(k));
        }
        Some(removed.1)
    }
}

} // verus!
