use vstd::prelude::*;
use crate::text::{compare_text, lemma_lex_irreflexive, lemma_lex_total, lemma_lex_transitive, lex_lt, TextOrder};

verus! {

/// A key-value list whose keys strictly increase.
pub open spec fn sorted_keys<V>(s: Seq<(Seq<char>, V)>) -> bool {
    forall|i: int, j: int| 0 <= i < j < s.len() ==> lex_lt(s[i].0, s[j].0)
}

/// The map that a key-value list stands for.
pub open spec fn list_map<V>(s: Seq<(Seq<char>, V)>) -> Map<Seq<char>, V>
    decreases s.len(),
{
    if s.len() == 0 {
        Map::empty()
    } else {
        list_map(s.drop_first()).insert(s[0].0, s[0].1)
    }
}

/// The sorted list with `(k, v)` put in its place: the entry for `k` replaced,
/// or a new entry inserted before the first greater key.
pub open spec fn list_insert<V>(s: Seq<(Seq<char>, V)>, k: Seq<char>, v: V) -> Seq<(Seq<char>, V)>
    decreases s.len(),
{
    if s.len() == 0 {
        seq![(k, v)]
    } else if s[0].0 == k {
        s.update(0, (k, v))
    } else if lex_lt(k, s[0].0) {
        seq![(k, v)] + s
    } else {
        seq![s[0]] + list_insert(s.drop_first(), k, v)
    }
}

/// In a sorted list every key is found once, with its value, and nothing else is found.
pub proof fn lemma_list_map<V>(s: Seq<(Seq<char>, V)>)
    requires
        sorted_keys(s),
    ensures
        forall|i: int| #![trigger s[i]] 0 <= i < s.len() ==> list_map(s).contains_key(s[i].0) && list_map(s)[s[i].0] == s[i].1,
        forall|k: Seq<char>| #[trigger] list_map(s).contains_key(k) ==> exists|i: int| 0 <= i < s.len() && s[i].0 == k,
        forall|i: int, j: int| 0 <= i < s.len() && 0 <= j < s.len() && i != j ==> #[trigger] s[i].0 != #[trigger] s[j].0,
    decreases s.len(),
{
    assert forall|i: int, j: int| 0 <= i < s.len() && 0 <= j < s.len() && i != j implies #[trigger] s[i].0 != #[trigger] s[j].0 by {
        if i < j {
            lemma_lex_irreflexive(s[i].0);
        } else {
            lemma_lex_irreflexive(s[j].0);
        }
    }
    if s.len() > 0 {
        let t = s.drop_first();
        assert(sorted_keys(t)) by {
            assert forall|i: int, j: int| 0 <= i < j < t.len() implies lex_lt(t[i].0, t[j].0) by {
                assert(t[i] == s[i + 1] && t[j] == s[j + 1]);
            }
        }
        lemma_list_map(t);
        assert forall|i: int| #![trigger s[i]] 0 <= i < s.len() implies list_map(s).contains_key(s[i].0) && list_map(s)[s[i].0] == s[i].1 by {
            if i > 0 {
                assert(t[i - 1] == s[i]);
                assert(lex_lt(s[0].0, s[i].0));
                lemma_lex_irreflexive(s[0].0);
            }
        }
        assert forall|k: Seq<char>| #[trigger] list_map(s).contains_key(k) implies exists|i: int| 0 <= i < s.len() && s[i].0 == k by {
            if k != s[0].0 {
                assert(list_map(s) == list_map(t).insert(s[0].0, s[0].1));
                assert(list_map(t).contains_key(k));
                let j = choose|j: int| 0 <= j < t.len() && t[j].0 == k;
                assert(s[j + 1] == t[j]);
            }
        }
    }
}

/// A name found in the map of a list is the name of one of its entries.
pub proof fn lemma_list_map_has<V>(s: Seq<(Seq<char>, V)>, k: Seq<char>)
    requires
        list_map(s).contains_key(k),
    ensures
        exists|i: int| 0 <= i < s.len() && s[i].0 == k,
    decreases s.len(),
{
    if s.len() > 0 && s[0].0 != k {
        lemma_list_map_has(s.drop_first(), k);
        let i = choose|i: int| 0 <= i < s.drop_first().len() && s.drop_first()[i].0 == k;
        assert(s[i + 1] == s.drop_first()[i]);
    }
}

/// Putting `(k, v)` in its place keeps the list sorted and updates the map at `k`.
pub proof fn lemma_list_insert<V>(s: Seq<(Seq<char>, V)>, k: Seq<char>, v: V)
    requires
        sorted_keys(s),
    ensures
        sorted_keys(list_insert(s, k, v)),
        list_map(list_insert(s, k, v)) == list_map(s).insert(k, v),
        forall|i: int| #![trigger list_insert(s, k, v)[i]] 0 <= i < list_insert(s, k, v).len() ==>
            list_insert(s, k, v)[i].0 == k || exists|j: int| 0 <= j < s.len() && s[j].0 == list_insert(s, k, v)[i].0,
    decreases s.len(),
{
    let r = list_insert(s, k, v);
    if s.len() == 0 {
        assert(r.drop_first() =~= Seq::<(Seq<char>, V)>::empty());
        assert(list_map(r.drop_first()) == Map::<Seq<char>, V>::empty());
        assert(list_map(r) =~= Map::<Seq<char>, V>::empty().insert(k, v));
    } else if s[0].0 == k {
        assert(r.drop_first() =~= s.drop_first());
        assert(list_map(r) =~= list_map(s).insert(k, v));
        assert forall|i: int, j: int| 0 <= i < j < r.len() implies lex_lt(r[i].0, r[j].0) by {
            assert(r[i].0 == s[i].0 && r[j].0 == s[j].0);
        }
    } else if lex_lt(k, s[0].0) {
        assert(r.drop_first() =~= s);
        assert forall|i: int, j: int| 0 <= i < j < r.len() implies lex_lt(r[i].0, r[j].0) by {
            assert(r[j] == s[j - 1]);
            if i == 0 {
                if j > 1 {
                    assert(lex_lt(s[0].0, s[j - 1].0));
                    lemma_lex_transitive(k, s[0].0, s[j - 1].0);
                }
            } else {
                assert(r[i] == s[i - 1]);
            }
        }
        assert forall|i: int| #![trigger r[i]] 0 <= i < r.len() implies r[i].0 == k || exists|j: int| 0 <= j < s.len() && s[j].0 == r[i].0 by {
            if i > 0 {
                assert(r[i] == s[i - 1]);
            }
        }
    } else {
        let t = s.drop_first();
        assert(sorted_keys(t)) by {
            assert forall|i: int, j: int| 0 <= i < j < t.len() implies lex_lt(t[i].0, t[j].0) by {
                assert(t[i] == s[i + 1] && t[j] == s[j + 1]);
            }
        }
        lemma_list_insert(t, k, v);
        lemma_lex_total(k, s[0].0);
        let rt = list_insert(t, k, v);
        assert(r == seq![s[0]] + rt);
        assert(r.drop_first() =~= rt);
        assert(list_map(r) =~= list_map(s).insert(k, v));
        assert forall|i: int| #![trigger r[i]] 0 <= i < r.len() implies r[i].0 == k || exists|j: int| 0 <= j < s.len() && s[j].0 == r[i].0 by {
            if i > 0 {
                assert(r[i] == rt[i - 1]);
                if rt[i - 1].0 != k {
                    let j = choose|j: int| 0 <= j < t.len() && t[j].0 == rt[i - 1].0;
                    assert(s[j + 1] == t[j]);
                }
            }
        }
        assert forall|i: int, j: int| 0 <= i < j < r.len() implies lex_lt(r[i].0, r[j].0) by {
            assert(r[j] == rt[j - 1]);
            if i == 0 {
                assert(rt[j - 1] == rt[j - 1]);
                if rt[j - 1].0 != k {
                    let m = choose|m: int| 0 <= m < t.len() && t[m].0 == rt[j - 1].0;
                    assert(s[m + 1] == t[m]);
                }
            } else {
                assert(r[i] == rt[i - 1]);
            }
        }
    }
}

/// Where a search for the place of `k` ends, `list_insert` replaces or inserts.
proof fn lemma_insert_at<V>(s: Seq<(Seq<char>, V)>, k: Seq<char>, v: V, i: int)
    requires
        sorted_keys(s),
        0 <= i <= s.len(),
        forall|j: int| 0 <= j < i ==> lex_lt(#[trigger] s[j].0, k),
        i < s.len() ==> !lex_lt(s[i].0, k),
    ensures
        list_insert(s, k, v) == if i < s.len() && s[i].0 == k {
            s.update(i, (k, v))
        } else {
            s.insert(i, (k, v))
        },
    decreases i,
{
    if i == 0 {
        if s.len() > 0 && s[0].0 != k {
            lemma_lex_total(k, s[0].0);
            assert(seq![(k, v)] + s =~= s.insert(0, (k, v)));
        } else if s.len() == 0 {
            assert(seq![(k, v)] =~= s.insert(0, (k, v)));
        }
    } else {
        let t = s.drop_first();
        assert(lex_lt(s[0].0, k));
        lemma_lex_total(k, s[0].0);
        lemma_lex_irreflexive(k);
        assert(s[0].0 != k);
        assert(sorted_keys(t)) by {
            assert forall|a: int, b: int| 0 <= a < b < t.len() implies lex_lt(t[a].0, t[b].0) by {
                assert(t[a] == s[a + 1] && t[b] == s[b + 1]);
            }
        }
        assert forall|j: int| 0 <= j < i - 1 implies lex_lt(#[trigger] t[j].0, k) by {
            assert(t[j] == s[j + 1]);
        }
        lemma_insert_at(t, k, v, i - 1);
        if i < s.len() && s[i].0 == k {
            assert(seq![s[0]] + t.update(i - 1, (k, v)) =~= s.update(i, (k, v)));
        } else {
            assert(seq![s[0]] + t.insert(i - 1, (k, v)) =~= s.insert(i, (k, v)));
        }
    }
}

/// A map from names to values that keeps its entries sorted by name, as an
/// ordered map does.
pub struct NameMap<V> {
    entries: Vec<(String, V)>,
}

impl<V> View for NameMap<V> {
    type V = Map<Seq<char>, V>;

    open spec fn view(&self) -> Map<Seq<char>, V> {
        list_map(self.list())
    }
}

impl<V> NameMap<V> {
    /// The entries, in order of their names.
    pub closed spec fn list(&self) -> Seq<(Seq<char>, V)> {
        self.entries@.map_values(|e: (String, V)| (e.0@, e.1))
    }

    /// The entries are sorted by name, so each name is found at most once.
    #[verifier::type_invariant]
    pub open spec fn inv(&self) -> bool {
        sorted_keys(self.list())
    }

    /// An empty map.
    pub fn new() -> (m: Self)
        ensures
            m.list() == Seq::<(Seq<char>, V)>::empty(),
            m@ == Map::<Seq<char>, V>::empty(),
    {
        let m = NameMap { entries: Vec::new() };
        assert(m.list() =~= Seq::<(Seq<char>, V)>::empty());
        m
    }

    /// Number of entries.
    pub fn len(&self) -> (n: usize)
        ensures
            n == self.list().len(),
    {
        self.entries.len()
    }

    /// The name of the `i`-th entry.
    pub fn key_at(&self, i: usize) -> (k: &String)
        requires
            i < self.list().len(),
        ensures
            k@ == self.list()[i as int].0,
    {
        &self.entries[i].0
    }

    /// The value of the `i`-th entry.
    pub fn value_at(&self, i: usize) -> (v: &V)
        requires
            i < self.list().len(),
        ensures
            *v == self.list()[i as int].1,
    {
        &self.entries[i].1
    }

    /// Position of the entry named `key`.
    pub fn index_of(&self, key: &str) -> (r: Option<usize>)
        ensures
            match r {
                Some(i) => i < self.list().len() && self.list()[i as int].0 == key@,
                None => !self@.contains_key(key@),
            },
    {
        proof {
            use_type_invariant(self);
            lemma_list_map(self.list());
        }
        let n = self.entries.len();
        let mut i: usize = 0;
        while i < n
            invariant
                n == self.list().len(),
                i <= n,
                forall|j: int| 0 <= j < i ==> self.list()[j].0 != key@,
            decreases n - i,
        {
            if compare_text(self.entries[i].0.as_str(), key) == TextOrder::Equal {
                return Some(i);
            }
            i = i + 1;
        }
        None
    }

    /// Whether an entry is named `key`.
    pub fn contains_key(&self, key: &str) -> (r: bool)
        ensures
            r == self@.contains_key(key@),
    {
        proof {
            use_type_invariant(self);
            lemma_list_map(self.list());
        }
        self.index_of(key).is_some()
    }

    /// The value named `key`.
    pub fn get(&self, key: &str) -> (r: Option<&V>)
        ensures
            match r {
                Some(v) => self@.contains_key(key@) && self@[key@] == *v,
                None => !self@.contains_key(key@),
            },
    {
        proof {
            use_type_invariant(self);
            lemma_list_map(self.list());
        }
        match self.index_of(key) {
            Some(i) => Some(&self.entries[i].1),
            None => None,
        }
    }

    /// Puts `value` under `key`, replacing the value that was there.
    pub fn insert(&mut self, key: String, value: V)
        ensures
            final(self).list() == list_insert(old(self).list(), key@, value),
            final(self)@ == old(self)@.insert(key@, value),
    {
        proof {
            use_type_invariant(&*self);
            lemma_list_insert(self.list(), key@, value);
        }
        let ghost s = self.list();
        let mut entries: Vec<(String, V)> = Vec::new();
        std::mem::swap(&mut entries, &mut self.entries);
        assert(entries@.map_values(|e: (String, V)| (e.0@, e.1)) == s);
        let n = entries.len();
        let mut i: usize = 0;
        let mut found = false;
        while i < n
            invariant_except_break
                !found,
            invariant
                n == entries@.len(),
                s == entries@.map_values(|e: (String, V)| (e.0@, e.1)),
                i <= n,
                forall|j: int| 0 <= j < i ==> lex_lt(#[trigger] s[j].0, key@),
            ensures
                i <= n,
                forall|j: int| 0 <= j < i ==> lex_lt(#[trigger] s[j].0, key@),
                i < n ==> !lex_lt(s[i as int].0, key@),
                found == (i < n && s[i as int].0 == key@),
            decreases n - i,
        {
            let o = compare_text(entries[i].0.as_str(), key.as_str());
            if o == TextOrder::Less {
                i = i + 1;
            } else {
                found = o == TextOrder::Equal;
                break;
            }
        }
        proof {
            lemma_insert_at(s, key@, value, i as int);
        }
        let ghost kv = key@;
        if found {
            entries.remove(i);
            entries.insert(i, (key, value));
            assert(entries@.map_values(|e: (String, V)| (e.0@, e.1)) =~= s.update(i as int, (kv, value)));
        } else {
            entries.insert(i, (key, value));
            assert(entries@.map_values(|e: (String, V)| (e.0@, e.1)) =~= s.insert(i as int, (kv, value)));
        }
        self.entries = entries;
    }

    /// Puts `value` in the `i`-th entry and returns the value that was there.
    pub fn replace_value_at(&mut self, i: usize, value: V) -> (r: V)
        requires
            i < old(self).list().len(),
        ensures
            r == old(self).list()[i as int].1,
            final(self).list() == old(self).list().update(i as int, (old(self).list()[i as int].0, value)),
            final(self)@ == old(self)@.insert(old(self).list()[i as int].0, value),
    {
        proof {
            use_type_invariant(&*self);
            let s = self.list();
            let k = s[i as int].0;
            assert forall|j: int| 0 <= j < i implies lex_lt(#[trigger] s[j].0, k) by {}
            lemma_lex_irreflexive(k);
            lemma_insert_at(s, k, value, i as int);
            lemma_list_insert(s, k, value);
        }
        let ghost s = self.list();
        let mut entries: Vec<(String, V)> = Vec::new();
        std::mem::swap(&mut entries, &mut self.entries);
        assert(entries@.map_values(|e: (String, V)| (e.0@, e.1)) == s);
        let (k, old_value) = entries.remove(i);
        assert(k@ == s[i as int].0);
        entries.insert(i, (k, value));
        assert(entries@.map_values(|e: (String, V)| (e.0@, e.1)) =~= s.update(i as int, (s[i as int].0, value)));
        self.entries = entries;
        assert(sorted_keys(self.list())) by {
            let t = self.list();
            assert forall|a: int, b: int| 0 <= a < b < t.len() implies lex_lt(t[a].0, t[b].0) by {
                assert(t[a].0 == s[a].0 && t[b].0 == s[b].0);
            }
        }
        old_value
    }
}

} // verus!
