use vstd::prelude::*;
use vstd::string::StringExecFns;
use crate::json::JsonField;

verus! {

/// Position of the last pair whose key is `k`, or -1 when there is none.
pub open spec fn key_index<W>(s: Seq<(Seq<char>, W)>, k: Seq<char>) -> int
    decreases s.len(),
{
    if s.len() == 0 {
        -1
    } else if s.last().0 == k {
        s.len() - 1
    } else {
        key_index(s.drop_last(), k)
    }
}

/// The value stored under `k`, if any.
pub open spec fn lookup<W>(s: Seq<(Seq<char>, W)>, k: Seq<char>) -> Option<W> {
    let i = key_index(s, k);
    if i >= 0 {
        Some(s[i].1)
    } else {
        None
    }
}

/// Insert-or-replace: an existing pair keeps its place, a new one goes last.
pub open spec fn put<W>(s: Seq<(Seq<char>, W)>, k: Seq<char>, v: W) -> Seq<(Seq<char>, W)> {
    let i = key_index(s, k);
    if i >= 0 {
        s.update(i, (k, v))
    } else {
        s.push((k, v))
    }
}

/// Removes the pair under `k`, if any.
pub open spec fn delete<W>(s: Seq<(Seq<char>, W)>, k: Seq<char>) -> Seq<(Seq<char>, W)> {
    let i = key_index(s, k);
    if i >= 0 {
        s.remove(i)
    } else {
        s
    }
}

/// No key occurs twice.
pub open spec fn unique_keys<W>(s: Seq<(Seq<char>, W)>) -> bool {
    forall|i: int, j: int| 0 <= i < j < s.len() ==> s[i].0 != s[j].0
}

/// The keys, in order.
pub open spec fn keys_of<W>(s: Seq<(Seq<char>, W)>) -> Seq<Seq<char>> {
    s.map_values(|p: (Seq<char>, W)| p.0)
}

/// The values, in order.
pub open spec fn values_of<W>(s: Seq<(Seq<char>, W)>) -> Seq<W> {
    s.map_values(|p: (Seq<char>, W)| p.1)
}

pub proof fn lemma_key_index<W>(s: Seq<(Seq<char>, W)>, k: Seq<char>)
    ensures
        -1 <= key_index(s, k) < s.len(),
        key_index(s, k) >= 0 ==> s[key_index(s, k)].0 == k,
        key_index(s, k) == -1 <==> (forall|j: int| 0 <= j < s.len() ==> s[j].0 != k),
        forall|j: int| key_index(s, k) < j < s.len() ==> s[j].0 != k,
    decreases s.len(),
{
    if s.len() > 0 {
        let t = s.drop_last();
        lemma_key_index(t, k);
        assert forall|j: int| 0 <= j < t.len() implies t[j] == s[j] by {}
    }
}

pub proof fn lemma_key_index_unique<W>(s: Seq<(Seq<char>, W)>, i: int)
    requires
        unique_keys(s),
        0 <= i < s.len(),
    ensures
        key_index(s, s[i].0) == i,
{
    lemma_key_index(s, s[i].0);
}

pub proof fn lemma_put_unique<W>(s: Seq<(Seq<char>, W)>, k: Seq<char>, v: W)
    requires
        unique_keys(s),
    ensures
        unique_keys(put(s, k, v)),
        put(s, k, v).len() == s.len() || put(s, k, v).len() == s.len() + 1,
        lookup(put(s, k, v), k) == Some(v),
        forall|k2: Seq<char>| k2 != k ==> lookup(put(s, k, v), k2) == lookup(s, k2),
{
    lemma_key_index(s, k);
    let t = put(s, k, v);
    assert(unique_keys(t));
    assert forall|k2: Seq<char>| k2 != k implies lookup(t, k2) == lookup(s, k2) by {
        lemma_key_index(s, k2);
        lemma_key_index(t, k2);
        let j = key_index(s, k2);
        if j >= 0 {
            assert(t[j].0 == k2);
            lemma_key_index_unique(t, j);
        } else {
            assert forall|m: int| 0 <= m < t.len() implies t[m].0 != k2 by {
                if m < s.len() && m != key_index(s, k) {
                    assert(t[m] == s[m]);
                }
            }
        }
    }
    lemma_key_index(t, k);
    if key_index(s, k) >= 0 {
        lemma_key_index_unique(t, key_index(s, k));
    } else {
        lemma_key_index_unique(t, s.len() as int);
    }
}

/// Where the last pair under the key at `i` is not at `i`, the key repeats.
pub proof fn lemma_key_index_unique_needed<W>(s: Seq<(Seq<char>, W)>, i: int)
    requires
        0 <= i < s.len(),
    ensures
        key_index(s, s[i].0) != i ==> !unique_keys(s),
{
    lemma_key_index(s, s[i].0);
}

/// The pairs of `s`, with keys and values seen through their views.
pub open spec fn view_items<V: View>(s: Seq<(String, V)>) -> Seq<(Seq<char>, V::V)> {
    s.map_values(|p: (String, V)| (p.0@, p.1@))
}

/// A map from string keys to values, kept as pairs in insertion order.
pub struct KeyMap<V: View> {
    items: Vec<(String, V)>,
}

impl<V: View> KeyMap<V> {
    /// The pairs, with keys and values seen through their views.
    pub closed spec fn pairs(&self) -> Seq<(Seq<char>, V::V)> {
        view_items(self.items@)
    }

    #[verifier::type_invariant]
    spec fn inv(self) -> bool {
        unique_keys(view_items(self.items@))
    }

    pub fn new() -> (r: Self)
        ensures
            r.pairs() == Seq::<(Seq<char>, V::V)>::empty(),
    {
        let r = KeyMap { items: Vec::new() };
        assert(r.pairs() =~= Seq::<(Seq<char>, V::V)>::empty());
        r
    }

    pub fn len(&self) -> (r: usize)
        ensures
            r == self.pairs().len(),
            unique_keys(self.pairs()),
    {
        proof {
            use_type_invariant(self);
        }
        self.items.len()
    }

    pub fn is_empty(&self) -> (r: bool)
        ensures
            r == (self.pairs().len() == 0),
    {
        self.items.len() == 0
    }

    /// Position of `k`, as `key_index` gives it.
    pub fn index_of(&self, k: &str) -> (r: Option<usize>)
        ensures
            match r {
                Some(i) => i as int == key_index(self.pairs(), k@),
                None => key_index(self.pairs(), k@) == -1,
            },
            r is Some ==> r->Some_0 < self.pairs().len(),
    {
        proof {
            lemma_key_index(self.pairs(), k@);
        }
        let key = <String as StringExecFns>::from_str(k);
        let mut found: Option<usize> = None;
        let mut i: usize = 0;
        while i < self.items.len()
            invariant
                i <= self.items@.len(),
                key@ == k@,
                match found {
                    Some(j) => j as int == key_index(self.pairs().take(i as int), k@),
                    None => key_index(self.pairs().take(i as int), k@) == -1,
                },
            decreases self.items@.len() - i,
        {
            proof {
                assert(self.pairs().take(i as int + 1).drop_last() =~= self.pairs().take(i as int));
            }
            if self.items[i].0 == key {
                found = Some(i);
            }
            i = i + 1;
        }
        assert(self.pairs().take(i as int) =~= self.pairs());
        found
    }

    pub fn key_at(&self, i: usize) -> (r: &String)
        requires
            i < self.pairs().len(),
        ensures
            r@ == self.pairs()[i as int].0,
    {
        &self.items[i].0
    }

    pub fn value_at(&self, i: usize) -> (r: &V)
        requires
            i < self.pairs().len(),
        ensures
            r@ == self.pairs()[i as int].1,
    {
        &self.items[i].1
    }

    pub fn get(&self, k: &str) -> (r: Option<&V>)
        ensures
            match r {
                Some(v) => lookup(self.pairs(), k@) == Some(v@),
                None => lookup(self.pairs(), k@) is None,
            },
    {
        match self.index_of(k) {
            Some(i) => Some(&self.items[i].1),
            None => None,
        }
    }

    /// Moves the pairs out, leaving the map empty.
    fn take_items(&mut self) -> (r: Vec<(String, V)>)
        ensures
            view_items(r@) == old(self).pairs(),
            unique_keys(view_items(r@)),
            final(self).pairs() == Seq::<(Seq<char>, V::V)>::empty(),
    {
        proof {
            use_type_invariant(&*self);
        }
        let mut tmp = KeyMap::new();
        std::mem::swap(self, &mut tmp);
        proof {
            use_type_invariant(&tmp);
        }
        let KeyMap { items } = tmp;
        items
    }

    /// Insert-or-replace under `k`.
    pub fn insert(&mut self, k: String, v: V)
        ensures
            final(self).pairs() == put(old(self).pairs(), k@, v@),
    {
        let ghost before = self.pairs();
        let found = self.index_of(k.as_str());
        let mut items = self.take_items();
        proof {
            lemma_key_index(before, k@);
            lemma_put_unique(before, k@, v@);
        }
        match found {
            Some(i) => {
                items.set(i, (k, v));
            },
            None => {
                items.push((k, v));
            },
        }
        assert(view_items(items@) =~= put(before, k@, v@));
        *self = KeyMap { items };
    }

    /// Removes the pair under `k`, handing back its value.
    pub fn remove(&mut self, k: &str) -> (r: Option<V>)
        ensures
            final(self).pairs() == delete(old(self).pairs(), k@),
            match r {
                Some(v) => lookup(old(self).pairs(), k@) == Some(v@),
                None => lookup(old(self).pairs(), k@) is None,
            },
    {
        let ghost before = self.pairs();
        match self.index_of(k) {
            Some(i) => {
                proof {
                    lemma_key_index(before, k@);
                }
                let (_k, v) = self.remove_at(i);
                assert(self.pairs() =~= delete(before, k@));
                Some(v)
            },
            None => None,
        }
    }

    /// Takes out the pair at position `i`.
    pub(crate) fn remove_at(&mut self, i: usize) -> (r: (String, V))
        requires
            i < old(self).pairs().len(),
        ensures
            final(self).pairs() == old(self).pairs().remove(i as int),
            (r.0@, r.1@) == old(self).pairs()[i as int],
            forall|j: int| 0 <= j < final(self).pairs().len() ==> #[trigger] final(self).pairs()[j].0 != r.0@,
    {
        let ghost before = self.pairs();
        let mut items = self.take_items();
        assert(unique_keys(before));
        let r = items.remove(i);
        assert(view_items(items@) =~= before.remove(i as int));
        assert(r.0@ == before[i as int].0);
        assert forall|j: int| 0 <= j < view_items(items@).len() implies #[trigger] view_items(items@)[j].0 != r.0@ by {
            if j < i {
                assert(view_items(items@)[j] == before[j]);
                assert(before[j].0 != before[i as int].0);
            } else {
                assert(view_items(items@)[j] == before[j + 1]);
                assert(before[i as int].0 != before[j + 1].0);
            }
        }
        *self = KeyMap { items };
        r
    }

    /// Puts a pair with a key that is not there at position `i`.
    pub(crate) fn insert_at(&mut self, i: usize, k: String, v: V)
        requires
            i <= old(self).pairs().len(),
            forall|j: int| 0 <= j < old(self).pairs().len() ==> #[trigger] old(self).pairs()[j].0 != k@,
        ensures
            final(self).pairs() == old(self).pairs().insert(i as int, (k@, v@)),
    {
        let ghost before = self.pairs();
        let mut items = self.take_items();
        items.insert(i, (k, v));
        assert(view_items(items@) =~= before.insert(i as int, (k@, v@)));
        assert(unique_keys(view_items(items@))) by {
            let t = view_items(items@);
            assert forall|a: int, b: int| 0 <= a < b < t.len() implies t[a].0 != t[b].0 by {
                if a < i && b < i {
                    assert(t[a] == before[a] && t[b] == before[b]);
                } else if a < i && b > i {
                    assert(t[a] == before[a] && t[b] == before[b - 1]);
                } else if a > i {
                    assert(t[a] == before[a - 1] && t[b] == before[b - 1]);
                } else if a == i {
                    assert(t[b] == before[b - 1]);
                } else {
                    assert(t[a] == before[a]);
                }
            }
        }
        *self = KeyMap { items };
    }

    /// The keys, in order.
    pub fn keys(&self) -> (r: Vec<String>)
        ensures
            r@.map_values(|s: String| s@) == keys_of(self.pairs()),
    {
        let mut r: Vec<String> = Vec::new();
        let mut i: usize = 0;
        while i < self.items.len()
            invariant
                i <= self.items@.len(),
                r@.len() == i,
                forall|j: int| 0 <= j < i ==> r@[j]@ == #[trigger] self.pairs()[j].0,
            decreases self.items@.len() - i,
        {
            let k = self.items[i].0.clone();
            r.push(k);
            i = i + 1;
        }
        assert(r@.map_values(|s: String| s@) =~= keys_of(self.pairs()));
        r
    }

    /// The values, in order, moved out of the map.
    pub fn into_values(self) -> (r: Vec<V>)
        ensures
            r@.map_values(|v: V| v@) == values_of(self.pairs()),
    {
        let ghost all = self.pairs();
        let mut items = self.items;
        let mut r: Vec<V> = Vec::new();
        while items.len() > 0
            invariant
                items@.len() + r@.len() == all.len(),
                view_items(items@) == all.skip(r@.len() as int),
                r@.map_values(|v: V| v@) == values_of(all).take(r@.len() as int),
            decreases items@.len(),
        {
            let ghost prev = r@;
            let ghost prev_items = items@;
            let (_k, v) = items.remove(0);
            r.push(v);
            assert(r@ == prev.push(v));
            assert(view_items(prev_items)[0] == all[prev.len() as int]);
            assert(items@ =~= prev_items.subrange(1, prev_items.len() as int));
            assert forall|j: int| 0 <= j < items@.len() implies
                #[trigger] view_items(items@)[j]
                    == all.skip(r@.len() as int)[j] by {
                assert(items@[j] == prev_items[j + 1]);
                assert(view_items(prev_items)[j + 1]
                    == all.skip(prev.len() as int)[j + 1]);
            }
            assert(view_items(items@) =~= all.skip(r@.len() as int));
            assert(r@.map_values(|v: V| v@) =~= values_of(all).take(r@.len() as int));
        }
        assert(values_of(all).take(all.len() as int) =~= values_of(all));
        r
    }
}

/// `base` with each pair of `s` put in turn.
pub open spec fn put_all<W>(base: Seq<(Seq<char>, W)>, s: Seq<(Seq<char>, W)>) -> Seq<(Seq<char>, W)>
    decreases s.len(),
{
    if s.len() == 0 {
        base
    } else {
        let r = put_all(base, s.drop_last());
        put(r, s.last().0, s.last().1)
    }
}

impl KeyMap<JsonField> {
    pub fn copy(&self) -> (r: KeyMap<JsonField>)
        ensures
            r.pairs() == self.pairs(),
    {
        proof {
            use_type_invariant(self);
        }
        let mut items: Vec<(String, JsonField)> = Vec::new();
        let mut i: usize = 0;
        while i < self.items.len()
            invariant
                i <= self.items@.len(),
                items@.len() == i,
                forall|j: int| 0 <= j < i ==> #[trigger] view_items(items@)[j] == self.pairs()[j],
            decreases self.items@.len() - i,
        {
            let ghost prev = items@;
            let k = self.items[i].0.clone();
            let v = self.items[i].1.copy();
            items.push((k, v));
            assert(items@ == prev.push((k, v)));
            assert forall|j: int| 0 <= j < i + 1 implies #[trigger] view_items(items@)[j] == self.pairs()[j] by {
                if j < i {
                    assert(items@[j] == prev[j]);
                    assert(view_items(prev)[j] == self.pairs()[j]);
                }
            }
            i = i + 1;
        }
        assert(view_items(items@) =~= self.pairs());
        KeyMap { items }
    }
}

/// Putting a key that is not there appends it.
pub proof fn lemma_put_fresh<W>(s: Seq<(Seq<char>, W)>, k: Seq<char>, v: W)
    requires
        forall|j: int| 0 <= j < s.len() ==> s[j].0 != k,
    ensures
        put(s, k, v) == s.push((k, v)),
{
    lemma_key_index(s, k);
}

/// What was put under `k` is found under `k`.
pub proof fn lemma_lookup_put<W>(s: Seq<(Seq<char>, W)>, k: Seq<char>, v: W)
    ensures
        lookup(put(s, k, v), k) == Some(v),
{
    lemma_key_index(s, k);
    let t = put(s, k, v);
    lemma_key_index(t, k);
    let i = key_index(s, k);
    if i >= 0 {
        let idx = key_index(t, k);
        if idx < i {
            assert(t[i].0 == k);
        } else if idx > i {
            assert(t[idx] == s[idx]);
        }
    } else {
        assert(t.drop_last() =~= s);
    }
}

/// Pairs whose keys differ from `k`, appended after `b`, leave the lookup of `k` alone.
pub proof fn lemma_lookup_append<W>(b: Seq<(Seq<char>, W)>, f: Seq<(Seq<char>, W)>, k: Seq<char>)
    requires
        forall|j: int| 0 <= j < f.len() ==> f[j].0 != k,
    ensures
        key_index(b + f, k) == key_index(b, k),
        lookup(b + f, k) == lookup(b, k),
    decreases f.len(),
{
    if f.len() > 0 {
        let f2 = f.drop_last();
        assert((b + f).drop_last() =~= b + f2);
        assert((b + f).last() == f.last());
        lemma_lookup_append(b, f2, k);
    } else {
        assert(b + f =~= b);
    }
    lemma_key_index(b, k);
    if key_index(b, k) >= 0 {
        assert((b + f)[key_index(b, k)] == b[key_index(b, k)]);
    }
}

/// Putting pairs with fresh, distinct keys appends them.
pub proof fn lemma_put_all_fresh<W>(base: Seq<(Seq<char>, W)>, f: Seq<(Seq<char>, W)>)
    requires
        unique_keys(f),
        forall|i: int, j: int| 0 <= i < base.len() && 0 <= j < f.len() ==> base[i].0 != f[j].0,
    ensures
        put_all(base, f) == base + f,
    decreases f.len(),
{
    if f.len() == 0 {
        assert(base + f =~= base);
    } else {
        let f2 = f.drop_last();
        lemma_put_all_fresh(base, f2);
        let s = base + f2;
        assert forall|j: int| 0 <= j < s.len() implies s[j].0 != f.last().0 by {
            if j >= base.len() {
                assert(s[j] == f[j - base.len()]);
            }
        }
        lemma_put_fresh(s, f.last().0, f.last().1);
        assert(s.push((f.last().0, f.last().1)) =~= base + f);
    }
}

} // verus!
