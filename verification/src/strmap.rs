//! A map keyed by strings, kept as a list of entries with distinct keys.

use vstd::prelude::*;

verus! {

/// The map that a list of entries stands for: a later entry wins over an
/// earlier one with the same key.
pub open spec fn entries_map<V: View>(e: Seq<(String, V)>) -> Map<Seq<char>, V::V>
    decreases e.len(),
{
    if e.len() == 0 {
        Map::empty()
    } else {
        entries_map(e.drop_last()).insert(e.last().0@, e.last().1@)
    }
}

/// No two entries share a key.
pub open spec fn keys_distinct<V>(e: Seq<(String, V)>) -> bool {
    forall|i: int, j: int| 0 <= i < j < e.len() ==> e[i].0@ != e[j].0@
}

/// The keys that a list of strings holds.
pub open spec fn key_set(keys: Seq<String>) -> Set<Seq<char>> {
    Set::new(|k: Seq<char>| exists|i: int| 0 <= i < keys.len() && keys[i]@ == k)
}

/// A map from strings (tmux pane ids) to values.
pub struct StrMap<V> {
    entries: Vec<(String, V)>,
}

impl<V: View> View for StrMap<V> {
    type V = Map<Seq<char>, V::V>;

    closed spec fn view(&self) -> Map<Seq<char>, V::V> {
        entries_map(self.entries@)
    }
}

/// In a list with distinct keys, a key is present exactly where an entry
/// holds it, with that entry's value.
pub proof fn lemma_entries_map<V: View>(e: Seq<(String, V)>)
    requires
        keys_distinct(e),
    ensures
        forall|k: Seq<char>|
            #![trigger entries_map(e).contains_key(k)]
            entries_map(e).contains_key(k) <==> exists|i: int| 0 <= i < e.len() && e[i].0@ == k,
        forall|i: int|
            #![trigger e[i]]
            0 <= i < e.len() ==> entries_map(e).contains_key(e[i].0@) && entries_map(e)[e[i].0@]
                == e[i].1@,
    decreases e.len(),
{
    if e.len() > 0 {
        let p = e.drop_last();
        assert(keys_distinct(p));
        lemma_entries_map(p);
        assert forall|k: Seq<char>|
            #![trigger entries_map(e).contains_key(k)]
            entries_map(e).contains_key(k) implies exists|i: int|
                0 <= i < e.len() && e[i].0@ == k by {
            if k != e.last().0@ {
                assert(entries_map(p).contains_key(k));
                let i = choose|i: int| 0 <= i < p.len() && p[i].0@ == k;
                assert(e[i] == p[i]);
            } else {
                assert(e[e.len() - 1].0@ == k);
            }
        }
        assert forall|i: int|
            #![trigger e[i]]
            0 <= i < e.len() implies entries_map(e).contains_key(e[i].0@) && entries_map(e)[e[i].0@]
                == e[i].1@ by {
            if i < e.len() - 1 {
                assert(e[i] == p[i]);
            }
        }
    }
}

impl<V> StrMap<V> {
    #[verifier::type_invariant]
    closed spec fn distinct(self) -> bool {
        keys_distinct(self.entries@)
    }
}

impl<V: View> StrMap<V> {
    /// The empty map.
    pub fn new() -> (m: Self)
        ensures
            m@ == Map::<Seq<char>, V::V>::empty(),
    {
        StrMap { entries: Vec::new() }
    }

    /// Position of the entry holding `k`.
    fn find(&self, k: &String) -> (r: Option<usize>)
        ensures
            r matches Some(i) ==> i < self.entries@.len() && self.entries@[i as int].0@ == k@,
            r is None ==> forall|i: int| 0 <= i < self.entries@.len() ==> self.entries@[i].0@ != k@,
    {
        let n = self.entries.len();
        let mut i: usize = 0;
        while i < n
            invariant
                i <= n,
                n == self.entries@.len(),
                forall|j: int| 0 <= j < i ==> self.entries@[j].0@ != k@,
            decreases n - i,
        {
            if self.entries[i].0 == *k {
                return Some(i);
            }
            i = i + 1;
        }
        None
    }

    /// `k` has an entry.
    pub fn contains_key(&self, k: &String) -> (r: bool)
        ensures
            r == self@.contains_key(k@),
    {
        proof {
            use_type_invariant(self);
            lemma_entries_map(self.entries@);
        }
        self.find(k).is_some()
    }

    /// The value held for `k`.
    pub fn get(&self, k: &String) -> (r: Option<&V>)
        ensures
            r is Some <==> self@.contains_key(k@),
            r matches Some(v) ==> v@ == self@[k@],
    {
        proof {
            use_type_invariant(self);
            lemma_entries_map(self.entries@);
        }
        match self.find(k) {
            Some(i) => Some(&self.entries[i].1),
            None => None,
        }
    }

    /// Sets the value for `k`, replacing any earlier one.
    pub fn insert(&mut self, k: String, v: V)
        ensures
            final(self)@ == old(self)@.insert(k@, v@),
    {
        proof {
            use_type_invariant(&*self);
            lemma_entries_map(self.entries@);
        }
        let ghost old_e = self.entries@;
        let ghost kv = k@;
        let ghost vv = v@;
        let found = self.find(&k);
        let mut e: Vec<(String, V)> = Vec::new();
        std::mem::swap(&mut e, &mut self.entries);
        match found {
            Some(i) => {
                e.set(i, (k, v));
                proof {
                    assert forall|a: int, b: int| 0 <= a < b < e@.len() implies e@[a].0@
                        != e@[b].0@ by {
                        assert(a != i ==> e@[a] == old_e[a]);
                        assert(b != i ==> e@[b] == old_e[b]);
                    }
                    lemma_entries_map(e@);
                    let m = entries_map(old_e).insert(kv, vv);
                    assert forall|kk: Seq<char>| #[trigger]
                        entries_map(e@).contains_key(kk) == m.contains_key(kk) by {
                        if entries_map(e@).contains_key(kk) {
                            let j = choose|j: int| 0 <= j < e@.len() && e@[j].0@ == kk;
                            if j != i {
                                assert(e@[j] == old_e[j]);
                            }
                        }
                        if kk == kv {
                            assert(e@[i as int].0@ == kk);
                        }
                        if m.contains_key(kk) && kk != kv {
                            assert(entries_map(old_e).contains_key(kk));
                            let j = choose|j: int| 0 <= j < old_e.len() && old_e[j].0@ == kk;
                            assert(e@[j] == old_e[j]);
                        }
                    }
                    assert forall|kk: Seq<char>| #[trigger]
                        entries_map(e@).contains_key(kk) implies entries_map(e@)[kk] == m[kk] by {
                        let j = choose|j: int| 0 <= j < e@.len() && e@[j].0@ == kk;
                        if j != i {
                            assert(e@[j] == old_e[j]);
                        }
                    }
                    assert(entries_map(e@) =~= m);
                }
            },
            None => {
                e.push((k, v));
                proof {
                    assert(e@.drop_last() =~= old_e);
                }
            },
        }
        self.entries = e;
    }

    /// Drops the entry for `k`, if any.
    pub fn remove(&mut self, k: &String)
        ensures
            final(self)@ == old(self)@.remove(k@),
    {
        proof {
            use_type_invariant(&*self);
            lemma_entries_map(self.entries@);
        }
        let ghost old_e = self.entries@;
        match self.find(k) {
            Some(i) => {
                let mut e: Vec<(String, V)> = Vec::new();
                std::mem::swap(&mut e, &mut self.entries);
                let _ = e.remove(i);
                proof {
                    assert forall|a: int, b: int| 0 <= a < b < e@.len() implies e@[a].0@
                        != e@[b].0@ by {
                        let oa = if a < i { a } else { a + 1 };
                        let ob = if b < i { b } else { b + 1 };
                        assert(e@[a] == old_e[oa]);
                        assert(e@[b] == old_e[ob]);
                    }
                    lemma_entries_map(e@);
                    assert forall|kk: Seq<char>| #[trigger]
                        entries_map(e@).contains_key(kk) == entries_map(old_e).remove(
                            k@,
                        ).contains_key(kk) by {
                        if entries_map(e@).contains_key(kk) {
                            let j = choose|j: int| 0 <= j < e@.len() && e@[j].0@ == kk;
                            let oj = if j < i { j } else { j + 1 };
                            assert(e@[j] == old_e[oj]);
                        }
                        if entries_map(old_e).remove(k@).contains_key(kk) {
                            let j = choose|j: int| 0 <= j < old_e.len() && old_e[j].0@ == kk;
                            assert(j != i);
                            let nj = if j < i { j } else { j - 1 };
                            assert(e@[nj] == old_e[j]);
                        }
                    }
                    assert forall|kk: Seq<char>| #[trigger]
                        entries_map(e@).contains_key(kk) implies entries_map(e@)[kk]
                        == entries_map(old_e)[kk] by {
                        let j = choose|j: int| 0 <= j < e@.len() && e@[j].0@ == kk;
                        let oj = if j < i { j } else { j + 1 };
                        assert(e@[j] == old_e[oj]);
                    }
                    assert(entries_map(e@) =~= entries_map(old_e).remove(k@));
                }
                self.entries = e;
            },
            None => {
                proof {
                    assert(entries_map(old_e) =~= entries_map(old_e).remove(k@));
                }
            },
        }
    }

    /// `k` is one of `keys`.
    fn listed(keys: &[String], k: &String) -> (r: bool)
        ensures
            r == key_set(keys@).contains(k@),
    {
        let n = keys.len();
        let mut i: usize = 0;
        while i < n
            invariant
                i <= n,
                n == keys@.len(),
                forall|j: int| 0 <= j < i ==> keys@[j]@ != k@,
            decreases n - i,
        {
            if keys[i] == *k {
                assert(keys@[i as int]@ == k@);
                return true;
            }
            i = i + 1;
        }
        false
    }

    /// Keeps only the entries whose key is one of `keys`.
    pub fn retain_keys(&mut self, keys: &[String])
        ensures
            final(self)@ == old(self)@.restrict(key_set(keys@)),
    {
        proof {
            use_type_invariant(&*self);
        }
        let ghost s = key_set(keys@);
        let mut old_e: Vec<(String, V)> = Vec::new();
        std::mem::swap(&mut old_e, &mut self.entries);
        let ghost oe = old_e@;
        let mut kept: Vec<(String, V)> = Vec::new();
        let n = old_e.len();
        let rest = old_e.into_iter();
        let mut j: usize = 0;
        assert(oe.take(0) =~= Seq::<(String, V)>::empty());
        assert(entries_map(oe.take(0)).restrict(s) =~= entries_map(kept@));
        for x in it: rest
            invariant
                it.seq() == oe,
                j == it.index(),
                s == key_set(keys@),
                j <= n,
                n == oe.len(),
                keys_distinct(oe),
                keys_distinct(kept@),
                forall|a: int|
                    #![trigger kept@[a]]
                    0 <= a < kept@.len() ==> exists|t: int|
                        0 <= t < j && #[trigger] oe[t].0@ == kept@[a].0@,
                entries_map(kept@) == entries_map(oe.take(j as int)).restrict(s),
        {
            let ghost pre = kept@;
            assert(x == oe[j as int]);
            assert(oe.take(j + 1).drop_last() =~= oe.take(j as int));
            assert(oe.take(j + 1).last() == x);
            assert(entries_map(oe.take(j + 1)) == entries_map(oe.take(j as int)).insert(x.0@, x.1@));
            if Self::listed(keys, &x.0) {
                proof {
                    assert forall|a: int| #![trigger pre[a]] 0 <= a < pre.len() implies pre[a].0@ != x.0@ by {
                        let t = choose|t: int| 0 <= t < j && #[trigger] oe[t].0@ == pre[a].0@;
                    }
                }
                kept.push(x);
                proof {
                    assert(kept@.drop_last() =~= pre);
                    assert(entries_map(kept@) =~= entries_map(oe.take(j + 1)).restrict(s));
                    assert forall|a: int|
                        #![trigger kept@[a]]
                        0 <= a < kept@.len() implies exists|t: int|
                            0 <= t < j + 1 && #[trigger] oe[t].0@ == kept@[a].0@ by {
                        if a < pre.len() {
                            assert(kept@[a] == pre[a]);
                            let t = choose|t: int| 0 <= t < j && #[trigger] oe[t].0@ == pre[a].0@;
                        } else {
                            assert(oe[j as int].0@ == kept@[a].0@);
                        }
                    }
                }
            } else {
                proof {
                    assert(entries_map(kept@) =~= entries_map(oe.take(j + 1)).restrict(s));
                }
            }
            j = j + 1;
        }
        assert(oe.take(n as int) =~= oe);
        self.entries = kept;
    }

    /// The entries, each key once.
    pub fn entries(&self) -> (r: &Vec<(String, V)>)
        ensures
            entries_map(r@) == self@,
            keys_distinct(r@),
    {
        proof {
            use_type_invariant(self);
        }
        &self.entries
    }
}

} // verus!
