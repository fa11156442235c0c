use vstd::prelude::*;
use crate::text::chars_of;

verus! {

/// Lexicographic order of character sequences by code point. For UTF-8 text
/// this is the same as byte-wise lexicographic order.
pub open spec fn key_lt(a: Seq<char>, b: Seq<char>) -> bool
    decreases a.len(),
{
    if a.len() == 0 {
        b.len() > 0
    } else if b.len() == 0 {
        false
    } else if a[0] != b[0] {
        (a[0] as u32) < (b[0] as u32)
    } else {
        key_lt(a.drop_first(), b.drop_first())
    }
}

pub proof fn lemma_key_lt_irreflexive(a: Seq<char>)
    ensures
        !key_lt(a, a),
    decreases a.len(),
{
    if a.len() > 0 {
        lemma_key_lt_irreflexive(a.drop_first());
    }
}

pub proof fn lemma_key_lt_trichotomy(a: Seq<char>, b: Seq<char>)
    ensures
        a == b || key_lt(a, b) || key_lt(b, a),
        !(key_lt(a, b) && key_lt(b, a)),
    decreases a.len(),
{
    if a.len() > 0 && b.len() > 0 {
        if a[0] == b[0] {
            lemma_key_lt_trichotomy(a.drop_first(), b.drop_first());
            if a.drop_first() == b.drop_first() {
                assert(a =~= seq![a[0]] + a.drop_first());
                assert(b =~= seq![b[0]] + b.drop_first());
            }
        } else {
            let x = a[0] as u32;
            let y = b[0] as u32;
            vstd::utf8::char_u32_cast(a[0], x);
            vstd::utf8::char_u32_cast(b[0], y);
        }
    } else if a.len() == 0 && b.len() == 0 {
        assert(a =~= b);
    }
}

pub proof fn lemma_key_lt_transitive(a: Seq<char>, b: Seq<char>, c: Seq<char>)
    requires
        key_lt(a, b),
        key_lt(b, c),
    ensures
        key_lt(a, c),
    decreases a.len(),
{
    if a.len() > 0 && b.len() > 0 && c.len() > 0 {
        if a[0] == b[0] && b[0] == c[0] {
            lemma_key_lt_transitive(a.drop_first(), b.drop_first(), c.drop_first());
        }
    }
}

/// Compares two keys: -1, 0 or 1 as `a` sorts before, equal to, or after `b`.
pub fn compare_keys(a: &str, b: &str) -> (r: i8)
    ensures
        r == 0 <==> a@ == b@,
        r < 0 <==> key_lt(a@, b@),
        r > 0 <==> key_lt(b@, a@),
{
    let ca = chars_of(a);
    let cb = chars_of(b);
    let mut i: usize = 0;
    assert(ca@.subrange(0, ca@.len() as int) =~= ca@);
    assert(cb@.subrange(0, cb@.len() as int) =~= cb@);
    while i < ca.len() && i < cb.len() && ca[i] == cb[i]
        invariant
            0 <= i <= ca@.len(),
            i <= cb@.len(),
            forall|k: int| 0 <= k < i ==> ca@[k] == cb@[k],
            key_lt(ca@, cb@) == key_lt(ca@.subrange(i as int, ca@.len() as int), cb@.subrange(i as int, cb@.len() as int)),
            key_lt(cb@, ca@) == key_lt(cb@.subrange(i as int, cb@.len() as int), ca@.subrange(i as int, ca@.len() as int)),
        decreases ca@.len() - i,
    {
        let ghost sa = ca@.subrange(i as int, ca@.len() as int);
        let ghost sb = cb@.subrange(i as int, cb@.len() as int);
        assert(sa.drop_first() =~= ca@.subrange(i + 1, ca@.len() as int));
        assert(sb.drop_first() =~= cb@.subrange(i + 1, cb@.len() as int));
        i = i + 1;
    }
    let ghost sa = ca@.subrange(i as int, ca@.len() as int);
    let ghost sb = cb@.subrange(i as int, cb@.len() as int);
    proof {
        lemma_key_lt_trichotomy(ca@, cb@);
        lemma_key_lt_irreflexive(ca@);
    }
    if i == ca.len() && i == cb.len() {
        assert(ca@ =~= cb@);
        0
    } else if i == ca.len() {
        assert(sa.len() == 0 && sb.len() > 0);
        assert(ca@ != cb@);
        -1
    } else if i == cb.len() {
        assert(sb.len() == 0 && sa.len() > 0);
        assert(ca@ != cb@);
        1
    } else {
        assert(sa[0] == ca@[i as int] && sb[0] == cb@[i as int]);
        assert(ca@[i as int] != cb@[i as int]);
        assert(ca@ != cb@);
        proof {
            vstd::utf8::char_u32_cast(ca@[i as int], ca[i as int] as u32);
            vstd::utf8::char_u32_cast(cb@[i as int], cb[i as int] as u32);
        }
        if (ca[i] as u32) < (cb[i] as u32) {
            -1
        } else {
            1
        }
    }
}

/// Entries in strictly increasing key order.
pub open spec fn sorted_keys<V>(es: Seq<(Seq<char>, V)>) -> bool {
    forall|i: int, j: int| 0 <= i < j < es.len() ==> key_lt(#[trigger] es[i].0, #[trigger] es[j].0)
}

/// The value stored under `k`.
pub open spec fn lookup<V>(es: Seq<(Seq<char>, V)>, k: Seq<char>) -> Option<V>
    decreases es.len(),
{
    if es.len() == 0 {
        None
    } else if es.last().0 == k {
        Some(es.last().1)
    } else {
        lookup(es.drop_last(), k)
    }
}

/// The keys, in order.
pub open spec fn keys_of<V>(es: Seq<(Seq<char>, V)>) -> Seq<Seq<char>> {
    es.map_values(|e: (Seq<char>, V)| e.0)
}

pub proof fn lemma_lookup_at<V>(es: Seq<(Seq<char>, V)>, i: int)
    requires
        sorted_keys(es),
        0 <= i < es.len(),
    ensures
        lookup(es, es[i].0) == Some(es[i].1),
    decreases es.len(),
{
    if i < es.len() - 1 {
        assert(key_lt(es[i].0, es.last().0));
        lemma_key_lt_irreflexive(es[i].0);
        assert(es.drop_last()[i] == es[i]);
        lemma_lookup_at(es.drop_last(), i);
    }
}

pub proof fn lemma_lookup_absent<V>(es: Seq<(Seq<char>, V)>, k: Seq<char>)
    requires
        forall|i: int| 0 <= i < es.len() ==> (#[trigger] es[i]).0 != k,
    ensures
        lookup(es, k) is None,
    decreases es.len(),
{
    if es.len() > 0 {
        assert(es.last() == es[es.len() - 1]);
        assert forall|i: int| 0 <= i < es.drop_last().len() implies (
        #[trigger] es.drop_last()[i]).0 != k by {
            assert(es.drop_last()[i] == es[i]);
        }
        lemma_lookup_absent(es.drop_last(), k);
    }
}

/// Looking up in a sequence with one more entry at the end.
pub proof fn lemma_lookup_push<V>(es: Seq<(Seq<char>, V)>, x: (Seq<char>, V), q: Seq<char>)
    ensures
        lookup(es.push(x), q) == if x.0 == q {
            Some(x.1)
        } else {
            lookup(es, q)
        },
{
    assert(es.push(x).drop_last() =~= es);
    assert(es.push(x).last() == x);
}

/// `lookup` finds a key exactly when some entry holds it.
pub proof fn lemma_lookup_some<V>(es: Seq<(Seq<char>, V)>, k: Seq<char>)
    requires
        sorted_keys(es),
    ensures
        lookup(es, k) is Some <==> exists|i: int| 0 <= i < es.len() && (#[trigger] es[i]).0 == k,
        lookup(es, k) matches Some(v) ==> exists|i: int|
            0 <= i < es.len() && (#[trigger] es[i]).0 == k && es[i].1 == v,
{
    if exists|i: int| 0 <= i < es.len() && (#[trigger] es[i]).0 == k {
        let i = choose|i: int| 0 <= i < es.len() && (#[trigger] es[i]).0 == k;
        lemma_lookup_at(es, i);
    } else {
        lemma_lookup_absent(es, k);
    }
}

/// A map from string keys to values, kept in increasing key order.
#[derive(Debug, PartialEq)]
pub struct KeyMap<V> {
    entries: Vec<(String, V)>,
}

impl<V> View for KeyMap<V> {
    type V = Seq<(Seq<char>, V)>;

    closed spec fn view(&self) -> Seq<(Seq<char>, V)> {
        self.entries@.map_values(|e: (String, V)| (e.0@, e.1))
    }
}

impl<V> KeyMap<V> {
    /// Keys are strictly increasing.
    pub open spec fn wf(&self) -> bool {
        sorted_keys(self@)
    }

    /// An empty map.
    pub fn new() -> (r: Self)
        ensures
            r@ == Seq::<(Seq<char>, V)>::empty(),
            r.wf(),
    {
        let r = KeyMap { entries: Vec::new() };
        assert(r@ =~= Seq::<(Seq<char>, V)>::empty());
        r
    }

    /// Number of entries.
    pub fn len(&self) -> (r: usize)
        ensures
            r == self@.len(),
    {
        self.entries.len()
    }

    /// Whether the map has no entry.
    pub fn is_empty(&self) -> (r: bool)
        ensures
            r == (self@.len() == 0),
    {
        self.entries.len() == 0
    }

    /// The key of the `i`-th entry in key order.
    pub fn key_at(&self, i: usize) -> (r: &String)
        requires
            i < self@.len(),
        ensures
            r@ == self@[i as int].0,
    {
        &self.entries[i].0
    }

    /// The value of the `i`-th entry in key order.
    pub fn value_at(&self, i: usize) -> (r: &V)
        requires
            i < self@.len(),
        ensures
            *r == self@[i as int].1,
    {
        &self.entries[i].1
    }

    /// The index of `k`, if present.
    pub fn index_of(&self, k: &str) -> (r: Option<usize>)
        requires
            self.wf(),
        ensures
            match r {
                Some(i) => i < self@.len() && self@[i as int].0 == k@,
                None => forall|i: int| 0 <= i < self@.len() ==> (#[trigger] self@[i]).0 != k@,
            },
    {
        let mut i: usize = 0;
        while i < self.entries.len()
            invariant
                0 <= i <= self@.len(),
                self@.len() == self.entries@.len(),
                forall|j: int| 0 <= j < i ==> (#[trigger] self@[j]).0 != k@,
            decreases self@.len() - i,
        {
            if compare_keys(self.entries[i].0.as_str(), k) == 0 {
                return Some(i);
            }
            i = i + 1;
        }
        None
    }

    /// The value stored under `k`.
    pub fn get(&self, k: &str) -> (r: Option<&V>)
        requires
            self.wf(),
        ensures
            match r {
                Some(v) => lookup(self@, k@) == Some(*v),
                None => lookup(self@, k@) is None,
            },
    {
        match self.index_of(k) {
            Some(i) => {
                proof {
                    lemma_lookup_at(self@, i as int);
                }
                Some(&self.entries[i].1)
            },
            None => {
                proof {
                    lemma_lookup_absent(self@, k@);
                }
                None
            },
        }
    }

    /// Whether `k` has an entry.
    pub fn contains_key(&self, k: &str) -> (r: bool)
        requires
            self.wf(),
        ensures
            r == lookup(self@, k@) is Some,
    {
        self.get(k).is_some()
    }

    /// Store `v` under `k`, replacing any value already there.
    pub fn insert(&mut self, k: String, v: V)
        requires
            old(self).wf(),
        ensures
            final(self).wf(),
            forall|q: Seq<char>| #[trigger]
                lookup(final(self)@, q) == if q == k@ {
                    Some(v)
                } else {
                    lookup(old(self)@, q)
                },
    {
        let ghost old_view = self@;
        let mut i: usize = 0;
        while i < self.entries.len() && compare_keys(self.entries[i].0.as_str(), k.as_str()) < 0
            invariant
                0 <= i <= self@.len(),
                self@ == old_view,
                self@.len() == self.entries@.len(),
                sorted_keys(old_view),
                forall|j: int| 0 <= j < i ==> key_lt(#[trigger] self@[j].0, k@),
            decreases self@.len() - i,
        {
            assert(self@[i as int].0 == self.entries@[i as int].0@);
            i = i + 1;
        }
        let found = i < self.entries.len() && compare_keys(self.entries[i].0.as_str(), k.as_str())
            == 0;
        proof {
            if i < self@.len() {
                assert(self@[i as int].0 == self.entries@[i as int].0@);
            }
        }
        let ghost ki = k@;
        proof {
            if i < self@.len() {
                lemma_key_lt_trichotomy(self@[i as int].0, ki);
                if !found {
                    assert(key_lt(ki, old_view[i as int].0));
                }
            }
        }
        if found {
            self.entries.remove(i);
            self.entries.insert(i, (k, v));
        } else {
            self.entries.insert(i, (k, v));
        }
        let ghost nv = self@;
        proof {
            if found {
                assert(old_view[i as int].0 == ki);
                assert(nv =~= old_view.update(i as int, (ki, v)));
                assert forall|a: int, b: int| 0 <= a < b < nv.len() implies key_lt(
                    #[trigger] nv[a].0,
                    #[trigger] nv[b].0,
                ) by {
                    assert(nv[a].0 == old_view[a].0);
                    assert(nv[b].0 == old_view[b].0);
                }
            } else {
                assert(nv =~= old_view.insert(i as int, (ki, v)));
                assert forall|a: int, b: int| 0 <= a < b < nv.len() implies key_lt(
                    #[trigger] nv[a].0,
                    #[trigger] nv[b].0,
                ) by {
                    if b < i {
                        assert(nv[a] == old_view[a] && nv[b] == old_view[b]);
                    } else if b == i {
                        assert(nv[a] == old_view[a]);
                    } else if a == i {
                        assert(nv[b] == old_view[b - 1]);
                        if b - 1 > i {
                            lemma_key_lt_transitive(ki, old_view[i as int].0, old_view[b - 1].0);
                        }
                    } else if a < i {
                        assert(nv[a] == old_view[a] && nv[b] == old_view[b - 1]);
                    } else {
                        assert(nv[a] == old_view[a - 1] && nv[b] == old_view[b - 1]);
                    }
                }
            }
            assert forall|q: Seq<char>| #[trigger]
                lookup(nv, q) == if q == ki {
                    Some(v)
                } else {
                    lookup(old_view, q)
                } by {
                lemma_lookup_some(nv, q);
                lemma_lookup_some(old_view, q);
                if q == ki {
                    lemma_lookup_at(nv, i as int);
                } else {
                    if lookup(old_view, q) is Some {
                        let j = choose|j: int| 0 <= j < old_view.len() && (#[trigger] old_view[j]).0 == q;
                        lemma_lookup_at(old_view, j);
                        if found {
                            assert(nv[j] == old_view[j]);
                            lemma_lookup_at(nv, j);
                        } else if j < i {
                            assert(nv[j] == old_view[j]);
                            lemma_lookup_at(nv, j);
                        } else {
                            assert(nv[j + 1] == old_view[j]);
                            lemma_lookup_at(nv, j + 1);
                        }
                    } else {
                        if lookup(nv, q) is Some {
                            let j = choose|j: int| 0 <= j < nv.len() && (#[trigger] nv[j]).0 == q;
                            if found {
                                assert(nv[j].0 == old_view[j].0);
                            } else if j < i {
                                assert(nv[j] == old_view[j]);
                            } else if j > i {
                                assert(nv[j] == old_view[j - 1]);
                            }
                        }
                    }
                }
            }
        }
    }

    /// Append an entry whose key sorts after every key present.
    pub fn push_last(&mut self, k: String, v: V)
        requires
            old(self).wf(),
            forall|j: int| 0 <= j < old(self)@.len() ==> key_lt(#[trigger] old(self)@[j].0, k@),
        ensures
            final(self).wf(),
            final(self)@ == old(self)@.push((k@, v)),
    {
        let ghost kv = k@;
        self.entries.push((k, v));
        assert(self@ =~= old(self)@.push((kv, v)));
        assert forall|a: int, b: int| 0 <= a < b < self@.len() implies key_lt(
            #[trigger] self@[a].0,
            #[trigger] self@[b].0,
        ) by {
            assert(self@[a] == old(self)@[a]);
            if b < old(self)@.len() {
                assert(self@[b] == old(self)@[b]);
            }
        }
    }

    /// Replace the value of the `i`-th entry by `v` and return the value it held.
    pub fn swap_value_at(&mut self, i: usize, v: V) -> (r: V)
        requires
            old(self).wf(),
            i < old(self)@.len(),
        ensures
            final(self).wf(),
            r == old(self)@[i as int].1,
            final(self)@ == old(self)@.update(i as int, (old(self)@[i as int].0, v)),
            forall|q: Seq<char>| #[trigger]
                lookup(final(self)@, q) == if q == old(self)@[i as int].0 {
                    Some(v)
                } else {
                    lookup(old(self)@, q)
                },
    {
        let (k, old_v) = self.take_at(i);
        self.put_at(i, (k, v));
        let ghost ov = old(self)@;
        let ghost nv = self@;
        assert(nv =~= ov.update(i as int, (ov[i as int].0, v)));
        assert forall|a: int, b: int| 0 <= a < b < nv.len() implies key_lt(
            #[trigger] nv[a].0,
            #[trigger] nv[b].0,
        ) by {
            assert(nv[a].0 == ov[a].0);
            assert(nv[b].0 == ov[b].0);
        }
        assert forall|q: Seq<char>| #[trigger]
            lookup(nv, q) == if q == ov[i as int].0 {
                Some(v)
            } else {
                lookup(ov, q)
            } by {
            lemma_lookup_some(nv, q);
            lemma_lookup_some(ov, q);
            if q == ov[i as int].0 {
                lemma_lookup_at(nv, i as int);
            } else if lookup(ov, q) is Some {
                let j = choose|j: int| 0 <= j < ov.len() && (#[trigger] ov[j]).0 == q;
                lemma_lookup_at(ov, j);
                assert(nv[j] == ov[j]);
                lemma_lookup_at(nv, j);
            } else if lookup(nv, q) is Some {
                let j = choose|j: int| 0 <= j < nv.len() && (#[trigger] nv[j]).0 == q;
                assert(nv[j].0 == ov[j].0);
            }
        }
        old_v
    }

    /// Remove and return the `i`-th entry.
    fn take_at(&mut self, i: usize) -> (r: (String, V))
        requires
            i < old(self)@.len(),
        ensures
            final(self)@ == old(self)@.remove(i as int),
            (r.0@, r.1) == old(self)@[i as int],
    {
        let r = self.entries.remove(i);
        assert(self@ =~= old(self)@.remove(i as int));
        r
    }

    /// Put an entry back at index `i`.
    fn put_at(&mut self, i: usize, e: (String, V))
        requires
            i <= old(self)@.len(),
        ensures
            final(self)@ == old(self)@.insert(i as int, (e.0@, e.1)),
    {
        self.entries.insert(i, e);
        assert(self@ =~= old(self)@.insert(i as int, (e.0@, e.1)));
    }

    /// The keys, in increasing order.
    pub fn keys(&self) -> (r: Vec<String>)
        ensures
            r@.map_values(|s: String| s@) == keys_of(self@),
    {
        let mut out: Vec<String> = Vec::new();
        let mut i: usize = 0;
        while i < self.entries.len()
            invariant
                0 <= i <= self@.len(),
                self@.len() == self.entries@.len(),
                out@.len() == i,
                forall|j: int| 0 <= j < i ==> (#[trigger] out@[j])@ == self@[j].0,
            decreases self@.len() - i,
        {
            assert(self@[i as int].0 == self.entries@[i as int].0@);
            let key = self.entries[i].0.clone();
            out.push(key);
            i = i + 1;
        }
        assert(out@.map_values(|s: String| s@) =~= keys_of(self@));
        out
    }
}

} // verus!
