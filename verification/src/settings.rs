//! Application settings: hotkey bindings, monitor nicknames and a few
//! switches.
//!
//! Both maps are keyed by name and kept in key order, the order the settings
//! file lists them in and the order a lookup by value scans them in.

use vstd::prelude::*;
use crate::model::{assoc_map, keys_distinct, lemma_assoc_map, lemma_assoc_map_finite};
use crate::text::{
    chars_lt, chars_of, is_blank, push_str, str_is_blank, string_of, trim_chars, lemma_chars_lt_asymmetric, lemma_chars_lt_irreflexive,
    lemma_chars_lt_total, lemma_chars_lt_transitive, str_eq, str_less, trim, views,
};

verus! {

// ---------------------------------------------------------------------------
// A map from names to strings, in key order
// ---------------------------------------------------------------------------

/// Pairs whose keys strictly increase.
pub open spec fn sorted_pairs(s: Seq<(Seq<char>, Seq<char>)>) -> bool {
    forall|i: int, j: int| 0 <= i < j < s.len() ==> chars_lt((#[trigger] s[i]).0, (#[trigger] s[j]).0)
}

/// The pairs with their strings taken as character sequences.
pub open spec fn pair_views(v: Seq<(String, String)>) -> Seq<(Seq<char>, Seq<char>)> {
    v.map_values(|e: (String, String)| (e.0@, e.1@))
}

/// The entries of a finite map in key order.
pub open spec fn in_key_order(m: Map<Seq<char>, Seq<char>>) -> Seq<(Seq<char>, Seq<char>)> {
    choose|s: Seq<(Seq<char>, Seq<char>)>| sorted_pairs(s) && assoc_map(s) == m
}

/// `k` is bound to `v`, and no smaller key is.
pub open spec fn is_first_bound(m: Map<Seq<char>, Seq<char>>, v: Seq<char>, k: Seq<char>) -> bool {
    &&& m.contains_key(k)
    &&& m[k] == v
    &&& forall|j: Seq<char>| #[trigger] m.contains_key(j) && m[j] == v ==> !chars_lt(j, k)
}

/// The smallest key bound to `v`, if any key is.
pub open spec fn first_bound(m: Map<Seq<char>, Seq<char>>, v: Seq<char>) -> Option<Seq<char>> {
    if exists|k: Seq<char>| is_first_bound(m, v, k) {
        Some(choose|k: Seq<char>| is_first_bound(m, v, k))
    } else {
        None
    }
}

proof fn lemma_sorted_keys_distinct(s: Seq<(Seq<char>, Seq<char>)>)
    requires
        sorted_pairs(s),
    ensures
        keys_distinct(s),
{
    assert forall|i: int, j: int| 0 <= i < j < s.len() implies (#[trigger] s[i]).0 != (
    #[trigger] s[j]).0 by {
        if s[i].0 == s[j].0 {
            lemma_chars_lt_irreflexive(s[i].0);
        }
    }
}

/// What the map of sorted pairs holds, key by key.
proof fn lemma_sorted_map(s: Seq<(Seq<char>, Seq<char>)>, k: Seq<char>)
    requires
        sorted_pairs(s),
    ensures
        assoc_map(s).contains_key(k) <==> exists|i: int| 0 <= i < s.len() && (#[trigger] s[i]).0 == k,
        forall|i: int| 0 <= i < s.len() && (#[trigger] s[i]).0 == k ==> assoc_map(s)[k] == s[i].1,
        assoc_map(s).dom().finite(),
{
    lemma_sorted_keys_distinct(s);
    lemma_assoc_map(s, k);
    lemma_assoc_map_finite(s);
}

proof fn lemma_sorted_map_all(s: Seq<(Seq<char>, Seq<char>)>)
    requires
        sorted_pairs(s),
    ensures
        forall|i: int| 0 <= i < s.len() ==> #[trigger] assoc_map(s).contains_key(s[i].0) && assoc_map(s)[s[i].0]
            == s[i].1,
        assoc_map(s).dom().finite(),
{
    lemma_assoc_map_finite(s);
    assert forall|i: int| 0 <= i < s.len() implies #[trigger] assoc_map(s).contains_key(s[i].0)
        && assoc_map(s)[s[i].0] == s[i].1 by {
        lemma_sorted_map(s, s[i].0);
    }
}

/// Two sorted pair lists describing the same map are the same list.
proof fn lemma_sorted_pairs_unique(a: Seq<(Seq<char>, Seq<char>)>, b: Seq<(Seq<char>, Seq<char>)>)
    requires
        sorted_pairs(a),
        sorted_pairs(b),
        assoc_map(a) == assoc_map(b),
    ensures
        a == b,
    decreases a.len(),
{
    lemma_sorted_map_all(a);
    lemma_sorted_map_all(b);
    if a.len() == 0 {
        if b.len() > 0 {
            assert(assoc_map(a).contains_key(b[0].0));
            lemma_sorted_map(a, b[0].0);
        }
        assert(a =~= b);
    } else if b.len() == 0 {
        assert(assoc_map(b).contains_key(a[0].0));
        lemma_sorted_map(b, a[0].0);
    } else {
        // The smallest keys agree.
        lemma_sorted_map(b, a[0].0);
        lemma_sorted_map(a, b[0].0);
        let i = choose|i: int| 0 <= i < b.len() && (#[trigger] b[i]).0 == a[0].0;
        let j = choose|j: int| 0 <= j < a.len() && (#[trigger] a[j]).0 == b[0].0;
        if i > 0 {
            if j > 0 {
                lemma_chars_lt_transitive(a[0].0, a[j].0, a[0].0);
                lemma_chars_lt_irreflexive(a[0].0);
            } else {
                lemma_chars_lt_irreflexive(b[0].0);
            }
        }
        assert(a[0].0 == b[0].0);
        assert(a[0].1 == b[0].1);
        let ta = a.drop_first();
        let tb = b.drop_first();
        assert(sorted_pairs(ta)) by {
            assert forall|x: int, y: int| 0 <= x < y < ta.len() implies chars_lt(
                (#[trigger] ta[x]).0,
                (#[trigger] ta[y]).0,
            ) by {
                assert(ta[x] == a[x + 1] && ta[y] == a[y + 1]);
            }
        }
        assert(sorted_pairs(tb)) by {
            assert forall|x: int, y: int| 0 <= x < y < tb.len() implies chars_lt(
                (#[trigger] tb[x]).0,
                (#[trigger] tb[y]).0,
            ) by {
                assert(tb[x] == b[x + 1] && tb[y] == b[y + 1]);
            }
        }
        lemma_sorted_map_all(ta);
        lemma_sorted_map_all(tb);
        assert forall|k: Seq<char>| #[trigger] assoc_map(ta).contains_key(k) implies assoc_map(
            tb,
        ).contains_key(k) && assoc_map(ta)[k] == assoc_map(tb)[k] by {
            lemma_sorted_map(ta, k);
            lemma_sorted_map(tb, k);
            lemma_sorted_map(a, k);
            lemma_sorted_map(b, k);
            let x = choose|x: int| 0 <= x < ta.len() && (#[trigger] ta[x]).0 == k;
            assert(a[x + 1] == ta[x]);
            let y = choose|y: int| 0 <= y < b.len() && (#[trigger] b[y]).0 == k;
            if y == 0 {
                lemma_chars_lt_irreflexive(a[0].0);
            }
            assert(tb[y - 1] == b[y]);
        }
        assert forall|k: Seq<char>| #[trigger] assoc_map(tb).contains_key(k) implies assoc_map(
            ta,
        ).contains_key(k) by {
            lemma_sorted_map(ta, k);
            lemma_sorted_map(tb, k);
            lemma_sorted_map(a, k);
            lemma_sorted_map(b, k);
            let x = choose|x: int| 0 <= x < tb.len() && (#[trigger] tb[x]).0 == k;
            assert(b[x + 1] == tb[x]);
            let y = choose|y: int| 0 <= y < a.len() && (#[trigger] a[y]).0 == k;
            if y == 0 {
                lemma_chars_lt_irreflexive(b[0].0);
            }
            assert(ta[y - 1] == a[y]);
        }
        assert(assoc_map(ta) =~= assoc_map(tb));
        lemma_sorted_pairs_unique(ta, tb);
        assert(a =~= seq![a[0]] + ta);
        assert(b =~= seq![b[0]] + tb);
    }
}

/// A finite, non-empty set of strings has a smallest member.
proof fn lemma_min_exists(s: Set<Seq<char>>)
    requires
        s.finite(),
        s.len() > 0,
    ensures
        exists|k: Seq<char>| s.contains(k) && forall|j: Seq<char>| #[trigger] s.contains(j) ==> !chars_lt(j, k),
    decreases s.len(),
{
    let x = s.choose();
    let r = s.remove(x);
    if r.len() == 0 {
        assert forall|j: Seq<char>| #[trigger] s.contains(j) implies !chars_lt(j, x) by {
            if j != x {
                assert(r.contains(j));
            }
            lemma_chars_lt_irreflexive(x);
        }
    } else {
        lemma_min_exists(r);
        let y = choose|k: Seq<char>| r.contains(k) && forall|j: Seq<char>| #[trigger] r.contains(j) ==> !chars_lt(j, k);
        if chars_lt(x, y) {
            assert forall|j: Seq<char>| #[trigger] s.contains(j) implies !chars_lt(j, x) by {
                if j == x {
                    lemma_chars_lt_irreflexive(x);
                } else {
                    assert(r.contains(j));
                    if chars_lt(j, x) {
                        lemma_chars_lt_transitive(j, x, y);
                    }
                }
            }
        } else {
            assert forall|j: Seq<char>| #[trigger] s.contains(j) implies !chars_lt(j, y) by {
                if j != x {
                    assert(r.contains(j));
                }
            }
        }
    }
}

/// When some key of a finite map is bound to `v`, a smallest one is.
proof fn lemma_some_first_bound(m: Map<Seq<char>, Seq<char>>, v: Seq<char>, j: Seq<char>)
    requires
        m.dom().finite(),
        m.contains_key(j),
        m[j] == v,
    ensures
        exists|k: Seq<char>| is_first_bound(m, v, k),
{
    let bound = m.dom().filter(|k: Seq<char>| m[k] == v);
    vstd::set_lib::lemma_set_subset_finite(m.dom(), bound);
    assert(bound.contains(j));
    lemma_min_exists(bound);
    let k = choose|k: Seq<char>| bound.contains(k) && forall|x: Seq<char>| #[trigger] bound.contains(x) ==> !chars_lt(x, k);
    assert forall|x: Seq<char>| #[trigger] m.contains_key(x) && m[x] == v implies !chars_lt(x, k) by {
        assert(bound.contains(x));
    }
    assert(is_first_bound(m, v, k));
}

/// The only candidate for the smallest key bound to a value.
proof fn lemma_first_bound_unique(m: Map<Seq<char>, Seq<char>>, v: Seq<char>, k: Seq<char>)
    requires
        is_first_bound(m, v, k),
    ensures
        first_bound(m, v) == Some(k),
{
    let c = choose|c: Seq<char>| is_first_bound(m, v, c);
    assert(is_first_bound(m, v, c));
    lemma_chars_lt_total(c, k);
}

/// Names mapped to strings, one value per name, listed in name order.
///
/// A `BTreeMap<String, String>` would give the same order, but vstd models a
/// `BTreeMap` only for keys known to obey its ordering model, and `String` is
/// not among them without an assumption this crate does not make. So the
/// entries are held as a vector sorted by name, and the type invariant
/// (names strictly increasing) gives what the tree gave: one value per name,
/// listed in name order.
pub struct NameMap {
    entries: Vec<(String, String)>,
}

impl View for NameMap {
    type V = Map<Seq<char>, Seq<char>>;

    closed spec fn view(&self) -> Map<Seq<char>, Seq<char>> {
        assoc_map(pair_views(self.entries@))
    }
}

impl NameMap {
    #[verifier::type_invariant]
    closed spec fn wf(self) -> bool {
        sorted_pairs(pair_views(self.entries@))
    }

    /// The empty map.
    pub fn new() -> (m: NameMap)
        ensures
            m@ == Map::<Seq<char>, Seq<char>>::empty(),
    {
        let m = NameMap { entries: Vec::new() };
        assert(pair_views(m.entries@) =~= Seq::<(Seq<char>, Seq<char>)>::empty());
        m
    }

    /// How many names are bound.
    pub fn len(&self) -> (n: usize)
        ensures
            self@.dom().finite(),
            n == self@.dom().len(),
    {
        proof {
            use_type_invariant(self);
            lemma_sorted_len(pair_views(self.entries@));
        }
        self.entries.len()
    }

    /// Is nothing bound?
    pub fn is_empty(&self) -> (b: bool)
        ensures
            b == (self@ == Map::<Seq<char>, Seq<char>>::empty()),
    {
        proof {
            use_type_invariant(self);
            let s = pair_views(self.entries@);
            if s.len() > 0 {
                lemma_sorted_map(s, s[0].0);
                assert(self@.contains_key(s[0].0));
            } else {
                assert(self@ =~= Map::<Seq<char>, Seq<char>>::empty());
            }
        }
        self.entries.len() == 0
    }

    /// Position of `key` among the entries, or where it would go.
    fn position(&self, key: &str) -> (out: (usize, bool))
        ensures
            out.0 <= self.entries@.len(),
            forall|k: int| 0 <= k < out.0 ==> chars_lt((#[trigger] pair_views(self.entries@)[k]).0, key@),
            out.1 ==> out.0 < self.entries@.len() && pair_views(self.entries@)[out.0 as int].0 == key@,
            !out.1 ==> out.0 == self.entries@.len() || chars_lt(
                key@,
                pair_views(self.entries@)[out.0 as int].0,
            ),
    {
        proof {
            use_type_invariant(self);
        }
        let ghost s = pair_views(self.entries@);
        let mut i: usize = 0;
        while i < self.entries.len() && str_less(self.entries[i].0.as_str(), key)
            invariant
                i <= self.entries@.len(),
                s == pair_views(self.entries@),
                forall|k: int| 0 <= k < i ==> chars_lt((#[trigger] s[k]).0, key@),
            decreases self.entries.len() - i,
        {
            assert(s[i as int].0 == self.entries@[i as int].0@);
            i = i + 1;
        }
        if i < self.entries.len() {
            assert(s[i as int].0 == self.entries@[i as int].0@);
            if str_eq(self.entries[i].0.as_str(), key) {
                return (i, true);
            }
            proof {
                lemma_chars_lt_total(s[i as int].0, key@);
            }
        }
        (i, false)
    }

    /// The value bound to `key`.
    pub fn get(&self, key: &str) -> (out: Option<&String>)
        ensures
            match out {
                Some(v) => self@.contains_key(key@) && v@ == self@[key@],
                None => !self@.contains_key(key@),
            },
    {
        proof {
            use_type_invariant(self);
        }
        let (i, found) = self.position(key);
        proof {
            let s = pair_views(self.entries@);
            lemma_sorted_map(s, key@);
            if !found {
                if exists|j: int| 0 <= j < s.len() && (#[trigger] s[j]).0 == key@ {
                    let j = choose|j: int| 0 <= j < s.len() && (#[trigger] s[j]).0 == key@;
                    if j < i {
                        lemma_chars_lt_irreflexive(key@);
                    } else if j > i {
                        lemma_chars_lt_transitive(key@, s[i as int].0, s[j].0);
                        lemma_chars_lt_irreflexive(key@);
                    } else {
                        lemma_chars_lt_irreflexive(key@);
                    }
                }
            }
        }
        if found {
            Some(&self.entries[i].1)
        } else {
            None
        }
    }

    /// Is `key` bound?
    pub fn contains_key(&self, key: &str) -> (b: bool)
        ensures
            b == self@.contains_key(key@),
    {
        self.get(key).is_some()
    }

    /// Bind `key` to `value`, handing back what it was bound to before.
    pub fn insert(&mut self, key: String, value: String) -> (prev: Option<String>)
        ensures
            final(self)@ == old(self)@.insert(key@, value@),
            match prev {
                Some(v) => old(self)@.contains_key(key@) && v@ == old(self)@[key@],
                None => !old(self)@.contains_key(key@),
            },
    {
        proof {
            use_type_invariant(&*self);
        }
        let (i, found) = self.position(key.as_str());
        let ghost s = pair_views(self.entries@);
        let ghost kv = key@;
        let ghost vv = value@;
        proof {
            lemma_sorted_map(s, kv);
            lemma_sorted_map_all(s);
        }
        let mut entries: Vec<(String, String)> = Vec::new();
        std::mem::swap(&mut entries, &mut self.entries);
        assert(pair_views(entries@) == s);
        if found {
            let ghost old_entries = entries@;
            let (_, before) = entries.remove(i);
            assert(before@ == s[i as int].1) by {
                assert(old_entries[i as int].1@ == s[i as int].1);
            }
            entries.insert(i, (key, value));
            proof {
                let t = s.update(i as int, (kv, vv));
                assert(pair_views(entries@) =~= t);
                assert(sorted_pairs(t)) by {
                    assert forall|a: int, b: int| 0 <= a < b < t.len() implies chars_lt(
                        (#[trigger] t[a]).0,
                        (#[trigger] t[b]).0,
                    ) by {
                        assert(t[a].0 == s[a].0 && t[b].0 == s[b].0);
                    }
                }
                lemma_sorted_map_all(t);
                assert forall|x: Seq<char>| #[trigger] assoc_map(t).contains_key(x) == assoc_map(
                    s,
                ).insert(kv, vv).contains_key(x) by {
                    lemma_sorted_map(t, x);
                    lemma_sorted_map(s, x);
                    if exists|j: int| 0 <= j < s.len() && (#[trigger] s[j]).0 == x {
                        let j = choose|j: int| 0 <= j < s.len() && (#[trigger] s[j]).0 == x;
                        assert(t[j].0 == x);
                    }
                    if exists|j: int| 0 <= j < t.len() && (#[trigger] t[j]).0 == x {
                        let j = choose|j: int| 0 <= j < t.len() && (#[trigger] t[j]).0 == x;
                        assert(s[j].0 == x);
                    }
                }
                assert forall|x: Seq<char>| #[trigger] assoc_map(t).contains_key(x) implies assoc_map(
                    t,
                )[x] == assoc_map(s).insert(kv, vv)[x] by {
                    lemma_sorted_map(t, x);
                    lemma_sorted_map(s, x);
                    let j = choose|j: int| 0 <= j < t.len() && (#[trigger] t[j]).0 == x;
                    assert(assoc_map(t)[x] == t[j].1);
                    if j != i {
                        assert(t[j] == s[j]);
                        assert(assoc_map(s)[x] == s[j].1);
                        if x == kv {
                            assert(t[i as int].0 == kv);
                            lemma_chars_lt_irreflexive(kv);
                        }
                    }
                }
                assert(assoc_map(t) =~= assoc_map(s).insert(kv, vv));
                assert(assoc_map(s)[kv] == s[i as int].1);
            }
            self.entries = entries;
            assert(assoc_map(s).contains_key(kv));
            Some(before)
        } else {
            proof {
                if exists|j: int| 0 <= j < s.len() && (#[trigger] s[j]).0 == kv {
                    let j = choose|j: int| 0 <= j < s.len() && (#[trigger] s[j]).0 == kv;
                    if j > i {
                        lemma_chars_lt_transitive(kv, s[i as int].0, s[j].0);
                    }
                    lemma_chars_lt_irreflexive(kv);
                }
            }
            entries.insert(i, (key, value));
            proof {
                let t = s.insert(i as int, (kv, vv));
                assert(pair_views(entries@) =~= t);
                assert(sorted_pairs(t)) by {
                    assert forall|a: int, b: int| 0 <= a < b < t.len() implies chars_lt(
                        (#[trigger] t[a]).0,
                        (#[trigger] t[b]).0,
                    ) by {
                        if b < i {
                            assert(t[a] == s[a] && t[b] == s[b]);
                        } else if b == i {
                            assert(t[a] == s[a]);
                        } else if a == i {
                            assert(t[b] == s[b - 1]);
                            if b - 1 > i {
                                lemma_chars_lt_transitive(kv, s[i as int].0, s[b - 1].0);
                            }
                        } else if a < i {
                            assert(t[a] == s[a] && t[b] == s[b - 1]);
                            lemma_chars_lt_transitive(s[a].0, kv, s[i as int].0);
                            if b - 1 > i {
                                lemma_chars_lt_transitive(s[a].0, s[i as int].0, s[b - 1].0);
                            }
                        } else {
                            assert(t[a] == s[a - 1] && t[b] == s[b - 1]);
                        }
                    }
                }
                lemma_sorted_map_all(t);
                assert forall|x: Seq<char>| #[trigger] assoc_map(t).contains_key(x) == assoc_map(
                    s,
                ).insert(kv, vv).contains_key(x) by {
                    lemma_sorted_map(t, x);
                    lemma_sorted_map(s, x);
                    if exists|j: int| 0 <= j < s.len() && (#[trigger] s[j]).0 == x {
                        let j = choose|j: int| 0 <= j < s.len() && (#[trigger] s[j]).0 == x;
                        if j < i {
                            assert(t[j] == s[j]);
                        } else {
                            assert(t[j + 1] == s[j]);
                        }
                    }
                    if x == kv {
                        assert(t[i as int].0 == kv);
                    }
                }
                assert forall|x: Seq<char>| #[trigger] assoc_map(t).contains_key(x) implies assoc_map(
                    t,
                )[x] == assoc_map(s).insert(kv, vv)[x] by {
                    lemma_sorted_map(t, x);
                    lemma_sorted_map(s, x);
                    let j = choose|j: int| 0 <= j < t.len() && (#[trigger] t[j]).0 == x;
                    assert(assoc_map(t)[x] == t[j].1);
                    if j != i && x == kv {
                        assert(t[i as int].0 == kv);
                        lemma_chars_lt_irreflexive(kv);
                    }
                    if j < i {
                        assert(t[j] == s[j]);
                        assert(assoc_map(s)[x] == s[j].1);
                    } else if j > i {
                        assert(t[j] == s[j - 1]);
                        assert(assoc_map(s)[x] == s[j - 1].1);
                    }
                }
                assert(assoc_map(t) =~= assoc_map(s).insert(kv, vv));
            }
            self.entries = entries;
            None
        }
    }

    /// Unbind `key`, handing back what it was bound to.
    pub fn remove(&mut self, key: &str) -> (prev: Option<String>)
        ensures
            final(self)@ == old(self)@.remove(key@),
            match prev {
                Some(v) => old(self)@.contains_key(key@) && v@ == old(self)@[key@],
                None => !old(self)@.contains_key(key@),
            },
    {
        proof {
            use_type_invariant(&*self);
        }
        let (i, found) = self.position(key);
        let ghost s = pair_views(self.entries@);
        let ghost kv = key@;
        proof {
            lemma_sorted_map(s, kv);
            lemma_sorted_map_all(s);
        }
        if !found {
            proof {
                if exists|j: int| 0 <= j < s.len() && (#[trigger] s[j]).0 == kv {
                    let j = choose|j: int| 0 <= j < s.len() && (#[trigger] s[j]).0 == kv;
                    if j > i {
                        lemma_chars_lt_transitive(kv, s[i as int].0, s[j].0);
                    }
                    lemma_chars_lt_irreflexive(kv);
                }
                assert(self@ =~= self@.remove(kv));
            }
            return None;
        }
        let mut entries: Vec<(String, String)> = Vec::new();
        std::mem::swap(&mut entries, &mut self.entries);
        assert(pair_views(entries@) == s);
        let (_, before) = entries.remove(i);
        proof {
            let t = s.remove(i as int);
            assert(pair_views(entries@) =~= t);
            assert(sorted_pairs(t)) by {
                assert forall|a: int, b: int| 0 <= a < b < t.len() implies chars_lt(
                    (#[trigger] t[a]).0,
                    (#[trigger] t[b]).0,
                ) by {
                    if b < i {
                        assert(t[a] == s[a] && t[b] == s[b]);
                    } else if a < i {
                        assert(t[a] == s[a] && t[b] == s[b + 1]);
                    } else {
                        assert(t[a] == s[a + 1] && t[b] == s[b + 1]);
                    }
                }
            }
            lemma_sorted_map_all(t);
            assert forall|x: Seq<char>| #[trigger] assoc_map(t).contains_key(x) == assoc_map(
                s,
            ).remove(kv).contains_key(x) by {
                lemma_sorted_map(t, x);
                lemma_sorted_map(s, x);
                if exists|j: int| 0 <= j < s.len() && (#[trigger] s[j]).0 == x {
                    let j = choose|j: int| 0 <= j < s.len() && (#[trigger] s[j]).0 == x;
                    if j < i {
                        assert(t[j] == s[j]);
                    } else if j > i {
                        assert(t[j - 1] == s[j]);
                    }
                }
                if exists|j: int| 0 <= j < t.len() && (#[trigger] t[j]).0 == x {
                    let j = choose|j: int| 0 <= j < t.len() && (#[trigger] t[j]).0 == x;
                    if j < i {
                        assert(t[j] == s[j]);
                        lemma_chars_lt_irreflexive(kv);
                    } else {
                        assert(t[j] == s[j + 1]);
                        lemma_chars_lt_irreflexive(kv);
                    }
                }
            }
            assert forall|x: Seq<char>| #[trigger] assoc_map(t).contains_key(x) implies assoc_map(t)[x]
                == assoc_map(s).remove(kv)[x] by {
                lemma_sorted_map(t, x);
                lemma_sorted_map(s, x);
                let j = choose|j: int| 0 <= j < t.len() && (#[trigger] t[j]).0 == x;
                if j < i {
                    assert(t[j] == s[j]);
                } else {
                    assert(t[j] == s[j + 1]);
                }
            }
            assert(assoc_map(t) =~= assoc_map(s).remove(kv));
        }
        self.entries = entries;
        Some(before)
    }
}

impl NameMap {
    /// Keep only the names listed in `keep`; reports whether any binding
    /// was dropped.
    pub fn retain_keys(&mut self, keep: &[String]) -> (dropped: bool)
        ensures
            final(self)@ == old(self)@.restrict(views(keep@).to_set()),
            dropped == (final(self)@ != old(self)@),
    {
        proof {
            use_type_invariant(&*self);
        }
        let ghost keepset = views(keep@).to_set();
        let ghost s = pair_views(self.entries@);
        proof {
            lemma_sorted_map_all(s);
        }
        let mut old_entries: Vec<(String, String)> = Vec::new();
        std::mem::swap(&mut old_entries, &mut self.entries);
        assert(pair_views(old_entries@) == s);
        let mut out: Vec<(String, String)> = Vec::new();
        let mut dropped = false;
        let mut j: usize = 0;
        proof {
            assert(pair_views(out@) =~= Seq::<(Seq<char>, Seq<char>)>::empty());
            assert(s.take(0) =~= Seq::<(Seq<char>, Seq<char>)>::empty());
            assert(assoc_map(s.take(0)).restrict(keepset) =~= assoc_map(pair_views(out@)));
        }
        while j < old_entries.len()
            invariant
                j <= old_entries@.len() == s.len(),
                s == pair_views(old_entries@),
                sorted_pairs(s),
                keepset == views(keep@).to_set(),
                sorted_pairs(pair_views(out@)),
                assoc_map(pair_views(out@)) == assoc_map(s.take(j as int)).restrict(keepset),
                forall|a: int| 0 <= a < out@.len() ==> exists|b: int| 0 <= b < j && #[trigger] pair_views(out@)[a] == s[b],
                dropped == exists|b: int| 0 <= b < j && !keepset.contains(#[trigger] s[b].0),
            decreases old_entries.len() - j,
        {
            let ghost before = pair_views(out@);
            let name = old_entries[j].0.as_str();
            assert(name@ == s[j as int].0);
            let listed = name_listed(keep, name);
            let ghost e = s[j as int];
            proof {
                assert(s.take(j + 1).drop_last() =~= s.take(j as int));
                assert(s.take(j + 1).last() == e);
            }
            if listed {
                let k = old_entries[j].0.clone();
                let v = old_entries[j].1.clone();
                out.push((k, v));
                proof {
                    let t = pair_views(out@);
                    assert(t =~= before.push(e));
                    assert(sorted_pairs(t)) by {
                        assert forall|a: int, b: int| 0 <= a < b < t.len() implies chars_lt(
                            (#[trigger] t[a]).0,
                            (#[trigger] t[b]).0,
                        ) by {
                            if b == before.len() {
                                assert(t[a] == before[a]);
                                let c = choose|c: int| 0 <= c < j && #[trigger] before[a] == s[c];
                                assert(t[b] == s[j as int]);
                            } else {
                                assert(t[a] == before[a] && t[b] == before[b]);
                            }
                        }
                    }
                    assert forall|a: int| 0 <= a < t.len() implies exists|b: int| 0 <= b < j + 1 && #[trigger] t[a] == s[b] by {
                        if a < before.len() {
                            assert(t[a] == before[a]);
                            let c = choose|c: int| 0 <= c < j && #[trigger] before[a] == s[c];
                            assert(t[a] == s[c]);
                        } else {
                            assert(t[a] == s[j as int]);
                        }
                    }
                    assert(t.drop_last() =~= before);
                    assert(views(keep@).contains(e.0));
                    assert(keepset.contains(e.0));
                    assert(assoc_map(t) == assoc_map(before).insert(e.0, e.1));
                    assert(assoc_map(s.take(j + 1)) == assoc_map(s.take(j as int)).insert(e.0, e.1));
                    assert(assoc_map(t) =~= assoc_map(s.take(j + 1)).restrict(keepset));
                }
            } else {
                dropped = true;
                proof {
                    assert(!keepset.contains(e.0));
                    assert(assoc_map(pair_views(out@)) =~= assoc_map(s.take(j + 1)).restrict(keepset));
                }
            }
            j = j + 1;
        }
        proof {
            assert(s.take(s.len() as int) =~= s);
            let t = pair_views(out@);
            if dropped {
                let b = choose|b: int| 0 <= b < s.len() && !keepset.contains(#[trigger] s[b].0);
                assert(assoc_map(s).contains_key(s[b].0));
                assert(!assoc_map(t).contains_key(s[b].0));
            } else {
                assert forall|k: Seq<char>| #[trigger] assoc_map(s).contains_key(k) implies keepset.contains(k) by {
                    lemma_sorted_map(s, k);
                    let b = choose|b: int| 0 <= b < s.len() && (#[trigger] s[b]).0 == k;
                    assert(keepset.contains(s[b].0));
                }
                assert(assoc_map(s).restrict(keepset) =~= assoc_map(s));
            }
        }
        self.entries = out;
        dropped
    }

    /// The smallest name bound to `value`.
    pub fn key_for_value(&self, value: &str) -> (out: Option<&str>)
        ensures
            match out {
                Some(k) => first_bound(self@, value@) == Some(k@),
                None => first_bound(self@, value@) is None,
            },
    {
        proof {
            use_type_invariant(self);
        }
        let ghost s = pair_views(self.entries@);
        proof {
            lemma_sorted_map_all(s);
        }
        let mut i: usize = 0;
        while i < self.entries.len()
            invariant
                i <= self.entries@.len(),
                s == pair_views(self.entries@),
                sorted_pairs(s),
                forall|k: int| 0 <= k < i ==> (#[trigger] s[k]).1 != value@,
            decreases self.entries.len() - i,
        {
            assert(s[i as int] == (self.entries@[i as int].0@, self.entries@[i as int].1@));
            if str_eq(self.entries[i].1.as_str(), value) {
                proof {
                    let m = assoc_map(s);
                    let k = s[i as int].0;
                    assert(s[i as int].1 == value@);
                    lemma_sorted_map_all(s);
                    assert(m.contains_key(k) && m[k] == value@);
                    assert forall|j: Seq<char>| #[trigger] m.contains_key(j) && m[j] == value@ implies !chars_lt(
                        j,
                        k,
                    ) by {
                        lemma_sorted_map(s, j);
                        let x = choose|x: int| 0 <= x < s.len() && (#[trigger] s[x]).0 == j;
                        if x < i {
                            assert(s[x].1 == m[j]);
                        } else if x > i {
                            lemma_chars_lt_asymmetric(k, j);
                        } else {
                            lemma_chars_lt_irreflexive(k);
                        }
                    }
                    assert(is_first_bound(m, value@, k));
                    lemma_first_bound_unique(m, value@, k);
                }
                return Some(self.entries[i].0.as_str());
            }
            i = i + 1;
        }
        proof {
            let m = assoc_map(s);
            if exists|k: Seq<char>| is_first_bound(m, value@, k) {
                let k = choose|k: Seq<char>| is_first_bound(m, value@, k);
                lemma_sorted_map(s, k);
                let x = choose|x: int| 0 <= x < s.len() && (#[trigger] s[x]).0 == k;
                assert(s[x].1 == m[k]);
            }
        }
        None
    }

    /// The bindings in name order.
    pub fn entries(&self) -> (out: Vec<(String, String)>)
        ensures
            pair_views(out@) == in_key_order(self@),
    {
        proof {
            use_type_invariant(self);
        }
        let ghost s = pair_views(self.entries@);
        let mut out: Vec<(String, String)> = Vec::new();
        let mut i: usize = 0;
        while i < self.entries.len()
            invariant
                i <= self.entries@.len(),
                s == pair_views(self.entries@),
                pair_views(out@) == s.take(i as int),
            decreases self.entries.len() - i,
        {
            let k = self.entries[i].0.clone();
            let v = self.entries[i].1.clone();
            let ghost before = pair_views(out@);
            out.push((k, v));
            assert(pair_views(out@) =~= before.push(s[i as int]));
            assert(s.take(i + 1) =~= s.take(i as int).push(s[i as int]));
            i = i + 1;
        }
        proof {
            assert(s.take(s.len() as int) =~= s);
            assert(sorted_pairs(s) && assoc_map(s) == self@);
            let c = in_key_order(self@);
            assert(sorted_pairs(c) && assoc_map(c) == self@);
            lemma_sorted_pairs_unique(s, c);
        }
        out
    }
}

/// Is `name` among `names`?
pub fn name_listed(names: &[String], name: &str) -> (b: bool)
    ensures
        b == views(names@).contains(name@),
{
    let mut i: usize = 0;
    while i < names.len()
        invariant
            i <= names@.len(),
            forall|k: int| 0 <= k < i ==> (#[trigger] names@[k])@ != name@,
        decreases names.len() - i,
    {
        if str_eq(names[i].as_str(), name) {
            assert(views(names@)[i as int] == name@);
            return true;
        }
        i = i + 1;
    }
    proof {
        if views(names@).contains(name@) {
            let k = choose|k: int| 0 <= k < views(names@).len() && views(names@)[k] == name@;
            assert(names@[k]@ == name@);
        }
    }
    false
}

proof fn lemma_sorted_len(s: Seq<(Seq<char>, Seq<char>)>)
    requires
        sorted_pairs(s),
    ensures
        assoc_map(s).dom().finite(),
        assoc_map(s).dom().len() == s.len(),
    decreases s.len(),
{
    lemma_assoc_map_finite(s);
    if s.len() > 0 {
        let t = s.drop_last();
        assert(sorted_pairs(t)) by {
            assert forall|x: int, y: int| 0 <= x < y < t.len() implies chars_lt(
                (#[trigger] t[x]).0,
                (#[trigger] t[y]).0,
            ) by {
                assert(t[x] == s[x] && t[y] == s[y]);
            }
        }
        lemma_sorted_len(t);
        lemma_sorted_map(t, s.last().0);
        if assoc_map(t).contains_key(s.last().0) {
            let i = choose|i: int| 0 <= i < t.len() && (#[trigger] t[i]).0 == s.last().0;
            assert(t[i] == s[i]);
            lemma_chars_lt_irreflexive(s.last().0);
        }
    }
}

} // verus!

verus! {

// ---------------------------------------------------------------------------
// Settings
// ---------------------------------------------------------------------------

/// The longest nickname a monitor may be given, in characters.
pub const MAX_NICKNAME_CHARS: usize = 32;

/// Application settings.
pub struct Settings {
    /// Profile name to keyboard accelerator, such as "CmdOrControl+Alt+1".
    pub hotkeys: NameMap,
    /// Look for a newer release on launch.
    pub check_for_updates: bool,
    /// Nicknames for monitors, keyed by the monitor's stable key, so two
    /// monitors of the same model can be told apart.
    pub monitor_names: NameMap,
    /// Has the first-run guide been completed?
    pub onboarding_complete: bool,
}

impl Default for Settings {
    /// No hotkeys, no nicknames, update checks on.
    fn default() -> (s: Settings)
        ensures
            s.hotkeys@ == Map::<Seq<char>, Seq<char>>::empty(),
            s.check_for_updates,
            s.monitor_names@ == Map::<Seq<char>, Seq<char>>::empty(),
            !s.onboarding_complete,
    {
        Settings {
            hotkeys: NameMap::new(),
            check_for_updates: true,
            monitor_names: NameMap::new(),
            onboarding_complete: false,
        }
    }
}

/// What a requested accelerator or nickname comes to: the text trimmed, or
/// nothing when it is missing or blank.
pub open spec fn requested(text: Option<Seq<char>>) -> Option<Seq<char>> {
    match text {
        Some(t) => if is_blank(t) {
            None
        } else {
            Some(trim(t))
        },
        None => None,
    }
}

pub open spec fn opt_string_view(o: Option<String>) -> Option<Seq<char>> {
    match o {
        Some(s) => Some(s@),
        None => None,
    }
}

/// The message for an accelerator that does not parse.
pub open spec fn unusable_text(accelerator: Seq<char>) -> Seq<char> {
    accelerator + " is not a usable key combination."@
}

/// The message for an accelerator another profile holds.
pub open spec fn taken_text(accelerator: Seq<char>, other: Seq<char>) -> Seq<char> {
    accelerator + " is already assigned to "@ + other + "."@
}

/// The message for a nickname that is too long.
pub open spec fn long_nickname_text() -> Seq<char> {
    "Keep the nickname to 32 characters or fewer."@
}

/// Does binding `accelerator` to `name` leave it resolving to `name`? It
/// does unless a smaller name already holds it.
pub open spec fn may_bind(hotkeys: Map<Seq<char>, Seq<char>>, name: Seq<char>, accelerator: Seq<char>) -> bool {
    match first_bound(hotkeys, accelerator) {
        Some(other) => other == name,
        None => true,
    }
}

/// The hotkeys once `set_hotkey` has run: the binding cleared for a missing
/// or blank request, left alone for an unusable or taken accelerator, and set
/// otherwise.
pub open spec fn hotkeys_after_set(
    hotkeys: Map<Seq<char>, Seq<char>>,
    name: Seq<char>,
    request: Option<Seq<char>>,
    usable: bool,
) -> Map<Seq<char>, Seq<char>> {
    match request {
        None => hotkeys.remove(name),
        Some(a) => if usable && may_bind(hotkeys, name, a) {
            hotkeys.insert(name, a)
        } else {
            hotkeys
        },
    }
}

/// No accelerator is bound to two profiles.
pub open spec fn values_distinct(m: Map<Seq<char>, Seq<char>>) -> bool {
    forall|j: Seq<char>, k: Seq<char>|
        #![trigger m[j], m[k]]
        m.contains_key(j) && m.contains_key(k) && j != k ==> m[j] != m[k]
}

/// `text` trimmed, as a new string.
fn trimmed(text: &str) -> (out: String)
    ensures
        out@ == trim(text@),
{
    let cs = chars_of(text);
    string_of(&trim_chars(&cs))
}

/// The requested text, trimmed, unless it is missing or blank.
pub fn requested_text(text: Option<String>) -> (out: Option<String>)
    ensures
        opt_string_view(out) == requested(opt_string_view(text)),
{
    match text {
        Some(t) => {
            if str_is_blank(t.as_str()) {
                None
            } else {
                Some(trimmed(t.as_str()))
            }
        },
        None => None,
    }
}

impl Settings {
    /// Drop hotkeys whose profile no longer exists; reports whether any were
    /// dropped.
    pub fn prune_hotkeys(&mut self, existing: &[String]) -> (changed: bool)
        ensures
            final(self).hotkeys@ == old(self).hotkeys@.restrict(views(existing@).to_set()),
            changed == (final(self).hotkeys@ != old(self).hotkeys@),
            final(self).monitor_names@ == old(self).monitor_names@,
            final(self).check_for_updates == old(self).check_for_updates,
            final(self).onboarding_complete == old(self).onboarding_complete,
    {
        self.hotkeys.retain_keys(existing)
    }

    /// Which profile, if any, is bound to this accelerator: the first in
    /// name order.
    pub fn profile_for_accelerator(&self, accelerator: &str) -> (out: Option<&str>)
        ensures
            match out {
                Some(name) => first_bound(self.hotkeys@, accelerator@) == Some(name@),
                None => first_bound(self.hotkeys@, accelerator@) is None,
            },
    {
        self.hotkeys.key_for_value(accelerator)
    }

    /// Bind or clear a profile's hotkey.
    ///
    /// A missing or blank accelerator clears the binding. Otherwise the
    /// trimmed accelerator is bound, unless it is not usable (`usable`
    /// reports whether it parses as a key combination) or another profile
    /// already holds it, because a second registration would silently lose.
    pub fn set_hotkey(&mut self, name: String, accelerator: Option<String>, usable: bool) -> (r: Result<(), String>)
        ensures
            final(self).monitor_names@ == old(self).monitor_names@,
            final(self).check_for_updates == old(self).check_for_updates,
            final(self).onboarding_complete == old(self).onboarding_complete,
            match requested(opt_string_view(accelerator)) {
                None => r is Ok && final(self).hotkeys@ == old(self).hotkeys@.remove(name@),
                Some(a) => if !usable {
                    r matches Err(e) && e@ == unusable_text(a) && final(self).hotkeys@ == old(self).hotkeys@
                } else if !may_bind(old(self).hotkeys@, name@, a) {
                    r matches Err(e) && e@ == taken_text(a, first_bound(old(self).hotkeys@, a)->0)
                        && final(self).hotkeys@ == old(self).hotkeys@
                } else {
                    r is Ok && final(self).hotkeys@ == old(self).hotkeys@.insert(name@, a)
                },
            },
            final(self).hotkeys@ == hotkeys_after_set(
                old(self).hotkeys@,
                name@,
                requested(opt_string_view(accelerator)),
                usable,
            ),
    {
        match requested_text(accelerator) {
            None => {
                self.hotkeys.remove(name.as_str());
                Ok(())
            },
            Some(a) => {
                if !usable {
                    let mut e = a;
                    push_str(&mut e, " is not a usable key combination.");
                    return Err(e);
                }
                match self.profile_for_accelerator(a.as_str()) {
                    Some(other) => {
                        if !str_eq(other, name.as_str()) {
                            let mut e = a.clone();
                            push_str(&mut e, " is already assigned to ");
                            push_str(&mut e, other);
                            push_str(&mut e, ".");
                            return Err(e);
                        }
                    },
                    None => {},
                }
                self.hotkeys.insert(name, a);
                Ok(())
            },
        }
    }

    /// Give a monitor a nickname, or clear it with a missing or blank one.
    /// The nickname is trimmed, and refused when longer than 32 characters.
    pub fn set_monitor_name(&mut self, key: String, nickname: Option<String>) -> (r: Result<(), String>)
        ensures
            final(self).hotkeys@ == old(self).hotkeys@,
            final(self).check_for_updates == old(self).check_for_updates,
            final(self).onboarding_complete == old(self).onboarding_complete,
            match requested(opt_string_view(nickname)) {
                None => r is Ok && final(self).monitor_names@ == old(self).monitor_names@.remove(key@),
                Some(n) => if n.len() > MAX_NICKNAME_CHARS {
                    r matches Err(e) && e@ == long_nickname_text() && final(self).monitor_names@
                        == old(self).monitor_names@
                } else {
                    r is Ok && final(self).monitor_names@ == old(self).monitor_names@.insert(key@, n)
                },
            },
    {
        match requested_text(nickname) {
            None => {
                self.monitor_names.remove(key.as_str());
                Ok(())
            },
            Some(n) => {
                let count = chars_of(n.as_str()).len();
                if count > MAX_NICKNAME_CHARS {
                    let mut e = String::new();
                    push_str(&mut e, "Keep the nickname to 32 characters or fewer.");
                    return Err(e);
                }
                self.monitor_names.insert(key, n);
                Ok(())
            },
        }
    }

    /// Release the hotkey a deleted profile held; reports whether it held one.
    pub fn forget_hotkey(&mut self, name: &str) -> (removed: bool)
        ensures
            final(self).hotkeys@ == old(self).hotkeys@.remove(name@),
            removed == old(self).hotkeys@.contains_key(name@),
            final(self).monitor_names@ == old(self).monitor_names@,
            final(self).check_for_updates == old(self).check_for_updates,
            final(self).onboarding_complete == old(self).onboarding_complete,
    {
        self.hotkeys.remove(name).is_some()
    }

    /// Carry a renamed profile's hotkey across to its new name; reports
    /// whether it had one.
    pub fn move_hotkey(&mut self, from: &str, to: String) -> (moved: bool)
        ensures
            moved == old(self).hotkeys@.contains_key(from@),
            final(self).hotkeys@ == if moved {
                old(self).hotkeys@.remove(from@).insert(to@, old(self).hotkeys@[from@])
            } else {
                old(self).hotkeys@
            },
            final(self).monitor_names@ == old(self).monitor_names@,
            final(self).check_for_updates == old(self).check_for_updates,
            final(self).onboarding_complete == old(self).onboarding_complete,
    {
        match self.hotkeys.remove(from) {
            Some(accelerator) => {
                self.hotkeys.insert(to, accelerator);
                true
            },
            None => {
                proof {
                    assert(old(self).hotkeys@.remove(from@) =~= old(self).hotkeys@);
                }
                false
            },
        }
    }
}

// ---------------------------------------------------------------------------
// Laws
// ---------------------------------------------------------------------------

/// Pruning twice with the same list of profiles changes nothing the second
/// time.
pub proof fn law_pruning_twice_changes_nothing(hotkeys: Map<Seq<char>, Seq<char>>, existing: Seq<String>)
    ensures
        hotkeys.restrict(views(existing).to_set()).restrict(views(existing).to_set()) == hotkeys.restrict(
            views(existing).to_set(),
        ),
{
    let s = views(existing).to_set();
    assert(hotkeys.restrict(s).restrict(s) =~= hotkeys.restrict(s));
}

/// An accelerator bound to exactly one profile resolves back to that
/// profile.
pub proof fn law_unique_accelerator_resolves_to_its_profile(
    hotkeys: Map<Seq<char>, Seq<char>>,
    name: Seq<char>,
    accelerator: Seq<char>,
)
    requires
        hotkeys.contains_key(name),
        hotkeys[name] == accelerator,
        forall|other: Seq<char>| #[trigger] hotkeys.contains_key(other) && hotkeys[other] == accelerator ==> other == name,
    ensures
        first_bound(hotkeys, accelerator) == Some(name),
{
    lemma_chars_lt_irreflexive(name);
    assert(is_first_bound(hotkeys, accelerator, name));
    lemma_first_bound_unique(hotkeys, accelerator, name);
}

/// A hotkey that was accepted resolves to the profile it was bound to: once
/// binding `accelerator` to `name` is allowed, the accelerator leads back to
/// `name`.
pub proof fn law_accepted_hotkey_resolves_to_its_profile(
    hotkeys: Map<Seq<char>, Seq<char>>,
    name: Seq<char>,
    accelerator: Seq<char>,
)
    requires
        hotkeys.dom().finite(),
        may_bind(hotkeys, name, accelerator),
    ensures
        first_bound(hotkeys.insert(name, accelerator), accelerator) == Some(name),
{
    let m = hotkeys.insert(name, accelerator);
    assert forall|j: Seq<char>| #[trigger] m.contains_key(j) && m[j] == accelerator implies !chars_lt(j, name) by {
        if j == name {
            lemma_chars_lt_irreflexive(name);
        } else {
            assert(hotkeys.contains_key(j) && hotkeys[j] == accelerator);
            // Some key is bound to the accelerator, so a smallest one exists,
            // and binding is allowed only when that one is `name`.
            lemma_some_first_bound(hotkeys, accelerator, j);
            let f = choose|k: Seq<char>| is_first_bound(hotkeys, accelerator, k);
            assert(f == name);
        }
    }
    assert(is_first_bound(m, accelerator, name));
    lemma_first_bound_unique(m, accelerator, name);
}

/// An accelerator resolves to no profile exactly when no profile is bound to
/// it; when it resolves, it resolves to a profile bound to it, and no profile
/// bound to it comes earlier in name order.
pub proof fn law_unbound_accelerator_resolves_to_nothing(hotkeys: Map<Seq<char>, Seq<char>>, accelerator: Seq<char>)
    requires
        hotkeys.dom().finite(),
    ensures
        first_bound(hotkeys, accelerator) is None <==> forall|k: Seq<char>|
            #[trigger] hotkeys.contains_key(k) ==> hotkeys[k] != accelerator,
        first_bound(hotkeys, accelerator) matches Some(n) ==> is_first_bound(hotkeys, accelerator, n),
{
    if exists|k: Seq<char>| #[trigger] hotkeys.contains_key(k) && hotkeys[k] == accelerator {
        let k = choose|k: Seq<char>| #[trigger] hotkeys.contains_key(k) && hotkeys[k] == accelerator;
        lemma_some_first_bound(hotkeys, accelerator, k);
    }
}

/// Setting a hotkey never leaves one accelerator bound to two profiles,
/// whatever the request and whether or not it is refused.
pub proof fn law_set_hotkey_keeps_accelerators_distinct(
    hotkeys: Map<Seq<char>, Seq<char>>,
    name: Seq<char>,
    request: Option<Seq<char>>,
    usable: bool,
)
    requires
        hotkeys.dom().finite(),
        values_distinct(hotkeys),
    ensures
        values_distinct(hotkeys_after_set(hotkeys, name, request, usable)),
{
    let after = hotkeys_after_set(hotkeys, name, request, usable);
    match request {
        None => {},
        Some(a) => {
            if usable && may_bind(hotkeys, name, a) {
                assert forall|j: Seq<char>, k: Seq<char>|
                    after.contains_key(j) && after.contains_key(k) && j != k implies #[trigger] after[j]
                    != #[trigger] after[k] by {
                    if j == name || k == name {
                        let o = if j == name { k } else { j };
                        if hotkeys[o] == a {
                            // `o` holds the accelerator, so a smallest holder exists,
                            // and binding was allowed only because that holder is
                            // `name`, which then held it too.
                            lemma_some_first_bound(hotkeys, a, o);
                            let f = choose|f: Seq<char>| is_first_bound(hotkeys, a, f);
                            lemma_first_bound_unique(hotkeys, a, f);
                            assert(hotkeys[o] == hotkeys[name]);
                        }
                    } else {
                        assert(hotkeys[j] != hotkeys[k]);
                    }
                }
            }
        },
    }
}

/// Renaming a profile and renaming it back leaves the hotkeys as they were,
/// when the intermediate name held no hotkey of its own.
pub proof fn law_moving_a_hotkey_back_restores_it(
    hotkeys: Map<Seq<char>, Seq<char>>,
    from: Seq<char>,
    to: Seq<char>,
)
    requires
        hotkeys.contains_key(from),
        !hotkeys.contains_key(to),
    ensures
        ({
            let moved = hotkeys.remove(from).insert(to, hotkeys[from]);
            moved.remove(to).insert(from, moved[to]) == hotkeys
        }),
{
    let moved = hotkeys.remove(from).insert(to, hotkeys[from]);
    assert(moved.remove(to).insert(from, moved[to]) =~= hotkeys);
}

} // verus!
