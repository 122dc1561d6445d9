use vstd::prelude::*;

verus! {

/// The character sequences that a list of string pairs holds.
pub open spec fn pair_views(es: Seq<(String, String)>) -> Seq<(Seq<char>, Seq<char>)> {
    es.map_values(|p: (String, String)| (p.0@, p.1@))
}

/// The map that a list of key-value pairs builds when each pair is inserted
/// in turn, a later pair replacing an earlier one with the same key.
pub open spec fn entries_map(es: Seq<(Seq<char>, Seq<char>)>) -> Map<Seq<char>, Seq<char>>
    decreases es.len(),
{
    if es.len() == 0 {
        Map::empty()
    } else {
        entries_map(es.drop_last()).insert(es.last().0, es.last().1)
    }
}

/// No key occurs twice in the list.
pub open spec fn keys_distinct(es: Seq<(Seq<char>, Seq<char>)>) -> bool {
    forall|i: int, j: int|
        0 <= i < es.len() && 0 <= j < es.len() && i != j ==> #[trigger] es[i].0 != #[trigger] es[j].0
}

/// The list holds exactly the entries of `m`, each once.
pub open spec fn enumerates(es: Seq<(Seq<char>, Seq<char>)>, m: Map<Seq<char>, Seq<char>>) -> bool {
    keys_distinct(es) && entries_map(es) == m
}

/// The value of the first pair with key `k`, as a map's `get` gives it when
/// no key occurs twice.
pub open spec fn lookup(es: Seq<(Seq<char>, Seq<char>)>, k: Seq<char>) -> Option<Seq<char>>
    decreases es.len(),
{
    if es.len() == 0 {
        None
    } else if es[0].0 == k {
        Some(es[0].1)
    } else {
        lookup(es.drop_first(), k)
    }
}

/// A key is in the built map exactly when some pair carries it.
pub proof fn lemma_entries_map_keys(es: Seq<(Seq<char>, Seq<char>)>, k: Seq<char>)
    ensures
        entries_map(es).contains_key(k) <==> exists|i: int| 0 <= i < es.len() && #[trigger] es[i].0 == k,
    decreases es.len(),
{
    if es.len() > 0 {
        lemma_entries_map_keys(es.drop_last(), k);
        if entries_map(es).contains_key(k) {
            if es.last().0 == k {
                assert(es[es.len() - 1].0 == k);
            } else {
                let i = choose|i: int| 0 <= i < es.drop_last().len() && #[trigger] es.drop_last()[i].0 == k;
                assert(es[i].0 == k);
            }
        }
        if exists|i: int| 0 <= i < es.len() && #[trigger] es[i].0 == k {
            let i = choose|i: int| 0 <= i < es.len() && #[trigger] es[i].0 == k;
            if i < es.len() - 1 {
                assert(es.drop_last()[i].0 == k);
            }
        }
    }
}

/// With distinct keys, the built map gives each pair's value for its key.
pub proof fn lemma_entries_map_value(es: Seq<(Seq<char>, Seq<char>)>, i: int)
    requires
        keys_distinct(es),
        0 <= i < es.len(),
    ensures
        entries_map(es).contains_key(es[i].0),
        entries_map(es)[es[i].0] == es[i].1,
    decreases es.len(),
{
    if i < es.len() - 1 {
        assert(es.drop_last()[i] == es[i]);
        assert(keys_distinct(es.drop_last())) by {
            assert forall|a: int, b: int|
                0 <= a < es.drop_last().len() && 0 <= b < es.drop_last().len() && a != b implies
                #[trigger] es.drop_last()[a].0 != #[trigger] es.drop_last()[b].0 by {
                assert(es.drop_last()[a] == es[a]);
                assert(es.drop_last()[b] == es[b]);
            }
        }
        lemma_entries_map_value(es.drop_last(), i);
        assert(es[es.len() - 1].0 != es[i].0);
    }
}

/// With distinct keys, replacing the value of one pair inserts it in the map.
pub proof fn lemma_entries_map_update(es: Seq<(Seq<char>, Seq<char>)>, i: int, v: Seq<char>)
    requires
        keys_distinct(es),
        0 <= i < es.len(),
    ensures
        entries_map(es.update(i, (es[i].0, v))) == entries_map(es).insert(es[i].0, v),
    decreases es.len(),
{
    let k = es[i].0;
    let es2 = es.update(i, (k, v));
    if i == es.len() - 1 {
        assert(es2.drop_last() =~= es.drop_last());
        assert(entries_map(es2) =~= entries_map(es).insert(k, v));
    } else {
        let d = es.drop_last();
        assert(es2.drop_last() =~= d.update(i, (k, v)));
        assert(d[i] == es[i]);
        assert(keys_distinct(d)) by {
            assert forall|a: int, b: int| 0 <= a < d.len() && 0 <= b < d.len() && a != b implies
                #[trigger] d[a].0 != #[trigger] d[b].0 by {
                assert(d[a] == es[a]);
                assert(d[b] == es[b]);
            }
        }
        lemma_entries_map_update(d, i, v);
        assert(es[es.len() - 1].0 != k);
        assert(es2.last() == es.last());
        assert(entries_map(es2) =~= entries_map(es).insert(k, v));
    }
}

/// `lookup` of a key that the last pair does not carry ignores that pair,
/// and a key that no earlier pair carries finds the last pair's value.
pub proof fn lemma_lookup_push(es: Seq<(Seq<char>, Seq<char>)>, k: Seq<char>, v: Seq<char>, q: Seq<char>)
    ensures
        lookup(es.push((k, v)), q) == (if lookup(es, q) is Some {
            lookup(es, q)
        } else if q == k {
            Some(v)
        } else {
            None
        }),
    decreases es.len(),
{
    if es.len() == 0 {
        assert(es.push((k, v)).drop_first() =~= Seq::<(Seq<char>, Seq<char>)>::empty());
    } else {
        assert(es.push((k, v)).drop_first() =~= es.drop_first().push((k, v)));
        lemma_lookup_push(es.drop_first(), k, v, q);
    }
}

/// A lookup in two lists one after the other finds the first list's value,
/// else the second's.
pub proof fn lemma_lookup_concat(a: Seq<(Seq<char>, Seq<char>)>, b: Seq<(Seq<char>, Seq<char>)>, q: Seq<char>)
    ensures
        lookup(a + b, q) == (if lookup(a, q) is Some {
            lookup(a, q)
        } else {
            lookup(b, q)
        }),
    decreases a.len(),
{
    if a.len() == 0 {
        assert(a + b =~= b);
    } else {
        assert((a + b).drop_first() =~= a.drop_first() + b);
        assert((a + b)[0] == a[0]);
        lemma_lookup_concat(a.drop_first(), b, q);
    }
}

/// Where `k` is, in a list of pairs, if anywhere.
pub fn find_key(es: &Vec<(String, String)>, k: &String) -> (r: Option<usize>)
    ensures
        match r {
            Some(i) => i < es@.len() && pair_views(es@)[i as int].0 == k@ && forall|j: int|
                0 <= j < i ==> pair_views(es@)[j].0 != k@,
            None => forall|j: int| 0 <= j < es@.len() ==> pair_views(es@)[j].0 != k@,
        },
{
    let mut i: usize = 0;
    while i < es.len()
        invariant
            i <= es@.len(),
            forall|j: int| 0 <= j < i ==> pair_views(es@)[j].0 != k@,
        decreases es@.len() - i,
    {
        if es[i].0 == *k {
            return Some(i);
        }
        i += 1;
    }
    None
}

/// The first pair with key `k` in a list lies where `find_key` stops.
proof fn lemma_lookup_first(es: Seq<(Seq<char>, Seq<char>)>, k: Seq<char>, i: int)
    requires
        0 <= i <= es.len(),
        forall|j: int| 0 <= j < i ==> es[j].0 != k,
    ensures
        lookup(es, k) == lookup(es.skip(i), k),
    decreases i,
{
    if i > 0 {
        assert(es.skip(i - 1).drop_first() =~= es.skip(i));
        lemma_lookup_first(es, k, i - 1);
        assert(es.skip(i - 1)[0] == es[i - 1]);
    } else {
        assert(es.skip(0) =~= es);
    }
}

/// The value stored under `k`: that of the first pair with that key.
pub fn lookup_value(es: &Vec<(String, String)>, k: &String) -> (r: Option<String>)
    ensures
        match r {
            Some(v) => lookup(pair_views(es@), k@) == Some(v@),
            None => lookup(pair_views(es@), k@) is None,
        },
{
    let ghost ps = pair_views(es@);
    match find_key(es, k) {
        Some(i) => {
            proof {
                lemma_lookup_first(ps, k@, i as int);
                assert(ps.skip(i as int)[0] == ps[i as int]);
            }
            Some(es[i].1.clone())
        },
        None => {
            proof {
                lemma_lookup_first(ps, k@, ps.len() as int);
            }
            None
        },
    }
}

/// Inserts the pair `(k, v)`, replacing the value of a pair with key `k`.
pub fn put_entry(es: &mut Vec<(String, String)>, k: String, v: String)
    requires
        keys_distinct(pair_views(old(es)@)),
    ensures
        keys_distinct(pair_views(final(es)@)),
        entries_map(pair_views(final(es)@)) == entries_map(pair_views(old(es)@)).insert(k@, v@),
{
    let ghost ps = pair_views(es@);
    match find_key(es, &k) {
        Some(i) => {
            proof {
                lemma_entries_map_update(ps, i as int, v@);
            }
            es[i] = (k, v);
            assert(pair_views(es@) =~= ps.update(i as int, (ps[i as int].0, v@)));
        },
        None => {
            es.push((k, v));
            assert(pair_views(es@) =~= ps.push((k@, v@)));
            assert(pair_views(es@).drop_last() =~= ps);
        },
    }
}

} // verus!
