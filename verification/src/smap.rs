use crate::errors::ChenvError;
use vstd::prelude::*;

verus! {

/// A value an environment map can carry: it can decide equality with another
/// value of its kind, and the answer agrees with the models.
pub trait MapValue: View + Sized {
    fn value_eq(&self, other: &Self) -> (r: bool)
        ensures
            r == (self@ == other@),
    ;

    fn dup(&self) -> (r: Self)
        ensures
            r@ == self@,
    ;
}

/// A string-keyed map that keeps its entries in insertion order. Keys are
/// unique (see `wf`); lookups and the view agree on the unique entry.
pub struct StrMap<V> {
    entries: Vec<(String, V)>,
}

/// The map denoted by an entry list: later entries win, though a well-formed
/// list never repeats a key.
pub open spec fn map_of<V: View>(es: Seq<(String, V)>) -> Map<Seq<char>, V::V>
    decreases es.len(),
{
    if es.len() == 0 {
        Map::empty()
    } else {
        map_of(es.drop_last()).insert(es.last().0@, es.last().1@)
    }
}

/// The keys of an entry list, in order.
pub open spec fn key_seq<V>(es: Seq<(String, V)>) -> Seq<Seq<char>> {
    Seq::new(es.len(), |i: int| es[i].0@)
}

pub proof fn lemma_map_of_index<V: View>(es: Seq<(String, V)>, j: int)
    requires
        forall|a: int, b: int| 0 <= a < b < es.len() ==> (#[trigger] es[a]).0@ != (#[trigger] es[b]).0@,
        0 <= j < es.len(),
    ensures
        map_of(es).contains_key(es[j].0@),
        map_of(es)[es[j].0@] == es[j].1@,
    decreases es.len(),
{
    if j < es.len() - 1 {
        assert(es.drop_last()[j] == es[j]);
        lemma_map_of_index(es.drop_last(), j);
        assert(es.last().0@ != es[j].0@);
    }
}

pub proof fn lemma_map_of_absent<V: View>(es: Seq<(String, V)>, k: Seq<char>)
    requires
        forall|a: int| 0 <= a < es.len() ==> (#[trigger] es[a]).0@ != k,
    ensures
        !map_of(es).contains_key(k),
    decreases es.len(),
{
    if es.len() > 0 {
        assert(forall|a: int|
            0 <= a < es.len() - 1 ==> (#[trigger] es.drop_last()[a]).0@ != k);
        lemma_map_of_absent(es.drop_last(), k);
    }
}

pub proof fn lemma_map_of_contains<V: View>(es: Seq<(String, V)>, k: Seq<char>)
    requires
        map_of(es).contains_key(k),
    ensures
        exists|a: int| 0 <= a < es.len() && (#[trigger] es[a]).0@ == k,
    decreases es.len(),
{
    if es.len() > 0 {
        if es.last().0@ != k {
            lemma_map_of_contains(es.drop_last(), k);
            let a = choose|a: int|
                0 <= a < es.drop_last().len() && (#[trigger] es.drop_last()[a]).0@ == k;
            assert(es[a].0@ == k);
        } else {
            assert(es[es.len() - 1].0@ == k);
        }
    }
}

proof fn lemma_map_of_update<V: View>(es: Seq<(String, V)>, j: int, k: String, v: V)
    requires
        forall|a: int, b: int| 0 <= a < b < es.len() ==> (#[trigger] es[a]).0@ != (#[trigger] es[b]).0@,
        0 <= j < es.len(),
        es[j].0@ == k@,
    ensures
        map_of(es.update(j, (k, v))) == map_of(es).insert(k@, v@),
    decreases es.len(),
{
    let es2 = es.update(j, (k, v));
    if j == es.len() - 1 {
        assert(es2.drop_last() =~= es.drop_last());
        assert(es2.last() == (k, v));
        assert(map_of(es2) =~= map_of(es).insert(k@, v@));
    } else {
        assert(es2.drop_last() =~= es.drop_last().update(j, (k, v)));
        assert(es.drop_last()[j] == es[j]);
        lemma_map_of_update(es.drop_last(), j, k, v);
        assert(es2.last() == es.last());
        assert(es.last().0@ != k@);
        assert(map_of(es2) =~= map_of(es).insert(k@, v@));
    }
}

impl<V: View> View for StrMap<V> {
    type V = Map<Seq<char>, V::V>;

    closed spec fn view(&self) -> Map<Seq<char>, V::V> {
        map_of(self.entries@)
    }
}

impl<V: View> StrMap<V> {
    /// Keys are unique.
    pub closed spec fn wf(&self) -> bool {
        forall|a: int, b: int|
            0 <= a < b < self.entries@.len() ==> (#[trigger] self.entries@[a]).0@ != (
            #[trigger] self.entries@[b]).0@
    }

    /// The keys, in insertion order.
    pub closed spec fn keys(&self) -> Seq<Seq<char>> {
        key_seq(self.entries@)
    }

    /// What `wf` buys a caller: the ordered keys are exactly the map's
    /// domain, without repetition.
    pub proof fn lemma_keys(&self)
        requires
            self.wf(),
        ensures
            forall|a: int, b: int|
                0 <= a < b < self.keys().len() ==> self.keys()[a] != self.keys()[b],
            forall|k: Seq<char>| self@.contains_key(k) <==> self.keys().contains(k),
            forall|a: int|
                0 <= a < self.keys().len() ==> self@.contains_key(#[trigger] self.keys()[a]),
    {
        assert forall|a: int|
            0 <= a < self.keys().len() implies self@.contains_key(#[trigger] self.keys()[a]) by {
            lemma_map_of_index(self.entries@, a);
        }
        assert forall|k: Seq<char>| self@.contains_key(k) implies self.keys().contains(k) by {
            lemma_map_of_contains(self.entries@, k);
            let a = choose|a: int|
                0 <= a < self.entries@.len() && (#[trigger] self.entries@[a]).0@ == k;
            assert(self.keys()[a] == k);
        }
    }

    pub fn new() -> (r: StrMap<V>)
        ensures
            r@ == Map::<Seq<char>, V::V>::empty(),
            r.wf(),
            r.keys() == Seq::<Seq<char>>::empty(),
    {
        let r = StrMap { entries: Vec::new() };
        proof {
            assert(r.keys() =~= Seq::<Seq<char>>::empty());
        }
        r
    }

    pub fn len(&self) -> (r: usize)
        ensures
            r == self.keys().len(),
    {
        self.entries.len()
    }

    /// The entry at position `i`, in insertion order.
    pub fn entry_at(&self, i: usize) -> (r: (&String, &V))
        requires
            self.wf(),
            i < self.keys().len(),
        ensures
            r.0@ == self.keys()[i as int],
            self@.contains_key(r.0@),
            self@[r.0@] == r.1@,
    {
        proof {
            lemma_map_of_index(self.entries@, i as int);
        }
        let e = &self.entries[i];
        (&e.0, &e.1)
    }

    pub fn get(&self, k: &String) -> (r: Option<&V>)
        requires
            self.wf(),
        ensures
            match r {
                Some(v) => self@.contains_key(k@) && v@ == self@[k@],
                None => !self@.contains_key(k@),
            },
    {
        let n = self.entries.len();
        let mut i: usize = 0;
        while i < n
            invariant
                i <= n,
                n == self.entries@.len(),
                self.wf(),
                forall|a: int| 0 <= a < i ==> (#[trigger] self.entries@[a]).0@ != k@,
            decreases n - i,
        {
            if (&self.entries[i].0).eq(k) {
                proof {
                    lemma_map_of_index(self.entries@, i as int);
                }
                return Some(&self.entries[i].1);
            }
            i += 1;
        }
        proof {
            lemma_map_of_absent(self.entries@, k@);
        }
        None
    }

    /// Binds `k` to `v`: replaces the value in place when `k` is present,
    /// appends a new entry otherwise.
    pub fn insert(&mut self, k: String, v: V)
        requires
            old(self).wf(),
        ensures
            final(self).wf(),
            final(self)@ == old(self)@.insert(k@, v@),
            final(self).keys() == if old(self)@.contains_key(k@) {
                old(self).keys()
            } else {
                old(self).keys().push(k@)
            },
    {
        let n = self.entries.len();
        let mut i: usize = 0;
        while i < n
            invariant
                i <= n,
                n == self.entries@.len(),
                self.wf(),
                *self == *old(self),
                forall|a: int| 0 <= a < i ==> (#[trigger] self.entries@[a]).0@ != k@,
            decreases n - i,
        {
            if (&self.entries[i].0).eq(&k) {
                proof {
                    lemma_map_of_index(self.entries@, i as int);
                    lemma_map_of_update(self.entries@, i as int, k, v);
                }
                let ghost esold = self.entries@;
                self.entries.set(i, (k, v));
                proof {
                    assert(self.keys() =~= key_seq(esold));
                }
                return ;
            }
            i += 1;
        }
        proof {
            lemma_map_of_absent(self.entries@, k@);
        }
        let ghost esold = self.entries@;
        self.entries.push((k, v));
        proof {
            assert(self.entries@.drop_last() =~= esold);
            assert(self.keys() =~= key_seq(esold).push(self.entries@.last().0@));
        }
    }
}

/// Unions two maps key-wise. A key present on both sides must carry equal
/// values; differing values are an ambiguous override and fail, never a
/// silent pick. Entries keep their order: the left map's entries first, then
/// the right map's new keys.
pub fn merge_maps<V: MapValue>(map1: StrMap<V>, map2: &StrMap<V>) -> (r: Result<
    StrMap<V>,
    ChenvError,
>)
    requires
        map1.wf(),
        map2.wf(),
    ensures
        match r {
            Ok(m) => {
                &&& m.wf()
                &&& m@.dom() == map1@.dom() + map2@.dom()
                &&& forall|k: Seq<char>| map2@.contains_key(k) ==> m@[k] == map2@[k]
                &&& forall|k: Seq<char>|
                    map1@.contains_key(k) && !map2@.contains_key(k) ==> m@[k] == map1@[k]
                &&& forall|k: Seq<char>|
                    map1@.contains_key(k) && map2@.contains_key(k) ==> map1@[k] == map2@[k]
            },
            Err(e) => {
                &&& exists|k: Seq<char>|
                    map1@.contains_key(k) && map2@.contains_key(k) && map1@[k] != map2@[k]
                &&& e matches ChenvError::Config(_)
            },
        },
{
    let mut merged = map1;
    let n = map2.len();
    let mut i: usize = 0;
    proof {
        map2.lemma_keys();
    }
    while i < n
        invariant
            i <= n,
            n == map2.keys().len(),
            merged.wf(),
            map2.wf(),
            forall|a: int, b: int|
                0 <= a < b < map2.keys().len() ==> map2.keys()[a] != map2.keys()[b],
            forall|k: Seq<char>| map2@.contains_key(k) <==> map2.keys().contains(k),
            forall|a: int|
                0 <= a < map2.keys().len() ==> map2@.contains_key(#[trigger] map2.keys()[a]),
            merged@.dom() == map1@.dom() + map2.keys().subrange(0, i as int).to_set(),
            forall|a: int|
                0 <= a < i ==> merged@[#[trigger] map2.keys()[a]] == map2@[map2.keys()[a]],
            forall|k: Seq<char>|
                map1@.contains_key(k) && !map2.keys().subrange(0, i as int).contains(k) ==> merged@[k]
                    == map1@[k],
            forall|a: int|
                0 <= a < i ==> map1@.contains_key(#[trigger] map2.keys()[a]) ==> map1@[map2.keys()[a]]
                    == map2@[map2.keys()[a]],
        decreases n - i,
    {
        let (k, v) = map2.entry_at(i);
        let ghost kk = k@;
        let conflict: bool = match merged.get(k) {
            Some(prev) => !prev.value_eq(v),
            None => false,
        };
        if conflict {
            proof {
                assert(!map2.keys().subrange(0, i as int).contains(kk)) by {
                    assert(forall|a: int|
                        0 <= a < i ==> map2.keys().subrange(0, i as int)[a] == map2.keys()[a]);
                }
                assert(map1@.contains_key(kk));
                assert(map1@[kk] != map2@[kk]);
            }
            let mut msg = String::new();
            msg.append("both sides define key ");
            msg.append(k.as_str());
            msg.append(" with different values");
            return Err(ChenvError::Config(msg));
        }
        let key_copy = String::from_str(k.as_str());
        let value_copy = v.dup();
        merged.insert(key_copy, value_copy);
        proof {
            let ks = map2.keys();
            assert(ks.subrange(0, i + 1 as int) =~= ks.subrange(0, i as int).push(kk));
            let s1 = ks.subrange(0, i + 1 as int);
            let s0 = ks.subrange(0, i as int);
            assert forall|x: Seq<char>| #[trigger] s1.to_set().contains(x) implies s0.to_set().insert(
                kk,
            ).contains(x) by {
                let a = choose|a: int| 0 <= a < s1.len() && s1[a] == x;
                if a < i {
                    assert(s0[a] == x);
                    assert(s0.contains(x));
                } else {
                    assert(x == kk);
                }
            }
            assert forall|x: Seq<char>| #[trigger] s0.to_set().insert(kk).contains(x) implies s1.to_set().contains(
                x,
            ) by {
                if x == kk {
                    assert(s1[i as int] == x);
                    assert(s1.contains(x));
                } else {
                    let a = choose|a: int| 0 <= a < s0.len() && s0[a] == x;
                    assert(s1[a] == x);
                    assert(s1.contains(x));
                }
            }
            assert(s1.to_set() =~= s0.to_set().insert(kk));
            assert(merged@.dom() =~= map1@.dom() + s1.to_set());
        }
        i += 1;
    }
    proof {
        assert(map2.keys().subrange(0, n as int) =~= map2.keys());
        assert(map2.keys().to_set() =~= map2@.dom());
        assert forall|k: Seq<char>| map2@.contains_key(k) implies merged@[k] == map2@[k] by {
            let a = choose|a: int| 0 <= a < map2.keys().len() && map2.keys()[a] == k;
        }
        assert forall|k: Seq<char>|
            map1@.contains_key(k) && map2@.contains_key(k) implies map1@[k] == map2@[k] by {
            let a = choose|a: int| 0 <= a < map2.keys().len() && map2.keys()[a] == k;
        }
    }
    Ok(merged)
}

} // verus!
