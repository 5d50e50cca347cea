use crate::errors::ChenvError;
use vstd::prelude::*;
use vstd::seq_lib::*;

verus! {

/// The direct dependencies a table assigns to `name`: the list of its first
/// entry for `name`, or no dependencies when the table has none.
pub open spec fn table_deps(t: Seq<(Seq<char>, Seq<Seq<char>>)>, name: Seq<char>) -> Seq<
    Seq<char>,
>
    decreases t.len(),
{
    if t.len() == 0 {
        Seq::empty()
    } else if t[0].0 == name {
        t[0].1
    } else {
        table_deps(t.drop_first(), name)
    }
}

pub open spec fn distinct(xs: Seq<Seq<char>>) -> bool {
    forall|a: int, b: int| 0 <= a < b < xs.len() ==> xs[a] != xs[b]
}

/// Every direct dependency of a name stays among the names.
pub open spec fn deps_closed(t: Seq<(Seq<char>, Seq<Seq<char>>)>, names: Seq<Seq<char>>) -> bool {
    forall|x: Seq<char>, d: Seq<char>|
        names.contains(x) && #[trigger] table_deps(t, x).contains(d) ==> names.contains(d)
}

/// Every name in the order comes after all of its direct dependencies.
pub open spec fn deps_respected(
    t: Seq<(Seq<char>, Seq<Seq<char>>)>,
    out: Seq<Seq<char>>,
) -> bool {
    forall|i: int, d: Seq<char>|
        0 <= i < out.len() && #[trigger] table_deps(t, out[i]).contains(d) ==> exists|j: int|
            0 <= j < i && out[j] == d
}

/// A dependency cycle among the given names: a closed, non-trivial walk along
/// direct dependency edges.
pub open spec fn is_cycle(
    t: Seq<(Seq<char>, Seq<Seq<char>>)>,
    names: Seq<Seq<char>>,
    c: Seq<Seq<char>>,
) -> bool {
    &&& c.len() >= 2
    &&& c[0] == c[c.len() - 1]
    &&& forall|k: int| 0 <= k < c.len() ==> names.contains(#[trigger] c[k])
    &&& forall|k: int|
        0 <= k < c.len() - 1 ==> (#[trigger] table_deps(t, c[k])).contains(c[k + 1])
}

/// `b` is reachable from `a` along direct dependency edges, in at most
/// `n + 1` steps.
pub open spec fn reaches(
    t: Seq<(Seq<char>, Seq<Seq<char>>)>,
    a: Seq<char>,
    b: Seq<char>,
    n: nat,
) -> bool
    decreases n,
{
    table_deps(t, a).contains(b) || (n > 0 && exists|m: Seq<char>|
        #[trigger] table_deps(t, a).contains(m) && reaches(t, m, b, (n - 1) as nat))
}

proof fn lemma_reaches_extend(
    t: Seq<(Seq<char>, Seq<Seq<char>>)>,
    a: Seq<char>,
    m: Seq<char>,
    b: Seq<char>,
    n: nat,
)
    requires
        reaches(t, a, m, n),
        table_deps(t, m).contains(b),
    ensures
        reaches(t, a, b, n + 1),
    decreases n,
{
    if table_deps(t, a).contains(m) {
        assert(reaches(t, m, b, n));
        assert(reaches(t, a, b, n + 1));
    } else {
        let m2 = choose|m2: Seq<char>|
            #[trigger] table_deps(t, a).contains(m2) && reaches(t, m2, m, (n - 1) as nat);
        lemma_reaches_extend(t, m2, m, b, (n - 1) as nat);
        assert(reaches(t, a, b, n + 1));
    }
}

/// A name that reaches an unplaced name, in an order where every placed
/// name's direct dependencies are placed, has an unplaced direct dependency.
proof fn lemma_blocked_direct(
    t: Seq<(Seq<char>, Seq<Seq<char>>)>,
    placed: Seq<Seq<char>>,
    r: Seq<char>,
    x: Seq<char>,
    n: nat,
)
    requires
        reaches(t, r, x, n),
        !placed.contains(x),
        forall|p: Seq<char>, d: Seq<char>|
            placed.contains(p) && #[trigger] table_deps(t, p).contains(d) ==> placed.contains(
                d,
            ),
    ensures
        exists|d: Seq<char>| #[trigger] table_deps(t, r).contains(d) && !placed.contains(d),
    decreases n,
{
    if table_deps(t, r).contains(x) {
        assert(table_deps(t, r).contains(x) && !placed.contains(x));
    } else {
        let m = choose|m: Seq<char>|
            #[trigger] table_deps(t, r).contains(m) && reaches(t, m, x, (n - 1) as nat);
        if placed.contains(m) {
            lemma_blocked_direct(t, placed, m, x, (n - 1) as nat);
            let d2 = choose|d2: Seq<char>|
                #[trigger] table_deps(t, m).contains(d2) && !placed.contains(d2);
            assert(placed.contains(d2));
            assert(false);
        } else {
            assert(table_deps(t, r).contains(m) && !placed.contains(m));
        }
    }
}

/// Every member of every set is reachable from the set's name.
pub open spec fn sets_sound(
    t: Seq<(Seq<char>, Seq<Seq<char>>)>,
    names: Seq<Seq<char>>,
    sets: Seq<Seq<Seq<char>>>,
) -> bool {
    forall|a: int, x: Seq<char>|
        0 <= a < names.len() && a < sets.len() && #[trigger] sets[a].contains(x) ==> exists|
            nn: nat,
        |
            reaches(t, names[a], x, nn)
}

proof fn lemma_table_deps_found(t: Seq<(Seq<char>, Seq<Seq<char>>)>, j: int)
    requires
        0 <= j < t.len(),
        forall|a: int| 0 <= a < j ==> (#[trigger] t[a]).0 != t[j].0,
    ensures
        table_deps(t, t[j].0) == t[j].1,
    decreases j,
{
    if j > 0 {
        assert(forall|a: int| 0 <= a < j - 1 ==> (#[trigger] t.drop_first()[a]).0 != t[j].0);
        lemma_table_deps_found(t.drop_first(), j - 1);
    }
}

proof fn lemma_table_deps_absent(t: Seq<(Seq<char>, Seq<Seq<char>>)>, name: Seq<char>)
    requires
        forall|a: int| 0 <= a < t.len() ==> (#[trigger] t[a]).0 != name,
    ensures
        table_deps(t, name) == Seq::<Seq<char>>::empty(),
    decreases t.len(),
{
    if t.len() > 0 {
        lemma_table_deps_absent(t.drop_first(), name);
    }
}

/// The direct dependencies of `name`, looked up in the table.
fn table_lookup<'a>(table: &'a Vec<(String, Vec<String>)>, name: &String) -> (r: Option<
    &'a Vec<String>,
>)
    ensures
        match r {
            Some(v) => table_deps(table.deep_view(), name@) == v.deep_view(),
            None => table_deps(table.deep_view(), name@) == Seq::<Seq<char>>::empty(),
        },
{
    let n = table.len();
    let mut i: usize = 0;
    while i < n
        invariant
            i <= n,
            n == table@.len(),
            forall|a: int| 0 <= a < i ==> (#[trigger] table.deep_view()[a]).0 != name@,
        decreases n - i,
    {
        if (&table[i].0).eq(name) {
            proof {
                assert(table.deep_view()[i as int].0 == name@);
                lemma_table_deps_found(table.deep_view(), i as int);
            }
            return Some(&table[i].1);
        }
        i += 1;
    }
    proof {
        lemma_table_deps_absent(table.deep_view(), name@);
    }
    None
}

/// Whether `x` occurs in `v`.
pub fn vec_contains(v: &Vec<String>, x: &String) -> (r: bool)
    ensures
        r == v.deep_view().contains(x@),
{
    let n = v.len();
    let mut i: usize = 0;
    while i < n
        invariant
            i <= n,
            n == v@.len(),
            forall|a: int| 0 <= a < i ==> v.deep_view()[a] != x@,
        decreases n - i,
    {
        if (&v[i]).eq(x) {
            proof {
                assert(v.deep_view()[i as int] == x@);
            }
            return true;
        }
        i += 1;
    }
    false
}

/// Whether every member of `set` occurs in `placed`.
fn all_members_in(set: &Vec<String>, placed: &Vec<String>) -> (r: bool)
    ensures
        r == forall|d: Seq<char>|
            set.deep_view().contains(d) ==> #[trigger] placed.deep_view().contains(d),
{
    let n = set.len();
    let mut i: usize = 0;
    while i < n
        invariant
            i <= n,
            n == set@.len(),
            forall|a: int| 0 <= a < i ==> placed.deep_view().contains(#[trigger] set.deep_view()[a]),
        decreases n - i,
    {
        if !vec_contains(placed, &set[i]) {
            proof {
                assert(set.deep_view().contains(set.deep_view()[i as int]));
            }
            return false;
        }
        i += 1;
    }
    true
}

/// One expansion round: each name's set becomes the union of, for every
/// dependency in the set, the dependency itself and its direct dependencies.
/// No member is ever lost.
fn next_gen(
    sets: &Vec<Vec<String>>,
    table: &Vec<(String, Vec<String>)>,
) -> (r: Vec<Vec<String>>)
    ensures
        r@.len() == sets@.len(),
        forall|i: int, d: Seq<char>|
            0 <= i < sets@.len() && #[trigger] sets.deep_view()[i].contains(d)
                ==> r.deep_view()[i].contains(d),
        forall|i: int, m: Seq<char>, d: Seq<char>|
            0 <= i < sets@.len() && #[trigger] sets.deep_view()[i].contains(m)
                && #[trigger] table_deps(table.deep_view(), m).contains(d)
                ==> r.deep_view()[i].contains(d),
        forall|i: int, x: Seq<char>|
            0 <= i < sets@.len() && #[trigger] r.deep_view()[i].contains(x)
                ==> sets.deep_view()[i].contains(x) || exists|m: Seq<char>|
                #[trigger] sets.deep_view()[i].contains(m) && table_deps(
                    table.deep_view(),
                    m,
                ).contains(x),
{
    let ghost tv = table.deep_view();
    let n = sets.len();
    let mut result: Vec<Vec<String>> = Vec::new();
    let mut i: usize = 0;
    while i < n
        invariant
            i <= n,
            n == sets@.len(),
            tv == table.deep_view(),
            result@.len() == i,
            forall|a: int, d: Seq<char>|
                0 <= a < i && #[trigger] sets.deep_view()[a].contains(d)
                    ==> result.deep_view()[a].contains(d),
            forall|a: int, m: Seq<char>, d: Seq<char>|
                0 <= a < i && #[trigger] sets.deep_view()[a].contains(m) && #[trigger] table_deps(
                    tv,
                    m,
                ).contains(d) ==> result.deep_view()[a].contains(d),
            forall|a: int, x: Seq<char>|
                0 <= a < i && #[trigger] result.deep_view()[a].contains(x)
                    ==> sets.deep_view()[a].contains(x) || exists|m: Seq<char>|
                    #[trigger] sets.deep_view()[a].contains(m) && table_deps(tv, m).contains(x),
        decreases n - i,
    {
        let old_set = &sets[i];
        let m = old_set.len();
        let mut new_set: Vec<String> = Vec::new();
        let mut k: usize = 0;
        while k < m
            invariant
                k <= m,
                m == old_set@.len(),
                tv == table.deep_view(),
                forall|a: int|
                    0 <= a < k ==> new_set.deep_view().contains(
                        #[trigger] old_set.deep_view()[a],
                    ),
                forall|a: int, e: Seq<char>|
                    0 <= a < k && #[trigger] table_deps(tv, old_set.deep_view()[a]).contains(e)
                        ==> new_set.deep_view().contains(e),
                forall|x: Seq<char>|
                    #[trigger] new_set.deep_view().contains(x) ==> old_set.deep_view().contains(x)
                        || exists|w: Seq<char>|
                        #[trigger] old_set.deep_view().contains(w) && table_deps(tv, w).contains(
                            x,
                        ),
            decreases m - k,
        {
            let d = &old_set[k];
            let ghost before = new_set.deep_view();
            new_set.push(d.clone());
            proof {
                assert(new_set.deep_view()[before.len() as int] == d@);
                assert(old_set.deep_view()[k as int] == d@);
                assert(old_set.deep_view().contains(d@));
                assert(forall|a: int|
                    0 <= a < before.len() ==> new_set.deep_view()[a] == before[a]);
                assert forall|x: Seq<char>|
                    #[trigger] new_set.deep_view().contains(x) implies before.contains(x) || x
                    == d@ by {
                    let idx = choose|idx: int|
                        0 <= idx < new_set.deep_view().len() && new_set.deep_view()[idx] == x;
                    if idx < before.len() {
                        assert(before[idx] == x);
                    }
                }
                assert(forall|x: Seq<char>|
                    before.contains(x) ==> #[trigger] new_set.deep_view().contains(x));
            }
            match table_lookup(table, d) {
                Some(ds) => {
                    let p = ds.len();
                    let mut q: usize = 0;
                    while q < p
                        invariant
                            q <= p,
                            p == ds@.len(),
                            tv == table.deep_view(),
                            table_deps(tv, old_set.deep_view()[k as int]) == ds.deep_view(),
                            k < m,
                            m == old_set@.len(),
                            new_set.deep_view().contains(d@),
                            d@ == old_set.deep_view()[k as int],
                            forall|a: int|
                                0 <= a < k ==> new_set.deep_view().contains(
                                    #[trigger] old_set.deep_view()[a],
                                ),
                            forall|a: int, e: Seq<char>|
                                0 <= a < k && #[trigger] table_deps(
                                    tv,
                                    old_set.deep_view()[a],
                                ).contains(e) ==> new_set.deep_view().contains(e),
                            forall|b: int|
                                0 <= b < q ==> new_set.deep_view().contains(
                                    #[trigger] ds.deep_view()[b],
                                ),
                            forall|x: Seq<char>|
                                #[trigger] new_set.deep_view().contains(x)
                                    ==> old_set.deep_view().contains(x) || exists|w: Seq<char>|
                                    #[trigger] old_set.deep_view().contains(w) && table_deps(
                                        tv,
                                        w,
                                    ).contains(x),
                        decreases p - q,
                    {
                        let ghost before2 = new_set.deep_view();
                        new_set.push(ds[q].clone());
                        proof {
                            let ghost dq = ds.deep_view()[q as int];
                            assert(new_set.deep_view()[before2.len() as int] == dq);
                            assert(table_deps(tv, d@).contains(ds.deep_view()[q as int]));
                            assert(forall|a: int|
                                0 <= a < before2.len() ==> new_set.deep_view()[a] == before2[a]);
                            assert forall|x: Seq<char>|
                                #[trigger] new_set.deep_view().contains(x) implies before2.contains(
                                x,
                            ) || x == dq by {
                                let dv = new_set.deep_view();
                                let idx = choose|idx: int| 0 <= idx < dv.len() && dv[idx] == x;
                                if idx < before2.len() {
                                    assert(before2[idx] == x);
                                }
                            }
                            assert(forall|x: Seq<char>|
                                before2.contains(x) ==> #[trigger] new_set.deep_view().contains(
                                    x,
                                ));
                        }
                        q += 1;
                    }
                },
                None => {},
            }
            proof {
                assert(old_set.deep_view()[k as int] == d@);
                assert forall|e: Seq<char>|
                    #[trigger] table_deps(tv, old_set.deep_view()[k as int]).contains(
                        e,
                    ) implies new_set.deep_view().contains(e) by {
                    let dv = table_deps(tv, old_set.deep_view()[k as int]);
                    let b = choose|b: int| 0 <= b < dv.len() && dv[b] == e;
                }
            }
            k += 1;
        }
        let ghost new_model = new_set.deep_view();
        let ghost res_before = result.deep_view();
        result.push(new_set);
        proof {
            assert(sets.deep_view()[i as int] == old_set.deep_view());
            assert(forall|a: int| 0 <= a < i ==> result.deep_view()[a] == res_before[a]);
            assert(result.deep_view()[i as int] =~= new_model);
            let ghost sv = sets.deep_view();
            assert forall|a: int, m2: Seq<char>, e: Seq<char>|
                0 <= a < i + 1 && #[trigger] sv[a].contains(m2) && #[trigger] table_deps(
                    tv,
                    m2,
                ).contains(e) implies result.deep_view()[a].contains(e) by {
                if a < i {
                    assert(result.deep_view()[a] == res_before[a]);
                } else {
                    let b = choose|b: int|
                        0 <= b < old_set.deep_view().len() && old_set.deep_view()[b] == m2;
                    assert(table_deps(tv, old_set.deep_view()[b]).contains(e));
                    assert(new_model.contains(e));
                }
            }
            assert forall|a: int, x: Seq<char>|
                0 <= a < i + 1 && #[trigger] result.deep_view()[a].contains(x) implies sv[a].contains(
                x,
            ) || exists|m: Seq<char>| #[trigger] sv[a].contains(m) && table_deps(tv, m).contains(x) by {
                if a < i {
                    assert(res_before[a].contains(x));
                } else {
                    assert(new_model.contains(x));
                    if !old_set.deep_view().contains(x) {
                        let w = choose|w: Seq<char>|
                            #[trigger] old_set.deep_view().contains(w) && table_deps(
                                tv,
                                w,
                            ).contains(x);
                        assert(sets.deep_view()[i as int].contains(w));
                    }
                }
            }
        }
        i += 1;
    }
    result
}

/// Whether the two set families have exactly the same members, place by
/// place; used only to stop the expansion early once it is stable.
fn sets_stable(a: &Vec<Vec<String>>, b: &Vec<Vec<String>>) -> bool {
    let n = a.len();
    if b.len() != n {
        return false;
    }
    let mut i: usize = 0;
    while i < n
        invariant
            i <= n,
            n == a@.len(),
            n == b@.len(),
        decreases n - i,
    {
        if !all_members_in(&a[i], &b[i]) || !all_members_in(&b[i], &a[i]) {
            return false;
        }
        i += 1;
    }
    true
}

proof fn lemma_distinct_len(a: Seq<Seq<char>>, b: Seq<Seq<char>>)
    requires
        distinct(a),
        forall|x: Seq<char>| a.contains(x) ==> #[trigger] b.contains(x),
    ensures
        a.len() <= b.len(),
{
    a.unique_seq_to_set();
    b.lemma_cardinality_of_set();
    assert(a.to_set() <= b.to_set());
    vstd::set_lib::lemma_len_subset(a.to_set(), b.to_set());
}

/// Positions strictly decrease along a cycle placed in a dependency-respecting
/// order, which is impossible once the walk closes.
proof fn lemma_cycle_contradiction(
    t: Seq<(Seq<char>, Seq<Seq<char>>)>,
    out: Seq<Seq<char>>,
    c: Seq<Seq<char>>,
    k: int,
    p0: int,
)
    requires
        deps_respected(t, out),
        distinct(out),
        c.len() >= 2,
        forall|a: int| 0 <= a < c.len() ==> out.contains(#[trigger] c[a]),
        forall|a: int|
            0 <= a < c.len() - 1 ==> (#[trigger] table_deps(t, c[a])).contains(c[a + 1]),
        0 <= k < c.len(),
        0 <= p0 < out.len(),
        out[p0] == c[0],
    ensures
        exists|p: int| 0 <= p <= p0 - k && out[p] == c[k],
    decreases k,
{
    if k == 0 {
        assert(out[p0] == c[0]);
    } else {
        lemma_cycle_contradiction(t, out, c, k - 1, p0);
        let p = choose|p: int| 0 <= p <= p0 - (k - 1) && out[p] == c[k - 1];
        assert(table_deps(t, c[k - 1]).contains(c[(k - 1) + 1]));
        assert(table_deps(t, out[p]).contains(c[k]));
        let j = choose|j: int| 0 <= j < p && out[j] == c[k];
    }
}

/// Every direct dependency of `name` is already placed.
pub open spec fn deps_placed(
    t: Seq<(Seq<char>, Seq<Seq<char>>)>,
    name: Seq<char>,
    placed: Seq<Seq<char>>,
) -> bool {
    forall|d: Seq<char>| #[trigger] table_deps(t, name).contains(d) ==> placed.contains(d)
}

/// One scan from position `k` on: appends, in scan order, every name not yet
/// placed whose direct dependencies are all placed.
#[verifier::opaque]
pub open spec fn scan_from(
    t: Seq<(Seq<char>, Seq<Seq<char>>)>,
    values: Seq<Seq<char>>,
    placed: Seq<Seq<char>>,
    k: int,
) -> Seq<Seq<char>>
    decreases values.len() - k,
{
    if k < 0 || k >= values.len() {
        placed
    } else if !placed.contains(values[k]) && deps_placed(t, values[k], placed) {
        scan_from(t, values, placed.push(values[k]), k + 1)
    } else {
        scan_from(t, values, placed, k + 1)
    }
}

/// Repeated full scans; stops once all names are placed or a scan places
/// nothing.
#[verifier::opaque]
pub open spec fn layer_rounds(
    t: Seq<(Seq<char>, Seq<Seq<char>>)>,
    values: Seq<Seq<char>>,
    placed: Seq<Seq<char>>,
    rounds: nat,
) -> Seq<Seq<char>>
    decreases rounds,
{
    if rounds == 0 {
        placed
    } else {
        let p2 = scan_from(t, values, placed, 0);
        if p2.len() == placed.len() {
            placed
        } else {
            layer_rounds(t, values, p2, (rounds - 1) as nat)
        }
    }
}

/// The greedy layered order over the names, ties broken by scan order: the
/// one order the resolver produces. As many rounds as names suffice, since a
/// round that makes progress places at least one name.
pub open spec fn greedy_order(
    t: Seq<(Seq<char>, Seq<Seq<char>>)>,
    values: Seq<Seq<char>>,
) -> Seq<Seq<char>> {
    layer_rounds(t, values, Seq::empty(), values.len() as nat)
}

/// The names a finished run leaves unplaced, in declaration order.
pub open spec fn leftovers(values: Seq<Seq<char>>, placed: Seq<Seq<char>>) -> Seq<Seq<char>>
    decreases values.len(),
{
    if values.len() == 0 {
        Seq::empty()
    } else if placed.contains(values.last()) {
        leftovers(values.drop_last(), placed)
    } else {
        leftovers(values.drop_last(), placed) + seq![values.last()]
    }
}

/// An order that respects dependencies is closed under direct dependencies.
proof fn lemma_respected_closed(t: Seq<(Seq<char>, Seq<Seq<char>>)>, out: Seq<Seq<char>>)
    requires
        deps_respected(t, out),
    ensures
        forall|p: Seq<char>, d: Seq<char>|
            out.contains(p) && #[trigger] table_deps(t, p).contains(d) ==> out.contains(d),
{
    assert forall|p: Seq<char>, d: Seq<char>|
        out.contains(p) && #[trigger] table_deps(t, p).contains(d) implies out.contains(d) by {
        let ip = choose|ip: int| 0 <= ip < out.len() && out[ip] == p;
        assert(table_deps(t, out[ip]).contains(d));
        let j = choose|j: int| 0 <= j < ip && out[j] == d;
        assert(out.contains(d));
    }
}

/// A scan over a state that already holds every name adds nothing.
proof fn lemma_scan_complete(
    t: Seq<(Seq<char>, Seq<Seq<char>>)>,
    values: Seq<Seq<char>>,
    placed: Seq<Seq<char>>,
    k: int,
)
    requires
        forall|a: int| 0 <= a < values.len() ==> placed.contains(#[trigger] values[a]),
        0 <= k,
    ensures
        scan_from(t, values, placed, k) == placed,
    decreases values.len() - k,
{
    reveal(scan_from);
    if k < values.len() {
        lemma_scan_complete(t, values, placed, k + 1);
    }
}

/// A state one scan cannot grow is a fixed point of any number of rounds.
proof fn lemma_layer_stable(
    t: Seq<(Seq<char>, Seq<Seq<char>>)>,
    values: Seq<Seq<char>>,
    placed: Seq<Seq<char>>,
    rounds: nat,
)
    requires
        scan_from(t, values, placed, 0) == placed,
    ensures
        layer_rounds(t, values, placed, rounds) == placed,
{
    reveal(layer_rounds);
}

/// A distinct sequence contained member-wise in another distinct sequence
/// that has a member it lacks is strictly shorter.
proof fn lemma_strict_subset_len(a: Seq<Seq<char>>, b: Seq<Seq<char>>, x: Seq<char>)
    requires
        distinct(a),
        distinct(b),
        forall|y: Seq<char>| a.contains(y) ==> #[trigger] b.contains(y),
        b.contains(x),
        !a.contains(x),
    ensures
        a.len() < b.len(),
{
    a.unique_seq_to_set();
    b.unique_seq_to_set();
    assert(a.to_set() <= b.to_set());
    a.to_set().lemma_subset_not_in_lt(b.to_set(), x);
}

/// The greedy layering over prepared sets: repeated scans in the order
/// given, each placing every name whose whole set is already placed; mirrors
/// `layer_rounds` round for round.
#[verifier::loop_isolation(false)]
fn layer(
    values: &Vec<String>,
    table: &Vec<(String, Vec<String>)>,
    sets: &Vec<Vec<String>>,
) -> (r: Result<Vec<String>, ChenvError>)
    requires
        distinct(values.deep_view()),
        sets@.len() == values@.len(),
        forall|a: int, d: Seq<char>|
            0 <= a < values@.len() && #[trigger] table_deps(
                table.deep_view(),
                values.deep_view()[a],
            ).contains(d) ==> sets.deep_view()[a].contains(d),
        sets_sound(table.deep_view(), values.deep_view(), sets.deep_view()),
    ensures
        match r {
            Ok(out) => {
                &&& out.deep_view().len() == values.deep_view().len()
                &&& distinct(out.deep_view())
                &&& forall|x: Seq<char>|
                    out.deep_view().contains(x) <==> values.deep_view().contains(x)
                &&& deps_respected(table.deep_view(), out.deep_view())
            },
            Err(e) => {
                &&& e matches ChenvError::CircularDependency(rem) && {
                    &&& rem.deep_view().len() > 0
                    &&& distinct(rem.deep_view())
                    &&& forall|x: Seq<char>|
                        #[trigger] rem.deep_view().contains(x)
                            ==> values.deep_view().contains(x)
                    &&& forall|x: Seq<char>|
                        #[trigger] rem.deep_view().contains(x) ==> exists|d: Seq<char>|
                            #[trigger] table_deps(table.deep_view(), x).contains(d) && (
                            rem.deep_view().contains(d) || !values.deep_view().contains(d))
                }
            },
        },
        forall|c: Seq<Seq<char>>|
            is_cycle(table.deep_view(), values.deep_view(), c) ==> r is Err,
        deps_closed(table.deep_view(), values.deep_view()) && (forall|c: Seq<Seq<char>>|
            !is_cycle(table.deep_view(), values.deep_view(), c)) ==> r is Ok,
        r matches Ok(out) ==> out.deep_view() == greedy_order(
            table.deep_view(),
            values.deep_view(),
        ),
        greedy_order(table.deep_view(), values.deep_view()).len() == values.deep_view().len()
            ==> (r matches Ok(out) && out.deep_view() == greedy_order(
            table.deep_view(),
            values.deep_view(),
        )),
        greedy_order(table.deep_view(), values.deep_view()).len() != values.deep_view().len()
            ==> (r matches Err(ChenvError::CircularDependency(rem)) && rem.deep_view()
            == leftovers(
            values.deep_view(),
            greedy_order(table.deep_view(), values.deep_view()),
        )),
{
    let ghost tv = table.deep_view();
    let ghost vdv = values.deep_view();
    let n = values.len();
    // Step three: greedy layering in scan order; the rounds mirror
    // `layer_rounds` exactly, so the output is the one greedy order.
    let mut result: Vec<String> = Vec::new();
    let ghost mut r_done: nat = 0;
    proof {
        reveal(layer_rounds);
        assert(result.deep_view() =~= Seq::<Seq<char>>::empty());
        assert(layer_rounds(tv, vdv, Seq::<Seq<char>>::empty(), 0nat)
            == Seq::<Seq<char>>::empty());
    }
    #[verifier::loop_isolation(true)]
    loop
        invariant
            n == values@.len(),
            sets@.len() == n,
            tv == table.deep_view(),
            vdv == values.deep_view(),
            sets_sound(tv, vdv, sets.deep_view()),
            forall|a: int, d: Seq<char>|
                0 <= a < n && #[trigger] table_deps(table.deep_view(), values.deep_view()[a]).contains(
                    d,
                ) ==> sets.deep_view()[a].contains(d),
            distinct(values.deep_view()),
            distinct(result.deep_view()),
            forall|x: Seq<char>|
                result.deep_view().contains(x) ==> #[trigger] values.deep_view().contains(x),
            deps_respected(table.deep_view(), result.deep_view()),
            result@.len() <= n,
            r_done <= result@.len(),
            result.deep_view() == layer_rounds(tv, vdv, Seq::<Seq<char>>::empty(), r_done),
            forall|bigr: nat|
                bigr >= r_done ==> layer_rounds(tv, vdv, Seq::<Seq<char>>::empty(), bigr)
                    == layer_rounds(tv, vdv, result.deep_view(), (bigr - r_done) as nat),
        decreases n - result@.len(),
    {
        let ghost result_at_entry = result.deep_view();
        let mut has_new = false;
        let mut k: usize = 0;
        #[verifier::loop_isolation(true)]
        while k < n
            invariant
                k <= n,
                n == values@.len(),
                sets@.len() == n,
                tv == table.deep_view(),
                vdv == values.deep_view(),
                sets_sound(tv, vdv, sets.deep_view()),
                forall|a: int, d: Seq<char>|
                    0 <= a < n && #[trigger] table_deps(
                        table.deep_view(),
                        values.deep_view()[a],
                    ).contains(d) ==> sets.deep_view()[a].contains(d),
                distinct(values.deep_view()),
                distinct(result.deep_view()),
                forall|x: Seq<char>|
                    result.deep_view().contains(x) ==> #[trigger] values.deep_view().contains(x),
                deps_respected(table.deep_view(), result.deep_view()),
                result@.len() <= n,
                result_at_entry.len() <= result@.len(),
                !has_new ==> result.deep_view() == result_at_entry,
                has_new ==> result@.len() > result_at_entry.len(),
                !has_new ==> forall|a: int|
                    0 <= a < k ==> result.deep_view().contains(
                        #[trigger] values.deep_view()[a],
                    ) || exists|x: Seq<char>|
                        #[trigger] sets.deep_view()[a].contains(x)
                            && !result.deep_view().contains(x),
                scan_from(tv, vdv, result_at_entry, 0) == scan_from(
                    tv,
                    vdv,
                    result.deep_view(),
                    k as int,
                ),
            decreases n - k,
        {
            let candidate = &values[k];
            let set_k = &sets[k];
            let placed_already = vec_contains(&result, candidate);
            let ready = if placed_already {
                false
            } else {
                all_members_in(set_k, &result)
            };
            if !placed_already && ready {
                let ghost before = result.deep_view();
                result.push(candidate.clone());
                proof {
                    assert(result.deep_view()[before.len() as int] == candidate@);
                    assert(values.deep_view()[k as int] == candidate@);
                    assert(values.deep_view().contains(candidate@));
                    assert(forall|a: int|
                        0 <= a < before.len() ==> result.deep_view()[a] == before[a]);
                    assert(forall|x: Seq<char>|
                        before.contains(x) ==> #[trigger] result.deep_view().contains(x));
                    assert forall|x: Seq<char>|
                        result.deep_view().contains(x) implies #[trigger] values.deep_view().contains(
                        x,
                    ) by {
                        let idx = choose|idx: int|
                            0 <= idx < result.deep_view().len() && result.deep_view()[idx] == x;
                        if idx < before.len() {
                            assert(before[idx] == x);
                            assert(before.contains(x));
                        } else {
                            assert(x == candidate@);
                        }
                    }
                    assert forall|a: int, b: int|
                        0 <= a < b < result.deep_view().len() implies result.deep_view()[a]
                        != result.deep_view()[b] by {
                        if b == before.len() {
                            assert(before.contains(before[a]));
                            assert(result.deep_view()[b] == candidate@);
                        } else {
                            assert(result.deep_view()[a] == before[a]);
                            assert(result.deep_view()[b] == before[b]);
                        }
                    }
                    assert(distinct(result.deep_view()));
                    lemma_distinct_len(result.deep_view(), values.deep_view());
                    // The new entry's direct dependencies sit in its set, and
                    // the whole set is already placed.
                    assert forall|i2: int, d: Seq<char>|
                        0 <= i2 < result.deep_view().len() && #[trigger] table_deps(
                            table.deep_view(),
                            result.deep_view()[i2],
                        ).contains(d) implies exists|j: int|
                        0 <= j < i2 && result.deep_view()[j] == d by {
                        if i2 < before.len() {
                            assert(table_deps(table.deep_view(), before[i2]).contains(d));
                            let j = choose|j: int| 0 <= j < i2 && before[j] == d;
                            assert(result.deep_view()[j] == d);
                        } else {
                            assert(result.deep_view()[i2] == values.deep_view()[k as int]);
                            assert(sets.deep_view()[k as int].contains(d));
                            assert(before.contains(d));
                            let j = choose|j: int| 0 <= j < before.len() && before[j] == d;
                            assert(result.deep_view()[j] == d);
                        }
                    }
                    // The scan takes the same step: the candidate is new and
                    // its direct dependencies (all in its set) are placed.
                    assert(deps_placed(tv, vdv[k as int], before)) by {
                        assert(forall|d: Seq<char>|
                            #[trigger] table_deps(tv, vdv[k as int]).contains(d)
                                ==> sets.deep_view()[k as int].contains(d));
                    }
                    assert(result.deep_view() =~= before.push(vdv[k as int]));
                    reveal(scan_from);
                    assert(scan_from(tv, vdv, before, k as int) == scan_from(
                        tv,
                        vdv,
                        result.deep_view(),
                        k + 1 as int,
                    ));
                }
                has_new = true;
            } else {
                proof {
                    if !result.deep_view().contains(values.deep_view()[k as int]) {
                        let ghost sk = sets.deep_view()[k as int];
                        assert(set_k.deep_view() == sk);
                        assert(!(forall|d: Seq<char>|
                            sk.contains(d) ==> #[trigger] result.deep_view().contains(d)));
                        let x0 = choose|x: Seq<char>|
                            sk.contains(x) && !(#[trigger] result.deep_view().contains(x));
                        assert(sets.deep_view()[k as int].contains(x0));
                        assert(exists|x: Seq<char>|
                            #[trigger] sets.deep_view()[k as int].contains(x)
                                && !result.deep_view().contains(x));
                        // The scan skips too: some set member is unplaced, so
                        // some direct dependency must be unplaced as well.
                        assert(!deps_placed(tv, vdv[k as int], result.deep_view())) by {
                            if deps_placed(tv, vdv[k as int], result.deep_view()) {
                                let nn = choose|nn: nat| reaches(tv, vdv[k as int], x0, nn);
                                lemma_respected_closed(tv, result.deep_view());
                                lemma_blocked_direct(tv, result.deep_view(), vdv[k as int], x0, nn);
                                let d0 = choose|d: Seq<char>|
                                    #[trigger] table_deps(tv, vdv[k as int]).contains(d)
                                        && !result.deep_view().contains(d);
                                assert(result.deep_view().contains(d0));
                                assert(false);
                            }
                        }
                    }
                    reveal(scan_from);
                    assert(scan_from(tv, vdv, result.deep_view(), k as int) == scan_from(
                        tv,
                        vdv,
                        result.deep_view(),
                        k + 1 as int,
                    ));
                }
            }
            k += 1;
        }
        proof {
            // One full scan ran: the state advanced exactly as `scan_from`
            // says, so the round accounting extends.
            assert(scan_from(tv, vdv, result.deep_view(), n as int) == result.deep_view()) by {
                reveal(scan_from);
            }
            assert(scan_from(tv, vdv, result_at_entry, 0) == result.deep_view());
            if has_new {
                assert forall|bigr: nat|
                    bigr >= r_done + 1 implies layer_rounds(tv, vdv, Seq::<Seq<char>>::empty(), bigr)
                        == layer_rounds(
                        tv,
                        vdv,
                        result.deep_view(),
                        (bigr - (r_done + 1)) as nat,
                    ) by {
                    reveal(layer_rounds);
                    assert(layer_rounds(tv, vdv, Seq::<Seq<char>>::empty(), bigr) == layer_rounds(
                        tv,
                        vdv,
                        result_at_entry,
                        (bigr - r_done) as nat,
                    ));
                }
                assert(layer_rounds(tv, vdv, Seq::<Seq<char>>::empty(), r_done + 1)
                    == layer_rounds(tv, vdv, result_at_entry, 1nat));
                assert(layer_rounds(tv, vdv, result_at_entry, 1nat) == result.deep_view()) by {
                    reveal(layer_rounds);
                }
                r_done = r_done + 1;
            }
        }
        let mut remaining: Vec<String> = Vec::new();
        let mut k2: usize = 0;
        proof {
            assert(vdv.subrange(0, 0) =~= Seq::<Seq<char>>::empty());
            assert(remaining.deep_view() =~= Seq::<Seq<char>>::empty());
        }
        #[verifier::loop_isolation(true)]
        while k2 < n
            invariant
                k2 <= n,
                n == values@.len(),
                vdv == values.deep_view(),
                distinct(vdv),
                remaining@.len() == 0 ==> forall|a: int|
                    0 <= a < k2 ==> result.deep_view().contains(
                        #[trigger] values.deep_view()[a],
                    ),
                forall|a: int|
                    0 <= a < k2 ==> result.deep_view().contains(
                        #[trigger] values.deep_view()[a],
                    ) || remaining.deep_view().contains(values.deep_view()[a]),
                forall|x: Seq<char>|
                    #[trigger] remaining.deep_view().contains(x)
                        ==> values.deep_view().contains(x) && !result.deep_view().contains(x),
                forall|x: Seq<char>|
                    #[trigger] remaining.deep_view().contains(x) ==> exists|a: int|
                        0 <= a < k2 && values.deep_view()[a] == x,
                distinct(remaining.deep_view()),
                remaining.deep_view() == leftovers(
                    vdv.subrange(0, k2 as int),
                    result.deep_view(),
                ),
            decreases n - k2,
        {
            if !vec_contains(&result, &values[k2]) {
                let ghost rem_before = remaining.deep_view();
                remaining.push(values[k2].clone());
                proof {
                    let rdv = remaining.deep_view();
                    let vk = values.deep_view()[k2 as int];
                    assert(rdv[rem_before.len() as int] == vk);
                    assert(forall|a: int| 0 <= a < rem_before.len() ==> rdv[a] == rem_before[a]);
                    assert(values.deep_view().contains(vk));
                    assert forall|x: Seq<char>| #[trigger] rdv.contains(x) implies rem_before.contains(
                        x,
                    ) || x == vk by {
                        let idx = choose|idx: int| 0 <= idx < rdv.len() && rdv[idx] == x;
                        if idx < rem_before.len() {
                            assert(rem_before[idx] == x);
                        }
                    }
                    assert(forall|x: Seq<char>|
                        rem_before.contains(x) ==> #[trigger] rdv.contains(x));
                    assert(!rem_before.contains(vk)) by {
                        if rem_before.contains(vk) {
                            let b = choose|b: int|
                                0 <= b < k2 && values.deep_view()[b] == vk;
                            assert(values.deep_view()[b] == values.deep_view()[k2 as int]);
                            assert(false);
                        }
                    }
                    assert forall|a: int, b: int|
                        0 <= a < b < rdv.len() implies rdv[a] != rdv[b] by {
                        if b == rem_before.len() {
                            assert(rem_before.contains(rem_before[a]));
                        } else {
                            assert(rdv[a] == rem_before[a]);
                            assert(rdv[b] == rem_before[b]);
                        }
                    }
                    assert(distinct(rdv));
                    let sub1 = vdv.subrange(0, k2 + 1 as int);
                    assert(sub1.drop_last() =~= vdv.subrange(0, k2 as int));
                    assert(sub1.last() == vk);
                    assert(rdv =~= rem_before + seq![vk]);
                    assert(rdv == leftovers(sub1, result.deep_view()));
                }
            } else {
                proof {
                    let sub1 = vdv.subrange(0, k2 + 1 as int);
                    assert(sub1.drop_last() =~= vdv.subrange(0, k2 as int));
                    assert(sub1.last() == vdv[k2 as int]);
                    assert(remaining.deep_view() == leftovers(sub1, result.deep_view()));
                }
            }
            k2 += 1;
        }
        if remaining.len() == 0 {
            proof {
                assert forall|x: Seq<char>|
                    values.deep_view().contains(x) implies #[trigger] result.deep_view().contains(
                    x,
                ) by {
                    let a = choose|a: int|
                        0 <= a < values.deep_view().len() && values.deep_view()[a] == x;
                }
                lemma_distinct_len(result.deep_view(), values.deep_view());
                lemma_distinct_len(values.deep_view(), result.deep_view());
                assert(result.deep_view().len() == vdv.len());
                lemma_finish_complete(tv, vdv, result.deep_view(), r_done);
                lemma_no_cycles(tv, vdv, result.deep_view());
            }
            return Ok(result);
        }
        if !has_new {
            proof {
                let rdv = remaining.deep_view();
                let resv = result.deep_view();
                let vdv = values.deep_view();
                assert forall|p: Seq<char>, d: Seq<char>|
                    resv.contains(p) && #[trigger] table_deps(tv, p).contains(d) implies resv.contains(
                    d,
                ) by {
                    let ip = choose|ip: int| 0 <= ip < resv.len() && resv[ip] == p;
                    assert(table_deps(tv, resv[ip]).contains(d));
                    let j = choose|j: int| 0 <= j < ip && resv[j] == d;
                    assert(resv.contains(d));
                }
                assert forall|x: Seq<char>| #[trigger] rdv.contains(x) implies exists|d: Seq<char>|
                    #[trigger] table_deps(tv, x).contains(d) && (rdv.contains(d)
                        || !vdv.contains(d)) by {
                    assert(vdv.contains(x) && !resv.contains(x));
                    let a = choose|a: int| 0 <= a < vdv.len() && vdv[a] == x;
                    assert(resv.contains(vdv[a]) || exists|y: Seq<char>|
                        #[trigger] sets.deep_view()[a].contains(y) && !resv.contains(y));
                    let y = choose|y: Seq<char>|
                        #[trigger] sets.deep_view()[a].contains(y) && !resv.contains(y);
                    let nn = choose|nn: nat| reaches(tv, vdv[a], y, nn);
                    lemma_blocked_direct(tv, resv, x, y, nn);
                    let d = choose|d: Seq<char>|
                        #[trigger] table_deps(tv, x).contains(d) && !resv.contains(d);
                    if vdv.contains(d) {
                        let b = choose|b: int| 0 <= b < vdv.len() && vdv[b] == d;
                        assert(resv.contains(vdv[b]) || rdv.contains(vdv[b]));
                        assert(rdv.contains(d));
                    }
                }
            }
            proof {
                let rdv = remaining.deep_view();
                let vdv = values.deep_view();
                if deps_closed(tv, vdv) {
                    assert forall|x: Seq<char>| #[trigger] rdv.contains(x) implies exists|
                        d: Seq<char>,
                    |
                        #[trigger] table_deps(tv, x).contains(d) && rdv.contains(d) by {
                        let d = choose|d: Seq<char>|
                            #[trigger] table_deps(tv, x).contains(d) && (rdv.contains(d)
                                || !vdv.contains(d));
                        assert(vdv.contains(x));
                        assert(vdv.contains(d));
                        assert(rdv.contains(d));
                    }
                    lemma_stuck_set_has_cycle(tv, vdv, rdv);
                }
            }
            proof {
                let resv = result.deep_view();
                let rdv = remaining.deep_view();
                // A stalled state is a fixed point, so it is the greedy order,
                // and the reported names are exactly what it leaves out.
                assert(scan_from(tv, vdv, resv, 0) == resv);
                assert(vdv.subrange(0, n as int) =~= vdv);
                assert(rdv.len() > 0);
                lemma_finish_stalled(tv, vdv, resv, rdv, r_done);
            }
            return Err(ChenvError::CircularDependency(remaining));
        }
    }
}


/// A layering state that already holds every name is the greedy order.
proof fn lemma_finish_complete(
    tv: Seq<(Seq<char>, Seq<Seq<char>>)>,
    vdv: Seq<Seq<char>>,
    resv: Seq<Seq<char>>,
    r_done: nat,
)
    requires
        forall|a: int| 0 <= a < vdv.len() ==> resv.contains(#[trigger] vdv[a]),
        resv == layer_rounds(tv, vdv, Seq::<Seq<char>>::empty(), r_done),
        forall|bigr: nat|
            bigr >= r_done ==> layer_rounds(tv, vdv, Seq::<Seq<char>>::empty(), bigr)
                == layer_rounds(tv, vdv, resv, (bigr - r_done) as nat),
        r_done <= vdv.len(),
    ensures
        greedy_order(tv, vdv) == resv,
{
    lemma_scan_complete(tv, vdv, resv, 0);
    lemma_layer_stable(tv, vdv, resv, (vdv.len() - r_done) as nat);
    assert(layer_rounds(tv, vdv, Seq::<Seq<char>>::empty(), vdv.len() as nat) == layer_rounds(
        tv,
        vdv,
        resv,
        (vdv.len() - r_done) as nat,
    ));
}

/// A layering state one scan cannot grow is the greedy order, short of
/// exactly the names it leaves out.
proof fn lemma_finish_stalled(
    tv: Seq<(Seq<char>, Seq<Seq<char>>)>,
    vdv: Seq<Seq<char>>,
    resv: Seq<Seq<char>>,
    rdv: Seq<Seq<char>>,
    r_done: nat,
)
    requires
        scan_from(tv, vdv, resv, 0) == resv,
        resv == layer_rounds(tv, vdv, Seq::<Seq<char>>::empty(), r_done),
        forall|bigr: nat|
            bigr >= r_done ==> layer_rounds(tv, vdv, Seq::<Seq<char>>::empty(), bigr)
                == layer_rounds(tv, vdv, resv, (bigr - r_done) as nat),
        r_done <= vdv.len(),
        distinct(resv),
        distinct(vdv),
        forall|y: Seq<char>| resv.contains(y) ==> #[trigger] vdv.contains(y),
        rdv.len() > 0,
        forall|x: Seq<char>|
            #[trigger] rdv.contains(x) ==> vdv.contains(x) && !resv.contains(x),
        rdv == leftovers(vdv, resv),
    ensures
        greedy_order(tv, vdv) == resv,
        greedy_order(tv, vdv).len() != vdv.len(),
        rdv == leftovers(vdv, greedy_order(tv, vdv)),
{
    lemma_layer_stable(tv, vdv, resv, (vdv.len() - r_done) as nat);
    assert(layer_rounds(tv, vdv, Seq::<Seq<char>>::empty(), vdv.len() as nat) == layer_rounds(
        tv,
        vdv,
        resv,
        (vdv.len() - r_done) as nat,
    ));
    assert(rdv.contains(rdv[0]));
    lemma_strict_subset_len(resv, vdv, rdv[0]);
}

/// A dependency-respecting order over all the names admits no cycle.
proof fn lemma_no_cycles(
    tv: Seq<(Seq<char>, Seq<Seq<char>>)>,
    vdv: Seq<Seq<char>>,
    out: Seq<Seq<char>>,
)
    requires
        deps_respected(tv, out),
        distinct(out),
        forall|x: Seq<char>| out.contains(x) <==> vdv.contains(x),
    ensures
        forall|c: Seq<Seq<char>>| !is_cycle(tv, vdv, c),
{
    assert forall|c: Seq<Seq<char>>| is_cycle(tv, vdv, c) implies false by {
        assert forall|a: int| 0 <= a < c.len() implies out.contains(#[trigger] c[a]) by {
            assert(vdv.contains(c[a]));
        }
        assert(out.contains(c[0]));
        let p0 = choose|p0: int| 0 <= p0 < out.len() && out[p0] == c[0];
        lemma_cycle_contradiction(tv, out, c, c.len() - 1, p0);
        let p = choose|p: int| 0 <= p <= p0 - (c.len() - 1) && out[p] == c[c.len() - 1];
        assert(out[p] == out[p0]);
        assert(p < p0);
    }
}

/// Orders `values` so that every direct dependency (as given by `table`)
/// precedes its dependent.
///
/// The sets of step one are expanded toward the transitive closure, then
/// names are placed by repeated scans in the order given: a scan places every
/// name whose whole set is already placed, and a scan that places nothing
/// while names remain reports them as a circular dependency.
///
/// On success the output is the input set of names, each exactly once, in an
/// order where every direct dependency of a placed name is placed earlier —
/// and exactly the greedy layered order (`greedy_order`), so ties among
/// independent names go by position in `values` and the result is a function
/// of the input sequence alone.
/// Any dependency cycle among the names forces the error, and the error names
/// the stuck set — exactly the names the greedy order leaves out, in input
/// order — each of which depends, directly, on another stuck name or on a
/// name outside the input (see `lemma_stuck_set_has_cycle` for why a stuck
/// set that stays inside the input must contain a cycle).
#[verifier::loop_isolation(false)]
pub fn order_dependencies_gen(
    values: &Vec<String>,
    table: &Vec<(String, Vec<String>)>,
) -> (r: Result<Vec<String>, ChenvError>)
    requires
        distinct(values.deep_view()),
    ensures
        match r {
            Ok(out) => {
                &&& out.deep_view().len() == values.deep_view().len()
                &&& distinct(out.deep_view())
                &&& forall|x: Seq<char>|
                    out.deep_view().contains(x) <==> values.deep_view().contains(x)
                &&& deps_respected(table.deep_view(), out.deep_view())
            },
            Err(e) => {
                &&& e matches ChenvError::CircularDependency(rem) && {
                    &&& rem.deep_view().len() > 0
                    &&& distinct(rem.deep_view())
                    &&& forall|x: Seq<char>|
                        #[trigger] rem.deep_view().contains(x)
                            ==> values.deep_view().contains(x)
                    &&& forall|x: Seq<char>|
                        #[trigger] rem.deep_view().contains(x) ==> exists|d: Seq<char>|
                            #[trigger] table_deps(table.deep_view(), x).contains(d) && (
                            rem.deep_view().contains(d) || !values.deep_view().contains(d))
                }
            },
        },
        forall|c: Seq<Seq<char>>|
            is_cycle(table.deep_view(), values.deep_view(), c) ==> r is Err,
        deps_closed(table.deep_view(), values.deep_view()) && (forall|c: Seq<Seq<char>>|
            !is_cycle(table.deep_view(), values.deep_view(), c)) ==> r is Ok,
        r matches Ok(out) ==> out.deep_view() == greedy_order(
            table.deep_view(),
            values.deep_view(),
        ),
        greedy_order(table.deep_view(), values.deep_view()).len() == values.deep_view().len()
            ==> (r matches Ok(out) && out.deep_view() == greedy_order(
            table.deep_view(),
            values.deep_view(),
        )),
        greedy_order(table.deep_view(), values.deep_view()).len() != values.deep_view().len()
            ==> (r matches Err(ChenvError::CircularDependency(rem)) && rem.deep_view()
            == leftovers(
            values.deep_view(),
            greedy_order(table.deep_view(), values.deep_view()),
        )),
{
    let ghost tv = table.deep_view();
    let ghost vdv = values.deep_view();
    let n = values.len();

    // Step one: each name's set starts as its direct dependencies.
    let mut sets: Vec<Vec<String>> = Vec::new();
    let mut i: usize = 0;
    while i < n
        invariant
            i <= n,
            n == values@.len(),
            sets@.len() == i,
            forall|a: int, d: Seq<char>|
                0 <= a < i && #[trigger] table_deps(table.deep_view(), values.deep_view()[a]).contains(
                    d,
                ) ==> sets.deep_view()[a].contains(d),
            sets_sound(tv, values.deep_view(), sets.deep_view()),
        decreases n - i,
    {
        let s: Vec<String> = match table_lookup(table, &values[i]) {
            Some(ds) => {
                let mut copy: Vec<String> = Vec::new();
                let p = ds.len();
                let mut q: usize = 0;
                while q < p
                    invariant
                        q <= p,
                        p == ds@.len(),
                        copy.deep_view() == ds.deep_view().subrange(0, q as int),
                    decreases p - q,
                {
                    let ghost before = copy.deep_view();
                    copy.push(ds[q].clone());
                    proof {
                        assert(copy@.len() == before.len() + 1);
                        assert(forall|a: int|
                            0 <= a < before.len() ==> copy.deep_view()[a] == before[a]);
                        assert(copy.deep_view()[q as int] == ds.deep_view()[q as int]);
                        assert(copy.deep_view() =~= ds.deep_view().subrange(0, q + 1 as int));
                    }
                    q += 1;
                }
                proof {
                    assert(ds.deep_view().subrange(0, p as int) =~= ds.deep_view());
                }
                copy
            },
            None => Vec::new(),
        };
        let ghost sdv_before = sets.deep_view();
        sets.push(s);
        proof {
            assert(forall|a: int| 0 <= a < i ==> sets.deep_view()[a] == sdv_before[a]);
            assert forall|a: int, x: Seq<char>|
                0 <= a < values.deep_view().len() && a < sets.deep_view().len()
                    && #[trigger] sets.deep_view()[a].contains(x) implies exists|nn: nat|
                reaches(tv, values.deep_view()[a], x, nn) by {
                if a == i {
                    assert(table_deps(tv, values.deep_view()[a]).contains(x));
                    assert(reaches(tv, values.deep_view()[a], x, 0nat));
                } else {
                    assert(sdv_before[a].contains(x));
                }
            }
        }
        i += 1;
    }

    // Step two: expand toward the transitive closure, stopping early once
    // stable; membership only ever grows, so each name's direct dependencies
    // stay in its set.
    let mut round: usize = 0;
    while round < n
        invariant
            n == values@.len(),
            sets@.len() == n,
            forall|a: int, d: Seq<char>|
                0 <= a < n && #[trigger] table_deps(table.deep_view(), values.deep_view()[a]).contains(
                    d,
                ) ==> sets.deep_view()[a].contains(d),
            sets_sound(tv, values.deep_view(), sets.deep_view()),
        decreases n - round,
    {
        let next = next_gen(&sets, table);
        if sets_stable(&sets, &next) {
            break ;
        }
        proof {
            assert forall|a: int, x: Seq<char>|
                0 <= a < values.deep_view().len() && a < next.deep_view().len()
                    && #[trigger] next.deep_view()[a].contains(x) implies exists|nn: nat|
                reaches(tv, values.deep_view()[a], x, nn) by {
                if sets.deep_view()[a].contains(x) {
                } else {
                    let m = choose|m: Seq<char>|
                        #[trigger] sets.deep_view()[a].contains(m) && table_deps(tv, m).contains(
                            x,
                        );
                    let nm = choose|nn: nat| reaches(tv, values.deep_view()[a], m, nn);
                    lemma_reaches_extend(tv, values.deep_view()[a], m, x, nm);
                }
            }
        }
        sets = next;
        round += 1;
    }

    // Step three: greedy layering in scan order.
    layer(values, table, &sets)
}

/// A walk inside `rem` along dependency edges: every member of `rem` has a
/// dependency back into `rem`, so a walk of any length can be built.
proof fn lemma_walk(
    t: Seq<(Seq<char>, Seq<Seq<char>>)>,
    rem: Seq<Seq<char>>,
    start: Seq<char>,
    steps: nat,
) -> (p: Seq<Seq<char>>)
    requires
        rem.contains(start),
        forall|x: Seq<char>|
            #[trigger] rem.contains(x) ==> exists|d: Seq<char>|
                #[trigger] table_deps(t, x).contains(d) && rem.contains(d),
    ensures
        p.len() == steps + 1,
        p[0] == start,
        forall|i: int| 0 <= i < p.len() ==> rem.contains(#[trigger] p[i]),
        forall|i: int| 0 <= i < p.len() - 1 ==> (#[trigger] table_deps(t, p[i])).contains(p[i + 1]),
    decreases steps,
{
    if steps == 0 {
        let p = seq![start];
        assert(p[0] == start);
        p
    } else {
        let q = lemma_walk(t, rem, start, (steps - 1) as nat);
        assert(rem.contains(q[q.len() - 1]));
        let d = choose|d: Seq<char>|
            #[trigger] table_deps(t, q[q.len() - 1]).contains(d) && rem.contains(d);
        let p = q.push(d);
        assert(forall|i: int| 0 <= i < q.len() ==> p[i] == q[i]);
        assert(p[p.len() - 1] == d);
        assert forall|i: int| 0 <= i < p.len() - 1 implies (#[trigger] table_deps(
            t,
            p[i],
        )).contains(p[i + 1]) by {
            if i < q.len() - 1 {
                assert(table_deps(t, q[i]).contains(q[i + 1]));
            } else {
                assert(p[i] == q[q.len() - 1]);
            }
        }
        p
    }
}

/// A non-empty family of names, each depending on another member of the
/// family, contains a dependency cycle: a walk longer than the family must
/// revisit a member.
#[verifier::rlimit(60)]
pub proof fn lemma_stuck_set_has_cycle(
    t: Seq<(Seq<char>, Seq<Seq<char>>)>,
    names: Seq<Seq<char>>,
    rem: Seq<Seq<char>>,
)
    requires
        rem.len() > 0,
        forall|x: Seq<char>| #[trigger] rem.contains(x) ==> names.contains(x),
        forall|x: Seq<char>|
            #[trigger] rem.contains(x) ==> exists|d: Seq<char>|
                #[trigger] table_deps(t, x).contains(d) && rem.contains(d),
    ensures
        exists|c: Seq<Seq<char>>| is_cycle(t, names, c),
{
    assert(rem.contains(rem[0]));
    let p = lemma_walk(t, rem, rem[0], rem.len() as nat);
    assert(!distinct(p)) by {
        if distinct(p) {
            lemma_distinct_len(p, rem);
        }
    }
    let (i, j): (int, int) = choose|i: int, j: int| 0 <= i < j < p.len() && p[i] == p[j];
    let c = p.subrange(i, j + 1);
    assert(c.len() >= 2);
    assert(c[0] == p[i] && c[c.len() - 1] == p[j]);
    assert forall|k: int| 0 <= k < c.len() implies names.contains(#[trigger] c[k]) by {
        assert(c[k] == p[i + k]);
        assert(rem.contains(p[i + k]));
    }
    assert forall|k: int|
        0 <= k < c.len() - 1 implies (#[trigger] table_deps(t, c[k])).contains(c[k + 1]) by {
        assert(c[k] == p[i + k]);
        assert(c[k + 1] == p[i + k + 1]);
        assert(table_deps(t, p[i + k]).contains(p[(i + k) + 1]));
    }
    assert(is_cycle(t, names, c));
}

} // verus!
