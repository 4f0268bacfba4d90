//! Finding the fixings that fall due in the window swept by a spot-date
//! shift, valuing each under the active policy, and grouping them by
//! identifier.
use vstd::prelude::*;
use crate::bumpspotdate::SpotDynamics;
use crate::dates::{in_window, DateTime};
use crate::dependencies::{Dependency, DependencyModel};
use crate::fixings::{keys_unique, with_fixing, FixingMap};

verus! {

/// The fixings of `s` whose day lies in `[from, to)`, in their order in `s`.
pub open spec fn window_of(s: Seq<DateTime>, from: int, to: int) -> Seq<DateTime>
    decreases s.len(),
{
    if s.len() == 0 {
        seq![]
    } else {
        let w = window_of(s.drop_last(), from, to);
        if in_window(s.last(), from, to) {
            w.push(s.last())
        } else {
            w
        }
    }
}

/// The fixings of entry `e` of the dependency model that lie in the window,
/// each tagged with `e`.
pub open spec fn entry_hits(deps: Seq<Dependency>, e: int, from: int, to: int) -> Seq<(int, DateTime)> {
    window_of(deps[e].fixings@, from, to).map_values(|d: DateTime| (e, d))
}

/// The fixings in the window of the first `n` entries, in discovery order:
/// entry by entry, and within an entry in the order of its fixings.
pub open spec fn hits_upto(deps: Seq<Dependency>, n: int, from: int, to: int) -> Seq<(int, DateTime)>
    decreases n,
{
    if n <= 0 {
        seq![]
    } else {
        hits_upto(deps, n - 1, from, to) + entry_hits(deps, n - 1, from, to)
    }
}

/// Every fixing of the dependency model in the window `[from, to)`, as
/// (entry, date-time), in discovery order.
pub open spec fn window_hits(deps: Seq<Dependency>, from: int, to: int) -> Seq<(int, DateTime)> {
    hits_upto(deps, deps.len() as int, from, to)
}

/// `r` is an outcome of valuing the fixing `hit` under `policy`: the spot
/// level of its identifier, or the forward curve of its instrument anchored
/// at `anchor` and read at its day.
pub open spec fn resolves_to<M, V, E, S, F>(
    policy: SpotDynamics,
    context: &M,
    spot: &S,
    forward: &F,
    anchor: i32,
    deps: Seq<Dependency>,
    hit: (int, DateTime),
    r: Result<V, E>,
) -> bool where S: Fn(&M, &String) -> Result<V, E>, F: Fn(&M, usize, i32, i32) -> Result<V, E> {
    match policy {
        SpotDynamics::StickySpot => spot.ensures((context, &deps[hit.0].id), r),
        SpotDynamics::StickyForward => forward.ensures((context, hit.0 as usize, anchor, hit.1.date), r),
    }
}

/// `vals` holds, for each fixing of `hits`, a value it resolves to.
pub open spec fn all_resolved<M, V, E, S, F>(
    policy: SpotDynamics,
    context: &M,
    spot: &S,
    forward: &F,
    anchor: i32,
    deps: Seq<Dependency>,
    hits: Seq<(int, DateTime)>,
    vals: Seq<V>,
) -> bool where S: Fn(&M, &String) -> Result<V, E>, F: Fn(&M, usize, i32, i32) -> Result<V, E> {
    &&& vals.len() == hits.len()
    &&& forall|i: int| 0 <= i < hits.len() ==> #[trigger] resolves_to::<M, V, E, S, F>(
        policy, context, spot, forward, anchor, deps, hits[i], Ok(vals[i]),
    )
}

/// The fixings `hits`, valued by `vals`, grouped by identifier in discovery order.
pub open spec fn grouped<V>(deps: Seq<Dependency>, hits: Seq<(int, DateTime)>, vals: Seq<V>) -> Seq<(Seq<char>, Seq<(DateTime, V)>)>
    decreases hits.len(),
{
    if hits.len() == 0 || vals.len() == 0 {
        seq![]
    } else {
        with_fixing(
            grouped(deps, hits.drop_last(), vals.drop_last()),
            deps[hits.last().0].id@,
            (hits.last().1, vals.last()),
        )
    }
}

/// Some fixing of the dependency model in the window resolves to the error `err`.
pub open spec fn failed_with<M, V, E, S, F>(
    policy: SpotDynamics,
    context: &M,
    spot: &S,
    forward: &F,
    anchor: i32,
    deps: Seq<Dependency>,
    from: int,
    to: int,
    err: E,
) -> bool where S: Fn(&M, &String) -> Result<V, E>, F: Fn(&M, usize, i32, i32) -> Result<V, E> {
    exists|e: int, j: int|
        0 <= e < deps.len() && 0 <= j < deps[e].fixings@.len() && in_window(deps[e].fixings@[j], from, to)
            && #[trigger] resolves_to::<M, V, E, S, F>(
            policy, context, spot, forward, anchor, deps, (e, deps[e].fixings@[j]), Err(err),
        )
}

proof fn lemma_window_step(s: Seq<DateTime>, j: int, from: int, to: int)
    requires
        0 <= j < s.len(),
    ensures
        window_of(s.take(j + 1), from, to) == if in_window(s[j], from, to) {
            window_of(s.take(j), from, to).push(s[j])
        } else {
            window_of(s.take(j), from, to)
        },
{
    assert(s.take(j + 1).drop_last() =~= s.take(j));
}

/// Scans the dependency model for fixings whose day lies in `[from, to)`,
/// values each under `policy` with `context` (forward curves anchored at
/// `to`), and groups them by identifier in discovery order. The first
/// failure to value a fixing is returned.
pub fn collect_fixings<M, V, E, S, F>(
    deps: &DependencyModel,
    context: &M,
    from: i32,
    to: i32,
    policy: SpotDynamics,
    spot: &S,
    forward: &F,
) -> (r: Result<FixingMap<V>, E>) where
    S: Fn(&M, &String) -> Result<V, E>,
    F: Fn(&M, usize, i32, i32) -> Result<V, E>,

    requires
        forall|c: &M, id: &String| spot.requires((c, id)),
        forall|c: &M, e: usize, a: i32, d: i32| forward.requires((c, e, a, d)),
    ensures
        match r {
            Ok(m) => m.wf() && keys_unique(m@) && exists|vals: Seq<V>|
                all_resolved(policy, context, spot, forward, to, deps.entries@, window_hits(deps.entries@, from as int, to as int), vals)
                && m@ == grouped(deps.entries@, window_hits(deps.entries@, from as int, to as int), vals),
            Err(err) => failed_with(policy, context, spot, forward, to, deps.entries@, from as int, to as int, err),
        },
{
    let ghost ds = deps.entries@;
    let mut map: FixingMap<V> = FixingMap::new();
    let ghost mut hits: Seq<(int, DateTime)> = seq![];
    let ghost mut vals: Seq<V> = seq![];
    let n = deps.entries.len();
    let mut k: usize = 0;
    while k < n
        invariant
            ds == deps.entries@,
            n == ds.len(),
            k <= n,
            forall|c: &M, id: &String| spot.requires((c, id)),
            forall|c: &M, e: usize, a: i32, d: i32| forward.requires((c, e, a, d)),
            map.wf(),
            hits == hits_upto(ds, k as int, from as int, to as int),
            all_resolved(policy, context, spot, forward, to, ds, hits, vals),
            map@ == grouped(ds, hits, vals),
        decreases n - k,
    {
        let dep = &deps.entries[k];
        let fixings = &dep.fixings;
        let ghost base = hits;
        let ghost fs = fixings@;
        let m = fixings.len();
        let mut j: usize = 0;
        while j < m
            invariant
                ds == deps.entries@,
                n == ds.len(),
                k < n,
                *dep == ds[k as int],
                fs == fixings@,
                fs == ds[k as int].fixings@,
                m == fs.len(),
                j <= m,
                forall|c: &M, id: &String| spot.requires((c, id)),
                forall|c: &M, e: usize, a: i32, d: i32| forward.requires((c, e, a, d)),
                map.wf(),
                base == hits_upto(ds, k as int, from as int, to as int),
                hits == base + window_of(fs.take(j as int), from as int, to as int).map_values(|d: DateTime| (k as int, d)),
                all_resolved(policy, context, spot, forward, to, ds, hits, vals),
                map@ == grouped(ds, hits, vals),
            decreases m - j,
        {
            let fixing = fixings[j];
            proof {
                lemma_window_step(fs, j as int, from as int, to as int);
            }
            if fixing.is_in_window(from, to) {
                let ghost hit = (k as int, fixing);
                let value = match policy {
                    SpotDynamics::StickyForward => forward(context, k, to, fixing.date),
                    SpotDynamics::StickySpot => spot(context, &dep.id),
                };
                match value {
                    Ok(v) => {
                        map.add(&dep.id, fixing, v);
                        proof {
                            let h2 = hits.push(hit);
                            let v2 = vals.push(v);
                            assert(h2.drop_last() =~= hits);
                            assert(v2.drop_last() =~= vals);
                            assert(window_of(fs.take(j as int), from as int, to as int).push(fixing).map_values(|d: DateTime| (k as int, d))
                                =~= window_of(fs.take(j as int), from as int, to as int).map_values(|d: DateTime| (k as int, d)).push(hit));
                            assert(h2 =~= base + window_of(fs.take(j as int + 1), from as int, to as int).map_values(|d: DateTime| (k as int, d)));
                            assert forall|i: int| 0 <= i < h2.len() implies #[trigger] resolves_to::<M, V, E, S, F>(
                                policy, context, spot, forward, to, ds, h2[i], Ok(v2[i])) by {
                                if i < hits.len() {
                                    assert(h2[i] == hits[i]);
                                    assert(v2[i] == vals[i]);
                                }
                            }
                            hits = h2;
                            vals = v2;
                        }
                    },
                    Err(err) => {
                        proof {
                            assert(resolves_to::<M, V, E, S, F>(policy, context, spot, forward, to, ds, (k as int, fs[j as int]), Err(err)));
                        }
                        return Err(err);
                    },
                }
            }
            j = j + 1;
        }
        proof {
            assert(fs.take(m as int) =~= fs);
            assert(hits == hits_upto(ds, k + 1, from as int, to as int));
        }
        k = k + 1;
    }
    proof {
        map.lemma_keys_unique();
        assert(hits == window_hits(ds, from as int, to as int));
        assert(all_resolved(policy, context, spot, forward, to, ds, window_hits(ds, from as int, to as int), vals)
            && map@ == grouped(ds, window_hits(ds, from as int, to as int), vals));
    }
    Ok(map)
}

/// `x` stands at position `i` of the series of identifier `id`, the `k`-th
/// series of the grouped fixings `g`.
pub open spec fn stands_at<V>(g: Seq<(Seq<char>, Seq<(DateTime, V)>)>, k: int, i: int, id: Seq<char>, x: (DateTime, V)) -> bool {
    0 <= k < g.len() && 0 <= i < g[k].1.len() && g[k].0 == id && g[k].1[i] == x
}

/// `(k, i)` is a position of the grouped fixings `g`.
pub open spec fn is_position<V>(g: Seq<(Seq<char>, Seq<(DateTime, V)>)>, k: int, i: int) -> bool {
    0 <= k < g.len() && 0 <= i < g[k].1.len()
}

/// `x` stands somewhere in the series of identifier `id` among the grouped fixings `g`.
pub open spec fn placed<V>(g: Seq<(Seq<char>, Seq<(DateTime, V)>)>, id: Seq<char>, x: (DateTime, V)) -> bool {
    exists|k: int, i: int| stands_at(g, k, i, id, x)
}

proof fn lemma_window_members(s: Seq<DateTime>, from: int, to: int)
    ensures
        forall|d: DateTime| #[trigger] window_of(s, from, to).contains(d) <==> (s.contains(d) && in_window(d, from, to)),
    decreases s.len(),
{
    if s.len() > 0 {
        let p = s.drop_last();
        lemma_window_members(p, from, to);
        assert forall|d: DateTime| #[trigger] window_of(s, from, to).contains(d) <==> (s.contains(d) && in_window(d, from, to)) by {
            let w = window_of(p, from, to);
            if s.contains(d) && in_window(d, from, to) {
                let j = choose|j: int| 0 <= j < s.len() && s[j] == d;
                if j < s.len() - 1 {
                    assert(p[j] == d);
                    assert(p.contains(d));
                    assert(w.contains(d));
                    let i = choose|i: int| 0 <= i < w.len() && w[i] == d;
                    if in_window(s.last(), from, to) {
                        assert(w.push(s.last())[i] == d);
                    }
                } else {
                    assert(w.push(s.last())[w.len() as int] == d);
                }
            }
            if window_of(s, from, to).contains(d) {
                let ws = window_of(s, from, to);
                let i = choose|i: int| 0 <= i < ws.len() && ws[i] == d;
                if in_window(s.last(), from, to) && i == w.len() {
                    assert(s[s.len() - 1] == d);
                } else {
                    assert(w[i] == d);
                    assert(w.contains(d));
                    let j = choose|j: int| 0 <= j < p.len() && p[j] == d;
                    assert(s[j] == d);
                }
            }
        }
    }
}

proof fn lemma_hits_members(deps: Seq<Dependency>, n: int, from: int, to: int)
    requires
        0 <= n <= deps.len(),
    ensures
        forall|h: (int, DateTime)| #[trigger] hits_upto(deps, n, from, to).contains(h) <==> (0 <= h.0 < n
            && deps[h.0].fixings@.contains(h.1) && in_window(h.1, from, to)),
    decreases n,
{
    if n > 0 {
        lemma_hits_members(deps, n - 1, from, to);
        let e = n - 1;
        lemma_window_members(deps[e].fixings@, from, to);
        let a = hits_upto(deps, n - 1, from, to);
        let w = window_of(deps[e].fixings@, from, to);
        let b = entry_hits(deps, e, from, to);
        assert(hits_upto(deps, n, from, to) == a + b);
        assert forall|h: (int, DateTime)| #[trigger] hits_upto(deps, n, from, to).contains(h) <==> (0 <= h.0 < n
            && deps[h.0].fixings@.contains(h.1) && in_window(h.1, from, to)) by {
            let c = a + b;
            if c.contains(h) {
                let i = choose|i: int| 0 <= i < c.len() && c[i] == h;
                if i < a.len() {
                    assert(a[i] == h);
                    assert(a.contains(h));
                } else {
                    assert(b[i - a.len()] == h);
                    assert(w[i - a.len()] == h.1);
                    assert(w.contains(h.1));
                }
            }
            if 0 <= h.0 < n && deps[h.0].fixings@.contains(h.1) && in_window(h.1, from, to) {
                if h.0 < n - 1 {
                    assert(a.contains(h));
                    let i = choose|i: int| 0 <= i < a.len() && a[i] == h;
                    assert(c[i] == h);
                } else {
                    assert(w.contains(h.1));
                    let i = choose|i: int| 0 <= i < w.len() && w[i] == h.1;
                    assert(b[i] == h);
                    assert(c[a.len() + i] == h);
                }
            }
        }
    }
}

proof fn lemma_grouped_members<V>(deps: Seq<Dependency>, hits: Seq<(int, DateTime)>, vals: Seq<V>)
    requires
        vals.len() == hits.len(),
    ensures
        forall|k: int, i: int|
            #[trigger] is_position(grouped(deps, hits, vals), k, i) ==> exists|t: int|
                0 <= t < hits.len() && #[trigger] stands_at(grouped(deps, hits, vals), k, i, deps[hits[t].0].id@,
                    (hits[t].1, vals[t])),
        forall|t: int| 0 <= t < hits.len() ==> #[trigger] placed(grouped(deps, hits, vals), deps[hits[t].0].id@, (hits[t].1, vals[t])),
    decreases hits.len(),
{
    if hits.len() > 0 {
        let hp = hits.drop_last();
        let vp = vals.drop_last();
        lemma_grouped_members(deps, hp, vp);
        let m = grouped(deps, hp, vp);
        let g = grouped(deps, hits, vals);
        let n = hits.len() - 1;
        let id = deps[hits[n].0].id@;
        let x = (hits[n].1, vals[n]);
        assert(g == with_fixing(m, id, x));
        if exists|k: int| crate::fixings::key_at(m, id, k) {
            let k0 = choose|k: int| crate::fixings::key_at(m, id, k);
            assert(g == m.update(k0, (id, m[k0].1.push(x))));
            assert forall|k: int, i: int| #[trigger] is_position(g, k, i) implies exists|t: int|
                0 <= t < hits.len() && #[trigger] stands_at(g, k, i, deps[hits[t].0].id@, (hits[t].1, vals[t])) by {
                if k == k0 && i == m[k0].1.len() {
                    assert(stands_at(g, k, i, deps[hits[n].0].id@, (hits[n].1, vals[n])));
                } else {
                    assert(is_position(m, k, i));
                    let t = choose|t: int| 0 <= t < hp.len() && #[trigger] stands_at(m, k, i, deps[hp[t].0].id@, (hp[t].1, vp[t]));
                    assert(hp[t] == hits[t] && vp[t] == vals[t]);
                    assert(stands_at(g, k, i, deps[hits[t].0].id@, (hits[t].1, vals[t])));
                }
            }
            assert forall|t: int| 0 <= t < hits.len() implies #[trigger] placed(grouped(deps, hits, vals), deps[hits[t].0].id@, (hits[t].1, vals[t])) by {
                if t == n {
                    assert(stands_at(g, k0, m[k0].1.len() as int, deps[hits[t].0].id@, (hits[t].1, vals[t])));
                } else {
                    assert(hp[t] == hits[t] && vp[t] == vals[t]);
                    assert(placed(m, deps[hp[t].0].id@, (hp[t].1, vp[t])));
                    let (k, i) = choose|k: int, i: int| #[trigger] stands_at(m, k, i, deps[hp[t].0].id@, (hp[t].1, vp[t]));
                    assert(stands_at(g, k, i, deps[hits[t].0].id@, (hits[t].1, vals[t])));
                }
            }
        } else {
            assert(g == m.push((id, seq![x])));
            assert forall|k: int, i: int| #[trigger] is_position(g, k, i) implies exists|t: int|
                0 <= t < hits.len() && #[trigger] stands_at(g, k, i, deps[hits[t].0].id@, (hits[t].1, vals[t])) by {
                if k == m.len() {
                    assert(stands_at(g, k, i, deps[hits[n].0].id@, (hits[n].1, vals[n])));
                } else {
                    assert(is_position(m, k, i));
                    let t = choose|t: int| 0 <= t < hp.len() && #[trigger] stands_at(m, k, i, deps[hp[t].0].id@, (hp[t].1, vp[t]));
                    assert(hp[t] == hits[t] && vp[t] == vals[t]);
                    assert(stands_at(g, k, i, deps[hits[t].0].id@, (hits[t].1, vals[t])));
                }
            }
            assert forall|t: int| 0 <= t < hits.len() implies #[trigger] placed(grouped(deps, hits, vals), deps[hits[t].0].id@, (hits[t].1, vals[t])) by {
                if t == n {
                    assert(stands_at(g, m.len() as int, 0, deps[hits[t].0].id@, (hits[t].1, vals[t])));
                } else {
                    assert(hp[t] == hits[t] && vp[t] == vals[t]);
                    assert(placed(m, deps[hp[t].0].id@, (hp[t].1, vp[t])));
                    let (k, i) = choose|k: int, i: int| #[trigger] stands_at(m, k, i, deps[hp[t].0].id@, (hp[t].1, vp[t]));
                    assert(stands_at(g, k, i, deps[hits[t].0].id@, (hits[t].1, vals[t])));
                }
            }
        }
    }
}

/// Some fixing dated `d` stands in the series of identifier `id` among the grouped fixings `g`.
pub open spec fn dated_in<V>(g: Seq<(Seq<char>, Seq<(DateTime, V)>)>, id: Seq<char>, d: DateTime) -> bool {
    exists|k: int, i: int| is_position(g, k, i) && g[k].0 == id && g[k].1[i].0 == d
}

/// A fixing date of the dependency model appears in the table built from
/// the window `[from, to)`, under its identifier, exactly when its day lies
/// in the window; and every date in the table is a fixing date in the window
/// of some instrument with that identifier.
pub proof fn lemma_window_correct<V>(deps: Seq<Dependency>, from: int, to: int, vals: Seq<V>)
    requires
        vals.len() == window_hits(deps, from, to).len(),
    ensures
        forall|e: int, j: int| 0 <= e < deps.len() && 0 <= j < deps[e].fixings@.len() ==>
            (in_window(deps[e].fixings@[j], from, to) <==> #[trigger] dated_in(
                grouped(deps, window_hits(deps, from, to), vals), deps[e].id@, deps[e].fixings@[j])),
        forall|k: int, i: int| #[trigger] is_position(grouped(deps, window_hits(deps, from, to), vals), k, i) ==> {
            let g = grouped(deps, window_hits(deps, from, to), vals);
            &&& in_window(g[k].1[i].0, from, to)
            &&& exists|e: int, j: int| 0 <= e < deps.len() && 0 <= j < deps[e].fixings@.len()
                && deps[e].id@ == g[k].0 && #[trigger] deps[e].fixings@[j] == g[k].1[i].0
        },
{
    let hits = window_hits(deps, from, to);
    let g = grouped(deps, hits, vals);
    lemma_hits_members(deps, deps.len() as int, from, to);
    lemma_grouped_members(deps, hits, vals);
    assert forall|k: int, i: int| #[trigger] is_position(g, k, i) implies {
        &&& in_window(g[k].1[i].0, from, to)
        &&& exists|e: int, j: int| 0 <= e < deps.len() && 0 <= j < deps[e].fixings@.len()
            && deps[e].id@ == g[k].0 && #[trigger] deps[e].fixings@[j] == g[k].1[i].0
    } by {
        let t = choose|t: int| 0 <= t < hits.len() && #[trigger] stands_at(g, k, i, deps[hits[t].0].id@, (hits[t].1, vals[t]));
        assert(hits.contains(hits[t]));
        let e = hits[t].0;
        let j = choose|j: int| 0 <= j < deps[e].fixings@.len() && deps[e].fixings@[j] == hits[t].1;
        assert(deps[e].fixings@[j] == g[k].1[i].0);
    }
    assert forall|e: int, j: int| 0 <= e < deps.len() && 0 <= j < deps[e].fixings@.len() implies
        (in_window(deps[e].fixings@[j], from, to) <==> #[trigger] dated_in(g, deps[e].id@, deps[e].fixings@[j])) by {
        let d = deps[e].fixings@[j];
        if in_window(d, from, to) {
            assert(deps[e].fixings@.contains(d));
            assert(hits.contains((e, d)));
            let t = choose|t: int| 0 <= t < hits.len() && hits[t] == (e, d);
            assert(placed(g, deps[hits[t].0].id@, (hits[t].1, vals[t])));
            let (k, i) = choose|k: int, i: int| stands_at(g, k, i, deps[hits[t].0].id@, (hits[t].1, vals[t]));
            assert(is_position(g, k, i) && g[k].0 == deps[e].id@ && g[k].1[i].0 == d);
        }
        if dated_in(g, deps[e].id@, d) {
            let (k, i) = choose|k: int, i: int| is_position(g, k, i) && g[k].0 == deps[e].id@ && g[k].1[i].0 == d;
            assert(is_position(g, k, i));
        }
    }
}

/// The spot lookup of `spot` in `context` gives one outcome per identifier.
pub open spec fn spot_is_function<M, V, E, S>(context: &M, spot: &S) -> bool where S: Fn(&M, &String) -> Result<V, E> {
    forall|a: &String, b: &String, r1: Result<V, E>, r2: Result<V, E>|
        a@ == b@ && #[trigger] spot.ensures((context, a), r1) && #[trigger] spot.ensures((context, b), r2) ==> r1 == r2
}

/// How the fixings of the table are valued. Under sticky spot each carries
/// a spot level of its own identifier, whichever instrument referenced it,
/// so that when the spot lookup is a function of the identifier all fixings
/// of one identifier carry one value. Under sticky forward each carries the
/// forward, anchored at the new spot date `to` and read at its day, of an
/// instrument with that identifier.
pub proof fn lemma_policy_values<M, V, E, S, F>(
    policy: SpotDynamics,
    context: &M,
    spot: &S,
    forward: &F,
    from: int,
    to: i32,
    deps: Seq<Dependency>,
    vals: Seq<V>,
) where S: Fn(&M, &String) -> Result<V, E>, F: Fn(&M, usize, i32, i32) -> Result<V, E>
    requires
        all_resolved(policy, context, spot, forward, to, deps, window_hits(deps, from, to as int), vals),
    ensures
        policy == SpotDynamics::StickySpot ==> forall|k: int, i: int|
            #[trigger] is_position(grouped(deps, window_hits(deps, from, to as int), vals), k, i) ==> exists|id: String|
                id@ == grouped(deps, window_hits(deps, from, to as int), vals)[k].0
                && #[trigger] spot.ensures((context, &id), Ok::<V, E>(grouped(deps, window_hits(deps, from, to as int), vals)[k].1[i].1)),
        policy == SpotDynamics::StickySpot && spot_is_function(context, spot) ==> forall|k: int, i1: int, i2: int|
            #[trigger] is_position(grouped(deps, window_hits(deps, from, to as int), vals), k, i1)
            && #[trigger] is_position(grouped(deps, window_hits(deps, from, to as int), vals), k, i2) ==>
                grouped(deps, window_hits(deps, from, to as int), vals)[k].1[i1].1
                    == grouped(deps, window_hits(deps, from, to as int), vals)[k].1[i2].1,
        policy == SpotDynamics::StickyForward ==> forall|k: int, i: int|
            #[trigger] is_position(grouped(deps, window_hits(deps, from, to as int), vals), k, i) ==> exists|e: int|
                0 <= e < deps.len() && deps[e].id@ == grouped(deps, window_hits(deps, from, to as int), vals)[k].0
                && #[trigger] forward.ensures((context, e as usize, to, grouped(deps, window_hits(deps, from, to as int), vals)[k].1[i].0.date),
                    Ok::<V, E>(grouped(deps, window_hits(deps, from, to as int), vals)[k].1[i].1)),
{
    let hits = window_hits(deps, from, to as int);
    let g = grouped(deps, hits, vals);
    lemma_hits_members(deps, deps.len() as int, from, to as int);
    lemma_grouped_members(deps, hits, vals);
    assert forall|k: int, i: int| #[trigger] is_position(g, k, i) implies {
        &&& 0 <= hits[source_of(deps, hits, vals, k, i)].0 < deps.len()
        &&& resolves_to::<M, V, E, S, F>(policy, context, spot, forward, to, deps, hits[source_of(deps, hits, vals, k, i)],
            Ok(g[k].1[i].1))
        &&& deps[hits[source_of(deps, hits, vals, k, i)].0].id@ == g[k].0
        &&& hits[source_of(deps, hits, vals, k, i)].1 == g[k].1[i].0
    } by {
        let t = source_of(deps, hits, vals, k, i);
        assert(hits.contains(hits[t]));
        assert(resolves_to::<M, V, E, S, F>(policy, context, spot, forward, to, deps, hits[t], Ok(vals[t])));
    }
    if policy == SpotDynamics::StickySpot && spot_is_function(context, spot) {
        assert forall|k: int, i1: int, i2: int|
            #[trigger] is_position(g, k, i1) && #[trigger] is_position(g, k, i2) implies g[k].1[i1].1 == g[k].1[i2].1 by {
            let t1 = source_of(deps, hits, vals, k, i1);
            let t2 = source_of(deps, hits, vals, k, i2);
            let a = &deps[hits[t1].0].id;
            let b = &deps[hits[t2].0].id;
            assert(spot.ensures((context, a), Ok::<V, E>(g[k].1[i1].1)));
            assert(spot.ensures((context, b), Ok::<V, E>(g[k].1[i2].1)));
        }
    }
    if policy == SpotDynamics::StickyForward {
        assert forall|k: int, i: int| #[trigger] is_position(g, k, i) implies exists|e: int|
            0 <= e < deps.len() && deps[e].id@ == g[k].0
            && #[trigger] forward.ensures((context, e as usize, to, g[k].1[i].0.date), Ok::<V, E>(g[k].1[i].1)) by {
            let t = source_of(deps, hits, vals, k, i);
            let e = hits[t].0;
            assert(forward.ensures((context, e as usize, to, g[k].1[i].0.date), Ok::<V, E>(g[k].1[i].1)));
        }
    }
    if policy == SpotDynamics::StickySpot {
        assert forall|k: int, i: int| #[trigger] is_position(g, k, i) implies exists|id: String|
            id@ == g[k].0 && #[trigger] spot.ensures((context, &id), Ok::<V, E>(g[k].1[i].1)) by {
            let t = source_of(deps, hits, vals, k, i);
            let id = deps[hits[t].0].id;
            assert(spot.ensures((context, &id), Ok::<V, E>(g[k].1[i].1)));
        }
    }
}

/// The fixing of `hits` that stands at position `(k, i)` of the grouped fixings.
spec fn source_of<V>(deps: Seq<Dependency>, hits: Seq<(int, DateTime)>, vals: Seq<V>, k: int, i: int) -> int {
    choose|t: int| 0 <= t < hits.len() && #[trigger] stands_at(grouped(deps, hits, vals), k, i, deps[hits[t].0].id@,
        (hits[t].1, vals[t]))
}

} // verus!
