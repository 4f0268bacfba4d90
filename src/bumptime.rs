//! The time bump: moving the spot date of a valuation, restating the
//! portfolio when fixings fall due on the way, and otherwise bumping the
//! valuation model in place.
use vstd::prelude::*;
use crate::bumpspotdate::{BumpSpotDate, SpotDynamics};
use crate::dates::DateTime;
use crate::dependencies::{Dependency, DependencyModel};
use crate::fixings::{with_fixing, FixingMap};
use crate::window::{all_resolved, collect_fixings, failed_with, grouped, window_hits};

verus! {

/// The portfolio `before` was restated into `after`: every fixing in the
/// window `[from, shift.spot_date)` was valued under the shift's policy, the
/// values were grouped by identifier, and `restate` turned `before` and that
/// table (anchored at the new spot date) into `after`.
pub open spec fn restated<P, M, V, E, S, F, R>(
    shift: BumpSpotDate,
    context: &M,
    from: i32,
    deps: Seq<Dependency>,
    spot: &S,
    forward: &F,
    restate: &R,
    before: &Vec<P>,
    after: Seq<P>,
) -> bool where
    S: Fn(&M, &String) -> Result<V, E>,
    F: Fn(&M, usize, i32, i32) -> Result<V, E>,
    R: Fn(&Vec<P>, i32, &FixingMap<V>) -> Result<Vec<P>, E>,
{
    exists|vals: Seq<V>, table: FixingMap<V>, out: Vec<P>|
        all_resolved(shift.spot_dynamics, context, spot, forward, shift.spot_date, deps,
            window_hits(deps, from as int, shift.spot_date as int), vals)
        && table.wf()
        && table@ == grouped(deps, window_hits(deps, from as int, shift.spot_date as int), vals)
        && restate.ensures((before, shift.spot_date, &table), Ok::<Vec<P>, E>(out))
        && after == out@
}

/// The restatement of `before` failed with `err`, after every fixing in the
/// window was valued and grouped.
pub open spec fn restate_failed<P, M, V, E, S, F, R>(
    shift: BumpSpotDate,
    context: &M,
    from: i32,
    deps: Seq<Dependency>,
    spot: &S,
    forward: &F,
    restate: &R,
    before: &Vec<P>,
    err: E,
) -> bool where
    S: Fn(&M, &String) -> Result<V, E>,
    F: Fn(&M, usize, i32, i32) -> Result<V, E>,
    R: Fn(&Vec<P>, i32, &FixingMap<V>) -> Result<Vec<P>, E>,
{
    exists|vals: Seq<V>, table: FixingMap<V>|
        all_resolved(shift.spot_dynamics, context, spot, forward, shift.spot_date, deps,
            window_hits(deps, from as int, shift.spot_date as int), vals)
        && table.wf()
        && table@ == grouped(deps, window_hits(deps, from as int, shift.spot_date as int), vals)
        && restate.ensures((before, shift.spot_date, &table), Err::<Vec<P>, E>(err))
}

proof fn lemma_grouped_empty<V>(deps: Seq<Dependency>, hits: Seq<(int, DateTime)>, vals: Seq<V>)
    requires
        vals.len() == hits.len(),
    ensures
        (grouped(deps, hits, vals).len() == 0) == (hits.len() == 0),
{
    if hits.len() > 0 {
        let m = grouped(deps, hits.drop_last(), vals.drop_last());
        let id = deps[hits.last().0].id@;
        let x = (hits.last().1, vals.last());
        if exists|k: int| crate::fixings::key_at(m, id, k) {
            let k = choose|k: int| crate::fixings::key_at(m, id, k);
            assert(with_fixing(m, id, x).len() == m.len());
        } else {
            assert(with_fixing(m, id, x).len() == m.len() + 1);
        }
    }
}

/// A bump of the spot date of a whole valuation, together with the date
/// from which dividends go ex. It lives above the market data because it
/// affects every curve at once.
pub struct BumpTime {
    spot_date_bump: BumpSpotDate,
    ex_from: i32,
}

impl BumpTime {
    pub fn new(spot_date: i32, ex_from: i32, spot_dynamics: SpotDynamics) -> (r: BumpTime)
        ensures
            r.shift().spot_date == spot_date,
            r.shift().spot_dynamics == spot_dynamics,
            r.ex_from() == ex_from,
    {
        BumpTime { spot_date_bump: BumpSpotDate::new(spot_date, spot_dynamics), ex_from }
    }

    /// The spot-date move that this bump makes.
    pub closed spec fn shift(&self) -> BumpSpotDate {
        self.spot_date_bump
    }

    /// The ex-from date of this bump.
    pub closed spec fn ex_from(&self) -> int {
        self.ex_from as int
    }

    pub fn spot_date_bump(&self) -> (r: BumpSpotDate)
        ensures
            r == self.shift(),
    {
        self.spot_date_bump
    }

    /// Restates the portfolio with the fixings that fall due between the old
    /// spot date `old_spot_date` and the new one. If any fall due, the
    /// portfolio is replaced by what `restate` makes of it and the table of
    /// those fixings, and the result is `true`; otherwise it is left alone
    /// and the result is `false`. On failure the portfolio is left alone.
    pub fn update_instruments<P, M, V, E, S, F, R>(
        &self,
        instruments: &mut Vec<P>,
        context: &M,
        old_spot_date: i32,
        dependencies: &DependencyModel,
        spot: &S,
        forward: &F,
        restate: &R,
    ) -> (r: Result<bool, E>) where
        S: Fn(&M, &String) -> Result<V, E>,
        F: Fn(&M, usize, i32, i32) -> Result<V, E>,
        R: Fn(&Vec<P>, i32, &FixingMap<V>) -> Result<Vec<P>, E>,

        requires
            forall|c: &M, id: &String| spot.requires((c, id)),
            forall|c: &M, e: usize, a: i32, d: i32| forward.requires((c, e, a, d)),
            forall|p: &Vec<P>, a: i32, t: &FixingMap<V>| restate.requires((p, a, t)),
        ensures
            match r {
                Ok(true) => window_hits(dependencies.entries@, old_spot_date as int, self.shift().spot_date as int).len() > 0
                    && restated(self.shift(), context, old_spot_date, dependencies.entries@, spot, forward, restate,
                        old(instruments), final(instruments)@),
                Ok(false) => window_hits(dependencies.entries@, old_spot_date as int, self.shift().spot_date as int).len() == 0
                    && final(instruments)@ == old(instruments)@,
                Err(err) => final(instruments)@ == old(instruments)@ && (
                    failed_with(self.shift().spot_dynamics, context, spot, forward, self.shift().spot_date,
                        dependencies.entries@, old_spot_date as int, self.shift().spot_date as int, err)
                    || (window_hits(dependencies.entries@, old_spot_date as int, self.shift().spot_date as int).len() > 0
                        && restate_failed(self.shift(), context, old_spot_date, dependencies.entries@, spot, forward, restate,
                        old(instruments), err))),
            },
    {
        let new_spot_date = self.spot_date_bump.spot_date;
        let ghost ds = dependencies.entries@;
        let ghost hits = window_hits(ds, old_spot_date as int, new_spot_date as int);
        let collected = collect_fixings(
            dependencies,
            context,
            old_spot_date,
            new_spot_date,
            self.spot_date_bump.spot_dynamics,
            spot,
            forward,
        );
        let fixing_map = match collected {
            Ok(m) => m,
            Err(err) => {
                return Err(err);
            },
        };
        let ghost vals = choose|vals: Seq<V>|
            all_resolved(self.spot_date_bump.spot_dynamics, context, spot, forward, new_spot_date, ds, hits, vals)
            && fixing_map@ == grouped(ds, hits, vals);
        proof {
            lemma_grouped_empty(ds, hits, vals);
        }
        let any_changes = !fixing_map.is_empty();
        if any_changes {
            let replacement = restate(instruments, new_spot_date, &fixing_map);
            match replacement {
                Ok(mut replacement) => {
                    let ghost out = replacement;
                    instruments.clear();
                    instruments.append(&mut replacement);
                    proof {
                        assert(instruments@ =~= out@);
                    }
                    Ok(true)
                },
                Err(err) => Err(err),
            }
        } else {
            Ok(false)
        }
    }

    /// Applies the bump to the portfolio and to the valuation model `model`.
    /// If fixings fall due between the old spot date `old_spot_date` and the
    /// new one, the portfolio is restated with them, the model is left alone
    /// and the result is `true`: the model must be rebuilt. Otherwise the
    /// portfolio is left alone, the spot-date move is applied to the model
    /// once through `bump`, and the result is `false`. On failure the
    /// portfolio is left alone and the error is handed back.
    pub fn apply<P, M, V, E, S, F, R, B>(
        &self,
        instruments: &mut Vec<P>,
        model: &mut M,
        old_spot_date: i32,
        dependencies: &DependencyModel,
        spot: &S,
        forward: &F,
        restate: &R,
        bump: &B,
    ) -> (r: Result<bool, E>) where
        S: Fn(&M, &String) -> Result<V, E>,
        F: Fn(&M, usize, i32, i32) -> Result<V, E>,
        R: Fn(&Vec<P>, i32, &FixingMap<V>) -> Result<Vec<P>, E>,
        B: Fn(&mut M, &BumpSpotDate) -> Result<(), E>,

        requires
            forall|c: &M, id: &String| spot.requires((c, id)),
            forall|c: &M, e: usize, a: i32, d: i32| forward.requires((c, e, a, d)),
            forall|p: &Vec<P>, a: i32, t: &FixingMap<V>| restate.requires((p, a, t)),
            forall|m: &mut M, b: &BumpSpotDate| bump.requires((m, b)),
        ensures
            match r {
                Ok(true) => window_hits(dependencies.entries@, old_spot_date as int, self.shift().spot_date as int).len() > 0
                    && restated(self.shift(), &*old(model), old_spot_date, dependencies.entries@, spot, forward, restate,
                        old(instruments), final(instruments)@)
                    && *final(model) == *old(model),
                Ok(false) => window_hits(dependencies.entries@, old_spot_date as int, self.shift().spot_date as int).len() == 0
                    && final(instruments)@ == old(instruments)@
                    && exists|mm: &mut M, done: Result<(), E>| *mm == *old(model) && *final(mm) == *final(model)
                        && done is Ok && bump.ensures((mm, &self.shift()), done),
                Err(err) => final(instruments)@ == old(instruments)@ && (
                    (failed_with(self.shift().spot_dynamics, &*old(model), spot, forward, self.shift().spot_date,
                        dependencies.entries@, old_spot_date as int, self.shift().spot_date as int, err)
                        && *final(model) == *old(model))
                    || (window_hits(dependencies.entries@, old_spot_date as int, self.shift().spot_date as int).len() > 0
                        && restate_failed(self.shift(), &*old(model), old_spot_date, dependencies.entries@, spot, forward,
                        restate, old(instruments), err)
                        && *final(model) == *old(model))
                    || (window_hits(dependencies.entries@, old_spot_date as int, self.shift().spot_date as int).len() == 0
                        && exists|mm: &mut M| *mm == *old(model) && *final(mm) == *final(model)
                            && bump.ensures((mm, &self.shift()), Err::<(), E>(err)))),
            },
    {
        let modified = self.update_instruments(
            instruments,
            &*model,
            old_spot_date,
            dependencies,
            spot,
            forward,
            restate,
        );
        match modified {
            Ok(true) => Ok(true),
            Ok(false) => {
                let shift = self.spot_date_bump;
                let bumped = bump(model, &shift);
                match bumped {
                    Ok(()) => {
                        Ok(false)
                    },
                    Err(err) => Err(err),
                }
            },
            Err(err) => Err(err),
        }
    }
}

} // verus!
