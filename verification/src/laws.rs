//! What reconciliation guarantees, stated over the chain and the scopes
//! before and after it.

use crate::matching::MatchLevel;
use crate::nested::{
    built_all, built_chain, built_scopes, chain_wf, common_depth, lemma_built_wf, lemma_chain_order,
    lemma_common_depth, lemma_dispose_below, level_ok, reconcilable, reconciled_chain, reconciled_scopes,
};
use crate::outlet::{Cursor, InnerModel, OutletModel};
use crate::render::{closes, hydrates, markup, opens};
use crate::scope::{disposed, lemma_disposed_wf, lemma_within_later, live, scope_ok, scopes_wf, within, Scope, ScopeId};
use vstd::prelude::*;

verus! {

/// The chain and the match agree on the route at each of the first `k`
/// levels.
pub open spec fn agree_to(c: Seq<OutletModel>, l: Seq<MatchLevel>, k: int) -> bool {
    &&& 0 <= k <= c.len()
    &&& k <= l.len()
    &&& forall|i: int| 0 <= i < k ==> (#[trigger] c[i]).id == l[i].id
}

/// The chain and the match have the same depth and the same route at every
/// level.
pub open spec fn same_routes(c: Seq<OutletModel>, l: Seq<MatchLevel>) -> bool {
    c.len() == l.len() && agree_to(c, l, c.len() as int)
}

/// Where the chain and the match agree on the first `k` levels and not on
/// the next, `k` is the number of levels kept.
pub proof fn lemma_common_depth_is(c: Seq<OutletModel>, l: Seq<MatchLevel>, k: int)
    requires
        agree_to(c, l, k),
        k == c.len() || k == l.len() || c[k].id != l[k].id,
    ensures
        common_depth(c, l) == k,
    decreases c.len(),
{
    if k > 0 {
        let c1 = c.drop_first();
        let l1 = l.drop_first();
        assert forall|i: int| 0 <= i < k - 1 implies (#[trigger] c1[i]).id == l1[i].id by {
            assert(c[i + 1].id == l[i + 1].id);
        }
        assert(c[0].id == l[0].id);
        lemma_common_depth_is(c1, l1, k - 1);
    }
}

/// Down a chain every scope lies within the scopes of the levels above it.
pub proof fn lemma_chain_within(s: Seq<Scope>, c: Seq<OutletModel>, i: int, j: int)
    requires
        chain_wf(s, c),
        scopes_wf(s),
        0 <= i <= j < c.len(),
    ensures
        within(s, c[i].owner.0 as int, c[j].owner.0 as int),
    decreases j - i,
{
    if i < j {
        lemma_chain_within(s, c, i, j - 1);
        assert(level_ok(s, c, j));
        assert(scope_ok(s, c[j].owner.0 as int));
    }
}

/// The state after a run of navigations, each reconciled with the state
/// that the one before left.
pub open spec fn navigated(
    s: Seq<Scope>,
    outer: ScopeId,
    c: Seq<OutletModel>,
    navigations: Seq<Seq<MatchLevel>>,
) -> (Seq<Scope>, Seq<OutletModel>)
    decreases navigations.len(),
{
    if navigations.len() == 0 {
        (s, c)
    } else {
        let before = navigated(s, outer, c, navigations.drop_last());
        (
            reconciled_scopes(before.0, outer, before.1, navigations.last()),
            reconciled_chain(before.0.len() as int, before.1, navigations.last()),
        )
    }
}

/// A navigation that matches the same route at every level keeps every
/// outlet: nothing is built, no scope is created or disposed, and only the
/// parameters change.
pub proof fn lemma_same_routes_keep_all(
    s: Seq<Scope>,
    outer: ScopeId,
    c: Seq<OutletModel>,
    l: Seq<MatchLevel>,
)
    requires
        same_routes(c, l),
    ensures
        reconcilable(c, l),
        reconciled_scopes(s, outer, c, l) == s,
        reconciled_chain(s.len() as int, c, l) == Seq::new(
            c.len(),
            |i: int| OutletModel { params: l[i].params, ..c[i] },
        ),
{
    lemma_common_depth_is(c, l, c.len() as int);
    assert(reconciled_scopes(s, outer, c, l) =~= s);
    assert(reconciled_chain(s.len() as int, c, l) =~= Seq::new(
        c.len(),
        |i: int| OutletModel { params: l[i].params, ..c[i] },
    ));
}

/// Identity is kept. Through any run of navigations that match the same
/// route at every level, whatever their parameters, the chain holds the
/// outlets it started with, in the scopes they started in, with the view
/// states they had; no scope is created and none is disposed.
pub proof fn lemma_identity_kept(
    s: Seq<Scope>,
    outer: ScopeId,
    c: Seq<OutletModel>,
    navigations: Seq<Seq<MatchLevel>>,
)
    requires
        forall|n: int| 0 <= n < navigations.len() ==> same_routes(c, #[trigger] navigations[n]),
    ensures
        navigated(s, outer, c, navigations).0 == s,
        navigated(s, outer, c, navigations).1.len() == c.len(),
        forall|i: int|
            0 <= i < c.len() ==> {
                let after = #[trigger] navigated(s, outer, c, navigations).1[i];
                &&& after.id == c[i].id
                &&& after.owner == c[i].owner
                &&& after.inner == c[i].inner
                &&& after.params == if navigations.len() == 0 {
                    c[i].params
                } else {
                    navigations.last()[i].params
                }
            },
    decreases navigations.len(),
{
    if navigations.len() > 0 {
        let earlier = navigations.drop_last();
        let l = navigations.last();
        assert forall|n: int| 0 <= n < earlier.len() implies same_routes(c, #[trigger] earlier[n]) by {
            assert(earlier[n] == navigations[n]);
        }
        lemma_identity_kept(s, outer, c, earlier);
        let before = navigated(s, outer, c, earlier);
        assert(same_routes(c, l));
        assert forall|i: int| 0 <= i < before.1.len() implies (#[trigger] before.1[i]).id == l[i].id by {
            assert(c[i].id == l[i].id);
        }
        lemma_same_routes_keep_all(before.0, outer, before.1, l);
    }
}

/// Identity diverges. Where a navigation matches another route at depth
/// `k` and the same routes above it, every outlet of the old chain from
/// depth `k` on is disposed, the chain holds outlets in new scopes from
/// depth `k` on, and the outlets above depth `k` are the ones that were
/// there, live, with the state they had. No scope outside the subtree of
/// the outlet at depth `k` is changed.
pub proof fn lemma_identity_diverges(
    s: Seq<Scope>,
    outer: ScopeId,
    c: Seq<OutletModel>,
    l: Seq<MatchLevel>,
    k: int,
)
    requires
        scopes_wf(s),
        s.len() + l.len() <= usize::MAX,
        chain_wf(s, c),
        live(s, outer),
        s[c[0].owner.0 as int].parent == Some(outer),
        agree_to(c, l, k),
        k < c.len(),
        k < l.len(),
        c[k].id != l[k].id,
    ensures
        reconcilable(c, l),
        reconciled_chain(s.len() as int, c, l).len() == l.len(),
        reconciled_scopes(s, outer, c, l).len() == s.len() + l.len() - k,
        forall|j: int| k <= j < c.len() ==> !live(reconciled_scopes(s, outer, c, l), (#[trigger] c[j]).owner),
        forall|j: int|
            k <= j < l.len() ==> {
                let fresh = #[trigger] reconciled_chain(s.len() as int, c, l)[j];
                &&& fresh.owner.0 >= s.len()
                &&& live(reconciled_scopes(s, outer, c, l), fresh.owner)
                &&& fresh.id == l[j].id
                &&& fresh.inner == InnerModel::Built { view: l[j].view, hydrated: false }
            },
        forall|i: int|
            0 <= i < k ==> {
                let kept = #[trigger] reconciled_chain(s.len() as int, c, l)[i];
                &&& kept.id == c[i].id
                &&& kept.owner == c[i].owner
                &&& kept.inner == c[i].inner
                &&& live(reconciled_scopes(s, outer, c, l), kept.owner)
            },
        forall|x: int|
            0 <= x < s.len() && !within(s, c[k].owner.0 as int, x) ==> (#[trigger] reconciled_scopes(
                s,
                outer,
                c,
                l,
            )[x]) == s[x],
{
    lemma_common_depth_is(c, l, k);
    let t = disposed(s, c[k].owner);
    let parent = if k == 0 {
        outer
    } else {
        c[k - 1].owner
    };
    let rest = l.skip(k);
    let u = reconciled_scopes(s, outer, c, l);
    let d = reconciled_chain(s.len() as int, c, l);
    lemma_disposed_wf(s, c[k].owner);
    assert(level_ok(s, c, k));
    assert(scope_ok(s, c[k].owner.0 as int));
    assert(live(t, parent)) by {
        if k > 0 {
            lemma_dispose_below(s, c, k);
            assert(level_ok(t, c.take(k), k - 1));
        } else {
            if within(s, c[0].owner.0 as int, outer.0 as int) {
                lemma_within_later(s, c[0].owner.0 as int, outer.0 as int);
            }
        }
    }
    lemma_built_wf(t, parent, rest, None);
    assert(u == built_scopes(t, parent, rest.len() as int));
    let fresh = built_chain(s.len() as int, rest, None);
    assert forall|j: int| k <= j < c.len() implies !live(u, (#[trigger] c[j]).owner) by {
        lemma_chain_within(s, c, k, j);
        assert(level_ok(s, c, j));
        assert(u.take(s.len() as int)[c[j].owner.0 as int] == u[c[j].owner.0 as int]);
    }
    assert forall|j: int| k <= j < l.len() implies {
        let f = #[trigger] d[j];
        &&& f.owner.0 >= s.len()
        &&& live(u, f.owner)
        &&& f.id == l[j].id
        &&& f.inner == InnerModel::Built { view: l[j].view, hydrated: false }
    } by {
        assert(d[j] == built_all(fresh)[j - k]);
        assert(level_ok(u, fresh, j - k));
    }
    assert forall|i: int| 0 <= i < k implies {
        let kept = #[trigger] d[i];
        &&& kept.id == c[i].id
        &&& kept.owner == c[i].owner
        &&& kept.inner == c[i].inner
        &&& live(u, kept.owner)
    } by {
        lemma_dispose_below(s, c, k);
        assert(level_ok(t, c.take(k), i));
        assert(u.take(s.len() as int)[c[i].owner.0 as int] == u[c[i].owner.0 as int]);
    }
    assert forall|x: int| 0 <= x < s.len() && !within(s, c[k].owner.0 as int, x) implies (#[trigger] u[x])
        == s[x] by {
        assert(u.take(s.len() as int)[x] == u[x]);
    }
}

/// Parameters are propagated. After any reconciliation the chain has the
/// depth of the match, and every level shows the route and holds the
/// parameters that the match gives for it.
pub proof fn lemma_params_latest(s: Seq<Scope>, c: Seq<OutletModel>, l: Seq<MatchLevel>)
    requires
        reconcilable(c, l),
    ensures
        reconciled_chain(s.len() as int, c, l).len() == l.len(),
        forall|i: int|
            0 <= i < l.len() ==> (#[trigger] reconciled_chain(s.len() as int, c, l)[i]).params
                == l[i].params && reconciled_chain(s.len() as int, c, l)[i].id == l[i].id,
{
    lemma_common_depth(c, l);
    let k = common_depth(c, l);
    let d = reconciled_chain(s.len() as int, c, l);
    let fresh = built_all(built_chain(s.len() as int, l.skip(k), None));
    assert forall|i: int| 0 <= i < l.len() implies (#[trigger] d[i]).params == l[i].params && d[i].id
        == l[i].id by {
        if i >= k {
            assert(d[i] == fresh[i - k]);
        }
    }
}

/// Truncation. A navigation to a match that ends above the end of the
/// chain, with the same routes as far as it goes, leaves a chain of the
/// depth of the match. The outlets that it keeps are the ones that were
/// there; every outlet below them is disposed, and no scope is created.
pub proof fn lemma_truncation(s: Seq<Scope>, outer: ScopeId, c: Seq<OutletModel>, l: Seq<MatchLevel>)
    requires
        scopes_wf(s),
        chain_wf(s, c),
        agree_to(c, l, l.len() as int),
        1 <= l.len() < c.len(),
    ensures
        reconcilable(c, l),
        reconciled_chain(s.len() as int, c, l).len() == l.len(),
        reconciled_scopes(s, outer, c, l) == disposed(s, c[l.len() as int].owner),
        forall|j: int| l.len() <= j < c.len() ==> !live(reconciled_scopes(s, outer, c, l), (#[trigger] c[j]).owner),
        forall|i: int|
            0 <= i < l.len() ==> {
                let kept = #[trigger] reconciled_chain(s.len() as int, c, l)[i];
                &&& kept.id == c[i].id
                &&& kept.owner == c[i].owner
                &&& kept.inner == c[i].inner
                &&& live(reconciled_scopes(s, outer, c, l), kept.owner)
            },
{
    let k = l.len() as int;
    lemma_common_depth_is(c, l, k);
    let t = disposed(s, c[k].owner);
    assert(reconciled_scopes(s, outer, c, l) =~= t);
    assert forall|j: int| k <= j < c.len() implies !live(t, (#[trigger] c[j]).owner) by {
        lemma_chain_within(s, c, k, j);
    }
    lemma_dispose_below(s, c, k);
    assert forall|i: int| 0 <= i < k implies {
        let kept = #[trigger] reconciled_chain(s.len() as int, c, l)[i];
        &&& kept.id == c[i].id
        &&& kept.owner == c[i].owner
        &&& kept.inner == c[i].inner
        &&& live(t, kept.owner)
    } by {
        assert(level_ok(t, c.take(k), i));
    }
}


/// Two chains hold the same outlets, level by level: the same routes in
/// the same scopes with the same parameters and the same markup, built or
/// not alike. They may differ in how their views were built.
pub open spec fn same_outlets(a: Seq<OutletModel>, b: Seq<OutletModel>) -> bool {
    &&& a.len() == b.len()
    &&& forall|i: int|
        0 <= i < a.len() ==> {
            &&& (#[trigger] a[i]).id == b[i].id
            &&& a[i].owner == b[i].owner
            &&& a[i].params == b[i].params
            &&& a[i].inner.template() == b[i].inner.template()
            &&& (a[i].inner is Built) == (b[i].inner is Built)
        }
}

/// Chains that hold the same outlets have the same markup.
pub proof fn lemma_same_markup(a: Seq<OutletModel>, b: Seq<OutletModel>)
    requires
        same_outlets(a, b),
    ensures
        opens(a) == opens(b),
        closes(a) == closes(b),
        markup(a) == markup(b),
    decreases a.len(),
{
    if a.len() > 0 {
        assert(a[a.len() - 1].inner.template() == b[a.len() - 1].inner.template());
        assert(a[0].inner.template() == b[0].inner.template());
        assert(same_outlets(a.drop_last(), b.drop_last())) by {
            assert forall|i: int| 0 <= i < a.len() - 1 implies {
                &&& (#[trigger] a.drop_last()[i]).id == b.drop_last()[i].id
                &&& a.drop_last()[i].owner == b.drop_last()[i].owner
                &&& a.drop_last()[i].params == b.drop_last()[i].params
                &&& a.drop_last()[i].inner.template() == b.drop_last()[i].inner.template()
                &&& (a.drop_last()[i].inner is Built) == (b.drop_last()[i].inner is Built)
            } by {
                assert(a[i].id == b[i].id);
            }
        }
        assert(same_outlets(a.drop_first(), b.drop_first())) by {
            assert forall|i: int| 0 <= i < a.len() - 1 implies {
                &&& (#[trigger] a.drop_first()[i]).id == b.drop_first()[i].id
                &&& a.drop_first()[i].owner == b.drop_first()[i].owner
                &&& a.drop_first()[i].params == b.drop_first()[i].params
                &&& a.drop_first()[i].inner.template() == b.drop_first()[i].inner.template()
                &&& (a.drop_first()[i].inner is Built) == (b.drop_first()[i].inner is Built)
            } by {
                assert(a[i + 1].id == b[i + 1].id);
            }
        }
        lemma_same_markup(a.drop_last(), b.drop_last());
        lemma_same_markup(a.drop_first(), b.drop_first());
    }
}

/// Rendering and hydrating make a round trip. The markup written for a
/// match is markup that the chain built for the same match over markup can
/// be attached to, from a cursor at its start; and the chain attached holds
/// the same outlets as the chain that the plain builder makes and builds.
pub proof fn lemma_render_hydrate_round_trip(first: int, l: Seq<MatchLevel>)
    ensures
        hydrates(
            markup(built_chain(first, l, None)),
            0,
            built_chain(first, l, Some(Cursor { pos: 0 })),
        ),
        same_outlets(
            built_all(built_chain(first, l, Some(Cursor { pos: 0 }))),
            built_all(built_chain(first, l, None)),
        ),
{
    let plain = built_chain(first, l, None);
    let waiting = built_chain(first, l, Some(Cursor { pos: 0 }));
    assert(same_outlets(waiting, plain));
    lemma_same_markup(waiting, plain);
    assert(markup(plain).subrange(0, markup(plain).len() as int) =~= markup(plain));
}

/// Chains that hold the same outlets behave alike in reconciliation: the
/// same levels are kept, the same scopes are disposed and created, and the
/// chains that result hold the same outlets again.
pub proof fn lemma_same_outlets_reconcile(
    s: Seq<Scope>,
    outer: ScopeId,
    a: Seq<OutletModel>,
    b: Seq<OutletModel>,
    l: Seq<MatchLevel>,
)
    requires
        same_outlets(a, b),
    ensures
        common_depth(a, l) == common_depth(b, l),
        reconcilable(a, l) == reconcilable(b, l),
        reconciled_scopes(s, outer, a, l) == reconciled_scopes(s, outer, b, l),
        same_outlets(reconciled_chain(s.len() as int, a, l), reconciled_chain(s.len() as int, b, l)),
{
    lemma_common_depth(a, l);
    let k = common_depth(a, l);
    assert forall|i: int| 0 <= i < k implies (#[trigger] b[i]).id == l[i].id by {
        assert(a[i].id == b[i].id);
    }
    if k < a.len() {
        assert(a[k].id == b[k].id);
        assert(a[k].owner == b[k].owner);
    }
    if k > 0 {
        assert(a[k - 1].owner == b[k - 1].owner);
    }
    lemma_common_depth_is(b, l, k);
    let x = reconciled_chain(s.len() as int, a, l);
    let y = reconciled_chain(s.len() as int, b, l);
    assert forall|i: int| 0 <= i < x.len() implies {
        &&& (#[trigger] x[i]).id == y[i].id
        &&& x[i].owner == y[i].owner
        &&& x[i].params == y[i].params
        &&& x[i].inner.template() == y[i].inner.template()
        &&& (x[i].inner is Built) == (y[i].inner is Built)
    } by {
        if i < k {
            assert(a[i].id == b[i].id);
        }
    }
}

} // verus!
