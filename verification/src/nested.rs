//! The chain of outlets of a nested match: how it is built, and how it is
//! brought up to date when the path changes.

use crate::matching::{MatchLevel, RouteMatch};
use crate::outlet::{chain_model, empty_outlet, Cursor, InnerModel, Outlet, OutletModel, RouteData};
use crate::scope::{
    disposed, lemma_dispose_dead, lemma_disposed_wf, lemma_live_within_live, lemma_within_later, live,
    scope_ok, scopes_wf, surviving, within, Scope, ScopeArena, ScopeId,
};
use std::collections::VecDeque;
use vstd::prelude::*;

verus! {

/// The chain that the builder makes of `levels` when the first scope it
/// creates is number `first`: one pending outlet per level, outermost first,
/// each with a scope of its own. With a cursor, every outlet waits to be
/// attached to the markup that the cursor walks.
pub open spec fn built_chain(first: int, levels: Seq<MatchLevel>, hydrate: Option<Cursor>) -> Seq<
    OutletModel,
> {
    Seq::new(
        levels.len(),
        |i: int|
            OutletModel {
                id: levels[i].id,
                owner: ScopeId((first + i) as usize),
                params: levels[i].params,
                inner: InnerModel::Pending { view: levels[i].view, hydrate },
            },
    )
}

/// The scopes after the builder has made a chain of `n` levels below
/// `parent`: `n` live scopes more, the first a child of `parent`, each other
/// one a child of the one before.
pub open spec fn built_scopes(s: Seq<Scope>, parent: ScopeId, n: int) -> Seq<Scope> {
    s + Seq::new(
        n as nat,
        |i: int|
            Scope {
                parent: Some(
                    if i == 0 {
                        parent
                    } else {
                        ScopeId((s.len() + i - 1) as usize)
                    },
                ),
                alive: true,
            },
    )
}

/// Level `i` of the chain owns a live scope which, below the outermost
/// level, is a child of the scope one level up.
pub open spec fn level_ok(s: Seq<Scope>, c: Seq<OutletModel>, i: int) -> bool {
    &&& live(s, c[i].owner)
    &&& i > 0 ==> s[c[i].owner.0 as int].parent == Some(c[i - 1].owner)
}

/// A chain has a level, and every level is in order.
pub open spec fn chain_wf(s: Seq<Scope>, c: Seq<OutletModel>) -> bool {
    &&& c.len() >= 1
    &&& forall|i: int| 0 <= i < c.len() ==> #[trigger] level_ok(s, c, i)
}

/// The chain with every pending view handed to a driver.
pub open spec fn built_all(c: Seq<OutletModel>) -> Seq<OutletModel> {
    Seq::new(c.len(), |i: int| OutletModel { inner: c[i].inner.built(), ..c[i] })
}

/// What the builder leaves behind is well formed, and it leaves the scopes
/// that were there as they were.
pub proof fn lemma_built_wf(s: Seq<Scope>, parent: ScopeId, levels: Seq<MatchLevel>, hydrate: Option<Cursor>)
    requires
        scopes_wf(s),
        live(s, parent),
        levels.len() >= 1,
        s.len() + levels.len() <= usize::MAX,
    ensures
        scopes_wf(built_scopes(s, parent, levels.len() as int)),
        chain_wf(
            built_scopes(s, parent, levels.len() as int),
            built_chain(s.len() as int, levels, hydrate),
        ),
        built_scopes(s, parent, levels.len() as int).take(s.len() as int) == s,
        built_scopes(s, parent, levels.len() as int)[s.len() as int].parent == Some(parent),
{
    let t = built_scopes(s, parent, levels.len() as int);
    let c = built_chain(s.len() as int, levels, hydrate);
    assert forall|i: int| 0 <= i < t.len() implies #[trigger] scope_ok(t, i) by {
        if i < s.len() {
            assert(scope_ok(s, i));
        }
    }
    assert forall|i: int| 0 <= i < c.len() implies #[trigger] level_ok(t, c, i) by {}
    assert(t.take(s.len() as int) =~= s);
}

/// A chain stays well formed when scopes are added and none of the old
/// ones is changed.
pub proof fn lemma_chain_grow(s: Seq<Scope>, t: Seq<Scope>, c: Seq<OutletModel>)
    requires
        chain_wf(s, c),
        s.len() <= t.len(),
        t.take(s.len() as int) == s,
    ensures
        chain_wf(t, c),
{
    assert forall|i: int| 0 <= i < c.len() implies #[trigger] level_ok(t, c, i) by {
        assert(level_ok(s, c, i));
        assert(t.take(s.len() as int)[c[i].owner.0 as int] == t[c[i].owner.0 as int]);
    }
}

/// A chain stays well formed when its outlets change but keep their scopes.
pub proof fn lemma_chain_same_owners(s: Seq<Scope>, c: Seq<OutletModel>, d: Seq<OutletModel>)
    requires
        chain_wf(s, c),
        c.len() == d.len(),
        forall|i: int| 0 <= i < c.len() ==> (#[trigger] d[i]).owner == c[i].owner,
    ensures
        chain_wf(s, d),
{
    assert forall|i: int| 0 <= i < d.len() implies #[trigger] level_ok(s, d, i) by {
        assert(level_ok(s, c, i));
        if i > 0 {
            assert(d[i - 1].owner == c[i - 1].owner);
        }
    }
}

/// Two chains make one when the scope of the second's outermost level is a
/// child of the scope of the first's innermost.
pub proof fn lemma_chain_append(s: Seq<Scope>, c: Seq<OutletModel>, d: Seq<OutletModel>)
    requires
        chain_wf(s, c),
        chain_wf(s, d),
        s[d[0].owner.0 as int].parent == Some(c.last().owner),
    ensures
        chain_wf(s, c + d),
{
    let e = c + d;
    assert forall|i: int| 0 <= i < e.len() implies #[trigger] level_ok(s, e, i) by {
        if i < c.len() {
            assert(level_ok(s, c, i));
        } else {
            assert(level_ok(s, d, i - c.len()));
        }
    }
}

/// Down a chain the scopes were created one after the other.
pub proof fn lemma_chain_order(s: Seq<Scope>, c: Seq<OutletModel>, i: int, j: int)
    requires
        scopes_wf(s),
        chain_wf(s, c),
        0 <= i < j < c.len(),
    ensures
        c[i].owner.0 < c[j].owner.0,
    decreases j - i,
{
    assert(level_ok(s, c, j));
    assert(scope_ok(s, c[j].owner.0 as int));
    if i < j - 1 {
        lemma_chain_order(s, c, i, j - 1);
    }
}

/// Disposing the scope of one level of a chain leaves the levels above it
/// as they are: a well-formed chain of live scopes.
pub proof fn lemma_dispose_below(s: Seq<Scope>, c: Seq<OutletModel>, at: int)
    requires
        scopes_wf(s),
        chain_wf(s, c),
        0 < at < c.len(),
    ensures
        chain_wf(disposed(s, c[at].owner), c.take(at)),
        scopes_wf(disposed(s, c[at].owner)),
{
    let t = disposed(s, c[at].owner);
    lemma_disposed_wf(s, c[at].owner);
    let kept = c.take(at);
    assert forall|i: int| 0 <= i < kept.len() implies #[trigger] level_ok(t, kept, i) by {
        assert(level_ok(s, c, i));
        lemma_chain_order(s, c, i, at);
        if within(s, c[at].owner.0 as int, c[i].owner.0 as int) {
            lemma_within_later(s, c[at].owner.0 as int, c[i].owner.0 as int);
        }
    }
}

/// Builds the outlets of `route_match` and of the levels below it and
/// appends them to `outlets`, outermost first. The level's scope is created
/// first, below `parent`; the levels below are built in it before the level
/// itself is put in front of them.
fn inner_view(
    outlets: &mut VecDeque<Outlet>,
    arena: &mut ScopeArena,
    parent: ScopeId,
    route_match: RouteMatch,
    hydrate: Option<Cursor>,
) -> (outlet: Outlet)
    requires
        old(arena).wf(),
        live(old(arena)@, parent),
    ensures
        final(arena).wf(),
        final(arena)@ == built_scopes(old(arena)@, parent, route_match.levels().len() as int),
        final(arena).spec_current() == old(arena).spec_current(),
        chain_model(final(outlets)@) == chain_model(old(outlets)@) + built_chain(
            old(arena)@.len() as int,
            route_match.levels(),
            hydrate,
        ),
        outlet@ == built_chain(old(arena)@.len() as int, route_match.levels(), hydrate)[0],
    decreases route_match.levels().len(),
{
    proof {
        route_match.lemma_levels();
    }
    let ghost levels = route_match.levels();
    let ghost before = chain_model(outlets@);
    let owner = arena.child(parent);
    let id = route_match.as_id();
    let params = route_match.to_params();
    let at = outlets.len();
    let (view, child) = route_match.into_view_and_child();
    match child {
        Some(child) => {
            let _ = inner_view(outlets, arena, owner, child, hydrate);
            assert(child.levels() =~= levels.skip(1));
            assert(chain_model(outlets@).len() == outlets@.len());
            assert(before.len() == at);
        },
        None => {},
    }
    let outlet = Outlet::new(id, owner, params, view, hydrate);
    let ghost below = chain_model(outlets@);
    outlets.insert(at, outlet.clone());
    assert(chain_model(outlets@) =~= below.insert(at as int, outlet@));
    assert(arena@ =~= built_scopes(old(arena)@, parent, levels.len() as int));
    assert(chain_model(outlets@) =~= before + built_chain(old(arena)@.len() as int, levels, hydrate));
    outlet
}

/// Builds the outlets of `route_match` and of the levels below it, each in a
/// new scope, the outermost below `parent`; appends them to `outlets`,
/// outermost first, and returns a copy of the outermost. The views wait for
/// a driver that creates their output.
pub fn get_inner_view(
    outlets: &mut VecDeque<Outlet>,
    arena: &mut ScopeArena,
    parent: ScopeId,
    route_match: RouteMatch,
) -> (outlet: Outlet)
    requires
        old(arena).wf(),
        live(old(arena)@, parent),
    ensures
        final(arena).wf(),
        final(arena)@ == built_scopes(old(arena)@, parent, route_match.levels().len() as int),
        final(arena).spec_current() == old(arena).spec_current(),
        chain_model(final(outlets)@) == chain_model(old(outlets)@) + built_chain(
            old(arena)@.len() as int,
            route_match.levels(),
            None,
        ),
        outlet@ == built_chain(old(arena)@.len() as int, route_match.levels(), None)[0],
{
    inner_view(outlets, arena, parent, route_match, None)
}

/// As [`get_inner_view`], for markup that is already there: the views wait
/// to be attached to the markup that `cursor` walks.
pub fn get_inner_view_hydrate(
    outlets: &mut VecDeque<Outlet>,
    arena: &mut ScopeArena,
    parent: ScopeId,
    route_match: RouteMatch,
    cursor: &Cursor,
) -> (outlet: Outlet)
    requires
        old(arena).wf(),
        live(old(arena)@, parent),
    ensures
        final(arena).wf(),
        final(arena)@ == built_scopes(old(arena)@, parent, route_match.levels().len() as int),
        final(arena).spec_current() == old(arena).spec_current(),
        chain_model(final(outlets)@) == chain_model(old(outlets)@) + built_chain(
            old(arena)@.len() as int,
            route_match.levels(),
            Some(*cursor),
        ),
        outlet@ == built_chain(old(arena)@.len() as int, route_match.levels(), Some(*cursor))[0],
{
    inner_view(outlets, arena, parent, route_match, Some(*cursor))
}

/// Number of leading levels at which the chain shows the route that the new
/// match names there.
pub open spec fn common_depth(c: Seq<OutletModel>, l: Seq<MatchLevel>) -> int
    decreases c.len(),
{
    if c.len() == 0 || l.len() == 0 || c[0].id != l[0].id {
        0
    } else {
        1 + common_depth(c.drop_first(), l.drop_first())
    }
}

/// The new match does not ask for a level below the last one of a chain
/// that it agrees with all the way down.
pub open spec fn reconcilable(c: Seq<OutletModel>, l: Seq<MatchLevel>) -> bool {
    common_depth(c, l) < c.len() || l.len() <= c.len()
}

/// The chain after reconciliation with the levels `l`, when the next scope
/// to be created is number `first`. The levels that agree keep their outlet,
/// with the new parameters; from the first level that differs on, the chain
/// holds outlets that were made and built for the new match.
pub open spec fn reconciled_chain(first: int, c: Seq<OutletModel>, l: Seq<MatchLevel>) -> Seq<
    OutletModel,
> {
    let k = common_depth(c, l);
    Seq::new(k as nat, |i: int| OutletModel { params: l[i].params, ..c[i] }) + built_all(built_chain(first, l.skip(k), None))
}

/// The scopes after reconciliation. The scope of the first outlet that is
/// not kept is disposed, and with it those of the outlets below; the scopes
/// of the new outlets are created below the last outlet kept, or below
/// `outer` if none is.
pub open spec fn reconciled_scopes(
    s: Seq<Scope>,
    outer: ScopeId,
    c: Seq<OutletModel>,
    l: Seq<MatchLevel>,
) -> Seq<Scope> {
    let k = common_depth(c, l);
    let kept = if k < c.len() {
        disposed(s, c[k].owner)
    } else {
        s
    };
    built_scopes(
        kept,
        if k == 0 {
            outer
        } else {
            c[k - 1].owner
        },
        l.len() - k,
    )
}

/// What [`common_depth`] counts: the levels before it agree, and the level
/// at it, if both sides have one, differs.
pub proof fn lemma_common_depth(c: Seq<OutletModel>, l: Seq<MatchLevel>)
    ensures
        0 <= common_depth(c, l) <= c.len(),
        common_depth(c, l) <= l.len(),
        forall|i: int| 0 <= i < common_depth(c, l) ==> (#[trigger] c[i]).id == l[i].id,
        common_depth(c, l) < c.len() && common_depth(c, l) < l.len() ==> c[common_depth(c, l)].id
            != l[common_depth(c, l)].id,
    decreases c.len(),
{
    if !(c.len() == 0 || l.len() == 0 || c[0].id != l[0].id) {
        let c1 = c.drop_first();
        let l1 = l.drop_first();
        lemma_common_depth(c1, l1);
        let k1 = common_depth(c1, l1);
        assert forall|i: int| 0 <= i < k1 + 1 implies (#[trigger] c[i]).id == l[i].id by {
            if i > 0 {
                assert(c1[i - 1] == c[i]);
                assert(l1[i - 1] == l[i]);
            }
        }
        if k1 + 1 < c.len() && k1 + 1 < l.len() {
            assert(c1[k1] == c[k1 + 1]);
            assert(l1[k1] == l[k1 + 1]);
        }
    }
}

/// Reconciliation where the outermost levels agree: the outermost outlet is
/// kept with the new parameters, and the rest is the reconciliation of the
/// levels below, under the scope of the outlet kept.
pub proof fn lemma_reconciled_step(
    s: Seq<Scope>,
    outer: ScopeId,
    c: Seq<OutletModel>,
    l: Seq<MatchLevel>,
)
    requires
        c.len() > 0,
        l.len() > 0,
        c[0].id == l[0].id,
    ensures
        common_depth(c, l) == 1 + common_depth(c.drop_first(), l.drop_first()),
        reconcilable(c, l) == reconcilable(c.drop_first(), l.drop_first()),
        reconciled_chain(s.len() as int, c, l) == seq![OutletModel { params: l[0].params, ..c[0] }]
            + reconciled_chain(s.len() as int, c.drop_first(), l.drop_first()),
        reconciled_scopes(s, outer, c, l) == reconciled_scopes(
            s,
            c[0].owner,
            c.drop_first(),
            l.drop_first(),
        ),
{
    let c1 = c.drop_first();
    let l1 = l.drop_first();
    let k1 = common_depth(c1, l1);
    lemma_common_depth(c1, l1);
    assert(l.skip(k1 + 1) =~= l1.skip(k1));
    if k1 < c1.len() {
        assert(c1[k1] == c[k1 + 1]);
    }
    if k1 > 0 {
        assert(c1[k1 - 1] == c[k1]);
    }
    assert(reconciled_chain(s.len() as int, c, l) =~= seq![OutletModel { params: l[0].params, ..c[0] }]
        + reconciled_chain(s.len() as int, c1, l1)) by {
        let lhs = reconciled_chain(s.len() as int, c, l);
        let rhs = seq![OutletModel { params: l[0].params, ..c[0] }] + reconciled_chain(
            s.len() as int,
            c1,
            l1,
        );
        assert(lhs.len() == rhs.len());
        assert forall|i: int| 0 <= i < lhs.len() implies lhs[i] == rhs[i] by {
            if 0 < i <= k1 {
                assert(c1[i - 1] == c[i]);
                assert(l1[i - 1] == l[i]);
            }
        }
    }
}

/// How a chain falls into the levels before `at`, the level at `at` and
/// the levels after it.
pub proof fn lemma_take_skip(c: Seq<OutletModel>, at: int)
    requires
        0 <= at < c.len(),
    ensures
        c.skip(at).drop_first() == c.skip(at + 1),
        c.skip(at)[0] == c[at],
        c.take(at).push(c[at]) == c.take(at + 1),
{
    assert(c.skip(at).drop_first() =~= c.skip(at + 1));
    assert(c.take(at).push(c[at]) =~= c.take(at + 1));
}

/// Reconciliation where the match ends at a level that agrees: that outlet
/// is kept with the new parameters, and what the chain holds below it is
/// disposed.
pub proof fn lemma_reconciled_leaf(
    s: Seq<Scope>,
    outer: ScopeId,
    c: Seq<OutletModel>,
    l: Seq<MatchLevel>,
)
    requires
        c.len() > 0,
        l.len() == 1,
        c[0].id == l[0].id,
    ensures
        common_depth(c, l) == 1,
        reconcilable(c, l),
        reconciled_chain(s.len() as int, c, l) == seq![OutletModel { params: l[0].params, ..c[0] }],
        reconciled_scopes(s, outer, c, l) == if c.len() > 1 {
            disposed(s, c[1].owner)
        } else {
            s
        },
{
    assert(l.drop_first().len() == 0);
    assert(common_depth(c.drop_first(), l.drop_first()) == 0);
    assert(reconciled_chain(s.len() as int, c, l) =~= seq![OutletModel { params: l[0].params, ..c[0] }]);
    let kept = if c.len() > 1 {
        disposed(s, c[1].owner)
    } else {
        s
    };
    assert(reconciled_scopes(s, outer, c, l) =~= kept);
}

/// Reconciliation where the outermost levels differ: the whole chain is
/// disposed and replaced by one built for the match.
pub proof fn lemma_reconciled_diverged(
    s: Seq<Scope>,
    outer: ScopeId,
    c: Seq<OutletModel>,
    l: Seq<MatchLevel>,
)
    requires
        c.len() > 0,
        l.len() > 0,
        c[0].id != l[0].id,
    ensures
        common_depth(c, l) == 0,
        reconcilable(c, l),
        reconciled_chain(s.len() as int, c, l) == built_all(built_chain(s.len() as int, l, None)),
        reconciled_scopes(s, outer, c, l) == built_scopes(disposed(s, c[0].owner), outer, l.len() as int),
{
    assert(l.skip(0) =~= l);
    assert(reconciled_chain(s.len() as int, c, l) =~= built_all(built_chain(s.len() as int, l, None)));
}


/// What replacing the levels of a chain from `at` on leaves behind is well
/// formed.
pub proof fn lemma_replaced_wf(s: Seq<Scope>, c: Seq<OutletModel>, at: int, l: Seq<MatchLevel>)
    requires
        scopes_wf(s),
        chain_wf(s, c),
        0 < at < c.len(),
        l.len() >= 1,
        s.len() + l.len() <= usize::MAX,
    ensures
        scopes_wf(built_scopes(disposed(s, c[at].owner), c[at - 1].owner, l.len() as int)),
        chain_wf(
            built_scopes(disposed(s, c[at].owner), c[at - 1].owner, l.len() as int),
            c.take(at) + built_all(built_chain(s.len() as int, l, None)),
        ),
        live(disposed(s, c[at].owner), c[at - 1].owner),
        built_scopes(disposed(s, c[at].owner), c[at - 1].owner, l.len() as int).take(s.len() as int)
            == disposed(s, c[at].owner),
{
    let t = disposed(s, c[at].owner);
    let parent = c[at - 1].owner;
    let u = built_scopes(t, parent, l.len() as int);
    let kept = c.take(at);
    let fresh = built_chain(s.len() as int, l, None);
    lemma_dispose_below(s, c, at);
    assert(level_ok(t, kept, at - 1));
    lemma_built_wf(t, parent, l, None);
    lemma_chain_grow(t, u, kept);
    lemma_chain_same_owners(u, fresh, built_all(fresh));
    lemma_chain_append(u, kept, built_all(fresh));
}

/// Adding scopes does not change which ambient scope survives.
pub proof fn lemma_surviving_grow(current: Option<ScopeId>, s: Seq<Scope>, t: Seq<Scope>)
    requires
        s.len() <= t.len(),
        t.take(s.len() as int) == s,
        current matches Some(c) ==> c.0 < s.len(),
    ensures
        surviving(current, t) == surviving(current, s),
{
    match current {
        Some(c) => {
            assert(t.take(s.len() as int)[c.0 as int] == t[c.0 as int]);
        },
        None => {},
    }
}

/// Hands the views of the outlets from `from` on to a driver that builds
/// them.
fn build_from(outlets: &mut VecDeque<Outlet>, from: usize)
    requires
        from <= old(outlets)@.len(),
    ensures
        chain_model(final(outlets)@) == chain_model(old(outlets)@).take(from as int) + built_all(chain_model(old(outlets)@).skip(from as int)),
{
    let ghost before = chain_model(outlets@);
    let n = outlets.len();
    let mut i: usize = from;
    while i < n
        invariant
            from <= i <= n,
            n == outlets@.len(),
            n == before.len(),
            forall|j: int| 0 <= j < from || i <= j < n ==> (#[trigger] outlets@[j])@ == before[j],
            forall|j: int|
                from <= j < i ==> (#[trigger] outlets@[j])@ == (OutletModel {
                    inner: before[j].inner.built(),
                    ..before[j]
                }),
        decreases n - i,
    {
        let outlet = outlets.remove(i).unwrap();
        outlets.insert(i, outlet.build());
        i += 1;
    }
    assert(chain_model(outlets@) =~= before.take(from as int) + built_all(before.skip(from as int)));
}

/// Cuts a chain down to its first `len` levels and disposes what is cut.
fn truncate_chain(outlets: &mut VecDeque<Outlet>, arena: &mut ScopeArena, len: usize)
    requires
        old(arena).wf(),
        chain_wf(old(arena)@, chain_model(old(outlets)@)),
        1 <= len <= old(outlets)@.len(),
    ensures
        final(arena).wf(),
        final(arena)@ == if len < old(outlets)@.len() {
            disposed(old(arena)@, chain_model(old(outlets)@)[len as int].owner)
        } else {
            old(arena)@
        },
        final(arena).spec_current() == surviving(old(arena).spec_current(), final(arena)@),
        chain_model(final(outlets)@) == chain_model(old(outlets)@).take(len as int),
        chain_wf(final(arena)@, chain_model(final(outlets)@)),
{
    let ghost c = chain_model(outlets@);
    if len < outlets.len() {
        let below = outlets[len].owner();
        arena.dispose(below);
        outlets.truncate(len);
        proof {
            lemma_dispose_below(old(arena)@, c, len as int);
        }
    }
    assert(chain_model(outlets@) =~= c.take(len as int));
}

/// Disposes the levels of a chain from `at` on and puts in their place the
/// outlets of `route_match`, built, with their scopes below the level
/// before `at`.
fn replace_from(outlets: &mut VecDeque<Outlet>, arena: &mut ScopeArena, at: usize, route_match: RouteMatch)
    requires
        old(arena).wf(),
        chain_wf(old(arena)@, chain_model(old(outlets)@)),
        1 <= at < old(outlets)@.len(),
    ensures
        final(arena).wf(),
        final(arena)@ == built_scopes(
            disposed(old(arena)@, chain_model(old(outlets)@)[at as int].owner),
            chain_model(old(outlets)@)[at - 1].owner,
            route_match.levels().len() as int,
        ),
        final(arena).spec_current() == surviving(old(arena).spec_current(), final(arena)@),
        chain_model(final(outlets)@) == chain_model(old(outlets)@).take(at as int) + built_all(built_chain(old(arena)@.len() as int, route_match.levels(), None)),
        chain_wf(final(arena)@, chain_model(final(outlets)@)),
{
    let ghost s = arena@;
    let ghost c = chain_model(outlets@);
    let ghost l = route_match.levels();
    proof {
        route_match.lemma_levels();
    }
    truncate_chain(outlets, arena, at);
    let parent = outlets[at - 1].owner();
    let ghost t = arena@;
    assert(parent == c.take(at as int)[at - 1].owner);
    assert(level_ok(t, c.take(at as int), at - 1));
    let _ = get_inner_view(outlets, arena, parent, route_match);
    let ghost mid = chain_model(outlets@);
    assert(mid.len() == outlets@.len());
    build_from(outlets, at);
    proof {
        let fresh = built_chain(s.len() as int, l, None);
        assert(mid.take(at as int) =~= c.take(at as int));
        assert(mid.skip(at as int) =~= fresh);
        lemma_replaced_wf(s, c, at as int, l);
        lemma_surviving_grow(old(arena).spec_current(), t, arena@);
    }
}

/// Brings the levels of a chain from `*items` on up to date with
/// `route_match`, whose outermost level belongs at `*items`; the levels
/// before it are settled. An outlet that shows the route matched at its level
/// is kept and given the new parameters. At the first level that shows
/// another route, that outlet and those below are disposed and replaced by
/// outlets built for the match. Where the match ends before the chain does,
/// the rest of the chain is disposed. `*items` ends as the length of the
/// chain.
pub fn rebuild_inner(
    items: &mut usize,
    outlets: &mut VecDeque<Outlet>,
    arena: &mut ScopeArena,
    route_match: RouteMatch,
)
    requires
        old(arena).wf(),
        chain_wf(old(arena)@, chain_model(old(outlets)@)),
        1 <= *old(items) <= old(outlets)@.len(),
        reconcilable(chain_model(old(outlets)@).skip(*old(items) as int), route_match.levels()),
    ensures
        final(arena).wf(),
        final(arena)@ == reconciled_scopes(
            old(arena)@,
            chain_model(old(outlets)@)[*old(items) - 1].owner,
            chain_model(old(outlets)@).skip(*old(items) as int),
            route_match.levels(),
        ),
        final(arena).spec_current() == surviving(old(arena).spec_current(), final(arena)@),
        chain_model(final(outlets)@) == chain_model(old(outlets)@).take(*old(items) as int)
            + reconciled_chain(
            old(arena)@.len() as int,
            chain_model(old(outlets)@).skip(*old(items) as int),
            route_match.levels(),
        ),
        chain_wf(final(arena)@, chain_model(final(outlets)@)),
        *final(items) == final(outlets)@.len(),
    decreases route_match.levels().len(),
{
    let ghost s = arena@;
    let ghost c = chain_model(outlets@);
    let ghost l = route_match.levels();
    let idx = *items;
    let ghost tail = c.skip(idx as int);
    proof {
        route_match.lemma_levels();
        lemma_common_depth(tail, l);
        assert(tail.len() == c.len() - idx);
        assert(idx < outlets@.len());
        assert(outlets@.len() == outlets.len());
        lemma_take_skip(c, idx as int);
    }
    let new_id = route_match.as_id();
    if new_id == outlets[idx].id() {
        let prev = outlets.remove(idx).unwrap();
        outlets.insert(idx, prev.set_params(route_match.to_params()));
        *items = idx + 1;
        let ghost kept = OutletModel { params: l[0].params, ..c[idx as int] };
        let ghost c1 = chain_model(outlets@);
        proof {
            assert(c1 =~= c.update(idx as int, kept));
            assert(c1.skip(idx + 1) =~= tail.drop_first());
            assert(c1.take(idx + 1) =~= c.take(idx as int) + seq![kept]);
            lemma_chain_same_owners(s, c, c1);
        }
        let (_, child) = route_match.into_view_and_child();
        match child {
            Some(child) => {
                proof {
                    assert(child.levels() =~= l.drop_first());
                    lemma_reconciled_step(s, c[idx - 1].owner, tail, l);
                }
                rebuild_inner(items, outlets, arena, child);
                assert(chain_model(outlets@) =~= c.take(idx as int) + reconciled_chain(s.len() as int, tail, l));
            },
            None => {
                proof {
                    lemma_reconciled_leaf(s, c[idx - 1].owner, tail, l);
                    if idx + 1 < c.len() {
                        assert(c1[idx + 1] == tail[1]);
                    }
                }
                truncate_chain(outlets, arena, idx + 1);
                assert(chain_model(outlets@) =~= c.take(idx as int) + reconciled_chain(s.len() as int, tail, l));
            },
        }
    } else {
        proof {
            lemma_reconciled_diverged(s, c[idx - 1].owner, tail, l);
        }
        replace_from(outlets, arena, idx, route_match);
        *items = outlets.len();
    }
}


/// Level `i` of the chain does not lie within the scope `r`.
pub open spec fn level_apart(s: Seq<Scope>, r: ScopeId, c: Seq<OutletModel>, i: int) -> bool {
    !within(s, r.0 as int, c[i].owner.0 as int)
}

/// No level of the chain lies within the scope `r`.
pub open spec fn apart(s: Seq<Scope>, r: ScopeId, c: Seq<OutletModel>) -> bool {
    forall|i: int| 0 <= i < c.len() ==> #[trigger] level_apart(s, r, c, i)
}

/// A well-formed chain lies apart from every scope that is not live.
pub proof fn lemma_apart_from_dead(s: Seq<Scope>, r: ScopeId, c: Seq<OutletModel>)
    requires
        scopes_wf(s),
        s.len() <= usize::MAX,
        chain_wf(s, c),
        !live(s, r),
    ensures
        apart(s, r, c),
{
    assert forall|i: int| 0 <= i < c.len() implies #[trigger] level_apart(s, r, c, i) by {
        assert(level_ok(s, c, i));
        if within(s, r.0 as int, c[i].owner.0 as int) {
            lemma_within_later(s, r.0 as int, c[i].owner.0 as int);
            lemma_live_within_live(s, r.0 as int, c[i].owner.0 as int);
        }
    }
}

/// Disposing a scope leaves a chain that lies apart from it well formed.
pub proof fn lemma_dispose_apart(s: Seq<Scope>, r: ScopeId, c: Seq<OutletModel>)
    requires
        scopes_wf(s),
        chain_wf(s, c),
        apart(s, r, c),
    ensures
        scopes_wf(disposed(s, r)),
        chain_wf(disposed(s, r), c),
{
    lemma_disposed_wf(s, r);
    let t = disposed(s, r);
    assert forall|i: int| 0 <= i < c.len() implies #[trigger] level_ok(t, c, i) by {
        assert(level_ok(s, c, i));
        assert(level_apart(s, r, c, i));
    }
}

/// A matched chain that no driver has consumed: what the builder makes of a
/// match.
#[derive(Debug)]
pub struct NestedRouteView {
    outlets: VecDeque<Outlet>,
}

/// A matched chain in use: the state that is kept between navigations.
#[derive(Debug)]
pub struct NestedRouteState {
    outlets: VecDeque<Outlet>,
    mounted: bool,
}

impl NestedRouteView {
    /// The outlets, outermost first.
    pub closed spec fn chain(&self) -> Seq<OutletModel> {
        chain_model(self.outlets@)
    }

    /// Builds a fresh chain for `route_match`: one pending outlet per level,
    /// each in a new scope, the outermost below `outer_owner` and every other
    /// one below the level above it. No chain that exists is touched.
    pub fn new(arena: &mut ScopeArena, outer_owner: ScopeId, route_match: RouteMatch) -> (view: Self)
        requires
            old(arena).wf(),
            live(old(arena)@, outer_owner),
        ensures
            final(arena).wf(),
            final(arena)@ == built_scopes(old(arena)@, outer_owner, route_match.levels().len() as int),
            final(arena).spec_current() == old(arena).spec_current(),
            view.chain() == built_chain(old(arena)@.len() as int, route_match.levels(), None),
            chain_wf(final(arena)@, view.chain()),
            final(arena)@[view.chain()[0].owner.0 as int].parent == Some(outer_owner),
    {
        proof {
            route_match.lemma_levels();
        }
        let mut outlets: VecDeque<Outlet> = VecDeque::new();
        let ghost levels = route_match.levels();
        let _ = get_inner_view(&mut outlets, arena, outer_owner, route_match);
        proof {
            lemma_built_wf(old(arena)@, outer_owner, levels, None);
            assert(chain_model(outlets@) =~= built_chain(old(arena)@.len() as int, levels, None));
        }
        NestedRouteView { outlets }
    }

    /// Builds a fresh chain for `route_match` over markup that is already
    /// there. The chain is the one that [`NestedRouteView::new`] builds,
    /// but for this: every view waits to be attached to the markup that
    /// `cursor` walks.
    pub fn new_hydrate(
        arena: &mut ScopeArena,
        outer_owner: ScopeId,
        route_match: RouteMatch,
        cursor: &Cursor,
    ) -> (view: Self)
        requires
            old(arena).wf(),
            live(old(arena)@, outer_owner),
        ensures
            final(arena).wf(),
            final(arena)@ == built_scopes(old(arena)@, outer_owner, route_match.levels().len() as int),
            final(arena).spec_current() == old(arena).spec_current(),
            view.chain() == built_chain(old(arena)@.len() as int, route_match.levels(), Some(*cursor)),
            chain_wf(final(arena)@, view.chain()),
            final(arena)@[view.chain()[0].owner.0 as int].parent == Some(outer_owner),
    {
        proof {
            route_match.lemma_levels();
        }
        let mut outlets: VecDeque<Outlet> = VecDeque::new();
        let ghost levels = route_match.levels();
        let _ = get_inner_view_hydrate(&mut outlets, arena, outer_owner, route_match, cursor);
        proof {
            lemma_built_wf(old(arena)@, outer_owner, levels, Some(*cursor));
            assert(chain_model(outlets@) =~= built_chain(old(arena)@.len() as int, levels, Some(*cursor)));
        }
        NestedRouteView { outlets }
    }

    /// Number of levels.
    pub fn len(&self) -> (n: usize)
        ensures
            n == self.chain().len(),
    {
        self.outlets.len()
    }

    /// The outlet at `depth`.
    pub fn outlet(&self, depth: usize) -> (outlet: &Outlet)
        requires
            depth < self.chain().len(),
        ensures
            outlet@ == self.chain()[depth as int],
    {
        &self.outlets[depth]
    }

    /// Hands every view of the chain to its driver. The output is not
    /// attached yet.
    pub fn build(self) -> (state: NestedRouteState)
        ensures
            state.chain() == built_all(self.chain()),
            !state.is_mounted(),
    {
        let mut outlets = self.outlets;
        let ghost before = chain_model(outlets@);
        build_from(&mut outlets, 0);
        assert(chain_model(outlets@) =~= built_all(before)) by {
            assert(before.skip(0) =~= before);
        }
        NestedRouteState { outlets, mounted: false }
    }

    /// Puts this chain, built, in the place of the one that `state` holds.
    /// The chain that was there is disposed as a whole; whether the output
    /// is attached stays as it was.
    pub fn rebuild(self, arena: &mut ScopeArena, state: &mut NestedRouteState)
        requires
            old(arena).wf(),
            chain_wf(old(arena)@, self.chain()),
            old(state).chain().len() >= 1,
            apart(old(arena)@, old(state).chain()[0].owner, self.chain()),
        ensures
            final(arena).wf(),
            final(arena)@ == disposed(old(arena)@, old(state).chain()[0].owner),
            final(arena).spec_current() == surviving(old(arena).spec_current(), final(arena)@),
            final(state).chain() == built_all(self.chain()),
            final(state).is_mounted() == old(state).is_mounted(),
            chain_wf(final(arena)@, final(state).chain()),
    {
        let root = state.outlets[0].owner();
        arena.dispose(root);
        let mounted = state.mounted;
        let built = self.build();
        proof {
            lemma_dispose_apart(old(arena)@, root, self.chain());
            lemma_chain_same_owners(arena@, self.chain(), built.chain());
        }
        *state = NestedRouteState { outlets: built.outlets, mounted };
    }
}

impl NestedRouteState {
    /// The outlets, outermost first.
    pub closed spec fn chain(&self) -> Seq<OutletModel> {
        chain_model(self.outlets@)
    }

    /// Whether the output of the chain is attached.
    pub closed spec fn is_mounted(&self) -> bool {
        self.mounted
    }

    /// The state is in order in `arena`: its chain is well formed, and the
    /// scope of the outermost level is a child of `outer`.
    pub open spec fn wf(&self, arena: &ScopeArena, outer: ScopeId) -> bool {
        &&& chain_wf(arena@, self.chain())
        &&& arena@[self.chain()[0].owner.0 as int].parent == Some(outer)
    }

    /// Number of levels.
    pub fn len(&self) -> (n: usize)
        ensures
            n == self.chain().len(),
    {
        self.outlets.len()
    }

    /// The outlet at `depth`.
    pub fn outlet(&self, depth: usize) -> (outlet: &Outlet)
        requires
            depth < self.chain().len(),
        ensures
            outlet@ == self.chain()[depth as int],
    {
        &self.outlets[depth]
    }

    /// Whether the output of the chain is attached.
    pub fn mounted(&self) -> (b: bool)
        ensures
            b == self.is_mounted(),
    {
        self.mounted
    }

    /// Attaches the output.
    pub fn mount(&mut self)
        ensures
            final(self).is_mounted(),
            final(self).chain() == old(self).chain(),
    {
        self.mounted = true;
    }

    /// Detaches the output. The chain and its scopes stay.
    pub fn unmount(&mut self)
        ensures
            !final(self).is_mounted(),
            final(self).chain() == old(self).chain(),
    {
        self.mounted = false;
    }

    /// Attaches the output of `child` in front of this chain's. Only an
    /// attached chain has a place in front of it: the result says whether
    /// `child` was attached.
    pub fn insert_before_this(&self, child: &mut NestedRouteState) -> (inserted: bool)
        ensures
            inserted == self.is_mounted(),
            final(child).chain() == old(child).chain(),
            final(child).is_mounted() == (old(child).is_mounted() || self.is_mounted()),
    {
        if self.mounted {
            child.mounted = true;
        }
        self.mounted
    }

    /// What the view at `depth` is given to read: the parameters of its
    /// level as they are now, and the outlet one level down, or the empty
    /// outlet if `depth` is the innermost level.
    pub fn route_data(&self, depth: usize) -> (data: RouteData)
        requires
            depth < self.chain().len(),
        ensures
            data.params@ == self.chain()[depth as int].params,
            data.outlet@ == if depth + 1 < self.chain().len() {
                self.chain()[depth + 1]
            } else {
                empty_outlet(self.chain()[depth as int].owner)
            },
    {
        let params = self.outlets[depth].params().clone();
        let outlet = if depth < self.outlets.len() - 1 {
            self.outlets[depth + 1].clone()
        } else {
            Outlet::empty(self.outlets[depth].owner())
        };
        RouteData { params, outlet }
    }

    /// Whether the chain can be brought up to date with `new_match`: it
    /// cannot where the match agrees with every level of the chain and then
    /// asks for a level more.
    pub fn can_reconcile(&self, new_match: &RouteMatch) -> (b: bool)
        requires
            self.chain().len() >= 1,
        ensures
            b == reconcilable(self.chain(), new_match.levels()),
    {
        let ghost c = self.chain();
        let ghost l = new_match.levels();
        let mut level: &RouteMatch = new_match;
        let mut i: usize = 0;
        proof {
            assert(c.skip(0) =~= c);
            assert(l.skip(0) =~= l);
            new_match.lemma_levels();
        }
        while i < self.outlets.len()
            invariant
                i <= self.outlets@.len(),
                c == chain_model(self.outlets@),
                c == self.chain(),
                l == new_match.levels(),
                i < l.len(),
                level.levels() == l.skip(i as int),
                common_depth(c, l) == i + common_depth(c.skip(i as int), l.skip(i as int)),
            decreases self.outlets@.len() - i,
        {
            proof {
                level.lemma_levels();
                lemma_take_skip(c, i as int);
                lemma_common_depth(c.skip(i as int), l.skip(i as int));
                assert(l.skip(i as int).drop_first() =~= l.skip(i + 1));
                assert(l.skip(i as int).len() == l.len() - i);
                assert(c.skip(i as int).len() == c.len() - i);
            }
            if self.outlets[i].id() != level.as_id() {
                proof {
                    assert(common_depth(c.skip(i as int), l.skip(i as int)) == 0);
                }
                return true;
            }
            match level.child() {
                Some(child) => {
                    proof {
                        assert(child.levels() =~= l.skip(i + 1));
                        child.lemma_levels();
                    }
                    level = child;
                    i += 1;
                },
                None => {
                    proof {
                        assert(l.len() == i + 1);
                        lemma_common_depth(c, l);
                    }
                    return true;
                },
            }
        }
        proof {
            lemma_common_depth(c.skip(i as int), l.skip(i as int));
            lemma_common_depth(c, l);
        }
        false
    }

    /// Brings the chain up to date with `new_match` if that can be done, and
    /// leaves everything as it is if not.
    pub fn reconcile(&mut self, arena: &mut ScopeArena, outer_owner: ScopeId, new_match: RouteMatch) -> (done:
        Result<(), ReconcileError>)
        requires
            old(arena).wf(),
            old(self).wf(old(arena), outer_owner),
        ensures
            done.is_ok() == reconcilable(old(self).chain(), new_match.levels()),
            done.is_ok() ==> {
                &&& final(arena)@ == reconciled_scopes(
                    old(arena)@,
                    outer_owner,
                    old(self).chain(),
                    new_match.levels(),
                )
                &&& final(self).chain() == reconciled_chain(
                    old(arena)@.len() as int,
                    old(self).chain(),
                    new_match.levels(),
                )
            },
            done == Err::<(), ReconcileError>(ReconcileError::ChainExhausted) ==> final(arena)@ == old(arena)@
                && final(self).chain() == old(self).chain(),
            done.is_err() ==> done == Err::<(), ReconcileError>(ReconcileError::ChainExhausted),
            final(arena).wf(),
            final(arena).spec_current() == surviving(old(arena).spec_current(), final(arena)@),
            final(self).wf(final(arena), outer_owner),
            final(self).is_mounted() == old(self).is_mounted(),
    {
        if self.can_reconcile(&new_match) {
            rebuild_nested(arena, outer_owner, self, new_match);
            Ok(())
        } else {
            Err(ReconcileError::ChainExhausted)
        }
    }
}

/// Why a chain could not be brought up to date.
#[derive(Clone, Copy, Debug, PartialEq, Eq, Structural)]
pub enum ReconcileError {
    /// The match agrees with every level of the chain and asks for a level
    /// below the last one.
    ChainExhausted,
}

/// Brings the chain that `prev` holds up to date with `new_match`, in place.
/// The levels are compared by the route they show, and by nothing else. An
/// outlet that shows the route matched at its level is kept: it gets the new
/// parameters, and its scope and the state of its view stay. From the first
/// level that shows another route on, the outlets are disposed and replaced
/// by outlets built for the match, in scopes below the last outlet kept, or
/// below `outer_owner` if none is kept. Where the match ends before the chain
/// does, the rest of the chain is disposed.
pub fn rebuild_nested(
    arena: &mut ScopeArena,
    outer_owner: ScopeId,
    prev: &mut NestedRouteState,
    new_match: RouteMatch,
)
    requires
        old(arena).wf(),
        old(prev).wf(old(arena), outer_owner),
        reconcilable(old(prev).chain(), new_match.levels()),
    ensures
        final(arena).wf(),
        final(arena)@ == reconciled_scopes(old(arena)@, outer_owner, old(prev).chain(), new_match.levels()),
        final(arena).spec_current() == surviving(old(arena).spec_current(), final(arena)@),
        final(prev).chain() == reconciled_chain(
            old(arena)@.len() as int,
            old(prev).chain(),
            new_match.levels(),
        ),
        final(prev).wf(final(arena), outer_owner),
        final(prev).is_mounted() == old(prev).is_mounted(),
{
    let ghost s = arena@;
    let ghost c = prev.chain();
    let ghost l = new_match.levels();
    proof {
        new_match.lemma_levels();
        lemma_common_depth(c, l);
        assert(level_ok(s, c, 0));
        assert(scope_ok(s, c[0].owner.0 as int));
        assert(c.skip(0) =~= c);
        assert(c.skip(1) =~= c.drop_first());
        assert(c.take(1) =~= seq![c[0]]);
    }
    let mut items: usize = 0;
    if new_match.as_id() == prev.outlets[0].id() {
        let first = prev.outlets.pop_front().unwrap();
        prev.outlets.push_front(first.set_params(new_match.to_params()));
        items = 1;
        let ghost kept = OutletModel { params: l[0].params, ..c[0] };
        let ghost c1 = chain_model(prev.outlets@);
        proof {
            assert(c1 =~= c.update(0, kept));
            assert(c1.skip(1) =~= c.drop_first());
            assert(c1.take(1) =~= seq![kept]);
            lemma_chain_same_owners(s, c, c1);
        }
        let (_, child) = new_match.into_view_and_child();
        match child {
            Some(child) => {
                proof {
                    assert(child.levels() =~= l.drop_first());
                    lemma_reconciled_step(s, outer_owner, c, l);
                }
                rebuild_inner(&mut items, &mut prev.outlets, arena, child);
                assert(chain_model(prev.outlets@) =~= reconciled_chain(s.len() as int, c, l));
            },
            None => {
                proof {
                    lemma_reconciled_leaf(s, outer_owner, c, l);
                }
                truncate_chain(&mut prev.outlets, arena, 1);
                assert(chain_model(prev.outlets@) =~= reconciled_chain(s.len() as int, c, l));
            },
        }
        proof {
            let d = chain_model(prev.outlets@);
            assert(d[0].owner == c[0].owner);
            assert(level_ok(arena@, d, 0));
            lemma_root_parent_kept(s, outer_owner, c, l);
        }
    } else {
        let root = prev.outlets[0].owner();
        arena.dispose(root);
        proof {
            lemma_reconciled_diverged(s, outer_owner, c, l);
            lemma_disposed_wf(s, root);
            if within(s, root.0 as int, outer_owner.0 as int) {
                lemma_within_later(s, root.0 as int, outer_owner.0 as int);
            }
        }
        let new = NestedRouteView::new(arena, outer_owner, new_match);
        proof {
            lemma_apart_from_dead(arena@, root, new.chain());
            lemma_dispose_dead(arena@, root);
        }
        let ghost fresh = new.chain();
        let ghost cur = arena.spec_current();
        new.rebuild(arena, prev);
        proof {
            lemma_built_wf(disposed(s, root), outer_owner, l, None);
            lemma_surviving_grow(old(arena).spec_current(), disposed(s, root), arena@);
            assert(built_all(fresh)[0].owner == fresh[0].owner);
        }
    }
}

/// The scope of the outermost outlet keeps its parent through a
/// reconciliation in which that outlet is kept.
pub proof fn lemma_root_parent_kept(
    s: Seq<Scope>,
    outer: ScopeId,
    c: Seq<OutletModel>,
    l: Seq<MatchLevel>,
)
    requires
        scopes_wf(s),
        chain_wf(s, c),
        l.len() >= 1,
        c[0].id == l[0].id,
    ensures
        reconciled_scopes(s, outer, c, l)[c[0].owner.0 as int].parent == s[c[0].owner.0 as int].parent,
{
    lemma_common_depth(c, l);
    assert(level_ok(s, c, 0));
}

} // verus!
