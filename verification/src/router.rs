//! The nested router: which representation is shown for the current path,
//! the matched chain or the fallback, and how one follows the other.

use crate::laws::lemma_chain_within;
use crate::matching::{GeneratedRouteData, MatchLevel, MatchNestedRoutes, RouteMatch, RouteView};
use crate::nested::{
    built_all, built_chain, built_scopes, chain_wf, lemma_built_wf, lemma_chain_same_owners, level_ok,
    rebuild_nested, reconcilable, reconciled_chain, reconciled_scopes, NestedRouteState, NestedRouteView,
    ReconcileError,
};
use crate::outlet::{Cursor, OutletModel};
use crate::render::{hydrates, markup, stream_text, view_markup, HydrationError};
use crate::route_list::{lists_routes, RouteList};
use tachys::ssr::StreamBuilder;
use crate::scope::{
    disposed, evolved, lemma_disposed_evolved, lemma_disposed_wf, lemma_evolved_refl, lemma_evolved_trans,
    lemma_grown_evolved,
    lemma_within_later, live, scope_ok, scopes_wf, surviving, within, Scope, ScopeArena, ScopeId,
};
use vstd::prelude::*;

verus! {

/// The levels of a match, if there is one.
pub open spec fn levels_of(m: Option<RouteMatch>) -> Option<Seq<MatchLevel>> {
    match m {
        Some(m) => Some(m.levels()),
        None => None,
    }
}

/// The chain after one run of the router. `prev` is the chain shown before
/// the run, if one was shown; `l` holds the levels of the new match, if the
/// path matched. A chain is shown exactly if the path matched: it is the
/// reconciled chain where one was shown before, a fresh one where none was.
pub open spec fn next_chain(
    first: int,
    prev: Option<Seq<OutletModel>>,
    l: Option<Seq<MatchLevel>>,
) -> Option<Seq<OutletModel>> {
    match l {
        Some(l) => match prev {
            Some(c) => Some(reconciled_chain(first, c, l)),
            None => Some(built_all(built_chain(first, l, None))),
        },
        None => None,
    }
}

/// The scopes after one run of the router. A chain that gives way to the
/// fallback is disposed as a whole; the fallback owns no scope.
pub open spec fn next_scopes(
    s: Seq<Scope>,
    outer: ScopeId,
    prev: Option<Seq<OutletModel>>,
    l: Option<Seq<MatchLevel>>,
) -> Seq<Scope> {
    match l {
        Some(l) => match prev {
            Some(c) => reconciled_scopes(s, outer, c, l),
            None => built_scopes(s, outer, l.len() as int),
        },
        None => match prev {
            Some(c) => disposed(s, c[0].owner),
            None => s,
        },
    }
}

/// The chain that the state of the run before shows, if there was a run
/// before and it left a chain.
pub open spec fn shown_before(prev: Option<RouterState>) -> Option<Seq<OutletModel>> {
    match prev {
        Some(p) => p.matched_chain(),
        None => None,
    }
}

/// A run can be made: a chain that is shown can be reconciled with the new
/// match.
pub open spec fn can_follow(prev: Option<Seq<OutletModel>>, l: Option<Seq<MatchLevel>>) -> bool {
    match (prev, l) {
        (Some(c), Some(l)) => reconcilable(c, l),
        _ => true,
    }
}

/// The state of a fallback that is shown.
#[derive(Debug)]
pub struct FallbackState {
    view: RouteView,
    mounted: bool,
}

/// What is shown at the top level: the matched chain or the fallback, one
/// of the two.
#[derive(Debug)]
pub enum RouteState {
    Matched(NestedRouteState),
    Fallback(FallbackState),
}

/// What the router keeps from one run to the next: the scope it was set up
/// in, and what it shows.
#[derive(Debug)]
pub struct RouterState {
    outer_owner: ScopeId,
    state: RouteState,
}

impl FallbackState {
    /// The view that the fallback producer returned.
    pub closed spec fn spec_view(&self) -> RouteView {
        self.view
    }

    /// The view that the fallback producer returned.
    pub fn view(&self) -> (view: &RouteView)
        ensures
            *view == self.spec_view(),
    {
        &self.view
    }
}

impl RouterState {
    /// The scope that the router was set up in.
    pub closed spec fn outer(&self) -> ScopeId {
        self.outer_owner
    }

    /// The chain that is shown, if the matched representation is.
    pub closed spec fn matched_chain(&self) -> Option<Seq<OutletModel>> {
        match self.state {
            RouteState::Matched(st) => Some(st.chain()),
            RouteState::Fallback(_) => None,
        }
    }

    /// Whether the fallback is shown.
    pub closed spec fn is_fallback(&self) -> bool {
        self.state is Fallback
    }

    /// The fallback view that is shown, if the fallback is.
    pub closed spec fn fallback_view(&self) -> RouteView {
        self.state->Fallback_0.view
    }

    /// Whether what is shown is attached.
    pub closed spec fn is_mounted(&self) -> bool {
        match self.state {
            RouteState::Matched(st) => st.is_mounted(),
            RouteState::Fallback(f) => f.mounted,
        }
    }

    /// The state is in order in `arena`: the scope it was set up in is
    /// live, and a chain that is shown is well formed below it.
    pub closed spec fn wf(&self, arena: &ScopeArena) -> bool {
        &&& live(arena@, self.outer_owner)
        &&& match self.state {
            RouteState::Matched(st) => st.wf(arena, self.outer_owner),
            RouteState::Fallback(_) => true,
        }
    }

    /// The two representations exclude each other: at any time the state
    /// shows the matched chain or the fallback, and never both.
    pub proof fn lemma_one_representation(&self)
        ensures
            self.matched_chain().is_some() != self.is_fallback(),
    {
    }

    /// What [`RouterState::wf`] says of a chain that is shown.
    pub proof fn lemma_wf(&self, arena: &ScopeArena)
        requires
            self.wf(arena),
        ensures
            live(arena@, self.outer()),
            self.matched_chain() matches Some(c) ==> chain_wf(arena@, c) && arena@[c[0].owner.0 as int].parent
                == Some(self.outer()),
    {
    }

    /// The scope that the router was set up in.
    pub fn outer_owner(&self) -> (outer: ScopeId)
        ensures
            outer == self.outer(),
    {
        self.outer_owner
    }

    /// What is shown.
    pub fn state(&self) -> (state: &RouteState)
        ensures
            (*state is Fallback) == self.is_fallback(),
            *state matches RouteState::Matched(st) ==> self.matched_chain() == Some(st.chain())
                && st.is_mounted() == self.is_mounted(),
            *state matches RouteState::Fallback(f) ==> f.spec_view() == self.fallback_view(),
    {
        &self.state
    }

    /// Attaches what is shown.
    pub fn mount(&mut self)
        ensures
            final(self).is_mounted(),
            final(self).outer() == old(self).outer(),
            final(self).matched_chain() == old(self).matched_chain(),
            final(self).is_fallback() == old(self).is_fallback(),
            final(self).is_fallback() ==> final(self).fallback_view() == old(self).fallback_view(),
            forall|arena: &ScopeArena| old(self).wf(arena) ==> final(self).wf(arena),
    {
        match &mut self.state {
            RouteState::Matched(st) => {
                st.mount();
            },
            RouteState::Fallback(f) => {
                f.mounted = true;
            },
        }
    }

    /// The first run: builds what is shown for `new_match` in a router set
    /// up in `outer_owner`. A match gets a fresh chain, built; no match
    /// gets what `fallback` returns.
    pub fn start<F: Fn() -> RouteView>(
        arena: &mut ScopeArena,
        outer_owner: ScopeId,
        new_match: Option<RouteMatch>,
        fallback: &F,
    ) -> (state: Self)
        requires
            old(arena).wf(),
            live(old(arena)@, outer_owner),
            call_requires(*fallback, ()),
        ensures
            final(arena).wf(),
            final(arena).spec_current() == old(arena).spec_current(),
            final(arena)@ == next_scopes(old(arena)@, outer_owner, None, levels_of(new_match)),
            state.matched_chain() == next_chain(old(arena)@.len() as int, None, levels_of(new_match)),
            state.is_fallback() ==> call_ensures(*fallback, (), state.fallback_view()),
            state.outer() == outer_owner,
            !state.is_mounted(),
            state.wf(final(arena)),
    {
        match new_match {
            Some(matched) => {
                let ghost l = matched.levels();
                let view = NestedRouteView::new(arena, outer_owner, matched);
                let ghost fresh = view.chain();
                let st = view.build();
                proof {
                    lemma_chain_same_owners(arena@, fresh, st.chain());
                    matched.lemma_levels();
                    lemma_built_wf(old(arena)@, outer_owner, l, None);
                    assert(arena@.take(old(arena)@.len() as int)[outer_owner.0 as int] == arena@[outer_owner.0 as int]);
                }
                RouterState { outer_owner, state: RouteState::Matched(st) }
            },
            None => {
                let view = fallback();
                RouterState { outer_owner, state: RouteState::Fallback(FallbackState { view, mounted: false }) }
            },
        }
    }

    /// A later run: brings what is shown up to date with `new_match`. A
    /// chain that is shown is reconciled with a match, and disposed where
    /// there is none; the fallback gives way to a fresh chain, or is
    /// produced anew. What replaces an attached representation is attached.
    pub fn advance<F: Fn() -> RouteView>(
        &mut self,
        arena: &mut ScopeArena,
        new_match: Option<RouteMatch>,
        fallback: &F,
    )
        requires
            old(arena).wf(),
            old(self).wf(old(arena)),
            call_requires(*fallback, ()),
            can_follow(old(self).matched_chain(), levels_of(new_match)),
        ensures
            final(arena).wf(),
            final(arena).spec_current() == surviving(old(arena).spec_current(), final(arena)@),
            final(arena)@ == next_scopes(
                old(arena)@,
                old(self).outer(),
                old(self).matched_chain(),
                levels_of(new_match),
            ),
            final(self).matched_chain() == next_chain(
                old(arena)@.len() as int,
                old(self).matched_chain(),
                levels_of(new_match),
            ),
            final(self).is_fallback() ==> call_ensures(*fallback, (), final(self).fallback_view()),
            final(self).outer() == old(self).outer(),
            final(self).is_mounted() == old(self).is_mounted(),
            final(self).wf(final(arena)),
    {
        let outer_owner = self.outer_owner;
        let ghost s = arena@;
        match new_match {
            Some(matched) => {
                let ghost l = matched.levels();
                match &mut self.state {
                    RouteState::Matched(prev) => {
                        proof {
                            matched.lemma_levels();
                        }
                        rebuild_nested(arena, outer_owner, prev, matched);
                        proof {
                            lemma_outer_survives(s, outer_owner, old(self).matched_chain().unwrap(), l);
                        }
                    },
                    RouteState::Fallback(f) => {
                        let mounted = f.mounted;
                        let view = NestedRouteView::new(arena, outer_owner, matched);
                        let ghost fresh = view.chain();
                        let mut st = view.build();
                        if mounted {
                            st.mount();
                        }
                        proof {
                            lemma_chain_same_owners(arena@, fresh, st.chain());
                            matched.lemma_levels();
                            lemma_built_wf(s, outer_owner, l, None);
                            assert(arena@.take(s.len() as int)[outer_owner.0 as int] == arena@[outer_owner.0 as int]);
                            match old(arena).spec_current() {
                                Some(c) => {
                                    assert(arena@.take(s.len() as int)[c.0 as int] == arena@[c.0 as int]);
                                },
                                None => {},
                            }
                        }
                        self.state = RouteState::Matched(st);
                    },
                }
            },
            None => {
                let mounted = match &self.state {
                    RouteState::Matched(prev) => {
                        let ghost c = prev.chain();
                        assert(level_ok(s, c, 0));
                        let root = prev.outlet(0).owner();
                        arena.dispose(root);
                        proof {
                            assert(scope_ok(s, root.0 as int));
                            if within(s, root.0 as int, outer_owner.0 as int) {
                                lemma_within_later(s, root.0 as int, outer_owner.0 as int);
                            }
                        }
                        prev.mounted()
                    },
                    RouteState::Fallback(f) => f.mounted,
                };
                let view = fallback();
                self.state = RouteState::Fallback(FallbackState { view, mounted });
            },
        }
    }

    /// One run of the router, as the effect that drives it makes it: with
    /// the state that the run before left, or with none on the first run.
    pub fn run<F: Fn() -> RouteView>(
        arena: &mut ScopeArena,
        outer_owner: ScopeId,
        prev: Option<RouterState>,
        new_match: Option<RouteMatch>,
        fallback: &F,
    ) -> (state: Self)
        requires
            old(arena).wf(),
            live(old(arena)@, outer_owner),
            call_requires(*fallback, ()),
            prev matches Some(p) ==> {
                &&& p.wf(old(arena))
                &&& p.outer() == outer_owner
                &&& can_follow(p.matched_chain(), levels_of(new_match))
            },
        ensures
            final(arena).wf(),
            final(arena).spec_current() == surviving(old(arena).spec_current(), final(arena)@),
            final(arena)@ == next_scopes(old(arena)@, outer_owner, shown_before(prev), levels_of(new_match)),
            state.matched_chain() == next_chain(
                old(arena)@.len() as int,
                shown_before(prev),
                levels_of(new_match),
            ),
            state.is_fallback() ==> call_ensures(*fallback, (), state.fallback_view()),
            state.outer() == outer_owner,
            state.is_mounted() == (prev matches Some(p) && p.is_mounted()),
            state.wf(final(arena)),
    {
        match prev {
            Some(mut state) => {
                state.advance(arena, new_match, fallback);
                state
            },
            None => {
                let state = RouterState::start(arena, outer_owner, new_match, fallback);
                proof {
                    match old(arena).spec_current() {
                        Some(c) => {
                            if new_match.is_some() {
                                lemma_grown(old(arena)@, outer_owner, new_match.unwrap().levels().len() as int);
                                assert(arena@.take(old(arena)@.len() as int)[c.0 as int] == arena@[c.0 as int]);
                            }
                        },
                        None => {},
                    }
                }
                state
            },
        }
    }

    /// A later run that refuses what cannot be done: where `new_match`
    /// agrees with the whole chain that is shown and asks for a level more,
    /// nothing is changed and the error says so.
    pub fn try_advance<F: Fn() -> RouteView>(
        &mut self,
        arena: &mut ScopeArena,
        new_match: Option<RouteMatch>,
        fallback: &F,
    ) -> (done: Result<(), ReconcileError>)
        requires
            old(arena).wf(),
            old(self).wf(old(arena)),
            call_requires(*fallback, ()),
        ensures
            done.is_ok() == can_follow(old(self).matched_chain(), levels_of(new_match)),
            done.is_err() ==> done == Err::<(), ReconcileError>(ReconcileError::ChainExhausted),
            done.is_ok() ==> {
                &&& final(arena)@ == next_scopes(
                    old(arena)@,
                    old(self).outer(),
                    old(self).matched_chain(),
                    levels_of(new_match),
                )
                &&& final(self).matched_chain() == next_chain(
                    old(arena)@.len() as int,
                    old(self).matched_chain(),
                    levels_of(new_match),
                )
                &&& final(self).is_fallback() ==> call_ensures(*fallback, (), final(self).fallback_view())
            },
            done.is_err() ==> {
                &&& final(arena)@ == old(arena)@
                &&& final(self).matched_chain() == old(self).matched_chain()
                &&& final(self).is_fallback() == old(self).is_fallback()
            },
            final(arena).wf(),
            final(arena).spec_current() == surviving(old(arena).spec_current(), final(arena)@),
            final(self).outer() == old(self).outer(),
            final(self).is_mounted() == old(self).is_mounted(),
            final(self).wf(final(arena)),
    {
        let possible = match (&self.state, &new_match) {
            (RouteState::Matched(prev), Some(matched)) => {
                assert(level_ok(arena@, prev.chain(), 0));
                prev.can_reconcile(matched)
            },
            _ => true,
        };
        if possible {
            self.advance(arena, new_match, fallback);
            Ok(())
        } else {
            Err(ReconcileError::ChainExhausted)
        }
    }
}

/// The text `whole` holds `part` at position `from`.
pub open spec fn holds_at(whole: Seq<char>, from: int, part: Seq<char>) -> bool {
    from + part.len() <= whole.len() && whole.subrange(from, from + part.len()) == part
}

/// The chain that the first run over markup makes for the levels `l`.
pub open spec fn hydrated_chain(first: int, l: Seq<MatchLevel>, cursor: Cursor) -> Seq<OutletModel> {
    built_chain(first, l, Some(cursor))
}

impl RouterState {
    /// The first run over markup that is already there, in a router set
    /// up in `outer_owner`. A match gets a fresh chain that is attached to
    /// the markup at `cursor`; no match gets what `fallback` returns,
    /// attached likewise. Where the text does not hold the markup there,
    /// the run fails, and the scopes that it created are disposed.
    pub fn start_hydrate<F: Fn() -> RouteView>(
        arena: &mut ScopeArena,
        outer_owner: ScopeId,
        new_match: Option<RouteMatch>,
        fallback: &F,
        text: &str,
        cursor: &Cursor,
    ) -> (res: Result<(Self, Cursor), HydrationError>)
        requires
            old(arena).wf(),
            live(old(arena)@, outer_owner),
            call_requires(*fallback, ()),
        ensures
            final(arena).wf(),
            final(arena).spec_current() == old(arena).spec_current(),
            match res {
                Ok((state, end)) => {
                    &&& final(arena)@ == next_scopes(old(arena)@, outer_owner, None, levels_of(new_match))
                    &&& state.outer() == outer_owner
                    &&& state.is_mounted()
                    &&& state.wf(final(arena))
                    &&& match levels_of(new_match) {
                        Some(l) => {
                            let chain = hydrated_chain(old(arena)@.len() as int, l, *cursor);
                            &&& state.matched_chain() == Some(built_all(chain))
                            &&& hydrates(text@, cursor.pos as int, chain)
                            &&& end.pos == cursor.pos + markup(chain).len()
                        },
                        None => {
                            &&& state.is_fallback()
                            &&& call_ensures(*fallback, (), state.fallback_view())
                            &&& holds_at(text@, cursor.pos as int, view_markup(state.fallback_view()@))
                            &&& end.pos == cursor.pos + view_markup(state.fallback_view()@).len()
                        },
                    }
                },
                Err(e) => {
                    &&& e == HydrationError::Mismatch
                    &&& match levels_of(new_match) {
                        Some(l) => {
                            &&& !hydrates(
                                text@,
                                cursor.pos as int,
                                hydrated_chain(old(arena)@.len() as int, l, *cursor),
                            )
                            &&& final(arena)@ == disposed(
                                built_scopes(old(arena)@, outer_owner, l.len() as int),
                                ScopeId(old(arena)@.len() as usize),
                            )
                        },
                        None => {
                            &&& final(arena)@ == old(arena)@
                            &&& exists|view: RouteView| #[trigger]
                                call_ensures(*fallback, (), view) && !holds_at(
                                    text@,
                                    cursor.pos as int,
                                    view_markup(view@),
                                )
                        },
                    }
                },
            },
    {
        match new_match {
            Some(matched) => {
                let ghost l = matched.levels();
                proof {
                    matched.lemma_levels();
                }
                let view = NestedRouteView::new_hydrate(arena, outer_owner, matched, cursor);
                let ghost fresh = view.chain();
                let ghost grown = arena@;
                let root = view.outlet(0).owner();
                match view.hydrate(text) {
                    Ok((st, end)) => {
                        proof {
                            lemma_chain_same_owners(arena@, fresh, st.chain());
                            lemma_built_wf(old(arena)@, outer_owner, l, Some(*cursor));
                            assert(arena@.take(old(arena)@.len() as int)[outer_owner.0 as int]
                                == arena@[outer_owner.0 as int]);
                        }
                        Ok((RouterState { outer_owner, state: RouteState::Matched(st) }, end))
                    },
                    Err(_) => {
                        arena.dispose(root);
                        proof {
                            lemma_built_wf(old(arena)@, outer_owner, l, Some(*cursor));
                            match old(arena).spec_current() {
                                Some(c) => {
                                    assert(grown.take(old(arena)@.len() as int)[c.0 as int] == grown[c.0 as int]);
                                    if within(grown, root.0 as int, c.0 as int) {
                                        lemma_within_later(grown, root.0 as int, c.0 as int);
                                    }
                                },
                                None => {},
                            }
                        }
                        Err(HydrationError::Mismatch)
                    },
                }
            },
            None => {
                let view = fallback();
                match view.hydrate(text, cursor) {
                    Some(end) => Ok(
                        (
                            RouterState {
                                outer_owner,
                                state: RouteState::Fallback(FallbackState { view, mounted: true }),
                            },
                            end,
                        ),
                    ),
                    None => Err(HydrationError::Mismatch),
                }
            },
        }
    }
}

/// Writes the markup for `new_match` at the end of `buf`: that of a fresh
/// chain for a match, that of the view which `fallback` returns for none.
/// The scopes of the chain are created below `outer_owner` and stay.
pub fn render_match<F: Fn() -> RouteView>(
    arena: &mut ScopeArena,
    outer_owner: ScopeId,
    new_match: Option<RouteMatch>,
    fallback: &F,
    buf: &mut String,
)
    requires
        old(arena).wf(),
        live(old(arena)@, outer_owner),
        call_requires(*fallback, ()),
    ensures
        final(arena).wf(),
        final(arena).spec_current() == old(arena).spec_current(),
        final(arena)@ == next_scopes(old(arena)@, outer_owner, None, levels_of(new_match)),
        match levels_of(new_match) {
            Some(l) => final(buf)@ == old(buf)@ + markup(built_chain(old(arena)@.len() as int, l, None)),
            None => exists|view: RouteView| #[trigger]
                call_ensures(*fallback, (), view) && final(buf)@ == old(buf)@ + view_markup(view@),
        },
{
    match new_match {
        Some(matched) => {
            let view = NestedRouteView::new(arena, outer_owner, matched);
            view.to_html_with_buf(buf);
        },
        None => {
            let view = fallback();
            view.to_html_with_buf(buf);
        },
    }
}

/// Writes the markup for `new_match` to `stream`, as [`render_match`]
/// writes it to a buffer.
pub fn stream_match<F: Fn() -> RouteView, const OUT_OF_ORDER: bool>(
    arena: &mut ScopeArena,
    outer_owner: ScopeId,
    new_match: Option<RouteMatch>,
    fallback: &F,
    stream: &mut StreamBuilder,
)
    requires
        old(arena).wf(),
        live(old(arena)@, outer_owner),
        call_requires(*fallback, ()),
    ensures
        final(arena).wf(),
        final(arena).spec_current() == old(arena).spec_current(),
        final(arena)@ == next_scopes(old(arena)@, outer_owner, None, levels_of(new_match)),
        match levels_of(new_match) {
            Some(l) => stream_text(*final(stream)) == stream_text(*old(stream)) + markup(
                built_chain(old(arena)@.len() as int, l, None),
            ),
            None => exists|view: RouteView| #[trigger]
                call_ensures(*fallback, (), view) && stream_text(*final(stream)) == stream_text(
                    *old(stream),
                ) + view_markup(view@),
        },
{
    match new_match {
        Some(matched) => {
            let view = NestedRouteView::new(arena, outer_owner, matched);
            view.to_html_async_with_buf::<OUT_OF_ORDER>(stream);
        },
        None => {
            let view = fallback();
            view.to_html_async_with_buf::<OUT_OF_ORDER>(stream);
        },
    }
}

/// The scope that a router was set up in outlives every reconciliation of
/// the chain below it.
pub proof fn lemma_outer_survives(s: Seq<Scope>, outer: ScopeId, c: Seq<OutletModel>, l: Seq<MatchLevel>)
    requires
        scopes_wf(s),
        chain_wf(s, c),
        live(s, outer),
        s[c[0].owner.0 as int].parent == Some(outer),
        l.len() >= 1,
    ensures
        live(reconciled_scopes(s, outer, c, l), outer),
{
    crate::nested::lemma_common_depth(c, l);
    let k = crate::nested::common_depth(c, l);
    let u = reconciled_scopes(s, outer, c, l);
    assert(level_ok(s, c, 0));
    assert(scope_ok(s, c[0].owner.0 as int));
    if k < c.len() {
        let t = disposed(s, c[k].owner);
        if within(s, c[k].owner.0 as int, outer.0 as int) {
            lemma_within_later(s, c[k].owner.0 as int, outer.0 as int);
            if k > 0 {
                crate::nested::lemma_chain_order(s, c, 0, k);
            }
        }
        assert(live(t, outer));
        assert(u[outer.0 as int] == t[outer.0 as int]);
    } else {
        assert(u[outer.0 as int] == s[outer.0 as int]);
    }
}

/// A chain that gives way to the fallback leaves nothing behind: every one
/// of its scopes is disposed.
pub proof fn lemma_fallback_disposes_chain(s: Seq<Scope>, outer: ScopeId, c: Seq<OutletModel>)
    requires
        scopes_wf(s),
        chain_wf(s, c),
    ensures
        next_chain(s.len() as int, Some(c), None).is_none(),
        forall|j: int| 0 <= j < c.len() ==> !live(next_scopes(s, outer, Some(c), None), (#[trigger] c[j]).owner),
{
    assert forall|j: int| 0 <= j < c.len() implies !live(
        next_scopes(s, outer, Some(c), None),
        (#[trigger] c[j]).owner,
    ) by {
        lemma_chain_within(s, c, 0, j);
    }
}

/// A router over the route tree `Children`, with the producer of the view
/// that is shown where no route matches.
pub struct Router<Children, FallbackFn> {
    base: Option<String>,
    pub routes: Children,
    fallback: FallbackFn,
}

impl<Children, FallbackFn> Router<Children, FallbackFn> where
    Children: MatchNestedRoutes,
    FallbackFn: Fn() -> RouteView,
 {
    /// The base prefix, if the router has one.
    pub closed spec fn spec_base(&self) -> Option<String> {
        self.base
    }

    /// The fallback producer.
    pub closed spec fn spec_fallback(&self) -> FallbackFn {
        self.fallback
    }

    /// The route tree.
    pub closed spec fn spec_routes(&self) -> Children {
        self.routes
    }

    /// A router without a base prefix.
    pub fn new(routes: Children, fallback: FallbackFn) -> (router: Self)
        ensures
            router.spec_base().is_none(),
            router.spec_routes() == routes,
            router.spec_fallback() == fallback,
    {
        Router { base: None, routes, fallback }
    }

    /// A router whose paths start with `base`.
    pub fn new_with_base(base: String, routes: Children, fallback: FallbackFn) -> (router: Self)
        ensures
            router.spec_base() == Some(base),
            router.spec_routes() == routes,
            router.spec_fallback() == fallback,
    {
        Router { base: Some(base), routes, fallback }
    }

    /// The base prefix, if the router has one.
    pub fn base(&self) -> (base: &Option<String>)
        ensures
            *base == self.spec_base(),
    {
        &self.base
    }

    /// Calls the fallback producer.
    pub fn fallback(&self) -> (view: RouteView)
        requires
            call_requires(self.spec_fallback(), ()),
        ensures
            call_ensures(self.spec_fallback(), (), view),
    {
        (self.fallback)()
    }

    /// Sets the router up in the ambient scope and makes the first run for
    /// `path`: the route tree is asked for the match of `path`, and what it
    /// returns is shown as [`RouterState::start`] shows it, a fresh chain
    /// for a match and the fallback for none. The scopes that were there are
    /// left as they were, the state is in order, and a fallback that is
    /// shown is one that the producer returned.
    pub fn build(&self, arena: &mut ScopeArena, path: &str) -> (state: RouterState)
        requires
            old(arena).wf(),
            old(arena).spec_current().is_some(),
            call_requires(self.spec_fallback(), ()),
        ensures
            final(arena).wf(),
            final(arena).spec_current() == old(arena).spec_current(),
            Some(state.outer()) == old(arena).spec_current(),
            state.wf(final(arena)),
            !state.is_mounted(),
            final(arena)@.len() >= old(arena)@.len(),
            final(arena)@.take(old(arena)@.len() as int) == old(arena)@,
            state.matched_chain() matches Some(c) ==> final(arena)@.len() == old(arena)@.len() + c.len(),
            state.is_fallback() ==> final(arena)@ == old(arena)@ && call_ensures(
                self.spec_fallback(),
                (),
                state.fallback_view(),
            ),
            exists|m: Option<RouteMatch>| #[trigger]
                call_ensures(Children::match_route, (&self.spec_routes(), path), m) && started(
                    old(arena)@,
                    state.outer(),
                    m,
                    final(arena)@,
                    state.matched_chain(),
                ),
    {
        let outer_owner = arena.current().unwrap();
        let new_match = self.routes.match_route(path);
        let ghost m = new_match;
        proof {
            if new_match.is_some() {
                new_match.unwrap().lemma_levels();
                lemma_grown(old(arena)@, outer_owner, new_match.unwrap().levels().len() as int);
            }
        }
        let state = RouterState::start(arena, outer_owner, new_match, &self.fallback);
        proof {
            state.lemma_one_representation();
            assert(call_ensures(Children::match_route, (&self.spec_routes(), path), m));
            assert(started(old(arena)@, state.outer(), m, arena@, state.matched_chain()));
        }
        state
    }

    /// Makes a later run for `path`: the route tree is asked for the match
    /// of `path`, and what is shown is brought up to date with what it
    /// returns, as [`RouterState::try_advance`] does. The state stays in
    /// order and in the scope it was set up in, and a fallback that is shown
    /// is one that the producer returned. Where the match cannot be
    /// reconciled with the chain that is shown, nothing changes and the
    /// error says so.
    pub fn rebuild(&self, arena: &mut ScopeArena, state: &mut RouterState, path: &str) -> (done: Result<
        (),
        ReconcileError,
    >)
        requires
            old(arena).wf(),
            old(state).wf(old(arena)),
            call_requires(self.spec_fallback(), ()),
        ensures
            final(arena).wf(),
            final(arena).spec_current() == surviving(old(arena).spec_current(), final(arena)@),
            final(state).wf(final(arena)),
            final(state).outer() == old(state).outer(),
            final(state).is_mounted() == old(state).is_mounted(),
            evolved(old(arena)@, final(arena)@),
            done.is_err() ==> {
                &&& done == Err::<(), ReconcileError>(ReconcileError::ChainExhausted)
                &&& final(arena)@ == old(arena)@
                &&& final(state).matched_chain() == old(state).matched_chain()
                &&& final(state).is_fallback() == old(state).is_fallback()
            },
            done.is_ok() && final(state).is_fallback() ==> call_ensures(
                self.spec_fallback(),
                (),
                final(state).fallback_view(),
            ),
            done.is_ok() && final(state).is_fallback() && old(state).is_fallback() ==> final(arena)@ == old(
                arena,
            )@,
            exists|m: Option<RouteMatch>| #[trigger]
                call_ensures(Children::match_route, (&self.spec_routes(), path), m) && followed(
                    old(arena)@,
                    old(state).outer(),
                    old(state).matched_chain(),
                    m,
                    done.is_ok(),
                    final(arena)@,
                    final(state).matched_chain(),
                ),
    {
        let new_match = self.routes.match_route(path);
        let ghost m = new_match;
        proof {
            if new_match.is_some() {
                new_match.unwrap().lemma_levels();
            }
            lemma_next_evolved(old(arena)@, state.outer(), state.matched_chain(), levels_of(new_match));
            lemma_evolved_refl(old(arena)@);
            state.lemma_one_representation();
        }
        let done = state.try_advance(arena, new_match, &self.fallback);
        proof {
            state.lemma_one_representation();
            assert(call_ensures(Children::match_route, (&self.spec_routes(), path), m));
            assert(followed(
                old(arena)@,
                old(state).outer(),
                old(state).matched_chain(),
                m,
                done.is_ok(),
                arena@,
                state.matched_chain(),
            ));
        }
        done
    }
}

impl<Children, FallbackFn> Router<Children, FallbackFn> where
    Children: MatchNestedRoutes,
    FallbackFn: Fn() -> RouteView,
 {
    /// The list of the routes of the tree.
    /// The tree is asked for its base prefix and its routes; the list holds
    /// one route for each of them, in their order, with the base prefix in
    /// front of its path and with the mode and the methods that the tree
    /// gave.
    pub fn generate_route_list(&self) -> (list: RouteList)
        ensures
            exists|generated: (Option<String>, Vec<GeneratedRouteData>)| #[trigger]
                call_ensures(Children::generate_routes, (&self.spec_routes(),), generated)
                    && lists_routes(list@, generated.0, generated.1@),
    {
        let generated = self.routes.generate_routes();
        let ghost g = generated;
        let (base, routes) = generated;
        let list = RouteList::from_generated(base, routes);
        proof {
            assert(call_ensures(Children::generate_routes, (&self.spec_routes(),), g));
            assert(lists_routes(list@, g.0, g.1@));
        }
        list
    }

    /// Renders what `path` shows at the end of `buf`, in the ambient
    /// scope: the route tree is asked for the match of `path`, and what it
    /// returns is rendered as [`render_match`] does. What `buf` held stays
    /// in front, and the scopes that were there are left as they were.
    pub fn to_html_with_buf(&self, arena: &mut ScopeArena, path: &str, buf: &mut String)
        requires
            old(arena).wf(),
            old(arena).spec_current().is_some(),
            call_requires(self.spec_fallback(), ()),
        ensures
            final(arena).wf(),
            final(arena).spec_current() == old(arena).spec_current(),
            final(arena)@.len() >= old(arena)@.len(),
            final(arena)@.take(old(arena)@.len() as int) == old(arena)@,
            final(buf)@.len() >= old(buf)@.len(),
            final(buf)@.take(old(buf)@.len() as int) == old(buf)@,
            exists|m: Option<RouteMatch>| #[trigger]
                call_ensures(Children::match_route, (&self.spec_routes(), path), m) && rendered(
                    old(arena)@,
                    old(arena).spec_current().unwrap(),
                    m,
                    self.spec_fallback(),
                    old(buf)@,
                    final(arena)@,
                    final(buf)@,
                ),
    {
        let outer_owner = arena.current().unwrap();
        let new_match = self.routes.match_route(path);
        let ghost m = new_match;
        proof {
            if new_match.is_some() {
                lemma_grown(old(arena)@, outer_owner, new_match.unwrap().levels().len() as int);
            }
        }
        render_match(arena, outer_owner, new_match, &self.fallback, buf);
        assert(buf@.take(old(buf)@.len() as int) =~= old(buf)@);
        proof {
            assert(call_ensures(Children::match_route, (&self.spec_routes(), path), m));
            assert(rendered(old(arena)@, outer_owner, m, self.spec_fallback(), old(buf)@, arena@, buf@));
        }
    }

    /// Renders what `path` shows to `stream`, in the ambient scope: the
    /// route tree is asked for the match of `path`, and what it returns is
    /// rendered as [`stream_match`] does. What the synchronous buffer of the
    /// stream held stays in front, and the scopes that were there are left
    /// as they were.
    pub fn to_html_async_with_buf<const OUT_OF_ORDER: bool>(
        &self,
        arena: &mut ScopeArena,
        path: &str,
        stream: &mut StreamBuilder,
    )
        requires
            old(arena).wf(),
            old(arena).spec_current().is_some(),
            call_requires(self.spec_fallback(), ()),
        ensures
            final(arena).wf(),
            final(arena).spec_current() == old(arena).spec_current(),
            final(arena)@.len() >= old(arena)@.len(),
            final(arena)@.take(old(arena)@.len() as int) == old(arena)@,
            stream_text(*final(stream)).len() >= stream_text(*old(stream)).len(),
            stream_text(*final(stream)).take(stream_text(*old(stream)).len() as int) == stream_text(
                *old(stream),
            ),
            exists|m: Option<RouteMatch>| #[trigger]
                call_ensures(Children::match_route, (&self.spec_routes(), path), m) && rendered(
                    old(arena)@,
                    old(arena).spec_current().unwrap(),
                    m,
                    self.spec_fallback(),
                    stream_text(*old(stream)),
                    final(arena)@,
                    stream_text(*final(stream)),
                ),
    {
        let outer_owner = arena.current().unwrap();
        let new_match = self.routes.match_route(path);
        let ghost m = new_match;
        proof {
            if new_match.is_some() {
                lemma_grown(old(arena)@, outer_owner, new_match.unwrap().levels().len() as int);
            }
        }
        stream_match::<FallbackFn, OUT_OF_ORDER>(arena, outer_owner, new_match, &self.fallback, stream);
        assert(stream_text(*stream).take(stream_text(*old(stream)).len() as int) =~= stream_text(
            *old(stream),
        ));
        proof {
            assert(call_ensures(Children::match_route, (&self.spec_routes(), path), m));
            assert(rendered(
                old(arena)@,
                outer_owner,
                m,
                self.spec_fallback(),
                stream_text(*old(stream)),
                arena@,
                stream_text(*stream),
            ));
        }
    }

    /// Sets the router up in the ambient scope and makes the first run for
    /// `path` over markup that is already there, from `cursor` on: the
    /// route tree is asked for the match of `path`, and what it returns is
    /// attached as [`RouterState::start_hydrate`] attaches it. A state that
    /// is returned is in order and attached, the cursor returned does not
    /// stand before `cursor`, and the only error is a text that does not
    /// hold the markup.
    pub fn hydrate(&self, arena: &mut ScopeArena, path: &str, text: &str, cursor: &Cursor) -> (res: Result<
        (RouterState, Cursor),
        HydrationError,
    >)
        requires
            old(arena).wf(),
            old(arena).spec_current().is_some(),
            call_requires(self.spec_fallback(), ()),
        ensures
            final(arena).wf(),
            final(arena).spec_current() == old(arena).spec_current(),
            evolved(old(arena)@, final(arena)@),
            match res {
                Ok((state, end)) => {
                    &&& Some(state.outer()) == old(arena).spec_current()
                    &&& state.wf(final(arena))
                    &&& state.is_mounted()
                    &&& cursor.pos <= end.pos <= text@.len()
                    &&& final(arena)@.take(old(arena)@.len() as int) == old(arena)@
                    &&& state.is_fallback() ==> call_ensures(self.spec_fallback(), (), state.fallback_view())
                },
                Err(e) => e == HydrationError::Mismatch,
            },
            exists|m: Option<RouteMatch>| #[trigger]
                call_ensures(Children::match_route, (&self.spec_routes(), path), m) && hydrated(
                    old(arena)@,
                    old(arena).spec_current().unwrap(),
                    m,
                    self.spec_fallback(),
                    text@,
                    *cursor,
                    res,
                    final(arena)@,
                ),
    {
        let outer_owner = arena.current().unwrap();
        let new_match = self.routes.match_route(path);
        let ghost m = new_match;
        proof {
            if new_match.is_some() {
                let n = new_match.unwrap().levels().len() as int;
                let grown = built_scopes(old(arena)@, outer_owner, n);
                lemma_grown(old(arena)@, outer_owner, n);
                lemma_grown_evolved(old(arena)@, grown);
                lemma_disposed_evolved(grown, ScopeId(old(arena)@.len() as usize));
                lemma_evolved_trans(
                    old(arena)@,
                    grown,
                    disposed(grown, ScopeId(old(arena)@.len() as usize)),
                );
            } else {
                lemma_evolved_refl(old(arena)@);
            }
        }
        let res = RouterState::start_hydrate(arena, outer_owner, new_match, &self.fallback, text, cursor);
        proof {
            assert(call_ensures(Children::match_route, (&self.spec_routes(), path), m));
            assert(hydrated(old(arena)@, outer_owner, m, self.spec_fallback(), text@, *cursor, res, arena@));
        }
        res
    }
}

/// Whatever a run of the router does to the scopes, it only adds scopes
/// and disposes scopes.
pub proof fn lemma_next_evolved(
    s: Seq<Scope>,
    outer: ScopeId,
    prev: Option<Seq<OutletModel>>,
    l: Option<Seq<MatchLevel>>,
)
    requires
        l matches Some(levels) ==> levels.len() >= 1,
    ensures
        evolved(s, next_scopes(s, outer, prev, l)),
{
    match l {
        Some(l) => match prev {
            Some(c) => {
                crate::nested::lemma_common_depth(c, l);
                let k = crate::nested::common_depth(c, l);
                let kept = if k < c.len() {
                    disposed(s, c[k].owner)
                } else {
                    s
                };
                let parent = if k == 0 {
                    outer
                } else {
                    c[k - 1].owner
                };
                if k < c.len() {
                    lemma_disposed_evolved(s, c[k].owner);
                } else {
                    lemma_evolved_refl(s);
                }
                lemma_grown(kept, parent, l.len() - k);
                lemma_grown_evolved(kept, built_scopes(kept, parent, l.len() - k));
                lemma_evolved_trans(s, kept, built_scopes(kept, parent, l.len() - k));
            },
            None => {
                lemma_grown(s, outer, l.len() as int);
                lemma_grown_evolved(s, built_scopes(s, outer, l.len() as int));
            },
        },
        None => match prev {
            Some(c) => {
                lemma_disposed_evolved(s, c[0].owner);
            },
            None => {
                lemma_evolved_refl(s);
            },
        },
    }
}

/// Building a chain adds scopes and changes none.
pub proof fn lemma_grown(s: Seq<Scope>, parent: ScopeId, n: int)
    requires
        n >= 0,
    ensures
        built_scopes(s, parent, n).len() == s.len() + n,
        built_scopes(s, parent, n).take(s.len() as int) == s,
{
    assert(built_scopes(s, parent, n).take(s.len() as int) =~= s);
}

/// What one later run for the match `m` leaves, as plain values. The run
/// is made exactly if the chain that was shown, if one was, can be
/// reconciled with the match; it then leaves the scopes and the chain that
/// [`next_scopes`] and [`next_chain`] give. A run that is not made leaves
/// both as they were.
pub open spec fn followed(
    s: Seq<Scope>,
    outer: ScopeId,
    prev: Option<Seq<OutletModel>>,
    m: Option<RouteMatch>,
    done: bool,
    scopes_after: Seq<Scope>,
    chain_after: Option<Seq<OutletModel>>,
) -> bool {
    &&& done == can_follow(prev, levels_of(m))
    &&& done ==> scopes_after == next_scopes(s, outer, prev, levels_of(m)) && chain_after == next_chain(
        s.len() as int,
        prev,
        levels_of(m),
    )
    &&& !done ==> scopes_after == s && chain_after == prev
}

/// What rendering the match `m` on the server leaves, as plain values: the
/// scopes of a fresh chain below `outer` and, after the text that was
/// there, the markup of that chain; or, without a match, the scopes as they
/// were and the markup of a view that `fallback` returned.
pub open spec fn rendered<F: Fn() -> RouteView>(
    s: Seq<Scope>,
    outer: ScopeId,
    m: Option<RouteMatch>,
    fallback: F,
    text: Seq<char>,
    scopes_after: Seq<Scope>,
    text_after: Seq<char>,
) -> bool {
    &&& scopes_after == next_scopes(s, outer, None, levels_of(m))
    &&& match levels_of(m) {
        Some(l) => text_after == text + markup(built_chain(s.len() as int, l, None)),
        None => exists|view: RouteView| #[trigger]
            call_ensures(fallback, (), view) && text_after == text + view_markup(view@),
    }
}

/// What the first run for the match `m` leaves, as plain values: the scopes
/// and the chain that [`next_scopes`] and [`next_chain`] give where nothing
/// was shown before. A chain is shown exactly if there is a match.
pub open spec fn started(
    s: Seq<Scope>,
    outer: ScopeId,
    m: Option<RouteMatch>,
    scopes_after: Seq<Scope>,
    chain_after: Option<Seq<OutletModel>>,
) -> bool {
    &&& scopes_after == next_scopes(s, outer, None, levels_of(m))
    &&& chain_after == next_chain(s.len() as int, None, levels_of(m))
}

/// What the first run over markup gives for the match `m`. It succeeds
/// exactly if the text holds, at the cursor, the markup of what is shown
/// for `m`: the chain built for a match, the view that `fallback` returned
/// for none. The state then shows that chain, with every view attached, or
/// the fallback, and the cursor returned stands after the markup. A run
/// that fails leaves no live scope of its own.
pub open spec fn hydrated<F: Fn() -> RouteView>(
    s: Seq<Scope>,
    outer: ScopeId,
    m: Option<RouteMatch>,
    fallback: F,
    text: Seq<char>,
    cursor: Cursor,
    res: Result<(RouterState, Cursor), HydrationError>,
    scopes_after: Seq<Scope>,
) -> bool {
    match res {
        Ok((state, end)) => {
            &&& scopes_after == next_scopes(s, outer, None, levels_of(m))
            &&& match levels_of(m) {
                Some(l) => {
                    let chain = hydrated_chain(s.len() as int, l, cursor);
                    &&& state.matched_chain() == Some(built_all(chain))
                    &&& hydrates(text, cursor.pos as int, chain)
                    &&& end.pos == cursor.pos + markup(chain).len()
                },
                None => {
                    &&& state.is_fallback()
                    &&& call_ensures(fallback, (), state.fallback_view())
                    &&& holds_at(text, cursor.pos as int, view_markup(state.fallback_view()@))
                    &&& end.pos == cursor.pos + view_markup(state.fallback_view()@).len()
                },
            }
        },
        Err(_) => match levels_of(m) {
            Some(l) => {
                &&& !hydrates(text, cursor.pos as int, hydrated_chain(s.len() as int, l, cursor))
                &&& scopes_after == disposed(built_scopes(s, outer, l.len() as int), ScopeId(s.len() as usize))
            },
            None => {
                &&& scopes_after == s
                &&& exists|view: RouteView| #[trigger]
                    call_ensures(fallback, (), view) && !holds_at(text, cursor.pos as int, view_markup(view@))
            },
        },
    }
}

} // verus!
