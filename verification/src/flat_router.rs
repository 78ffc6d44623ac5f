//! The flat router: one view per match and no chain. It is for route trees
//! without nested routes, and swaps what it shows on every run.

use crate::matching::{GeneratedRouteData, MatchLevel, MatchNestedRoutes, RouteMatch, RouteView, ViewModel};
use crate::outlet::Cursor;
use crate::params::Params;
use crate::render::{stream_text, view_markup, HydrationError};
use crate::route_list::{lists_routes, RouteList};
use crate::router::{holds_at, levels_of};
use crate::scope::{ScopeArena, ScopeId};
use tachys::ssr::StreamBuilder;
use vstd::prelude::*;

verus! {

/// Why the flat router could not make a run.
#[derive(Clone, Copy, Debug, PartialEq, Eq, Structural)]
pub enum FlatRouterError {
    /// The route that matched has a nested route that matched too.
    NestedChild,
    /// The text does not hold the markup at the cursor.
    Mismatch,
}

/// The match, if there is one, has a single level.
pub open spec fn is_flat(l: Option<Seq<MatchLevel>>) -> bool {
    match l {
        Some(l) => l.len() == 1,
        None => true,
    }
}

/// What the flat router shows after a run, as plain values: the parameters
/// and the view of the route that matched, or nothing of the kind where the
/// fallback is shown.
pub open spec fn flat_shown(l: Option<Seq<MatchLevel>>) -> Option<(Seq<(Seq<char>, Seq<char>)>, ViewModel)> {
    match l {
        Some(l) => Some((l[0].params, l[0].view)),
        None => None,
    }
}

/// What the flat router shows: the view of the route that matched, with
/// its parameters, or the fallback.
#[derive(Debug)]
pub enum FlatState {
    Matched { params: Params, view: RouteView },
    Fallback { view: RouteView },
}

/// What the flat router keeps from one run to the next.
#[derive(Debug)]
pub struct FlatRouterState {
    outer_owner: ScopeId,
    state: FlatState,
    mounted: bool,
}

impl FlatRouterState {
    /// The scope that the router was set up in, in which its views are
    /// made.
    pub closed spec fn outer(&self) -> ScopeId {
        self.outer_owner
    }

    /// The parameters and the view shown, if the view of a route is.
    pub closed spec fn shown(&self) -> Option<(Seq<(Seq<char>, Seq<char>)>, ViewModel)> {
        match self.state {
            FlatState::Matched { params, view } => Some((params@, view@)),
            FlatState::Fallback { .. } => None,
        }
    }

    /// Whether the fallback is shown.
    pub closed spec fn is_fallback(&self) -> bool {
        self.state is Fallback
    }

    /// The fallback view that is shown, if the fallback is.
    pub closed spec fn fallback_view(&self) -> RouteView {
        self.state->Fallback_view
    }

    /// Whether what is shown is attached.
    pub closed spec fn is_mounted(&self) -> bool {
        self.mounted
    }

    /// The two representations exclude each other: the state shows the
    /// view of a route or the fallback, and never both.
    pub proof fn lemma_one_representation(&self)
        ensures
            self.shown().is_some() != self.is_fallback(),
    {
    }

    /// What is shown.
    pub fn state(&self) -> (state: &FlatState)
        ensures
            (*state is Fallback) == self.is_fallback(),
            *state matches FlatState::Matched { params, view } ==> self.shown() == Some((params@, view@)),
            *state matches FlatState::Fallback { view } ==> view == self.fallback_view(),
    {
        &self.state
    }

    /// The scope that the router was set up in.
    pub fn outer_owner(&self) -> (outer: ScopeId)
        ensures
            outer == self.outer(),
    {
        self.outer_owner
    }

    /// Whether what is shown is attached.
    pub fn mounted(&self) -> (b: bool)
        ensures
            b == self.is_mounted(),
    {
        self.mounted
    }

    /// Attaches what is shown.
    pub fn mount(&mut self)
        ensures
            final(self).is_mounted(),
            final(self).outer() == old(self).outer(),
            final(self).shown() == old(self).shown(),
            final(self).is_fallback() == old(self).is_fallback(),
            final(self).is_fallback() ==> final(self).fallback_view() == old(self).fallback_view(),
    {
        self.mounted = true;
    }

    /// What is shown for `new_match`: its view with its parameters, or what
    /// `fallback` returns where there is no match.
    fn show<F: Fn() -> RouteView>(new_match: Option<RouteMatch>, fallback: &F) -> (state: FlatState)
        requires
            is_flat(levels_of(new_match)),
            call_requires(*fallback, ()),
        ensures
            match levels_of(new_match) {
                Some(l) => state matches FlatState::Matched { params, view } && params@ == l[0].params
                    && view@ == l[0].view,
                None => state matches FlatState::Fallback { view } && call_ensures(*fallback, (), view),
            },
    {
        match new_match {
            Some(matched) => {
                let params = matched.to_params();
                let (view, _) = matched.into_view_and_child();
                FlatState::Matched { params, view }
            },
            None => FlatState::Fallback { view: fallback() },
        }
    }

    /// The first run: shows the view of `new_match`, made in `outer_owner`
    /// with the parameters of the match, or what `fallback` returns where
    /// there is no match. No scope is created.
    pub fn start<F: Fn() -> RouteView>(outer_owner: ScopeId, new_match: Option<RouteMatch>, fallback: &F) -> (state:
        Self)
        requires
            is_flat(levels_of(new_match)),
            call_requires(*fallback, ()),
        ensures
            state.shown() == flat_shown(levels_of(new_match)),
            state.is_fallback() == levels_of(new_match).is_none(),
            state.is_fallback() ==> call_ensures(*fallback, (), state.fallback_view()),
            state.outer() == outer_owner,
            !state.is_mounted(),
    {
        FlatRouterState { outer_owner, state: Self::show(new_match, fallback), mounted: false }
    }

    /// A later run: what was shown gives way to what is shown for
    /// `new_match`. Nothing is kept from one run to the next but the scope
    /// and whether the output is attached.
    pub fn advance<F: Fn() -> RouteView>(&mut self, new_match: Option<RouteMatch>, fallback: &F)
        requires
            is_flat(levels_of(new_match)),
            call_requires(*fallback, ()),
        ensures
            final(self).shown() == flat_shown(levels_of(new_match)),
            final(self).is_fallback() == levels_of(new_match).is_none(),
            final(self).is_fallback() ==> call_ensures(*fallback, (), final(self).fallback_view()),
            final(self).outer() == old(self).outer(),
            final(self).is_mounted() == old(self).is_mounted(),
    {
        self.state = Self::show(new_match, fallback);
    }
}

/// Whether `new_match`, if there is one, has a single level.
pub fn check_flat(new_match: &Option<RouteMatch>) -> (flat: bool)
    ensures
        flat == is_flat(levels_of(*new_match)),
{
    match new_match {
        Some(matched) => match matched.child() {
            Some(child) => {
                proof {
                    child.lemma_levels();
                }
                false
            },
            None => true,
        },
        None => true,
    }
}

/// Writes the markup of what is shown for `new_match` at the end of `buf`:
/// that of its view, with nothing in the outlet, or that of the view which
/// `fallback` returns where there is no match.
pub fn render_flat<F: Fn() -> RouteView>(new_match: Option<RouteMatch>, fallback: &F, buf: &mut String)
    requires
        is_flat(levels_of(new_match)),
        call_requires(*fallback, ()),
    ensures
        match levels_of(new_match) {
            Some(l) => final(buf)@ == old(buf)@ + view_markup(l[0].view),
            None => exists|view: RouteView| #[trigger]
                call_ensures(*fallback, (), view) && final(buf)@ == old(buf)@ + view_markup(view@),
        },
{
    match new_match {
        Some(matched) => {
            let (view, _) = matched.into_view_and_child();
            view.to_html_with_buf(buf);
        },
        None => {
            let view = fallback();
            view.to_html_with_buf(buf);
        },
    }
}

/// Writes the markup of what is shown for `new_match` to `stream`, as
/// [`render_flat`] writes it to a buffer.
pub fn stream_flat<F: Fn() -> RouteView, const OUT_OF_ORDER: bool>(
    new_match: Option<RouteMatch>,
    fallback: &F,
    stream: &mut StreamBuilder,
)
    requires
        is_flat(levels_of(new_match)),
        call_requires(*fallback, ()),
    ensures
        match levels_of(new_match) {
            Some(l) => stream_text(*final(stream)) == stream_text(*old(stream)) + view_markup(l[0].view),
            None => exists|view: RouteView| #[trigger]
                call_ensures(*fallback, (), view) && stream_text(*final(stream)) == stream_text(
                    *old(stream),
                ) + view_markup(view@),
        },
{
    match new_match {
        Some(matched) => {
            let (view, _) = matched.into_view_and_child();
            view.to_html_async_with_buf::<OUT_OF_ORDER>(stream);
        },
        None => {
            let view = fallback();
            view.to_html_async_with_buf::<OUT_OF_ORDER>(stream);
        },
    }
}

/// The first run over markup that is already there: what is shown for
/// `new_match` is attached to the text at `cursor`. It succeeds exactly if
/// the text holds the markup there.
pub fn hydrate_flat<F: Fn() -> RouteView>(
    outer_owner: ScopeId,
    new_match: Option<RouteMatch>,
    fallback: &F,
    text: &str,
    cursor: &Cursor,
) -> (res: Option<(FlatRouterState, Cursor)>)
    requires
        is_flat(levels_of(new_match)),
        call_requires(*fallback, ()),
    ensures
        match res {
            Some((state, end)) => {
                &&& state.shown() == flat_shown(levels_of(new_match))
                &&& state.is_fallback() == levels_of(new_match).is_none()
                &&& state.is_fallback() ==> call_ensures(*fallback, (), state.fallback_view())
                &&& state.outer() == outer_owner
                &&& state.is_mounted()
                &&& match levels_of(new_match) {
                    Some(l) => holds_at(text@, cursor.pos as int, view_markup(l[0].view)) && end.pos
                        == cursor.pos + view_markup(l[0].view).len(),
                    None => holds_at(text@, cursor.pos as int, view_markup(state.fallback_view()@))
                        && end.pos == cursor.pos + view_markup(state.fallback_view()@).len(),
                }
            },
            None => match levels_of(new_match) {
                Some(l) => !holds_at(text@, cursor.pos as int, view_markup(l[0].view)),
                None => exists|view: RouteView| #[trigger]
                    call_ensures(*fallback, (), view) && !holds_at(
                        text@,
                        cursor.pos as int,
                        view_markup(view@),
                    ),
            },
        },
{
    let state = FlatRouterState::show(new_match, fallback);
    let end = match &state {
        FlatState::Matched { view, .. } => view.hydrate(text, cursor),
        FlatState::Fallback { view } => view.hydrate(text, cursor),
    };
    match end {
        Some(end) => Some((FlatRouterState { outer_owner, state, mounted: true }, end)),
        None => None,
    }
}

/// A flat router over the route tree `Children`, with the producer of the
/// view that is shown where no route matches.
pub struct FlatRouter<Children, FallbackFn> {
    base: Option<String>,
    pub routes: Children,
    fallback: FallbackFn,
}

impl<Children, FallbackFn> FlatRouter<Children, FallbackFn> where
    Children: MatchNestedRoutes,
    FallbackFn: Fn() -> RouteView,
 {
    /// The base prefix, if the router has one.
    pub closed spec fn spec_base(&self) -> Option<String> {
        self.base
    }

    /// The fallback producer.
    pub closed spec fn spec_fallback(&self) -> FallbackFn {
        self.fallback
    }

    /// The route tree.
    pub closed spec fn spec_routes(&self) -> Children {
        self.routes
    }

    /// A flat router without a base prefix.
    pub fn new(routes: Children, fallback: FallbackFn) -> (router: Self)
        ensures
            router.spec_base().is_none(),
            router.spec_routes() == routes,
            router.spec_fallback() == fallback,
    {
        FlatRouter { base: None, routes, fallback }
    }

    /// A flat router whose paths start with `base`.
    pub fn new_with_base(base: String, routes: Children, fallback: FallbackFn) -> (router: Self)
        ensures
            router.spec_base() == Some(base),
            router.spec_routes() == routes,
            router.spec_fallback() == fallback,
    {
        FlatRouter { base: Some(base), routes, fallback }
    }

    /// The base prefix, if the router has one.
    pub fn base(&self) -> (base: &Option<String>)
        ensures
            *base == self.spec_base(),
    {
        &self.base
    }

    /// Calls the fallback producer.
    pub fn fallback(&self) -> (view: RouteView)
        requires
            call_requires(self.spec_fallback(), ()),
        ensures
            call_ensures(self.spec_fallback(), (), view),
    {
        (self.fallback)()
    }

    /// Sets the router up in the ambient scope and makes the first run for
    /// `path`: the route tree is asked for the match of `path`. The run is
    /// made exactly if what it returns has no nested match; the state then
    /// shows the view of the match with its parameters, or the fallback
    /// where there is no match. Where the route that matched has a nested
    /// route that matched too, the run is refused and nothing is shown; that
    /// is the only error. A state that is returned stands in the ambient
    /// scope, and a fallback that it shows is one that the producer
    /// returned.
    pub fn build(&self, arena: &ScopeArena, path: &str) -> (res: Result<FlatRouterState, FlatRouterError>)
        requires
            arena.wf(),
            arena.spec_current().is_some(),
            call_requires(self.spec_fallback(), ()),
        ensures
            match res {
                Ok(state) => {
                    &&& Some(state.outer()) == arena.spec_current()
                    &&& !state.is_mounted()
                    &&& state.is_fallback() ==> call_ensures(self.spec_fallback(), (), state.fallback_view())
                },
                Err(e) => e == FlatRouterError::NestedChild,
            },
            exists|m: Option<RouteMatch>| #[trigger]
                call_ensures(Children::match_route, (&self.spec_routes(), path), m) && flat_run(
                    m,
                    res.is_ok(),
                    match res {
                        Ok(state) => Some((state.shown(), state.is_fallback())),
                        Err(_) => None,
                    },
                ),
    {
        let outer_owner = arena.current().unwrap();
        let new_match = self.routes.match_route(path);
        let ghost m = new_match;
        let res = if check_flat(&new_match) {
            Ok(FlatRouterState::start(outer_owner, new_match, &self.fallback))
        } else {
            Err(FlatRouterError::NestedChild)
        };
        proof {
            assert(call_ensures(Children::match_route, (&self.spec_routes(), path), m));
        }
        res
    }

    /// Makes a later run for `path`: the route tree is asked for the match
    /// of `path`. The run is made exactly if what it returns has no nested
    /// match; what was shown then gives way to the view of the match with
    /// its parameters, or to the fallback where there is no match. Where the
    /// route that matched has a nested route that matched too, the run is
    /// refused and what is shown stays; that is the only error.
    pub fn rebuild(&self, state: &mut FlatRouterState, path: &str) -> (done: Result<(), FlatRouterError>)
        requires
            call_requires(self.spec_fallback(), ()),
        ensures
            final(state).outer() == old(state).outer(),
            final(state).is_mounted() == old(state).is_mounted(),
            match done {
                Ok(_) => final(state).is_fallback() ==> call_ensures(
                    self.spec_fallback(),
                    (),
                    final(state).fallback_view(),
                ),
                Err(e) => {
                    &&& e == FlatRouterError::NestedChild
                    &&& final(state).shown() == old(state).shown()
                    &&& final(state).is_fallback() == old(state).is_fallback()
                },
            },
            exists|m: Option<RouteMatch>| #[trigger]
                call_ensures(Children::match_route, (&self.spec_routes(), path), m) && flat_run(
                    m,
                    done.is_ok(),
                    if done.is_ok() {
                        Some((final(state).shown(), final(state).is_fallback()))
                    } else {
                        None
                    },
                ),
    {
        let new_match = self.routes.match_route(path);
        let ghost m = new_match;
        let done = if check_flat(&new_match) {
            state.advance(new_match, &self.fallback);
            Ok(())
        } else {
            Err(FlatRouterError::NestedChild)
        };
        proof {
            assert(call_ensures(Children::match_route, (&self.spec_routes(), path), m));
        }
        done
    }

    /// The list of the routes of the tree. The tree is asked for its base
    /// prefix and its routes; the list holds one route for each of them, in
    /// their order, with the base prefix in front of its path and with the
    /// mode and the methods that the tree gave.
    pub fn generate_route_list(&self) -> (list: RouteList)
        ensures
            exists|generated: (Option<String>, Vec<GeneratedRouteData>)| #[trigger]
                call_ensures(Children::generate_routes, (&self.spec_routes(),), generated) && lists_routes(
                    list@,
                    generated.0,
                    generated.1@,
                ),
    {
        let generated = self.routes.generate_routes();
        let ghost g = generated;
        let (base, routes) = generated;
        let list = RouteList::from_generated(base, routes);
        proof {
            assert(call_ensures(Children::generate_routes, (&self.spec_routes(),), g));
            assert(lists_routes(list@, g.0, g.1@));
        }
        list
    }

    /// Renders what `path` shows at the end of `buf`: the route tree is
    /// asked for the match of `path`, and what it returns is rendered as
    /// [`render_flat`] does. What `buf` held stays in front; where the route
    /// that matched has a nested route that matched too, nothing is written
    /// and the error says so.
    pub fn to_html_with_buf(&self, arena: &ScopeArena, path: &str, buf: &mut String) -> (done: Result<
        (),
        FlatRouterError,
    >)
        requires
            arena.wf(),
            arena.spec_current().is_some(),
            call_requires(self.spec_fallback(), ()),
        ensures
            final(buf)@.len() >= old(buf)@.len(),
            final(buf)@.take(old(buf)@.len() as int) == old(buf)@,
            done matches Err(e) ==> e == FlatRouterError::NestedChild && final(buf)@ == old(buf)@,
            exists|m: Option<RouteMatch>| #[trigger]
                call_ensures(Children::match_route, (&self.spec_routes(), path), m) && flat_rendered(
                    m,
                    self.spec_fallback(),
                    old(buf)@,
                    done.is_ok(),
                    final(buf)@,
                ),
    {
        let new_match = self.routes.match_route(path);
        let ghost m = new_match;
        let done = if check_flat(&new_match) {
            render_flat(new_match, &self.fallback, buf);
            assert(buf@.take(old(buf)@.len() as int) =~= old(buf)@);
            Ok(())
        } else {
            assert(buf@.take(old(buf)@.len() as int) =~= old(buf)@);
            Err(FlatRouterError::NestedChild)
        };
        proof {
            assert(call_ensures(Children::match_route, (&self.spec_routes(), path), m));
            assert(flat_rendered(m, self.spec_fallback(), old(buf)@, done.is_ok(), buf@));
        }
        done
    }

    /// Renders what `path` shows to `stream`: the route tree is asked for
    /// the match of `path`, and what it returns is rendered as
    /// [`stream_flat`] does. What the synchronous buffer of the stream held
    /// stays in front; where the route that matched has a nested route that
    /// matched too, nothing is written and the error says so.
    pub fn to_html_async_with_buf<const OUT_OF_ORDER: bool>(
        &self,
        arena: &ScopeArena,
        path: &str,
        stream: &mut StreamBuilder,
    ) -> (done: Result<(), FlatRouterError>)
        requires
            arena.wf(),
            arena.spec_current().is_some(),
            call_requires(self.spec_fallback(), ()),
        ensures
            stream_text(*final(stream)).len() >= stream_text(*old(stream)).len(),
            stream_text(*final(stream)).take(stream_text(*old(stream)).len() as int) == stream_text(
                *old(stream),
            ),
            done matches Err(e) ==> e == FlatRouterError::NestedChild && stream_text(*final(stream))
                == stream_text(*old(stream)),
            exists|m: Option<RouteMatch>| #[trigger]
                call_ensures(Children::match_route, (&self.spec_routes(), path), m) && flat_rendered(
                    m,
                    self.spec_fallback(),
                    stream_text(*old(stream)),
                    done.is_ok(),
                    stream_text(*final(stream)),
                ),
    {
        let new_match = self.routes.match_route(path);
        let ghost m = new_match;
        let ghost before = stream_text(*stream);
        let done = if check_flat(&new_match) {
            stream_flat::<FallbackFn, OUT_OF_ORDER>(new_match, &self.fallback, stream);
            assert(stream_text(*stream).take(before.len() as int) =~= before);
            Ok(())
        } else {
            assert(before.take(before.len() as int) =~= before);
            Err(FlatRouterError::NestedChild)
        };
        proof {
            assert(call_ensures(Children::match_route, (&self.spec_routes(), path), m));
            assert(flat_rendered(m, self.spec_fallback(), before, done.is_ok(), stream_text(*stream)));
        }
        done
    }

    /// Sets the router up in the ambient scope and makes the first run for
    /// `path` over markup that is already there, from `cursor` on: the
    /// route tree is asked for the match of `path`, and what it returns is
    /// attached as [`hydrate_flat`] does. A state that is returned stands in
    /// the ambient scope and is attached, and the cursor returned does not
    /// stand before `cursor`. The run is refused where the route that
    /// matched has a nested route that matched too, and fails where the text
    /// does not hold the markup.
    pub fn hydrate(&self, arena: &ScopeArena, path: &str, text: &str, cursor: &Cursor) -> (res: Result<
        (FlatRouterState, Cursor),
        FlatRouterError,
    >)
        requires
            arena.wf(),
            arena.spec_current().is_some(),
            call_requires(self.spec_fallback(), ()),
        ensures
            res matches Ok((state, end)) ==> {
                &&& Some(state.outer()) == arena.spec_current()
                &&& state.is_mounted()
                &&& cursor.pos <= end.pos <= text@.len()
                &&& state.is_fallback() ==> call_ensures(self.spec_fallback(), (), state.fallback_view())
            },
            exists|m: Option<RouteMatch>| #[trigger]
                call_ensures(Children::match_route, (&self.spec_routes(), path), m) && flat_hydrated(
                    m,
                    self.spec_fallback(),
                    text@,
                    *cursor,
                    res,
                ),
    {
        let outer_owner = arena.current().unwrap();
        let new_match = self.routes.match_route(path);
        let ghost m = new_match;
        let res = if check_flat(&new_match) {
            match hydrate_flat(outer_owner, new_match, &self.fallback, text, cursor) {
                Some(done) => Ok(done),
                None => Err(FlatRouterError::Mismatch),
            }
        } else {
            Err(FlatRouterError::NestedChild)
        };
        proof {
            assert(call_ensures(Children::match_route, (&self.spec_routes(), path), m));
            assert(flat_hydrated(m, self.spec_fallback(), text@, *cursor, res));
        }
        res
    }
}

/// What rendering the match `m` with a flat router leaves in a text, as
/// plain values. The match is rendered exactly if it has a single level or
/// there is none: after the text that was there stands the markup of its
/// view, or that of a view that `fallback` returned. A match that is not
/// rendered leaves the text as it was.
pub open spec fn flat_rendered<F: Fn() -> RouteView>(
    m: Option<RouteMatch>,
    fallback: F,
    text: Seq<char>,
    done: bool,
    text_after: Seq<char>,
) -> bool {
    &&& done == is_flat(levels_of(m))
    &&& !done ==> text_after == text
    &&& done ==> match levels_of(m) {
        Some(l) => text_after == text + view_markup(l[0].view),
        None => exists|view: RouteView| #[trigger]
            call_ensures(fallback, (), view) && text_after == text + view_markup(view@),
    }
}

/// What the first run of a flat router over markup gives for the match
/// `m`. It succeeds exactly if the match has a single level, or there is
/// none, and the text holds the markup of what is shown at the cursor; the
/// state then shows the view of the match or the fallback, and the cursor
/// returned stands after the markup. Each error says which of the two was
/// not so.
pub open spec fn flat_hydrated<F: Fn() -> RouteView>(
    m: Option<RouteMatch>,
    fallback: F,
    text: Seq<char>,
    cursor: Cursor,
    res: Result<(FlatRouterState, Cursor), FlatRouterError>,
) -> bool {
    match res {
        Ok((state, end)) => {
            &&& is_flat(levels_of(m))
            &&& state.shown() == flat_shown(levels_of(m))
            &&& state.is_fallback() == levels_of(m).is_none()
            &&& match levels_of(m) {
                Some(l) => holds_at(text, cursor.pos as int, view_markup(l[0].view)) && end.pos == cursor.pos
                    + view_markup(l[0].view).len(),
                None => call_ensures(fallback, (), state.fallback_view()) && holds_at(
                    text,
                    cursor.pos as int,
                    view_markup(state.fallback_view()@),
                ) && end.pos == cursor.pos + view_markup(state.fallback_view()@).len(),
            }
        },
        Err(FlatRouterError::NestedChild) => !is_flat(levels_of(m)),
        Err(FlatRouterError::Mismatch) => {
            &&& is_flat(levels_of(m))
            &&& match levels_of(m) {
                Some(l) => !holds_at(text, cursor.pos as int, view_markup(l[0].view)),
                None => exists|view: RouteView| #[trigger]
                    call_ensures(fallback, (), view) && !holds_at(text, cursor.pos as int, view_markup(view@)),
            }
        },
    }
}

/// What a run of the flat router for the match `m` gives. The run is made
/// exactly if the match has a single level or there is none; `after` then
/// holds what the state shows: the parameters and the view of the match and
/// no fallback, or nothing of the kind and the fallback.
pub open spec fn flat_run(
    m: Option<RouteMatch>,
    done: bool,
    after: Option<(Option<(Seq<(Seq<char>, Seq<char>)>, ViewModel)>, bool)>,
) -> bool {
    &&& done == is_flat(levels_of(m))
    &&& done ==> after == Some((flat_shown(levels_of(m)), levels_of(m).is_none()))
    &&& !done ==> after.is_none()
}

} // verus!
