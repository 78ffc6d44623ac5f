//! What a path matcher hands to the engine: a chain of matched routes, one
//! per nesting level, each with its identity, its parameters and its view.

use crate::params::Params;
use vstd::prelude::*;

verus! {

/// Identity of a route definition. Two matches of one definition carry the
/// same id, whatever their parameters.
#[derive(Clone, Copy, Debug, PartialEq, Eq, Structural)]
pub struct RouteMatchId(pub u16);

/// The markup of a view, as sequences of characters: what it puts before the
/// next level's outlet and what it puts after it.
pub struct ViewModel {
    pub open: Seq<char>,
    pub close: Seq<char>,
}

/// The content bound to a route: markup around the place where the next
/// nesting level is shown.
#[derive(Debug)]
pub struct RouteView {
    open: String,
    close: String,
}

impl View for RouteView {
    type V = ViewModel;

    closed spec fn view(&self) -> ViewModel {
        ViewModel { open: self.open@, close: self.close@ }
    }
}

impl Clone for RouteView {
    fn clone(&self) -> (copy: Self)
        ensures
            copy@ == self@,
    {
        RouteView { open: self.open.clone(), close: self.close.clone() }
    }
}

impl RouteView {
    /// A view that shows `open`, then the next level, then `close`.
    pub fn new(open: String, close: String) -> (view: Self)
        ensures
            view@ == (ViewModel { open: open@, close: close@ }),
    {
        RouteView { open, close }
    }

    /// The view that shows nothing.
    pub fn empty() -> (view: Self)
        ensures
            view@ == (ViewModel { open: Seq::empty(), close: Seq::empty() }),
    {
        RouteView { open: String::new(), close: String::new() }
    }

    /// The markup before the next level.
    pub fn open(&self) -> (s: &str)
        ensures
            s@ == self@.open,
    {
        self.open.as_str()
    }

    /// The markup after the next level.
    pub fn close(&self) -> (s: &str)
        ensures
            s@ == self@.close,
    {
        self.close.as_str()
    }
}

/// One nesting level of a match, as plain values.
pub struct MatchLevel {
    pub id: RouteMatchId,
    pub params: Seq<(Seq<char>, Seq<char>)>,
    pub view: ViewModel,
}

/// The result of matching a path: the route that matched at this level and,
/// if a nested route matched too, the match one level down.
#[derive(Debug)]
pub struct RouteMatch {
    id: RouteMatchId,
    params: Params,
    view: RouteView,
    child: Option<Box<RouteMatch>>,
}

impl RouteMatch {
    /// This level of the match.
    pub closed spec fn level(&self) -> MatchLevel {
        MatchLevel { id: self.id, params: self.params@, view: self.view@ }
    }

    /// The match one level down.
    pub closed spec fn spec_child(&self) -> Option<RouteMatch> {
        match self.child {
            Some(c) => Some(*c),
            None => None,
        }
    }

    /// The levels of the match, outermost first.
    pub closed spec fn levels(&self) -> Seq<MatchLevel>
        decreases self,
    {
        match self.child {
            Some(c) => seq![self.level()] + c.levels(),
            None => seq![self.level()],
        }
    }

    /// A match has at least one level, the first is its own, and the rest
    /// are those of its child.
    pub proof fn lemma_levels(&self)
        ensures
            self.levels().len() >= 1,
            self.levels()[0] == self.level(),
            match self.spec_child() {
                Some(c) => self.levels() == seq![self.level()] + c.levels(),
                None => self.levels() == seq![self.level()],
            },
        decreases self,
    {
        match self.child {
            Some(c) => {
                c.lemma_levels();
            },
            None => {},
        }
    }

    /// A match of one level.
    pub fn new(id: RouteMatchId, params: Params, view: RouteView) -> (m: Self)
        ensures
            m.levels() == seq![MatchLevel { id, params: params@, view: view@ }],
            m.spec_child().is_none(),
    {
        RouteMatch { id, params, view, child: None }
    }

    /// This match with `child` as the match one level down, in place of any
    /// it had.
    pub fn nest(self, child: RouteMatch) -> (m: Self)
        ensures
            m.levels() == seq![self.levels()[0]] + child.levels(),
            m.spec_child() == Some(child),
    {
        proof {
            self.lemma_levels();
        }
        RouteMatch { id: self.id, params: self.params, view: self.view, child: Some(Box::new(child)) }
    }

    /// The identity of the route matched at this level.
    pub fn as_id(&self) -> (id: RouteMatchId)
        ensures
            id == self.levels()[0].id,
    {
        proof {
            self.lemma_levels();
        }
        self.id
    }

    /// The parameters of this level.
    pub fn to_params(&self) -> (params: Params)
        ensures
            params@ == self.levels()[0].params,
    {
        proof {
            self.lemma_levels();
        }
        self.params.clone()
    }

    /// The match one level down, if a nested route matched.
    pub fn child(&self) -> (child: Option<&RouteMatch>)
        ensures
            child.is_some() == self.spec_child().is_some(),
            child matches Some(c) ==> self.spec_child() == Some(*c) && self.levels() == seq![
                self.levels()[0],
            ] + c.levels(),
            child.is_none() ==> self.levels().len() == 1,
    {
        proof {
            self.lemma_levels();
        }
        match &self.child {
            Some(c) => Some(&**c),
            None => None,
        }
    }

    /// Number of nesting levels.
    pub fn depth(&self) -> (n: usize)
        ensures
            n == self.levels().len() || (n == usize::MAX && self.levels().len() > usize::MAX),
        decreases self,
    {
        match &self.child {
            Some(c) => {
                let below = c.depth();
                if below == usize::MAX {
                    usize::MAX
                } else {
                    below + 1
                }
            },
            None => 1,
        }
    }

    /// Takes the match apart: the view of this level and the match one
    /// level down.
    pub fn into_view_and_child(self) -> (parts: (RouteView, Option<RouteMatch>))
        ensures
            parts.0@ == self.levels()[0].view,
            parts.1 == self.spec_child(),
            match parts.1 {
                Some(c) => self.levels() == seq![self.levels()[0]] + c.levels(),
                None => self.levels().len() == 1,
            },
    {
        proof {
            self.lemma_levels();
        }
        let RouteMatch { id: _, params: _, view, child } = self;
        match child {
            Some(c) => (view, Some(*c)),
            None => (view, None),
        }
    }
}

/// What a route tree is asked for. The engine calls a matcher through this
/// trait and verifies nothing of it: every match it may return is handled.
pub trait MatchNestedRoutes {
    /// The chain of routes that match `path`, if the whole path matches.
    fn match_route(&self, path: &str) -> (m: Option<RouteMatch>);

    /// The base prefix and every route that can be derived without a path.
    fn generate_routes(&self) -> (routes: (Option<String>, Vec<GeneratedRouteData>));
}

/// One segment of a route's path.
#[derive(Debug)]
pub enum PathSegment {
    Unit,
    Static(String),
    Param(String),
    Splat(String),
}

/// How a route is rendered on the server.
#[derive(Clone, Copy, Debug, PartialEq, Eq, Structural)]
pub enum SsrMode {
    OutOfOrder,
    PartiallyBlocked,
    InOrder,
    Async,
}

/// A request method that a route accepts.
#[derive(Clone, Copy, Debug, PartialEq, Eq, Structural)]
pub enum Method {
    Get,
    Post,
    Put,
    Delete,
    Patch,
}

/// One route as the route tree lists it.
#[derive(Debug)]
pub struct GeneratedRouteData {
    pub segments: Vec<PathSegment>,
    pub ssr_mode: SsrMode,
    pub methods: Vec<Method>,
}

} // verus!
