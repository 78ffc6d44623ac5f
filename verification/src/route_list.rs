//! The list of the routes that a route tree can serve, made without
//! matching a path: for each route its full path, how it is rendered on the
//! server, and the methods it accepts.

use crate::matching::{GeneratedRouteData, Method, PathSegment, SsrMode};
use vstd::prelude::*;

verus! {

/// A path segment as plain values.
pub enum SegmentModel {
    Unit,
    Static(Seq<char>),
    Param(Seq<char>),
    Splat(Seq<char>),
}

impl View for PathSegment {
    type V = SegmentModel;

    open spec fn view(&self) -> SegmentModel {
        match self {
            PathSegment::Unit => SegmentModel::Unit,
            PathSegment::Static(s) => SegmentModel::Static(s@),
            PathSegment::Param(s) => SegmentModel::Param(s@),
            PathSegment::Splat(s) => SegmentModel::Splat(s@),
        }
    }
}

/// Path segments as plain values.
pub open spec fn segments_model(segments: Seq<PathSegment>) -> Seq<SegmentModel> {
    Seq::new(segments.len(), |i: int| segments[i]@)
}

/// A listed route as plain values.
pub struct ListingModel {
    pub path: Seq<SegmentModel>,
    pub mode: SsrMode,
    pub methods: Seq<Method>,
}

/// One route of the list.
#[derive(Debug)]
pub struct RouteListing {
    path: Vec<PathSegment>,
    mode: SsrMode,
    methods: Vec<Method>,
}

impl View for RouteListing {
    type V = ListingModel;

    closed spec fn view(&self) -> ListingModel {
        ListingModel { path: segments_model(self.path@), mode: self.mode, methods: self.methods@ }
    }
}

impl View for GeneratedRouteData {
    type V = ListingModel;

    open spec fn view(&self) -> ListingModel {
        ListingModel { path: segments_model(self.segments@), mode: self.ssr_mode, methods: self.methods@ }
    }
}

impl RouteListing {
    /// A route with the given path, mode and methods.
    pub fn new(path: Vec<PathSegment>, mode: SsrMode, methods: Vec<Method>) -> (listing: Self)
        ensures
            listing@ == (ListingModel { path: segments_model(path@), mode, methods: methods@ }),
    {
        RouteListing { path, mode, methods }
    }

    /// The segments of the route's path.
    pub fn path(&self) -> (path: &Vec<PathSegment>)
        ensures
            segments_model(path@) == self@.path,
    {
        &self.path
    }

    /// How the route is rendered on the server.
    pub fn mode(&self) -> (mode: SsrMode)
        ensures
            mode == self@.mode,
    {
        self.mode
    }

    /// The methods that the route accepts.
    pub fn methods(&self) -> (methods: &Vec<Method>)
        ensures
            methods@ == self@.methods,
    {
        &self.methods
    }
}

/// The path of a listed route: the base prefix as a static segment, if
/// there is one, and then the route's own segments.
pub open spec fn full_path(base: Option<Seq<char>>, segments: Seq<SegmentModel>) -> Seq<SegmentModel> {
    match base {
        Some(b) => seq![SegmentModel::Static(b)] + segments,
        None => segments,
    }
}

/// What is listed for a route: its full path, with the mode and the
/// methods that the route tree gives for it.
pub open spec fn listing_of(base: Option<Seq<char>>, route: ListingModel) -> ListingModel {
    ListingModel { path: full_path(base, route.path), mode: route.mode, methods: route.methods }
}

/// The base prefix as plain values.
pub open spec fn base_model(base: Option<String>) -> Option<Seq<char>> {
    match base {
        Some(b) => Some(b@),
        None => None,
    }
}

/// The list of routes.
#[derive(Debug)]
pub struct RouteList {
    routes: Vec<RouteListing>,
}

impl View for RouteList {
    type V = Seq<ListingModel>;

    closed spec fn view(&self) -> Seq<ListingModel> {
        Seq::new(self.routes@.len(), |i: int| self.routes@[i]@)
    }
}

/// Puts the base prefix in front of a route's segments.
fn prefixed(base: &Option<String>, segments: Vec<PathSegment>) -> (path: Vec<PathSegment>)
    ensures
        segments_model(path@) == full_path(base_model(*base), segments_model(segments@)),
{
    let mut path = segments;
    match base {
        Some(b) => {
            path.insert(0, PathSegment::Static(b.clone()));
            assert(segments_model(path@) =~= full_path(base_model(*base), segments_model(segments@)));
        },
        None => {},
    }
    path
}

impl RouteList {
    /// The list that a router makes of the routes of its tree, in the order
    /// of the tree: each route with the base prefix in front of its path,
    /// and with its own mode and methods.
    pub fn from_generated(base: Option<String>, routes: Vec<GeneratedRouteData>) -> (list: Self)
        ensures
            list@.len() == routes@.len(),
            forall|i: int|
                0 <= i < routes@.len() ==> (#[trigger] list@[i]) == listing_of(base_model(base), routes@[i]@),
    {
        let mut rest = routes;
        let mut out: Vec<RouteListing> = Vec::new();
        while rest.len() > 0
            invariant
                rest@.len() <= routes@.len(),
                out@.len() == routes@.len() - rest@.len(),
                forall|i: int| 0 <= i < rest@.len() ==> (#[trigger] rest@[i]) == routes@[i],
                forall|i: int|
                    0 <= i < out@.len() ==> (#[trigger] out@[i])@ == listing_of(
                        base_model(base),
                        routes@[rest@.len() + i]@,
                    ),
            decreases rest@.len(),
        {
            let data = rest.pop().unwrap();
            let GeneratedRouteData { segments, ssr_mode, methods } = data;
            let path = prefixed(&base, segments);
            out.insert(0, RouteListing::new(path, ssr_mode, methods));
        }
        RouteList { routes: out }
    }

    /// Number of routes.
    pub fn len(&self) -> (n: usize)
        ensures
            n == self@.len(),
    {
        self.routes.len()
    }

    /// The route at `index`.
    pub fn get(&self, index: usize) -> (listing: &RouteListing)
        requires
            index < self@.len(),
        ensures
            listing@ == self@[index as int],
    {
        &self.routes[index]
    }

    /// The routes, as a vector.
    pub fn into_inner(self) -> (routes: Vec<RouteListing>)
        ensures
            routes@.len() == self@.len(),
            forall|i: int| 0 <= i < routes@.len() ==> (#[trigger] routes@[i])@ == self@[i],
    {
        self.routes
    }
}

/// `list` is what a router lists for `routes` under `base`: one route for
/// each, in their order.
pub open spec fn lists_routes(list: Seq<ListingModel>, base: Option<String>, routes: Seq<GeneratedRouteData>) -> bool {
    &&& list.len() == routes.len()
    &&& forall|i: int| 0 <= i < routes.len() ==> (#[trigger] list[i]) == listing_of(base_model(base), routes[i]@)
}

} // verus!
