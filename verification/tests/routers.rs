use nested_router::flat_router::{
    check_flat, hydrate_flat, render_flat, stream_flat, FlatRouter, FlatRouterError, FlatRouterState, FlatState,
};
use nested_router::matching::{
    GeneratedRouteData, MatchNestedRoutes, Method, PathSegment, RouteMatch, RouteMatchId, RouteView, SsrMode,
};
use nested_router::nested::ReconcileError;
use nested_router::outlet::Cursor;
use nested_router::params::Params;
use nested_router::render::HydrationError;
use nested_router::route_list::{RouteList, RouteListing};
use nested_router::router::{render_match, stream_match, RouteState, Router, RouterState};
use nested_router::scope::{ScopeArena, ScopeId};
use tachys::ssr::{StreamBuilder, StreamChunk};

const R1: RouteMatchId = RouteMatchId(1);
const R2: RouteMatchId = RouteMatchId(2);

/// `/a/:id` with the nested route `/a/:id/b`, and the flat route `/x`.
struct Tree;

fn v1() -> RouteView {
    RouteView::new("<main>".to_string(), "</main>".to_string())
}

fn v2() -> RouteView {
    RouteView::new("<p>b</p>".to_string(), String::new())
}

impl MatchNestedRoutes for Tree {
    fn match_route(&self, path: &str) -> Option<RouteMatch> {
        let parts: Vec<&str> = path.split('/').filter(|s| !s.is_empty()).collect();
        match parts.as_slice() {
            ["a", id] => {
                let mut p = Params::new();
                p.insert("id".to_string(), id.to_string());
                Some(RouteMatch::new(R1, p, v1()))
            }
            ["a", id, "b"] => {
                let mut p = Params::new();
                p.insert("id".to_string(), id.to_string());
                Some(RouteMatch::new(R1, p, v1()).nest(RouteMatch::new(R2, Params::new(), v2())))
            }
            ["x"] => Some(RouteMatch::new(
                RouteMatchId(9),
                Params::new(),
                RouteView::new("<x>".to_string(), "</x>".to_string()),
            )),
            _ => None,
        }
    }

    fn generate_routes(&self) -> (Option<String>, Vec<GeneratedRouteData>) {
        (
            Some("app".to_string()),
            vec![
                GeneratedRouteData {
                    segments: vec![PathSegment::Static("a".to_string()), PathSegment::Param("id".to_string())],
                    ssr_mode: SsrMode::Async,
                    methods: vec![Method::Get, Method::Post],
                },
                GeneratedRouteData {
                    segments: vec![PathSegment::Static("x".to_string())],
                    ssr_mode: SsrMode::InOrder,
                    methods: vec![Method::Get],
                },
            ],
        )
    }
}

fn not_found() -> RouteView {
    RouteView::new("<h1>404</h1>".to_string(), String::new())
}

fn arena_in_scope() -> (ScopeArena, ScopeId) {
    let mut arena = ScopeArena::new();
    let outer = arena.root();
    arena.enter(outer);
    (arena, outer)
}

fn chain_ids(state: &RouterState) -> Vec<(u16, usize)> {
    match state.state() {
        RouteState::Matched(st) => (0..st.len()).map(|i| (st.outlet(i).id().0, st.outlet(i).owner().0)).collect(),
        RouteState::Fallback(_) => Vec::new(),
    }
}

fn param(state: &RouterState, depth: usize, key: &str) -> Option<String> {
    match state.state() {
        RouteState::Matched(st) => st.outlet(depth).params().get(key),
        RouteState::Fallback(_) => None,
    }
}

fn sync_text(stream: &mut StreamBuilder) -> String {
    let mut out = String::new();
    for chunk in stream.take_chunks() {
        if let StreamChunk::Sync(text) = chunk {
            out.push_str(&text);
        }
    }
    out
}

fn segment_text(segment: &PathSegment) -> String {
    match segment {
        PathSegment::Unit => "()".to_string(),
        PathSegment::Static(s) => format!("static:{}", s),
        PathSegment::Param(s) => format!("param:{}", s),
        PathSegment::Splat(s) => format!("splat:{}", s),
    }
}

fn listing_text(listing: &RouteListing) -> (Vec<String>, SsrMode, Vec<Method>) {
    (listing.path().iter().map(segment_text).collect(), listing.mode(), listing.methods().clone())
}

#[test]
fn nested_navigation_scenario() {
    let router = Router::new(Tree, not_found);
    let (mut arena, outer) = arena_in_scope();

    let mut state = router.build(&mut arena, "/a/1/b");
    assert_eq!(state.outer_owner(), outer);
    assert_eq!(chain_ids(&state), vec![(1, 1), (2, 2)]);
    assert_eq!(param(&state, 0, "id"), Some("1".to_string()));
    match state.state() {
        RouteState::Matched(st) => assert_eq!(st.outlet(1).params().len(), 0),
        RouteState::Fallback(_) => panic!("a chain is shown"),
    }

    assert_eq!(router.rebuild(&mut arena, &mut state, "/a/2/b"), Ok(()));
    assert_eq!(chain_ids(&state), vec![(1, 1), (2, 2)]);
    assert_eq!(param(&state, 0, "id"), Some("2".to_string()));
    assert_eq!(arena.len(), 3);
    assert!(arena.is_alive(ScopeId(1)));
    assert!(arena.is_alive(ScopeId(2)));

    assert_eq!(router.rebuild(&mut arena, &mut state, "/a/1"), Ok(()));
    assert_eq!(chain_ids(&state), vec![(1, 1)]);
    assert_eq!(param(&state, 0, "id"), Some("1".to_string()));
    assert!(arena.is_alive(ScopeId(1)));
    assert!(!arena.is_alive(ScopeId(2)));

    assert_eq!(router.rebuild(&mut arena, &mut state, "/unknown"), Ok(()));
    assert!(matches!(state.state(), RouteState::Fallback(_)));
    assert!(!arena.is_alive(ScopeId(1)));
    assert!(arena.is_alive(outer));
    match state.state() {
        RouteState::Fallback(f) => assert_eq!(f.view().open(), "<h1>404</h1>"),
        RouteState::Matched(_) => panic!("the fallback is shown"),
    }
}

#[test]
fn first_run_without_a_match_shows_the_fallback() {
    let router = Router::new(Tree, not_found);
    let (mut arena, _) = arena_in_scope();
    let state = router.build(&mut arena, "/nowhere");
    assert!(matches!(state.state(), RouteState::Fallback(_)));
    assert_eq!(arena.len(), 1);
    assert!(!state.is_mounted_for_test());
}

trait MountedForTest {
    fn is_mounted_for_test(&self) -> bool;
}

impl MountedForTest for RouterState {
    fn is_mounted_for_test(&self) -> bool {
        match self.state() {
            RouteState::Matched(st) => st.mounted(),
            RouteState::Fallback(_) => false,
        }
    }
}

#[test]
fn representations_take_turns() {
    let router = Router::new(Tree, not_found);
    let (mut arena, outer) = arena_in_scope();
    let mut state = router.build(&mut arena, "/nowhere");
    state.mount();
    assert_eq!(router.rebuild(&mut arena, &mut state, "/still/nowhere"), Ok(()));
    assert!(matches!(state.state(), RouteState::Fallback(_)));
    assert_eq!(router.rebuild(&mut arena, &mut state, "/a/5/b"), Ok(()));
    assert_eq!(chain_ids(&state), vec![(1, 1), (2, 2)]);
    assert!(state.is_mounted_for_test());
    assert_eq!(arena.parent(ScopeId(1)), Some(outer));
    assert_eq!(router.rebuild(&mut arena, &mut state, "/gone"), Ok(()));
    assert!(matches!(state.state(), RouteState::Fallback(_)));
    assert!(!arena.is_alive(ScopeId(1)));
    assert!(!arena.is_alive(ScopeId(2)));
    assert_eq!(router.rebuild(&mut arena, &mut state, "/x"), Ok(()));
    assert_eq!(chain_ids(&state), vec![(9, 3)]);
    assert_eq!(router.rebuild(&mut arena, &mut state, "/a/1"), Ok(()));
    assert_eq!(chain_ids(&state), vec![(1, 4)]);
    assert!(!arena.is_alive(ScopeId(3)));
}

#[test]
fn fallback_is_produced_anew_on_every_run() {
    let calls = std::cell::Cell::new(0u32);
    let router = Router::new(Tree, || {
        calls.set(calls.get() + 1);
        RouteView::new(format!("<h1>{}</h1>", calls.get()), String::new())
    });
    let (mut arena, _) = arena_in_scope();
    let mut state = router.build(&mut arena, "/none");
    assert_eq!(router.rebuild(&mut arena, &mut state, "/none"), Ok(()));
    assert_eq!(router.rebuild(&mut arena, &mut state, "/none"), Ok(()));
    assert_eq!(calls.get(), 3);
    match state.state() {
        RouteState::Fallback(f) => assert_eq!(f.view().open(), "<h1>3</h1>"),
        RouteState::Matched(_) => panic!("the fallback is shown"),
    }
    assert_eq!(router.fallback().open(), "<h1>4</h1>");
}

#[test]
fn deeper_match_under_the_same_routes_is_refused() {
    let router = Router::new(Tree, not_found);
    let (mut arena, _) = arena_in_scope();
    let mut state = router.build(&mut arena, "/a/1");
    assert_eq!(router.rebuild(&mut arena, &mut state, "/a/2/b"), Err(ReconcileError::ChainExhausted));
    assert_eq!(chain_ids(&state), vec![(1, 1)]);
    assert_eq!(param(&state, 0, "id"), Some("1".to_string()));
    assert_eq!(arena.len(), 2);
}

#[test]
fn state_functions_take_the_match_itself() {
    let (mut arena, outer) = arena_in_scope();
    let mut state = RouterState::start(&mut arena, outer, Tree.match_route("/a/1/b"), &not_found);
    assert_eq!(chain_ids(&state), vec![(1, 1), (2, 2)]);
    state.advance(&mut arena, Tree.match_route("/a/3/b"), &not_found);
    assert_eq!(param(&state, 0, "id"), Some("3".to_string()));
    assert_eq!(state.try_advance(&mut arena, None, &not_found), Ok(()));
    assert!(matches!(state.state(), RouteState::Fallback(_)));
    assert_eq!(state.try_advance(&mut arena, Tree.match_route("/a/1"), &not_found), Ok(()));
    assert_eq!(
        state.try_advance(&mut arena, Tree.match_route("/a/1/b"), &not_found),
        Err(ReconcileError::ChainExhausted)
    );
}

#[test]
fn router_renders_the_match_or_the_fallback() {
    let router = Router::new_with_base("app".to_string(), Tree, not_found);
    assert_eq!(router.base(), &Some("app".to_string()));
    let (mut arena, _) = arena_in_scope();
    let mut buf = String::from(">");
    router.to_html_with_buf(&mut arena, "/a/1/b", &mut buf);
    assert_eq!(buf, "><main><p>b</p></main>");
    router.to_html_with_buf(&mut arena, "/zzz", &mut buf);
    assert_eq!(buf, "><main><p>b</p></main><h1>404</h1>");
    assert_eq!(arena.len(), 3);

    let mut stream = StreamBuilder::new(None);
    router.to_html_async_with_buf::<true>(&mut arena, "/a/1", &mut stream);
    router.to_html_async_with_buf::<false>(&mut arena, "/zzz", &mut stream);
    assert_eq!(sync_text(&mut stream), "<main></main><h1>404</h1>");
}

#[test]
fn render_functions_take_the_match_itself() {
    let (mut arena, outer) = arena_in_scope();
    let mut buf = String::new();
    render_match(&mut arena, outer, Tree.match_route("/x"), &not_found, &mut buf);
    render_match(&mut arena, outer, None, &not_found, &mut buf);
    assert_eq!(buf, "<x></x><h1>404</h1>");
    let mut stream = StreamBuilder::new(None);
    stream_match::<_, false>(&mut arena, outer, Tree.match_route("/a/1/b"), &not_found, &mut stream);
    stream_match::<_, true>(&mut arena, outer, None, &not_found, &mut stream);
    assert_eq!(sync_text(&mut stream), "<main><p>b</p></main><h1>404</h1>");
}

#[test]
fn router_hydrates_what_it_rendered() {
    let router = Router::new(Tree, not_found);
    let (mut server, _) = arena_in_scope();
    let mut html = String::from("<body>");
    router.to_html_with_buf(&mut server, "/a/1/b", &mut html);
    html.push_str("</body>");

    let (mut arena, outer) = arena_in_scope();
    let (mut state, end) = router.hydrate(&mut arena, "/a/1/b", &html, &Cursor { pos: 6 }).unwrap();
    assert_eq!(end, Cursor { pos: html.len() - 7 });
    assert_eq!(state.outer_owner(), outer);
    assert_eq!(chain_ids(&state), vec![(1, 1), (2, 2)]);
    assert!(state.is_mounted_for_test());
    assert_eq!(router.rebuild(&mut arena, &mut state, "/a/2/b"), Ok(()));
    assert_eq!(chain_ids(&state), vec![(1, 1), (2, 2)]);

    let (mut other, _) = arena_in_scope();
    let refused = router.hydrate(&mut other, "/a/1", &html, &Cursor { pos: 6 });
    assert_eq!(refused.unwrap_err(), HydrationError::Mismatch);
    assert_eq!(other.len(), 2);
    assert!(!other.is_alive(ScopeId(1)));

    let (mut third, _) = arena_in_scope();
    let (state, end) = router.hydrate(&mut third, "/none", "<h1>404</h1>", &Cursor { pos: 0 }).unwrap();
    assert_eq!(end, Cursor { pos: 12 });
    assert!(matches!(state.state(), RouteState::Fallback(_)));
    assert!(router.hydrate(&mut third, "/none", "<h1>500</h1>", &Cursor { pos: 0 }).is_err());
}

#[test]
fn nested_router_lists_routes_with_their_mode_and_methods() {
    let router = Router::new(Tree, not_found);
    let list = router.generate_route_list();
    assert_eq!(list.len(), 2);
    assert_eq!(
        listing_text(list.get(0)),
        (
            vec!["static:app".to_string(), "static:a".to_string(), "param:id".to_string()],
            SsrMode::Async,
            vec![Method::Get, Method::Post]
        )
    );
    assert_eq!(
        listing_text(list.get(1)),
        (vec!["static:app".to_string(), "static:x".to_string()], SsrMode::InOrder, vec![Method::Get])
    );
}

#[test]
fn flat_router_lists_routes_with_their_own_mode_and_methods() {
    let router = FlatRouter::new(Tree, not_found);
    let list = router.generate_route_list().into_inner();
    assert_eq!(list.len(), 2);
    assert_eq!(
        listing_text(&list[0]),
        (
            vec!["static:app".to_string(), "static:a".to_string(), "param:id".to_string()],
            SsrMode::Async,
            vec![Method::Get, Method::Post]
        )
    );
    assert_eq!(
        listing_text(&list[1]),
        (vec!["static:app".to_string(), "static:x".to_string()], SsrMode::InOrder, vec![Method::Get])
    );
}

#[test]
fn route_list_without_base_keeps_the_segments() {
    let routes = vec![
        GeneratedRouteData {
            segments: vec![PathSegment::Unit, PathSegment::Splat("rest".to_string())],
            ssr_mode: SsrMode::PartiallyBlocked,
            methods: vec![Method::Put, Method::Delete, Method::Patch],
        },
        GeneratedRouteData { segments: vec![], ssr_mode: SsrMode::OutOfOrder, methods: vec![] },
    ];
    let list = RouteList::from_generated(None, routes);
    assert_eq!(
        listing_text(list.get(0)),
        (
            vec!["()".to_string(), "splat:rest".to_string()],
            SsrMode::PartiallyBlocked,
            vec![Method::Put, Method::Delete, Method::Patch]
        )
    );
    assert_eq!(listing_text(list.get(1)), (vec![], SsrMode::OutOfOrder, vec![]));
    let none = RouteList::from_generated(Some("b".to_string()), vec![]);
    assert_eq!(none.len(), 0);
    let one = RouteListing::new(vec![PathSegment::Param("p".to_string())], SsrMode::Async, vec![Method::Post]);
    assert_eq!(listing_text(&one), (vec!["param:p".to_string()], SsrMode::Async, vec![Method::Post]));
}

#[test]
fn flat_router_swaps_on_every_run() {
    let router = FlatRouter::new_with_base("app".to_string(), Tree, not_found);
    assert_eq!(router.base(), &Some("app".to_string()));
    let (arena, outer) = arena_in_scope();
    let mut state = router.build(&arena, "/a/1").unwrap();
    assert_eq!(state.outer_owner(), outer);
    assert!(!state.mounted());
    match state.state() {
        FlatState::Matched { params, view } => {
            assert_eq!(params.get("id"), Some("1".to_string()));
            assert_eq!(view.open(), "<main>");
        }
        FlatState::Fallback { .. } => panic!("a view is shown"),
    }
    state.mount();
    assert_eq!(router.rebuild(&mut state, "/a/2"), Ok(()));
    match state.state() {
        FlatState::Matched { params, .. } => assert_eq!(params.get("id"), Some("2".to_string())),
        FlatState::Fallback { .. } => panic!("a view is shown"),
    }
    assert_eq!(router.rebuild(&mut state, "/none"), Ok(()));
    match state.state() {
        FlatState::Fallback { view } => assert_eq!(view.open(), "<h1>404</h1>"),
        FlatState::Matched { .. } => panic!("the fallback is shown"),
    }
    assert!(state.mounted());
    assert_eq!(router.rebuild(&mut state, "/x"), Ok(()));
    assert!(matches!(state.state(), FlatState::Matched { .. }));
    assert_eq!(arena.len(), 1);
    assert_eq!(router.fallback().open(), "<h1>404</h1>");
}

#[test]
fn flat_router_refuses_a_nested_match() {
    let router = FlatRouter::new(Tree, not_found);
    let (arena, _) = arena_in_scope();
    assert_eq!(router.build(&arena, "/a/1/b").unwrap_err(), FlatRouterError::NestedChild);
    let mut state = router.build(&arena, "/x").unwrap();
    assert_eq!(router.rebuild(&mut state, "/a/1/b"), Err(FlatRouterError::NestedChild));
    match state.state() {
        FlatState::Matched { view, .. } => assert_eq!(view.open(), "<x>"),
        FlatState::Fallback { .. } => panic!("the view stays"),
    }
    let mut buf = String::from("kept");
    assert_eq!(router.to_html_with_buf(&arena, "/a/1/b", &mut buf), Err(FlatRouterError::NestedChild));
    assert_eq!(buf, "kept");
    let mut stream = StreamBuilder::new(None);
    assert_eq!(
        router.to_html_async_with_buf::<true>(&arena, "/a/1/b", &mut stream),
        Err(FlatRouterError::NestedChild)
    );
    assert_eq!(sync_text(&mut stream), "");
    assert_eq!(
        router.hydrate(&arena, "/a/1/b", "<main></main>", &Cursor { pos: 0 }).unwrap_err(),
        FlatRouterError::NestedChild
    );
    assert!(check_flat(&None));
    assert!(check_flat(&Tree.match_route("/x")));
    assert!(!check_flat(&Tree.match_route("/a/1/b")));
}

#[test]
fn flat_router_renders_and_hydrates_one_view() {
    let router = FlatRouter::new(Tree, not_found);
    let (arena, outer) = arena_in_scope();
    let mut buf = String::new();
    assert_eq!(router.to_html_with_buf(&arena, "/a/1", &mut buf), Ok(()));
    assert_eq!(router.to_html_with_buf(&arena, "/none", &mut buf), Ok(()));
    assert_eq!(buf, "<main></main><h1>404</h1>");
    let mut stream = StreamBuilder::new(None);
    assert_eq!(router.to_html_async_with_buf::<false>(&arena, "/x", &mut stream), Ok(()));
    assert_eq!(sync_text(&mut stream), "<x></x>");

    let (state, end) = router.hydrate(&arena, "/a/1", &buf, &Cursor { pos: 0 }).unwrap();
    assert_eq!(end, Cursor { pos: 13 });
    assert!(state.mounted());
    assert_eq!(state.outer_owner(), outer);
    let (state, end) = router.hydrate(&arena, "/none", &buf, &Cursor { pos: 13 }).unwrap();
    assert_eq!(end, Cursor { pos: 25 });
    assert!(matches!(state.state(), FlatState::Fallback { .. }));
    assert_eq!(router.hydrate(&arena, "/x", &buf, &Cursor { pos: 0 }).unwrap_err(), FlatRouterError::Mismatch);
}

#[test]
fn flat_functions_take_the_match_itself() {
    let outer = ScopeId(0);
    let mut state = FlatRouterState::start(outer, Tree.match_route("/x"), &not_found);
    assert!(matches!(state.state(), FlatState::Matched { .. }));
    state.advance(None, &not_found);
    assert!(matches!(state.state(), FlatState::Fallback { .. }));
    let mut buf = String::new();
    render_flat(Tree.match_route("/x"), &not_found, &mut buf);
    render_flat(None, &not_found, &mut buf);
    assert_eq!(buf, "<x></x><h1>404</h1>");
    let mut stream = StreamBuilder::new(None);
    stream_flat::<_, true>(Tree.match_route("/x"), &not_found, &mut stream);
    assert_eq!(sync_text(&mut stream), "<x></x>");
    let done = hydrate_flat(outer, Tree.match_route("/x"), &not_found, "<x></x>", &Cursor { pos: 0 });
    assert_eq!(done.unwrap().1, Cursor { pos: 7 });
    assert!(hydrate_flat(outer, Tree.match_route("/x"), &not_found, "<y></y>", &Cursor { pos: 0 }).is_none());
}
