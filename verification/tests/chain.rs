use nested_router::matching::{RouteMatch, RouteMatchId, RouteView};
use nested_router::nested::{
    get_inner_view, get_inner_view_hydrate, rebuild_inner, rebuild_nested, NestedRouteState, NestedRouteView,
    ReconcileError,
};
use nested_router::outlet::{Cursor, Outlet, OutletInner};
use nested_router::params::Params;
use nested_router::scope::{ScopeArena, ScopeId};
use std::collections::VecDeque;

fn view(open: &str, close: &str) -> RouteView {
    RouteView::new(open.to_string(), close.to_string())
}

fn params(pairs: &[(&str, &str)]) -> Params {
    let mut p = Params::new();
    for (k, v) in pairs {
        p.insert(k.to_string(), v.to_string());
    }
    p
}

fn level(id: u16, pairs: &[(&str, &str)]) -> RouteMatch {
    let tag = format!("r{}", id);
    RouteMatch::new(
        RouteMatchId(id),
        params(pairs),
        view(&format!("<{}>", tag), &format!("</{}>", tag)),
    )
}

fn chain_of(levels: Vec<RouteMatch>) -> RouteMatch {
    let mut rest = levels;
    let mut current = rest.pop().unwrap();
    while let Some(above) = rest.pop() {
        current = above.nest(current);
    }
    current
}

fn ids(state: &NestedRouteState) -> Vec<u16> {
    (0..state.len()).map(|i| state.outlet(i).id().0).collect()
}

fn owners(state: &NestedRouteState) -> Vec<usize> {
    (0..state.len()).map(|i| state.outlet(i).owner().0).collect()
}

fn built_flags(state: &NestedRouteState) -> Vec<bool> {
    (0..state.len()).map(|i| state.outlet(i).inner().is_built()).collect()
}

fn setup() -> (ScopeArena, ScopeId) {
    let mut arena = ScopeArena::new();
    let outer = arena.root();
    (arena, outer)
}

#[test]
fn builder_makes_one_pending_outlet_per_level() {
    let (mut arena, outer) = setup();
    let m = chain_of(vec![level(1, &[("id", "1")]), level(2, &[]), level(3, &[])]);
    let view = NestedRouteView::new(&mut arena, outer, m);
    assert_eq!(view.len(), 3);
    assert_eq!(arena.len(), 4);
    for depth in 0..3 {
        let outlet = view.outlet(depth);
        assert_eq!(outlet.id(), RouteMatchId(depth as u16 + 1));
        assert_eq!(outlet.owner(), ScopeId(depth + 1));
        assert!(!outlet.inner().is_built());
        assert!(arena.is_alive(outlet.owner()));
    }
    assert_eq!(arena.parent(ScopeId(1)), Some(outer));
    assert_eq!(arena.parent(ScopeId(2)), Some(ScopeId(1)));
    assert_eq!(arena.parent(ScopeId(3)), Some(ScopeId(2)));
    assert_eq!(view.outlet(0).params().get("id"), Some("1".to_string()));
    assert_eq!(view.outlet(1).params().len(), 0);
}

#[test]
fn builder_leaves_existing_chains_alone() {
    let (mut arena, outer) = setup();
    let first = NestedRouteView::new(&mut arena, outer, chain_of(vec![level(1, &[]), level(2, &[])]));
    let second = NestedRouteView::new(&mut arena, outer, chain_of(vec![level(1, &[])]));
    assert_eq!(first.len(), 2);
    assert_eq!(first.outlet(0).owner(), ScopeId(1));
    assert_eq!(first.outlet(1).owner(), ScopeId(2));
    assert_eq!(second.outlet(0).owner(), ScopeId(3));
    assert!(arena.is_alive(ScopeId(1)));
    assert!(arena.is_alive(ScopeId(2)));
    assert_eq!(arena.parent(ScopeId(3)), Some(outer));
}

#[test]
fn get_inner_view_appends_outermost_first() {
    let (mut arena, outer) = setup();
    let mut outlets: VecDeque<Outlet> = VecDeque::new();
    let first = get_inner_view(&mut outlets, &mut arena, outer, chain_of(vec![level(7, &[]), level(8, &[])]));
    assert_eq!(first.id(), RouteMatchId(7));
    assert_eq!(outlets.len(), 2);
    assert_eq!(outlets[0].id(), RouteMatchId(7));
    assert_eq!(outlets[1].id(), RouteMatchId(8));
    assert_eq!(outlets[0].owner(), ScopeId(1));
    assert_eq!(outlets[1].owner(), ScopeId(2));
    assert!(matches!(outlets[0].inner(), OutletInner::Pending { hydrate: None, .. }));
}

#[test]
fn get_inner_view_hydrate_keeps_the_cursor() {
    let (mut arena, outer) = setup();
    let mut outlets: VecDeque<Outlet> = VecDeque::new();
    let cursor = Cursor { pos: 5 };
    let first = get_inner_view_hydrate(
        &mut outlets,
        &mut arena,
        outer,
        chain_of(vec![level(7, &[]), level(8, &[])]),
        &cursor,
    );
    assert_eq!(first.owner(), ScopeId(1));
    assert_eq!(outlets.len(), 2);
    for outlet in &outlets {
        assert!(matches!(outlet.inner(), OutletInner::Pending { hydrate: Some(Cursor { pos: 5 }), .. }));
    }
}

#[test]
fn build_hands_every_view_over_once() {
    let (mut arena, outer) = setup();
    let view = NestedRouteView::new(&mut arena, outer, chain_of(vec![level(1, &[]), level(2, &[])]));
    let state = view.build();
    assert!(!state.mounted());
    assert_eq!(built_flags(&state), vec![true, true]);
    assert!(matches!(state.outlet(0).inner(), OutletInner::Built { hydrated: false, .. }));
    let (again, changed) = state.outlet(0).inner().clone().build();
    assert!(!changed);
    assert!(matches!(again, OutletInner::Built { hydrated: false, .. }));
    let (built, changed) = OutletInner::empty().build();
    assert!(changed);
    assert!(built.is_built());
}

#[test]
fn same_routes_keep_every_outlet() {
    let (mut arena, outer) = setup();
    let view = NestedRouteView::new(&mut arena, outer, chain_of(vec![level(1, &[("id", "1")]), level(2, &[])]));
    let mut state = view.build();
    let before = owners(&state);
    for n in 2..6 {
        let value = n.to_string();
        let next = chain_of(vec![level(1, &[("id", value.as_str())]), level(2, &[("q", value.as_str())])]);
        assert_eq!(state.reconcile(&mut arena, outer, next), Ok(()));
        assert_eq!(owners(&state), before);
        assert_eq!(ids(&state), vec![1, 2]);
        assert_eq!(built_flags(&state), vec![true, true]);
        assert_eq!(arena.len(), 3);
        assert!(arena.is_alive(ScopeId(1)));
        assert!(arena.is_alive(ScopeId(2)));
        assert_eq!(state.outlet(0).params().get("id"), Some(value.clone()));
        assert_eq!(state.outlet(1).params().get("q"), Some(value.clone()));
    }
}

#[test]
fn divergence_replaces_from_that_depth_down() {
    let (mut arena, outer) = setup();
    let view = NestedRouteView::new(&mut arena, outer, chain_of(vec![level(1, &[]), level(2, &[]), level(3, &[])]));
    let mut state = view.build();
    let next = chain_of(vec![level(1, &[("k", "v")]), level(5, &[]), level(6, &[])]);
    rebuild_nested(&mut arena, outer, &mut state, next);
    assert_eq!(ids(&state), vec![1, 5, 6]);
    assert_eq!(owners(&state), vec![1, 4, 5]);
    assert!(arena.is_alive(ScopeId(1)));
    assert!(!arena.is_alive(ScopeId(2)));
    assert!(!arena.is_alive(ScopeId(3)));
    assert!(arena.is_alive(ScopeId(4)));
    assert!(arena.is_alive(ScopeId(5)));
    assert_eq!(arena.parent(ScopeId(4)), Some(ScopeId(1)));
    assert_eq!(arena.parent(ScopeId(5)), Some(ScopeId(4)));
    assert_eq!(arena.len(), 6);
    assert_eq!(built_flags(&state), vec![true, true, true]);
    assert_eq!(state.outlet(0).params().get("k"), Some("v".to_string()));
    assert_eq!(state.outlet(1).inner().route_view().open(), "<r5>");
}

#[test]
fn divergence_at_the_root_replaces_the_whole_chain() {
    let (mut arena, outer) = setup();
    let view = NestedRouteView::new(&mut arena, outer, chain_of(vec![level(1, &[]), level(2, &[])]));
    let mut state = view.build();
    state.mount();
    rebuild_nested(&mut arena, outer, &mut state, chain_of(vec![level(9, &[])]));
    assert_eq!(ids(&state), vec![9]);
    assert_eq!(owners(&state), vec![3]);
    assert!(!arena.is_alive(ScopeId(1)));
    assert!(!arena.is_alive(ScopeId(2)));
    assert!(arena.is_alive(ScopeId(3)));
    assert_eq!(arena.parent(ScopeId(3)), Some(outer));
    assert!(arena.is_alive(outer));
    assert!(state.mounted());
}

#[test]
fn same_params_other_route_is_another_outlet() {
    let (mut arena, outer) = setup();
    let view = NestedRouteView::new(&mut arena, outer, chain_of(vec![level(1, &[("id", "1")]), level(2, &[("x", "y")])]));
    let mut state = view.build();
    rebuild_nested(&mut arena, outer, &mut state, chain_of(vec![level(1, &[("id", "1")]), level(3, &[("x", "y")])]));
    assert_eq!(ids(&state), vec![1, 3]);
    assert_eq!(owners(&state), vec![1, 3]);
    assert!(!arena.is_alive(ScopeId(2)));
}

#[test]
fn params_read_by_the_view_are_the_latest() {
    let (mut arena, outer) = setup();
    let view = NestedRouteView::new(&mut arena, outer, chain_of(vec![level(1, &[("id", "1")]), level(2, &[])]));
    let mut state = view.build();
    let data = state.route_data(0);
    assert_eq!(data.params.get("id"), Some("1".to_string()));
    assert_eq!(data.outlet.id(), RouteMatchId(2));
    rebuild_nested(&mut arena, outer, &mut state, chain_of(vec![level(1, &[("id", "2")]), level(2, &[("tab", "a")])]));
    let data = state.route_data(0);
    assert_eq!(data.params.get("id"), Some("2".to_string()));
    assert_eq!(data.params.len(), 1);
    assert_eq!(data.outlet.params().get("tab"), Some("a".to_string()));
    let leaf = state.route_data(1);
    assert_eq!(leaf.params.get("tab"), Some("a".to_string()));
    assert_eq!(leaf.outlet.id(), RouteMatchId(0));
    assert_eq!(leaf.outlet.owner(), ScopeId(2));
    assert_eq!(leaf.outlet.params().len(), 0);
    assert_eq!(leaf.outlet.inner().route_view().open(), "");
    assert_eq!(leaf.outlet.inner().route_view().close(), "");
}

#[test]
fn truncation_from_three_levels_to_one() {
    let (mut arena, outer) = setup();
    let view = NestedRouteView::new(&mut arena, outer, chain_of(vec![level(1, &[]), level(2, &[]), level(3, &[])]));
    let mut state = view.build();
    rebuild_nested(&mut arena, outer, &mut state, chain_of(vec![level(1, &[])]));
    assert_eq!(state.len(), 1);
    assert_eq!(owners(&state), vec![1]);
    assert!(arena.is_alive(ScopeId(1)));
    assert!(!arena.is_alive(ScopeId(2)));
    assert!(!arena.is_alive(ScopeId(3)));
    assert_eq!(arena.len(), 4);
}

#[test]
fn exhausted_chain_is_refused_and_left_alone() {
    let (mut arena, outer) = setup();
    let view = NestedRouteView::new(&mut arena, outer, chain_of(vec![level(1, &[("id", "1")])]));
    let mut state = view.build();
    let deeper = chain_of(vec![level(1, &[("id", "2")]), level(2, &[])]);
    assert!(!state.can_reconcile(&deeper));
    assert_eq!(state.reconcile(&mut arena, outer, deeper), Err(ReconcileError::ChainExhausted));
    assert_eq!(state.len(), 1);
    assert_eq!(state.outlet(0).params().get("id"), Some("1".to_string()));
    assert_eq!(arena.len(), 2);
    assert!(arena.is_alive(ScopeId(1)));
    let other = chain_of(vec![level(4, &[]), level(2, &[])]);
    assert!(state.can_reconcile(&other));
}

#[test]
fn rebuild_inner_works_on_the_levels_below_the_settled_ones() {
    let (mut arena, outer) = setup();
    let mut outlets: VecDeque<Outlet> = VecDeque::new();
    get_inner_view(&mut outlets, &mut arena, outer, chain_of(vec![level(1, &[]), level(2, &[]), level(3, &[])]));
    let mut items: usize = 1;
    rebuild_inner(&mut items, &mut outlets, &mut arena, chain_of(vec![level(2, &[("a", "b")])]));
    assert_eq!(items, 2);
    assert_eq!(outlets.len(), 2);
    assert_eq!(outlets[1].id(), RouteMatchId(2));
    assert_eq!(outlets[1].owner(), ScopeId(2));
    assert_eq!(outlets[1].params().get("a"), Some("b".to_string()));
    assert!(!arena.is_alive(ScopeId(3)));
    let mut items: usize = 1;
    rebuild_inner(&mut items, &mut outlets, &mut arena, chain_of(vec![level(8, &[]), level(9, &[])]));
    assert_eq!(items, 3);
    assert_eq!(outlets[1].id(), RouteMatchId(8));
    assert_eq!(outlets[2].id(), RouteMatchId(9));
    assert_eq!(outlets[1].owner(), ScopeId(4));
    assert_eq!(outlets[2].owner(), ScopeId(5));
    assert!(!arena.is_alive(ScopeId(2)));
    assert!(outlets[1].inner().is_built());
}

#[test]
fn rebuild_puts_a_new_chain_in_place() {
    let (mut arena, outer) = setup();
    let mut state = NestedRouteView::new(&mut arena, outer, chain_of(vec![level(1, &[]), level(2, &[])])).build();
    let other = NestedRouteView::new(&mut arena, outer, chain_of(vec![level(3, &[])]));
    other.rebuild(&mut arena, &mut state);
    assert_eq!(ids(&state), vec![3]);
    assert_eq!(owners(&state), vec![3]);
    assert!(!arena.is_alive(ScopeId(1)));
    assert!(!arena.is_alive(ScopeId(2)));
    assert!(arena.is_alive(ScopeId(3)));
    assert_eq!(built_flags(&state), vec![true]);
}

#[test]
fn mounting_and_inserting_before() {
    let (mut arena, outer) = setup();
    let mut shown = NestedRouteView::new(&mut arena, outer, chain_of(vec![level(1, &[])])).build();
    let mut other = NestedRouteView::new(&mut arena, outer, chain_of(vec![level(2, &[])])).build();
    assert!(!shown.insert_before_this(&mut other));
    assert!(!other.mounted());
    shown.mount();
    assert!(shown.mounted());
    assert!(shown.insert_before_this(&mut other));
    assert!(other.mounted());
    shown.unmount();
    assert!(!shown.mounted());
    assert_eq!(shown.len(), 1);
}

#[test]
fn match_levels_and_parts() {
    let m = chain_of(vec![level(1, &[("id", "7")]), level(2, &[]), level(3, &[])]);
    assert_eq!(m.depth(), 3);
    assert_eq!(m.as_id(), RouteMatchId(1));
    assert_eq!(m.to_params().get("id"), Some("7".to_string()));
    assert_eq!(m.child().unwrap().as_id(), RouteMatchId(2));
    let (v, child) = m.into_view_and_child();
    assert_eq!(v.open(), "<r1>");
    assert_eq!(v.close(), "</r1>");
    let child = child.unwrap();
    assert_eq!(child.depth(), 2);
    let leaf = level(4, &[]);
    assert!(leaf.child().is_none());
    let (_, none) = leaf.into_view_and_child();
    assert!(none.is_none());
    let replaced = level(1, &[]).nest(level(2, &[])).nest(level(5, &[]));
    assert_eq!(replaced.depth(), 2);
    assert_eq!(replaced.child().unwrap().as_id(), RouteMatchId(5));
}

#[test]
fn outlet_accessors_and_updates() {
    let outlet = Outlet::new(RouteMatchId(3), ScopeId(9), params(&[("a", "1")]), view("<a>", "</a>"), None);
    assert_eq!(outlet.id(), RouteMatchId(3));
    assert_eq!(outlet.owner(), ScopeId(9));
    assert!(!outlet.inner().is_built());
    let copy = outlet.clone();
    let outlet = outlet.set_params(params(&[("a", "2")]));
    assert_eq!(outlet.params().get("a"), Some("2".to_string()));
    assert_eq!(copy.params().get("a"), Some("1".to_string()));
    assert_eq!(outlet.owner(), ScopeId(9));
    let outlet = outlet.build();
    assert!(matches!(outlet.inner(), OutletInner::Built { hydrated: false, .. }));
    let waiting = Outlet::new(RouteMatchId(3), ScopeId(9), Params::new(), view("", ""), Some(Cursor { pos: 0 }));
    assert!(matches!(waiting.build().inner(), OutletInner::Built { hydrated: true, .. }));
    let empty = Outlet::empty(ScopeId(4));
    assert_eq!(empty.id(), RouteMatchId(0));
    assert_eq!(empty.owner(), ScopeId(4));
    assert_eq!(empty.params().len(), 0);
}
