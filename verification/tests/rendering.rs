use nested_router::matching::{RouteMatch, RouteMatchId, RouteView};
use nested_router::nested::NestedRouteView;
use nested_router::outlet::{Cursor, OutletInner};
use nested_router::params::Params;
use nested_router::render::HydrationError;
use nested_router::scope::{ScopeArena, ScopeId};
use tachys::ssr::{StreamBuilder, StreamChunk};

fn leveled(id: u16, open: &str, close: &str) -> RouteMatch {
    RouteMatch::new(RouteMatchId(id), Params::new(), RouteView::new(open.to_string(), close.to_string()))
}

fn two_levels() -> RouteMatch {
    leveled(1, "<section><h1>a</h1>", "</section>").nest(leveled(2, "<p>b</p>", ""))
}

fn three_levels() -> RouteMatch {
    leveled(1, "<a>", "</a>").nest(leveled(2, "<b>", "</b>").nest(leveled(3, "<c>", "</c>")))
}

fn arena_with_outer() -> (ScopeArena, ScopeId) {
    let mut arena = ScopeArena::new();
    let outer = arena.root();
    (arena, outer)
}

fn sync_text(stream: &mut StreamBuilder) -> String {
    let mut out = String::new();
    for chunk in stream.take_chunks() {
        match chunk {
            StreamChunk::Sync(text) => out.push_str(&text),
            _ => panic!("only synchronous chunks are written"),
        }
    }
    out
}

#[test]
fn markup_nests_each_level_in_the_one_above() {
    let (mut arena, outer) = arena_with_outer();
    let view = NestedRouteView::new(&mut arena, outer, three_levels());
    let mut buf = String::from("<!doctype html>");
    view.to_html_with_buf(&mut buf);
    assert_eq!(buf, "<!doctype html><a><b><c></c></b></a>");
}

#[test]
fn markup_of_a_single_level() {
    let (mut arena, outer) = arena_with_outer();
    let view = NestedRouteView::new(&mut arena, outer, leveled(1, "<p>", "</p>"));
    let mut buf = String::new();
    view.to_html_with_buf(&mut buf);
    assert_eq!(buf, "<p></p>");
}

#[test]
fn html_len_counts_bytes_of_every_view() {
    let (mut arena, outer) = arena_with_outer();
    let view = NestedRouteView::new(&mut arena, outer, two_levels());
    assert_eq!(view.html_len(), 19 + 10 + 8);
    let wide = NestedRouteView::new(&mut arena, outer, leveled(1, "é", "ü√"));
    assert_eq!(wide.html_len(), 2 + 2 + 3);
    assert_eq!(RouteView::new("abc".to_string(), "de".to_string()).html_len(), 5);
    assert_eq!(RouteView::empty().html_len(), 0);
}

#[test]
fn room_is_made_before_writing() {
    let (mut arena, outer) = arena_with_outer();
    let view = NestedRouteView::new(&mut arena, outer, two_levels());
    let expected = view.html_len();
    let mut buf = String::new();
    view.to_html_with_buf(&mut buf);
    assert_eq!(buf.len(), expected);
    assert!(buf.capacity() >= expected);
}

#[test]
fn view_markup_alone() {
    let view = RouteView::new("<p>404".to_string(), "</p>".to_string());
    let mut buf = String::from("x");
    view.to_html_with_buf(&mut buf);
    assert_eq!(buf, "x<p>404</p>");
    assert_eq!(view.open(), "<p>404");
    assert_eq!(view.close(), "</p>");
    let copy = view.clone();
    assert_eq!(copy.open(), "<p>404");
}

#[test]
fn stream_gets_the_markup_in_chain_order() {
    let (mut arena, outer) = arena_with_outer();
    let view = NestedRouteView::new(&mut arena, outer, three_levels());
    let mut stream = StreamBuilder::new(None);
    stream.push_sync("head:");
    view.to_html_async_with_buf::<false>(&mut stream);
    assert_eq!(sync_text(&mut stream), "head:<a><b><c></c></b></a>");
}

#[test]
fn stream_out_of_order_writes_views_at_once() {
    let (mut arena, outer) = arena_with_outer();
    let view = NestedRouteView::new(&mut arena, outer, two_levels());
    let mut stream = StreamBuilder::new(None);
    view.to_html_async_with_buf::<true>(&mut stream);
    RouteView::new("<i>".to_string(), "</i>".to_string()).to_html_async_with_buf::<true>(&mut stream);
    assert_eq!(sync_text(&mut stream), "<section><h1>a</h1><p>b</p></section><i></i>");
}

#[test]
fn render_then_hydrate_gives_the_chain_of_the_builder() {
    let (mut arena, outer) = arena_with_outer();
    let rendered = NestedRouteView::new(&mut arena, outer, two_levels());
    let mut html = String::new();
    rendered.to_html_with_buf(&mut html);

    let (mut plain_arena, plain_outer) = arena_with_outer();
    let plain = NestedRouteView::new(&mut plain_arena, plain_outer, two_levels()).build();

    let (mut client, client_outer) = arena_with_outer();
    let waiting = NestedRouteView::new_hydrate(&mut client, client_outer, two_levels(), &Cursor { pos: 0 });
    let (mut state, end) = waiting.hydrate(&html).unwrap();
    assert_eq!(end, Cursor { pos: html.chars().count() });
    assert!(state.mounted());
    assert_eq!(state.len(), plain.len());
    for depth in 0..state.len() {
        assert_eq!(state.outlet(depth).id(), plain.outlet(depth).id());
        assert_eq!(state.outlet(depth).owner(), plain.outlet(depth).owner());
        assert_eq!(state.outlet(depth).params().len(), plain.outlet(depth).params().len());
        assert!(matches!(state.outlet(depth).inner(), OutletInner::Built { hydrated: true, .. }));
        assert!(matches!(plain.outlet(depth).inner(), OutletInner::Built { hydrated: false, .. }));
    }
    let mut plain = plain;
    let next = || leveled(1, "<section><h1>a</h1>", "</section>").nest(leveled(7, "<q>", "</q>"));
    assert_eq!(state.reconcile(&mut client, client_outer, next()), Ok(()));
    assert_eq!(plain.reconcile(&mut plain_arena, plain_outer, next()), Ok(()));
    assert_eq!(state.len(), plain.len());
    for depth in 0..state.len() {
        assert_eq!(state.outlet(depth).id(), plain.outlet(depth).id());
        assert_eq!(state.outlet(depth).owner(), plain.outlet(depth).owner());
    }
    assert_eq!(client.len(), plain_arena.len());
    for scope in 0..client.len() {
        assert_eq!(client.is_alive(ScopeId(scope)), plain_arena.is_alive(ScopeId(scope)));
    }
    assert!(matches!(state.outlet(0).inner(), OutletInner::Built { hydrated: true, .. }));
    assert!(matches!(state.outlet(1).inner(), OutletInner::Built { hydrated: false, .. }));
}

#[test]
fn hydrate_walks_from_the_cursor() {
    let (mut arena, outer) = arena_with_outer();
    let text = "éé<a><b><c></c></b></a>tail";
    let waiting = NestedRouteView::new_hydrate(&mut arena, outer, three_levels(), &Cursor { pos: 2 });
    let (state, end) = waiting.hydrate(text).unwrap();
    assert_eq!(end, Cursor { pos: 23 });
    assert_eq!(state.len(), 3);
}

#[test]
fn hydrate_refuses_other_markup() {
    let (mut arena, outer) = arena_with_outer();
    let waiting = NestedRouteView::new_hydrate(&mut arena, outer, three_levels(), &Cursor { pos: 0 });
    assert_eq!(waiting.hydrate("<a><b><c></c></b></x>").unwrap_err(), HydrationError::Mismatch);
    let waiting = NestedRouteView::new_hydrate(&mut arena, outer, three_levels(), &Cursor { pos: 0 });
    assert_eq!(waiting.hydrate("<a><b>").unwrap_err(), HydrationError::Mismatch);
    let waiting = NestedRouteView::new_hydrate(&mut arena, outer, three_levels(), &Cursor { pos: 1 });
    assert_eq!(waiting.hydrate("<a><b><c></c></b></a>").unwrap_err(), HydrationError::Mismatch);
    let waiting = NestedRouteView::new_hydrate(&mut arena, outer, three_levels(), &Cursor { pos: 100 });
    assert_eq!(waiting.hydrate("<a><b><c></c></b></a>").unwrap_err(), HydrationError::Mismatch);
}

#[test]
fn hydrate_needs_a_chain_built_for_markup() {
    let (mut arena, outer) = arena_with_outer();
    let plain = NestedRouteView::new(&mut arena, outer, three_levels());
    assert_eq!(plain.hydrate("<a><b><c></c></b></a>").unwrap_err(), HydrationError::NotPrepared);
}

#[test]
fn view_hydrates_where_its_markup_stands() {
    let view = RouteView::new("<p>".to_string(), "</p>".to_string());
    assert_eq!(view.hydrate("xx<p></p>", &Cursor { pos: 2 }), Some(Cursor { pos: 9 }));
    assert_eq!(view.hydrate("xx<p></p>", &Cursor { pos: 0 }), None);
    assert_eq!(view.hydrate("<p></q>", &Cursor { pos: 0 }), None);
    assert_eq!(view.hydrate("<p>", &Cursor { pos: 0 }), None);
    assert_eq!(view.hydrate("", &Cursor { pos: 1 }), None);
    assert_eq!(RouteView::empty().hydrate("abc", &Cursor { pos: 3 }), Some(Cursor { pos: 3 }));
}
