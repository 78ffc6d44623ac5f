use nested_router::params::Params;
use nested_router::scope::{ScopeArena, ScopeId};

#[test]
fn new_arena_is_empty() {
    let arena = ScopeArena::new();
    assert_eq!(arena.len(), 0);
    assert_eq!(arena.current(), None);
    assert!(!arena.is_alive(ScopeId(0)));
    assert_eq!(arena.parent(ScopeId(0)), None);
}

#[test]
fn handles_are_given_out_in_creation_order() {
    let mut arena = ScopeArena::new();
    let a = arena.root();
    let b = arena.child(a);
    let c = arena.child(a);
    let d = arena.child(b);
    assert_eq!((a, b, c, d), (ScopeId(0), ScopeId(1), ScopeId(2), ScopeId(3)));
    assert_eq!(arena.parent(a), None);
    assert_eq!(arena.parent(b), Some(a));
    assert_eq!(arena.parent(c), Some(a));
    assert_eq!(arena.parent(d), Some(b));
    assert_eq!(arena.len(), 4);
}

#[test]
fn dispose_takes_the_subtree_and_nothing_else() {
    let mut arena = ScopeArena::new();
    let a = arena.root();
    let b = arena.child(a);
    let c = arena.child(a);
    let d = arena.child(b);
    let e = arena.child(d);
    arena.dispose(b);
    assert!(arena.is_alive(a));
    assert!(!arena.is_alive(b));
    assert!(arena.is_alive(c));
    assert!(!arena.is_alive(d));
    assert!(!arena.is_alive(e));
    assert_eq!(arena.len(), 5);
    assert_eq!(arena.parent(d), Some(b));
    let f = arena.child(a);
    assert_eq!(f, ScopeId(5));
    arena.dispose(b);
    assert!(arena.is_alive(f));
    arena.dispose(ScopeId(99));
    assert!(arena.is_alive(a));
    assert!(arena.is_alive(c));
}

#[test]
fn ambient_scope_is_entered_left_and_given_up() {
    let mut arena = ScopeArena::new();
    let a = arena.root();
    let b = arena.child(a);
    assert_eq!(arena.current(), None);
    let before = arena.enter(a);
    assert_eq!(before, None);
    assert_eq!(arena.current(), Some(a));
    let outer = arena.enter(b);
    assert_eq!(outer, Some(a));
    assert_eq!(arena.current(), Some(b));
    arena.leave(outer);
    assert_eq!(arena.current(), Some(a));
    let prev = arena.enter(b);
    arena.dispose(b);
    assert_eq!(arena.current(), None);
    arena.leave(prev);
    assert_eq!(arena.current(), Some(a));
    arena.dispose(a);
    assert_eq!(arena.current(), None);
    arena.leave(Some(a));
    assert_eq!(arena.current(), None);
    arena.leave(None);
    assert_eq!(arena.current(), None);
}

#[test]
fn params_bind_replace_and_keep_order() {
    let mut p = Params::new();
    assert_eq!(p.len(), 0);
    assert_eq!(p.get("id"), None);
    p.insert("id".to_string(), "1".to_string());
    p.insert("tab".to_string(), "a".to_string());
    assert_eq!(p.len(), 2);
    p.insert("id".to_string(), "2".to_string());
    assert_eq!(p.len(), 2);
    assert_eq!(p.get("id"), Some("2".to_string()));
    assert_eq!(p.get("tab"), Some("a".to_string()));
    assert_eq!(p.get("other"), None);
    assert_eq!(p.entry(0), ("id".to_string(), "2".to_string()));
    assert_eq!(p.entry(1), ("tab".to_string(), "a".to_string()));
    let copy = p.clone();
    p.insert("tab".to_string(), "b".to_string());
    assert_eq!(copy.get("tab"), Some("a".to_string()));
    assert_eq!(p.get("tab"), Some("b".to_string()));
}
