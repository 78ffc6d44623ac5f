//! Lifetime scopes, kept in an arena.
//!
//! Every scope but a root has a parent. Disposing a scope disposes the whole
//! subtree below it, and a handle, once given out, is never given out again.

use vstd::prelude::*;

verus! {

/// Handle of one scope of a [`ScopeArena`]: the position at which it was created.
#[derive(Clone, Copy, Debug, PartialEq, Eq, Structural)]
pub struct ScopeId(pub usize);

/// What the arena records of one scope.
#[derive(Clone, Copy, Debug, PartialEq, Eq, Structural)]
pub struct Scope {
    pub parent: Option<ScopeId>,
    pub alive: bool,
}

/// The parent of the scope at `i`, if it has one, was created before it and
/// is live if the scope is.
pub open spec fn scope_ok(s: Seq<Scope>, i: int) -> bool {
    match s[i].parent {
        Some(p) => p.0 < i && (s[i].alive ==> s[p.0 as int].alive),
        None => true,
    }
}

/// Every parent was created before its child, and a live scope has a live parent.
pub open spec fn scopes_wf(s: Seq<Scope>) -> bool {
    forall|i: int| 0 <= i < s.len() ==> #[trigger] scope_ok(s, i)
}

/// The scope at position `d` is the scope at position `a` or lies below it.
pub open spec fn within(s: Seq<Scope>, a: int, d: int) -> bool
    decreases d,
{
    d == a || (0 <= d < s.len() && match s[d].parent {
        Some(p) => p.0 < d && within(s, a, p.0 as int),
        None => false,
    })
}

/// The scopes after the subtree of `id` has been disposed.
pub open spec fn disposed(s: Seq<Scope>, id: ScopeId) -> Seq<Scope> {
    Seq::new(
        s.len(),
        |i: int| Scope { parent: s[i].parent, alive: s[i].alive && !within(s, id.0 as int, i) },
    )
}

/// The scopes after a live child of `parent` has been created.
pub open spec fn with_child(s: Seq<Scope>, parent: ScopeId) -> Seq<Scope> {
    s.push(Scope { parent: Some(parent), alive: true })
}

/// `id` names a scope of `s` that has not been disposed.
pub open spec fn live(s: Seq<Scope>, id: ScopeId) -> bool {
    id.0 < s.len() && s[id.0 as int].alive
}

/// Disposal keeps the forest well formed.
pub proof fn lemma_disposed_wf(s: Seq<Scope>, id: ScopeId)
    requires
        scopes_wf(s),
    ensures
        scopes_wf(disposed(s, id)),
        disposed(s, id).len() == s.len(),
{
    let t = disposed(s, id);
    assert forall|i: int| 0 <= i < t.len() implies #[trigger] scope_ok(t, i) by {
        assert(scope_ok(s, i));
        assert(t[i].parent == s[i].parent);
        match s[i].parent {
            Some(p) => {
                if within(s, id.0 as int, p.0 as int) {
                    assert(within(s, id.0 as int, i));
                }
            },
            None => {},
        }
    }
}

/// A scope whose parent is an earlier, live scope may be added.
pub proof fn lemma_push_wf(s: Seq<Scope>, scope: Scope)
    requires
        scopes_wf(s),
        match scope.parent {
            Some(p) => p.0 < s.len() && (scope.alive ==> s[p.0 as int].alive),
            None => true,
        },
    ensures
        scopes_wf(s.push(scope)),
{
    let t = s.push(scope);
    assert forall|i: int| 0 <= i < t.len() implies #[trigger] scope_ok(t, i) by {
        if i < s.len() {
            assert(scope_ok(s, i));
        }
    }
}

/// A scope lies at or after every scope that it is within.
pub proof fn lemma_within_later(s: Seq<Scope>, a: int, d: int)
    requires
        within(s, a, d),
    ensures
        a <= d,
    decreases d,
{
    if d != a {
        lemma_within_later(s, a, s[d].parent.unwrap().0 as int);
    }
}

/// Nothing live lies within a scope that is not: a scope within one that has
/// been disposed has been disposed with it.
pub proof fn lemma_live_within_live(s: Seq<Scope>, a: int, d: int)
    requires
        scopes_wf(s),
        0 <= a < s.len(),
        within(s, a, d),
        live(s, ScopeId(d as usize)),
        d <= usize::MAX,
    ensures
        s[a].alive,
    decreases d,
{
    if d != a {
        let p = s[d].parent.unwrap();
        assert(scope_ok(s, d));
        lemma_live_within_live(s, a, p.0 as int);
    }
}

/// Disposing a scope that is not live changes nothing.
pub proof fn lemma_dispose_dead(s: Seq<Scope>, id: ScopeId)
    requires
        scopes_wf(s),
        s.len() <= usize::MAX,
        !live(s, id),
    ensures
        disposed(s, id) == s,
{
    assert forall|i: int| 0 <= i < s.len() implies disposed(s, id)[i] == s[i] by {
        if s[i].alive && within(s, id.0 as int, i) {
            lemma_within_later(s, id.0 as int, i);
            lemma_live_within_live(s, id.0 as int, i);
        }
    }
    assert(disposed(s, id) =~= s);
}

/// The scope at `i` has the parent it had, and lives only if it lived.
pub open spec fn scope_evolved(before: Seq<Scope>, after: Seq<Scope>, i: int) -> bool {
    after[i].parent == before[i].parent && (after[i].alive ==> before[i].alive)
}

/// How the scopes of an arena can change: scopes are added and scopes are
/// disposed, and that is all. No scope changes its parent, and none that
/// was disposed lives again.
pub open spec fn evolved(before: Seq<Scope>, after: Seq<Scope>) -> bool {
    &&& before.len() <= after.len()
    &&& forall|i: int| 0 <= i < before.len() ==> #[trigger] scope_evolved(before, after, i)
}

/// No change is such a change too.
pub proof fn lemma_evolved_refl(s: Seq<Scope>)
    ensures
        evolved(s, s),
{
    assert forall|i: int| 0 <= i < s.len() implies #[trigger] scope_evolved(s, s, i) by {}
}

/// A change followed by a change is a change.
pub proof fn lemma_evolved_trans(a: Seq<Scope>, b: Seq<Scope>, c: Seq<Scope>)
    requires
        evolved(a, b),
        evolved(b, c),
    ensures
        evolved(a, c),
{
    assert forall|i: int| 0 <= i < a.len() implies #[trigger] scope_evolved(a, c, i) by {
        assert(scope_evolved(a, b, i));
        assert(scope_evolved(b, c, i));
    }
}

/// Disposal is such a change.
pub proof fn lemma_disposed_evolved(s: Seq<Scope>, id: ScopeId)
    ensures
        evolved(s, disposed(s, id)),
{
    assert forall|i: int| 0 <= i < s.len() implies #[trigger] scope_evolved(s, disposed(s, id), i) by {}
}

/// Adding scopes is such a change.
pub proof fn lemma_grown_evolved(s: Seq<Scope>, t: Seq<Scope>)
    requires
        s.len() <= t.len(),
        t.take(s.len() as int) == s,
    ensures
        evolved(s, t),
{
    assert forall|i: int| 0 <= i < s.len() implies #[trigger] scope_evolved(s, t, i) by {
        assert(t.take(s.len() as int)[i] == t[i]);
    }
}

/// The ambient scope after a change of the arena: the one before, if it is
/// still live.
pub open spec fn surviving(current: Option<ScopeId>, s: Seq<Scope>) -> Option<ScopeId> {
    match current {
        Some(c) => if live(s, c) { Some(c) } else { None },
        None => None,
    }
}

/// The scopes of one application, in the order of their creation, and the
/// ambient scope: the one in which what is created now is created.
pub struct ScopeArena {
    nodes: Vec<Scope>,
    current: Option<ScopeId>,
}

impl View for ScopeArena {
    type V = Seq<Scope>;

    closed spec fn view(&self) -> Seq<Scope> {
        self.nodes@
    }
}

impl ScopeArena {
    /// The ambient scope, if one is entered.
    pub closed spec fn spec_current(&self) -> Option<ScopeId> {
        self.current
    }

    /// The arena's invariant: the scopes form a forest in creation order, and
    /// the ambient scope, if any, is live.
    pub open spec fn wf(&self) -> bool {
        &&& scopes_wf(self@)
        &&& self@.len() <= usize::MAX
        &&& match self.spec_current() {
            Some(c) => live(self@, c),
            None => true,
        }
    }

    /// An arena without scopes.
    pub fn new() -> (arena: Self)
        ensures
            arena.wf(),
            arena@ == Seq::<Scope>::empty(),
            arena.spec_current().is_none(),
    {
        ScopeArena { nodes: Vec::new(), current: None }
    }

    /// Creates a live scope without a parent.
    pub fn root(&mut self) -> (id: ScopeId)
        requires
            old(self).wf(),
        ensures
            final(self).wf(),
            id.0 == old(self)@.len(),
            final(self)@ == old(self)@.push(Scope { parent: None, alive: true }),
            final(self).spec_current() == old(self).spec_current(),
    {
        let id = ScopeId(self.nodes.len());
        self.nodes.push(Scope { parent: None, alive: true });
        proof {
            lemma_push_wf(old(self)@, Scope { parent: None, alive: true });
            assert(self.nodes@.len() == self.nodes.len());
        }
        id
    }

    /// Creates a live scope below `parent`.
    pub fn child(&mut self, parent: ScopeId) -> (id: ScopeId)
        requires
            old(self).wf(),
            live(old(self)@, parent),
        ensures
            final(self).wf(),
            id.0 == old(self)@.len(),
            final(self)@ == with_child(old(self)@, parent),
            final(self).spec_current() == old(self).spec_current(),
    {
        let id = ScopeId(self.nodes.len());
        self.nodes.push(Scope { parent: Some(parent), alive: true });
        proof {
            lemma_push_wf(old(self)@, Scope { parent: Some(parent), alive: true });
            assert(self.nodes@.len() == self.nodes.len());
        }
        id
    }

    /// Disposes `id` and every scope below it. The ambient scope is given up
    /// if it is among them.
    pub fn dispose(&mut self, id: ScopeId)
        requires
            old(self).wf(),
        ensures
            final(self).wf(),
            final(self)@ == disposed(old(self)@, id),
            final(self).spec_current() == match old(self).spec_current() {
                Some(c) => if within(old(self)@, id.0 as int, c.0 as int) { None } else { Some(c) },
                None => None,
            },
    {
        let n = self.nodes.len();
        let mut i: usize = 0;
        while i < n
            invariant
                i <= n,
                n == self.nodes@.len(),
                n == old(self)@.len(),
                scopes_wf(old(self)@),
                self.current == old(self).current,
                forall|j: int| 0 <= j < n ==> (#[trigger] self.nodes@[j]).parent == old(self)@[j].parent,
                forall|j: int|
                    0 <= j < i ==> (#[trigger] self.nodes@[j]).alive == (old(self)@[j].alive && !within(
                        old(self)@,
                        id.0 as int,
                        j,
                    )),
                forall|j: int| i <= j < n ==> (#[trigger] self.nodes@[j]).alive == old(self)@[j].alive,
            decreases n - i,
        {
            let node = self.nodes[i];
            let below = match node.parent {
                Some(p) => p.0 < i && !self.nodes[p.0].alive,
                None => false,
            };
            proof {
                let s = old(self)@;
                assert(s[i as int].parent == node.parent);
                assert(scope_ok(s, i as int));
                if i != id.0 {
                    match node.parent {
                        Some(p) => {
                            assert(p.0 < i);
                            assert(within(s, id.0 as int, i as int) == within(s, id.0 as int, p.0 as int));
                        },
                        None => {
                            assert(!within(s, id.0 as int, i as int));
                        },
                    }
                }
            }
            if i == id.0 || below {
                self.nodes.set(i, Scope { parent: node.parent, alive: false });
            }
            i += 1;
        }
        assert(self.nodes@ =~= disposed(old(self)@, id));
        proof {
            lemma_disposed_wf(old(self)@, id);
        }
        match self.current {
            Some(c) => {
                if !self.nodes[c.0].alive {
                    self.current = None;
                }
            },
            None => {},
        }
    }

    /// Number of scopes created so far, disposed ones included.
    pub fn len(&self) -> (n: usize)
        ensures
            n == self@.len(),
    {
        self.nodes.len()
    }

    /// Whether `id` names a scope that has not been disposed.
    pub fn is_alive(&self, id: ScopeId) -> (b: bool)
        ensures
            b == live(self@, id),
    {
        id.0 < self.nodes.len() && self.nodes[id.0].alive
    }

    /// The parent of `id`; `None` for a root and for a handle of another arena.
    pub fn parent(&self, id: ScopeId) -> (p: Option<ScopeId>)
        ensures
            p == if id.0 < self@.len() { self@[id.0 as int].parent } else { None },
    {
        if id.0 < self.nodes.len() {
            self.nodes[id.0].parent
        } else {
            None
        }
    }

    /// The ambient scope.
    #[verifier::when_used_as_spec(spec_current)]
    pub fn current(&self) -> (c: Option<ScopeId>)
        ensures
            c == self.spec_current(),
    {
        self.current
    }

    /// Makes `scope` the ambient scope and returns the one it replaces.
    pub fn enter(&mut self, scope: ScopeId) -> (previous: Option<ScopeId>)
        requires
            old(self).wf(),
            live(old(self)@, scope),
        ensures
            final(self).wf(),
            final(self)@ == old(self)@,
            final(self).spec_current() == Some(scope),
            previous == old(self).spec_current(),
    {
        let previous = self.current;
        self.current = Some(scope);
        previous
    }

    /// Puts back the ambient scope that [`ScopeArena::enter`] returned. A scope
    /// disposed in between is not put back: the arena is then left without one.
    pub fn leave(&mut self, previous: Option<ScopeId>)
        requires
            old(self).wf(),
        ensures
            final(self).wf(),
            final(self)@ == old(self)@,
            final(self).spec_current() == match previous {
                Some(p) => if live(old(self)@, p) { Some(p) } else { None },
                None => None,
            },
    {
        self.current = match previous {
            Some(p) => if self.is_alive(p) { Some(p) } else { None },
            None => None,
        };
    }
}

} // verus!
