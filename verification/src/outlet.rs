//! One nesting level of a matched route, kept alive across navigations.

use crate::matching::{RouteMatchId, RouteView, ViewModel};
use crate::params::Params;
use crate::scope::ScopeId;
use vstd::prelude::*;

verus! {

/// A place in markup that is already there: the number of characters before
/// it.
#[derive(Clone, Copy, Debug, PartialEq, Eq, Structural)]
pub struct Cursor {
    pub pos: usize,
}

/// The render state of an outlet as plain values.
pub enum InnerModel {
    Pending { view: ViewModel, hydrate: Option<Cursor> },
    Built { view: ViewModel, hydrated: bool },
}

/// The render state of an outlet. It starts pending and is built once, by
/// the first driver that reaches it; nothing takes it back to pending.
#[derive(Debug)]
pub enum OutletInner {
    /// The view waits for the driver that will consume it. With a cursor,
    /// the driver is to attach to the markup that the cursor walks, and not
    /// to create output.
    Pending { view: RouteView, hydrate: Option<Cursor> },
    /// A driver has consumed the view: it created the output, or, with
    /// `hydrated`, attached to output that was already there.
    Built { view: RouteView, hydrated: bool },
}

impl View for OutletInner {
    type V = InnerModel;

    open spec fn view(&self) -> InnerModel {
        match self {
            OutletInner::Pending { view, hydrate } => InnerModel::Pending { view: view@, hydrate: *hydrate },
            OutletInner::Built { view, hydrated } => InnerModel::Built { view: view@, hydrated: *hydrated },
        }
    }
}

impl InnerModel {
    /// The markup template, built or not.
    pub open spec fn template(self) -> ViewModel {
        match self {
            InnerModel::Pending { view, .. } => view,
            InnerModel::Built { view, .. } => view,
        }
    }

    /// The state after a driver has reached it: a pending view is built,
    /// hydrated if it waited with a cursor; a built one stays as it is.
    pub open spec fn built(self) -> InnerModel {
        match self {
            InnerModel::Pending { view, hydrate } => InnerModel::Built { view, hydrated: hydrate.is_some() },
            InnerModel::Built { .. } => self,
        }
    }
}

impl Clone for OutletInner {
    fn clone(&self) -> (copy: Self)
        ensures
            copy@ == self@,
    {
        match self {
            OutletInner::Pending { view, hydrate } => OutletInner::Pending {
                view: view.clone(),
                hydrate: *hydrate,
            },
            OutletInner::Built { view, hydrated } => OutletInner::Built {
                view: view.clone(),
                hydrated: *hydrated,
            },
        }
    }
}

impl OutletInner {
    /// The state of an outlet that shows nothing.
    pub fn empty() -> (inner: Self)
        ensures
            inner@ == (InnerModel::Pending {
                view: ViewModel { open: Seq::empty(), close: Seq::empty() },
                hydrate: None,
            }),
    {
        OutletInner::Pending { view: RouteView::empty(), hydrate: None }
    }

    /// Whether a driver has consumed the view.
    pub fn is_built(&self) -> (b: bool)
        ensures
            b == (self@ is Built),
    {
        match self {
            OutletInner::Pending { .. } => false,
            OutletInner::Built { .. } => true,
        }
    }

    /// The view, built or not.
    pub fn route_view(&self) -> (view: &RouteView)
        ensures
            view@ == self@.template(),
    {
        match self {
            OutletInner::Pending { view, .. } => view,
            OutletInner::Built { view, .. } => view,
        }
    }

    /// Hands the view to a driver. Returns the state afterwards and whether
    /// this call built it.
    pub fn build(self) -> (res: (Self, bool))
        ensures
            res.0@ == self@.built(),
            res.1 == (self@ is Pending),
    {
        match self {
            OutletInner::Pending { view, hydrate } => (
                OutletInner::Built { view, hydrated: hydrate.is_some() },
                true,
            ),
            OutletInner::Built { view, hydrated: was } => (OutletInner::Built { view, hydrated: was }, false),
        }
    }
}

/// An outlet as plain values.
pub struct OutletModel {
    pub id: RouteMatchId,
    pub owner: ScopeId,
    pub params: Seq<(Seq<char>, Seq<char>)>,
    pub inner: InnerModel,
}

/// One level of the chain: the route shown there, the scope that the level
/// owns, the current parameters and the render state of the view.
#[derive(Debug)]
pub struct Outlet {
    id: RouteMatchId,
    owner: ScopeId,
    params: Params,
    inner: OutletInner,
}

impl View for Outlet {
    type V = OutletModel;

    closed spec fn view(&self) -> OutletModel {
        OutletModel { id: self.id, owner: self.owner, params: self.params@, inner: self.inner@ }
    }
}

impl Clone for Outlet {
    fn clone(&self) -> (copy: Self)
        ensures
            copy@ == self@,
    {
        Outlet {
            id: self.id,
            owner: self.owner,
            params: self.params.clone(),
            inner: self.inner.clone(),
        }
    }
}

impl Outlet {
    /// An outlet for `view`, not built yet. With a cursor, the view is to
    /// be attached to the markup that the cursor walks.
    pub fn new(
        id: RouteMatchId,
        owner: ScopeId,
        params: Params,
        view: RouteView,
        hydrate: Option<Cursor>,
    ) -> (outlet: Self)
        ensures
            outlet@ == (OutletModel {
                id,
                owner,
                params: params@,
                inner: InnerModel::Pending { view: view@, hydrate },
            }),
    {
        Outlet { id, owner, params, inner: OutletInner::Pending { view, hydrate } }
    }

    /// The outlet below a leaf: it shows nothing and has no parameters. It
    /// creates no scope of its own and stands in the one given.
    pub fn empty(owner: ScopeId) -> (outlet: Self)
        ensures
            outlet@ == empty_outlet(owner),
    {
        Outlet { id: RouteMatchId(0), owner, params: Params::new(), inner: OutletInner::empty() }
    }

    /// The identity of the route shown.
    pub fn id(&self) -> (id: RouteMatchId)
        ensures
            id == self@.id,
    {
        self.id
    }

    /// The scope that this level owns.
    pub fn owner(&self) -> (owner: ScopeId)
        ensures
            owner == self@.owner,
    {
        self.owner
    }

    /// The current parameters.
    pub fn params(&self) -> (params: &Params)
        ensures
            params@ == self@.params,
    {
        &self.params
    }

    /// The render state.
    pub fn inner(&self) -> (inner: &OutletInner)
        ensures
            inner@ == self@.inner,
    {
        &self.inner
    }

    /// Replaces the parameters. Nothing else changes: the view is not
    /// rebuilt and the scope stays.
    pub fn set_params(self, params: Params) -> (outlet: Self)
        ensures
            outlet@ == (OutletModel { params: params@, ..self@ }),
    {
        Outlet { id: self.id, owner: self.owner, params, inner: self.inner }
    }

    /// Hands the view to a driver, unless one has had it.
    pub fn build(self) -> (outlet: Self)
        ensures
            outlet@ == (OutletModel { inner: self@.inner.built(), ..self@ }),
    {
        let (inner, _) = self.inner.build();
        Outlet { id: self.id, owner: self.owner, params: self.params, inner }
    }
}

/// The outlet below a leaf, as plain values.
pub open spec fn empty_outlet(owner: ScopeId) -> OutletModel {
    OutletModel {
        id: RouteMatchId(0),
        owner,
        params: Seq::empty(),
        inner: InnerModel::Pending {
            view: ViewModel { open: Seq::empty(), close: Seq::empty() },
            hydrate: None,
        },
    }
}

/// The outlets of a chain as plain values.
pub open spec fn chain_model(outlets: Seq<Outlet>) -> Seq<OutletModel> {
    Seq::new(outlets.len(), |i: int| outlets[i]@)
}

/// What a route's view is given to read: the current parameters of its own
/// level and the outlet of the next one.
#[derive(Debug)]
pub struct RouteData {
    pub params: Params,
    pub outlet: Outlet,
}

} // verus!
