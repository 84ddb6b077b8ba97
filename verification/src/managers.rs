//! The managers of a node under one type, so that one dataplane can hold several kinds.

use crate::dataplane::Manager;
use crate::ipset_manager::{IpSetManager, IpSetsView};
use crate::messages::{ToDataplane, ToDataplaneView};
use crate::policy_table::{PolicyTableManager, TableState};
use crate::route_manager::{RouteManager, RoutesView};
use vstd::prelude::*;

verus! {

/// A manager of any kind.
pub enum NodeManager {
    /// The manager of the whole policy table.
    Table(PolicyTableManager),
    /// The manager of the named sets.
    IpSets(IpSetManager),
    /// The manager of the routes.
    Routes(RouteManager),
}

/// What a manager of any kind remembers.
pub enum NodeState {
    Table(TableState),
    IpSets(IpSetsView),
    Routes(RoutesView),
}

impl Manager for NodeManager {
    type State = NodeState;

    open spec fn state(&self) -> NodeState {
        match self {
            NodeManager::Table(m) => NodeState::Table(m.state()),
            NodeManager::IpSets(m) => NodeState::IpSets(m.state()),
            NodeManager::Routes(m) => NodeState::Routes(m.state()),
        }
    }

    open spec fn absorb(state: NodeState, msg: ToDataplaneView) -> NodeState {
        match state {
            NodeState::Table(s) => NodeState::Table(PolicyTableManager::absorb(s, msg)),
            NodeState::IpSets(s) => NodeState::IpSets(IpSetManager::absorb(s, msg)),
            NodeState::Routes(s) => NodeState::Routes(RouteManager::absorb(s, msg)),
        }
    }

    open spec fn valid(&self) -> bool {
        match self {
            NodeManager::Table(m) => m.valid(),
            NodeManager::IpSets(m) => m.valid(),
            NodeManager::Routes(m) => m.valid(),
        }
    }

    fn on_update(&mut self, msg: &ToDataplane) {
        match self {
            NodeManager::Table(m) => m.on_update(msg),
            NodeManager::IpSets(m) => m.on_update(msg),
            NodeManager::Routes(m) => m.on_update(msg),
        }
    }
}

} // verus!
