//! The datastore and the dataplane of a node's network policy agent.
//!
//! The datastore half models the resources, the compare-and-swap store that holds them,
//! the watch over them, and what is made of a Kubernetes object before the dataplane sees
//! it. The dataplane half turns messages into nftables documents, named sets, routes and
//! tunnel entries, and decides when they are programmed. Everything here is computation on
//! plain values; the calls to the API server, to the kernel and to `nft` are made by the
//! program around it.

// Vocabulary.
pub mod digest;
pub mod ordmap;
pub mod payload;
pub mod seqs;
pub mod text;

// The datastore.
pub mod backend;
pub mod cas;
pub mod conversion;
pub mod k8s_policy;
pub mod kdd;
pub mod mem;
pub mod model;
pub mod resources;
pub mod syncer;
pub mod syncers;
pub mod updateprocessors;
pub mod watchersyncer;

// The dataplane.
pub mod config;
pub mod dataplane;
pub mod delta;
pub mod endpoint_manager;
pub mod forwarding;
pub mod ipset_manager;
pub mod kernel;
pub mod managers;
pub mod messages;
pub mod nat_outgoing;
pub mod nft;
pub mod nftables;
pub mod policy_agent;
pub mod policy_render;
pub mod policy_scope;
pub mod policy_table;
pub mod pools;
pub mod route_manager;
pub mod selftest;
pub mod traversal;
pub mod vxlan;
pub mod vxlan_reconcile;
