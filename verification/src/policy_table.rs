//! The manager of the whole policy table.
//!
//! The table is rendered completely from what is wanted: named sets, chains, rules. One
//! document replaces whatever the kernel holds under that name, so the outcome does not
//! depend on what was programmed before, and a document that equals the last one applied
//! is not applied again.

use crate::dataplane::{DataplaneError, Manager};
use crate::delta::{collect, insert_all, remove_all, StrSet};
use crate::endpoint_manager::{
    build_desired_chains, desired_chains, targets, with_dispatch, with_endpoints, with_policies,
    with_profiles, with_stubs, Direction,
};
use crate::ipset_manager::{
    add_set_line, element_line, lemma_set_of_views, render_add_set, render_elements, table_at,
    table_ref,
};
use crate::messages::{
    IpSetKind, Policy, PolicyId, PolicyIdView, PolicyView, ToDataplane, ToDataplaneView,
    WorkloadEndpoint, WorkloadEndpointId, WorkloadEndpointIdView, WorkloadEndpointView,
};
use crate::nft::{add_chain_line, add_rule_lines, render_add_chain, write_add_rules, NftChain, NftChainView};
use crate::ordmap::{
    deep_map, in_order, law_contents_determine_order, lemma_entry, lemma_finite_in_order,
    lemma_keys_in_order, listing, OrdMap,
};
use crate::seqs::{
    concat_all, concat_first, doc_of, lemma_concat_all, lemma_concat_contains, Document,
};
use crate::text::{has_prefix, lemma_not_prefix, lemma_prefix_of_sum, starts_with, views};
use vstd::prelude::*;

verus! {

broadcast use {
    crate::text::lemma_views_push,
    crate::ordmap::lemma_deep_insert,
    crate::ordmap::lemma_deep_remove,
};

/// One wanted IP set.
pub struct DesiredSet {
    /// What its members are.
    pub kind: IpSetKind,
    /// Its members.
    pub members: StrSet,
}

/// The mathematical content of a [`DesiredSet`].
#[verifier::ext_equal]
pub struct DesiredSetView {
    pub kind: IpSetKind,
    pub members: Set<Seq<char>>,
}

impl DeepView for DesiredSet {
    type V = DesiredSetView;

    open spec fn deep_view(&self) -> DesiredSetView {
        DesiredSetView { kind: self.kind, members: self.members.map().dom() }
    }
}

/// The statements that declare a set with its members.
pub open spec fn set_lines(id: Seq<char>, set: DesiredSetView) -> Seq<Seq<char>> {
    let members = in_order::<String>(set.members);
    if members.len() == 0 {
        seq![add_set_line(id, set.kind)]
    } else {
        seq![add_set_line(id, set.kind), element_line("add element "@, id, members)]
    }
}

/// What a [`PolicyTableManager`] wants.
#[verifier::ext_equal]
pub struct TableView {
    /// The IP sets.
    pub sets: Map<Seq<char>, DesiredSetView>,
    /// The policies.
    pub policies: Map<PolicyIdView, PolicyView>,
    /// The profiles.
    pub profiles: Map<Seq<char>, PolicyView>,
    /// The local endpoints.
    pub endpoints: Map<WorkloadEndpointIdView, WorkloadEndpointView>,
}

impl TableView {
    /// Nothing.
    pub open spec fn empty() -> TableView {
        TableView {
            sets: Map::empty(),
            policies: Map::empty(),
            profiles: Map::empty(),
            endpoints: Map::empty(),
        }
    }

    /// What is wanted after a message.
    pub open spec fn after(self, msg: ToDataplaneView) -> TableView {
        match msg {
            ToDataplaneView::IpSetUpdate(u) => TableView {
                sets: self.sets.insert(
                    u.id,
                    DesiredSetView { kind: u.kind, members: u.members.to_set() },
                ),
                ..self
            },
            ToDataplaneView::IpSetDeltaUpdate(u) => {
                let known = if self.sets.dom().contains(u.id) {
                    self.sets[u.id]
                } else {
                    DesiredSetView { kind: IpSetKind::Ip, members: Set::empty() }
                };
                TableView {
                    sets: self.sets.insert(
                        u.id,
                        DesiredSetView {
                            kind: known.kind,
                            members: known.members.union(u.added_members.to_set()).difference(
                                u.removed_members.to_set(),
                            ),
                        },
                    ),
                    ..self
                }
            },
            ToDataplaneView::IpSetRemove(id) => TableView { sets: self.sets.remove(id), ..self },
            ToDataplaneView::ActivePolicyUpdate { id, policy } => TableView {
                policies: self.policies.insert(id, policy),
                ..self
            },
            ToDataplaneView::ActivePolicyRemove(id) => TableView {
                policies: self.policies.remove(id),
                ..self
            },
            ToDataplaneView::ActiveProfileUpdate { id, profile } => TableView {
                profiles: self.profiles.insert(id, profile),
                ..self
            },
            ToDataplaneView::ActiveProfileRemove(id) => TableView {
                profiles: self.profiles.remove(id),
                ..self
            },
            ToDataplaneView::WorkloadEndpointUpdate { id, endpoint } => TableView {
                endpoints: self.endpoints.insert(id, endpoint),
                ..self
            },
            ToDataplaneView::WorkloadEndpointRemove(id) => TableView {
                endpoints: self.endpoints.remove(id),
                ..self
            },
            _ => self,
        }
    }

    /// The blocks of statements that declare the sets, in ascending order of the sets.
    pub open spec fn set_blocks(self) -> Seq<Seq<Seq<char>>> {
        let sets = listing::<String, DesiredSetView>(self.sets);
        Seq::new(sets.len(), |i: int| set_lines(sets[i].0, sets[i].1))
    }

    /// The chains, in ascending order of their names.
    pub open spec fn chains(self) -> Seq<(Seq<char>, NftChainView)> {
        listing::<String, NftChainView>(
            desired_chains(
                listing::<PolicyId, PolicyView>(self.policies),
                listing::<String, PolicyView>(self.profiles),
                listing::<WorkloadEndpointId, WorkloadEndpointView>(self.endpoints),
            ),
        )
    }

    /// The statements that create the chains.
    pub open spec fn chain_lines(self) -> Seq<Seq<char>> {
        let chains = self.chains();
        Seq::new(chains.len(), |i: int| add_chain_line(table_at(), chains[i].0, chains[i].1.base))
    }

    /// The blocks of statements that fill the chains.
    pub open spec fn rule_blocks(self) -> Seq<Seq<Seq<char>>> {
        let chains = self.chains();
        Seq::new(chains.len(), |i: int| add_rule_lines(table_at(), chains[i].0, chains[i].1.rules))
    }

    /// The statements of the document. The table is created if it is not there, which makes
    /// its deletion safe, and created anew; then come the sets, then all chains, then all
    /// rules.
    pub open spec fn lines(self) -> Seq<Seq<char>> {
        seq![
            "add table "@ + table_at(),
            "delete table "@ + table_at(),
            "add table "@ + table_at(),
        ] + concat_all(self.set_blocks()) + self.chain_lines() + concat_all(self.rule_blocks())
    }
}

/// What a [`PolicyTableManager`] remembers: what it wants, and what it has done about it.
#[verifier::ext_equal]
pub struct TableState {
    /// What is wanted.
    pub wanted: TableView,
    /// The document that was applied last.
    pub applied: Option<Seq<char>>,
    /// Whether it has been announced that nothing is wanted.
    pub announced: bool,
}

impl TableState {
    /// What is remembered after a message: only what is wanted changes.
    pub open spec fn after(self, msg: ToDataplaneView) -> TableState {
        TableState { wanted: self.wanted.after(msg), ..self }
    }

    /// What is remembered after the first `n` messages.
    pub open spec fn after_first(self, msgs: Seq<ToDataplaneView>, n: nat) -> TableState
        decreases n,
    {
        if n == 0 {
            self
        } else {
            self.after_first(msgs, (n - 1) as nat).after(msgs[n - 1])
        }
    }

    /// The document that makes the kernel's table what is wanted.
    pub open spec fn document(self) -> Seq<char> {
        doc_of(self.wanted.lines())
    }

    /// The document that a round applies; none where it was applied last.
    pub open spec fn planned(self) -> Option<Seq<char>> {
        if self.applied == Some(self.document()) {
            None
        } else {
            Some(self.document())
        }
    }

    /// What is remembered once a round has been planned.
    pub open spec fn after_plan(self) -> TableState {
        TableState { announced: self.wanted == TableView::empty(), ..self }
    }

    /// What is remembered once a document was taken or refused: a refused one is not.
    pub open spec fn after_outcome(self, doc: Seq<char>, taken: bool) -> TableState {
        TableState {
            applied: if taken {
                Some(doc)
            } else {
                self.applied
            },
            ..self
        }
    }

    /// What is remembered after a whole round whose document, if there was one, was taken or
    /// refused.
    pub open spec fn after_round(self, taken: bool) -> TableState {
        match self.planned() {
            Some(doc) => self.after_plan().after_outcome(doc, taken),
            None => self.after_plan(),
        }
    }
}

/// Keeps the whole policy table in step with what is wanted.
pub struct PolicyTableManager {
    /// The IP sets.
    pub sets: OrdMap<String, DesiredSet>,
    /// The policies.
    pub policies: OrdMap<PolicyId, Policy>,
    /// The profiles.
    pub profiles: OrdMap<String, Policy>,
    /// The local endpoints.
    pub endpoints: OrdMap<WorkloadEndpointId, WorkloadEndpoint>,
    /// The document that was applied last.
    pub last_doc: Option<String>,
    /// Whether it has been announced that nothing is wanted.
    pub logged_empty_desired_state: bool,
}

/// What a round of the policy table is about to do.
pub struct TablePlan {
    /// The document to apply; none where the kernel has it already.
    pub document: Option<String>,
    /// Whether to announce that nothing is wanted.
    pub announce_empty: bool,
    /// The numbers of policy, profile and endpoint chains.
    pub chain_counts: (usize, usize, usize),
}

/// Whether a name is that of a policy's chain.
pub open spec fn is_policy_chain(name: Seq<char>) -> bool {
    has_prefix(name, "cali-pi-"@) || has_prefix(name, "cali-po-"@)
}

/// Whether a name is that of a profile's chain.
pub open spec fn is_profile_chain(name: Seq<char>) -> bool {
    has_prefix(name, "cali-pri-"@) || has_prefix(name, "cali-pro-"@)
}

/// Whether a name is that of an endpoint's chain.
pub open spec fn is_dispatch_chain(name: Seq<char>) -> bool {
    has_prefix(name, "cali-tw-"@) || has_prefix(name, "cali-fw-"@)
}

/// How many of the first `n` names are those of policy, profile and endpoint chains.
pub open spec fn kinds_first(names: Seq<Seq<char>>, n: nat) -> (nat, nat, nat)
    decreases n,
{
    if n == 0 {
        (0, 0, 0)
    } else {
        let (a, b, c) = kinds_first(names, (n - 1) as nat);
        let name = names[n - 1];
        if is_policy_chain(name) {
            (a + 1, b, c)
        } else if is_profile_chain(name) {
            (a, b + 1, c)
        } else if is_dispatch_chain(name) {
            (a, b, c + 1)
        } else {
            (a, b, c)
        }
    }
}

/// The names of the chains that an ordered map holds.
pub open spec fn names_of(chains: Seq<(String, NftChain)>) -> Seq<Seq<char>> {
    Seq::new(chains.len(), |i: int| chains[i].0@)
}

/// How many chains are those of policies, profiles and endpoints, by their names. Other
/// chains are not counted.
pub fn count_chain_kinds(chains: &OrdMap<String, NftChain>) -> (r: (usize, usize, usize))
    ensures
        (r.0 as nat, r.1 as nat, r.2 as nat) == kinds_first(
            names_of(chains.entries@),
            chains.entries@.len(),
        ),
{
    let ghost names = names_of(chains.entries@);
    let mut policy: usize = 0;
    let mut profile: usize = 0;
    let mut dispatch: usize = 0;
    for i in 0..chains.entries.len()
        invariant
            names == names_of(chains.entries@),
            (policy as nat, profile as nat, dispatch as nat) == kinds_first(names, i as nat),
            policy <= i,
            profile <= i,
            dispatch <= i,
    {
        let name = chains.entries[i].0.as_str();
        if starts_with(name, "cali-pi-") || starts_with(name, "cali-po-") {
            policy = policy + 1;
        } else if starts_with(name, "cali-pri-") || starts_with(name, "cali-pro-") {
            profile = profile + 1;
        } else if starts_with(name, "cali-tw-") || starts_with(name, "cali-fw-") {
            dispatch = dispatch + 1;
        }
    }
    (policy, profile, dispatch)
}

/// Whether every set of a map is well-formed.
pub open spec fn sets_wf(m: Map<Seq<char>, DesiredSet>) -> bool {
    forall|k: Seq<char>| #[trigger] m.dom().contains(k) ==> m[k].members.wf()
}

impl PolicyTableManager {
    /// All maps are well-formed.
    pub open spec fn wf(&self) -> bool {
        &&& self.sets.wf()
        &&& sets_wf(self.sets.map())
        &&& self.policies.wf()
        &&& self.profiles.wf()
        &&& self.endpoints.wf()
    }

    /// What the manager wants.
    pub open spec fn content(&self) -> TableView {
        TableView {
            sets: deep_map(self.sets.map()),
            policies: deep_map(self.policies.map()),
            profiles: deep_map(self.profiles.map()),
            endpoints: deep_map(self.endpoints.map()),
        }
    }

    /// What the manager remembers.
    pub open spec fn memory(&self) -> TableState {
        TableState {
            wanted: self.content(),
            applied: self.last_doc.deep_view(),
            announced: self.logged_empty_desired_state,
        }
    }

    /// A manager that wants nothing and has applied nothing.
    pub fn new() -> (r: Self)
        ensures
            r.wf(),
            r.content() == TableView::empty(),
            r.sets.entries@.len() == 0,
            r.policies.entries@.len() == 0,
            r.profiles.entries@.len() == 0,
            r.endpoints.entries@.len() == 0,
            r.last_doc is None,
            !r.logged_empty_desired_state,
    {
        let r = PolicyTableManager {
            sets: OrdMap::new(),
            policies: OrdMap::new(),
            profiles: OrdMap::new(),
            endpoints: OrdMap::new(),
            last_doc: None,
            logged_empty_desired_state: false,
        };
        assert(r.content() =~= TableView::empty());
        r
    }

    /// The number of wanted sets.
    pub fn set_count(&self) -> (r: usize)
        ensures
            r == self.sets.entries@.len(),
    {
        self.sets.len()
    }

    /// The number of wanted policies.
    pub fn policy_count(&self) -> (r: usize)
        ensures
            r == self.policies.entries@.len(),
    {
        self.policies.len()
    }

    /// The number of wanted endpoints.
    pub fn endpoint_count(&self) -> (r: usize)
        ensures
            r == self.endpoints.entries@.len(),
    {
        self.endpoints.len()
    }

    /// The document that makes the kernel's table what is wanted. It depends on what is
    /// wanted alone.
    pub fn render(&self) -> (r: String)
        requires
            self.wf(),
        ensures
            r@ == doc_of(self.content().lines()),
    {
        let ghost content = self.content();
        let at = table_ref();
        let mut doc = Document::new();
        let mut add = "add table ".to_owned();
        add.push_str(at.as_str());
        let mut del = "delete table ".to_owned();
        del.push_str(at.as_str());
        doc.line(add.as_str());
        doc.line(del.as_str());
        doc.line(add.as_str());
        let ghost l0 = doc.lines();
        assert(l0 =~= seq![
            "add table "@ + table_at(),
            "delete table "@ + table_at(),
            "add table "@ + table_at(),
        ]);
        assert(l0 + Seq::<Seq<char>>::empty() =~= l0);
        let ghost sets = listing::<String, DesiredSetView>(content.sets);
        proof {
            law_contents_determine_order(self.sets);
        }
        for i in 0..self.sets.entries.len()
            invariant
                self.wf(),
                doc.wf(),
                content == self.content(),
                sets == listing::<String, DesiredSetView>(content.sets),
                sets == self.sets.entries.deep_view(),
                doc.lines() == l0 + concat_first(content.set_blocks(), i as nat),
        {
            let (id, set) = &self.sets.entries[i];
            let ghost before = doc.lines();
            proof {
                lemma_entry(self.sets.entries@, i as int);
                lemma_keys_in_order(set.members);
                assert(sets[i as int] == (id@, set.deep_view()));
            }
            doc.line(render_add_set(id.as_str(), set.kind).as_str());
            if set.members.len() > 0 {
                let members = member_list(&set.members);
                doc.line(render_elements("add element ", id.as_str(), &members).as_str());
            }
            assert(doc.lines() =~= before + set_lines(id@, set.deep_view()));
            assert(doc.lines() =~= l0 + concat_first(content.set_blocks(), (i + 1) as nat));
        }
        let ghost l1 = doc.lines();
        assert(content.set_blocks().len() == self.sets.entries@.len());
        let chains = build_desired_chains(&self.policies, &self.profiles, &self.endpoints);
        let ghost cv = content.chains();
        proof {
            law_contents_determine_order(self.policies);
            law_contents_determine_order(self.profiles);
            law_contents_determine_order(self.endpoints);
            law_contents_determine_order(chains);
        }
        assert(cv == chains.entries.deep_view());
        assert(l1 + content.chain_lines().take(0) =~= l1);
        for i in 0..chains.entries.len()
            invariant
                doc.wf(),
                at@ == table_at(),
                cv == content.chains(),
                cv == chains.entries.deep_view(),
                doc.lines() == l1 + content.chain_lines().take(i as int),
        {
            let (name, chain) = &chains.entries[i];
            assert(cv[i as int] == (name@, chain.deep_view()));
            doc.line(render_add_chain(at.as_str(), name.as_str(), chain).as_str());
            assert(doc.lines() =~= l1 + content.chain_lines().take(i + 1));
        }
        let ghost l2 = doc.lines();
        assert(l2 =~= l1 + content.chain_lines());
        assert(l2 + Seq::<Seq<char>>::empty() =~= l2);
        for i in 0..chains.entries.len()
            invariant
                doc.wf(),
                at@ == table_at(),
                cv == content.chains(),
                cv == chains.entries.deep_view(),
                doc.lines() == l2 + concat_first(content.rule_blocks(), i as nat),
        {
            let (name, chain) = &chains.entries[i];
            assert(cv[i as int] == (name@, chain.deep_view()));
            write_add_rules(&mut doc, at.as_str(), name.as_str(), chain);
            assert(doc.lines() =~= l2 + concat_first(content.rule_blocks(), (i + 1) as nat));
        }
        assert(content.rule_blocks().len() == chains.entries@.len());
        assert(doc.lines() =~= content.lines());
        doc.finish()
    }

    /// Whether nothing is wanted.
    fn wants_nothing(&self) -> (r: bool)
        requires
            self.wf(),
        ensures
            r == (self.content() == TableView::empty()),
    {
        let r = self.sets.is_empty() && self.policies.is_empty() && self.profiles.is_empty()
            && self.endpoints.is_empty();
        proof {
            if r {
                assert(self.content() =~= TableView::empty());
            } else {
                let e = TableView::empty();
                if self.sets.entries@.len() > 0 {
                    lemma_entry(self.sets.entries@, 0);
                    assert(self.content().sets.dom().contains(
                        self.sets.entries@[0].0.deep_view(),
                    ));
                } else if self.policies.entries@.len() > 0 {
                    lemma_entry(self.policies.entries@, 0);
                    assert(self.content().policies.dom().contains(
                        self.policies.entries@[0].0.deep_view(),
                    ));
                } else if self.profiles.entries@.len() > 0 {
                    lemma_entry(self.profiles.entries@, 0);
                    assert(self.content().profiles.dom().contains(
                        self.profiles.entries@[0].0.deep_view(),
                    ));
                } else {
                    lemma_entry(self.endpoints.entries@, 0);
                    assert(self.content().endpoints.dom().contains(
                        self.endpoints.entries@[0].0.deep_view(),
                    ));
                }
            }
        }
        r
    }

    /// What this round is about to do: the document to apply, unless it is the one that
    /// was applied last. That nothing is wanted is announced once, and again only after
    /// something has been wanted in between.
    pub fn plan(&mut self) -> (r: TablePlan)
        requires
            old(self).wf(),
        ensures
            final(self).wf(),
            final(self).memory() == old(self).memory().after_plan(),
            final(self).last_doc == old(self).last_doc,
            r.announce_empty == (old(self).content() == TableView::empty() && !old(self).logged_empty_desired_state),
            r.document.deep_view() == old(self).memory().planned(),
            ({
                let names = Seq::new(
                    old(self).content().chains().len(),
                    |i: int| old(self).content().chains()[i].0,
                );
                (
                    r.chain_counts.0 as nat,
                    r.chain_counts.1 as nat,
                    r.chain_counts.2 as nat,
                ) == kinds_first(names, names.len())
            }),
    {
        let doc = self.render();
        let empty = self.wants_nothing();
        let announce_empty = empty && !self.logged_empty_desired_state;
        let chains = build_desired_chains(&self.policies, &self.profiles, &self.endpoints);
        let chain_counts = count_chain_kinds(&chains);
        proof {
            law_contents_determine_order(self.policies);
            law_contents_determine_order(self.profiles);
            law_contents_determine_order(self.endpoints);
            law_contents_determine_order(chains);
            let cv = self.content().chains();
            assert(cv == chains.entries.deep_view());
            assert(names_of(chains.entries@) =~= Seq::new(cv.len(), |i: int| cv[i].0)) by {
                assert forall|i: int| 0 <= i < cv.len() implies cv[i].0 == chains.entries@[i].0@ by {
                    assert(chains.entries.deep_view()[i] == chains.entries@[i].deep_view());
                }
            }
        }
        self.logged_empty_desired_state = empty;
        let document = Some(doc);
        let document = if crate::text::opt_str_eq(&self.last_doc, &document) {
            None
        } else {
            document
        };
        TablePlan { document, announce_empty, chain_counts }
    }

    /// Takes in what became of the document `doc`. One that failed is not remembered, so it
    /// is tried again.
    pub fn complete_deferred_work(&mut self, doc: String, outcome: Result<(), String>) -> (r: Result<
        (),
        DataplaneError,
    >)
        requires
            old(self).wf(),
        ensures
            final(self).wf(),
            final(self).memory() == old(self).memory().after_outcome(doc@, outcome is Ok),
            match outcome {
                Ok(_) => r is Ok && final(self).last_doc == Some(doc),
                Err(e) => r == Err::<(), DataplaneError>(DataplaneError(e)) && *final(self) == *old(self),
            },
    {
        match outcome {
            Ok(_) => {
                self.last_doc = Some(doc);
                Ok(())
            },
            Err(e) => Err(DataplaneError(e)),
        }
    }
}

/// The members of a set, ascending.
fn member_list(set: &StrSet) -> (r: Vec<String>)
    requires
        set.wf(),
    ensures
        views(r@) == in_order::<String>(set.map().dom()),
{
    let mut out: Vec<String> = Vec::new();
    let ghost keys = Seq::new(set.entries@.len(), |i: int| set.entries@[i].0.deep_view());
    for i in 0..set.entries.len()
        invariant
            keys == Seq::new(set.entries@.len(), |i: int| set.entries@[i].0.deep_view()),
            views(out@) == keys.take(i as int),
    {
        out.push(set.entries[i].0.clone());
        assert(views(out@) =~= keys.take(i + 1));
    }
    proof {
        lemma_keys_in_order(*set);
        assert(keys.take(keys.len() as int) =~= keys);
    }
    out
}

impl Manager for PolicyTableManager {
    type State = TableState;

    open spec fn state(&self) -> TableState {
        self.memory()
    }

    open spec fn absorb(state: TableState, msg: ToDataplaneView) -> TableState {
        state.after(msg)
    }

    open spec fn valid(&self) -> bool {
        self.wf()
    }

    fn on_update(&mut self, msg: &ToDataplane) {
        let ghost content = self.content();
        match msg {
            ToDataplane::IpSetUpdate(u) => {
                proof {
                    lemma_set_of_views(u.members);
                }
                let set = DesiredSet { kind: u.kind, members: collect(&u.members) };
                self.sets.insert(u.id.clone(), set);
            },
            ToDataplane::IpSetDeltaUpdate(u) => {
                let mut set = match self.sets.remove(&u.id) {
                    Some(s) => s,
                    None => {
                        let members: StrSet = OrdMap::new();
                        assert(members.map().dom() =~= Set::empty());
                        DesiredSet { kind: IpSetKind::Ip, members }
                    },
                };
                insert_all(&mut set.members, &u.added_members);
                remove_all(&mut set.members, &u.removed_members);
                proof {
                    lemma_set_of_views(u.added_members);
                    lemma_set_of_views(u.removed_members);
                }
                self.sets.insert(u.id.clone(), set);
            },
            ToDataplane::IpSetRemove(id) => {
                let _ = self.sets.remove(id);
            },
            ToDataplane::ActivePolicyUpdate { id, policy } => {
                self.policies.insert(id.clone(), policy.clone());
            },
            ToDataplane::ActivePolicyRemove(id) => {
                let _ = self.policies.remove(id);
            },
            ToDataplane::ActiveProfileUpdate { id, profile } => {
                self.profiles.insert(id.clone(), profile.clone());
            },
            ToDataplane::ActiveProfileRemove(id) => {
                let _ = self.profiles.remove(id);
            },
            ToDataplane::WorkloadEndpointUpdate { id, endpoint } => {
                self.endpoints.insert(id.clone(), endpoint.clone());
            },
            ToDataplane::WorkloadEndpointRemove(id) => {
                let _ = self.endpoints.remove(id);
            },
            _ => {},
        }
        assert(self.content() =~= content.after(msg.deep_view()));
    }
}

/// However many messages come, what was applied last is remembered. So the next round
/// applies the document exactly when it is not the one that was applied last: after
/// messages that change it, the new one, and after messages that do not, none.
pub proof fn law_changed_document_is_applied(s: TableState, msgs: Seq<ToDataplaneView>, n: nat)
    ensures
        ({
            let later = s.after_first(msgs, n);
            &&& later.applied == s.applied
            &&& later.announced == s.announced
            &&& s.planned() is None && later.document() != s.document() ==> later.planned() == Some(
                later.document(),
            )
            &&& s.planned() is None && later.document() == s.document() ==> later.planned() is None
            &&& s.applied != Some(later.document()) ==> later.planned() == Some(later.document())
            &&& s.applied == Some(later.document()) ==> later.planned() is None
        }),
    decreases n,
{
    if n > 0 {
        law_changed_document_is_applied(s, msgs, (n - 1) as nat);
    }
}

/// A round that comes to its end leaves nothing to apply, and a second one without a message
/// in between applies nothing; a round that fails leaves the same document to apply. Either
/// way what is wanted stays as it was.
pub proof fn law_round_settles_or_is_repeated(s: TableState)
    ensures
        s.after_round(true).planned() is None,
        s.after_round(true).after_round(true) == s.after_round(true),
        s.after_round(false).planned() == s.planned(),
        s.after_round(false).applied == s.applied,
        s.after_round(true).wanted == s.wanted,
        s.after_round(false).wanted == s.wanted,
{
}

/// The document first makes the table anew; then all sets come before all chains and all
/// chains before all rules, so that whatever a statement refers to is there. Nothing is
/// deleted but the table itself, which exists by then.
pub proof fn law_document_order(t: TableView)
    ensures
        ({
            let lines = t.lines();
            let sets = 3 + concat_all(t.set_blocks()).len();
            let chains = sets + t.chain_lines().len();
            &&& lines.len() >= chains
            &&& lines[0] == "add table "@ + table_at()
            &&& lines[1] == "delete table "@ + table_at()
            &&& lines[2] == "add table "@ + table_at()
            &&& forall|i: int|
                3 <= i < sets ==> has_prefix(#[trigger] lines[i], "add set "@) || has_prefix(
                    lines[i],
                    "add element "@,
                )
            &&& forall|i: int|
                sets <= i < chains ==> has_prefix(#[trigger] lines[i], "add chain "@)
            &&& forall|i: int|
                chains <= i < lines.len() ==> has_prefix(#[trigger] lines[i], "add rule "@)
            &&& forall|i: int|
                0 <= i < lines.len() && i != 1 ==> !has_prefix(#[trigger] lines[i], "delete"@)
        }),
{
    let lines = t.lines();
    let head = seq![
        "add table "@ + table_at(),
        "delete table "@ + table_at(),
        "add table "@ + table_at(),
    ];
    let set_part = concat_all(t.set_blocks());
    let chain_part = t.chain_lines();
    let rule_part = concat_all(t.rule_blocks());
    let sets = 3 + set_part.len();
    let chains = sets + chain_part.len();
    let is_set = |l: Seq<char>| has_prefix(l, "add set "@) || has_prefix(l, "add element "@);
    let is_rule = |l: Seq<char>| has_prefix(l, "add rule "@);
    let all_sets = listing::<String, DesiredSetView>(t.sets);
    assert forall|i: int, j: int|
        0 <= i < t.set_blocks().len() && 0 <= j < t.set_blocks()[i].len() implies is_set(
        #[trigger] t.set_blocks()[i][j],
    ) by {
        let (id, set) = all_sets[i];
        let name = crate::ipset_manager::set_name(id);
        let decl = crate::ipset_manager::type_decl(set.kind);
        let at = table_at();
        if j == 0 {
            let rest = at + " "@ + name + " { "@ + decl + "; }"@;
            assert(add_set_line(id, set.kind) =~= "add set "@ + rest);
            lemma_prefix_of_sum("add set "@, rest);
        } else {
            let m = crate::text::join_spec(in_order::<String>(set.members), ", "@);
            let rest = at + " "@ + name + " { "@ + m + " }"@;
            assert(element_line("add element "@, id, in_order::<String>(set.members))
                =~= "add element "@ + rest);
            lemma_prefix_of_sum("add element "@, rest);
        }
    }
    lemma_concat_all(t.set_blocks(), t.set_blocks().len(), is_set);
    let cv = t.chains();
    assert forall|i: int, j: int|
        0 <= i < t.rule_blocks().len() && 0 <= j < t.rule_blocks()[i].len() implies is_rule(
        #[trigger] t.rule_blocks()[i][j],
    ) by {
        let rest = table_at() + " "@ + cv[i].0 + " "@ + cv[i].1.rules[j].text();
        assert(t.rule_blocks()[i][j] =~= "add rule "@ + rest);
        lemma_prefix_of_sum("add rule "@, rest);
    }
    lemma_concat_all(t.rule_blocks(), t.rule_blocks().len(), is_rule);
    assert forall|i: int| 3 <= i < sets implies has_prefix(#[trigger] lines[i], "add set "@)
        || has_prefix(lines[i], "add element "@) by {
        assert(lines[i] == set_part[i - 3]);
        assert(is_set(set_part[i - 3]));
    }
    assert forall|i: int| sets <= i < chains implies has_prefix(
        #[trigger] lines[i],
        "add chain "@,
    ) by {
        let (name, chain) = cv[i - sets];
        assert(lines[i] == chain_part[i - sets]);
        let rest = table_at() + " "@ + name;
        match chain.base {
            Some(b) => {
                let tail = rest + " { "@ + b.text() + " }"@;
                assert(lines[i] =~= "add chain "@ + tail);
                lemma_prefix_of_sum("add chain "@, tail);
            },
            None => {
                assert(lines[i] =~= "add chain "@ + rest);
                lemma_prefix_of_sum("add chain "@, rest);
            },
        }
    }
    assert forall|i: int| chains <= i < lines.len() implies has_prefix(
        #[trigger] lines[i],
        "add rule "@,
    ) by {
        assert(lines[i] == rule_part[i - chains]);
        assert(is_rule(rule_part[i - chains]));
    }
    reveal_strlit("add table ");
    reveal_strlit("add set ");
    reveal_strlit("add element ");
    reveal_strlit("add chain ");
    reveal_strlit("add rule ");
    reveal_strlit("delete");
    assert forall|i: int| 0 <= i < lines.len() && i != 1 implies !has_prefix(
        #[trigger] lines[i],
        "delete"@,
    ) by {
        if i == 0 || i == 2 {
            lemma_prefix_of_sum("add table "@, table_at());
            lemma_starts_with_a(lines[i], "add table "@);
        } else if i < sets {
            if has_prefix(lines[i], "add set "@) {
                lemma_starts_with_a(lines[i], "add set "@);
            } else {
                lemma_starts_with_a(lines[i], "add element "@);
            }
        } else if i < chains {
            lemma_starts_with_a(lines[i], "add chain "@);
        } else {
            lemma_starts_with_a(lines[i], "add rule "@);
        }
        lemma_not_prefix(lines[i], "delete"@, 0);
    }
}

/// The first character of a text is that of its prefix.
proof fn lemma_starts_with_a(s: Seq<char>, p: Seq<char>)
    requires
        has_prefix(s, p),
        p.len() > 0,
        p[0] == 'a',
    ensures
        s.len() > 0,
        s[0] == 'a',
{
    assert(s.take(p.len() as int)[0] == s[0]);
}

/// Updates of different objects may come in either order: what is wanted in the end is the
/// same, and so is the document.
pub proof fn law_arrival_order_is_irrelevant(
    t: TableView,
    set: crate::messages::IpSetUpdateView,
    policy_id: PolicyIdView,
    policy: PolicyView,
    endpoint_id: WorkloadEndpointIdView,
    endpoint: WorkloadEndpointView,
)
    ensures
        ({
            let a = ToDataplaneView::IpSetUpdate(set);
            let b = ToDataplaneView::ActivePolicyUpdate { id: policy_id, policy };
            let c = ToDataplaneView::WorkloadEndpointUpdate { id: endpoint_id, endpoint };
            &&& t.after(a).after(b).after(c) == t.after(c).after(b).after(a)
            &&& t.after(a).after(b) == t.after(b).after(a)
            &&& t.after(a).after(c) == t.after(c).after(a)
            &&& t.after(b).after(c) == t.after(c).after(b)
        }),
{
}

/// What has been wanted and is not any more leaves no trace: an object that is defined and
/// removed again leaves what is wanted, and so the document, as it was.
pub proof fn law_removed_objects_leave_no_trace(
    t: TableView,
    set: crate::messages::IpSetUpdateView,
    policy_id: PolicyIdView,
    policy: PolicyView,
    profile_id: Seq<char>,
    endpoint_id: WorkloadEndpointIdView,
    endpoint: WorkloadEndpointView,
)
    ensures
        !t.sets.dom().contains(set.id) ==> t.after(ToDataplaneView::IpSetUpdate(set)).after(
            ToDataplaneView::IpSetRemove(set.id),
        ) == t,
        !t.policies.dom().contains(policy_id) ==> t.after(
            ToDataplaneView::ActivePolicyUpdate { id: policy_id, policy },
        ).after(ToDataplaneView::ActivePolicyRemove(policy_id)) == t,
        !t.profiles.dom().contains(profile_id) ==> t.after(
            ToDataplaneView::ActiveProfileUpdate { id: profile_id, profile: policy },
        ).after(ToDataplaneView::ActiveProfileRemove(profile_id)) == t,
        !t.endpoints.dom().contains(endpoint_id) ==> t.after(
            ToDataplaneView::WorkloadEndpointUpdate { id: endpoint_id, endpoint },
        ).after(ToDataplaneView::WorkloadEndpointRemove(endpoint_id)) == t,
{
    if !t.sets.dom().contains(set.id) {
        assert(t.after(ToDataplaneView::IpSetUpdate(set)).after(
            ToDataplaneView::IpSetRemove(set.id),
        ) =~= t);
    }
    if !t.policies.dom().contains(policy_id) {
        assert(t.after(ToDataplaneView::ActivePolicyUpdate { id: policy_id, policy }).after(
            ToDataplaneView::ActivePolicyRemove(policy_id),
        ) =~= t);
    }
    if !t.profiles.dom().contains(profile_id) {
        assert(t.after(
            ToDataplaneView::ActiveProfileUpdate { id: profile_id, profile: policy },
        ).after(ToDataplaneView::ActiveProfileRemove(profile_id)) =~= t);
    }
    if !t.endpoints.dom().contains(endpoint_id) {
        assert(t.after(
            ToDataplaneView::WorkloadEndpointUpdate { id: endpoint_id, endpoint },
        ).after(ToDataplaneView::WorkloadEndpointRemove(endpoint_id)) =~= t);
    }
}

/// What a message is about.
pub enum Subject {
    /// An IP set.
    IpSet(Seq<char>),
    /// A policy.
    Policy(PolicyIdView),
    /// A profile.
    Profile(Seq<char>),
    /// A local endpoint.
    Endpoint(WorkloadEndpointIdView),
    /// Nothing that the table holds.
    Nothing,
}

/// The subject of a message.
pub open spec fn subject_of(msg: ToDataplaneView) -> Subject {
    match msg {
        ToDataplaneView::IpSetUpdate(u) => Subject::IpSet(u.id),
        ToDataplaneView::IpSetDeltaUpdate(u) => Subject::IpSet(u.id),
        ToDataplaneView::IpSetRemove(id) => Subject::IpSet(id),
        ToDataplaneView::ActivePolicyUpdate { id, policy: _ } => Subject::Policy(id),
        ToDataplaneView::ActivePolicyRemove(id) => Subject::Policy(id),
        ToDataplaneView::ActiveProfileUpdate { id, profile: _ } => Subject::Profile(id),
        ToDataplaneView::ActiveProfileRemove(id) => Subject::Profile(id),
        ToDataplaneView::WorkloadEndpointUpdate { id, endpoint: _ } => Subject::Endpoint(id),
        ToDataplaneView::WorkloadEndpointRemove(id) => Subject::Endpoint(id),
        _ => Subject::Nothing,
    }
}

/// Whether two states of the table hold the same of a subject.
pub open spec fn same_of(a: TableView, b: TableView, s: Subject) -> bool {
    match s {
        Subject::IpSet(id) => a.sets.dom().contains(id) == b.sets.dom().contains(id) && a.sets[id]
            == b.sets[id],
        Subject::Policy(id) => a.policies.dom().contains(id) == b.policies.dom().contains(id)
            && a.policies[id] == b.policies[id],
        Subject::Profile(id) => a.profiles.dom().contains(id) == b.profiles.dom().contains(id)
            && a.profiles[id] == b.profiles[id],
        Subject::Endpoint(id) => a.endpoints.dom().contains(id) == b.endpoints.dom().contains(id)
            && a.endpoints[id] == b.endpoints[id],
        Subject::Nothing => true,
    }
}

/// A message changes what is held of its own subject and of no other.
pub proof fn law_message_touches_its_subject_alone(t: TableView, msg: ToDataplaneView, s: Subject)
    requires
        s != subject_of(msg),
    ensures
        same_of(t.after(msg), t, s),
{
}

/// What messages are not about stays.
proof fn lemma_other_subjects(s: TableState, msgs: Seq<ToDataplaneView>, m: nat, n: nat, x: Subject)
    requires
        m <= n <= msgs.len(),
        forall|j: int| m <= j < n ==> subject_of(#[trigger] msgs[j]) != x,
    ensures
        same_of(s.after_first(msgs, n).wanted, s.after_first(msgs, m).wanted, x),
        s.after_first(msgs, n).applied == s.after_first(msgs, m).applied,
    decreases n,
{
    if m < n {
        lemma_other_subjects(s, msgs, m, (n - 1) as nat, x);
        law_message_touches_its_subject_alone(
            s.after_first(msgs, (n - 1) as nat).wanted,
            msgs[n - 1],
            x,
        );
    }
}

/// The last message about an object prevails: what it gives is wanted as it was given, and
/// what it removes is not wanted.
pub proof fn law_last_message_about_an_object_prevails(
    s: TableState,
    msgs: Seq<ToDataplaneView>,
    i: int,
)
    requires
        0 <= i < msgs.len(),
        forall|j: int|
            i < j < msgs.len() ==> subject_of(#[trigger] msgs[j]) != subject_of(msgs[i]),
    ensures
        ({
            let end = s.after_first(msgs, msgs.len()).wanted;
            match msgs[i] {
                ToDataplaneView::IpSetUpdate(u) => {
                    &&& end.sets.dom().contains(u.id)
                    &&& end.sets[u.id].kind == u.kind
                    &&& forall|m: Seq<char>| #[trigger]
                        end.sets[u.id].members.contains(m) <==> u.members.contains(m)
                },
                ToDataplaneView::IpSetRemove(id) => !end.sets.dom().contains(id),
                ToDataplaneView::ActivePolicyUpdate { id, policy } => end.policies.dom().contains(id)
                    && end.policies[id] == policy,
                ToDataplaneView::ActivePolicyRemove(id) => !end.policies.dom().contains(id),
                ToDataplaneView::ActiveProfileUpdate { id, profile } =>
                    end.profiles.dom().contains(id) && end.profiles[id] == profile,
                ToDataplaneView::ActiveProfileRemove(id) => !end.profiles.dom().contains(id),
                ToDataplaneView::WorkloadEndpointUpdate { id, endpoint } =>
                    end.endpoints.dom().contains(id) && end.endpoints[id] == endpoint,
                ToDataplaneView::WorkloadEndpointRemove(id) => !end.endpoints.dom().contains(id),
                _ => true,
            }
        }),
{
    if subject_of(msgs[i]) != Subject::Nothing {
        lemma_other_subjects(s, msgs, (i + 1) as nat, msgs.len(), subject_of(msgs[i]));
        assert(s.after_first(msgs, (i + 1) as nat) == s.after_first(msgs, i as nat).after(msgs[i]));
        let end = s.after_first(msgs, msgs.len()).wanted;
        if let ToDataplaneView::IpSetUpdate(u) = msgs[i] {
            assert forall|m: Seq<char>| #[trigger]
                end.sets[u.id].members.contains(m) <==> u.members.contains(m) by {
                assert(u.members.to_set().contains(m) <==> u.members.contains(m));
            }
        }
    }
}

/// A change of a set adds what it adds and then takes out what it takes out, and leaves
/// everyone else and the kind of the set as they were. A set that was not known begins
/// without members.
pub proof fn law_set_change_is_added_and_taken_out(
    t: TableView,
    u: crate::messages::IpSetDeltaUpdateView,
    m: Seq<char>,
)
    ensures
        ({
            let after = t.after(ToDataplaneView::IpSetDeltaUpdate(u));
            let before = t.sets.dom().contains(u.id) && t.sets[u.id].members.contains(m);
            &&& after.sets.dom().contains(u.id)
            &&& after.sets[u.id].members.contains(m) <==> (before || u.added_members.contains(m))
                && !u.removed_members.contains(m)
            &&& t.sets.dom().contains(u.id) ==> after.sets[u.id].kind == t.sets[u.id].kind
            &&& !t.sets.dom().contains(u.id) ==> after.sets[u.id].kind == IpSetKind::Ip
        }),
{
    assert(u.added_members.to_set().contains(m) <==> u.added_members.contains(m));
    assert(u.removed_members.to_set().contains(m) <==> u.removed_members.contains(m));
}

/// The chains are finitely many.
proof fn lemma_chains_finite(
    policies: Seq<(PolicyIdView, PolicyView)>,
    profiles: Seq<(Seq<char>, PolicyView)>,
    endpoints: Seq<(WorkloadEndpointIdView, WorkloadEndpointView)>,
)
    ensures
        desired_chains(policies, profiles, endpoints).dom().finite(),
{
    lemma_policies_finite(policies, policies.len());
    let x = with_policies(Map::empty(), policies, policies.len());
    lemma_profiles_finite(x, profiles, profiles.len());
    let y = with_profiles(x, profiles, profiles.len());
    lemma_endpoints_finite(y, endpoints, endpoints.len());
}

/// The chains of policies are finitely many.
proof fn lemma_policies_finite(policies: Seq<(PolicyIdView, PolicyView)>, n: nat)
    ensures
        with_policies(Map::empty(), policies, n).dom().finite(),
    decreases n,
{
    if n > 0 {
        lemma_policies_finite(policies, (n - 1) as nat);
    }
}

/// The chains of profiles are finitely many.
proof fn lemma_profiles_finite(
    before: Map<Seq<char>, NftChainView>,
    profiles: Seq<(Seq<char>, PolicyView)>,
    n: nat,
)
    requires
        before.dom().finite(),
    ensures
        with_profiles(before, profiles, n).dom().finite(),
    decreases n,
{
    if n > 0 {
        lemma_profiles_finite(before, profiles, (n - 1) as nat);
    }
}

/// The chain of an endpoint and those that it jumps to are finitely many.
proof fn lemma_dispatch_finite(
    before: Map<Seq<char>, NftChainView>,
    ep: WorkloadEndpointView,
    dir: Direction,
)
    requires
        before.dom().finite(),
    ensures
        with_dispatch(before, ep, dir).dom().finite(),
{
    let names = targets(ep, dir);
    let stubs = with_stubs(before, names);
    vstd::seq_lib::seq_to_set_is_finite(names);
    assert(stubs.dom() =~= before.dom().union(names.to_set()));
}

/// The chains of endpoints are finitely many.
proof fn lemma_endpoints_finite(
    before: Map<Seq<char>, NftChainView>,
    endpoints: Seq<(WorkloadEndpointIdView, WorkloadEndpointView)>,
    n: nat,
)
    requires
        before.dom().finite(),
    ensures
        with_endpoints(before, endpoints, n).dom().finite(),
    decreases n,
{
    if n > 0 {
        let m = (n - 1) as nat;
        lemma_endpoints_finite(before, endpoints, m);
        let w = with_endpoints(before, endpoints, m);
        let ep = endpoints[n - 1].1;
        lemma_dispatch_finite(w, ep, Direction::Ingress);
        lemma_dispatch_finite(with_dispatch(w, ep, Direction::Ingress), ep, Direction::Egress);
    }
}

/// The document holds every chain that the wanted policies, profiles and endpoints ask for,
/// with each of its rules, and every wanted set with all of its members.
pub proof fn law_document_holds_everything_wanted(
    m: PolicyTableManager,
    k: Seq<char>,
    j: int,
    id: Seq<char>,
)
    requires
        m.wf(),
    ensures
        ({
            let t = m.content();
            let chains = desired_chains(
                listing::<PolicyId, PolicyView>(t.policies),
                listing::<String, PolicyView>(t.profiles),
                listing::<WorkloadEndpointId, WorkloadEndpointView>(t.endpoints),
            );
            &&& chains.dom().contains(k) ==> t.lines().contains(
                add_chain_line("inet"@ + " "@ + "calico"@, k, chains[k].base),
            )
            &&& chains.dom().contains(k) && 0 <= j < chains[k].rules.len() ==> t.lines().contains(
                "add rule "@ + ("inet"@ + " "@ + "calico"@) + " "@ + k + " "@
                    + chains[k].rules[j].text(),
            )
            &&& t.sets.dom().contains(id) ==> t.lines().contains(add_set_line(id, t.sets[id].kind))
            &&& t.sets.dom().contains(id) && in_order::<String>(t.sets[id].members).len() > 0
                ==> t.lines().contains(
                element_line(
                    "add element "@,
                    id,
                    in_order::<String>(t.sets[id].members),
                ),
            )
        }),
{
    let t = m.content();
    let chains = desired_chains(
        listing::<PolicyId, PolicyView>(t.policies),
        listing::<String, PolicyView>(t.profiles),
        listing::<WorkloadEndpointId, WorkloadEndpointView>(t.endpoints),
    );
    lemma_chains_finite(
        listing::<PolicyId, PolicyView>(t.policies),
        listing::<String, PolicyView>(t.profiles),
        listing::<WorkloadEndpointId, WorkloadEndpointView>(t.endpoints),
    );
    lemma_finite_in_order::<String>(chains.dom());
    lemma_keys_in_order(m.sets);
    assert(t.sets.dom() =~= m.sets.map().dom());
    let names = in_order::<String>(chains.dom());
    let head = seq![
        "add table "@ + table_at(),
        "delete table "@ + table_at(),
        "add table "@ + table_at(),
    ];
    let sets = concat_all(t.set_blocks());
    let rules = concat_all(t.rule_blocks());
    let lines = t.lines();
    assert(lines == head + sets + t.chain_lines() + rules);
    if chains.dom().contains(k) {
        assert(names.contains(k));
        let i = names.index_of(k);
        assert(t.chains()[i] == (k, chains[k]));
        assert(t.chain_lines()[i] == add_chain_line(table_at(), k, chains[k].base));
        assert(lines[head.len() + sets.len() + i] == t.chain_lines()[i]);
        if 0 <= j < chains[k].rules.len() {
            let block = t.rule_blocks()[i];
            let line = "add rule "@ + table_at() + " "@ + k + " "@ + chains[k].rules[j].text();
            assert(block[j] == line);
            assert(block.contains(line));
            lemma_concat_contains(t.rule_blocks(), t.rule_blocks().len(), i, line);
            let p = rules.index_of(line);
            assert(lines[head.len() + sets.len() + t.chain_lines().len() + p] == line);
        }
    }
    if t.sets.dom().contains(id) {
        let ids = in_order::<String>(t.sets.dom());
        assert(ids.contains(id));
        let i = ids.index_of(id);
        let block = t.set_blocks()[i];
        assert(block == set_lines(id, t.sets[id]));
        let first = add_set_line(id, t.sets[id].kind);
        assert(block[0] == first);
        assert(block.contains(first));
        lemma_concat_contains(t.set_blocks(), t.set_blocks().len(), i, first);
        let p = sets.index_of(first);
        assert(lines[head.len() + p] == first);
        let members = in_order::<String>(t.sets[id].members);
        if members.len() > 0 {
            let second = element_line("add element "@, id, members);
            assert(block[1] == second);
            assert(block.contains(second));
            lemma_concat_contains(t.set_blocks(), t.set_blocks().len(), i, second);
            let q = sets.index_of(second);
            assert(lines[head.len() + q] == second);
        }
    }
}

/// The chains are counted by what they are made for: policies, profiles, and endpoints in
/// either direction. A chain of another name is not counted.
pub proof fn law_chains_are_counted_by_kind(names: Seq<Seq<char>>)
    ensures
        ({
            let counts = kinds_first(names, names.len());
            &&& counts.0 == names.filter(
                |k: Seq<char>| has_prefix(k, "cali-pi-"@) || has_prefix(k, "cali-po-"@),
            ).len()
            &&& counts.1 == names.filter(
                |k: Seq<char>| has_prefix(k, "cali-pri-"@) || has_prefix(k, "cali-pro-"@),
            ).len()
            &&& counts.2 == names.filter(
                |k: Seq<char>| has_prefix(k, "cali-tw-"@) || has_prefix(k, "cali-fw-"@),
            ).len()
        }),
{
    lemma_counts(names, names.len());
    assert(names.take(names.len() as int) =~= names);
}

/// A name tells one kind at most.
proof fn lemma_one_kind(k: Seq<char>)
    ensures
        is_policy_chain(k) ==> !is_profile_chain(k) && !is_dispatch_chain(k),
        is_profile_chain(k) ==> !is_dispatch_chain(k),
{
    reveal_strlit("cali-pi-");
    reveal_strlit("cali-po-");
    reveal_strlit("cali-pri-");
    reveal_strlit("cali-pro-");
    reveal_strlit("cali-tw-");
    reveal_strlit("cali-fw-");
    if is_policy_chain(k) {
        let p = k.take(8);
        assert(p[5] == 'p' && (p[6] == 'i' || p[6] == 'o'));
        assert(k[5] == 'p' && (k[6] == 'i' || k[6] == 'o'));
    }
    if is_profile_chain(k) {
        let p = k.take(9);
        assert(p[5] == 'p' && p[6] == 'r');
        assert(k[5] == 'p' && k[6] == 'r');
    }
    if is_dispatch_chain(k) {
        let p = k.take(8);
        assert(p[5] == 't' || p[5] == 'f');
        assert(k[5] == 't' || k[5] == 'f');
    }
}

/// The same of the first `n` chains.
proof fn lemma_counts(names: Seq<Seq<char>>, n: nat)
    requires
        n <= names.len(),
    ensures
        ({
            let counts = kinds_first(names, n);
            let seen = names.take(n as int);
            &&& counts.0 == seen.filter(
                |k: Seq<char>| has_prefix(k, "cali-pi-"@) || has_prefix(k, "cali-po-"@),
            ).len()
            &&& counts.1 == seen.filter(
                |k: Seq<char>| has_prefix(k, "cali-pri-"@) || has_prefix(k, "cali-pro-"@),
            ).len()
            &&& counts.2 == seen.filter(
                |k: Seq<char>| has_prefix(k, "cali-tw-"@) || has_prefix(k, "cali-fw-"@),
            ).len()
        }),
    decreases n,
{
    reveal(Seq::filter);
    if n > 0 {
        lemma_counts(names, (n - 1) as nat);
        lemma_one_kind(names[n - 1]);
        assert(names.take(n as int).drop_last() =~= names.take(n - 1));
        assert(names.take(n as int).last() == names[n - 1]);
    }
}

/// A plan remembers whether there was anything to want, and changes nothing else: what is
/// wanted and what was applied stay.
pub proof fn law_plan_remembers_emptiness(s: TableState)
    ensures
        s.after_plan().wanted == s.wanted,
        s.after_plan().applied == s.applied,
        s.after_plan().announced <==> s.wanted.sets.dom() =~= Set::empty()
            && s.wanted.policies.dom() =~= Set::empty() && s.wanted.profiles.dom() =~= Set::empty()
            && s.wanted.endpoints.dom() =~= Set::empty(),
{
    if s.wanted.sets.dom() =~= Set::empty() && s.wanted.policies.dom() =~= Set::empty()
        && s.wanted.profiles.dom() =~= Set::empty() && s.wanted.endpoints.dom()
        =~= Set::empty() {
        assert(s.wanted.sets =~= Map::empty());
        assert(s.wanted.policies =~= Map::empty());
        assert(s.wanted.profiles =~= Map::empty());
        assert(s.wanted.endpoints =~= Map::empty());
        assert(s.wanted =~= TableView::empty());
    }
}

/// A document is remembered as applied exactly where it was taken; what is wanted stays.
pub proof fn law_only_taken_documents_are_remembered(s: TableState, doc: Seq<char>, taken: bool)
    ensures
        s.after_outcome(doc, taken).wanted == s.wanted,
        s.after_outcome(doc, taken).announced == s.announced,
        taken ==> s.after_outcome(doc, taken).applied == Some(doc),
        !taken ==> s.after_outcome(doc, taken).applied == s.applied,
{
}

} // verus!
