//! The routes of the node, programmed by difference.
//!
//! The wanted routes are held against those that have been programmed. Only what differs is
//! programmed, and every single success is recorded, so that a failure repeats only what
//! is left.

use crate::dataplane::{DataplaneError, Manager};
use crate::messages::{RouteType, RouteUpdate, RouteUpdateView, ToDataplane, ToDataplaneView};
use crate::ordmap::{
    deep_map, enumerates, in_order, law_contents_determine_order, lemma_keys_in_order, lemma_order_with,
    lemma_order_without, listing, MapKey, OrdMap,
};
use crate::pools::IpAddress;
use crate::seqs::{append_items, push_item};
use crate::text::{
    clone_opt, debug_form, debug_text, from_chars, opt_str_eq, parse_unsigned, to_chars, unsigned_value,
};
use vstd::prelude::*;

verus! {

broadcast use {
    crate::ordmap::lemma_deep_insert,
    crate::ordmap::lemma_deep_remove,
};

/// What is wanted of a route, apart from its destination.
#[derive(Debug, PartialEq, Eq)]
pub struct RouteValue {
    /// What it leads to.
    pub route_type: RouteType,
    /// The next hop; none for a connected route.
    pub gateway: Option<String>,
    /// The node that owns the destination.
    pub dst_node_name: Option<String>,
}

/// The mathematical content of a [`RouteValue`].
#[verifier::ext_equal]
pub struct RouteValueView {
    pub route_type: RouteType,
    pub gateway: Option<Seq<char>>,
    pub dst_node_name: Option<Seq<char>>,
}

impl DeepView for RouteValue {
    type V = RouteValueView;

    open spec fn deep_view(&self) -> RouteValueView {
        RouteValueView {
            route_type: self.route_type,
            gateway: self.gateway.deep_view(),
            dst_node_name: self.dst_node_name.deep_view(),
        }
    }
}

impl Clone for RouteValue {
    fn clone(&self) -> (r: Self)
        ensures
            r.deep_view() == self.deep_view(),
    {
        let r = RouteValue {
            route_type: self.route_type,
            gateway: self.gateway.clone(),
            dst_node_name: self.dst_node_name.clone(),
        };
        assert(r.deep_view() =~= self.deep_view());
        r
    }
}

/// One change of the kernel's routes.
#[derive(Debug, PartialEq, Eq)]
pub enum RouteOp {
    /// Add the route, or replace it.
    Add { dst: String, value: RouteValue },
    /// Delete the route.
    Delete { dst: String },
}

/// The mathematical content of a [`RouteOp`].
#[verifier::ext_equal]
pub enum RouteOpView {
    Add { dst: Seq<char>, value: RouteValueView },
    Delete { dst: Seq<char> },
}

impl DeepView for RouteOp {
    type V = RouteOpView;

    open spec fn deep_view(&self) -> RouteOpView {
        match self {
            RouteOp::Add { dst, value } => RouteOpView::Add { dst: dst.deep_view(), value: value.deep_view() },
            RouteOp::Delete { dst } => RouteOpView::Delete { dst: dst.deep_view() },
        }
    }
}

impl Clone for RouteOp {
    fn clone(&self) -> (r: Self)
        ensures
            r.deep_view() == self.deep_view(),
    {
        let r = match self {
            RouteOp::Add { dst, value } => RouteOp::Add { dst: dst.clone(), value: value.clone() },
            RouteOp::Delete { dst } => RouteOp::Delete { dst: dst.clone() },
        };
        assert(r.deep_view() =~= self.deep_view());
        r
    }
}

impl RouteOpView {
    /// The destination of the route.
    pub open spec fn key(self) -> Seq<char> {
        match self {
            RouteOpView::Add { dst, value: _ } => dst,
            RouteOpView::Delete { dst } => dst,
        }
    }
}

impl RouteOp {
    /// The destination of the route.
    pub fn dst(&self) -> (r: &String)
        ensures
            r@ == self.deep_view().key(),
    {
        match self {
            RouteOp::Add { dst, value: _ } => dst,
            RouteOp::Delete { dst } => dst,
        }
    }
}

/// What a message wants of a route.
pub open spec fn value_of(u: RouteUpdateView) -> RouteValueView {
    RouteValueView { route_type: u.route_type, gateway: u.gateway, dst_node_name: u.dst_node_name }
}

impl RouteValue {
    /// What a message wants of a route.
    pub fn from_update(u: &RouteUpdate) -> (r: Self)
        ensures
            r.deep_view() == value_of(u.deep_view()),
    {
        RouteValue {
            route_type: u.route_type,
            gateway: clone_opt(&u.gateway),
            dst_node_name: clone_opt(&u.dst_node_name),
        }
    }

    /// Whether the two ask for the same route.
    pub fn same(&self, other: &RouteValue) -> (r: bool)
        ensures
            r == (self.deep_view() == other.deep_view()),
    {
        self.route_type == other.route_type && opt_str_eq(&self.gateway, &other.gateway)
            && opt_str_eq(&self.dst_node_name, &other.dst_node_name)
    }
}

/// The position of the first slash, from position `i` on; the length where there is none.
pub open spec fn slash_from(s: Seq<char>, i: int) -> int
    decreases s.len() - i,
{
    if i < 0 || i >= s.len() {
        s.len() as int
    } else if s[i] == '/' {
        i
    } else {
        slash_from(s, i + 1)
    }
}

/// The address part of a destination: what stands before the first slash.
pub open spec fn address_part(s: Seq<char>) -> Seq<char> {
    s.take(slash_from(s, 0))
}

/// The prefix part of a destination: what stands after the first slash.
pub open spec fn prefix_part(s: Seq<char>) -> Option<Seq<char>> {
    let k = slash_from(s, 0);
    if k < s.len() {
        Some(s.skip(k + 1))
    } else {
        None
    }
}

/// Where the first slash can be.
proof fn lemma_slash_from(s: Seq<char>, i: int)
    requires
        0 <= i <= s.len(),
    ensures
        i <= slash_from(s, i) <= s.len(),
    decreases s.len() - i,
{
    if i < s.len() && s[i] != '/' {
        lemma_slash_from(s, i + 1);
    }
}

/// The address part and the prefix part of a destination.
pub fn split_cidr(cidr: &str) -> (r: (String, Option<String>))
    ensures
        r.0@ == address_part(cidr@),
        r.1.deep_view() == prefix_part(cidr@),
{
    let v = to_chars(cidr);
    let mut k: usize = 0;
    while k < v.len() && v[k] != '/'
        invariant
            k <= v.len(),
            v@ == cidr@,
            slash_from(cidr@, 0) == slash_from(cidr@, k as int),
        decreases v.len() - k,
    {
        k = k + 1;
    }
    let mut a: Vec<char> = Vec::new();
    for i in 0..k
        invariant
            k <= v.len(),
            a@ == v@.take(i as int),
    {
        a.push(v[i]);
        assert(a@ =~= v@.take(i + 1));
    }
    let addr = from_chars(a.as_slice());
    if k == v.len() {
        return (addr, None);
    }
    let mut p: Vec<char> = Vec::new();
    for i in k + 1..v.len()
        invariant
            k < v.len(),
            p@ == v@.subrange(k + 1, i as int),
    {
        p.push(v[i]);
        assert(p@ =~= v@.subrange(k + 1, i + 1));
    }
    assert(v@.subrange(k + 1, v@.len() as int) =~= v@.skip(k + 1));
    (addr, Some(from_chars(p.as_slice())))
}

/// The prefix length of a destination: what its prefix part says, and the full length where
/// it has none. An error is the beginning of its words.
pub open spec fn prefix_of(cidr: Seq<char>, addr: IpAddress) -> Result<nat, Seq<char>> {
    match prefix_part(cidr) {
        None => Ok(addr.width()),
        Some(p) => match unsigned_value(p, 255) {
            None => Err("invalid route prefix length: "@),
            Some(n) => if n <= addr.width() {
                Ok(n)
            } else {
                Err("route prefix length out of range: "@)
            },
        },
    }
}

/// The destination of a route, given the address that its address part denotes, if it
/// denotes one. The prefix length is the full one where the text names none.
pub fn parse_cidr(cidr: &str, addr: Option<IpAddress>) -> (r: Result<(IpAddress, u8), String>)
    ensures
        match addr {
            None => r matches Err(e) && e@ == "invalid route destination address: "@ + debug_form(
                cidr@,
            ),
            Some(a) => match prefix_of(cidr@, a) {
                Ok(n) => r matches Ok(x) && x.0 == a && x.1 == n,
                Err(w) => r matches Err(e) && e@ == w + debug_form(cidr@),
            },
        },
{
    let quoted = debug_text(cidr);
    let a = match addr {
        Some(a) => a,
        None => {
            let mut e = "invalid route destination address: ".to_owned();
            e.push_str(quoted.as_str());
            return Err(e);
        },
    };
    let max = a.max_prefix();
    match split_cidr(cidr).1 {
        None => Ok((a, max)),
        Some(p) => match parse_unsigned(p.as_str(), 255) {
            None => {
                let mut e = "invalid route prefix length: ".to_owned();
                e.push_str(quoted.as_str());
                Err(e)
            },
            Some(n) => {
                if n > max as u64 {
                    let mut e = "route prefix length out of range: ".to_owned();
                    e.push_str(quoted.as_str());
                    Err(e)
                } else {
                    Ok((a, n as u8))
                }
            },
        },
    }
}

/// What a [`RouteManager`] knows.
#[verifier::ext_equal]
pub struct RoutesView {
    /// The wanted routes, by destination.
    pub desired: Map<Seq<char>, RouteValueView>,
    /// The programmed routes, by destination.
    pub dataplane: Map<Seq<char>, RouteValueView>,
}

/// The additions among the first `n` wanted routes: those that are not programmed as they
/// are wanted.
pub open spec fn adds_first(
    list: Seq<(Seq<char>, RouteValueView)>,
    have: Map<Seq<char>, RouteValueView>,
    n: nat,
) -> Seq<RouteOpView>
    decreases n,
{
    if n == 0 {
        Seq::empty()
    } else {
        let head = adds_first(list, have, (n - 1) as nat);
        let (dst, value) = list[n - 1];
        if have.dom().contains(dst) && have[dst] == value {
            head
        } else {
            head.push(RouteOpView::Add { dst, value })
        }
    }
}

/// The deletions among the first `n` programmed routes: those that are not wanted.
pub open spec fn dels_first(
    keys: Seq<Seq<char>>,
    want: Map<Seq<char>, RouteValueView>,
    n: nat,
) -> Seq<RouteOpView>
    decreases n,
{
    if n == 0 {
        Seq::empty()
    } else {
        let head = dels_first(keys, want, (n - 1) as nat);
        if want.dom().contains(keys[n - 1]) {
            head
        } else {
            head.push(RouteOpView::Delete { dst: keys[n - 1] })
        }
    }
}

impl RoutesView {
    /// What is known after a message.
    pub open spec fn after(self, msg: ToDataplaneView) -> RoutesView {
        match msg {
            ToDataplaneView::RouteUpdate(u) => RoutesView {
                desired: self.desired.insert(u.dst, value_of(u)),
                ..self
            },
            ToDataplaneView::RouteRemove(dst) => RoutesView {
                desired: self.desired.remove(dst),
                ..self
            },
            _ => self,
        }
    }

    /// What is known once the route to `dst` is programmed as it is wanted, or deleted where
    /// it is not wanted.
    pub open spec fn confirmed(self, dst: Seq<char>) -> RoutesView {
        RoutesView {
            dataplane: if self.desired.dom().contains(dst) {
                self.dataplane.insert(dst, self.desired[dst])
            } else {
                self.dataplane.remove(dst)
            },
            ..self
        }
    }

    /// The additions, ascending by destination.
    pub open spec fn additions(self) -> Seq<RouteOpView> {
        let list = listing::<String, RouteValueView>(self.desired);
        adds_first(list, self.dataplane, list.len())
    }

    /// The deletions, ascending by destination.
    pub open spec fn deletions(self) -> Seq<RouteOpView> {
        let keys = in_order::<String>(self.dataplane.dom());
        dels_first(keys, self.desired, keys.len())
    }

    /// All changes that are left to do: the additions, then the deletions.
    pub open spec fn changes(self) -> Seq<RouteOpView> {
        self.additions() + self.deletions()
    }

    /// What is known once the first `n` changes are done.
    pub open spec fn done_first(self, ops: Seq<RouteOpView>, n: nat) -> RoutesView
        decreases n,
    {
        if n == 0 {
            self
        } else {
            self.done_first(ops, (n - 1) as nat).confirmed(ops[n - 1].key())
        }
    }
}

/// What became of one change.
#[derive(Debug)]
pub enum OpOutcome {
    /// It was made.
    Done,
    /// Its destination cannot be read; it is dropped.
    Malformed,
    /// It failed.
    Failed(String),
}

/// One round of programming: the changes that it began with, and how many of them have been
/// dealt with.
pub struct RouteRound {
    /// The changes, in the order in which they are made.
    pub ops: Vec<RouteOp>,
    /// How many have been dealt with.
    pub at: usize,
}

/// What is next in a round.
#[derive(Debug)]
pub enum RoundStep {
    /// This change is to be made.
    Program(RouteOp),
    /// The round is over; it failed if one of its changes did.
    Over(Result<(), DataplaneError>),
}

impl RouteRound {
    /// Whether the step is the next one: the first change that has not been dealt with, and
    /// where there is none the successful end.
    pub open spec fn leads_to(&self, step: RoundStep) -> bool {
        if self.at < self.ops@.len() {
            step matches RoundStep::Program(op) && op.deep_view() == self.ops@[self.at as int].deep_view()
        } else {
            step matches RoundStep::Over(end) && end is Ok
        }
    }

    /// Whether the round began when `start` was known and leads to what is known now: all
    /// changes that were left at its beginning, of which the first `at` are done.
    pub open spec fn runs(&self, start: RoutesView, now: RoutesView) -> bool {
        &&& self.ops.deep_view() == start.changes()
        &&& self.at <= self.ops@.len()
        &&& now == start.done_first(start.changes(), self.at as nat)
    }

    /// What is next.
    fn step(&self) -> (r: RoundStep)
        ensures
            self.leads_to(r),
    {
        if self.at < self.ops.len() {
            RoundStep::Program(self.ops[self.at].clone())
        } else {
            RoundStep::Over(Ok(()))
        }
    }
}

/// Keeps the kernel's routes in step with the wanted ones.
pub struct RouteManager {
    /// The wanted routes, by destination.
    pub desired: OrdMap<String, RouteValue>,
    /// The programmed routes, by destination.
    pub dataplane: OrdMap<String, RouteValue>,
}

impl RouteManager {
    /// Both maps are well-formed.
    pub open spec fn wf(&self) -> bool {
        self.desired.wf() && self.dataplane.wf()
    }

    /// What the manager knows.
    pub open spec fn known(&self) -> RoutesView {
        RoutesView {
            desired: deep_map(self.desired.map()),
            dataplane: deep_map(self.dataplane.map()),
        }
    }

    /// A manager that knows of no route.
    pub fn new() -> (r: Self)
        ensures
            r.wf(),
            r.known() == (RoutesView { desired: Map::empty(), dataplane: Map::empty() }),
            r.desired.entries@.len() == 0,
            r.dataplane.entries@.len() == 0,
            r.known().changes().len() == 0,
    {
        let r = RouteManager { desired: OrdMap::new(), dataplane: OrdMap::new() };
        assert(r.known() =~= (RoutesView { desired: Map::empty(), dataplane: Map::empty() }));
        proof {
            lemma_keys_in_order(r.desired);
            lemma_keys_in_order(r.dataplane);
            assert(r.known().desired.dom() =~= r.desired.map().dom());
            assert(r.known().dataplane.dom() =~= r.dataplane.map().dom());
        }
        r
    }

    /// The number of wanted routes.
    pub fn desired_len(&self) -> (r: usize)
        ensures
            r == self.desired.entries@.len(),
    {
        self.desired.len()
    }

    /// The additions, ascending by destination.
    fn additions(&self) -> (r: Vec<RouteOp>)
        requires
            self.wf(),
        ensures
            r.deep_view() == self.known().additions(),
    {
        let ghost list = listing::<String, RouteValueView>(self.known().desired);
        let ghost have = self.known().dataplane;
        proof {
            law_contents_determine_order(self.desired);
        }
        let mut out: Vec<RouteOp> = Vec::new();
        assert(out.deep_view() =~= Seq::<RouteOpView>::empty());
        for i in 0..self.desired.entries.len()
            invariant
                self.wf(),
                list == self.desired.entries.deep_view(),
                have == deep_map(self.dataplane.map()),
                out.deep_view() == adds_first(list, have, i as nat),
        {
            let (dst, value) = &self.desired.entries[i];
            assert(list[i as int] == (dst@, value.deep_view()));
            let current = match self.dataplane.get(dst) {
                Some(v) => {
                    assert(have[dst@] == v.deep_view());
                    v.same(value)
                },
                None => false,
            };
            if !current {
                push_item(&mut out, RouteOp::Add { dst: dst.clone(), value: value.clone() });
            }
        }
        out
    }

    /// The deletions, ascending by destination.
    fn deletions(&self) -> (r: Vec<RouteOp>)
        requires
            self.wf(),
        ensures
            r.deep_view() == self.known().deletions(),
    {
        let ghost keys = in_order::<String>(self.known().dataplane.dom());
        proof {
            lemma_keys_in_order(self.dataplane);
            assert(self.known().dataplane.dom() =~= self.dataplane.map().dom());
        }
        let mut out: Vec<RouteOp> = Vec::new();
        assert(out.deep_view() =~= Seq::<RouteOpView>::empty());
        for i in 0..self.dataplane.entries.len()
            invariant
                self.wf(),
                keys == Seq::new(
                    self.dataplane.entries@.len(),
                    |i: int| self.dataplane.entries@[i].0.deep_view(),
                ),
                out.deep_view() == dels_first(keys, self.known().desired, i as nat),
        {
            let dst = &self.dataplane.entries[i].0;
            assert(keys[i as int] == dst@);
            if !self.desired.contains(dst) {
                push_item(&mut out, RouteOp::Delete { dst: dst.clone() });
            }
        }
        out
    }

    /// All changes that are left to do.
    pub fn pending_ops(&self) -> (r: Vec<RouteOp>)
        requires
            self.wf(),
        ensures
            r.deep_view() == self.known().changes(),
    {
        let mut out = self.additions();
        let mut dels = self.deletions();
        append_items(&mut out, &mut dels);
        out
    }

    /// The number of changes that are left to do.
    pub fn pending_count(&self) -> (r: usize)
        requires
            self.wf(),
        ensures
            r == self.known().changes().len(),
    {
        let ops = self.pending_ops();
        assert(ops.deep_view().len() == ops@.len());
        ops.len()
    }

    /// Takes in what became of one change. A change that was made, or whose destination
    /// cannot be read, is not tried again; one that failed is.
    pub fn complete_deferred_work(&mut self, op: &RouteOp, outcome: OpOutcome) -> (r: Result<
        (),
        DataplaneError,
    >)
        requires
            old(self).wf(),
        ensures
            final(self).wf(),
            match outcome {
                OpOutcome::Failed(e) => r == Err::<(), DataplaneError>(DataplaneError(e))
                    && *final(self) == *old(self),
                _ => r is Ok && final(self).known() == old(self).known().confirmed(
                    op.deep_view().key(),
                ),
            },
    {
        if let OpOutcome::Failed(e) = outcome {
            return Err(DataplaneError(e));
        }
        let dst = op.dst();
        let ghost known = self.known();
        match self.desired.get(dst) {
            Some(v) => {
                assert(known.desired[dst@] == v.deep_view());
                let v = v.clone();
                self.dataplane.insert(dst.clone(), v);
            },
            None => {
                let _ = self.dataplane.remove(dst);
            },
        }
        assert(self.known() =~= known.confirmed(dst@));
        Ok(())
    }

    /// Begins a round, which makes all changes that are left to do.
    pub fn begin_round(&self) -> (r: (RouteRound, RoundStep))
        requires
            self.wf(),
        ensures
            r.0.runs(self.known(), self.known()),
            r.0.at == 0,
            r.0.leads_to(r.1),
    {
        let round = RouteRound { ops: self.pending_ops(), at: 0 };
        let step = round.step();
        (round, step)
    }

    /// Takes in what became of the change that was to be made, and says what is next. A
    /// failure ends the round, and the change is left to do with all that follow it.
    pub fn continue_round(&mut self, round: &mut RouteRound, outcome: OpOutcome) -> (r: RoundStep)
        requires
            old(self).wf(),
            old(round).at < old(round).ops@.len(),
        ensures
            final(self).wf(),
            final(round).ops == old(round).ops,
            match outcome {
                OpOutcome::Failed(e) => r == RoundStep::Over(Err(DataplaneError(e)))
                    && *final(self) == *old(self) && *final(round) == *old(round),
                _ => final(round).at == old(round).at + 1 && final(round).leads_to(r)
                    && final(self).known() == old(self).known().confirmed(
                    old(round).ops@[old(round).at as int].deep_view().key(),
                ),
            },
            forall|start: RoutesView| #[trigger]
                old(round).runs(start, old(self).known()) ==> final(round).runs(
                    start,
                    final(self).known(),
                ),
    {
        let ghost was = *round;
        assert(round.at < round.ops.len());
        match self.complete_deferred_work(&round.ops[round.at], outcome) {
            Err(e) => RoundStep::Over(Err(e)),
            Ok(_) => {
                round.at = round.at + 1;
                assert forall|start: RoutesView| #[trigger]
                    was.runs(start, old(self).known()) implies round.runs(
                    start,
                    self.known(),
                ) by {
                    assert(start.changes()[was.at as int] == was.ops@[was.at as int].deep_view());
                }
                round.step()
            },
        }
    }
}

impl Manager for RouteManager {
    type State = RoutesView;

    open spec fn state(&self) -> RoutesView {
        self.known()
    }

    open spec fn absorb(state: RoutesView, msg: ToDataplaneView) -> RoutesView {
        state.after(msg)
    }

    open spec fn valid(&self) -> bool {
        self.wf()
    }

    fn on_update(&mut self, msg: &ToDataplane) {
        let ghost known = self.known();
        match msg {
            ToDataplane::RouteUpdate(u) => {
                self.desired.insert(u.dst.clone(), RouteValue::from_update(u));
            },
            ToDataplane::RouteRemove(dst) => {
                let _ = self.desired.remove(dst);
            },
            _ => {},
        }
        assert(self.known() =~= known.after(msg.deep_view()));
    }
}

/// Whether some change is to the route to `k`.
pub open spec fn touches(ops: Seq<RouteOpView>, k: Seq<char>) -> bool {
    exists|i: int| 0 <= i < ops.len() && (#[trigger] ops[i]).key() == k
}

/// Which routes the additions touch.
proof fn lemma_adds_touch(
    list: Seq<(Seq<char>, RouteValueView)>,
    have: Map<Seq<char>, RouteValueView>,
    n: nat,
    j: int,
)
    requires
        n <= list.len(),
        0 <= j < n,
        !(have.dom().contains(list[j].0) && have[list[j].0] == list[j].1),
    ensures
        touches(adds_first(list, have, n), list[j].0),
    decreases n,
{
    let head = adds_first(list, have, (n - 1) as nat);
    let all = adds_first(list, have, n);
    if j == n - 1 {
        assert(all[head.len() as int].key() == list[j].0);
    } else {
        lemma_adds_touch(list, have, (n - 1) as nat, j);
        let i = choose|i: int| 0 <= i < head.len() && (#[trigger] head[i]).key() == list[j].0;
        assert(all[i].key() == list[j].0);
    }
}

/// Which routes the deletions touch.
proof fn lemma_dels_touch(
    keys: Seq<Seq<char>>,
    want: Map<Seq<char>, RouteValueView>,
    n: nat,
    j: int,
)
    requires
        n <= keys.len(),
        0 <= j < n,
        !want.dom().contains(keys[j]),
    ensures
        touches(dels_first(keys, want, n), keys[j]),
    decreases n,
{
    let head = dels_first(keys, want, (n - 1) as nat);
    let all = dels_first(keys, want, n);
    if j == n - 1 {
        assert(all[head.len() as int].key() == keys[j]);
    } else {
        lemma_dels_touch(keys, want, (n - 1) as nat, j);
        let i = choose|i: int| 0 <= i < head.len() && (#[trigger] head[i]).key() == keys[j];
        assert(all[i].key() == keys[j]);
    }
}

/// What is known of a route after the first `n` changes.
proof fn lemma_done_first(v: RoutesView, ops: Seq<RouteOpView>, n: nat, k: Seq<char>)
    requires
        n <= ops.len(),
    ensures
        v.done_first(ops, n).desired == v.desired,
        ({
            let d = v.done_first(ops, n).dataplane;
            let settled = d.dom().contains(k) == v.desired.dom().contains(k) && (d.dom().contains(k)
                ==> d[k] == v.desired[k]);
            let kept = d.dom().contains(k) == v.dataplane.dom().contains(k) && (d.dom().contains(k)
                ==> d[k] == v.dataplane[k]);
            settled || (kept && forall|i: int| 0 <= i < n ==> (#[trigger] ops[i]).key() != k)
        }),
    decreases n,
{
    if n > 0 {
        lemma_done_first(v, ops, (n - 1) as nat, k);
    }
}

/// Once all changes are done, the programmed routes are the wanted ones and no change is
/// left: a second round without a message in between programs nothing.
pub proof fn law_changes_settle(m: RouteManager)
    requires
        m.wf(),
    ensures
        ({
            let v = m.known();
            let end = v.done_first(v.changes(), v.changes().len());
            &&& end.desired == v.desired
            &&& end.dataplane == v.desired
            &&& end.changes().len() == 0
        }),
{
    let v = m.known();
    let ops = v.changes();
    let end = v.done_first(ops, ops.len());
    lemma_keys_in_order(m.desired);
    lemma_keys_in_order(m.dataplane);
    assert(v.desired.dom() =~= m.desired.map().dom());
    assert(v.dataplane.dom() =~= m.dataplane.map().dom());
    lemma_done_first(v, ops, ops.len(), Seq::empty());
    let list = listing::<String, RouteValueView>(v.desired);
    let wanted = in_order::<String>(v.desired.dom());
    let held = in_order::<String>(v.dataplane.dom());
    assert forall|k: Seq<char>|
        #![trigger end.dataplane.dom().contains(k)]
        #![trigger v.desired.dom().contains(k)]
        end.dataplane.dom().contains(k) == v.desired.dom().contains(k) && (
        end.dataplane.dom().contains(k) ==> end.dataplane[k] == v.desired[k]) by {
        lemma_done_first(v, ops, ops.len(), k);
        if v.desired.dom().contains(k) && !(v.dataplane.dom().contains(k) && v.dataplane[k]
            == v.desired[k]) {
            assert(wanted.contains(k));
            let j = wanted.index_of(k);
            assert(list[j] == (k, v.desired[k]));
            lemma_adds_touch(list, v.dataplane, list.len(), j);
            let a = v.additions();
            let i = choose|i: int| 0 <= i < a.len() && (#[trigger] a[i]).key() == k;
            assert(ops[i].key() == k);
        }
        if v.dataplane.dom().contains(k) && !v.desired.dom().contains(k) {
            assert(held.contains(k));
            let j = held.index_of(k);
            lemma_dels_touch(held, v.desired, held.len(), j);
            let d = v.deletions();
            let i = choose|i: int| 0 <= i < d.len() && (#[trigger] d[i]).key() == k;
            assert(ops[v.additions().len() + i].key() == k);
        }
    }
    assert(end.dataplane.dom() =~= v.desired.dom());
    assert(end.dataplane =~= v.desired);
    lemma_nothing_to_add(list, v.desired, list.len());
    assert forall|i: int| 0 <= i < wanted.len() implies v.desired.dom().contains(wanted[i]) by {
        assert(wanted.contains(wanted[i]));
    }
    lemma_nothing_to_delete(wanted, v.desired, wanted.len());
    assert(end.additions() == adds_first(list, v.desired, list.len()));
}

/// Nothing is added where everything is programmed as wanted.
proof fn lemma_nothing_to_add(
    list: Seq<(Seq<char>, RouteValueView)>,
    have: Map<Seq<char>, RouteValueView>,
    n: nat,
)
    requires
        n <= list.len(),
        list == listing::<String, RouteValueView>(have),
        enumerates::<String>(in_order::<String>(have.dom()), have.dom()),
    ensures
        adds_first(list, have, n).len() == 0,
    decreases n,
{
    if n > 0 {
        lemma_nothing_to_add(list, have, (n - 1) as nat);
        let keys = in_order::<String>(have.dom());
        assert(keys.contains(keys[n - 1]));
    }
}

/// Nothing is deleted where everything programmed is wanted.
proof fn lemma_nothing_to_delete(
    keys: Seq<Seq<char>>,
    want: Map<Seq<char>, RouteValueView>,
    n: nat,
)
    requires
        n <= keys.len(),
        forall|i: int| 0 <= i < keys.len() ==> want.dom().contains(#[trigger] keys[i]),
    ensures
        dels_first(keys, want, n).len() == 0,
    decreases n,
{
    if n > 0 {
        lemma_nothing_to_delete(keys, want, (n - 1) as nat);
    }
}

/// Whether a set of destinations can be listed in ascending order.
spec fn listed(d: Set<Seq<char>>) -> bool {
    enumerates::<String>(in_order::<String>(d), d)
}

/// Whether a wanted route is programmed as it is wanted.
spec fn current(have: Map<Seq<char>, RouteValueView>, e: (Seq<char>, RouteValueView)) -> bool {
    have.dom().contains(e.0) && have[e.0] == e.1
}

/// The additions depend only on which of the wanted routes are programmed as wanted.
proof fn lemma_same_adds(
    list: Seq<(Seq<char>, RouteValueView)>,
    a: Map<Seq<char>, RouteValueView>,
    b: Map<Seq<char>, RouteValueView>,
    n: nat,
)
    requires
        n <= list.len(),
        forall|i: int| 0 <= i < n ==> current(a, #[trigger] list[i]) == current(b, list[i]),
    ensures
        adds_first(list, a, n) == adds_first(list, b, n),
    decreases n,
{
    if n > 0 {
        lemma_same_adds(list, a, b, (n - 1) as nat);
        assert(current(a, list[n - 1]) == current(b, list[n - 1]));
    }
}

/// The place of the first route that is to be added.
proof fn lemma_first_add(
    list: Seq<(Seq<char>, RouteValueView)>,
    have: Map<Seq<char>, RouteValueView>,
    n: nat,
) -> (j: int)
    requires
        n <= list.len(),
        adds_first(list, have, n).len() > 0,
    ensures
        0 <= j < n,
        !current(have, list[j]),
        adds_first(list, have, j as nat).len() == 0,
    decreases n,
{
    if adds_first(list, have, (n - 1) as nat).len() > 0 {
        lemma_first_add(list, have, (n - 1) as nat)
    } else {
        n - 1
    }
}

/// Once the first route is added, the other additions are left.
proof fn lemma_add_done(
    list: Seq<(Seq<char>, RouteValueView)>,
    have: Map<Seq<char>, RouteValueView>,
    j: int,
    n: nat,
)
    requires
        0 <= j < n <= list.len(),
        !current(have, list[j]),
        adds_first(list, have, j as nat).len() == 0,
        forall|i: int| 0 <= i < list.len() && i != j ==> (#[trigger] list[i]).0 != list[j].0,
    ensures
        adds_first(list, have, n).len() > 0,
        adds_first(list, have, n)[0] == (RouteOpView::Add { dst: list[j].0, value: list[j].1 }),
        adds_first(list, have.insert(list[j].0, list[j].1), n) == adds_first(list, have, n).skip(1),
    decreases n,
{
    let after = have.insert(list[j].0, list[j].1);
    let m = (n - 1) as nat;
    if n == j + 1 {
        assert forall|i: int| 0 <= i < j implies current(have, #[trigger] list[i]) == current(
            after,
            list[i],
        ) by {
            assert(list[i].0 != list[j].0);
        }
        lemma_same_adds(list, have, after, j as nat);
        assert(current(after, list[j]));
        assert(adds_first(list, after, n) =~= adds_first(list, have, n).skip(1));
    } else {
        lemma_add_done(list, have, j, m);
        assert(list[m as int].0 != list[j].0);
        assert(current(have, list[m as int]) == current(after, list[m as int]));
        assert(adds_first(list, after, n) =~= adds_first(list, have, n).skip(1));
    }
}

/// One more programmed route that is wanted makes no deletion.
proof fn lemma_dels_with(
    keys: Seq<Seq<char>>,
    want: Map<Seq<char>, RouteValueView>,
    p: int,
    k: Seq<char>,
    n: nat,
)
    requires
        0 <= p <= keys.len(),
        n <= keys.len() + 1,
        want.dom().contains(k),
    ensures
        dels_first(keys.insert(p, k), want, n) == dels_first(
            keys,
            want,
            if n <= p {
                n
            } else {
                (n - 1) as nat
            },
        ),
    decreases n,
{
    if n > 0 {
        lemma_dels_with(keys, want, p, k, (n - 1) as nat);
        let at = keys.insert(p, k)[n - 1];
        if n - 1 < p {
            assert(at == keys[n - 1]);
        } else if n - 1 > p {
            assert(at == keys[n - 2]);
        }
    }
}

/// The place of the first route that is to be deleted.
proof fn lemma_first_del(
    keys: Seq<Seq<char>>,
    want: Map<Seq<char>, RouteValueView>,
    n: nat,
) -> (j: int)
    requires
        n <= keys.len(),
        dels_first(keys, want, n).len() > 0,
    ensures
        0 <= j < n,
        !want.dom().contains(keys[j]),
        dels_first(keys, want, j as nat).len() == 0,
    decreases n,
{
    if dels_first(keys, want, (n - 1) as nat).len() > 0 {
        lemma_first_del(keys, want, (n - 1) as nat)
    } else {
        n - 1
    }
}

/// Without a key behind them the first deletions are the same.
proof fn lemma_same_dels(
    a: Seq<Seq<char>>,
    b: Seq<Seq<char>>,
    want: Map<Seq<char>, RouteValueView>,
    n: nat,
)
    requires
        n <= a.len(),
        n <= b.len(),
        forall|i: int| 0 <= i < n ==> #[trigger] a[i] == b[i],
    ensures
        dels_first(a, want, n) == dels_first(b, want, n),
    decreases n,
{
    if n > 0 {
        lemma_same_dels(a, b, want, (n - 1) as nat);
        assert(a[n - 1] == b[n - 1]);
    }
}

/// Once the first route is deleted, the other deletions are left.
proof fn lemma_del_done(
    keys: Seq<Seq<char>>,
    want: Map<Seq<char>, RouteValueView>,
    j: int,
    n: nat,
)
    requires
        0 <= j < n <= keys.len(),
        !want.dom().contains(keys[j]),
        dels_first(keys, want, j as nat).len() == 0,
    ensures
        dels_first(keys, want, n).len() > 0,
        dels_first(keys, want, n)[0] == (RouteOpView::Delete { dst: keys[j] }),
        dels_first(keys.remove(j), want, (n - 1) as nat) == dels_first(keys, want, n).skip(1),
    decreases n,
{
    let rest = keys.remove(j);
    let m = (n - 1) as nat;
    if n == j + 1 {
        assert forall|i: int| 0 <= i < j implies #[trigger] keys[i] == rest[i] by {}
        lemma_same_dels(keys, rest, want, m);
        assert(dels_first(rest, want, m) =~= dels_first(keys, want, n).skip(1));
    } else {
        lemma_del_done(keys, want, j, m);
        assert(rest[m - 1] == keys[m as int]);
        assert(dels_first(rest, want, m) =~= dels_first(keys, want, n).skip(1));
    }
}

/// Once the first change is done, the others are left.
proof fn lemma_change_done(v: RoutesView)
    requires
        listed(v.desired.dom()),
        listed(v.dataplane.dom()),
        v.changes().len() > 0,
    ensures
        ({
            let next = v.confirmed(v.changes()[0].key());
            &&& next.changes() == v.changes().skip(1)
            &&& listed(next.dataplane.dom())
        }),
{
    let wanted = in_order::<String>(v.desired.dom());
    let held = in_order::<String>(v.dataplane.dom());
    let list = listing::<String, RouteValueView>(v.desired);
    let next = v.confirmed(v.changes()[0].key());
    if v.additions().len() > 0 {
        let j = lemma_first_add(list, v.dataplane, list.len());
        let k = wanted[j];
        assert(wanted.contains(k));
        assert(v.desired.dom().contains(k));
        assert forall|i: int| 0 <= i < list.len() && i != j implies (#[trigger] list[i]).0
            != list[j].0 by {
            if i < j {
                assert(String::less(wanted[i], wanted[j]));
            } else {
                assert(String::less(wanted[j], wanted[i]));
            }
            String::less_irreflexive(k);
        }
        lemma_add_done(list, v.dataplane, j, list.len());
        assert(v.changes()[0] == v.additions()[0]);
        assert(next.dataplane == v.dataplane.insert(k, v.desired[k]));
        if v.dataplane.dom().contains(k) {
            assert(next.dataplane.dom() =~= v.dataplane.dom());
        } else {
            let p = lemma_order_with::<String>(v.dataplane.dom(), k);
            assert(next.dataplane.dom() =~= v.dataplane.dom().insert(k));
            lemma_dels_with(held, v.desired, p, k, held.len() + 1);
        }
        assert(next.changes() =~= v.changes().skip(1));
    } else {
        let j = lemma_first_del(held, v.desired, held.len());
        let k = held[j];
        lemma_del_done(held, v.desired, j, held.len());
        assert(v.changes() =~= v.deletions());
        assert(next.dataplane == v.dataplane.remove(k));
        lemma_order_without::<String>(v.dataplane.dom(), j);
        assert(next.dataplane.dom() =~= v.dataplane.dom().remove(k));
        assert forall|i: int| 0 <= i < list.len() implies current(v.dataplane, #[trigger] list[i])
            == current(next.dataplane, list[i]) by {
            assert(wanted.contains(wanted[i]));
            assert(list[i].0 != k);
        }
        lemma_same_adds(list, v.dataplane, next.dataplane, list.len());
        assert(next.changes() =~= v.changes().skip(1));
    }
}

/// Once the first `n` changes are done, the others are left.
proof fn lemma_changes_done(v: RoutesView, n: nat)
    requires
        listed(v.desired.dom()),
        listed(v.dataplane.dom()),
        n <= v.changes().len(),
    ensures
        v.done_first(v.changes(), n).changes() == v.changes().skip(n as int),
        v.done_first(v.changes(), n).desired == v.desired,
        listed(v.done_first(v.changes(), n).dataplane.dom()),
    decreases n,
{
    let ops = v.changes();
    if n == 0 {
        assert(ops.skip(0) =~= ops);
    } else {
        let m = (n - 1) as nat;
        lemma_changes_done(v, m);
        let prev = v.done_first(ops, m);
        assert(ops.skip(m as int)[0] == ops[m as int]);
        lemma_change_done(prev);
        assert(ops.skip(m as int).skip(1) =~= ops.skip(n as int));
    }
}

/// Wherever a round ends, exactly the changes that it has not dealt with are left to do, in
/// the same order: those before a failure are not made again, and the one that failed and
/// all behind it are. Once it has dealt with all of them nothing is left, and a round that
/// follows without a message in between has no change to make.
pub proof fn law_round_leaves_the_rest(m: RouteManager, round: RouteRound, now: RoutesView)
    requires
        m.wf(),
        round.runs(m.known(), now),
    ensures
        now.desired == m.known().desired,
        now.changes() == m.known().changes().skip(round.at as int),
        round.at == round.ops@.len() ==> now.changes().len() == 0 && now.dataplane == now.desired,
{
    let v = m.known();
    lemma_keys_in_order(m.desired);
    lemma_keys_in_order(m.dataplane);
    assert(v.desired.dom() =~= m.desired.map().dom());
    assert(v.dataplane.dom() =~= m.dataplane.map().dom());
    assert(round.ops.deep_view().len() == round.ops@.len());
    lemma_changes_done(v, round.at as nat);
    law_changes_settle(m);
}

impl RoutesView {
    /// What is known after the first `n` messages.
    pub open spec fn after_first(self, msgs: Seq<ToDataplaneView>, n: nat) -> RoutesView
        decreases n,
    {
        if n == 0 {
            self
        } else {
            self.after_first(msgs, (n - 1) as nat).after(msgs[n - 1])
        }
    }
}

/// Whether a message is about the route to `dst`.
pub open spec fn about_route(msg: ToDataplaneView, dst: Seq<char>) -> bool {
    ||| (msg matches ToDataplaneView::RouteUpdate(u) && u.dst == dst)
    ||| msg == ToDataplaneView::RouteRemove(dst)
}

/// What no message is about stays as it is.
proof fn lemma_other_messages(
    v: RoutesView,
    msgs: Seq<ToDataplaneView>,
    m: nat,
    n: nat,
    dst: Seq<char>,
)
    requires
        m <= n <= msgs.len(),
        forall|i: int| m <= i < n ==> !about_route(#[trigger] msgs[i], dst),
    ensures
        v.after_first(msgs, n).desired.dom().contains(dst) == v.after_first(
            msgs,
            m,
        ).desired.dom().contains(dst),
        v.after_first(msgs, n).desired[dst] == v.after_first(msgs, m).desired[dst],
        v.after_first(msgs, n).dataplane == v.after_first(msgs, m).dataplane,
    decreases n,
{
    if m < n {
        lemma_other_messages(v, msgs, m, (n - 1) as nat, dst);
        assert(!about_route(msgs[n - 1], dst));
    }
}

/// Messages never touch what has been programmed.
proof fn lemma_messages_keep_dataplane(v: RoutesView, msgs: Seq<ToDataplaneView>, n: nat)
    ensures
        v.after_first(msgs, n).dataplane == v.dataplane,
    decreases n,
{
    if n > 0 {
        lemma_messages_keep_dataplane(v, msgs, (n - 1) as nat);
    }
}

/// The wanted route to a destination is what the last update of it says: its next hop is the
/// gateway of that message, its owner the node that the message names, its kind the kind of
/// the message. Messages about other destinations do not touch it, and no message touches
/// what has been programmed.
pub proof fn law_last_route_update_prevails(v: RoutesView, msgs: Seq<ToDataplaneView>, i: int)
    requires
        0 <= i < msgs.len(),
        msgs[i] is RouteUpdate,
        forall|j: int|
            i < j < msgs.len() ==> !about_route(#[trigger] msgs[j], msgs[i]->RouteUpdate_0.dst),
    ensures
        ({
            let u = msgs[i]->RouteUpdate_0;
            let end = v.after_first(msgs, msgs.len());
            &&& end.desired.dom().contains(u.dst)
            &&& end.desired[u.dst].gateway == u.gateway
            &&& end.desired[u.dst].dst_node_name == u.dst_node_name
            &&& end.desired[u.dst].route_type == u.route_type
            &&& end.dataplane == v.dataplane
        }),
{
    let u = msgs[i]->RouteUpdate_0;
    lemma_other_messages(v, msgs, (i + 1) as nat, msgs.len(), u.dst);
    lemma_messages_keep_dataplane(v, msgs, msgs.len());
    assert(v.after_first(msgs, (i + 1) as nat) == v.after_first(msgs, i as nat).after(msgs[i]));
}

/// A destination that was removed last is not wanted, whatever came before.
pub proof fn law_removed_route_is_not_wanted(
    v: RoutesView,
    msgs: Seq<ToDataplaneView>,
    i: int,
    dst: Seq<char>,
)
    requires
        0 <= i < msgs.len(),
        msgs[i] == ToDataplaneView::RouteRemove(dst),
        forall|j: int| i < j < msgs.len() ==> !about_route(#[trigger] msgs[j], dst),
    ensures
        !v.after_first(msgs, msgs.len()).desired.dom().contains(dst),
        v.after_first(msgs, msgs.len()).dataplane == v.dataplane,
{
    lemma_other_messages(v, msgs, (i + 1) as nat, msgs.len(), dst);
    lemma_messages_keep_dataplane(v, msgs, msgs.len());
    assert(v.after_first(msgs, (i + 1) as nat) == v.after_first(msgs, i as nat).after(msgs[i]));
}

/// A destination that no message is about stays as it was.
pub proof fn law_other_routes_stay(v: RoutesView, msgs: Seq<ToDataplaneView>, dst: Seq<char>)
    requires
        forall|j: int| 0 <= j < msgs.len() ==> !about_route(#[trigger] msgs[j], dst),
    ensures
        v.after_first(msgs, msgs.len()).desired.dom().contains(dst) == v.desired.dom().contains(
            dst,
        ),
        v.desired.dom().contains(dst) ==> v.after_first(msgs, msgs.len()).desired[dst]
            == v.desired[dst],
{
    lemma_other_messages(v, msgs, 0, msgs.len(), dst);
}

/// What the additions among the first `n` routes are.
proof fn lemma_adds_exact(
    list: Seq<(Seq<char>, RouteValueView)>,
    have: Map<Seq<char>, RouteValueView>,
    n: nat,
    op: RouteOpView,
)
    requires
        n <= list.len(),
    ensures
        adds_first(list, have, n).contains(op) <==> exists|j: int|
            0 <= j < n && !current(have, #[trigger] list[j]) && op == (RouteOpView::Add {
                dst: list[j].0,
                value: list[j].1,
            }),
    decreases n,
{
    if n > 0 {
        let m = (n - 1) as nat;
        lemma_adds_exact(list, have, m, op);
        let head = adds_first(list, have, m);
        let all = adds_first(list, have, n);
        if all.contains(op) {
            let i = all.index_of(op);
            if i < head.len() {
                assert(head[i] == op);
                assert(head.contains(op));
                let j = choose|j: int|
                    0 <= j < m && !current(have, #[trigger] list[j]) && op == (RouteOpView::Add {
                        dst: list[j].0,
                        value: list[j].1,
                    });
                assert(0 <= j < n && !current(have, list[j]));
            } else {
                assert(!current(have, list[n - 1]));
            }
        }
        if exists|j: int|
            0 <= j < n && !current(have, #[trigger] list[j]) && op == (RouteOpView::Add {
                dst: list[j].0,
                value: list[j].1,
            }) {
            let j = choose|j: int|
                0 <= j < n && !current(have, #[trigger] list[j]) && op == (RouteOpView::Add {
                    dst: list[j].0,
                    value: list[j].1,
                });
            if j < m {
                assert(head.contains(op));
                let i = head.index_of(op);
                assert(all[i] == op);
            } else {
                assert(all[head.len() as int] == op);
            }
        }
    }
}

/// What the deletions among the first `n` routes are.
proof fn lemma_dels_exact(
    keys: Seq<Seq<char>>,
    want: Map<Seq<char>, RouteValueView>,
    n: nat,
    op: RouteOpView,
)
    requires
        n <= keys.len(),
    ensures
        dels_first(keys, want, n).contains(op) <==> exists|j: int|
            0 <= j < n && !want.dom().contains(#[trigger] keys[j]) && op == (RouteOpView::Delete {
                dst: keys[j],
            }),
    decreases n,
{
    if n > 0 {
        let m = (n - 1) as nat;
        lemma_dels_exact(keys, want, m, op);
        let head = dels_first(keys, want, m);
        let all = dels_first(keys, want, n);
        if all.contains(op) {
            let i = all.index_of(op);
            if i < head.len() {
                assert(head[i] == op);
                assert(head.contains(op));
                let j = choose|j: int|
                    0 <= j < m && !want.dom().contains(#[trigger] keys[j]) && op
                        == (RouteOpView::Delete { dst: keys[j] });
                assert(0 <= j < n && !want.dom().contains(keys[j]));
            } else {
                assert(!want.dom().contains(keys[n - 1]));
            }
        }
        if exists|j: int|
            0 <= j < n && !want.dom().contains(#[trigger] keys[j]) && op == (RouteOpView::Delete {
                dst: keys[j],
            }) {
            let j = choose|j: int|
                0 <= j < n && !want.dom().contains(#[trigger] keys[j]) && op
                    == (RouteOpView::Delete { dst: keys[j] });
            if j < m {
                assert(head.contains(op));
                let i = head.index_of(op);
                assert(all[i] == op);
            } else {
                assert(all[head.len() as int] == op);
            }
        }
    }
}

/// What is left to do is exactly what differs: a route is added with the wanted value where
/// it is not programmed with that value, and deleted where it is programmed and not wanted.
/// Nothing else is programmed, and no route is both added and deleted.
pub proof fn law_changes_are_the_difference(m: RouteManager, op: RouteOpView)
    requires
        m.wf(),
    ensures
        ({
            let v = m.known();
            v.changes().contains(op) <==> match op {
                RouteOpView::Add { dst, value } => v.desired.dom().contains(dst) && v.desired[dst]
                    == value && !(v.dataplane.dom().contains(dst) && v.dataplane[dst] == value),
                RouteOpView::Delete { dst } => v.dataplane.dom().contains(dst)
                    && !v.desired.dom().contains(dst),
            }
        }),
{
    let v = m.known();
    lemma_keys_in_order(m.desired);
    lemma_keys_in_order(m.dataplane);
    assert(v.desired.dom() =~= m.desired.map().dom());
    assert(v.dataplane.dom() =~= m.dataplane.map().dom());
    let list = listing::<String, RouteValueView>(v.desired);
    let wanted = in_order::<String>(v.desired.dom());
    let held = in_order::<String>(v.dataplane.dom());
    lemma_adds_exact(list, v.dataplane, list.len(), op);
    lemma_dels_exact(held, v.desired, held.len(), op);
    let a = v.additions();
    let d = v.deletions();
    let all = v.changes();
    if all.contains(op) {
        let i = all.index_of(op);
        if i < a.len() {
            assert(a[i] == op);
            assert(a.contains(op));
            let j = choose|j: int|
                0 <= j < list.len() && !current(v.dataplane, #[trigger] list[j]) && op
                    == (RouteOpView::Add { dst: list[j].0, value: list[j].1 });
            assert(wanted.contains(wanted[j]));
        } else {
            assert(d[i - a.len()] == op);
            assert(d.contains(op));
            let j = choose|j: int|
                0 <= j < held.len() && !v.desired.dom().contains(#[trigger] held[j]) && op
                    == (RouteOpView::Delete { dst: held[j] });
            assert(held.contains(held[j]));
        }
    }
    match op {
        RouteOpView::Add { dst, value } => {
            if v.desired.dom().contains(dst) && v.desired[dst] == value && !(
            v.dataplane.dom().contains(dst) && v.dataplane[dst] == value) {
                assert(wanted.contains(dst));
                let j = wanted.index_of(dst);
                assert(list[j] == (dst, value));
                assert(!current(v.dataplane, list[j]));
                let i = a.index_of(op);
                assert(all[i] == op);
            }
        },
        RouteOpView::Delete { dst } => {
            if v.dataplane.dom().contains(dst) && !v.desired.dom().contains(dst) {
                assert(held.contains(dst));
                let j = held.index_of(dst);
                assert(held[j] == dst);
                let i = d.index_of(op);
                assert(all[a.len() + i] == op);
            }
        },
    }
}

/// All additions come before all deletions.
pub proof fn law_additions_come_first(v: RoutesView, i: int, j: int)
    requires
        0 <= i < j < v.changes().len(),
        v.changes()[i] is Delete,
    ensures
        v.changes()[j] is Delete,
{
    let list = listing::<String, RouteValueView>(v.desired);
    let held = in_order::<String>(v.dataplane.dom());
    lemma_only_adds(list, v.dataplane, list.len());
    lemma_only_dels(held, v.desired, held.len());
    let a = v.additions();
    if j < a.len() {
        assert(a[i] is Add);
    } else {
        assert(v.deletions()[j - a.len()] is Delete);
    }
}

/// The additions add.
proof fn lemma_only_adds(
    list: Seq<(Seq<char>, RouteValueView)>,
    have: Map<Seq<char>, RouteValueView>,
    n: nat,
)
    ensures
        forall|i: int|
            0 <= i < adds_first(list, have, n).len() ==> (#[trigger] adds_first(list, have, n)[i])
                is Add,
    decreases n,
{
    if n > 0 {
        lemma_only_adds(list, have, (n - 1) as nat);
    }
}

/// The deletions delete.
proof fn lemma_only_dels(
    keys: Seq<Seq<char>>,
    want: Map<Seq<char>, RouteValueView>,
    n: nat,
)
    ensures
        forall|i: int|
            0 <= i < dels_first(keys, want, n).len() ==> (#[trigger] dels_first(keys, want, n)[i])
                is Delete,
    decreases n,
{
    if n > 0 {
        lemma_only_dels(keys, want, (n - 1) as nat);
    }
}

/// A destination whose route was made or deleted is in step afterwards, and no other route
/// is touched.
pub proof fn law_confirmation_is_local(v: RoutesView, dst: Seq<char>, other: Seq<char>)
    requires
        other != dst,
    ensures
        v.confirmed(dst).desired == v.desired,
        v.confirmed(dst).dataplane.dom().contains(dst) == v.desired.dom().contains(dst),
        v.desired.dom().contains(dst) ==> v.confirmed(dst).dataplane[dst] == v.desired[dst],
        v.confirmed(dst).dataplane.dom().contains(other) == v.dataplane.dom().contains(other),
        v.confirmed(dst).dataplane[other] == v.dataplane[other],
{
}

/// The address and the prefix length of a destination stand around its first slash: put
/// together again they are the destination, and the address holds no slash.
pub proof fn law_destination_is_split_at_its_slash(s: Seq<char>)
    ensures
        !address_part(s).contains('/'),
        match prefix_part(s) {
            Some(p) => s == address_part(s) + seq!['/'] + p,
            None => s == address_part(s),
        },
{
    lemma_slash_from(s, 0);
    lemma_slash_at(s, 0);
    let k = slash_from(s, 0);
    if k < s.len() {
        assert(s =~= s.take(k) + seq!['/'] + s.skip(k + 1));
    } else {
        assert(s.take(k) =~= s);
    }
}

/// What stands at and before the first slash.
proof fn lemma_slash_at(s: Seq<char>, i: int)
    requires
        0 <= i <= s.len(),
    ensures
        slash_from(s, i) < s.len() ==> s[slash_from(s, i)] == '/',
        forall|j: int| i <= j < slash_from(s, i) && j < s.len() ==> #[trigger] s[j] != '/',
    decreases s.len() - i,
{
    if i < s.len() && s[i] != '/' {
        lemma_slash_at(s, i + 1);
    }
}

} // verus!
