//! IP sets as nftables named sets, programmed by difference.
//!
//! Each IP set keeps the members that are wanted and those that have been programmed. One
//! document brings the kernel from the latter to the former; where nothing differs there
//! is no document.

use crate::dataplane::{DataplaneError, Manager};
use crate::delta::{
    insert_all, key_list, law_no_delta_means_equal, remove_all, set_of, SetDeltaTracker,
};
use crate::digest::{base64_of, base64_url, sha256, sha256_of};
use crate::messages::{IpSetId, IpSetKind, ToDataplane, ToDataplaneView};
use crate::ordmap::{lemma_entry, lemma_keys_in_order, OrdMap};
use crate::seqs::{concat_all, concat_first, doc_of, lemma_concat_all, lemma_concat_contains, Document};
use crate::text::{has_prefix, join, join_spec, lemma_not_prefix, str_eq, views};
use vstd::prelude::*;
use vstd::utf8::encode_utf8;

verus! {

broadcast use crate::text::lemma_views_push;

/// The family of the table that holds the sets and the policy chains.
pub const TABLE_FAMILY: &'static str = "inet";

/// The name of the table that holds the sets and the policy chains.
pub const TABLE_NAME: &'static str = "calico";

/// The family and the name of the table.
pub open spec fn table_at() -> Seq<char> {
    TABLE_FAMILY@ + " "@ + TABLE_NAME@
}

/// The family and the name of the table.
pub(crate) fn table_ref() -> (r: String)
    ensures
        r@ == table_at(),
{
    let mut s = TABLE_FAMILY.to_owned();
    s.push_str(" ");
    s.push_str(TABLE_NAME);
    s
}

/// The set name that belongs to the SHA-256 digest of a set's identity: a fixed prefix and
/// the base64 text of the first twelve bytes.
pub open spec fn name_of_digest(digest: Seq<u8>) -> Seq<char> {
    "cali40"@ + base64_of(digest.take(12))
}

/// The name of the set with the given identity.
pub open spec fn set_name(id: Seq<char>) -> Seq<char> {
    name_of_digest(sha256_of(encode_utf8(id)))
}

/// The set name that belongs to the SHA-256 digest of a set's identity.
pub fn set_name_for_digest(digest: &[u8]) -> (r: String)
    requires
        digest@.len() >= 12,
    ensures
        r@ == name_of_digest(digest@),
{
    let mut first: Vec<u8> = Vec::new();
    for i in 0..12usize
        invariant
            digest@.len() >= 12,
            first@ == digest@.take(i as int),
    {
        first.push(digest[i]);
        assert(first@ =~= digest@.take(i + 1));
    }
    let mut s = "cali40".to_owned();
    s.push_str(base64_url(first.as_slice()).as_str());
    s
}

/// The name of the set with the given identity. It depends on the identity alone, so
/// whoever refers to the set computes the same name.
pub fn set_name_for(ip_set_id: &str) -> (r: String)
    ensures
        r@ == set_name(ip_set_id@),
{
    let digest = sha256(ip_set_id.as_bytes());
    set_name_for_digest(digest.as_slice())
}

/// Every set name is the prefix and sixteen characters that nft accepts in a name.
pub proof fn law_set_name_shape(digest: Seq<u8>)
    requires
        digest.len() == 32,
    ensures
        name_of_digest(digest).len() == 22,
        forall|i: int|
            6 <= i < 22 ==> {
                let c = #[trigger] name_of_digest(digest)[i];
                crate::text::is_alnum(c) || c == '-' || c == '_'
            },
{
    reveal_strlit("cali40");
    let d = digest.take(12);
    assert(d.len() == 12);
    assert(base64_of(d).len() == 16);
    assert forall|i: int| 6 <= i < 22 implies {
        let c = #[trigger] name_of_digest(digest)[i];
        crate::text::is_alnum(c) || c == '-' || c == '_'
    } by {
        let v = crate::digest::six_bits(d, i - 6);
        assert(name_of_digest(digest)[i] == crate::digest::base64_char(v));
    }
}

/// The type declaration of a set.
pub open spec fn type_decl(kind: IpSetKind) -> Seq<char> {
    match kind {
        IpSetKind::Ip => "type ipv4_addr"@,
        IpSetKind::Net => "type ipv4_addr; flags interval"@,
        IpSetKind::IpAndPort => "type ipv4_addr . inet_service"@,
    }
}

/// The type declaration of a set.
pub fn set_type_decl(kind: IpSetKind) -> (r: &'static str)
    ensures
        r@ == type_decl(kind),
{
    match kind {
        IpSetKind::Ip => "type ipv4_addr",
        IpSetKind::Net => "type ipv4_addr; flags interval",
        IpSetKind::IpAndPort => "type ipv4_addr . inet_service",
    }
}

/// The statement that creates a set if it is not there.
pub open spec fn add_set_line(id: Seq<char>, kind: IpSetKind) -> Seq<char> {
    "add set "@ + table_at() + " "@ + set_name(id) + " { "@ + type_decl(kind) + "; }"@
}

/// A statement on members of a set; `verb` is `add element ` or `delete element `.
pub open spec fn element_line(verb: Seq<char>, id: Seq<char>, members: Seq<Seq<char>>) -> Seq<char> {
    verb + table_at() + " "@ + set_name(id) + " { "@ + join_spec(members, ", "@) + " }"@
}

/// The statement that creates a set if it is not there.
pub(crate) fn render_add_set(id: &str, kind: IpSetKind) -> (r: String)
    ensures
        r@ == add_set_line(id@, kind),
{
    let mut s = "add set ".to_owned();
    s.push_str(table_ref().as_str());
    s.push_str(" ");
    s.push_str(set_name_for(id).as_str());
    s.push_str(" { ");
    s.push_str(set_type_decl(kind));
    s.push_str("; }");
    s
}

/// A statement on members of a set.
pub(crate) fn render_elements(verb: &str, id: &str, members: &Vec<String>) -> (r: String)
    ensures
        r@ == element_line(verb@, id@, views(members@)),
{
    let mut s = verb.to_owned();
    s.push_str(table_ref().as_str());
    s.push_str(" ");
    s.push_str(set_name_for(id).as_str());
    s.push_str(" { ");
    s.push_str(join(members, ", ").as_str());
    s.push_str(" }");
    s
}

/// One IP set: its kind, its members on both sides, and whether the kernel has it.
pub struct SetState {
    /// What its members are.
    pub kind: IpSetKind,
    /// The wanted and the programmed members.
    pub tracker: SetDeltaTracker,
    /// Whether the set has been created in the kernel.
    pub programmed: bool,
}

/// The mathematical content of a [`SetState`].
#[verifier::ext_equal]
pub struct SetStateView {
    pub kind: IpSetKind,
    pub desired: Set<Seq<char>>,
    pub dataplane: Set<Seq<char>>,
    pub programmed: bool,
}

impl SetStateView {
    /// A set that the kernel does not have yet.
    pub open spec fn fresh(kind: IpSetKind) -> SetStateView {
        SetStateView { kind, desired: Set::empty(), dataplane: Set::empty(), programmed: false }
    }

    /// Whether the kernel has to be told something of this set.
    pub open spec fn pending(self) -> bool {
        !self.programmed || self.desired != self.dataplane
    }
}

impl SetState {
    /// The mathematical content.
    pub open spec fn content(&self) -> SetStateView {
        SetStateView {
            kind: self.kind,
            desired: self.tracker.desired_set(),
            dataplane: self.tracker.dataplane_set(),
            programmed: self.programmed,
        }
    }

    /// A set that the kernel does not have yet.
    pub fn new(kind: IpSetKind) -> (r: Self)
        ensures
            r.tracker.wf(),
            r.content() == SetStateView::fresh(kind),
    {
        SetState { kind, tracker: SetDeltaTracker::new(), programmed: false }
    }

    /// The statements that bring this set up to date: none where it is.
    pub open spec fn delta_lines(&self, id: Seq<char>) -> Seq<Seq<char>> {
        let adds = self.tracker.additions();
        let dels = self.tracker.removals();
        if adds.len() == 0 && dels.len() == 0 && self.programmed {
            Seq::empty()
        } else {
            seq![add_set_line(id, self.kind)] + (if adds.len() == 0 {
                Seq::empty()
            } else {
                seq![element_line("add element "@, id, adds)]
            }) + (if dels.len() == 0 {
                Seq::empty()
            } else {
                seq![element_line("delete element "@, id, dels)]
            })
        }
    }
}

/// The contents of a map of sets.
pub open spec fn contents(m: Map<Seq<char>, SetState>) -> Map<Seq<char>, SetStateView> {
    Map::new(|k: Seq<char>| m.dom().contains(k), |k: Seq<char>| m[k].content())
}

/// Whether every set of a map is well-formed.
pub open spec fn all_wf(m: Map<Seq<char>, SetState>) -> bool {
    forall|k: Seq<char>| #[trigger] m.dom().contains(k) ==> m[k].tracker.wf()
}

/// What an [`IpSetManager`] knows.
#[verifier::ext_equal]
pub struct IpSetsView {
    /// The sets that are wanted.
    pub sets: Map<Seq<char>, SetStateView>,
    /// The sets that the kernel still has and that are not wanted any more.
    pub removed: Map<Seq<char>, SetStateView>,
}

impl IpSetsView {
    /// What is known of a set at a (re)definition: a set that awaits its deletion comes
    /// back with what the kernel holds of it.
    pub open spec fn known(self, id: Seq<char>, kind: IpSetKind) -> SetStateView {
        if self.removed.dom().contains(id) {
            self.removed[id]
        } else if self.sets.dom().contains(id) {
            self.sets[id]
        } else {
            SetStateView::fresh(kind)
        }
    }

    /// What is known after a message.
    pub open spec fn after(self, msg: ToDataplaneView) -> IpSetsView {
        match msg {
            ToDataplaneView::IpSetUpdate(u) => IpSetsView {
                sets: self.sets.insert(
                    u.id,
                    SetStateView {
                        kind: u.kind,
                        desired: u.members.to_set(),
                        ..self.known(u.id, u.kind)
                    },
                ),
                removed: self.removed.remove(u.id),
            },
            ToDataplaneView::IpSetDeltaUpdate(u) => {
                let known = self.known(u.id, IpSetKind::Ip);
                IpSetsView {
                    sets: self.sets.insert(
                        u.id,
                        SetStateView {
                            desired: known.desired.union(u.added_members.to_set()).difference(
                                u.removed_members.to_set(),
                            ),
                            ..known
                        },
                    ),
                    removed: self.removed.remove(u.id),
                }
            },
            ToDataplaneView::IpSetRemove(id) => if !self.sets.dom().contains(id) {
                self
            } else {
                IpSetsView {
                    sets: self.sets.remove(id),
                    removed: if self.sets[id].programmed {
                        self.removed.insert(id, self.sets[id])
                    } else {
                        self.removed
                    },
                }
            },
            _ => self,
        }
    }

    /// Whether the kernel has to be told something.
    pub open spec fn pending(self) -> bool {
        ||| exists|id: Seq<char>| #[trigger]
            self.removed.dom().contains(id)
        ||| exists|id: Seq<char>| #[trigger] self.sets.dom().contains(id) && self.sets[id].pending()
    }

    /// What is known once the kernel has taken the document, of which the sets `touched`
    /// were created.
    pub open spec fn committed(self, touched: Set<Seq<char>>) -> IpSetsView {
        IpSetsView {
            sets: Map::new(
                |id: Seq<char>| self.sets.dom().contains(id),
                |id: Seq<char>|
                    SetStateView {
                        kind: self.sets[id].kind,
                        desired: self.sets[id].desired,
                        dataplane: self.sets[id].desired,
                        programmed: self.sets[id].programmed || touched.contains(id),
                    },
            ),
            removed: Map::empty(),
        }
    }

    /// The sets that the kernel has to be told something of.
    pub open spec fn touched(self) -> Set<Seq<char>> {
        Set::new(|id: Seq<char>| self.sets.dom().contains(id) && self.sets[id].pending())
    }

    /// Only a set that the kernel has awaits its deletion, and no set is both wanted and
    /// awaiting deletion.
    pub open spec fn consistent(self) -> bool {
        forall|id: Seq<char>| #[trigger]
            self.removed.dom().contains(id) ==> self.removed[id].programmed
                && !self.sets.dom().contains(id)
    }
}

/// The views of a list of strings make the same set as the strings.
pub(crate) proof fn lemma_set_of_views(v: Vec<String>)
    ensures
        set_of(v@) == v.deep_view().to_set(),
{
    let a = set_of(v@);
    let b = v.deep_view().to_set();
    assert forall|x: Seq<char>| a.contains(x) <==> b.contains(x) by {
        if a.contains(x) {
            let i = choose|i: int| 0 <= i < v@.len() && (#[trigger] v@[i])@ == x;
            assert(v.deep_view()[i] == x);
        }
        if b.contains(x) {
            let i = v.deep_view().index_of(x);
            assert(v.deep_view()[i] == x);
            assert(v@[i]@ == x);
        }
    }
    assert(a =~= b);
}

/// Keeps the nftables named sets in step with the IP sets.
pub struct IpSetManager {
    /// The wanted sets.
    pub sets: OrdMap<String, SetState>,
    /// The sets that await their deletion.
    pub removed: OrdMap<String, SetState>,
}

/// The blocks of statements of a list of sets.
pub open spec fn delta_blocks(entries: Seq<(String, SetState)>) -> Seq<Seq<Seq<char>>> {
    Seq::new(entries.len(), |i: int| entries[i].1.delta_lines(entries[i].0@))
}

/// The identities of those of the first `n` sets that have statements.
pub open spec fn touched_first(entries: Seq<(String, SetState)>, n: nat) -> Seq<Seq<char>>
    decreases n,
{
    if n == 0 {
        Seq::empty()
    } else {
        let head = touched_first(entries, (n - 1) as nat);
        if entries[n - 1].1.delta_lines(entries[n - 1].0@).len() == 0 {
            head
        } else {
            head.push(entries[n - 1].0@)
        }
    }
}

/// The statements that delete sets.
pub open spec fn delete_set_lines(ids: Seq<Seq<char>>) -> Seq<Seq<char>> {
    Seq::new(ids.len(), |i: int| "delete set "@ + table_at() + " "@ + set_name(ids[i]))
}

impl IpSetManager {
    /// Both maps and all their sets are well-formed.
    pub open spec fn wf(&self) -> bool {
        &&& self.sets.wf()
        &&& self.removed.wf()
        &&& all_wf(self.sets.map())
        &&& all_wf(self.removed.map())
        &&& self.known().consistent()
    }

    /// What the manager knows.
    pub open spec fn known(&self) -> IpSetsView {
        IpSetsView { sets: contents(self.sets.map()), removed: contents(self.removed.map()) }
    }

    /// The lines of the document that brings the kernel up to date: the table, the sets
    /// with their differences, and last the deletions.
    pub open spec fn delta_doc(&self) -> Seq<Seq<char>> {
        seq!["add table "@ + table_at()] + concat_all(delta_blocks(self.sets.entries@))
            + delete_set_lines(key_list(self.removed))
    }

    /// A manager that knows of no set.
    pub fn new() -> (r: Self)
        ensures
            r.wf(),
            r.known() == (IpSetsView { sets: Map::empty(), removed: Map::empty() }),
            r.sets.entries@.len() == 0,
            r.removed.entries@.len() == 0,
            !r.known().pending(),
    {
        let r = IpSetManager { sets: OrdMap::new(), removed: OrdMap::new() };
        assert(r.known() =~= (IpSetsView { sets: Map::empty(), removed: Map::empty() }));
        r
    }

    /// The number of wanted sets.
    pub fn desired_len(&self) -> (r: usize)
        ensures
            r == self.sets.entries@.len(),
    {
        self.sets.len()
    }

    /// The number of members to add to a set; none where the set is not wanted.
    pub fn pending_additions(&self, id: &str) -> (r: Option<usize>)
        requires
            self.wf(),
        ensures
            r is Some <==> self.known().sets.dom().contains(id@),
            r matches Some(n) ==> n == self.sets.map()[id@].tracker.additions().len(),
    {
        let key = id.to_owned();
        match self.sets.find(&key) {
            Some(i) => {
                let v = self.sets.entries[i].1.tracker.pending_additions();
                assert(views(v@).len() == v@.len());
                Some(v.len())
            },
            None => None,
        }
    }

    /// The number of members to take out of a set; none where the set is not wanted.
    pub fn pending_removals(&self, id: &str) -> (r: Option<usize>)
        requires
            self.wf(),
        ensures
            r is Some <==> self.known().sets.dom().contains(id@),
            r matches Some(n) ==> n == self.sets.map()[id@].tracker.removals().len(),
    {
        let key = id.to_owned();
        match self.sets.find(&key) {
            Some(i) => {
                let v = self.sets.entries[i].1.tracker.pending_removals();
                assert(views(v@).len() == v@.len());
                Some(v.len())
            },
            None => None,
        }
    }

    /// The number of members to add or to take out of the first `n` sets.
    pub open spec fn pending_first(&self, n: nat) -> nat
        decreases n,
    {
        if n == 0 {
            0
        } else {
            let t = self.sets.entries@[n - 1].1.tracker;
            self.pending_first((n - 1) as nat) + t.additions().len() + t.removals().len()
        }
    }

    /// The number of members to add or to take out, and of sets to delete.
    pub open spec fn pending_total(&self) -> nat {
        self.pending_first(self.sets.entries@.len()) + self.removed.entries@.len()
    }

    /// A part is not larger than the whole.
    proof fn lemma_pending_grows(&self, m: nat, n: nat)
        requires
            m <= n,
        ensures
            self.pending_first(m) <= self.pending_first(n),
        decreases n,
    {
        if m < n {
            self.lemma_pending_grows(m, (n - 1) as nat);
        }
    }

    /// The number of members to add or to take out, and of sets to delete.
    pub fn pending_count(&self) -> (r: usize)
        requires
            self.wf(),
            self.pending_total() <= usize::MAX,
        ensures
            r == self.pending_total(),
    {
        let mut n: usize = 0;
        for i in 0..self.sets.entries.len()
            invariant
                self.wf(),
                self.pending_total() <= usize::MAX,
                n == self.pending_first(i as nat),
        {
            proof {
                lemma_entry(self.sets.entries@, i as int);
                self.lemma_pending_grows((i + 1) as nat, self.sets.entries@.len());
            }
            let t = &self.sets.entries[i].1.tracker;
            let a = t.pending_additions();
            let b = t.pending_removals();
            assert(views(a@).len() == a@.len());
            assert(views(b@).len() == b@.len());
            n = n + a.len() + b.len();
        }
        n + self.removed.len()
    }

    /// The document that brings the kernel up to date, with the sets that it creates or
    /// changes; none where the kernel is up to date.
    pub fn render_delta_doc(&self) -> (r: Option<(String, Vec<IpSetId>)>)
        requires
            self.wf(),
        ensures
            r is Some <==> self.known().pending(),
            r matches Some(p) ==> p.0@ == doc_of(self.delta_doc()),
            r matches Some(p) ==> views(p.1@) == touched_first(
                self.sets.entries@,
                self.sets.entries@.len(),
            ),
            r matches Some(p) ==> set_of(p.1@) == self.known().touched(),
    {
        let mut doc = Document::new();
        let mut add_table = "add table ".to_owned();
        add_table.push_str(table_ref().as_str());
        doc.line(add_table.as_str());
        let ghost l0 = doc.lines();
        assert(l0 =~= seq!["add table "@ + table_at()]);
        assert(l0 + Seq::<Seq<char>>::empty() =~= l0);
        let mut touched: Vec<IpSetId> = Vec::new();
        let ghost entries = self.sets.entries@;
        for i in 0..self.sets.entries.len()
            invariant
                self.wf(),
                doc.wf(),
                entries == self.sets.entries@,
                doc.lines() == l0 + concat_first(delta_blocks(entries), i as nat),
                views(touched@) == touched_first(entries, i as nat),
        {
            proof {
                lemma_entry(entries, i as int);
            }
            let ghost before = doc.lines();
            let id = &self.sets.entries[i].0;
            let state = &self.sets.entries[i].1;
            let ghost block = state.delta_lines(id@);
            let adds = state.tracker.pending_additions();
            let dels = state.tracker.pending_removals();
            assert(views(adds@).len() == adds@.len());
            assert(views(dels@).len() == dels@.len());
            if adds.len() > 0 || dels.len() > 0 || !state.programmed {
                touched.push(id.clone());
                doc.line(render_add_set(id.as_str(), state.kind).as_str());
                if adds.len() > 0 {
                    doc.line(render_elements("add element ", id.as_str(), &adds).as_str());
                }
                if dels.len() > 0 {
                    doc.line(render_elements("delete element ", id.as_str(), &dels).as_str());
                }
            }
            assert(doc.lines() =~= before + block);
            assert(doc.lines() =~= l0 + concat_first(delta_blocks(entries), (i + 1) as nat));
        }
        let ghost l1 = doc.lines();
        let ghost gone = delete_set_lines(key_list(self.removed));
        assert(l1 + gone.take(0) =~= l1);
        for i in 0..self.removed.entries.len()
            invariant
                doc.wf(),
                gone == delete_set_lines(key_list(self.removed)),
                doc.lines() == l1 + gone.take(i as int),
        {
            let mut s = "delete set ".to_owned();
            s.push_str(table_ref().as_str());
            s.push_str(" ");
            s.push_str(set_name_for(self.removed.entries[i].0.as_str()).as_str());
            doc.line(s.as_str());
            assert(doc.lines() =~= l1 + gone.take(i + 1));
        }
        assert(doc.lines() =~= self.delta_doc());
        proof {
            self.lemma_touched(touched@);
        }
        if touched.len() == 0 && self.removed.is_empty() {
            return None;
        }
        Some((doc.finish(), touched))
    }

    /// What the list of touched sets says of the manager.
    proof fn lemma_touched(&self, touched: Seq<String>)
        requires
            self.wf(),
            views(touched) == touched_first(self.sets.entries@, self.sets.entries@.len()),
        ensures
            set_of(touched) == self.known().touched(),
            self.known().pending() <==> touched.len() > 0 || self.removed.entries@.len() > 0,
    {
        let entries = self.sets.entries@;
        let n = entries.len();
        let known = self.known();
        let a = set_of(touched);
        let b = known.touched();
        assert(views(touched).len() == touched.len());
        assert forall|id: Seq<char>| a.contains(id) <==> b.contains(id) by {
            self.lemma_touched_first(n, id);
            if a.contains(id) {
                let i = choose|i: int| 0 <= i < touched.len() && (#[trigger] touched[i])@ == id;
                assert(views(touched)[i] == id);
                assert(touched_first(entries, n).contains(id));
            }
            if b.contains(id) {
                let i = crate::ordmap::key_index(entries, id);
                assert(entries[i].0.deep_view() == id);
                let j = touched_first(entries, n).index_of(id);
                assert(views(touched)[j] == id);
                assert(touched[j]@ == id);
            }
        }
        assert(a =~= b);
        if touched.len() > 0 {
            assert(a.contains(touched[0]@));
            assert(b.contains(touched[0]@));
        }
        if self.removed.entries@.len() > 0 {
            lemma_entry(self.removed.entries@, 0);
            assert(known.removed.dom().contains(self.removed.entries@[0].0@));
        }
        if known.pending() {
            if exists|id: Seq<char>| #[trigger] known.removed.dom().contains(id) {
                let id = choose|id: Seq<char>| #[trigger] known.removed.dom().contains(id);
                let i = crate::ordmap::key_index(self.removed.entries@, id);
                assert(self.removed.entries@[i].0.deep_view() == id);
            } else {
                let id = choose|id: Seq<char>| #[trigger]
                    known.sets.dom().contains(id) && known.sets[id].pending();
                assert(b.contains(id));
                assert(a.contains(id));
            }
        }
    }

    /// A set is listed as touched exactly where it is wanted and pending.
    proof fn lemma_touched_first(&self, n: nat, id: Seq<char>)
        requires
            self.wf(),
            n <= self.sets.entries@.len(),
        ensures
            touched_first(self.sets.entries@, n).contains(id) <==> exists|i: int|
                0 <= i < n && (#[trigger] self.sets.entries@[i]).0@ == id
                    && self.known().sets[id].pending(),
            touched_first(self.sets.entries@, n).contains(id) ==> self.known().touched().contains(id),
        decreases n,
    {
        let entries = self.sets.entries@;
        if n > 0 {
            let m = (n - 1) as nat;
            self.lemma_touched_first(m, id);
            lemma_entry(entries, n - 1);
            law_no_delta_means_equal(entries[n - 1].1.tracker);
            let head = touched_first(entries, m);
            let k = entries[n - 1].0@;
            let hit = entries[n - 1].1.delta_lines(k).len() > 0;
            assert(hit <==> entries[n - 1].1.content().pending());
            assert(self.known().sets[k] == entries[n - 1].1.content());
            if hit {
                let all = head.push(k);
                assert(all.contains(id) <==> head.contains(id) || id == k) by {
                    if all.contains(id) {
                        let i = all.index_of(id);
                        if i < head.len() {
                            assert(head[i] == id);
                        }
                    }
                    if head.contains(id) {
                        let i = head.index_of(id);
                        assert(all[i] == id);
                    }
                    assert(all[head.len() as int] == k);
                }
            }
        }
    }

    /// Takes in what became of the document of [`IpSetManager::render_delta_doc`], which
    /// created or changed the sets `touched`. A failure leaves everything as it was, so
    /// that the same document is tried again.
    pub fn complete_deferred_work(
        &mut self,
        touched: &Vec<IpSetId>,
        outcome: Result<(), String>,
    ) -> (r: Result<(), DataplaneError>)
        requires
            old(self).wf(),
        ensures
            final(self).wf(),
            match outcome {
                Ok(_) => r is Ok && final(self).known() == old(self).known().committed(
                    set_of(touched@),
                ) && final(self).pending_total() == 0 && final(self).sets.entries@.len() == old(
                    self,
                ).sets.entries@.len(),
                Err(e) => r == Err::<(), DataplaneError>(DataplaneError(e)) && *final(self) == *old(self),
            },
    {
        match outcome {
            Err(e) => Err(DataplaneError(e)),
            Ok(_) => {
                let ghost before = self.sets.entries@;
                let ghost known = self.known();
                let n = self.sets.entries.len();
                let mut i: usize = 0;
                assert forall|j: int| 0 <= j < n implies (#[trigger] self.sets.entries@[j]).0
                    == before[j].0 && self.sets.entries@[j].1.tracker.wf() by {
                    lemma_entry(before, j);
                }
                while i < n
                    invariant
                        i <= n,
                        n == self.sets.entries@.len(),
                        n == before.len(),
                        crate::ordmap::ascending(before),
                        all_wf(crate::ordmap::map_of(before)),
                        forall|j: int|
                            0 <= j < n ==> (#[trigger] self.sets.entries@[j]).0 == before[j].0
                                && self.sets.entries@[j].1.tracker.wf(),
                        forall|j: int|
                            0 <= j < i ==> (#[trigger] self.sets.entries@[j]).1.content() == (
                            SetStateView {
                                dataplane: before[j].1.content().desired,
                                programmed: before[j].1.programmed || set_of(touched@).contains(
                                    before[j].0@,
                                ),
                                ..before[j].1.content()
                            }),
                        forall|j: int|
                            i <= j < n ==> (#[trigger] self.sets.entries@[j]) == before[j],
                    decreases n - i,
                {
                    proof {
                        lemma_entry(before, i as int);
                    }
                    let hit = listed(touched, self.sets.entries[i].0.as_str());
                    let e = &mut self.sets.entries[i];
                    if hit {
                        e.1.programmed = true;
                    }
                    e.1.tracker.mark_in_sync();
                    i = i + 1;
                }
                self.removed = OrdMap::new();
                proof {
                    let after = self.sets.entries@;
                    assert(crate::ordmap::ascending(after));
                    assert forall|k: Seq<char>| #[trigger]
                        self.sets.map().dom().contains(k) implies self.sets.map()[k].tracker.wf() by {
                        let j = crate::ordmap::key_index(after, k);
                        assert(after[j].0.deep_view() == k);
                    }
                    let want = known.committed(set_of(touched@));
                    assert(self.known().removed =~= want.removed);
                    assert forall|k: Seq<char>|
                        self.known().sets.dom().contains(k) <==> want.sets.dom().contains(k) by {
                        if self.known().sets.dom().contains(k) {
                            let j = crate::ordmap::key_index(after, k);
                            assert(after[j].0.deep_view() == k);
                            lemma_entry(before, j);
                        }
                        if want.sets.dom().contains(k) {
                            let j = crate::ordmap::key_index(before, k);
                            assert(before[j].0.deep_view() == k);
                            lemma_entry(after, j);
                        }
                    }
                    assert forall|k: Seq<char>| self.known().sets.dom().contains(
                        k,
                    ) implies self.known().sets[k] == want.sets[k] by {
                        let j = crate::ordmap::key_index(after, k);
                        assert(after[j].0.deep_view() == k);
                        lemma_entry(before, j);
                        lemma_entry(after, j);
                    }
                    assert(self.known().sets =~= want.sets);
                    lemma_nothing_counted(*self, after.len());
                }
                Ok(())
            },
        }
    }
}

/// Whether `id` is one of the strings.
fn listed(v: &Vec<String>, id: &str) -> (r: bool)
    ensures
        r == set_of(v@).contains(id@),
{
    for i in 0..v.len()
        invariant
            forall|j: int| 0 <= j < i ==> (#[trigger] v@[j])@ != id@,
    {
        if str_eq(v[i].as_str(), id) {
            assert(v@[i as int]@ == id@);
            return true;
        }
    }
    false
}

impl Manager for IpSetManager {
    type State = IpSetsView;

    open spec fn state(&self) -> IpSetsView {
        self.known()
    }

    open spec fn absorb(state: IpSetsView, msg: ToDataplaneView) -> IpSetsView {
        state.after(msg)
    }

    open spec fn valid(&self) -> bool {
        self.wf()
    }

    fn on_update(&mut self, msg: &ToDataplane) {
        let ghost known = self.known();
        match msg {
            ToDataplane::IpSetUpdate(u) => {
                let mut state = match self.removed.remove(&u.id) {
                    Some(s) => s,
                    None => match self.sets.remove(&u.id) {
                        Some(s) => s,
                        None => SetState::new(u.kind),
                    },
                };
                state.kind = u.kind;
                state.tracker.replace_desired(&u.members);
                proof {
                    lemma_set_of_views(u.members);
                }
                self.sets.insert(u.id.clone(), state);
            },
            ToDataplane::IpSetDeltaUpdate(u) => {
                let mut state = match self.removed.remove(&u.id) {
                    Some(s) => s,
                    None => match self.sets.remove(&u.id) {
                        Some(s) => s,
                        None => SetState::new(IpSetKind::Ip),
                    },
                };
                insert_all(&mut state.tracker.desired, &u.added_members);
                remove_all(&mut state.tracker.desired, &u.removed_members);
                proof {
                    lemma_set_of_views(u.added_members);
                    lemma_set_of_views(u.removed_members);
                }
                self.sets.insert(u.id.clone(), state);
            },
            ToDataplane::IpSetRemove(id) => {
                if let Some(state) = self.sets.remove(id) {
                    if state.programmed {
                        self.removed.insert(id.clone(), state);
                    }
                }
            },
            _ => {},
        }
        assert(self.known() =~= known.after(msg.deep_view()));
    }
}

/// Once the kernel has taken the document, nothing is pending: a second round without a
/// message in between programs nothing.
pub proof fn law_commit_settles(known: IpSetsView)
    ensures
        !known.committed(known.touched()).pending(),
{
    let after = known.committed(known.touched());
    assert forall|id: Seq<char>| #[trigger] after.sets.dom().contains(id) implies !after.sets[id].pending() by {
        assert(known.touched().contains(id) || !known.sets[id].pending());
    }
}

/// Where every set has its members in the kernel, none of the first `n` sets has a member to
/// add or to take out.
proof fn lemma_nothing_counted(m: IpSetManager, n: nat)
    requires
        m.wf(),
        n <= m.sets.entries@.len(),
        forall|id: Seq<char>| #[trigger]
            m.known().sets.dom().contains(id) ==> m.known().sets[id].desired
                == m.known().sets[id].dataplane,
    ensures
        m.pending_first(n) == 0,
    decreases n,
{
    if n > 0 {
        lemma_nothing_counted(m, (n - 1) as nat);
        lemma_entry(m.sets.entries@, n - 1);
        let id = m.sets.entries@[n - 1].0@;
        assert(m.known().sets.dom().contains(id));
        assert(m.known().sets[id] == m.sets.entries@[n - 1].1.content());
        law_no_delta_means_equal(m.sets.entries@[n - 1].1.tracker);
    }
}

/// A whole round: once the kernel has taken the document, no member and no set is left to
/// program, and the number of wanted sets is what it was. So the next round without a
/// message in between has no document.
pub proof fn law_round_settles_sets(before: IpSetManager, after: IpSetManager)
    requires
        before.wf(),
        after.wf(),
        after.known() == before.known().committed(before.known().touched()),
    ensures
        !after.known().pending(),
        after.pending_total() == 0,
        after.sets.entries@.len() == before.sets.entries@.len(),
{
    law_commit_settles(before.known());
    lemma_nothing_counted(after, after.sets.entries@.len());
    if after.removed.entries@.len() > 0 {
        lemma_entry(after.removed.entries@, 0);
        assert(after.known().removed.dom().contains(after.removed.entries@[0].0@));
    }
    lemma_keys_in_order(before.sets);
    lemma_keys_in_order(after.sets);
    assert(before.known().sets.dom() =~= before.sets.map().dom());
    assert(after.known().sets.dom() =~= after.sets.map().dom());
    assert(after.known().sets.dom() =~= before.known().sets.dom());
    let a = Seq::new(
        after.sets.entries@.len(),
        |i: int| after.sets.entries@[i].0.deep_view(),
    );
    let b = Seq::new(
        before.sets.entries@.len(),
        |i: int| before.sets.entries@[i].0.deep_view(),
    );
    assert(a == b);
    assert(a.len() == b.len());
}

/// Whether a line of a document is one that a difference may have: it adds or deletes
/// something, and where it deletes a set, the kernel has the set and it is not wanted.
pub open spec fn modest(known: IpSetsView, line: Seq<char>) -> bool {
    &&& has_prefix(line, "add "@) || has_prefix(line, "delete "@)
    &&& !has_prefix(line, "flush"@)
    &&& has_prefix(line, "delete set "@) ==> exists|id: Seq<char>| #[trigger]
        known.removed.dom().contains(id) && known.removed[id].programmed
            && !known.sets.dom().contains(id) && line == "delete set "@ + table_at() + " "@
            + set_name(id)
}

/// A line that begins with one of the four statements of a difference.
proof fn lemma_statement(known: IpSetsView, head: Seq<char>, rest: Seq<char>)
    requires
        head == "add table "@ || head == "add set "@ || head == "add element "@ || head
            == "delete element "@,
    ensures
        modest(known, head + rest),
{
    reveal_strlit("add table ");
    reveal_strlit("add set ");
    reveal_strlit("add element ");
    reveal_strlit("delete element ");
    reveal_strlit("add ");
    reveal_strlit("delete ");
    reveal_strlit("delete set ");
    reveal_strlit("flush");
    let line = head + rest;
    if head == "delete element "@ {
        assert(line.take(7) =~= "delete "@);
        lemma_not_prefix(line, "delete set "@, 7);
    } else {
        assert(line.take(4) =~= "add "@);
        lemma_not_prefix(line, "delete set "@, 0);
    }
    lemma_not_prefix(line, "flush"@, 0);
}

/// The statements of one set.
proof fn lemma_block_modest(known: IpSetsView, s: SetState, id: Seq<char>, i: int)
    requires
        0 <= i < s.delta_lines(id).len(),
    ensures
        modest(known, s.delta_lines(id)[i]),
{
    let line = s.delta_lines(id)[i];
    let create = table_at() + " "@ + set_name(id) + " { "@ + type_decl(s.kind) + "; }"@;
    assert(add_set_line(id, s.kind) =~= "add set "@ + create);
    lemma_statement(known, "add set "@, create);
    let adds = table_at() + " "@ + set_name(id) + " { "@ + join_spec(
        s.tracker.additions(),
        ", "@,
    ) + " }"@;
    assert(element_line("add element "@, id, s.tracker.additions()) =~= "add element "@ + adds);
    lemma_statement(known, "add element "@, adds);
    let dels = table_at() + " "@ + set_name(id) + " { "@ + join_spec(
        s.tracker.removals(),
        ", "@,
    ) + " }"@;
    assert(element_line("delete element "@, id, s.tracker.removals()) =~= "delete element "@ + dels);
    lemma_statement(known, "delete element "@, dels);
}

/// A document never empties a table or a set: each of its lines adds or deletes. It deletes
/// no set but those that the kernel has and that are not wanted any more.
pub proof fn law_document_never_flushes(m: IpSetManager)
    requires
        m.wf(),
    ensures
        forall|i: int|
            0 <= i < m.delta_doc().len() ==> modest(m.known(), #[trigger] m.delta_doc()[i]),
{
    let known = m.known();
    let blocks = delta_blocks(m.sets.entries@);
    let ok = |line: Seq<char>| modest(known, line);
    assert forall|i: int, j: int|
        0 <= i < blocks.len() && 0 <= j < blocks[i].len() implies ok(#[trigger] blocks[i][j]) by {
        lemma_block_modest(known, m.sets.entries@[i].1, m.sets.entries@[i].0@, j);
    }
    lemma_concat_all(blocks, blocks.len(), ok);
    lemma_statement(known, "add table "@, table_at());
    let first = seq!["add table "@ + table_at()];
    let middle = concat_all(blocks);
    let last = delete_set_lines(key_list(m.removed));
    assert forall|i: int| 0 <= i < m.delta_doc().len() implies modest(
        known,
        #[trigger] m.delta_doc()[i],
    ) by {
        if i == 0 {
            assert(m.delta_doc()[i] == first[0]);
        } else if i < 1 + middle.len() {
            assert(m.delta_doc()[i] == middle[i - 1]);
            assert(ok(middle[i - 1]));
        } else {
            let j = i - 1 - middle.len();
            assert(m.delta_doc()[i] == last[j]);
            lemma_entry(m.removed.entries@, j);
            let id = m.removed.entries@[j].0@;
            assert(known.removed.dom().contains(id));
            let line = last[j];
            let rest = table_at() + " "@ + set_name(id);
            assert(line =~= "delete set "@ + rest);
            reveal_strlit("delete ");
            reveal_strlit("delete set ");
            reveal_strlit("flush");
            assert(line.take(7) =~= "delete "@);
            lemma_not_prefix(line, "flush"@, 0);
        }
    }
}

/// A wanted set that the kernel does not have is created by the document, also where it has
/// no member, and counts as programmed once the kernel has taken the document.
pub proof fn law_new_set_is_created(m: IpSetManager, id: Seq<char>)
    requires
        m.wf(),
        m.known().sets.dom().contains(id),
        !m.known().sets[id].programmed,
    ensures
        m.known().pending(),
        m.delta_doc().contains(add_set_line(id, m.known().sets[id].kind)),
        m.known().committed(m.known().touched()).sets[id].programmed,
{
    let entries = m.sets.entries@;
    let i = crate::ordmap::key_index(entries, id);
    assert(entries[i].0.deep_view() == id);
    lemma_entry(entries, i);
    let blocks = delta_blocks(entries);
    let line = add_set_line(id, m.known().sets[id].kind);
    assert(blocks[i][0] == line);
    lemma_concat_contains(blocks, blocks.len(), i, line);
    let middle = concat_all(blocks);
    let k = middle.index_of(line);
    assert(m.delta_doc()[1 + k] == line);
    assert(m.known().touched().contains(id));
}

/// Whether the kernel has a set, wanted or not.
pub open spec fn has_set(known: IpSetsView, id: Seq<char>) -> bool {
    ||| known.sets.dom().contains(id) && known.sets[id].programmed
    ||| known.removed.dom().contains(id) && known.removed[id].programmed
}

/// No message makes a set count as programmed: only a document that the kernel has taken
/// does.
pub proof fn law_messages_program_nothing(known: IpSetsView, msg: ToDataplaneView, id: Seq<char>)
    ensures
        has_set(known.after(msg), id) ==> has_set(known, id),
{
}

/// A member that is added and taken out again before a round leaves nothing to do for it.
pub proof fn law_add_then_remove_nets_nothing(known: IpSetsView, id: Seq<char>, m: Seq<char>)
    requires
        known.sets.dom().contains(id),
        !known.removed.dom().contains(id),
        !known.sets[id].desired.contains(m),
    ensures
        ({
            let add = ToDataplaneView::IpSetDeltaUpdate(
                crate::messages::IpSetDeltaUpdateView {
                    id,
                    added_members: seq![m],
                    removed_members: Seq::empty(),
                },
            );
            let del = ToDataplaneView::IpSetDeltaUpdate(
                crate::messages::IpSetDeltaUpdateView {
                    id,
                    added_members: Seq::empty(),
                    removed_members: seq![m],
                },
            );
            known.after(add).after(del) == known
        }),
{
    let add = ToDataplaneView::IpSetDeltaUpdate(
        crate::messages::IpSetDeltaUpdateView {
            id,
            added_members: seq![m],
            removed_members: Seq::empty(),
        },
    );
    let del = ToDataplaneView::IpSetDeltaUpdate(
        crate::messages::IpSetDeltaUpdateView {
            id,
            added_members: Seq::empty(),
            removed_members: seq![m],
        },
    );
    let mid = known.after(add);
    let end = mid.after(del);
    assert(seq![m].to_set() =~= set![m]) by {
        assert(seq![m][0] == m);
    }
    assert(Seq::<Seq<char>>::empty().to_set() =~= Set::empty());
    assert(end.sets[id].desired =~= known.sets[id].desired);
    assert(end.sets =~= known.sets);
    assert(end.removed =~= known.removed);
    assert(end =~= known);
}

/// A set that is defined and removed before a round ever created it leaves no trace, so
/// nothing that the kernel never had is deleted there.
pub proof fn law_never_programmed_leaves_no_trace(
    known: IpSetsView,
    u: crate::messages::IpSetUpdateView,
)
    requires
        !known.sets.dom().contains(u.id),
        !known.removed.dom().contains(u.id),
    ensures
        known.after(ToDataplaneView::IpSetUpdate(u)).after(ToDataplaneView::IpSetRemove(u.id))
            == known,
{
    let end = known.after(ToDataplaneView::IpSetUpdate(u)).after(
        ToDataplaneView::IpSetRemove(u.id),
    );
    assert(end.sets =~= known.sets);
    assert(end.removed =~= known.removed);
}

/// A set that the kernel has, removed and defined again before a round, keeps what the
/// kernel holds of it: members that are not wanted any more are still taken out.
pub proof fn law_redefinition_keeps_kernel_members(
    known: IpSetsView,
    u: crate::messages::IpSetUpdateView,
)
    requires
        known.sets.dom().contains(u.id),
        known.sets[u.id].programmed,
    ensures
        ({
            let end = known.after(ToDataplaneView::IpSetRemove(u.id)).after(
                ToDataplaneView::IpSetUpdate(u),
            );
            &&& end.sets.dom().contains(u.id)
            &&& !end.removed.dom().contains(u.id)
            &&& end.sets[u.id].programmed
            &&& end.sets[u.id].dataplane == known.sets[u.id].dataplane
            &&& end.sets[u.id].desired == u.members.to_set()
        }),
{
}

/// Whether a member is wanted in a set.
pub open spec fn wants(known: IpSetsView, id: Seq<char>, m: Seq<char>) -> bool {
    known.sets.dom().contains(id) && known.sets[id].desired.contains(m)
}

/// An update of a set says who is wanted in it, a change adds and takes out, a removal leaves
/// nobody; none of them touches another set.
pub proof fn law_messages_say_who_is_wanted(
    known: IpSetsView,
    msg: ToDataplaneView,
    id: Seq<char>,
    m: Seq<char>,
)
    requires
        known.consistent(),
    ensures
        ({
            let after = known.after(msg);
            match msg {
                ToDataplaneView::IpSetUpdate(u) => if u.id == id {
                    &&& after.sets.dom().contains(id)
                    &&& after.sets[id].kind == u.kind
                    &&& wants(after, id, m) <==> u.members.contains(m)
                } else {
                    wants(after, id, m) == wants(known, id, m)
                },
                ToDataplaneView::IpSetDeltaUpdate(u) => if u.id == id {
                    &&& after.sets.dom().contains(id)
                    &&& known.sets.dom().contains(id) ==> (wants(after, id, m) <==> (wants(
                        known,
                        id,
                        m,
                    ) || u.added_members.contains(m)) && !u.removed_members.contains(m))
                } else {
                    wants(after, id, m) == wants(known, id, m)
                },
                ToDataplaneView::IpSetRemove(x) => if x == id {
                    !after.sets.dom().contains(id)
                } else {
                    wants(after, id, m) == wants(known, id, m)
                },
                _ => after == known,
            }
        }),
{
    match msg {
        ToDataplaneView::IpSetUpdate(u) => {
            assert(u.members.to_set().contains(m) <==> u.members.contains(m));
        },
        ToDataplaneView::IpSetDeltaUpdate(u) => {
            assert(u.added_members.to_set().contains(m) <==> u.added_members.contains(m));
            assert(u.removed_members.to_set().contains(m) <==> u.removed_members.contains(m));
        },
        _ => {},
    }
}

/// What is said of a set adds exactly those who are wanted and not programmed, and deletes
/// exactly those who are programmed and not wanted; a set about which there is nothing to say
/// is in step already.
pub proof fn law_set_statements_are_the_difference(s: SetState, id: Seq<char>, m: Seq<char>)
    requires
        s.tracker.wf(),
    ensures
        ({
            let adds = s.tracker.additions();
            let dels = s.tracker.removals();
            let lines = s.delta_lines(id);
            &&& adds.contains(m) <==> s.content().desired.contains(m)
                && !s.content().dataplane.contains(m)
            &&& dels.contains(m) <==> s.content().dataplane.contains(m)
                && !s.content().desired.contains(m)
            &&& lines.len() == 0 <==> s.programmed && s.content().desired == s.content().dataplane
            &&& lines.len() > 0 ==> lines[0] == add_set_line(id, s.kind)
            &&& adds.len() > 0 ==> lines.contains(element_line("add element "@, id, adds))
            &&& dels.len() > 0 ==> lines.contains(element_line("delete element "@, id, dels))
            &&& lines.len() <= 3
        }),
{
    crate::delta::law_delta_is_exact(s.tracker, m);
    law_no_delta_means_equal(s.tracker);
    let adds = s.tracker.additions();
    let dels = s.tracker.removals();
    let lines = s.delta_lines(id);
    if adds.len() > 0 {
        assert(lines[1] == element_line("add element "@, id, adds));
    }
    if dels.len() > 0 {
        assert(lines[lines.len() - 1] == element_line("delete element "@, id, dels));
    }
}

/// A set of networks is one of intervals and a set of addresses with ports has a service
/// behind each address; no other set is either. All of them are of addresses.
pub proof fn law_kinds_of_sets_are_declared_apart(kind: IpSetKind)
    ensures
        has_prefix(type_decl(kind), "type ipv4_addr"@),
        type_decl(kind) == "type ipv4_addr"@ <==> kind == IpSetKind::Ip,
        type_decl(kind) == "type ipv4_addr"@ + "; flags interval"@ <==> kind == IpSetKind::Net,
        type_decl(kind) == "type ipv4_addr"@ + " . inet_service"@ <==> kind
            == IpSetKind::IpAndPort,
{
    reveal_strlit("type ipv4_addr");
    reveal_strlit("type ipv4_addr; flags interval");
    reveal_strlit("type ipv4_addr . inet_service");
    reveal_strlit("; flags interval");
    reveal_strlit(" . inet_service");
    let p = "type ipv4_addr"@;
    assert("type ipv4_addr; flags interval"@ =~= p + "; flags interval"@);
    assert("type ipv4_addr . inet_service"@ =~= p + " . inet_service"@);
    assert(p.take(p.len() as int) =~= p);
    crate::text::lemma_prefix_of_sum(p, "; flags interval"@);
    crate::text::lemma_prefix_of_sum(p, " . inet_service"@);
    assert("; flags interval"@.len() == 16 && " . inet_service"@.len() == 15);
}

} // verus!
