//! The nftables model and its text form.
//!
//! A table is written as a document for `nft -f -`. Two forms are offered: the whole
//! table, which replaces what was there, and an update of single chains, which leaves
//! the rest of the table alone.

use crate::seqs::{concat_all, concat_first, doc_of, lemma_concat_all, Document};
use crate::text::{
    cat, cat3, decimal, decimal_text, has_prefix, join, join_spec, lemma_prefix_of_sum, signed_decimal,
    signed_decimal_text, views,
};
use vstd::prelude::*;

verus! {

broadcast use crate::text::lemma_views_push;

/// The packet mark that says "this direction was allowed".
///
/// A forwarded packet passes the chains of both directions. An allow therefore sets this
/// bit and returns, so that the other direction is still evaluated; only a deny is final.
pub const ACCEPT_MARK: u32 = 0x0100_0000;

/// The character of a hexadecimal digit.
pub open spec fn hex_char(d: nat) -> char {
    if d < 10 {
        (48 + d) as char
    } else {
        (87 + d) as char
    }
}

/// The last `width` hexadecimal digits of `n`, in lower case, with leading zeros.
pub open spec fn hex_fixed(n: nat, width: nat) -> Seq<char>
    decreases width,
{
    if width == 0 {
        Seq::empty()
    } else {
        hex_fixed(n / 16, (width - 1) as nat).push(hex_char(n % 16))
    }
}

/// The last `width` hexadecimal digits of `n`.
pub fn hex_text(n: u32, width: u32) -> (r: String)
    ensures
        r@ == hex_fixed(n as nat, width as nat),
    decreases width,
{
    if width == 0 {
        String::new()
    } else {
        let mut s = hex_text(n / 16, width - 1);
        let d: u8 = (n % 16) as u8;
        if d < 10 {
            s.push((48 + d) as char);
        } else {
            s.push((87 + d) as char);
        }
        s
    }
}

/// What a rule does with a packet that it matches.
#[derive(Debug, PartialEq, Eq)]
pub enum Verdict {
    /// Accept the packet.
    Accept,
    /// Drop the packet.
    Drop,
    /// Go back to the calling chain.
    Return,
    /// Go to a chain, and come back at its end.
    Jump(String),
    /// Go to a chain without coming back.
    Goto(String),
    /// Rewrite the source to the outgoing interface's address.
    Masquerade,
    /// Set the accept mark, then go back to the calling chain: an allow that lets the other
    /// direction be evaluated.
    SetAcceptMarkReturn,
    /// Clear the accept mark and go on with the next rule.
    ClearAcceptMark,
}

/// The mathematical content of a [`Verdict`].
#[verifier::ext_equal]
pub enum VerdictView {
    Accept,
    Drop,
    Return,
    Jump(Seq<char>),
    Goto(Seq<char>),
    Masquerade,
    SetAcceptMarkReturn,
    ClearAcceptMark,
}

impl DeepView for Verdict {
    type V = VerdictView;

    open spec fn deep_view(&self) -> VerdictView {
        match self {
            Verdict::Accept => VerdictView::Accept,
            Verdict::Drop => VerdictView::Drop,
            Verdict::Return => VerdictView::Return,
            Verdict::Jump(a) => VerdictView::Jump(a.deep_view()),
            Verdict::Goto(a) => VerdictView::Goto(a.deep_view()),
            Verdict::Masquerade => VerdictView::Masquerade,
            Verdict::SetAcceptMarkReturn => VerdictView::SetAcceptMarkReturn,
            Verdict::ClearAcceptMark => VerdictView::ClearAcceptMark,
        }
    }
}

impl Clone for Verdict {
    fn clone(&self) -> (r: Self)
        ensures
            r.deep_view() == self.deep_view(),
    {
        let r = match self {
            Verdict::Accept => Verdict::Accept,
            Verdict::Drop => Verdict::Drop,
            Verdict::Return => Verdict::Return,
            Verdict::Jump(a) => Verdict::Jump(a.clone()),
            Verdict::Goto(a) => Verdict::Goto(a.clone()),
            Verdict::Masquerade => Verdict::Masquerade,
            Verdict::SetAcceptMarkReturn => Verdict::SetAcceptMarkReturn,
            Verdict::ClearAcceptMark => Verdict::ClearAcceptMark,
        };
        assert(r.deep_view() =~= self.deep_view());
        r
    }
}

/// One condition of a rule.
#[derive(Debug, PartialEq, Eq)]
pub enum NftMatch {
    /// The transport protocol.
    L4Proto(String),
    /// The destination port.
    DestPort(u16),
    /// The source port.
    SrcPort(u16),
    /// The source block.
    SrcAddr(String),
    /// The destination block.
    DestAddr(String),
    /// The incoming interface.
    InInterface(String),
    /// The outgoing interface.
    OutInterface(String),
    /// The named set that holds the source.
    SrcSet(String),
    /// The named set that holds the destination.
    DestSet(String),
    /// The accept mark is set.
    AcceptMarkSet,
}

/// The mathematical content of a [`NftMatch`].
#[verifier::ext_equal]
pub enum NftMatchView {
    L4Proto(Seq<char>),
    DestPort(u16),
    SrcPort(u16),
    SrcAddr(Seq<char>),
    DestAddr(Seq<char>),
    InInterface(Seq<char>),
    OutInterface(Seq<char>),
    SrcSet(Seq<char>),
    DestSet(Seq<char>),
    AcceptMarkSet,
}

impl DeepView for NftMatch {
    type V = NftMatchView;

    open spec fn deep_view(&self) -> NftMatchView {
        match self {
            NftMatch::L4Proto(a) => NftMatchView::L4Proto(a.deep_view()),
            NftMatch::DestPort(a) => NftMatchView::DestPort(*a),
            NftMatch::SrcPort(a) => NftMatchView::SrcPort(*a),
            NftMatch::SrcAddr(a) => NftMatchView::SrcAddr(a.deep_view()),
            NftMatch::DestAddr(a) => NftMatchView::DestAddr(a.deep_view()),
            NftMatch::InInterface(a) => NftMatchView::InInterface(a.deep_view()),
            NftMatch::OutInterface(a) => NftMatchView::OutInterface(a.deep_view()),
            NftMatch::SrcSet(a) => NftMatchView::SrcSet(a.deep_view()),
            NftMatch::DestSet(a) => NftMatchView::DestSet(a.deep_view()),
            NftMatch::AcceptMarkSet => NftMatchView::AcceptMarkSet,
        }
    }
}

impl Clone for NftMatch {
    fn clone(&self) -> (r: Self)
        ensures
            r.deep_view() == self.deep_view(),
    {
        let r = match self {
            NftMatch::L4Proto(a) => NftMatch::L4Proto(a.clone()),
            NftMatch::DestPort(a) => NftMatch::DestPort(*a),
            NftMatch::SrcPort(a) => NftMatch::SrcPort(*a),
            NftMatch::SrcAddr(a) => NftMatch::SrcAddr(a.clone()),
            NftMatch::DestAddr(a) => NftMatch::DestAddr(a.clone()),
            NftMatch::InInterface(a) => NftMatch::InInterface(a.clone()),
            NftMatch::OutInterface(a) => NftMatch::OutInterface(a.clone()),
            NftMatch::SrcSet(a) => NftMatch::SrcSet(a.clone()),
            NftMatch::DestSet(a) => NftMatch::DestSet(a.clone()),
            NftMatch::AcceptMarkSet => NftMatch::AcceptMarkSet,
        };
        assert(r.deep_view() =~= self.deep_view());
        r
    }
}

/// A named set of addresses.
#[derive(Debug, PartialEq, Eq)]
pub struct NftSet {
    /// Its name.
    pub name: String,
    /// Its members.
    pub elements: Vec<String>,
}

/// The mathematical content of a [`NftSet`].
#[verifier::ext_equal]
pub struct NftSetView {
    pub name: Seq<char>,
    pub elements: Seq<Seq<char>>,
}

impl DeepView for NftSet {
    type V = NftSetView;

    open spec fn deep_view(&self) -> NftSetView {
        NftSetView {
            name: self.name.deep_view(),
            elements: self.elements.deep_view(),
        }
    }
}

impl Clone for NftSet {
    fn clone(&self) -> (r: Self)
        ensures
            r.deep_view() == self.deep_view(),
    {
        let r = NftSet {
            name: self.name.clone(),
            elements: self.elements.clone(),
        };
        assert(r.deep_view() =~= self.deep_view());
        r
    }
}

/// One rule: its conditions, what it does, and a comment.
#[derive(Debug, PartialEq, Eq)]
pub struct NftRule {
    /// The conditions, all of which must hold.
    pub matches: Vec<NftMatch>,
    /// What is done then.
    pub verdict: Verdict,
    /// A comment.
    pub comment: Option<String>,
}

/// The mathematical content of a [`NftRule`].
#[verifier::ext_equal]
pub struct NftRuleView {
    pub matches: Seq<NftMatchView>,
    pub verdict: VerdictView,
    pub comment: Option<Seq<char>>,
}

impl DeepView for NftRule {
    type V = NftRuleView;

    open spec fn deep_view(&self) -> NftRuleView {
        NftRuleView {
            matches: self.matches.deep_view(),
            verdict: self.verdict.deep_view(),
            comment: self.comment.deep_view(),
        }
    }
}

impl Clone for NftRule {
    fn clone(&self) -> (r: Self)
        ensures
            r.deep_view() == self.deep_view(),
    {
        let r = NftRule {
            matches: self.matches.clone(),
            verdict: self.verdict.clone(),
            comment: self.comment.clone(),
        };
        assert(r.deep_view() =~= self.deep_view());
        r
    }
}

/// What a base chain may do.
#[derive(Debug, Clone, Copy, PartialEq, Eq, Default, Structural)]
pub enum ChainType {
    /// Packet filtering.
    #[default]
    Filter,
    /// Address translation.
    Nat,
}

impl DeepView for ChainType {
    type V = ChainType;

    open spec fn deep_view(&self) -> ChainType {
        *self
    }
}

/// Where a base chain is attached.
#[derive(Debug, PartialEq, Eq)]
pub struct BaseHook {
    /// What the chain may do.
    pub chain_type: ChainType,
    /// The hook: `input`, `output`, `forward` or `postrouting`.
    pub hook: String,
    /// The order among chains of one hook.
    pub priority: i32,
    /// Whether a packet that reaches the end is accepted.
    pub policy_accept: bool,
}

/// The mathematical content of a [`BaseHook`].
#[verifier::ext_equal]
pub struct BaseHookView {
    pub chain_type: ChainType,
    pub hook: Seq<char>,
    pub priority: i32,
    pub policy_accept: bool,
}

impl DeepView for BaseHook {
    type V = BaseHookView;

    open spec fn deep_view(&self) -> BaseHookView {
        BaseHookView {
            chain_type: self.chain_type,
            hook: self.hook.deep_view(),
            priority: self.priority,
            policy_accept: self.policy_accept,
        }
    }
}

impl Clone for BaseHook {
    fn clone(&self) -> (r: Self)
        ensures
            r.deep_view() == self.deep_view(),
    {
        let r = BaseHook {
            chain_type: self.chain_type,
            hook: self.hook.clone(),
            priority: self.priority,
            policy_accept: self.policy_accept,
        };
        assert(r.deep_view() =~= self.deep_view());
        r
    }
}

/// A chain of rules.
#[derive(Debug, PartialEq, Eq)]
pub struct NftChain {
    /// Its name.
    pub name: String,
    /// Where it is attached; none for a chain that is only jumped to.
    pub base: Option<BaseHook>,
    /// Its rules, in order.
    pub rules: Vec<NftRule>,
}

/// The mathematical content of a [`NftChain`].
#[verifier::ext_equal]
pub struct NftChainView {
    pub name: Seq<char>,
    pub base: Option<BaseHookView>,
    pub rules: Seq<NftRuleView>,
}

impl DeepView for NftChain {
    type V = NftChainView;

    open spec fn deep_view(&self) -> NftChainView {
        NftChainView {
            name: self.name.deep_view(),
            base: self.base.deep_view(),
            rules: self.rules.deep_view(),
        }
    }
}

impl Clone for NftChain {
    fn clone(&self) -> (r: Self)
        ensures
            r.deep_view() == self.deep_view(),
    {
        let r = NftChain {
            name: self.name.clone(),
            base: self.base.clone(),
            rules: self.rules.clone(),
        };
        assert(r.deep_view() =~= self.deep_view());
        r
    }
}

/// A table: its sets and its chains.
#[derive(Debug, PartialEq, Eq)]
pub struct NftTable {
    /// The address family.
    pub family: String,
    /// Its name.
    pub name: String,
    /// Its named sets.
    pub sets: Vec<NftSet>,
    /// Its chains.
    pub chains: Vec<NftChain>,
}

/// The mathematical content of a [`NftTable`].
#[verifier::ext_equal]
pub struct NftTableView {
    pub family: Seq<char>,
    pub name: Seq<char>,
    pub sets: Seq<NftSetView>,
    pub chains: Seq<NftChainView>,
}

impl DeepView for NftTable {
    type V = NftTableView;

    open spec fn deep_view(&self) -> NftTableView {
        NftTableView {
            family: self.family.deep_view(),
            name: self.name.deep_view(),
            sets: self.sets.deep_view(),
            chains: self.chains.deep_view(),
        }
    }
}

impl Clone for NftTable {
    fn clone(&self) -> (r: Self)
        ensures
            r.deep_view() == self.deep_view(),
    {
        let r = NftTable {
            family: self.family.clone(),
            name: self.name.clone(),
            sets: self.sets.clone(),
            chains: self.chains.clone(),
        };
        assert(r.deep_view() =~= self.deep_view());
        r
    }
}

impl VerdictView {
    /// The statement that a rule ends in.
    pub open spec fn text(self) -> Seq<char> {
        match self {
            VerdictView::Accept => "accept"@,
            VerdictView::Drop => "drop"@,
            VerdictView::Return => "return"@,
            VerdictView::Jump(c) => "jump "@ + c,
            VerdictView::Goto(c) => "goto "@ + c,
            VerdictView::Masquerade => "masquerade"@,
            VerdictView::SetAcceptMarkReturn => "meta mark set meta mark or 0x"@ + hex_fixed(
                ACCEPT_MARK as nat,
                8,
            ) + " return"@,
            VerdictView::ClearAcceptMark => "meta mark set meta mark and 0x"@ + hex_fixed(
                (u32::MAX - ACCEPT_MARK) as nat,
                8,
            ),
        }
    }
}

impl Verdict {
    /// The statement in nft syntax.
    pub fn render(&self) -> (r: String)
        ensures
            r@ == self.deep_view().text(),
    {
        match self {
            Verdict::Accept => "accept".to_owned(),
            Verdict::Drop => "drop".to_owned(),
            Verdict::Return => "return".to_owned(),
            Verdict::Jump(c) => cat("jump ", c.as_str()),
            Verdict::Goto(c) => cat("goto ", c.as_str()),
            Verdict::Masquerade => "masquerade".to_owned(),
            Verdict::SetAcceptMarkReturn => cat3(
                "meta mark set meta mark or 0x",
                hex_text(ACCEPT_MARK, 8).as_str(),
                " return",
            ),
            Verdict::ClearAcceptMark => {
                assert(!0x0100_0000u32 == 0xfeff_ffffu32) by (bit_vector);
                cat("meta mark set meta mark and 0x", hex_text(!ACCEPT_MARK, 8).as_str())
            },
        }
    }
}

impl NftMatchView {
    /// The condition in nft syntax.
    pub open spec fn text(self) -> Seq<char> {
        match self {
            NftMatchView::L4Proto(p) => "meta l4proto "@ + p,
            NftMatchView::DestPort(n) => "th dport "@ + decimal(n as nat),
            NftMatchView::SrcPort(n) => "th sport "@ + decimal(n as nat),
            NftMatchView::SrcAddr(c) => "ip saddr "@ + c,
            NftMatchView::DestAddr(c) => "ip daddr "@ + c,
            NftMatchView::InInterface(i) => "iifname \""@ + i + "\""@,
            NftMatchView::OutInterface(i) => "oifname \""@ + i + "\""@,
            NftMatchView::SrcSet(s) => "ip saddr @"@ + s,
            NftMatchView::DestSet(s) => "ip daddr @"@ + s,
            NftMatchView::AcceptMarkSet => "meta mark & 0x"@ + hex_fixed(ACCEPT_MARK as nat, 8)
                + " == 0x"@ + hex_fixed(ACCEPT_MARK as nat, 8),
        }
    }
}

impl NftMatch {
    /// The condition in nft syntax.
    pub fn render(&self) -> (r: String)
        ensures
            r@ == self.deep_view().text(),
    {
        match self {
            NftMatch::L4Proto(p) => cat("meta l4proto ", p.as_str()),
            NftMatch::DestPort(n) => cat("th dport ", decimal_text(*n as u64).as_str()),
            NftMatch::SrcPort(n) => cat("th sport ", decimal_text(*n as u64).as_str()),
            NftMatch::SrcAddr(c) => cat("ip saddr ", c.as_str()),
            NftMatch::DestAddr(c) => cat("ip daddr ", c.as_str()),
            NftMatch::InInterface(i) => cat3("iifname \"", i.as_str(), "\""),
            NftMatch::OutInterface(i) => cat3("oifname \"", i.as_str(), "\""),
            NftMatch::SrcSet(s) => cat("ip saddr @", s.as_str()),
            NftMatch::DestSet(s) => cat("ip daddr @", s.as_str()),
            NftMatch::AcceptMarkSet => {
                let mark = hex_text(ACCEPT_MARK, 8);
                let mut s = cat3("meta mark & 0x", mark.as_str(), " == 0x");
                s.push_str(mark.as_str());
                s
            },
        }
    }
}

/// The texts of a list of conditions.
pub open spec fn match_texts(matches: Seq<NftMatchView>) -> Seq<Seq<char>> {
    Seq::new(matches.len(), |i: int| matches[i].text())
}

impl NftRuleView {
    /// The rule in nft syntax: its conditions and its verdict, separated by blanks, and
    /// its comment.
    pub open spec fn text(self) -> Seq<char> {
        let line = join_spec(match_texts(self.matches).push(self.verdict.text()), " "@);
        match self.comment {
            Some(c) => line + " comment \""@ + c + "\""@,
            None => line,
        }
    }
}

/// A rule that matches every packet.
pub open spec fn plain_rule(verdict: VerdictView) -> NftRuleView {
    NftRuleView { matches: Seq::empty(), verdict, comment: None }
}

/// A rule with one condition.
pub open spec fn guarded_rule(m: NftMatchView, verdict: VerdictView) -> NftRuleView {
    NftRuleView { matches: seq![m], verdict, comment: None }
}

impl NftRule {
    /// A rule that matches every packet.
    pub fn new(verdict: Verdict) -> (r: Self)
        ensures
            r.deep_view() == plain_rule(verdict.deep_view()),
    {
        let r = NftRule { matches: Vec::new(), verdict, comment: None };
        assert(r.deep_view() =~= plain_rule(verdict.deep_view()));
        r
    }

    /// The rule with one more condition, after those that it has.
    pub fn with(self, m: NftMatch) -> (r: Self)
        ensures
            r.deep_view() == (NftRuleView {
                matches: self.deep_view().matches.push(m.deep_view()),
                ..self.deep_view()
            }),
    {
        let mut r = self;
        r.matches.push(m);
        assert(r.deep_view().matches =~= self.deep_view().matches.push(m.deep_view()));
        r
    }

    /// The rule with the comment `c`.
    pub fn comment(self, c: &str) -> (r: Self)
        ensures
            r.deep_view() == (NftRuleView { comment: Some(c@), ..self.deep_view() }),
    {
        let mut r = self;
        r.comment = Some(c.to_owned());
        r
    }

    /// The rule in nft syntax.
    pub fn render(&self) -> (r: String)
        ensures
            r@ == self.deep_view().text(),
    {
        let mut parts: Vec<String> = Vec::new();
        for i in 0..self.matches.len()
            invariant
                views(parts@) == match_texts(self.deep_view().matches).take(i as int),
        {
            let t = self.matches[i].render();
            parts.push(t);
            assert(views(parts@) =~= match_texts(self.deep_view().matches).take(i + 1));
        }
        parts.push(self.verdict.render());
        assert(views(parts@) =~= match_texts(self.deep_view().matches).push(
            self.deep_view().verdict.text(),
        ));
        let mut line = join(&parts, " ");
        if let Some(c) = &self.comment {
            line.push_str(" comment \"");
            line.push_str(c.as_str());
            line.push_str("\"");
        }
        line
    }
}

impl ChainType {
    /// The keyword of the chain type.
    pub open spec fn text(self) -> Seq<char> {
        match self {
            ChainType::Filter => "filter"@,
            ChainType::Nat => "nat"@,
        }
    }

    /// The keyword of the chain type.
    pub fn render(&self) -> (r: &'static str)
        ensures
            r@ == self.text(),
    {
        match self {
            ChainType::Filter => "filter",
            ChainType::Nat => "nat",
        }
    }
}

impl BaseHookView {
    /// The declaration of a base chain.
    pub open spec fn text(self) -> Seq<char> {
        "type "@ + self.chain_type.text() + " hook "@ + self.hook + " priority "@ + signed_decimal(
            self.priority as int,
        ) + "; policy "@ + (if self.policy_accept {
            "accept"@
        } else {
            "drop"@
        }) + ";"@
    }
}

impl BaseHook {
    /// The declaration of a base chain.
    fn render(&self) -> (r: String)
        ensures
            r@ == self.deep_view().text(),
    {
        let mut s = cat3("type ", self.chain_type.render(), " hook ");
        s.push_str(self.hook.as_str());
        s.push_str(" priority ");
        s.push_str(signed_decimal_text(self.priority).as_str());
        s.push_str("; policy ");
        if self.policy_accept {
            s.push_str("accept");
        } else {
            s.push_str("drop");
        }
        s.push_str(";");
        s
    }
}

impl NftChain {
    /// The declaration of a base chain; none for a regular chain.
    pub fn base_decl(&self) -> (r: Option<String>)
        ensures
            r is Some <==> self.base is Some,
            r matches Some(d) ==> d@ == self.deep_view().base->0.text(),
    {
        match &self.base {
            Some(b) => Some(b.render()),
            None => None,
        }
    }

    /// A chain that is only jumped to.
    pub fn regular(name: &str, rules: Vec<NftRule>) -> (r: Self)
        ensures
            r.deep_view() == (NftChainView { name: name@, base: None, rules: rules.deep_view() }),
    {
        NftChain { name: name.to_owned(), base: None, rules }
    }

    /// A chain that is attached to a hook.
    pub fn base(name: &str, hook: BaseHook, rules: Vec<NftRule>) -> (r: Self)
        ensures
            r.deep_view() == (NftChainView {
                name: name@,
                base: Some(hook.deep_view()),
                rules: rules.deep_view(),
            }),
    {
        NftChain { name: name.to_owned(), base: Some(hook), rules }
    }
}

impl NftSetView {
    /// The lines that declare the set inside its table.
    pub open spec fn block(self) -> Seq<Seq<char>> {
        let head = seq!["  set "@ + self.name + " {"@, "    type ipv4_addr"@];
        if self.elements.len() == 0 {
            head.push("  }"@)
        } else {
            head.push("    elements = { "@ + join_spec(self.elements, ", "@) + " }"@).push("  }"@)
        }
    }
}

impl NftChainView {
    /// The lines of the rules inside the table.
    pub open spec fn rule_block(self) -> Seq<Seq<char>> {
        Seq::new(self.rules.len(), |i: int| "    "@ + self.rules[i].text())
    }

    /// The lines that declare the chain inside its table.
    pub open spec fn block(self) -> Seq<Seq<char>> {
        let head = seq!["  chain "@ + self.name + " {"@];
        let decl = match self.base {
            Some(b) => seq!["    "@ + b.text()],
            None => Seq::<Seq<char>>::empty(),
        };
        (head + decl + self.rule_block()).push("  }"@)
    }
}

/// The blocks of a list of sets.
pub open spec fn set_blocks(sets: Seq<NftSetView>) -> Seq<Seq<Seq<char>>> {
    Seq::new(sets.len(), |i: int| sets[i].block())
}

/// The blocks of a list of chains.
pub open spec fn chain_blocks(chains: Seq<NftChainView>) -> Seq<Seq<Seq<char>>> {
    Seq::new(chains.len(), |i: int| chains[i].block())
}

impl NftTableView {
    /// The lines of the document that replaces the table: it makes sure that the table
    /// exists, empties it, and declares its sets before its chains.
    pub open spec fn lines(self) -> Seq<Seq<char>> {
        let name = self.family + " "@ + self.name;
        (seq!["add table "@ + name, "flush table "@ + name, "table "@ + name + " {"@] + concat_all(
            set_blocks(self.sets),
        ) + concat_all(chain_blocks(self.chains))).push("}"@)
    }
}

impl NftTable {
    /// A table without sets.
    pub fn new(family: &str, name: &str, chains: Vec<NftChain>) -> (r: Self)
        ensures
            r.deep_view() == (NftTableView {
                family: family@,
                name: name@,
                sets: Seq::empty(),
                chains: chains.deep_view(),
            }),
    {
        let r = NftTable { family: family.to_owned(), name: name.to_owned(), sets: Vec::new(), chains };
        assert(r.deep_view().sets =~= Seq::<NftSetView>::empty());
        r
    }

    /// The table with the given sets, in place of those that it has.
    pub fn with_sets(self, sets: Vec<NftSet>) -> (r: Self)
        ensures
            r.deep_view() == (NftTableView { sets: sets.deep_view(), ..self.deep_view() }),
    {
        let mut r = self;
        r.sets = sets;
        r
    }

    /// The document that replaces the table.
    pub fn render(&self) -> (r: String)
        ensures
            r@ == doc_of(self.deep_view().lines()),
    {
        let ghost view = self.deep_view();
        let mut name = cat(self.family.as_str(), " ");
        name.push_str(self.name.as_str());
        let mut doc = Document::new();
        doc.line(cat("add table ", name.as_str()).as_str());
        doc.line(cat("flush table ", name.as_str()).as_str());
        doc.line(cat3("table ", name.as_str(), " {").as_str());
        let ghost head = doc.lines();
        assert(head =~= seq![
            "add table "@ + name@,
            "flush table "@ + name@,
            "table "@ + name@ + " {"@,
        ]);
        assert(head + Seq::<Seq<char>>::empty() =~= head);
        for i in 0..self.sets.len()
            invariant
                doc.wf(),
                view == self.deep_view(),
                doc.lines() == head + concat_first(set_blocks(view.sets), i as nat),
        {
            let set = &self.sets[i];
            let ghost before = doc.lines();
            doc.line(cat3("  set ", set.name.as_str(), " {").as_str());
            doc.line("    type ipv4_addr");
            if set.elements.len() > 0 {
                let elements = join(&set.elements, ", ");
                assert(views(set.elements@) =~= set.deep_view().elements);
                doc.line(cat3("    elements = { ", elements.as_str(), " }").as_str());
            }
            doc.line("  }");
            assert(doc.lines() =~= before + set.deep_view().block());
            assert(doc.lines() =~= head + concat_first(set_blocks(view.sets), (i + 1) as nat));
        }
        let ghost head = doc.lines();
        assert(head + Seq::<Seq<char>>::empty() =~= head);
        for i in 0..self.chains.len()
            invariant
                doc.wf(),
                view == self.deep_view(),
                doc.lines() == head + concat_first(chain_blocks(view.chains), i as nat),
        {
            let chain = &self.chains[i];
            let ghost before = doc.lines();
            let ghost cv = chain.deep_view();
            doc.line(cat3("  chain ", chain.name.as_str(), " {").as_str());
            if let Some(b) = &chain.base {
                doc.line(cat("    ", b.render().as_str()).as_str());
            }
            let ghost start = doc.lines();
            let ghost decl = match cv.base {
                Some(b) => seq!["    "@ + b.text()],
                None => Seq::<Seq<char>>::empty(),
            };
            assert(start =~= before + (seq!["  chain "@ + cv.name + " {"@] + decl));
            for j in 0..chain.rules.len()
                invariant
                    doc.wf(),
                    cv == chain.deep_view(),
                    doc.lines() == start + cv.rule_block().take(j as int),
            {
                doc.line(cat("    ", chain.rules[j].render().as_str()).as_str());
                assert(doc.lines() =~= start + cv.rule_block().take(j + 1));
            }
            doc.line("  }");
            assert(doc.lines() =~= before + cv.block());
            assert(doc.lines() =~= head + concat_first(chain_blocks(view.chains), (i + 1) as nat));
        }
        doc.line("}");
        assert(doc.lines() =~= view.lines());
        doc.finish()
    }
}

/// The statement that creates a chain if it is not there, with `at` the family and the
/// name of its table.
pub open spec fn add_chain_line(at: Seq<char>, name: Seq<char>, base: Option<BaseHookView>) -> Seq<
    char,
> {
    let line = "add chain "@ + at + " "@ + name;
    match base {
        Some(b) => line + " { "@ + b.text() + " }"@,
        None => line,
    }
}

/// The statements that append rules to a chain.
pub open spec fn add_rule_lines(at: Seq<char>, name: Seq<char>, rules: Seq<NftRuleView>) -> Seq<
    Seq<char>,
> {
    Seq::new(rules.len(), |i: int| "add rule "@ + at + " "@ + name + " "@ + rules[i].text())
}

/// The statements that create the chains.
pub open spec fn add_chain_lines(at: Seq<char>, chains: Seq<NftChainView>) -> Seq<Seq<char>> {
    Seq::new(chains.len(), |i: int| add_chain_line(at, chains[i].name, chains[i].base))
}

/// The statements that empty the chains.
pub open spec fn flush_lines(at: Seq<char>, names: Seq<Seq<char>>) -> Seq<Seq<char>> {
    Seq::new(names.len(), |i: int| "flush chain "@ + at + " "@ + names[i])
}

/// The statements that delete the chains.
pub open spec fn delete_lines(at: Seq<char>, names: Seq<Seq<char>>) -> Seq<Seq<char>> {
    Seq::new(names.len(), |i: int| "delete chain "@ + at + " "@ + names[i])
}

/// The names of a list of chains.
pub open spec fn chain_names(chains: Seq<NftChainView>) -> Seq<Seq<char>> {
    Seq::new(chains.len(), |i: int| chains[i].name)
}

/// The blocks of `add rule` statements, one block for each chain.
pub open spec fn rule_line_blocks(at: Seq<char>, chains: Seq<NftChainView>) -> Seq<Seq<Seq<char>>> {
    Seq::new(chains.len(), |i: int| add_rule_lines(at, chains[i].name, chains[i].rules))
}

/// The statements of a chain update. Every chain exists before a rule is added, so each
/// jump finds its target; chains that are no longer wanted go last, emptied by then.
pub open spec fn chain_update_lines(
    family: Seq<char>,
    table: Seq<char>,
    chains: Seq<NftChainView>,
    deletions: Seq<Seq<char>>,
) -> Seq<Seq<char>> {
    let at = family + " "@ + table;
    seq!["add table "@ + at] + add_chain_lines(at, chains) + flush_lines(at, chain_names(chains))
        + flush_lines(at, deletions) + concat_all(rule_line_blocks(at, chains)) + delete_lines(
        at,
        deletions,
    )
}

/// `a`, `b`, a blank and `c`.
fn cat_at(a: &str, b: &str, c: &str) -> (r: String)
    ensures
        r@ == a@ + b@ + " "@ + c@,
{
    let mut s = cat3(a, b, " ");
    s.push_str(c);
    s
}

/// The statement that creates a chain if it is not there.
pub(crate) fn render_add_chain(at: &str, name: &str, chain: &NftChain) -> (r: String)
    ensures
        r@ == add_chain_line(at@, name@, chain.deep_view().base),
{
    let mut s = cat_at("add chain ", at, name);
    if let Some(decl) = chain.base_decl() {
        s.push_str(" { ");
        s.push_str(decl.as_str());
        s.push_str(" }");
    }
    s
}

/// Writes the statements that append the rules of `chain` to the chain `name`.
pub(crate) fn write_add_rules(doc: &mut Document, at: &str, name: &str, chain: &NftChain)
    requires
        old(doc).wf(),
    ensures
        final(doc).wf(),
        final(doc).lines() == old(doc).lines() + add_rule_lines(
            at@,
            name@,
            chain.deep_view().rules,
        ),
{
    let ghost start = doc.lines();
    let ghost all = add_rule_lines(at@, name@, chain.deep_view().rules);
    assert(start + all.take(0) =~= start);
    for j in 0..chain.rules.len()
        invariant
            doc.wf(),
            all == add_rule_lines(at@, name@, chain.deep_view().rules),
            doc.lines() == start + all.take(j as int),
    {
        let mut s = cat_at("add rule ", at, name);
        s.push_str(" ");
        s.push_str(chain.rules[j].render().as_str());
        doc.line(s.as_str());
        assert(doc.lines() =~= start + all.take(j + 1));
    }
    assert(all.take(all.len() as int) =~= all);
}

/// The document that brings the given chains to their rules and deletes others, and
/// leaves the sets and the other chains of the table alone.
pub fn render_chain_updates(
    family: &str,
    table: &str,
    chains: &[NftChain],
    deletions: &[String],
) -> (r: String)
    ensures
        r@ == doc_of(
            chain_update_lines(family@, table@, chains.deep_view(), deletions.deep_view()),
        ),
{
    let ghost cv = chains.deep_view();
    let ghost dv = deletions.deep_view();
    let mut at = cat(family, " ");
    at.push_str(table);
    let mut doc = Document::new();
    doc.line(cat("add table ", at.as_str()).as_str());
    let ghost l0 = doc.lines();
    assert(l0 =~= seq!["add table "@ + at@]);
    assert(l0 + add_chain_lines(at@, cv).take(0) =~= l0);
    for i in 0..chains.len()
        invariant
            doc.wf(),
            cv == chains.deep_view(),
            doc.lines() == l0 + add_chain_lines(at@, cv).take(i as int),
    {
        let s = render_add_chain(at.as_str(), chains[i].name.as_str(), &chains[i]);
        doc.line(s.as_str());
        assert(doc.lines() =~= l0 + add_chain_lines(at@, cv).take(i + 1));
    }
    let ghost l1 = doc.lines();
    assert(l1 =~= l0 + add_chain_lines(at@, cv));
    assert(l1 + flush_lines(at@, chain_names(cv)).take(0) =~= l1);
    for i in 0..chains.len()
        invariant
            doc.wf(),
            cv == chains.deep_view(),
            doc.lines() == l1 + flush_lines(at@, chain_names(cv)).take(i as int),
    {
        doc.line(cat_at("flush chain ", at.as_str(), chains[i].name.as_str()).as_str());
        assert(doc.lines() =~= l1 + flush_lines(at@, chain_names(cv)).take(i + 1));
    }
    let ghost l2 = doc.lines();
    assert(l2 =~= l1 + flush_lines(at@, chain_names(cv)));
    assert(l2 + flush_lines(at@, dv).take(0) =~= l2);
    for i in 0..deletions.len()
        invariant
            doc.wf(),
            dv == deletions.deep_view(),
            doc.lines() == l2 + flush_lines(at@, dv).take(i as int),
    {
        doc.line(cat_at("flush chain ", at.as_str(), deletions[i].as_str()).as_str());
        assert(doc.lines() =~= l2 + flush_lines(at@, dv).take(i + 1));
    }
    let ghost l3 = doc.lines();
    assert(l3 =~= l2 + flush_lines(at@, dv));
    assert(l3 + Seq::<Seq<char>>::empty() =~= l3);
    for i in 0..chains.len()
        invariant
            doc.wf(),
            cv == chains.deep_view(),
            doc.lines() == l3 + concat_first(rule_line_blocks(at@, cv), i as nat),
    {
        let c = &chains[i];
        write_add_rules(&mut doc, at.as_str(), c.name.as_str(), c);
        assert(doc.lines() =~= l3 + concat_first(rule_line_blocks(at@, cv), (i + 1) as nat));
    }
    let ghost l4 = doc.lines();
    assert(l4 + delete_lines(at@, dv).take(0) =~= l4);
    for i in 0..deletions.len()
        invariant
            doc.wf(),
            dv == deletions.deep_view(),
            doc.lines() == l4 + delete_lines(at@, dv).take(i as int),
    {
        doc.line(cat_at("delete chain ", at.as_str(), deletions[i].as_str()).as_str());
        assert(doc.lines() =~= l4 + delete_lines(at@, dv).take(i + 1));
    }
    assert(doc.lines() =~= chain_update_lines(family@, table@, cv, dv));
    doc.finish()
}

/// A chain update creates all chains before it adds a rule, and deletes chains only after
/// all rules have been added; it never touches the table as a whole.
pub proof fn law_chain_update_order(
    family: Seq<char>,
    table: Seq<char>,
    chains: Seq<NftChainView>,
    deletions: Seq<Seq<char>>,
)
    ensures
        ({
            let lines = chain_update_lines(family, table, chains, deletions);
            let a = 1 + chains.len();
            let b = a + chains.len() + deletions.len();
            let c = lines.len() - deletions.len();
            &&& b <= c
            &&& lines[0] == "add table "@ + (family + " "@ + table)
            &&& forall|i: int| 1 <= i < a ==> has_prefix(#[trigger] lines[i], "add chain "@)
            &&& forall|i: int| a <= i < b ==> has_prefix(#[trigger] lines[i], "flush chain "@)
            &&& forall|i: int| b <= i < c ==> has_prefix(#[trigger] lines[i], "add rule "@)
            &&& forall|i: int|
                c <= i < lines.len() ==> has_prefix(#[trigger] lines[i], "delete chain "@)
            &&& forall|i: int|
                0 <= i < lines.len() ==> !has_prefix(#[trigger] lines[i], "flush table"@)
                    && !has_prefix(lines[i], "flush ruleset"@) && !has_prefix(
                    lines[i],
                    "delete table"@,
                )
        }),
{
    let lines = chain_update_lines(family, table, chains, deletions);
    let at = family + " "@ + table;
    let a = 1 + chains.len();
    let b = a + chains.len() + deletions.len();
    let c = lines.len() - deletions.len();
    let blocks = rule_line_blocks(at, chains);
    let rules = concat_all(blocks);
    let is_rule = |l: Seq<char>| has_prefix(l, "add rule "@);
    assert forall|i: int, j: int| 0 <= i < blocks.len() && 0 <= j < blocks[i].len() implies is_rule(
        #[trigger] blocks[i][j],
    ) by {
        let rest = at + " "@ + chains[i].name + " "@ + chains[i].rules[j].text();
        assert(blocks[i][j] =~= "add rule "@ + rest);
        lemma_prefix_of_sum("add rule "@, rest);
    }
    lemma_concat_all(blocks, blocks.len(), is_rule);
    let names = chain_names(chains);
    assert forall|i: int| 1 <= i < a implies has_prefix(#[trigger] lines[i], "add chain "@) by {
        let chain = chains[i - 1];
        assert(lines[i] == add_chain_lines(at, chains)[i - 1]);
        let rest = at + " "@ + chain.name;
        match chain.base {
            Some(h) => {
                let tail = rest + " { "@ + h.text() + " }"@;
                assert(lines[i] =~= "add chain "@ + tail);
                lemma_prefix_of_sum("add chain "@, tail);
            },
            None => {
                assert(lines[i] =~= "add chain "@ + rest);
                lemma_prefix_of_sum("add chain "@, rest);
            },
        }
    }
    assert forall|i: int| a <= i < b implies has_prefix(#[trigger] lines[i], "flush chain "@) by {
        let name = if i < a + chains.len() {
            names[i - a]
        } else {
            deletions[i - a - chains.len()]
        };
        if i < a + chains.len() {
            assert(lines[i] == flush_lines(at, names)[i - a]);
        } else {
            assert(lines[i] == flush_lines(at, deletions)[i - a - chains.len()]);
        }
        let rest = at + " "@ + name;
        assert(lines[i] =~= "flush chain "@ + rest);
        lemma_prefix_of_sum("flush chain "@, rest);
    }
    assert forall|i: int| b <= i < c implies has_prefix(#[trigger] lines[i], "add rule "@) by {
        assert(lines[i] == rules[i - b]);
        assert(is_rule(rules[i - b]));
    }
    assert forall|i: int| c <= i < lines.len() implies has_prefix(
        #[trigger] lines[i],
        "delete chain "@,
    ) by {
        assert(lines[i] == delete_lines(at, deletions)[i - c]);
        let rest = at + " "@ + deletions[i - c];
        assert(lines[i] =~= "delete chain "@ + rest);
        lemma_prefix_of_sum("delete chain "@, rest);
    }
    lemma_prefix_of_sum("add table "@, at);
    reveal_strlit("add table ");
    reveal_strlit("add chain ");
    reveal_strlit("add rule ");
    reveal_strlit("flush chain ");
    reveal_strlit("delete chain ");
    reveal_strlit("flush table");
    reveal_strlit("flush ruleset");
    reveal_strlit("delete table");
    assert forall|i: int| 0 <= i < lines.len() implies !has_prefix(
        #[trigger] lines[i],
        "flush table"@,
    ) && !has_prefix(lines[i], "flush ruleset"@) && !has_prefix(lines[i], "delete table"@) by {
        if i == 0 {
            lemma_prefix_clash(lines[i], "add table "@, 0);
        } else if i < a {
            lemma_prefix_clash(lines[i], "add chain "@, 0);
        } else if i < b {
            lemma_prefix_clash(lines[i], "flush chain "@, 6);
            lemma_prefix_clash(lines[i], "flush chain "@, 0);
        } else if i < c {
            lemma_prefix_clash(lines[i], "add rule "@, 0);
        } else {
            lemma_prefix_clash(lines[i], "delete chain "@, 7);
            lemma_prefix_clash(lines[i], "delete chain "@, 0);
        }
        if has_prefix(lines[i], "flush table"@) {
            lemma_prefix_clash(lines[i], "flush table"@, 0);
            lemma_prefix_clash(lines[i], "flush table"@, 6);
        }
        if has_prefix(lines[i], "flush ruleset"@) {
            lemma_prefix_clash(lines[i], "flush ruleset"@, 0);
            lemma_prefix_clash(lines[i], "flush ruleset"@, 6);
        }
        if has_prefix(lines[i], "delete table"@) {
            lemma_prefix_clash(lines[i], "delete table"@, 0);
            lemma_prefix_clash(lines[i], "delete table"@, 7);
        }
    }
}

/// A text has the characters of its prefix.
proof fn lemma_prefix_clash(s: Seq<char>, p: Seq<char>, k: int)
    requires
        has_prefix(s, p),
        0 <= k < p.len(),
    ensures
        k < s.len(),
        s[k] == p[k],
{
    assert(s.take(p.len() as int)[k] == s[k]);
}

/// The accept mark is a bit of its own: setting it is seen by the test for it, clearing it is
/// too, and neither touches another bit of the mark.
pub proof fn law_accept_mark_is_a_bit_of_its_own(mark: u32, other: u32)
    requires
        other & ACCEPT_MARK == 0,
    ensures
        (mark | ACCEPT_MARK) & ACCEPT_MARK == ACCEPT_MARK,
        (mark & !ACCEPT_MARK) & ACCEPT_MARK == 0,
        (mark | ACCEPT_MARK) & other == mark & other,
        (mark & !ACCEPT_MARK) & other == mark & other,
        !ACCEPT_MARK == u32::MAX - ACCEPT_MARK,
        ACCEPT_MARK != 0,
{
    assert((mark | 0x0100_0000u32) & 0x0100_0000u32 == 0x0100_0000u32) by (bit_vector);
    assert((mark & !0x0100_0000u32) & 0x0100_0000u32 == 0) by (bit_vector);
    assert(other & 0x0100_0000u32 == 0 ==> (mark | 0x0100_0000u32) & other == mark & other)
        by (bit_vector);
    assert(other & 0x0100_0000u32 == 0 ==> (mark & !0x0100_0000u32) & other == mark & other)
        by (bit_vector);
    assert(!0x0100_0000u32 == 0xffff_ffffu32 - 0x0100_0000u32) by (bit_vector);
}

} // verus!
