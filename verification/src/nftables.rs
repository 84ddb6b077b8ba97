//! Rules independent of the backend, and the hashes by which drift is found.
//!
//! Every programmed rule carries a token in its comment. The token of a rule depends on
//! the chain's name and on all rules up to and including it, so an insertion, a removal or
//! a change of order shows.

use crate::digest::{base64_char, base64_of, base64_url, sha224, sha224_of, six_bits};
use crate::text::{cat, decimal, decimal_text, is_alnum, join, join_spec, views};
use vstd::prelude::*;
use vstd::string::*;
use vstd::utf8::encode_utf8;

verus! {

broadcast use crate::text::lemma_views_push;

/// The length of a token.
pub const HASH_LENGTH: usize = 16;

/// One condition of a rule.
#[derive(Debug, PartialEq, Eq)]
pub enum Match {
    /// The protocol.
    Protocol(String),
    /// The destination port.
    DestPort(u16),
    /// The source port.
    SrcPort(u16),
    /// The IP set that holds the source.
    SrcIpSet(String),
    /// The IP set that holds the destination.
    DestIpSet(String),
    /// The incoming interface.
    InInterface(String),
    /// The outgoing interface.
    OutInterface(String),
    /// A fragment that is already rendered.
    Raw(String),
}

/// The mathematical content of a [`Match`].
#[verifier::ext_equal]
pub enum MatchView {
    Protocol(Seq<char>),
    DestPort(u16),
    SrcPort(u16),
    SrcIpSet(Seq<char>),
    DestIpSet(Seq<char>),
    InInterface(Seq<char>),
    OutInterface(Seq<char>),
    Raw(Seq<char>),
}

impl DeepView for Match {
    type V = MatchView;

    open spec fn deep_view(&self) -> MatchView {
        match self {
            Match::Protocol(a) => MatchView::Protocol(a.deep_view()),
            Match::DestPort(a) => MatchView::DestPort(*a),
            Match::SrcPort(a) => MatchView::SrcPort(*a),
            Match::SrcIpSet(a) => MatchView::SrcIpSet(a.deep_view()),
            Match::DestIpSet(a) => MatchView::DestIpSet(a.deep_view()),
            Match::InInterface(a) => MatchView::InInterface(a.deep_view()),
            Match::OutInterface(a) => MatchView::OutInterface(a.deep_view()),
            Match::Raw(a) => MatchView::Raw(a.deep_view()),
        }
    }
}

impl Clone for Match {
    fn clone(&self) -> (r: Self)
        ensures
            r.deep_view() == self.deep_view(),
    {
        let r = match self {
            Match::Protocol(a) => Match::Protocol(a.clone()),
            Match::DestPort(a) => Match::DestPort(*a),
            Match::SrcPort(a) => Match::SrcPort(*a),
            Match::SrcIpSet(a) => Match::SrcIpSet(a.clone()),
            Match::DestIpSet(a) => Match::DestIpSet(a.clone()),
            Match::InInterface(a) => Match::InInterface(a.clone()),
            Match::OutInterface(a) => Match::OutInterface(a.clone()),
            Match::Raw(a) => Match::Raw(a.clone()),
        };
        assert(r.deep_view() =~= self.deep_view());
        r
    }
}

/// What a rule does.
#[derive(Debug, PartialEq, Eq)]
pub enum Action {
    /// Accept the packet.
    Accept,
    /// Drop the packet.
    Drop,
    /// Go back to the calling chain.
    Return,
    /// Go to a chain, and come back at its end.
    Jump(String),
    /// Go to a chain without coming back.
    Goto(String),
    /// Rewrite the source to the outgoing interface's address.
    Masquerade,
    /// Log the packet with a prefix.
    Log(String),
}

/// The mathematical content of a [`Action`].
#[verifier::ext_equal]
pub enum ActionView {
    Accept,
    Drop,
    Return,
    Jump(Seq<char>),
    Goto(Seq<char>),
    Masquerade,
    Log(Seq<char>),
}

impl DeepView for Action {
    type V = ActionView;

    open spec fn deep_view(&self) -> ActionView {
        match self {
            Action::Accept => ActionView::Accept,
            Action::Drop => ActionView::Drop,
            Action::Return => ActionView::Return,
            Action::Jump(a) => ActionView::Jump(a.deep_view()),
            Action::Goto(a) => ActionView::Goto(a.deep_view()),
            Action::Masquerade => ActionView::Masquerade,
            Action::Log(a) => ActionView::Log(a.deep_view()),
        }
    }
}

impl Clone for Action {
    fn clone(&self) -> (r: Self)
        ensures
            r.deep_view() == self.deep_view(),
    {
        let r = match self {
            Action::Accept => Action::Accept,
            Action::Drop => Action::Drop,
            Action::Return => Action::Return,
            Action::Jump(a) => Action::Jump(a.clone()),
            Action::Goto(a) => Action::Goto(a.clone()),
            Action::Masquerade => Action::Masquerade,
            Action::Log(a) => Action::Log(a.clone()),
        };
        assert(r.deep_view() =~= self.deep_view());
        r
    }
}

/// A rule.
#[derive(Debug, PartialEq, Eq)]
pub struct Rule {
    /// The conditions, all of which must hold.
    pub matches: Vec<Match>,
    /// What is done then.
    pub action: Action,
    /// A comment; it is not part of the hash.
    pub comment: Option<String>,
}

/// The mathematical content of a [`Rule`].
#[verifier::ext_equal]
pub struct RuleView {
    pub matches: Seq<MatchView>,
    pub action: ActionView,
    pub comment: Option<Seq<char>>,
}

impl DeepView for Rule {
    type V = RuleView;

    open spec fn deep_view(&self) -> RuleView {
        RuleView {
            matches: self.matches.deep_view(),
            action: self.action.deep_view(),
            comment: self.comment.deep_view(),
        }
    }
}

impl Clone for Rule {
    fn clone(&self) -> (r: Self)
        ensures
            r.deep_view() == self.deep_view(),
    {
        let r = Rule {
            matches: self.matches.clone(),
            action: self.action.clone(),
            comment: self.comment.clone(),
        };
        assert(r.deep_view() =~= self.deep_view());
        r
    }
}

/// A chain of rules.
#[derive(Debug, PartialEq, Eq)]
pub struct Chain {
    /// Its name.
    pub name: String,
    /// Its rules, in order.
    pub rules: Vec<Rule>,
}

/// The mathematical content of a [`Chain`].
#[verifier::ext_equal]
pub struct ChainView {
    pub name: Seq<char>,
    pub rules: Seq<RuleView>,
}

impl DeepView for Chain {
    type V = ChainView;

    open spec fn deep_view(&self) -> ChainView {
        ChainView {
            name: self.name.deep_view(),
            rules: self.rules.deep_view(),
        }
    }
}

impl Clone for Chain {
    fn clone(&self) -> (r: Self)
        ensures
            r.deep_view() == self.deep_view(),
    {
        let r = Chain {
            name: self.name.clone(),
            rules: self.rules.clone(),
        };
        assert(r.deep_view() =~= self.deep_view());
        r
    }
}

impl MatchView {
    /// The text of the condition.
    pub open spec fn text(self) -> Seq<char> {
        match self {
            MatchView::Protocol(p) => "proto "@ + p,
            MatchView::DestPort(n) => "dport "@ + decimal(n as nat),
            MatchView::SrcPort(n) => "sport "@ + decimal(n as nat),
            MatchView::SrcIpSet(s) => "src-ipset "@ + s,
            MatchView::DestIpSet(s) => "dst-ipset "@ + s,
            MatchView::InInterface(s) => "iif "@ + s,
            MatchView::OutInterface(s) => "oif "@ + s,
            MatchView::Raw(s) => s,
        }
    }
}

impl Match {
    /// The text of the condition.
    pub fn render(&self) -> (r: String)
        ensures
            r@ == self.deep_view().text(),
    {
        match self {
            Match::Protocol(p) => cat("proto ", p.as_str()),
            Match::DestPort(n) => cat("dport ", decimal_text(*n as u64).as_str()),
            Match::SrcPort(n) => cat("sport ", decimal_text(*n as u64).as_str()),
            Match::SrcIpSet(s) => cat("src-ipset ", s.as_str()),
            Match::DestIpSet(s) => cat("dst-ipset ", s.as_str()),
            Match::InInterface(s) => cat("iif ", s.as_str()),
            Match::OutInterface(s) => cat("oif ", s.as_str()),
            Match::Raw(s) => s.clone(),
        }
    }
}

impl ActionView {
    /// The text of the action.
    pub open spec fn text(self) -> Seq<char> {
        match self {
            ActionView::Accept => "accept"@,
            ActionView::Drop => "drop"@,
            ActionView::Return => "return"@,
            ActionView::Jump(c) => "jump "@ + c,
            ActionView::Goto(c) => "goto "@ + c,
            ActionView::Masquerade => "masquerade"@,
            ActionView::Log(p) => "log prefix "@ + p,
        }
    }
}

impl Action {
    /// The text of the action.
    pub fn render(&self) -> (r: String)
        ensures
            r@ == self.deep_view().text(),
    {
        match self {
            Action::Accept => "accept".to_owned(),
            Action::Drop => "drop".to_owned(),
            Action::Return => "return".to_owned(),
            Action::Jump(c) => cat("jump ", c.as_str()),
            Action::Goto(c) => cat("goto ", c.as_str()),
            Action::Masquerade => "masquerade".to_owned(),
            Action::Log(p) => cat("log prefix ", p.as_str()),
        }
    }
}

/// The texts of a list of conditions.
pub open spec fn match_texts(matches: Seq<MatchView>) -> Seq<Seq<char>> {
    Seq::new(matches.len(), |i: int| matches[i].text())
}

impl RuleView {
    /// The text that is hashed: the conditions and the action, separated by blanks.
    pub open spec fn hash_text(self) -> Seq<char> {
        join_spec(match_texts(self.matches).push(self.action.text()), " "@)
    }
}

impl Rule {
    /// A rule without conditions.
    pub fn new(action: Action) -> (r: Self)
        ensures
            r.deep_view() == (RuleView {
                matches: Seq::empty(),
                action: action.deep_view(),
                comment: None,
            }),
    {
        let r = Rule { matches: Vec::new(), action, comment: None };
        assert(r.deep_view().matches =~= Seq::<MatchView>::empty());
        r
    }

    /// The rule with one more condition, after those that it has.
    pub fn with_match(self, m: Match) -> (r: Self)
        ensures
            r.deep_view() == (RuleView {
                matches: self.deep_view().matches.push(m.deep_view()),
                ..self.deep_view()
            }),
    {
        let mut r = self;
        r.matches.push(m);
        assert(r.deep_view().matches =~= self.deep_view().matches.push(m.deep_view()));
        r
    }

    /// The text that is hashed.
    pub fn render_for_hash(&self) -> (r: String)
        ensures
            r@ == self.deep_view().hash_text(),
    {
        let ghost texts = match_texts(self.deep_view().matches);
        let mut parts: Vec<String> = Vec::new();
        for i in 0..self.matches.len()
            invariant
                texts == match_texts(self.deep_view().matches),
                views(parts@) == texts.take(i as int),
        {
            let t = self.matches[i].render();
            parts.push(t);
            assert(views(parts@) =~= texts.take(i + 1));
        }
        parts.push(self.action.render());
        assert(views(parts@) =~= texts.push(self.deep_view().action.text()));
        join(&parts, " ")
    }
}

/// Whether a character is of the URL-safe alphabet: a letter, a digit, `-` or `_`.
pub open spec fn is_url_char(c: char) -> bool {
    is_alnum(c) || c == '-' || c == '_'
}

/// Whether a text has the shape of a token: [`HASH_LENGTH`] characters, all of the URL-safe
/// alphabet.
pub open spec fn is_token(s: Seq<char>) -> bool {
    s.len() == HASH_LENGTH && forall|i: int| 0 <= i < s.len() ==> is_url_char(#[trigger] s[i])
}

/// The token of a digest: the first characters of its base64 text.
pub open spec fn token_of(digest: Seq<u8>) -> Seq<char> {
    base64_of(digest).take(HASH_LENGTH as int)
}

impl ChainView {
    /// The digest after the first `n` rules: that of the name to begin with, then for each
    /// rule that of the previous digest followed by the rule's text.
    pub open spec fn digest(self, n: nat) -> Seq<u8>
        decreases n,
    {
        if n == 0 {
            sha224_of(encode_utf8(self.name))
        } else {
            sha224_of(
                self.digest((n - 1) as nat) + encode_utf8(self.rules[n - 1].hash_text()),
            )
        }
    }

    /// The tokens of the rules.
    pub open spec fn tokens(self) -> Seq<Seq<char>> {
        Seq::new(self.rules.len(), |i: int| token_of(self.digest((i + 1) as nat)))
    }
}

/// The token of a digest.
pub fn token(digest: &[u8]) -> (r: String)
    requires
        digest@.len() == 28,
    ensures
        r@ == token_of(digest@),
{
    let text = base64_url(digest);
    assert(base64_of(digest@).len() == 38);
    text.as_str().substring_char(0, HASH_LENGTH).to_owned()
}

/// `a` followed by `b`.
fn join_bytes(a: &Vec<u8>, b: &[u8]) -> (r: Vec<u8>)
    ensures
        r@ == a@ + b@,
{
    let mut out: Vec<u8> = Vec::new();
    for i in 0..a.len()
        invariant
            out@ == a@.take(i as int),
    {
        out.push(a[i]);
        assert(out@ =~= a@.take(i + 1));
    }
    assert(a@.take(a@.len() as int) =~= a@);
    for i in 0..b.len()
        invariant
            out@ == a@ + b@.take(i as int),
    {
        out.push(b[i]);
        assert(out@ =~= a@ + b@.take(i + 1));
    }
    assert(b@.take(b@.len() as int) =~= b@);
    out
}

impl Chain {
    /// A chain with the given rules.
    pub fn new(name: &str, rules: Vec<Rule>) -> (r: Self)
        ensures
            r.deep_view() == (ChainView { name: name@, rules: rules.deep_view() }),
    {
        Chain { name: name.to_owned(), rules }
    }

    /// The token of each rule.
    pub fn rule_hashes(&self) -> (r: Vec<String>)
        ensures
            views(r@) == self.deep_view().tokens(),
            r@.len() == self.rules@.len(),
            forall|i: int| 0 <= i < r@.len() ==> is_token((#[trigger] r@[i])@),
    {
        let ghost view = self.deep_view();
        let mut hash = sha224(self.name.as_str().as_bytes());
        let mut out: Vec<String> = Vec::new();
        assert(views(out@) =~= view.tokens().take(0));
        for i in 0..self.rules.len()
            invariant
                view == self.deep_view(),
                hash@ == view.digest(i as nat),
                hash@.len() == 28,
                views(out@) == view.tokens().take(i as int),
                out@.len() == i,
                forall|j: int| 0 <= j < i ==> is_token((#[trigger] out@[j])@),
        {
            let text = self.rules[i].render_for_hash();
            let message = join_bytes(&hash, text.as_str().as_bytes());
            hash = sha224(message.as_slice());
            proof {
                law_token_shape(hash@);
            }
            out.push(token(hash.as_slice()));
            assert(views(out@) =~= view.tokens().take(i + 1));
        }
        assert(views(out@) =~= view.tokens());
        out
    }
}

/// Whether position `i` differs: the tokens there differ, or one side has none.
pub open spec fn differs(want: Seq<Seq<char>>, have: Seq<Seq<char>>, i: int) -> bool {
    !(i < want.len() && i < have.len() && want[i] == have[i])
}

/// Those of the first `n` positions that differ.
pub open spec fn drift_first(want: Seq<Seq<char>>, have: Seq<Seq<char>>, n: nat) -> Seq<usize>
    decreases n,
{
    if n == 0 {
        Seq::empty()
    } else {
        let head = drift_first(want, have, (n - 1) as nat);
        if differs(want, have, n - 1) {
            head.push((n - 1) as usize)
        } else {
            head
        }
    }
}

/// All positions, up to the longer of the two lists, that differ.
pub open spec fn drift(want: Seq<Seq<char>>, have: Seq<Seq<char>>) -> Seq<usize> {
    drift_first(
        want,
        have,
        if want.len() < have.len() {
            have.len()
        } else {
            want.len()
        },
    )
}

/// The positions at which the wanted tokens differ from those found, ascending.
pub fn drift_between(want: &Vec<String>, have: &[String]) -> (r: Vec<usize>)
    ensures
        r@ == drift(views(want@), have.deep_view()),
{
    let ghost w = views(want@);
    let ghost h = have.deep_view();
    let max: usize = if want.len() < have.len() {
        have.len()
    } else {
        want.len()
    };
    let mut out: Vec<usize> = Vec::new();
    for i in 0..max
        invariant
            w == views(want@),
            h == have.deep_view(),
            out@ == drift_first(w, h, i as nat),
    {
        let same = i < want.len() && i < have.len() && crate::text::str_eq(
            want[i].as_str(),
            have[i].as_str(),
        );
        if !same {
            out.push(i);
        }
    }
    out
}

/// The positions at which the chain differs from the tokens found in the dataplane: empty
/// where it is in sync. Missing and surplus rules count.
pub fn drifted_positions(desired: &Chain, dataplane_hashes: &[String]) -> (r: Vec<usize>)
    ensures
        r@ == drift(desired.deep_view().tokens(), dataplane_hashes.deep_view()),
{
    let want = desired.rule_hashes();
    drift_between(&want, dataplane_hashes)
}

/// What is listed as drift.
proof fn lemma_drift_first(want: Seq<Seq<char>>, have: Seq<Seq<char>>, n: nat)
    requires
        n <= usize::MAX,
    ensures
        drift_first(want, have, n).len() == 0 <==> forall|i: int|
            0 <= i < n ==> !#[trigger] differs(want, have, i),
        forall|i: int|
            0 <= i < n ==> (#[trigger] differs(want, have, i) <==> drift_first(
                want,
                have,
                n,
            ).contains(i as usize)),
        forall|k: int|
            0 <= k < drift_first(want, have, n).len() ==> #[trigger] drift_first(want, have, n)[k] < n,
    decreases n,
{
    if n > 0 {
        let m = (n - 1) as nat;
        lemma_drift_first(want, have, m);
        let head = drift_first(want, have, m);
        let all = drift_first(want, have, n);
        assert forall|i: int| 0 <= i < n implies (#[trigger] differs(want, have, i)
            <==> all.contains(i as usize)) by {
            if i < m {
                if head.contains(i as usize) {
                    let k = head.index_of(i as usize);
                    assert(all[k] == i as usize);
                }
                if all.contains(i as usize) {
                    let k = all.index_of(i as usize);
                    if k < head.len() {
                        assert(head[k] == i as usize);
                    }
                }
            } else {
                if differs(want, have, i) {
                    assert(all[head.len() as int] == i as usize);
                } else if head.contains(i as usize) {
                    let k = head.index_of(i as usize);
                    assert(head[k] < m);
                }
            }
        }
        if all.len() == 0 {
            assert(!differs(want, have, m as int));
        }
        if forall|i: int| 0 <= i < n ==> !#[trigger] differs(want, have, i) {
            assert(!differs(want, have, m as int));
        }
    }
}

/// There is no drift exactly where the tokens found are the wanted ones, and a position is
/// listed exactly where the two differ there.
pub proof fn law_drift_is_exact(want: Seq<Seq<char>>, have: Seq<Seq<char>>)
    requires
        want.len() <= usize::MAX,
        have.len() <= usize::MAX,
    ensures
        drift(want, have).len() == 0 <==> want == have,
        forall|i: int|
            0 <= i < want.len() || 0 <= i < have.len() ==> (#[trigger] differs(want, have, i)
                <==> drift(want, have).contains(i as usize)),
{
    let n: nat = if want.len() < have.len() {
        have.len()
    } else {
        want.len()
    };
    lemma_drift_first(want, have, n);
    if drift(want, have).len() == 0 {
        if want.len() < have.len() {
            assert(differs(want, have, want.len() as int));
        } else if have.len() < want.len() {
            assert(differs(want, have, have.len() as int));
        }
        assert forall|i: int| 0 <= i < want.len() implies want[i] == have[i] by {
            assert(!differs(want, have, i));
        }
        assert(want =~= have);
    }
    if want == have {
        assert forall|i: int| 0 <= i < n implies !#[trigger] differs(want, have, i) by {}
    }
}

/// The token of a rule depends on the chain's name and on the rules up to it alone: what
/// follows does not change it, and neither do comments.
pub proof fn law_tokens_depend_on_prefix(a: ChainView, b: ChainView, n: nat)
    requires
        a.name == b.name,
        n <= a.rules.len(),
        n <= b.rules.len(),
        forall|i: int|
            0 <= i < n ==> (#[trigger] a.rules[i]).matches == b.rules[i].matches
                && a.rules[i].action == b.rules[i].action,
    ensures
        a.digest(n) == b.digest(n),
        forall|i: int| 0 <= i < n ==> #[trigger] a.tokens()[i] == b.tokens()[i],
    decreases n,
{
    if n > 0 {
        law_tokens_depend_on_prefix(a, b, (n - 1) as nat);
        assert(a.rules[n - 1].hash_text() == b.rules[n - 1].hash_text());
        assert forall|i: int| 0 <= i < n implies #[trigger] a.tokens()[i] == b.tokens()[i] by {
            law_tokens_depend_on_prefix(a, b, (n - 1) as nat);
        }
    }
}

/// Every token has the same length and consists of characters of the URL-safe alphabet.
pub proof fn law_token_shape(digest: Seq<u8>)
    requires
        digest.len() == 28,
    ensures
        is_token(token_of(digest)),
{
    assert(base64_of(digest).len() == 38);
    let t = token_of(digest);
    assert forall|i: int| 0 <= i < t.len() implies is_url_char(#[trigger] t[i]) by {
        assert(t[i] == base64_of(digest)[i]);
        assert(is_url_char(base64_char(six_bits(digest, i))));
    }
}

/// The digests that two chains have in common come from the same name and the same rules, in
/// the same order, up to that point: a token covers the chain's name and everything before its
/// rule. This holds as long as the digest tells apart what was put into it.
pub proof fn law_tokens_cover_name_and_rules(a: ChainView, b: ChainView, n: nat)
    requires
        n <= a.rules.len(),
        n <= b.rules.len(),
        sha224_of(encode_utf8(a.name)) == sha224_of(encode_utf8(b.name)) ==> encode_utf8(a.name)
            == encode_utf8(b.name),
        forall|i: int|
            0 <= i < n ==> {
                let x = #[trigger] a.digest(i as nat) + encode_utf8(a.rules[i].hash_text());
                let y = b.digest(i as nat) + encode_utf8(b.rules[i].hash_text());
                sha224_of(x) == sha224_of(y) ==> x == y
            },
        forall|i: int|
            0 <= i <= n ==> (#[trigger] a.digest(i as nat)).len() == b.digest(i as nat).len(),
        a.digest(n) == b.digest(n),
    ensures
        encode_utf8(a.name) == encode_utf8(b.name),
        forall|i: int|
            0 <= i < n ==> encode_utf8((#[trigger] a.rules[i]).hash_text()) == encode_utf8(
                b.rules[i].hash_text(),
            ),
    decreases n,
{
    if n > 0 {
        let m = (n - 1) as nat;
        let d = a.digest(m);
        let e = b.digest(m);
        let x = encode_utf8(a.rules[m as int].hash_text());
        let y = encode_utf8(b.rules[m as int].hash_text());
        assert(d + x == e + y);
        assert(d =~= (d + x).take(d.len() as int));
        assert(e =~= (e + y).take(e.len() as int));
        assert(x =~= (d + x).skip(d.len() as int));
        assert(y =~= (e + y).skip(e.len() as int));
        law_tokens_cover_name_and_rules(a, b, m);
    }
}

/// What is hashed of a rule is its conditions and its action in their order, and nothing else:
/// the comment does not count.
pub proof fn law_comments_do_not_count(r: RuleView, comment: Option<Seq<char>>)
    ensures
        (RuleView { comment, ..r }).hash_text() == r.hash_text(),
{
}

} // verus!
