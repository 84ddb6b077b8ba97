//! Sequences of sequences, and documents made of lines.

use vstd::prelude::*;

verus! {

/// The first `n` blocks, one after the other.
pub open spec fn concat_first<A>(blocks: Seq<Seq<A>>, n: nat) -> Seq<A>
    decreases n,
{
    if n == 0 {
        Seq::empty()
    } else {
        concat_first(blocks, (n - 1) as nat) + blocks[n - 1]
    }
}

/// All blocks, one after the other.
pub open spec fn concat_all<A>(blocks: Seq<Seq<A>>) -> Seq<A> {
    concat_first(blocks, blocks.len())
}

/// What `concat_first` gives depends on the first `n` blocks alone.
pub proof fn lemma_concat_agree<A>(a: Seq<Seq<A>>, b: Seq<Seq<A>>, n: nat)
    requires
        n <= a.len(),
        n <= b.len(),
        forall|i: int| 0 <= i < n ==> a[i] == b[i],
    ensures
        concat_first(a, n) == concat_first(b, n),
    decreases n,
{
    if n > 0 {
        lemma_concat_agree(a, b, (n - 1) as nat);
    }
}

/// What holds of every item of every block holds of every item of the whole.
pub proof fn lemma_concat_all<A>(blocks: Seq<Seq<A>>, n: nat, p: spec_fn(A) -> bool)
    requires
        n <= blocks.len(),
        forall|i: int, j: int|
            0 <= i < n && 0 <= j < blocks[i].len() ==> p(#[trigger] blocks[i][j]),
    ensures
        forall|k: int| 0 <= k < concat_first(blocks, n).len() ==> p(#[trigger] concat_first(blocks, n)[k]),
    decreases n,
{
    if n > 0 {
        lemma_concat_all(blocks, (n - 1) as nat, p);
        let a = concat_first(blocks, (n - 1) as nat);
        let b = blocks[n - 1];
        assert forall|k: int| 0 <= k < (a + b).len() implies p(#[trigger] (a + b)[k]) by {
            if k < a.len() {
                assert((a + b)[k] == a[k]);
            } else {
                assert((a + b)[k] == b[k - a.len()]);
            }
        }
    }
}

/// What stands in a block stands in all blocks together.
pub proof fn lemma_concat_contains<A>(blocks: Seq<Seq<A>>, n: nat, s: int, item: A)
    requires
        n <= blocks.len(),
        0 <= s < n,
        blocks[s].contains(item),
    ensures
        concat_first(blocks, n).contains(item),
    decreases n,
{
    let head = concat_first(blocks, (n - 1) as nat);
    let all = concat_first(blocks, n);
    if s == n - 1 {
        let i = blocks[s].index_of(item);
        assert(all[head.len() + i] == item);
    } else {
        lemma_concat_contains(blocks, (n - 1) as nat, s, item);
        let i = head.index_of(item);
        assert(all[i] == item);
    }
}

/// The first block, and then the others.
pub proof fn lemma_concat_front<A>(blocks: Seq<Seq<A>>, n: nat)
    requires
        0 < n <= blocks.len(),
    ensures
        concat_first(blocks, n) == blocks[0] + concat_first(blocks.skip(1), (n - 1) as nat),
    decreases n,
{
    if n == 1 {
        assert(concat_first(blocks, 1) == concat_first(blocks, 0) + blocks[0]);
        assert(concat_first(blocks, 1) =~= blocks[0] + concat_first(blocks.skip(1), 0));
    } else {
        lemma_concat_front(blocks, (n - 1) as nat);
        assert(blocks.skip(1)[n - 2] == blocks[n - 1]);
        assert(concat_first(blocks, n) =~= blocks[0] + concat_first(
            blocks.skip(1),
            (n - 1) as nat,
        ));
    }
}

/// What stands in all blocks together stands in one of them.
pub proof fn lemma_concat_member<A>(blocks: Seq<Seq<A>>, n: nat, item: A)
    requires
        n <= blocks.len(),
    ensures
        concat_first(blocks, n).contains(item) <==> exists|s: int|
            0 <= s < n && (#[trigger] blocks[s]).contains(item),
    decreases n,
{
    if n > 0 {
        let m = (n - 1) as nat;
        lemma_concat_member(blocks, m, item);
        let head = concat_first(blocks, m);
        let all = concat_first(blocks, n);
        if all.contains(item) {
            let i = all.index_of(item);
            if i < head.len() {
                assert(head[i] == item);
                assert(head.contains(item));
            } else {
                assert(blocks[m as int][i - head.len()] == item);
                assert(blocks[m as int].contains(item));
            }
        }
        if exists|s: int| 0 <= s < n && (#[trigger] blocks[s]).contains(item) {
            let s = choose|s: int| 0 <= s < n && (#[trigger] blocks[s]).contains(item);
            lemma_concat_contains(blocks, n, s, item);
        }
    }
}

/// Appends an item; its view is appended to the view.
pub fn push_item<T: DeepView>(v: &mut Vec<T>, x: T)
    ensures
        final(v)@ == old(v)@.push(x),
        final(v).deep_view() == old(v).deep_view().push(x.deep_view()),
{
    let ghost before = v.deep_view();
    v.push(x);
    assert(v.deep_view() =~= before.push(x.deep_view()));
}

/// Moves all items of `w` behind those of `v`.
pub fn append_items<T: DeepView>(v: &mut Vec<T>, w: &mut Vec<T>)
    ensures
        final(v)@ == old(v)@ + old(w)@,
        final(v).deep_view() == old(v).deep_view() + old(w).deep_view(),
        final(w)@.len() == 0,
{
    let ghost a = v.deep_view();
    let ghost b = w.deep_view();
    v.append(w);
    assert(v.deep_view() =~= a + b);
}

/// The document made of the first `n` lines, each ended by a line feed.
pub open spec fn doc_first(lines: Seq<Seq<char>>, n: nat) -> Seq<char>
    decreases n,
{
    if n == 0 {
        Seq::empty()
    } else {
        doc_first(lines, (n - 1) as nat) + lines[n - 1] + "\n"@
    }
}

/// The document made of the lines, each ended by a line feed.
pub open spec fn doc_of(lines: Seq<Seq<char>>) -> Seq<char> {
    doc_first(lines, lines.len())
}

/// What `doc_first` gives depends on the first `n` lines alone.
proof fn lemma_doc_agree(a: Seq<Seq<char>>, b: Seq<Seq<char>>, n: nat)
    requires
        n <= a.len(),
        n <= b.len(),
        forall|i: int| 0 <= i < n ==> a[i] == b[i],
    ensures
        doc_first(a, n) == doc_first(b, n),
    decreases n,
{
    if n > 0 {
        lemma_doc_agree(a, b, (n - 1) as nat);
    }
}

/// A document under construction, line by line.
pub struct Document {
    text: String,
    lines: Ghost<Seq<Seq<char>>>,
}

impl Document {
    /// The lines written so far.
    pub closed spec fn lines(&self) -> Seq<Seq<char>> {
        self.lines@
    }

    /// The text is the lines, each ended by a line feed.
    pub closed spec fn wf(&self) -> bool {
        self.text@ == doc_of(self.lines@)
    }

    /// The document without a line.
    pub fn new() -> (r: Self)
        ensures
            r.wf(),
            r.lines() == Seq::<Seq<char>>::empty(),
    {
        Document { text: String::new(), lines: Ghost(Seq::empty()) }
    }

    /// Appends one line.
    pub fn line(&mut self, line: &str)
        requires
            old(self).wf(),
        ensures
            final(self).wf(),
            final(self).lines() == old(self).lines().push(line@),
    {
        let ghost before = self.lines@;
        self.text.push_str(line);
        self.text.push_str("\n");
        self.lines = Ghost(before.push(line@));
        proof {
            lemma_doc_agree(before, before.push(line@), before.len());
        }
    }

    /// The finished text.
    pub fn finish(self) -> (r: String)
        requires
            self.wf(),
        ensures
            r@ == doc_of(self.lines()),
    {
        self.text
    }
}

} // verus!
