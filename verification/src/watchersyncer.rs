//! One status for several watches.
//!
//! Each watched kind reports its own progress. Downstream sees one status only: that the
//! lists are being delivered, once, at the beginning; and that all of them have been, once,
//! when the last one is complete. It never falls back. Updates pass in the order in which
//! they arrive.

use crate::cas::CasError;
use crate::seqs::push_item;
use crate::syncer::{SyncStatus, SyncerEvent, SyncerEventView};
use vstd::prelude::*;

verus! {

/// How far each kind and all of them together have come.
#[derive(Debug)]
pub struct Combined {
    /// For each kind, whether its first list is complete.
    pub per_kind_insync: Vec<bool>,
    /// Whether the first lists of all kinds are complete.
    pub combined_insync: bool,
}

/// The mathematical content of a [`Combined`].
#[verifier::ext_equal]
pub struct CombinedView {
    pub kinds: Seq<bool>,
    pub all: bool,
}

/// Whether every kind is complete.
pub open spec fn complete(kinds: Seq<bool>) -> bool {
    forall|i: int| 0 <= i < kinds.len() ==> #[trigger] kinds[i]
}

impl CombinedView {
    /// Before anything has happened.
    pub open spec fn initial(num_kinds: nat) -> CombinedView {
        CombinedView { kinds: Seq::new(num_kinds, |i: int| false), all: false }
    }

    /// After the beginning has been announced.
    pub open spec fn started(self) -> CombinedView {
        CombinedView { all: self.all || self.kinds.len() == 0, ..self }
    }

    /// The announcement of the beginning. No kinds at all are complete at once.
    pub open spec fn opening(self) -> Seq<SyncerEventView> {
        let begin = seq![SyncerEventView::Status(SyncStatus::ResyncInProgress)];
        if self.kinds.len() == 0 {
            begin.push(SyncerEventView::Status(SyncStatus::InSync))
        } else {
            begin
        }
    }

    /// After an event of a kind.
    pub open spec fn after(self, idx: int, ev: SyncerEventView) -> CombinedView {
        if ev == SyncerEventView::Status(SyncStatus::InSync) {
            let kinds = self.kinds.update(idx, true);
            CombinedView { kinds, all: self.all || complete(kinds) }
        } else {
            self
        }
    }

    /// What an event of a kind makes visible.
    pub open spec fn visible(self, idx: int, ev: SyncerEventView) -> Seq<SyncerEventView> {
        match ev {
            SyncerEventView::Status(_) => if !self.all && self.after(idx, ev).all {
                seq![SyncerEventView::Status(SyncStatus::InSync)]
            } else {
                Seq::empty()
            },
            SyncerEventView::Update { .. } => seq![ev],
        }
    }

    /// After the first `n` events.
    pub open spec fn after_first(self, input: Seq<(int, SyncerEventView)>, n: nat) -> CombinedView
        decreases n,
    {
        if n == 0 {
            self
        } else {
            self.after_first(input, (n - 1) as nat).after(input[n - 1].0, input[n - 1].1)
        }
    }

    /// What the first `n` events make visible.
    pub open spec fn visible_first(self, input: Seq<(int, SyncerEventView)>, n: nat) -> Seq<
        SyncerEventView,
    >
        decreases n,
    {
        if n == 0 {
            Seq::empty()
        } else {
            self.visible_first(input, (n - 1) as nat) + self.after_first(
                input,
                (n - 1) as nat,
            ).visible(input[n - 1].0, input[n - 1].1)
        }
    }
}

impl Combined {
    /// The mathematical content.
    pub open spec fn state(&self) -> CombinedView {
        CombinedView { kinds: self.per_kind_insync@, all: self.combined_insync }
    }

    /// Before anything has happened.
    pub fn new(num_kinds: usize) -> (r: Self)
        ensures
            r.state() == CombinedView::initial(num_kinds as nat),
    {
        let mut kinds: Vec<bool> = Vec::new();
        for i in 0..num_kinds
            invariant
                kinds@ == Seq::new(i as nat, |j: int| false),
        {
            kinds.push(false);
            assert(kinds@ =~= Seq::new((i + 1) as nat, |j: int| false));
        }
        Combined { per_kind_insync: kinds, combined_insync: false }
    }

    /// Announces the beginning.
    pub fn start(&mut self) -> (r: Vec<SyncerEvent>)
        ensures
            final(self).state() == old(self).state().started(),
            r.deep_view() == old(self).state().opening(),
    {
        let mut out: Vec<SyncerEvent> = Vec::new();
        push_item(&mut out, SyncerEvent::Status(SyncStatus::ResyncInProgress));
        if self.per_kind_insync.len() == 0 {
            self.combined_insync = true;
            push_item(&mut out, SyncerEvent::Status(SyncStatus::InSync));
        }
        assert(out.deep_view() =~= old(self).state().opening());
        out
    }

    /// Whether every kind is complete.
    fn all_complete(&self) -> (r: bool)
        ensures
            r == complete(self.per_kind_insync@),
    {
        for i in 0..self.per_kind_insync.len()
            invariant
                forall|j: int| 0 <= j < i ==> #[trigger] self.per_kind_insync@[j],
        {
            if !self.per_kind_insync[i] {
                return false;
            }
        }
        true
    }

    /// Takes in one event of the kind `idx`, and gives what becomes visible.
    pub fn on(&mut self, idx: usize, ev: SyncerEvent) -> (r: Vec<SyncerEvent>)
        requires
            idx < old(self).per_kind_insync@.len(),
        ensures
            final(self).state() == old(self).state().after(idx as int, ev.deep_view()),
            r.deep_view() == old(self).state().visible(idx as int, ev.deep_view()),
    {
        let ghost before = self.state();
        let ghost event = ev.deep_view();
        let mut out: Vec<SyncerEvent> = Vec::new();
        match ev {
            SyncerEvent::Status(SyncStatus::InSync) => {
                self.per_kind_insync.set(idx, true);
                if !self.combined_insync && self.all_complete() {
                    self.combined_insync = true;
                    push_item(&mut out, SyncerEvent::Status(SyncStatus::InSync));
                }
            },
            SyncerEvent::Status(_) => {},
            update => {
                push_item(&mut out, update);
            },
        }
        assert(self.state() =~= before.after(idx as int, event));
        assert(out.deep_view() =~= before.visible(idx as int, event));
        out
    }
}

/// An item of a stream of events that can fail.
pub open spec fn item_view(item: Result<SyncerEvent, CasError>) -> Result<SyncerEventView, CasError> {
    match item {
        Ok(ev) => Ok(ev.deep_view()),
        Err(e) => Err(e),
    }
}

/// The items of a stream of events that can fail.
pub open spec fn item_views(items: Seq<Result<SyncerEvent, CasError>>) -> Seq<
    Result<SyncerEventView, CasError>,
> {
    Seq::new(items.len(), |i: int| item_view(items[i]))
}

/// The events as items that did not fail.
pub open spec fn passed(events: Seq<SyncerEventView>) -> Seq<Result<SyncerEventView, CasError>> {
    Seq::new(events.len(), |i: int| Ok(events[i]))
}

/// Appends the events as items that did not fail.
fn pass_all(out: &mut Vec<Result<SyncerEvent, CasError>>, events: Vec<SyncerEvent>)
    ensures
        item_views(final(out)@) == item_views(old(out)@) + passed(events.deep_view()),
{
    let ghost before = item_views(out@);
    let ghost all = events.deep_view();
    assert(item_views(out@) =~= before + passed(all.take(0)));
    for ev in it: events
        invariant
            it.seq() == events@,
            all == events.deep_view(),
            item_views(out@) == before + passed(all.take(it.index())),
    {
        let ghost k = it.index();
        let ghost prev = out@;
        assert(ev.deep_view() == all[k]);
        out.push(Ok(ev));
        assert(item_views(out@) =~= item_views(prev).push(Ok(all[k])));
        assert(passed(all.take(k + 1)) =~= passed(all.take(k)).push(Ok(all[k])));
        assert(item_views(out@) =~= before + passed(all.take(k + 1)));
    }
    assert(all.take(all.len() as int) =~= all);
}

impl CombinedView {
    /// After an item of the merged watches. A failure changes nothing.
    pub open spec fn after_item(self, item: Result<(usize, SyncerEvent), CasError>) -> CombinedView {
        match item {
            Ok((idx, ev)) => self.after(idx as int, ev.deep_view()),
            Err(_) => self,
        }
    }

    /// What an item of the merged watches makes visible. A failure is handed on.
    pub open spec fn visible_item(self, item: Result<(usize, SyncerEvent), CasError>) -> Seq<
        Result<SyncerEventView, CasError>,
    > {
        match item {
            Ok((idx, ev)) => passed(self.visible(idx as int, ev.deep_view())),
            Err(e) => seq![Err(e)],
        }
    }

    /// After the first `n` items.
    pub open spec fn after_items(
        self,
        input: Seq<Result<(usize, SyncerEvent), CasError>>,
        n: nat,
    ) -> CombinedView
        decreases n,
    {
        if n == 0 {
            self
        } else {
            self.after_items(input, (n - 1) as nat).after_item(input[n - 1])
        }
    }

    /// What the first `n` items make visible.
    pub open spec fn visible_items(
        self,
        input: Seq<Result<(usize, SyncerEvent), CasError>>,
        n: nat,
    ) -> Seq<Result<SyncerEventView, CasError>>
        decreases n,
    {
        if n == 0 {
            Seq::empty()
        } else {
            self.visible_items(input, (n - 1) as nat) + self.after_items(
                input,
                (n - 1) as nat,
            ).visible_item(input[n - 1])
        }
    }
}

impl Combined {
    /// Takes in one item of the merged watches, and gives what becomes visible.
    pub fn on_item(&mut self, item: Result<(usize, SyncerEvent), CasError>) -> (r: Vec<
        Result<SyncerEvent, CasError>,
    >)
        requires
            item matches Ok((idx, _)) ==> idx < old(self).per_kind_insync@.len(),
        ensures
            final(self).state() == old(self).state().after_item(item),
            item_views(r@) == old(self).state().visible_item(item),
    {
        let mut out: Vec<Result<SyncerEvent, CasError>> = Vec::new();
        match item {
            Ok((idx, ev)) => {
                let ghost event = ev.deep_view();
                let events = self.on(idx, ev);
                pass_all(&mut out, events);
                assert(item_views(out@) =~= passed(old(self).state().visible(idx as int, event)));
            },
            Err(e) => {
                out.push(Err(e));
                assert(item_views(out@) =~= seq![Err(e)]);
            },
        }
        out
    }
}

/// Everything that becomes visible of the merged watches of `num_kinds` kinds, from the
/// announcement of the beginning on.
pub fn combine(num_kinds: usize, input: Vec<Result<(usize, SyncerEvent), CasError>>) -> (r: Vec<
    Result<SyncerEvent, CasError>,
>)
    requires
        forall|i: int|
            0 <= i < input@.len() ==> ((#[trigger] input@[i]) matches Ok((idx, _)) ==> idx
                < num_kinds),
    ensures
        ({
            let begin = CombinedView::initial(num_kinds as nat);
            item_views(r@) == passed(begin.opening()) + begin.started().visible_items(
                input@,
                input@.len(),
            )
        }),
{
    let ghost begin = CombinedView::initial(num_kinds as nat);
    let ghost items = input@;
    let mut machine = Combined::new(num_kinds);
    let opening = machine.start();
    let mut out: Vec<Result<SyncerEvent, CasError>> = Vec::new();
    pass_all(&mut out, opening);
    assert(item_views(out@) =~= passed(begin.opening()));
    assert(item_views(out@) =~= passed(begin.opening()) + begin.started().visible_items(items, 0));
    for item in it: input
        invariant
            it.seq() == items,
            begin == CombinedView::initial(num_kinds as nat),
            forall|i: int|
                0 <= i < items.len() ==> ((#[trigger] items[i]) matches Ok((idx, _)) ==> idx
                    < num_kinds),
            machine.state() == begin.started().after_items(items, it.index() as nat),
            machine.per_kind_insync@.len() == num_kinds,
            item_views(out@) == passed(begin.opening()) + begin.started().visible_items(
                items,
                it.index() as nat,
            ),
    {
        let ghost k = it.index();
        let ghost prev = out@;
        assert(item == items[k]);
        let mut more = machine.on_item(item);
        let ghost added = more@;
        out.append(&mut more);
        assert(item_views(out@) =~= item_views(prev) + item_views(added));
        assert(begin.started().visible_items(items, (k + 1) as nat)
            == begin.started().visible_items(items, k as nat) + item_views(added));
        assert(item_views(out@) =~= passed(begin.opening()) + begin.started().visible_items(
            items,
            (k + 1) as nat,
        ));
    }
    out
}

/// How often a status occurs.
pub open spec fn count_status(events: Seq<SyncerEventView>, s: SyncStatus) -> nat
    decreases events.len(),
{
    if events.len() == 0 {
        0
    } else {
        count_status(events.drop_last(), s) + if events.last() == SyncerEventView::Status(s) {
            1nat
        } else {
            0nat
        }
    }
}

/// The updates among events.
pub open spec fn updates_of(events: Seq<SyncerEventView>) -> Seq<SyncerEventView>
    decreases events.len(),
{
    if events.len() == 0 {
        Seq::empty()
    } else if events.last() is Update {
        updates_of(events.drop_last()).push(events.last())
    } else {
        updates_of(events.drop_last())
    }
}

/// The events of the first `n` inputs.
pub open spec fn events_first(input: Seq<(int, SyncerEventView)>, n: nat) -> Seq<SyncerEventView> {
    Seq::new(n, |i: int| input[i].1)
}

/// Whether the kind `k` has reported its list as complete within the first `n` inputs.
pub open spec fn reported(input: Seq<(int, SyncerEventView)>, n: nat, k: int) -> bool {
    exists|i: int|
        0 <= i < n && (#[trigger] input[i]) == (k, SyncerEventView::Status(SyncStatus::InSync))
}

/// Appending at most one event.
proof fn lemma_append_one(a: Seq<SyncerEventView>, b: Seq<SyncerEventView>, s: SyncStatus)
    requires
        b.len() <= 1,
    ensures
        count_status(a + b, s) == count_status(a, s) + count_status(b, s),
        updates_of(a + b) == updates_of(a) + updates_of(b),
        b.len() == 1 ==> count_status(b, s) == if b[0] == SyncerEventView::Status(s) {
            1nat
        } else {
            0nat
        },
        b.len() == 1 ==> updates_of(b) == if b[0] is Update {
            seq![b[0]]
        } else {
            Seq::<SyncerEventView>::empty()
        },
{
    if b.len() == 0 {
        assert(a + b =~= a);
        assert(updates_of(a) + updates_of(b) =~= updates_of(a));
    } else {
        assert((a + b).drop_last() =~= a);
        assert((a + b).last() == b[0]);
        assert(b.drop_last() =~= Seq::<SyncerEventView>::empty());
        assert(updates_of(b.drop_last()) =~= Seq::<SyncerEventView>::empty());
        assert(count_status(b.drop_last(), s) == 0);
        if b[0] is Update {
            assert(updates_of(b) =~= seq![b[0]]);
            assert(updates_of(a + b) =~= updates_of(a) + updates_of(b));
        } else {
            assert(updates_of(b) =~= Seq::<SyncerEventView>::empty());
            assert(updates_of(a + b) =~= updates_of(a) + updates_of(b));
        }
    }
}

/// After the beginning, whatever the kinds report and in whatever order: that the lists are
/// being delivered is not announced again; that all of them are complete is announced once,
/// as soon as every kind has reported it, and not before; and the updates become visible
/// unchanged, in the order in which they arrive.
pub proof fn law_one_status_for_all(num_kinds: nat, input: Seq<(int, SyncerEventView)>, n: nat)
    requires
        num_kinds > 0,
        n <= input.len(),
        forall|i: int| 0 <= i < input.len() ==> 0 <= (#[trigger] input[i]).0 < num_kinds,
    ensures
        ({
            let start = CombinedView::initial(num_kinds).started();
            let out = start.visible_first(input, n);
            let end = start.after_first(input, n);
            let done = forall|k: int| 0 <= k < num_kinds ==> #[trigger] reported(input, n, k);
            &&& end.kinds.len() == num_kinds
            &&& forall|k: int|
                0 <= k < num_kinds ==> #[trigger] end.kinds[k] == reported(input, n, k)
            &&& end.all == done
            &&& count_status(out, SyncStatus::InSync) == if done {
                1nat
            } else {
                0nat
            }
            &&& count_status(out, SyncStatus::ResyncInProgress) == 0
            &&& count_status(out, SyncStatus::WaitForDatastore) == 0
            &&& updates_of(out) == updates_of(events_first(input, n))
        }),
    decreases n,
{
    let start = CombinedView::initial(num_kinds).started();
    if n == 0 {
        assert(!reported(input, 0, 0));
        assert(events_first(input, 0) =~= Seq::<SyncerEventView>::empty());
        assert forall|k: int| 0 <= k < num_kinds implies #[trigger] start.kinds[k] == reported(
            input,
            0,
            k,
        ) by {}
    } else {
        let m = (n - 1) as nat;
        law_one_status_for_all(num_kinds, input, m);
        let prev = start.after_first(input, m);
        let (idx, ev) = input[n - 1];
        let out = start.visible_first(input, m);
        let more = prev.visible(idx, ev);
        let end = start.after_first(input, n);
        lemma_append_one(out, more, SyncStatus::InSync);
        lemma_append_one(out, more, SyncStatus::ResyncInProgress);
        lemma_append_one(out, more, SyncStatus::WaitForDatastore);
        let old_events = events_first(input, m);
        let new_events = events_first(input, n);
        assert(new_events.drop_last() =~= old_events);
        assert(new_events.last() == ev);
        let is_insync = ev == SyncerEventView::Status(SyncStatus::InSync);
        assert forall|k: int| 0 <= k < num_kinds implies #[trigger] reported(input, n, k) == (
        reported(input, m, k) || (is_insync && k == idx)) by {
            if reported(input, m, k) {
                let i = choose|i: int|
                    0 <= i < m && (#[trigger] input[i]) == (
                        k,
                        SyncerEventView::Status(SyncStatus::InSync),
                    );
                assert(input[i] == (k, SyncerEventView::Status(SyncStatus::InSync)));
            }
            if is_insync && k == idx {
                assert(input[n - 1] == (k, SyncerEventView::Status(SyncStatus::InSync)));
            }
            if reported(input, n, k) && !reported(input, m, k) {
                let i = choose|i: int|
                    0 <= i < n && (#[trigger] input[i]) == (
                        k,
                        SyncerEventView::Status(SyncStatus::InSync),
                    );
                assert(i == n - 1);
            }
        }
        assert forall|k: int| 0 <= k < num_kinds implies #[trigger] end.kinds[k] == reported(
            input,
            n,
            k,
        ) by {
            assert(prev.kinds[k] == reported(input, m, k));
        }
        let done = forall|k: int| 0 <= k < num_kinds ==> #[trigger] reported(input, n, k);
        if done {
            assert forall|k: int| 0 <= k < end.kinds.len() implies #[trigger] end.kinds[k] by {
                assert(reported(input, n, k));
            }
            assert(complete(end.kinds));
        }
        if complete(end.kinds) {
            assert forall|k: int| 0 <= k < num_kinds implies #[trigger] reported(input, n, k) by {
                assert(end.kinds[k]);
            }
        }
        if prev.all {
            assert forall|k: int| 0 <= k < num_kinds implies #[trigger] reported(input, n, k) by {
                assert(reported(input, m, k));
            }
        }
        if !is_insync && done {
            assert forall|k: int| 0 <= k < num_kinds implies #[trigger] reported(input, m, k) by {
                assert(reported(input, n, k));
            }
        }
    }
}

/// No kinds at all are complete at once.
pub proof fn law_no_kinds_are_in_sync()
    ensures
        CombinedView::initial(0).started().all,
        CombinedView::initial(0).opening() == seq![
            SyncerEventView::Status(SyncStatus::ResyncInProgress),
            SyncerEventView::Status(SyncStatus::InSync),
        ],
{
    assert(CombinedView::initial(0).opening() =~= seq![
        SyncerEventView::Status(SyncStatus::ResyncInProgress),
        SyncerEventView::Status(SyncStatus::InSync),
    ]);
}

/// Once all lists are complete, it stays so.
pub proof fn law_status_never_falls_back(
    c: CombinedView,
    idx: int,
    ev: SyncerEventView,
    s: SyncStatus,
)
    requires
        c.all,
    ensures
        c.after(idx, ev).all,
        count_status(c.visible(idx, ev), s) == 0,
{
    lemma_append_one(Seq::empty(), c.visible(idx, ev), s);
}

} // verus!
