//! Journal of a search: what the host was asked and answered, what was written to the
//! table, and what every node came to. Entries are only ever added, each by the function
//! that asks the host or, for a node, on proof that the entries before it account for its
//! score. The journal exists in proofs alone.

use vstd::prelude::*;

use crate::position::Position;
use crate::records::accounted;
use crate::rules::PosView;
use crate::searcher::{Begin, Host, NodeType, RootMove, StackEntry};
use crate::cuckoo::Cuckoo;
use crate::history::Histories;
use crate::tt::Slot;
use crate::types::{Move, Value};

verus! {

/// What a searcher knew when a node was entered.
pub struct Seen {
    pub hist: Histories,
    pub stack: Seq<StackEntry>,
    pub cuckoo: Cuckoo,
    pub nodes: u64,
    pub nmp_min_ply: usize,
    pub seek_mate: bool,
    pub reductions: Seq<u8>,
}

/// A finished search of a node.
pub struct NodeCall {
    /// Number of entries before it.
    pub start: int,
    pub seen: Seen,
    pub v: PosView,
    pub depth: i32,
    pub ply: usize,
    pub alpha: Value,
    pub beta: Value,
    pub node_type: NodeType,
    pub allow_null: bool,
    pub excluded: Move,
    pub r: Value,
    /// What the searcher knew in the end.
    pub after: Seen,
    /// The line left.
    pub line: Seq<Move>,
}

/// A finished quiescence search.
pub struct QuietCall {
    /// Number of entries before it.
    pub start: int,
    pub seen: Seen,
    pub v: PosView,
    pub ply: usize,
    pub qs_ply: usize,
    pub alpha: Value,
    pub beta: Value,
    pub node_type: NodeType,
    pub r: Value,
}

/// A finished search of the root moves from `pv_idx` on.
pub struct RootCall {
    /// Number of entries before it.
    pub start: int,
    pub v: PosView,
    pub depth: i32,
    pub pv_idx: int,
    pub alpha: Value,
    pub beta: Value,
    /// The root moves as the search left them.
    pub moves: Seq<RootMove>,
    pub r: Value,
}

pub enum Event {
    /// The table's bucket of a position.
    Bucket { key: u64, slots: Seq<Slot> },
    /// The table's generation.
    Generation(u8),
    /// An entry written to the table.
    Written { key: u64, index: int, slot: Slot },
    /// What the network says of a position.
    Network { v: PosView, value: Value },
    /// Whether the search has to end, asked at a node count.
    Polled { nodes: u64, stop: bool },
    /// Whether to begin an iteration.
    Begun { first: bool, answer: Begin },
    /// Whether the search has been told to end.
    Asked(bool),
    /// Whether a clock is running.
    Clocked(bool),
    /// Whether the time spent is enough.
    Spent(bool),
    Node(NodeCall),
    Quiet(QuietCall),
    Root(RootCall),
}

/// `b` is `a` with entries added.
pub open spec fn extends(a: Seq<Event>, b: Seq<Event>) -> bool {
    &&& a.len() <= b.len()
    &&& forall|i: int|
        #![trigger b[i]]
        #![trigger a[i]]
        0 <= i < a.len() ==> b[i] == a[i]
}

/// The host has said, after the first `from` entries, that the search has to end.
pub open spec fn told_to_stop(log: Seq<Event>, from: int) -> bool {
    exists|j: int| from <= j < log.len() && tells_to_stop(#[trigger] log[j])
}

pub open spec fn tells_to_stop(e: Event) -> bool {
    match e {
        Event::Polled { nodes, stop } => stop,
        Event::Begun { first, answer } => answer == Begin::Stop,
        Event::Asked(stop) => stop,
        _ => false,
    }
}

/// Entries added so far.
pub struct Journal {
    events: Ghost<Seq<Event>>,
}

impl Journal {
    pub closed spec fn view(&self) -> Seq<Event> {
        self.events@
    }

    /// Every entry is accounted for by those before it.
    pub closed spec fn wf(&self) -> bool {
        forall|i: int|
            0 <= i < self@.len() ==> accounted(#[trigger] self@.subrange(0, i), self@[i])
    }

    pub(crate) fn new() -> (r: Journal)
        ensures
            r.wf(),
            r@ == Seq::<Event>::empty(),
    {
        Journal { events: Ghost(Seq::empty()) }
    }

    /// Adds an entry that is accounted for.
    pub(crate) fn record(&mut self, Ghost(e): Ghost<Event>)
        requires
            old(self).wf(),
            accounted(old(self)@, e),
            e is Node || e is Quiet || e is Root,
        ensures
            final(self).wf(),
            final(self)@ == old(self)@.push(e),
    {
        self.note(Ghost(e));
    }

    fn note(&mut self, Ghost(e): Ghost<Event>)
        requires
            old(self).wf(),
            accounted(old(self)@, e),
        ensures
            final(self).wf(),
            final(self)@ == old(self)@.push(e),
    {
        let ghost a = self.events@;
        self.events = Ghost(a.push(e));
        proof {
            assert forall|i: int| 0 <= i < self@.len() implies accounted(
                #[trigger] self@.subrange(0, i),
                self@[i],
            ) by {
                if i < a.len() {
                    assert(self@.subrange(0, i) =~= a.subrange(0, i));
                } else {
                    assert(self@.subrange(0, i) =~= a);
                }
            }
        }
    }

    /// The table's bucket of a position.
    pub(crate) fn bucket<H: Host>(&mut self, host: &mut H, key: u64) -> (r: [Slot; 4])
        requires
            old(self).wf(),
        ensures
            final(self).wf(),
            final(self)@ == old(self)@.push(Event::Bucket { key, slots: r@ }),
    {
        let r = host.bucket(key);
        self.note(Ghost(Event::Bucket { key, slots: r@ }));
        r
    }

    /// The table's generation.
    pub(crate) fn generation<H: Host>(&mut self, host: &mut H) -> (r: u8)
        requires
            old(self).wf(),
        ensures
            final(self).wf(),
            final(self)@ == old(self)@.push(Event::Generation(r)),
    {
        let r = host.generation();
        self.note(Ghost(Event::Generation(r)));
        r
    }

    /// Writes an entry of the table.
    pub(crate) fn write<H: Host>(&mut self, host: &mut H, key: u64, index: usize, slot: Slot)
        requires
            old(self).wf(),
            index < 4,
        ensures
            final(self).wf(),
            final(self)@ == old(self)@.push(Event::Written { key, index: index as int, slot }),
    {
        host.write(key, index, slot);
        self.note(Ghost(Event::Written { key, index: index as int, slot }));
    }

    /// What the network says of a position.
    pub(crate) fn network<H: Host>(&mut self, host: &mut H, pos: &Position) -> (r: Value)
        requires
            old(self).wf(),
        ensures
            final(self).wf(),
            final(self)@ == old(self)@.push(Event::Network { v: pos@, value: r }),
    {
        let r = host.network(pos);
        self.note(Ghost(Event::Network { v: pos@, value: r }));
        r
    }

    /// Whether the search has to end.
    pub(crate) fn poll<H: Host>(&mut self, host: &mut H, nodes: u64) -> (r: bool)
        requires
            old(self).wf(),
        ensures
            final(self).wf(),
            final(self)@ == old(self)@.push(Event::Polled { nodes, stop: r }),
    {
        let r = host.poll(nodes);
        self.note(Ghost(Event::Polled { nodes, stop: r }));
        r
    }

    /// Whether to begin an iteration.
    pub(crate) fn begin<H: Host>(&mut self, host: &mut H, first: bool) -> (r: Begin)
        requires
            old(self).wf(),
        ensures
            final(self).wf(),
            final(self)@ == old(self)@.push(Event::Begun { first, answer: r }),
    {
        let r = host.begin(first);
        self.note(Ghost(Event::Begun { first, answer: r }));
        r
    }

    /// Whether the search has been told to end.
    pub(crate) fn stop_requested<H: Host>(&mut self, host: &mut H) -> (r: bool)
        requires
            old(self).wf(),
        ensures
            final(self).wf(),
            final(self)@ == old(self)@.push(Event::Asked(r)),
    {
        let r = host.stop_requested();
        self.note(Ghost(Event::Asked(r)));
        r
    }

    /// Whether a clock is running.
    pub(crate) fn clocked<H: Host>(&mut self, host: &mut H) -> (r: bool)
        requires
            old(self).wf(),
        ensures
            final(self).wf(),
            final(self)@ == old(self)@.push(Event::Clocked(r)),
    {
        let r = host.clocked();
        self.note(Ghost(Event::Clocked(r)));
        r
    }

    /// Whether the time spent is enough.
    pub(crate) fn spent_enough<H: Host>(
        &mut self,
        host: &mut H,
        iteration: crate::searcher::Iteration,
    ) -> (r: bool)
        requires
            old(self).wf(),
        ensures
            final(self).wf(),
            final(self)@ == old(self)@.push(Event::Spent(r)),
    {
        let r = host.spent_enough(iteration);
        self.note(Ghost(Event::Spent(r)));
        r
    }
}

/// Having been told to stop is still on record in a longer journal, looked for from further
/// back.
pub(crate) proof fn lemma_told(a: Seq<Event>, b: Seq<Event>, from: int, back: int)
    requires
        told_to_stop(a, from),
        extends(a, b),
        0 <= back <= from,
    ensures
        told_to_stop(b, back),
{
    let j = choose|j: int| from <= j < a.len() && tells_to_stop(#[trigger] a[j]);
    assert(b[j] == a[j]);
}

/// Every entry of a journal is accounted for by the entries before it.
pub proof fn entries_are_accounted_for(j: Journal, i: int)
    requires
        j.wf(),
        0 <= i < j@.len(),
    ensures
        accounted(j@.subrange(0, i), j@[i]),
{
}

} // verus!
