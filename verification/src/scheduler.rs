//! Task-level state machines of the firmware's fixed-priority task
//! graph.
//!
//! The firmware runs four interrupt-driven tasks, highest priority
//! first: link-byte-received feeds [`KeyboardCore::on_link_byte`];
//! host-transport-ready only pumps the host transport and owns no
//! pipeline state; layout-update consumes one queued item through
//! [`KeyboardCore::process_one`]; timer-tick drives one scan cycle
//! through [`KeyboardCore::on_timer_tick`]. Each task invocation runs
//! to completion under priority-ceiling exclusion, so every method
//! here is a plain sequential transition of the shared state.
//!
//! Within one timer tick, all confirmed events are enqueued before the
//! tick notification, so hold-tap expiry in a cycle always sees that
//! cycle's own presses first.

use vstd::prelude::*;
use crate::codec::{decode, encode, spec_decode, spec_encode};
use crate::debounce::{scan_events_upto, lemma_scan_events_local, Debouncer};
use crate::event::Event;
use crate::layout::{spec_on_event, spec_tick, Layout};
use crate::report::{build_report, spec_report_bytes};
use crate::transform::HalfConfig;

verus! {

/// Whether a queued tick notification is present.
pub open spec fn has_tick(items: Seq<Option<Event>>) -> bool {
    exists|k: int| 0 <= k < items.len() && items[k] is None
}

/// The queue with its oldest tick notification taken out.
pub open spec fn drop_first_tick(items: Seq<Option<Event>>) -> Seq<Option<Event>>
    decreases items.len(),
{
    if items.len() == 0 {
        items
    } else if items[0] is None {
        items.drop_first()
    } else {
        seq![items[0]] + drop_first_tick(items.drop_first())
    }
}

/// The overflow policy of the layout-update queue: below capacity the
/// item is appended; a full queue first drops its oldest queued tick
/// notification - never a press or release event; a queue full of
/// events rejects the new item.
pub open spec fn queue_push(items: Seq<Option<Event>>, cap: int, x: Option<Event>) -> Seq<
    Option<Event>,
> {
    if items.len() < cap {
        items.push(x)
    } else if has_tick(items) {
        drop_first_tick(items).push(x)
    } else {
        items
    }
}

/// The press/release events a queue holds, in order, with the tick
/// notifications left out.
pub open spec fn queued_events(items: Seq<Option<Event>>) -> Seq<Event>
    decreases items.len(),
{
    if items.len() == 0 {
        Seq::empty()
    } else {
        match items[0] {
            Some(e) => seq![e] + queued_events(items.drop_first()),
            None => queued_events(items.drop_first()),
        }
    }
}

proof fn lemma_queued_events_push(s: Seq<Option<Event>>, x: Option<Event>)
    ensures
        queued_events(s.push(x)) == match x {
            Some(e) => queued_events(s).push(e),
            None => queued_events(s),
        },
    decreases s.len(),
{
    if s.len() == 0 {
        match x {
            Some(e) => {
                assert(s.push(x).drop_first() =~= s);
                assert(seq![e] + queued_events(s) =~= queued_events(s).push(e));
            },
            None => {
                assert(s.push(x).drop_first() =~= s);
            },
        }
    } else {
        assert(s.push(x).drop_first() =~= s.drop_first().push(x));
        lemma_queued_events_push(s.drop_first(), x);
        match x {
            Some(e) => {
                assert(queued_events(s.push(x)) =~= queued_events(s).push(e));
            },
            None => {},
        }
    }
}

proof fn lemma_queued_events_drop_tick(s: Seq<Option<Event>>)
    requires
        has_tick(s),
    ensures
        queued_events(drop_first_tick(s)) == queued_events(s),
    decreases s.len(),
{
    if s.len() > 0 {
        if s[0] is None {
        } else {
            assert(has_tick(s.drop_first())) by {
                let k = choose|k: int| 0 <= k < s.len() && s[k] is None;
                assert(s.drop_first()[k - 1] is None);
            }
            lemma_queued_events_drop_tick(s.drop_first());
            assert((seq![s[0]] + drop_first_tick(s.drop_first())).drop_first()
                =~= drop_first_tick(s.drop_first()));
        }
    }
}

/// The overflow policy never loses a press/release event: enqueueing
/// drops at most a tick notification. An accepted event is appended
/// to the queued events; a rejected one (queue full of events, the
/// configuration error) leaves them unchanged; a tick notification
/// never changes them.
pub proof fn lemma_queue_never_drops_events(items: Seq<Option<Event>>, cap: int, x: Option<Event>)
    ensures
        queued_events(queue_push(items, cap, x)) == match x {
            Some(e) => if items.len() < cap || has_tick(items) {
                queued_events(items).push(e)
            } else {
                queued_events(items)
            },
            None => queued_events(items),
        },
{
    if items.len() < cap {
        lemma_queued_events_push(items, x);
    } else if has_tick(items) {
        lemma_queued_events_drop_tick(items);
        lemma_queued_events_push(drop_first_tick(items), x);
    }
}

proof fn lemma_drop_first_tick_at(s: Seq<Option<Event>>, idx: int)
    requires
        0 <= idx < s.len(),
        s[idx] is None,
        forall|t: int| 0 <= t < idx ==> !(s[t] is None),
    ensures
        drop_first_tick(s) == s.remove(idx),
    decreases idx,
{
    if idx == 0 {
        assert(s.remove(0) =~= s.drop_first());
    } else {
        lemma_drop_first_tick_at(s.drop_first(), idx - 1);
        assert(seq![s[0]] + s.drop_first().remove(idx - 1) =~= s.remove(idx));
    }
}

/// The bounded queue feeding the layout-update task: press/release
/// events and tick notifications (`None`), oldest first.
pub struct EventQueue {
    pub items: Vec<Option<Event>>,
    pub cap: usize,
}

impl EventQueue {
    /// Structural invariant: the queue never exceeds its capacity.
    pub open spec fn wf(self) -> bool {
        self.items@.len() <= self.cap
    }

    /// An empty queue of the given capacity.
    pub fn new(cap: usize) -> (q: EventQueue)
        ensures
            q.wf(),
            q.cap == cap,
            q.items@ == Seq::<Option<Event>>::empty(),
    {
        EventQueue { items: Vec::new(), cap }
    }

    /// Enqueue one item under the overflow policy; reports whether
    /// the item was accepted.
    pub fn push(&mut self, x: Option<Event>) -> (accepted: bool)
        requires
            old(self).wf(),
        ensures
            final(self).wf(),
            final(self).cap == old(self).cap,
            final(self).items@ == queue_push(old(self).items@, old(self).cap as int, x),
            accepted == (old(self).items@.len() < old(self).cap || has_tick(old(self).items@)),
    {
        if self.items.len() < self.cap {
            self.items.push(x);
            return true;
        }
        let mut k: usize = 0;
        while k < self.items.len()
            invariant
                k <= self.items@.len(),
                self.cap == old(self).cap,
                self.items@ == old(self).items@,
                old(self).items@.len() >= old(self).cap,
                old(self).items@.len() <= old(self).cap,
                forall|t: int| 0 <= t < k ==> !(self.items@[t] is None),
            decreases self.items@.len() - k,
        {
            if self.items[k].is_none() {
                proof {
                    lemma_drop_first_tick_at(old(self).items@, k as int);
                    assert(has_tick(old(self).items@));
                }
                self.items.remove(k);
                self.items.push(x);
                return true;
            }
            k = k + 1;
        }
        proof {
            assert(!has_tick(old(self).items@));
        }
        false
    }

    /// Dequeue the oldest item, if any.
    pub fn pop(&mut self) -> (r: Option<Option<Event>>)
        requires
            old(self).wf(),
        ensures
            final(self).wf(),
            final(self).cap == old(self).cap,
            match r {
                Some(x) => old(self).items@.len() > 0 && x == old(self).items@[0]
                    && final(self).items@ == old(self).items@.drop_first(),
                None => old(self).items@.len() == 0 && *final(self) == *old(self),
            },
    {
        if self.items.len() == 0 {
            None
        } else {
            let x = self.items.remove(0);
            proof {
                assert(old(self).items@.remove(0) =~= old(self).items@.drop_first());
            }
            Some(x)
        }
    }
}

/// The sliding 4-byte window of the link-byte-received task.
pub struct LinkReceiver {
    pub w0: u8,
    pub w1: u8,
    pub w2: u8,
    pub w3: u8,
}

impl View for LinkReceiver {
    type V = Seq<u8>;

    open spec fn view(&self) -> Seq<u8> {
        seq![self.w0, self.w1, self.w2, self.w3]
    }
}

impl LinkReceiver {
    /// A fresh, empty window.
    pub fn new() -> (r: LinkReceiver)
        ensures
            r@ == seq![0u8, 0u8, 0u8, 0u8],
    {
        let r = LinkReceiver { w0: 0, w1: 0, w2: 0, w3: 0 };
        proof {
            assert(r@ =~= seq![0u8, 0u8, 0u8, 0u8]);
        }
        r
    }

    /// Slide one received byte into the window. A window that then
    /// forms a valid frame yields its event and clears; otherwise the
    /// window keeps sliding, resynchronizing on the next terminator.
    pub fn push_byte(&mut self, b: u8) -> (r: Option<Event>)
        ensures
            ({
                let w1 = old(self)@.drop_first().push(b);
                match r {
                    Some(e) => spec_decode(w1) == Some(e) && final(self)@ == seq![
                        0u8,
                        0u8,
                        0u8,
                        0u8,
                    ],
                    None => spec_decode(w1) is None && final(self)@ == w1,
                }
            }),
    {
        let window = [self.w1, self.w2, self.w3, b];
        proof {
            assert(window@ =~= old(self)@.drop_first().push(b));
        }
        match decode(&window) {
            Ok(e) => {
                self.w0 = 0;
                self.w1 = 0;
                self.w2 = 0;
                self.w3 = 0;
                proof {
                    assert(self@ =~= seq![0u8, 0u8, 0u8, 0u8]);
                }
                Some(e)
            },
            Err(_) => {
                self.w0 = self.w1;
                self.w1 = self.w2;
                self.w2 = self.w3;
                self.w3 = b;
                proof {
                    assert(self@ =~= old(self)@.drop_first().push(b));
                }
                None
            },
        }
    }
}

/// The shared pipeline state the task graph runs over: one half's
/// debouncer, the layout engine, the layout-update queue, the link
/// receive window, and the last report handed to the host transport.
pub struct KeyboardCore {
    pub half: HalfConfig,
    pub debouncer: Debouncer,
    pub layout: Layout,
    pub queue: EventQueue,
    pub receiver: LinkReceiver,
    pub last_report: Vec<u8>,
}

/// The board-global events one scan tick confirms, in row-major
/// order: the debouncer's events mapped through the half's transform.
pub open spec fn spec_tick_events(core: KeyboardCore, raw: Seq<bool>) -> Seq<Event> {
    let evs = scan_events_upto(
        core.debouncer.stable@,
        core.debouncer.count@,
        raw,
        core.debouncer.depth as int,
        core.debouncer.cols as int,
        core.debouncer.spec_n(),
    );
    Seq::new(evs.len(), |k: int| core.half.spec_transform(evs[k]))
}

/// The queue contents after enqueueing the first `k` of the tick's
/// events, each under the overflow policy.
pub open spec fn enqueue_events(
    items: Seq<Option<Event>>,
    cap: int,
    evs: Seq<Event>,
    k: int,
) -> Seq<Option<Event>>
    decreases k,
{
    if k <= 0 {
        items
    } else {
        queue_push(enqueue_events(items, cap, evs, k - 1), cap, Some(evs[k - 1]))
    }
}

fn bytes_equal(a: &Vec<u8>, b: &Vec<u8>) -> (r: bool)
    ensures
        r == (a@ == b@),
{
    if a.len() != b.len() {
        return false;
    }
    let mut k: usize = 0;
    while k < a.len()
        invariant
            k <= a@.len(),
            a@.len() == b@.len(),
            forall|t: int| 0 <= t < k ==> a@[t] == b@[t],
        decreases a@.len() - k,
    {
        if a[k] != b[k] {
            return false;
        }
        k = k + 1;
    }
    proof {
        assert(a@ =~= b@);
    }
    true
}

fn copy_bytes(v: &Vec<u8>) -> (r: Vec<u8>)
    ensures
        r@ == v@,
{
    let mut r: Vec<u8> = Vec::new();
    let mut k: usize = 0;
    while k < v.len()
        invariant
            k <= v@.len(),
            r@ == v@.subrange(0, k as int),
        decreases v@.len() - k,
    {
        r.push(v[k]);
        proof {
            assert(r@ =~= v@.subrange(0, k as int + 1));
        }
        k = k + 1;
    }
    proof {
        assert(v@.subrange(0, v@.len() as int) =~= v@);
    }
    r
}

impl KeyboardCore {
    /// Structural invariant: every component is well formed and the
    /// half's geometry agrees with the layout's board.
    pub open spec fn wf(self) -> bool {
        &&& self.debouncer.well_formed()
        &&& self.layout@.wf()
        &&& self.queue.wf()
        &&& self.debouncer.cols <= self.half.total_cols
        &&& self.half.total_cols == self.layout.cols
    }

    /// Assemble the pipeline state at boot: empty queue, clear link
    /// window, no report sent yet.
    pub fn new(half: HalfConfig, debouncer: Debouncer, layout: Layout, queue_capacity: usize) -> (
        core: KeyboardCore)
        requires
            debouncer.well_formed(),
            layout@.wf(),
            debouncer.cols <= half.total_cols,
            half.total_cols == layout.cols,
        ensures
            core.wf(),
            core.half == half,
            core.debouncer == debouncer,
            core.layout == layout,
            core.queue.cap == queue_capacity,
            core.queue.items@ == Seq::<Option<Event>>::empty(),
            core.receiver@ == seq![0u8, 0u8, 0u8, 0u8],
            core.last_report@ == Seq::<u8>::empty(),
    {
        KeyboardCore {
            half,
            debouncer,
            layout,
            queue: EventQueue::new(queue_capacity),
            receiver: LinkReceiver::new(),
            last_report: Vec::new(),
        }
    }

    /// The link-byte-received task: slide one byte into the receive
    /// window; a completed valid frame enqueues its event for the
    /// layout-update task and is returned.
    pub fn on_link_byte(&mut self, b: u8) -> (r: Option<Event>)
        requires
            old(self).wf(),
        ensures
            final(self).wf(),
            final(self).half == old(self).half,
            final(self).debouncer == old(self).debouncer,
            final(self).layout == old(self).layout,
            final(self).last_report == old(self).last_report,
            final(self).queue.cap == old(self).queue.cap,
            ({
                let w1 = old(self).receiver@.drop_first().push(b);
                match r {
                    Some(e) => spec_decode(w1) == Some(e) && final(self).receiver@ == seq![
                        0u8,
                        0u8,
                        0u8,
                        0u8,
                    ] && final(self).queue.items@ == queue_push(
                        old(self).queue.items@,
                        old(self).queue.cap as int,
                        Some(e),
                    ),
                    None => spec_decode(w1) is None && final(self).receiver@ == w1
                        && final(self).queue.items@ == old(self).queue.items@,
                }
            }),
    {
        match self.receiver.push_byte(b) {
            Some(e) => {
                let _accepted = self.queue.push(Some(e));
                Some(e)
            },
            None => None,
        }
    }

    /// The timer-tick task: scan, debounce, transform, and enqueue
    /// this tick's events in row-major order, followed by one tick
    /// notification; on the primary half, return the frames to
    /// forward over the split link, in the same order.
    pub fn on_timer_tick(&mut self, raw: &Vec<bool>) -> (frames: Vec<[u8; 4]>)
        requires
            old(self).wf(),
            raw@.len() == old(self).debouncer.spec_n(),
        ensures
            final(self).wf(),
            final(self).half == old(self).half,
            final(self).layout == old(self).layout,
            final(self).receiver == old(self).receiver,
            final(self).last_report == old(self).last_report,
            final(self).debouncer.rows == old(self).debouncer.rows,
            final(self).debouncer.cols == old(self).debouncer.cols,
            final(self).debouncer.depth == old(self).debouncer.depth,
            forall|c: int|
                0 <= c < old(self).debouncer.spec_n() ==> final(self).debouncer.stable@[c]
                    == crate::debounce::cell_next_stable(
                    old(self).debouncer.stable@[c],
                    old(self).debouncer.count@[c] as int,
                    raw@[c],
                    old(self).debouncer.depth as int,
                ),
            forall|c: int|
                0 <= c < old(self).debouncer.spec_n() ==> final(self).debouncer.count@[c] as int
                    == crate::debounce::cell_next_count(
                    old(self).debouncer.stable@[c],
                    old(self).debouncer.count@[c] as int,
                    raw@[c],
                    old(self).debouncer.depth as int,
                ),
            final(self).queue.cap == old(self).queue.cap,
            final(self).queue.items@ == queue_push(
                enqueue_events(
                    old(self).queue.items@,
                    old(self).queue.cap as int,
                    spec_tick_events(*old(self), raw@),
                    spec_tick_events(*old(self), raw@).len() as int,
                ),
                old(self).queue.cap as int,
                Option::<Event>::None,
            ),
            old(self).half.is_primary ==> frames@.len() == spec_tick_events(
                *old(self),
                raw@,
            ).len() && forall|k: int|
                0 <= k < frames@.len() ==> frames@[k]@ == spec_encode(
                    spec_tick_events(*old(self), raw@)[k],
                ),
            !old(self).half.is_primary ==> frames@.len() == 0,
    {
        let ghost tevs = spec_tick_events(*old(self), raw@);
        proof {
            if old(self).debouncer.cols >= 1 {
                lemma_scan_events_local(
                    old(self).debouncer.stable@,
                    old(self).debouncer.count@,
                    raw@,
                    old(self).debouncer.depth as int,
                    old(self).debouncer.cols as int,
                    old(self).debouncer.spec_n(),
                );
            } else {
                vstd::arithmetic::mul::lemma_mul_basics(old(self).debouncer.rows as int);
            }
        }
        let evs = self.debouncer.events(raw);
        let ghost deb1 = self.debouncer;
        let mut frames: Vec<[u8; 4]> = Vec::new();
        let mut k: usize = 0;
        while k < evs.len()
            invariant
                k <= evs@.len(),
                self.half == old(self).half,
                self.layout == old(self).layout,
                self.receiver == old(self).receiver,
                self.last_report == old(self).last_report,
                self.debouncer == deb1,
                deb1.well_formed(),
                self.queue.wf(),
                self.queue.cap == old(self).queue.cap,
                tevs.len() == evs@.len(),
                forall|t: int|
                    0 <= t < evs@.len() ==> (#[trigger] evs@[t]).spec_col() < old(
                        self,
                    ).half.total_cols,
                forall|t: int|
                    0 <= t < evs@.len() ==> tevs[t] == old(self).half.spec_transform(evs@[t]),
                self.queue.items@ == enqueue_events(
                    old(self).queue.items@,
                    old(self).queue.cap as int,
                    tevs,
                    k as int,
                ),
                old(self).half.is_primary ==> frames@.len() == k && forall|t: int|
                    0 <= t < k ==> frames@[t]@ == spec_encode(tevs[t]),
                !old(self).half.is_primary ==> frames@.len() == 0,
            decreases evs@.len() - k,
        {
            let ev = evs[k];
            let te = self.half.transform(ev);
            if self.half.is_primary {
                frames.push(encode(te));
            }
            let _accepted = self.queue.push(Some(te));
            k = k + 1;
        }
        let _accepted = self.queue.push(None);
        frames
    }

    /// The layout-update task: consume one queued event or tick
    /// notification, advance the layout engine, and build the fresh
    /// host report. The report bytes are returned for sending exactly
    /// when the host transport is ready and the report differs from
    /// the last one handed over; otherwise the cycle's report is
    /// dropped rather than blocked on.
    pub fn process_one(&mut self, configured: bool) -> (r: Option<Vec<u8>>)
        requires
            old(self).wf(),
        ensures
            final(self).wf(),
            final(self).half == old(self).half,
            final(self).debouncer == old(self).debouncer,
            final(self).receiver == old(self).receiver,
            final(self).queue.cap == old(self).queue.cap,
            old(self).queue.items@.len() == 0 ==> *final(self) == *old(self) && r is None,
            old(self).queue.items@.len() > 0 ==> ({
                let lm = match old(self).queue.items@[0] {
                    Some(e) => spec_on_event(old(self).layout@, e),
                    None => spec_tick(old(self).layout@),
                };
                let bytes = spec_report_bytes(lm.active_keys);
                &&& final(self).queue.items@ == old(self).queue.items@.drop_first()
                &&& final(self).layout@ == lm
                &&& final(self).last_report@ == bytes
                &&& match r {
                    Some(sent) => configured && bytes != old(self).last_report@ && sent@ == bytes,
                    None => !(configured && bytes != old(self).last_report@),
                }
            }),
    {
        let item = match self.queue.pop() {
            None => {
                return None;
            },
            Some(item) => item,
        };
        match item {
            Some(e) => self.layout.on_event(e),
            None => self.layout.on_tick(),
        }
        let codes = self.layout.active_codes();
        let report = build_report(&codes);
        let bytes = report.to_bytes();
        proof {
            assert(bytes@ =~= spec_report_bytes(self.layout@.active_keys));
        }
        if !bytes_equal(&bytes, &self.last_report) {
            self.last_report = copy_bytes(&bytes);
            if configured {
                Some(bytes)
            } else {
                None
            }
        } else {
            None
        }
    }
}

} // verus!
