//! Per-coordinate integrator debounce.
//!
//! Every matrix coordinate keeps its confirmed logical state and a
//! counter of consecutive raw samples that contradict it. The logical
//! state flips, and exactly one event is emitted, only after `depth`
//! consecutive contradicting samples; any agreeing sample resets the
//! counter. Events of one scan tick come out in row-major order.

use vstd::prelude::*;
use vstd::arithmetic::div_mod::lemma_fundamental_div_mod_converse;
use vstd::arithmetic::mul::lemma_mul_upper_bound;
use crate::event::Event;

verus! {

/// Row-major index facts for a position strictly inside the grid.
proof fn lemma_grid_step(rows: int, cols: int, i: int, j: int)
    requires
        0 <= i,
        0 <= j < cols,
        i * cols + j < rows * cols,
    ensures
        i < rows,
        (i + 1) * cols == i * cols + cols,
{
    assert(i < rows && (i + 1) * cols == i * cols + cols) by (nonlinear_arith)
        requires
            0 <= i,
            0 <= j < cols,
            i * cols + j < rows * cols,
    ;
}

/// Whether one raw sample at one coordinate confirms a transition:
/// it contradicts the logical state and completes a run of `depth`
/// contradicting samples.
pub open spec fn cell_fires(stable: bool, count: int, raw: bool, depth: int) -> bool {
    raw != stable && count + 1 >= depth
}

/// The coordinate's logical state after one raw sample.
pub open spec fn cell_next_stable(stable: bool, count: int, raw: bool, depth: int) -> bool {
    if cell_fires(stable, count, raw, depth) {
        raw
    } else {
        stable
    }
}

/// The coordinate's contradiction counter after one raw sample.
pub open spec fn cell_next_count(stable: bool, count: int, raw: bool, depth: int) -> int {
    if raw == stable || cell_fires(stable, count, raw, depth) {
        0
    } else {
        count + 1
    }
}

/// The event a confirmed transition emits: the new raw level decides
/// between press and release.
pub open spec fn cell_event(i: u8, j: u8, raw: bool) -> Event {
    if raw {
        Event::Press(i, j)
    } else {
        Event::Release(i, j)
    }
}

/// The events of one scan tick for the first `k` coordinates in
/// row-major order, given the pre-tick per-coordinate states.
pub open spec fn scan_events_upto(
    stable: Seq<bool>,
    count: Seq<u8>,
    raw: Seq<bool>,
    depth: int,
    cols: int,
    k: int,
) -> Seq<Event>
    decreases k,
{
    if k <= 0 {
        Seq::empty()
    } else {
        let c = k - 1;
        let rest = scan_events_upto(stable, count, raw, depth, cols, c);
        if cell_fires(stable[c], count[c] as int, raw[c], depth) {
            rest.push(cell_event((c / cols) as u8, (c % cols) as u8, raw[c]))
        } else {
            rest
        }
    }
}

/// Every event of one scan tick names a column on the half's matrix.
pub proof fn lemma_scan_events_local(
    stable: Seq<bool>,
    count: Seq<u8>,
    raw: Seq<bool>,
    depth: int,
    cols: int,
    k: int,
)
    requires
        1 <= cols <= 255,
    ensures
        forall|t: int|
            0 <= t < scan_events_upto(stable, count, raw, depth, cols, k).len() ==> (
            #[trigger] scan_events_upto(stable, count, raw, depth, cols, k)[t]).spec_col() < cols,
    decreases k,
{
    if k > 0 {
        lemma_scan_events_local(stable, count, raw, depth, cols, k - 1);
        let prev = scan_events_upto(stable, count, raw, depth, cols, k - 1);
        let cur = scan_events_upto(stable, count, raw, depth, cols, k);
        if cell_fires(stable[k - 1], count[k - 1] as int, raw[k - 1], depth) {
            vstd::arithmetic::div_mod::lemma_mod_bound(k - 1, cols);
            let ev = cell_event(((k - 1) / cols) as u8, ((k - 1) % cols) as u8, raw[k - 1]);
            assert(ev.spec_col() < cols);
            assert(cur == prev.push(ev));
            assert forall|t: int| 0 <= t < cur.len() implies (#[trigger] cur[t]).spec_col()
                < cols by {
                if t < prev.len() {
                    assert(cur[t] == prev[t]);
                }
            }
        }
    }
}

/// The row-major position of the coordinate an event speaks of.
pub open spec fn event_cell(e: Event, cols: int) -> int {
    e.spec_row() as int * cols + e.spec_col() as int
}

/// One scan tick emits its events at strictly ascending row-major
/// positions - so at most one event per coordinate per tick, in
/// row-major order.
pub proof fn lemma_scan_events_one_per_coordinate(
    stable: Seq<bool>,
    count: Seq<u8>,
    raw: Seq<bool>,
    depth: int,
    cols: int,
    k: int,
)
    requires
        1 <= cols <= 255,
        k <= 255 * cols,
    ensures
        forall|t: int|
            0 <= t < scan_events_upto(stable, count, raw, depth, cols, k).len()
                ==> 0 <= event_cell(
                #[trigger] scan_events_upto(stable, count, raw, depth, cols, k)[t],
                cols,
            ) < k,
        forall|t1: int, t2: int|
            0 <= t1 < t2 < scan_events_upto(stable, count, raw, depth, cols, k).len()
                ==> event_cell(
                #[trigger] scan_events_upto(stable, count, raw, depth, cols, k)[t1],
                cols,
            ) < event_cell(
                #[trigger] scan_events_upto(stable, count, raw, depth, cols, k)[t2],
                cols,
            ),
    decreases k,
{
    if k > 0 {
        lemma_scan_events_one_per_coordinate(stable, count, raw, depth, cols, k - 1);
        let prev = scan_events_upto(stable, count, raw, depth, cols, k - 1);
        let cur = scan_events_upto(stable, count, raw, depth, cols, k);
        if cell_fires(stable[k - 1], count[k - 1] as int, raw[k - 1], depth) {
            let c = k - 1;
            vstd::arithmetic::div_mod::lemma_mod_bound(c, cols);
            vstd::arithmetic::div_mod::lemma_div_pos_is_pos(c, cols);
            vstd::arithmetic::div_mod::lemma_multiply_divide_lt(c, cols, 255);
            vstd::arithmetic::div_mod::lemma_fundamental_div_mod(c, cols);
            let ev = cell_event((c / cols) as u8, (c % cols) as u8, raw[c]);
            assert(0 <= c / cols < 255);
            assert(0 <= c % cols < 256);
            assert(((c / cols) as u8) as int == c / cols);
            assert(((c % cols) as u8) as int == c % cols);
            assert(ev.spec_row() == (c / cols) as u8);
            assert(ev.spec_col() == (c % cols) as u8);
            assert(c == cols * (c / cols) + c % cols);
            assert(event_cell(ev, cols) == c);
            assert(cur == prev.push(ev));
            assert forall|t: int| 0 <= t < cur.len() implies 0 <= event_cell(
                #[trigger] cur[t],
                cols,
            ) < k by {
                if t < prev.len() {
                    assert(cur[t] == prev[t]);
                }
            }
        }
    }
}

/// Integrator debouncer over a `rows x cols` matrix, flattened
/// row-major: coordinate `(i, j)` lives at index `i * cols + j`.
pub struct Debouncer {
    pub rows: u8,
    pub cols: u8,
    pub depth: u8,
    pub stable: Vec<bool>,
    pub count: Vec<u8>,
}

impl Debouncer {
    /// Number of matrix coordinates.
    pub open spec fn spec_n(self) -> int {
        self.rows as int * self.cols as int
    }

    /// Structural invariant: both grids cover the matrix, the depth is
    /// positive, and no counter has reached the depth.
    pub open spec fn well_formed(self) -> bool {
        &&& self.stable@.len() == self.spec_n()
        &&& self.count@.len() == self.spec_n()
        &&& self.depth >= 1
        &&& forall|c: int| 0 <= c < self.spec_n() ==> self.count@[c] < self.depth
    }

    /// A fresh debouncer: every coordinate confirmed released, every
    /// counter clear.
    pub fn new(rows: u8, cols: u8, depth: u8) -> (d: Debouncer)
        requires
            depth >= 1,
        ensures
            d.well_formed(),
            d.rows == rows,
            d.cols == cols,
            d.depth == depth,
            forall|c: int| 0 <= c < d.spec_n() ==> d.stable@[c] == false,
            forall|c: int| 0 <= c < d.spec_n() ==> d.count@[c] == 0,
    {
        proof {
            lemma_mul_upper_bound(rows as int, 255, cols as int, 255);
        }
        let n = (rows as usize) * (cols as usize);
        let mut stable: Vec<bool> = Vec::new();
        let mut count: Vec<u8> = Vec::new();
        let mut k: usize = 0;
        while k < n
            invariant
                k <= n,
                stable@.len() == k,
                count@.len() == k,
                forall|c: int| 0 <= c < k ==> stable@[c] == false,
                forall|c: int| 0 <= c < k ==> count@[c] == 0,
            decreases n - k,
        {
            stable.push(false);
            count.push(0);
            k = k + 1;
        }
        Debouncer { rows, cols, depth, stable, count }
    }

    /// Feed one raw sample grid; return the confirmed events of this
    /// tick in row-major order, advancing every coordinate's state by
    /// one integrator step.
    #[verifier::loop_isolation(false)]
    pub fn events(&mut self, raw: &Vec<bool>) -> (evs: Vec<Event>)
        requires
            old(self).well_formed(),
            raw@.len() == old(self).spec_n(),
        ensures
            final(self).well_formed(),
            final(self).rows == old(self).rows,
            final(self).cols == old(self).cols,
            final(self).depth == old(self).depth,
            forall|c: int| 0 <= c < old(self).spec_n() ==> final(self).stable@[c]
                == cell_next_stable(
                old(self).stable@[c],
                old(self).count@[c] as int,
                raw@[c],
                old(self).depth as int,
            ),
            forall|c: int| 0 <= c < old(self).spec_n() ==> final(self).count@[c] as int
                == cell_next_count(
                old(self).stable@[c],
                old(self).count@[c] as int,
                raw@[c],
                old(self).depth as int,
            ),
            evs@ == scan_events_upto(
                old(self).stable@,
                old(self).count@,
                raw@,
                old(self).depth as int,
                old(self).cols as int,
                old(self).spec_n(),
            ),
    {
        proof {
            lemma_mul_upper_bound(self.rows as int, 255, self.cols as int, 255);
            vstd::arithmetic::mul::lemma_mul_basics(self.rows as int);
        }
        let n = (self.rows as usize) * (self.cols as usize);
        let mut evs: Vec<Event> = Vec::new();
        let mut k: usize = 0;
        let mut i: u8 = 0;
        let mut j: u8 = 0;
        while k < n
            invariant
                k <= n,
                i as int * self.cols as int + j as int == k as int,
                k < n ==> j < self.cols,
                j == 0 || j < self.cols,
                self.rows == old(self).rows,
                self.cols == old(self).cols,
                self.depth == old(self).depth,
                self.stable@.len() == n,
                self.count@.len() == n,
                forall|c: int| k <= c < n ==> self.stable@[c] == old(self).stable@[c],
                forall|c: int| k <= c < n ==> self.count@[c] == old(self).count@[c],
                forall|c: int| 0 <= c < k ==> self.stable@[c] == cell_next_stable(
                    old(self).stable@[c],
                    old(self).count@[c] as int,
                    raw@[c],
                    old(self).depth as int,
                ),
                forall|c: int| 0 <= c < k ==> self.count@[c] as int == cell_next_count(
                    old(self).stable@[c],
                    old(self).count@[c] as int,
                    raw@[c],
                    old(self).depth as int,
                ),
                evs@ == scan_events_upto(
                    old(self).stable@,
                    old(self).count@,
                    raw@,
                    old(self).depth as int,
                    old(self).cols as int,
                    k as int,
                ),
            decreases n - k,
        {
            proof {
                lemma_fundamental_div_mod_converse(
                    k as int,
                    self.cols as int,
                    i as int,
                    j as int,
                );
            }
            let r = raw[k];
            if r != self.stable[k] {
                let cnt = self.count[k];
                if cnt >= self.depth - 1 {
                    self.stable[k] = r;
                    self.count[k] = 0;
                    let ev = if r {
                        Event::Press(i, j)
                    } else {
                        Event::Release(i, j)
                    };
                    evs.push(ev);
                } else {
                    self.count[k] = cnt + 1;
                }
            } else {
                self.count[k] = 0;
            }
            proof {
                lemma_grid_step(self.rows as int, self.cols as int, i as int, j as int);
            }
            k = k + 1;
            if j + 1 == self.cols {
                j = 0;
                i = i + 1;
            } else {
                j = j + 1;
            }
        }
        evs
    }
}

/// The coordinate's logical state after a whole sequence of raw
/// samples, one integrator step per sample.
pub open spec fn cell_stable_after(stable: bool, count: int, samples: Seq<bool>, depth: int) -> bool
    decreases samples.len(),
{
    if samples.len() == 0 {
        stable
    } else {
        cell_stable_after(
            cell_next_stable(stable, count, samples[0], depth),
            cell_next_count(stable, count, samples[0], depth),
            samples.drop_first(),
            depth,
        )
    }
}

/// How many events a whole sequence of raw samples makes the
/// coordinate emit.
pub open spec fn cell_fire_count(stable: bool, count: int, samples: Seq<bool>, depth: int) -> int
    decreases samples.len(),
{
    if samples.len() == 0 {
        0
    } else {
        (if cell_fires(stable, count, samples[0], depth) {
            1int
        } else {
            0int
        }) + cell_fire_count(
            cell_next_stable(stable, count, samples[0], depth),
            cell_next_count(stable, count, samples[0], depth),
            samples.drop_first(),
            depth,
        )
    }
}

/// Length of the longest prefix of `samples` made of the value `v`.
pub open spec fn prefix_run(samples: Seq<bool>, v: bool) -> int
    decreases samples.len(),
{
    if samples.len() == 0 || samples[0] != v {
        0
    } else {
        1 + prefix_run(samples.drop_first(), v)
    }
}

/// The sample window starting at `t` contains at least one sample
/// that agrees with the confirmed state.
pub open spec fn window_agrees_once(stable: bool, samples: Seq<bool>, depth: int, t: int) -> bool {
    exists|u: int| t <= u < t + depth && samples[u] == stable
}

/// A raw sequence oscillates too fast to settle: every window of
/// `depth` consecutive samples contains at least one sample that
/// agrees with the confirmed state.
pub open spec fn no_steady_window(stable: bool, samples: Seq<bool>, depth: int) -> bool {
    forall|t: int|
        0 <= t && t + depth <= samples.len() ==> #[trigger] window_agrees_once(
            stable,
            samples,
            depth,
            t,
        )
}

proof fn lemma_prefix_run_le_len(samples: Seq<bool>, v: bool)
    ensures
        0 <= prefix_run(samples, v) <= samples.len(),
    decreases samples.len(),
{
    if samples.len() > 0 && samples[0] == v {
        lemma_prefix_run_le_len(samples.drop_first(), v);
    }
}

proof fn lemma_prefix_run_le_index(samples: Seq<bool>, v: bool, u: int)
    requires
        0 <= u < samples.len(),
        samples[u] != v,
    ensures
        prefix_run(samples, v) <= u,
    decreases samples.len(),
{
    if u > 0 && samples[0] == v {
        lemma_prefix_run_le_index(samples.drop_first(), v, u - 1);
    }
}

proof fn lemma_no_steady_window_prefix(stable: bool, samples: Seq<bool>, depth: int)
    requires
        depth >= 1,
        no_steady_window(stable, samples, depth),
    ensures
        prefix_run(samples, !stable) < depth,
{
    if samples.len() < depth {
        lemma_prefix_run_le_len(samples, !stable);
    } else {
        assert(window_agrees_once(stable, samples, depth, 0));
        let u = choose|u: int| 0 <= u < 0 + depth && samples[u] == stable;
        lemma_prefix_run_le_index(samples, !stable, u);
    }
}

proof fn lemma_no_steady_window_tail(stable: bool, samples: Seq<bool>, depth: int)
    requires
        samples.len() >= 1,
        no_steady_window(stable, samples, depth),
    ensures
        no_steady_window(stable, samples.drop_first(), depth),
{
    let tail = samples.drop_first();
    assert forall|t: int|
        0 <= t && t + depth <= tail.len() implies window_agrees_once(stable, tail, depth, t) by {
        assert(window_agrees_once(stable, samples, depth, t + 1));
        let u0 = choose|u0: int| t + 1 <= u0 < t + 1 + depth && samples[u0] == stable;
        assert(tail[u0 - 1] == stable);
        assert(t <= u0 - 1 < t + depth);
    }
}

proof fn lemma_oscillation_general(stable: bool, count: int, samples: Seq<bool>, depth: int)
    requires
        depth >= 1,
        0 <= count,
        count + prefix_run(samples, !stable) < depth,
        no_steady_window(stable, samples, depth),
    ensures
        cell_fire_count(stable, count, samples, depth) == 0,
        cell_stable_after(stable, count, samples, depth) == stable,
    decreases samples.len(),
{
    if samples.len() > 0 {
        let tail = samples.drop_first();
        lemma_no_steady_window_tail(stable, samples, depth);
        if samples[0] == stable {
            lemma_no_steady_window_prefix(stable, tail, depth);
            lemma_oscillation_general(stable, 0, tail, depth);
        } else {
            lemma_prefix_run_le_len(tail, !stable);
            assert(prefix_run(samples, !stable) == 1 + prefix_run(tail, !stable));
            lemma_oscillation_general(stable, count + 1, tail, depth);
        }
    }
}

/// Debounce stability, suppression half: a raw sequence in which every
/// window of `depth` consecutive samples contains at least one sample
/// agreeing with the confirmed state - in particular any bounce that
/// oscillates with period below the debounce depth - emits no event at
/// all, and leaves the confirmed state unchanged.
pub proof fn lemma_debounce_rejects_oscillation(stable: bool, samples: Seq<bool>, depth: int)
    requires
        depth >= 1,
        no_steady_window(stable, samples, depth),
    ensures
        cell_fire_count(stable, 0, samples, depth) == 0,
        cell_stable_after(stable, 0, samples, depth) == stable,
{
    lemma_no_steady_window_prefix(stable, samples, depth);
    lemma_oscillation_general(stable, 0, samples, depth);
}

proof fn lemma_all_agree_quiet(stable: bool, count: int, samples: Seq<bool>, depth: int)
    requires
        depth >= 1,
        forall|u: int| 0 <= u < samples.len() ==> samples[u] == stable,
    ensures
        cell_fire_count(stable, count, samples, depth) == 0,
        cell_stable_after(stable, count, samples, depth) == stable,
    decreases samples.len(),
{
    if samples.len() > 0 {
        lemma_all_agree_quiet(stable, 0, samples.drop_first(), depth);
    }
}

proof fn lemma_steady_general(stable: bool, count: int, samples: Seq<bool>, depth: int)
    requires
        depth >= 1,
        0 <= count < depth,
        forall|u: int| 0 <= u < samples.len() ==> samples[u] == !stable,
        samples.len() >= depth - count,
    ensures
        cell_fire_count(stable, count, samples, depth) == 1,
        cell_stable_after(stable, count, samples, depth) == !stable,
    decreases samples.len(),
{
    let tail = samples.drop_first();
    if count + 1 >= depth {
        lemma_all_agree_quiet(!stable, 0, tail, depth);
    } else {
        lemma_steady_general(stable, count + 1, tail, depth);
    }
}

/// Debounce stability, confirmation half: a transition to the opposite
/// level held for at least `depth` consecutive raw samples emits
/// exactly one event over the whole sequence and flips the confirmed
/// state to the held level.
pub proof fn lemma_debounce_confirms_held_level(stable: bool, samples: Seq<bool>, depth: int)
    requires
        depth >= 1,
        samples.len() >= depth,
        forall|u: int| 0 <= u < samples.len() ==> samples[u] == !stable,
    ensures
        cell_fire_count(stable, 0, samples, depth) == 1,
        cell_stable_after(stable, 0, samples, depth) == !stable,
{
    lemma_steady_general(stable, 0, samples, depth);
}

} // verus!
