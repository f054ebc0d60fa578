//! Profiling state driven by the `sol_log_compute_units_start` /
//! `sol_log_compute_units_end` syscalls, the extraction of its results, and
//! the categorized README built from them.
use vstd::prelude::*;
use crate::text::{
    str_eq,
    before_char, capitalize, chars_of, char_to_uppercase, dec, find, find_char,
    lemma_find_from_matches, parse_or_zero, parse_uint_vec, push_dec, repeat_char,
    split, split_vec, starts_with, starts_with_vec, string_of, sub_vec, title_case, trim,
    trim_end_matches, trim_end_matches_vec, trim_vec, views, join_strings, string_views, concat_map, replace_char, lower, pad_right,
    lemma_concat_map_step, lemma_concat_map_push, lemma_take_all, push_pad_right,
    replace_char_str, to_lowercase, str_lt, str_less, lemma_str_lt_transitive, is_ws, trim_start,
    trim_end, matches_at, find_from,
};

verus! {

// ---------------------------------------------------------------------------
// ProfilingState
// ---------------------------------------------------------------------------

/// The heap budget of a Solana program, in bytes.
pub const HEAP_SIZE: u64 = 32_000;

/// A profiling section that has been started and not yet ended.
#[derive(Debug, Clone)]
pub struct ActiveEntry {
    pub id: String,
    pub start_cu: u64,
    pub start_sequence: usize,
    pub start_heap: Option<u64>,
}

#[derive(Debug, Clone)]
pub struct HeapMetrics {
    pub start_heap: u64,
    pub end_heap: u64,
    pub total_heap: u64,
    pub net_heap: u64,
    pub remaining_heap: u64,
}

/// A profiling section that has been started and ended.
#[derive(Debug, Clone)]
pub struct CompletedEntry {
    pub id: String,
    pub start_cu: u64,
    pub end_cu: u64,
    pub start_sequence: usize,
    pub end_sequence: usize,
    pub total_cu: u64,
    pub net_cu: u64,
    pub remaining_cu: u64,
    pub heap: Option<HeapMetrics>,
}

#[derive(Debug)]
pub struct ProfilingState {
    active_stack: Vec<ActiveEntry>,
    completed: Vec<CompletedEntry>,
    next_sequence: usize,
}

/// The abstract profiling state: the stack of open sections, the closed
/// sections in the order they were closed, and the next sequence number.
pub struct ProfilingModel {
    pub active: Seq<ActiveEntry>,
    pub completed: Seq<CompletedEntry>,
    pub next_sequence: usize,
}

impl View for ProfilingState {
    type V = ProfilingModel;

    closed spec fn view(&self) -> ProfilingModel {
        ProfilingModel {
            active: self.active_stack@,
            completed: self.completed@,
            next_sequence: self.next_sequence,
        }
    }
}

pub open spec fn sat_sub(a: u64, b: u64) -> u64 {
    if a >= b {
        (a - b) as u64
    } else {
        0
    }
}

/// The position of the most recently started open section named `id`.
pub open spec fn rposition(stack: Seq<ActiveEntry>, id: Seq<char>) -> Option<int>
    decreases stack.len(),
{
    if stack.len() == 0 {
        None
    } else if stack.last().id@ == id {
        Some(stack.len() - 1)
    } else {
        rposition(stack.drop_last(), id)
    }
}

/// The heap figures recorded when a section closes: present when the section
/// was opened with a heap reading and is closed with one.
pub open spec fn heap_metrics(start_heap: Option<u64>, heap_value: u64, with_heap: bool) -> Option<
    HeapMetrics,
> {
    match start_heap {
        Some(s) => if with_heap {
            Some(
                HeapMetrics {
                    start_heap: s,
                    end_heap: heap_value,
                    total_heap: sat_sub(heap_value, s),
                    net_heap: 0,
                    remaining_heap: sat_sub(HEAP_SIZE, s),
                },
            )
        } else {
            None
        },
        None => None,
    }
}

/// The record of an open section closed at `current_cu` with sequence number
/// `end_sequence`. Compute units count down, so the section consumed the
/// difference between its start and end readings.
pub open spec fn close_entry(
    a: ActiveEntry,
    current_cu: u64,
    heap_value: u64,
    with_heap: bool,
    end_sequence: usize,
) -> CompletedEntry {
    CompletedEntry {
        id: a.id,
        start_cu: a.start_cu,
        end_cu: current_cu,
        start_sequence: a.start_sequence,
        end_sequence,
        total_cu: sat_sub(a.start_cu, current_cu),
        net_cu: 0,
        remaining_cu: a.start_cu,
        heap: heap_metrics(a.start_heap, heap_value, with_heap),
    }
}

/// The state after `start`.
pub open spec fn start_model(
    m: ProfilingModel,
    id: String,
    current_cu: u64,
    heap_value: u64,
    with_heap: bool,
) -> ProfilingModel {
    ProfilingModel {
        active: m.active.push(
            ActiveEntry {
                id,
                start_cu: current_cu,
                start_sequence: m.next_sequence,
                start_heap: if with_heap {
                    Some(heap_value)
                } else {
                    None
                },
            },
        ),
        completed: m.completed,
        next_sequence: (m.next_sequence + 1) as usize,
    }
}

/// The state after an `end` of `id` that finds an open section named `id`.
pub open spec fn end_model(
    m: ProfilingModel,
    id: Seq<char>,
    current_cu: u64,
    heap_value: u64,
    with_heap: bool,
) -> ProfilingModel {
    match rposition(m.active, id) {
        Some(pos) => ProfilingModel {
            active: m.active.remove(pos),
            completed: m.completed.push(
                close_entry(m.active[pos], current_cu, heap_value, with_heap, m.next_sequence),
            ),
            next_sequence: (m.next_sequence + 1) as usize,
        },
        None => m,
    }
}

/// `child` was opened after `parent` and closed before it.
pub open spec fn is_child(child: CompletedEntry, parent: CompletedEntry) -> bool {
    child.start_sequence > parent.start_sequence && child.end_sequence < parent.end_sequence
}

pub open spec fn heap_total(e: CompletedEntry) -> nat {
    match e.heap {
        Some(h) => h.total_heap as nat,
        None => 0,
    }
}

/// Compute units consumed by the entries of `all` nested in `parent`.
pub open spec fn children_cu(all: Seq<CompletedEntry>, parent: CompletedEntry) -> nat
    decreases all.len(),
{
    if all.len() == 0 {
        0
    } else {
        children_cu(all.drop_last(), parent) + if is_child(all.last(), parent) {
            all.last().total_cu as nat
        } else {
            0
        }
    }
}

/// Heap consumed by the entries of `all` nested in `parent`.
pub open spec fn children_heap(all: Seq<CompletedEntry>, parent: CompletedEntry) -> nat
    decreases all.len(),
{
    if all.len() == 0 {
        0
    } else {
        children_heap(all.drop_last(), parent) + if is_child(all.last(), parent) {
            heap_total(all.last())
        } else {
            0
        }
    }
}

/// Summing the children of any entry stays within `u64`.
pub open spec fn sums_fit(all: Seq<CompletedEntry>) -> bool {
    forall|i: int|
        0 <= i < all.len() ==> children_cu(all, #[trigger] all[i]) <= u64::MAX && children_heap(
            all,
            all[i],
        ) <= u64::MAX
}

/// `e` with its net figures set: its own consumption without its children's.
pub open spec fn with_net(e: CompletedEntry, all: Seq<CompletedEntry>) -> CompletedEntry {
    CompletedEntry {
        net_cu: sat_sub(e.total_cu, children_cu(all, e) as u64),
        heap: match e.heap {
            Some(h) => Some(
                HeapMetrics {
                    net_heap: sat_sub(h.total_heap, children_heap(all, e) as u64),
                    ..h
                },
            ),
            None => None,
        },
        ..e
    }
}

pub open spec fn post_process_entries(all: Seq<CompletedEntry>) -> Seq<CompletedEntry> {
    all.map_values(|e: CompletedEntry| with_net(e, all))
}

/// Sequence numbers are handed out in order: every open section and every
/// closed one was numbered before the next number, and a closed section was
/// opened before it was closed.
pub open spec fn sequences_ordered(m: ProfilingModel) -> bool {
    &&& forall|i: int|
        0 <= i < m.active.len() ==> (#[trigger] m.active[i]).start_sequence < m.next_sequence
    &&& forall|i: int|
        0 <= i < m.completed.len() ==> (#[trigger] m.completed[i]).start_sequence
            < m.completed[i].end_sequence < m.next_sequence
}

impl ProfilingState {
    /// Every state hands out sequence numbers in order (see
    /// `sequences_ordered`).
    #[verifier::type_invariant]
    spec fn numbered_in_order(self) -> bool {
        sequences_ordered(self@)
    }

    pub fn new() -> (s: Self)
        ensures
            s@.active.len() == 0,
            s@.completed.len() == 0,
            s@.next_sequence == 0,
            sequences_ordered(s@),
    {
        ProfilingState { active_stack: Vec::new(), completed: Vec::new(), next_sequence: 0 }
    }

    /// Opens a section named `id` at `current_cu` remaining compute units.
    /// The section gets a sequence number above every one handed out before.
    pub fn start(&mut self, id: String, current_cu: u64, heap_value: u64, with_heap: bool)
        requires
            old(self)@.next_sequence < usize::MAX,
        ensures
            final(self)@ == start_model(old(self)@, id, current_cu, heap_value, with_heap),
            sequences_ordered(final(self)@),
            forall|i: int|
                0 <= i < old(self)@.active.len() ==> (#[trigger] old(self)@.active[i]).start_sequence
                    < final(self)@.active.last().start_sequence,
            forall|i: int|
                0 <= i < old(self)@.completed.len() ==> (#[trigger] old(
                    self,
                )@.completed[i]).end_sequence < final(self)@.active.last().start_sequence,
    {
        proof {
            use_type_invariant(&*self);
        }
        let entry = ActiveEntry {
            id,
            start_cu: current_cu,
            start_sequence: self.next_sequence,
            start_heap: if with_heap {
                Some(heap_value)
            } else {
                None
            },
        };
        let mut stack: Vec<ActiveEntry> = Vec::new();
        std::mem::swap(&mut stack, &mut self.active_stack);
        stack.push(entry);
        self.next_sequence = self.next_sequence + 1;
        self.active_stack = stack;
    }

    fn rposition_exec(&self, id: &str) -> (r: Option<usize>)
        ensures
            match r {
                Some(p) => rposition(self@.active, id@) == Some(p as int),
                None => rposition(self@.active, id@) is None,
            },
    {
        let mut i = self.active_stack.len();
        assert(self@.active.take(i as int) =~= self@.active);
        while i > 0
            invariant
                i <= self@.active.len(),
                rposition(self@.active, id@) == rposition(self@.active.take(i as int), id@),
            decreases i,
        {
            let ghost pre = self@.active.take(i as int);
            assert(pre.drop_last() =~= self@.active.take(i - 1));
            if str_eq(self.active_stack[i - 1].id.as_str(), id) {
                return Some(i - 1);
            }
            i = i - 1;
        }
        None
    }

    /// Closes the most recently opened section named `id` at `current_cu`
    /// remaining compute units; an error when no open section has that name.
    pub fn end(&mut self, id: &str, current_cu: u64, heap_value: u64, with_heap: bool) -> (r:
        Result<(), String>)
        requires
            rposition(old(self)@.active, id@) is Some ==> old(self)@.next_sequence < usize::MAX,
        ensures
            r is Ok <==> rposition(old(self)@.active, id@) is Some,
            final(self)@ == end_model(old(self)@, id@, current_cu, heap_value, with_heap),
            r matches Err(msg) ==> msg@ == "No active profiling section found for ID: "@ + id@,
            sequences_ordered(final(self)@),
            r is Ok ==> forall|i: int|
                0 <= i < old(self)@.completed.len() ==> (#[trigger] old(
                    self,
                )@.completed[i]).end_sequence < final(self)@.completed.last().end_sequence,
    {
        proof {
            use_type_invariant(&*self);
            assert(self.active_stack@ == self@.active);
        }
        let pos = match self.rposition_exec(id) {
            Some(p) => p,
            None => {
                let mut msg = String::from_str("No active profiling section found for ID: ");
                msg.append(id);
                return Err(msg);
            },
        };
        let ghost old_m = self@;
        proof {
            lemma_rposition_in_range(old_m.active, id@);
        }
        let mut stack: Vec<ActiveEntry> = Vec::new();
        std::mem::swap(&mut stack, &mut self.active_stack);
        let active_entry = stack.remove(pos);
        proof {
            assert forall|i: int| 0 <= i < stack@.len() implies (
            #[trigger] stack@[i]).start_sequence < old_m.next_sequence by {
                if i < pos {
                    assert(stack@[i] == old_m.active[i]);
                } else {
                    assert(stack@[i] == old_m.active[i + 1]);
                }
            }
        }
        self.active_stack = stack;
        let total_cu = active_entry.start_cu.saturating_sub(current_cu);
        let heap = match active_entry.start_heap {
            Some(start_heap_value) => {
                if with_heap {
                    let total_heap = heap_value.saturating_sub(start_heap_value);
                    let remaining_heap = HEAP_SIZE.saturating_sub(start_heap_value);
                    Some(
                        HeapMetrics {
                            start_heap: start_heap_value,
                            end_heap: heap_value,
                            total_heap,
                            net_heap: 0,
                            remaining_heap,
                        },
                    )
                } else {
                    None
                }
            },
            None => None,
        };
        let completed_entry = CompletedEntry {
            id: active_entry.id,
            start_cu: active_entry.start_cu,
            end_cu: current_cu,
            start_sequence: active_entry.start_sequence,
            end_sequence: self.next_sequence,
            total_cu,
            net_cu: 0,
            remaining_cu: active_entry.start_cu,
            heap,
        };
        self.next_sequence = self.next_sequence + 1;
        let mut done: Vec<CompletedEntry> = Vec::new();
        std::mem::swap(&mut done, &mut self.completed);
        done.push(completed_entry);
        self.completed = done;
        Ok(())
    }
}

impl ProfilingState {
    /// Sets each closed section's net figures: what it consumed itself,
    /// without the sections nested in it.
    pub fn post_process(&mut self)
        requires
            sums_fit(old(self)@.completed),
        ensures
            final(self)@.active == old(self)@.active,
            final(self)@.next_sequence == old(self)@.next_sequence,
            final(self)@.completed == post_process_entries(old(self)@.completed),
            sequences_ordered(final(self)@),
    {
        proof {
            use_type_invariant(&*self);
        }
        let ghost m0 = self@;
        let mut all: Vec<CompletedEntry> = Vec::new();
        std::mem::swap(&mut all, &mut self.completed);
        let done = net_entries(all);
        proof {
            lemma_post_process_shape(m0.completed);
            assert forall|i: int| 0 <= i < done@.len() implies (#[trigger] done@[i]).start_sequence
                < done@[i].end_sequence < m0.next_sequence by {
                assert(done@[i].start_sequence == m0.completed[i].start_sequence);
                assert(done@[i].end_sequence == m0.completed[i].end_sequence);
            }
        }
        self.completed = done;
    }

    pub fn get_completed(&self) -> (r: &[CompletedEntry])
        ensures
            r@ == self@.completed,
            sequences_ordered(self@),
    {
        proof {
            use_type_invariant(self);
        }
        self.completed.as_slice()
    }

    pub fn clear(&mut self)
        ensures
            final(self)@.active.len() == 0,
            final(self)@.completed.len() == 0,
            final(self)@.next_sequence == 0,
    {
        proof {
            use_type_invariant(&*self);
        }
        self.active_stack = Vec::new();
        self.completed = Vec::new();
        self.next_sequence = 0;
    }

    pub fn completed_count(&self) -> (r: usize)
        ensures
            r == self@.completed.len(),
    {
        self.completed.len()
    }
}

impl ProfilingState {
    /// Whether a section named `id` is open.
    pub fn is_open(&self, id: &str) -> (r: bool)
        ensures
            r == (rposition(self@.active, id@) is Some),
    {
        self.rposition_exec(id).is_some()
    }

    /// Whether another sequence number can be handed out.
    pub fn has_sequence_room(&self) -> (r: bool)
        ensures
            r == (self@.next_sequence < usize::MAX),
    {
        self.next_sequence < usize::MAX
    }

    /// Whether summing the children of every closed section stays within
    /// `u64`, as `post_process` needs.
    pub fn sums_fit_check(&self) -> (r: bool)
        ensures
            r == sums_fit(self@.completed),
    {
        let mut i: usize = 0;
        while i < self.completed.len()
            invariant
                self.completed@ == self@.completed,
                i <= self@.completed.len(),
                forall|k: int|
                    0 <= k < i ==> children_cu(self@.completed, #[trigger] self@.completed[k])
                        <= u64::MAX && children_heap(self@.completed, self@.completed[k])
                        <= u64::MAX,
            decreases self@.completed.len() - i,
        {
            if !children_fit(&self.completed, i) {
                return false;
            }
            i = i + 1;
        }
        true
    }
}

/// `all` with the net figures of every entry set.
fn net_entries(all: Vec<CompletedEntry>) -> (r: Vec<CompletedEntry>)
    requires
        sums_fit(all@),
    ensures
        r@ == post_process_entries(all@),
{
    let mut all = all;
    let n = all.len();
    let ghost orig = all@;
    let mut i: usize = 0;
    while i < n
        invariant
            n == orig.len(),
            sums_fit(orig),
            i <= n,
            same_shape(all@, orig),
            forall|k: int| 0 <= k < i ==> all@[k] == with_net(orig[k], orig),
            forall|k: int| i <= k < n ==> all@[k] == orig[k],
        decreases n - i,
    {
        proof {
            assert(all@[i as int] == orig[i as int]);
            lemma_children_same(all@, orig, orig[i as int], orig[i as int]);
        }
        let (children_cu_sum, children_heap_sum) = children_sums(&all, i);
        let ghost before = all@;
        let mut e = all.remove(i);
        e.net_cu = e.total_cu.saturating_sub(children_cu_sum);
        e.heap = match e.heap {
            Some(h) => Some(
                HeapMetrics {
                    start_heap: h.start_heap,
                    end_heap: h.end_heap,
                    total_heap: h.total_heap,
                    net_heap: h.total_heap.saturating_sub(children_heap_sum),
                    remaining_heap: h.remaining_heap,
                },
            ),
            None => None,
        };
        all.insert(i, e);
        proof {
            assert(all@ =~= before.update(i as int, with_net(orig[i as int], orig)));
            assert(same_shape(all@, orig)) by {
                assert forall|k: int| 0 <= k < n implies {
                    &&& (#[trigger] all@[k]).start_sequence == orig[k].start_sequence
                    &&& all@[k].end_sequence == orig[k].end_sequence
                    &&& all@[k].total_cu == orig[k].total_cu
                    &&& heap_total(all@[k]) == heap_total(orig[k])
                } by {
                    if k < i {
                    } else if k == i {
                    } else {
                    }
                }
            }
        }
        i = i + 1;
    }
    proof {
        assert(all@ =~= post_process_entries(orig));
    }
    all
}

fn children_fit(all: &Vec<CompletedEntry>, i: usize) -> (r: bool)
    requires
        i < all@.len(),
    ensures
        r == (children_cu(all@, all@[i as int]) <= u64::MAX && children_heap(all@, all@[i as int])
            <= u64::MAX),
{
    let entry = &all[i];
    let mut cu: u64 = 0;
    let mut heap: u64 = 0;
    let mut j: usize = 0;
    assert(all@.take(0) =~= Seq::<CompletedEntry>::empty());
    while j < all.len()
        invariant
            j <= all@.len(),
            *entry == all@[i as int],
            cu == children_cu(all@.take(j as int), *entry),
            heap == children_heap(all@.take(j as int), *entry),
        decreases all@.len() - j,
    {
        let other = &all[j];
        proof {
            assert(all@.take(j + 1).drop_last() =~= all@.take(j as int));
            lemma_children_prefix(all@, *entry, j + 1);
        }
        if other.start_sequence > entry.start_sequence && other.end_sequence < entry.end_sequence {
            match cu.checked_add(other.total_cu) {
                Some(v) => {
                    cu = v;
                },
                None => {
                    return false;
                },
            }
            match &other.heap {
                Some(other_heap) => match heap.checked_add(other_heap.total_heap) {
                    Some(v) => {
                        heap = v;
                    },
                    None => {
                        return false;
                    },
                },
                None => {},
            }
        }
        j = j + 1;
    }
    proof {
        lemma_take_all(all@);
    }
    true
}

impl Default for ProfilingState {
    fn default() -> (s: Self)
        ensures
            s@.active.len() == 0,
            s@.completed.len() == 0,
            s@.next_sequence == 0,
    {
        ProfilingState::new()
    }
}

/// `a` and `b` agree on everything that decides nesting and consumption.
pub open spec fn same_shape(a: Seq<CompletedEntry>, b: Seq<CompletedEntry>) -> bool {
    &&& a.len() == b.len()
    &&& forall|k: int|
        0 <= k < a.len() ==> {
            &&& (#[trigger] a[k]).start_sequence == b[k].start_sequence
            &&& a[k].end_sequence == b[k].end_sequence
            &&& a[k].total_cu == b[k].total_cu
            &&& heap_total(a[k]) == heap_total(b[k])
        }
}

proof fn lemma_children_same(
    a: Seq<CompletedEntry>,
    b: Seq<CompletedEntry>,
    p: CompletedEntry,
    q: CompletedEntry,
)
    requires
        same_shape(a, b),
        p.start_sequence == q.start_sequence,
        p.end_sequence == q.end_sequence,
    ensures
        children_cu(a, p) == children_cu(b, q),
        children_heap(a, p) == children_heap(b, q),
    decreases a.len(),
{
    if a.len() > 0 {
        assert(a.last() == a[a.len() - 1]);
        assert(b.last() == b[b.len() - 1]);
        assert(same_shape(a.drop_last(), b.drop_last())) by {
            assert forall|k: int| 0 <= k < a.len() - 1 implies {
                &&& (#[trigger] a.drop_last()[k]).start_sequence == b.drop_last()[k].start_sequence
                &&& a.drop_last()[k].end_sequence == b.drop_last()[k].end_sequence
                &&& a.drop_last()[k].total_cu == b.drop_last()[k].total_cu
                &&& heap_total(a.drop_last()[k]) == heap_total(b.drop_last()[k])
            } by {
                assert(a.drop_last()[k] == a[k]);
                assert(b.drop_last()[k] == b[k]);
            }
        }
        lemma_children_same(a.drop_last(), b.drop_last(), p, q);
    }
}

/// Setting the net figures changes nothing that decides nesting or
/// consumption.
proof fn lemma_post_process_shape(c: Seq<CompletedEntry>)
    ensures
        same_shape(post_process_entries(c), c),
{
    let d = post_process_entries(c);
    assert forall|k: int| 0 <= k < d.len() implies {
        &&& (#[trigger] d[k]).start_sequence == c[k].start_sequence
        &&& d[k].end_sequence == c[k].end_sequence
        &&& d[k].total_cu == c[k].total_cu
        &&& heap_total(d[k]) == heap_total(c[k])
    } by {
        assert(d[k] == with_net(c[k], c));
    }
}

/// Post-processing is idempotent: running it on its own result changes
/// nothing, and the result still has child sums that fit.
pub proof fn lemma_post_process_idempotent(c: Seq<CompletedEntry>)
    requires
        sums_fit(c),
    ensures
        post_process_entries(post_process_entries(c)) == post_process_entries(c),
        sums_fit(post_process_entries(c)),
{
    let d = post_process_entries(c);
    lemma_post_process_shape(c);
    assert forall|k: int| 0 <= k < d.len() implies with_net(#[trigger] d[k], d) == d[k] && children_cu(d, d[k]) == children_cu(c, c[k]) && children_heap(d, d[k]) == children_heap(c, c[k]) by {
        assert(d[k] == with_net(c[k], c));
        lemma_children_same(d, c, d[k], c[k]);
    }
    assert forall|k: int| 0 <= k < d.len() implies children_cu(d, #[trigger] d[k]) <= u64::MAX && children_heap(d, d[k]) <= u64::MAX by {
        assert(children_cu(d, d[k]) == children_cu(c, c[k]));
        assert(children_cu(c, c[k]) <= u64::MAX);
    }
    assert(post_process_entries(d) =~= d);
}

proof fn lemma_children_prefix(all: Seq<CompletedEntry>, p: CompletedEntry, j: int)
    requires
        0 <= j <= all.len(),
    ensures
        children_cu(all.take(j), p) <= children_cu(all, p),
        children_heap(all.take(j), p) <= children_heap(all, p),
    decreases all.len(),
{
    if j < all.len() {
        assert(all.drop_last().take(j) =~= all.take(j));
        lemma_children_prefix(all.drop_last(), p, j);
    } else {
        assert(all.take(j) =~= all);
    }
}

fn children_sums(all: &Vec<CompletedEntry>, i: usize) -> (r: (u64, u64))
    requires
        i < all@.len(),
        children_cu(all@, all@[i as int]) <= u64::MAX,
        children_heap(all@, all@[i as int]) <= u64::MAX,
    ensures
        r.0 == children_cu(all@, all@[i as int]),
        r.1 == children_heap(all@, all@[i as int]),
{
    let entry = &all[i];
    let mut children_cu_sum: u64 = 0;
    let mut children_heap_sum: u64 = 0;
    let mut j: usize = 0;
    assert(all@.take(0) =~= Seq::<CompletedEntry>::empty());
    while j < all.len()
        invariant
            j <= all@.len(),
            *entry == all@[i as int],
            children_cu(all@, *entry) <= u64::MAX,
            children_heap(all@, *entry) <= u64::MAX,
            children_cu_sum == children_cu(all@.take(j as int), *entry),
            children_heap_sum == children_heap(all@.take(j as int), *entry),
        decreases all@.len() - j,
    {
        let other = &all[j];
        proof {
            assert(all@.take(j + 1).drop_last() =~= all@.take(j as int));
            lemma_children_prefix(all@, *entry, j + 1);
        }
        if other.start_sequence > entry.start_sequence && other.end_sequence < entry.end_sequence {
            children_cu_sum = children_cu_sum + other.total_cu;
            match &other.heap {
                Some(other_heap) => {
                    children_heap_sum = children_heap_sum + other_heap.total_heap;
                },
                None => {},
            }
        }
        j = j + 1;
    }
    assert(all@.take(j as int) =~= all@);
    (children_cu_sum, children_heap_sum)
}

// ---------------------------------------------------------------------------
// Profiling results
// ---------------------------------------------------------------------------

/// A profile id is the function name, a newline, then the source location
/// (padded with spaces); without a newline it is the name alone.
pub open spec fn split_id(id: Seq<char>) -> (Seq<char>, Seq<char>) {
    match find(id, seq!['\n']) {
        Some(pos) => (id.take(pos), trim(id.skip(pos + 1))),
        None => (id, Seq::empty()),
    }
}

/// `(function name, total compute units, source location)` of a closed section.
pub open spec fn result_matches(r: (String, u64, String), e: CompletedEntry) -> bool {
    &&& r.0@ == split_id(e.id@).0
    &&& r.1 == e.total_cu
    &&& r.2@ == split_id(e.id@).1
}

fn split_profile_id(id: &String) -> (r: (String, String))
    ensures
        r.0@ == split_id(id@).0,
        r.1@ == split_id(id@).1,
{
    let v = chars_of(id.as_str());
    match find_char(&v, '\n') {
        Some(pos) => {
            proof {
                lemma_find_from_matches(v@, seq!['\n'], 0);
            }
            let n = v.len();
            let name = string_of(&v, 0, pos);
            let rest = sub_vec(&v, pos + 1, n);
            let loc = trim_vec(&rest);
            let loc_len = loc.len();
            (name, string_of(&loc, 0, loc_len))
        },
        None => (id.clone(), String::new()),
    }
}

/// Takes the profiling results, post-processes them and clears the state for
/// the next instruction; with nothing closed the result is empty.
pub fn take_profiling_results(state: &mut ProfilingState) -> (r: Vec<(String, u64, String)>)
    requires
        sums_fit(old(state)@.completed),
    ensures
        final(state)@.active.len() == 0,
        final(state)@.completed.len() == 0,
        final(state)@.next_sequence == 0,
        old(state)@.completed.len() == 0 ==> r@.len() == 0,
        r@.len() == old(state)@.completed.len(),
        forall|i: int|
            0 <= i < r@.len() ==> result_matches(#[trigger] r@[i], old(state)@.completed[i]),
{
    if state.completed_count() == 0 {
        state.clear();
        return Vec::new();
    }
    let ghost before = state@.completed;
    state.post_process();
    let entries = state.get_completed();
    let mut results: Vec<(String, u64, String)> = Vec::new();
    let mut i: usize = 0;
    while i < entries.len()
        invariant
            entries@ == post_process_entries(before),
            i <= entries@.len(),
            results@.len() == i,
            forall|k: int| 0 <= k < i ==> result_matches(#[trigger] results@[k], before[k]),
        decreases entries@.len() - i,
    {
        let entry = &entries[i];
        let (func_name, file_location) = split_profile_id(&entry.id);
        results.push((func_name, entry.total_cu, file_location));
        proof {
            assert(results@[i as int].1 == before[i as int].total_cu);
        }
        i = i + 1;
    }
    state.clear();
    results
}

// ---------------------------------------------------------------------------
// Source locations and names
// ---------------------------------------------------------------------------

/// The category and file stem of a profiled location such as
/// `src/folder/file.rs:12`: `src/lib.rs` is the baseline; a file in a folder
/// under `src/` gives the folder and the file name before any `:` and without
/// its `.rs` endings; a file directly under `src/` gives its name before the
/// first `.` and `:` and an unknown file; anything else is unknown.
pub open spec fn category_and_file(fl: Seq<char>) -> (Seq<char>, Seq<char>) {
    if fl == "src/lib.rs"@ || starts_with(fl, "src/lib.rs:"@) {
        ("baseline"@, "lib"@)
    } else if starts_with(fl, "src/"@) {
        let parts = split(fl.skip("src/"@.len() as int), '/');
        if parts.len() >= 2 {
            (parts[0], trim_end_matches(split(parts[1], ':')[0], ".rs"@))
        } else {
            (split(split(parts[0], '.')[0], ':')[0], "unknown"@)
        }
    } else {
        ("other"@, "unknown"@)
    }
}

proof fn lemma_split_nonempty(s: Seq<char>, c: char)
    ensures
        split(s, c).len() >= 1,
    decreases s.len(),
{
    match find(s, seq![c]) {
        Some(i) => {
            if 0 <= i < s.len() {
                lemma_split_nonempty(s.skip(i + 1), c);
            }
        },
        None => {},
    }
}

/// Extracts the category and the file stem from a profiled source location.
pub fn extract_category_and_file(file_location: &str) -> (r: (String, String))
    ensures
        r.0@ == category_and_file(file_location@).0,
        r.1@ == category_and_file(file_location@).1,
{
    let v = chars_of(file_location);
    if str_eq(file_location, "src/lib.rs") || starts_with_vec(&v, "src/lib.rs:") {
        return (String::from_str("baseline"), String::from_str("lib"));
    }
    if starts_with_vec(&v, "src/") {
        let prefix = chars_of("src/");
        let without_src = sub_vec(&v, prefix.len(), v.len());
        proof {
            assert(without_src@ =~= v@.skip("src/"@.len() as int));
        }
        let path_parts = split_vec(&without_src, '/');
        proof {
            lemma_split_nonempty(without_src@, '/');
            assert(path_parts@.len() == split(without_src@, '/').len());
        }
        if path_parts.len() >= 2 {
            proof {
                assert(path_parts@[0]@ == split(without_src@, '/')[0]);
                assert(path_parts@[1]@ == split(without_src@, '/')[1]);
            }
            let folder_name = &path_parts[0];
            let file_part = &path_parts[1];
            let stem_part = before_char(file_part, ':');
            let file_stem = trim_end_matches_vec(&stem_part, ".rs");
            let fl = folder_name.len();
            let sl = file_stem.len();
            return (string_of(folder_name, 0, fl), string_of(&file_stem, 0, sl));
        } else {
            proof {
                assert(path_parts@[0]@ == split(without_src@, '/')[0]);
            }
            let folder_name = &path_parts[0];
            let clean_folder = before_char(folder_name, '.');
            let clean_folder = before_char(&clean_folder, ':');
            let cl = clean_folder.len();
            return (string_of(&clean_folder, 0, cl), String::from_str("unknown"));
        }
    }
    (String::from_str("other"), String::from_str("unknown"))
}

fn capitalize_word(w: &Vec<char>) -> (r: String)
    ensures
        r@ == capitalize(w@),
{
    if w.len() == 0 {
        return String::new();
    }
    let mut r = char_to_uppercase(w[0]);
    let rest = string_of(w, 1, w.len());
    r.append(rest.as_str());
    assert(w@.drop_first() =~= w@.subrange(1, w@.len() as int));
    r
}

/// Converts a `snake_case` string to `Title Case`.
pub fn snake_to_title_case(s: &str) -> (r: String)
    ensures
        r@ == title_case(s@),
{
    let v = chars_of(s);
    let words = split_vec(&v, '_');
    let ghost target = split(s@, '_').map_values(|w: Seq<char>| capitalize(w));
    let mut caps: Vec<String> = Vec::new();
    let mut i: usize = 0;
    while i < words.len()
        invariant
            views(words@) == split(s@, '_'),
            target == split(s@, '_').map_values(|w: Seq<char>| capitalize(w)),
            i <= words@.len(),
            caps@.len() == i,
            forall|k: int| 0 <= k < i ==> (#[trigger] caps@[k])@ == target[k],
        decreases words@.len() - i,
    {
        proof {
            assert(views(words@)[i as int] == words@[i as int]@);
        }
        caps.push(capitalize_word(&words[i]));
        i = i + 1;
    }
    assert(string_views(caps@) =~= target);
    join_strings(&caps, " ")
}

/// The display name configured for `name`: the value of the first pair whose
/// key is `name`.
pub open spec fn lookup_override(pairs: Seq<(String, String)>, name: Seq<char>) -> Option<
    Seq<char>,
>
    decreases pairs.len(),
{
    if pairs.len() == 0 {
        None
    } else if pairs[0].0@ == name {
        Some(pairs[0].1@)
    } else {
        lookup_override(pairs.drop_first(), name)
    }
}

/// The configured display name of `name`, else its Title Case form.
pub open spec fn display_name_of(pairs: Seq<(String, String)>, name: Seq<char>) -> Seq<char> {
    match lookup_override(pairs, name) {
        Some(v) => v,
        None => title_case(name),
    }
}

pub(crate) fn find_override(pairs: &Vec<(String, String)>, name: &str) -> (r: Option<String>)
    ensures
        match r {
            Some(v) => lookup_override(pairs@, name@) == Some(v@),
            None => lookup_override(pairs@, name@) is None,
        },
{
    let mut i: usize = 0;
    assert(pairs@.skip(0) =~= pairs@);
    while i < pairs.len()
        invariant
            i <= pairs@.len(),
            lookup_override(pairs@, name@) == lookup_override(pairs@.skip(i as int), name@),
        decreases pairs@.len() - i,
    {
        assert(pairs@.skip(i as int)[0] == pairs@[i as int]);
        assert(pairs@.skip(i as int).drop_first() =~= pairs@.skip(i + 1));
        if str_eq(pairs[i].0.as_str(), name) {
            return Some(pairs[i].1.clone());
        }
        i = i + 1;
    }
    None
}

fn get_display_name(folder_name: &str, overrides: &Vec<(String, String)>) -> (r: String)
    ensures
        r@ == display_name_of(overrides@, folder_name@),
{
    match find_override(overrides, folder_name) {
        Some(name) => name,
        None => snake_to_title_case(folder_name),
    }
}

/// Two spaces of indentation per level.
pub open spec fn indentation(level: nat) -> Seq<char> {
    repeat_char(' ', 2 * level)
}

fn add_indentation(text: &str, level: usize) -> (r: String)
    ensures
        r@ == indentation(level as nat) + text@,
{
    let mut r = String::new();
    let mut i: usize = 0;
    while i < level
        invariant
            i <= level,
            r@ == indentation(i as nat),
        decreases level - i,
    {
        r.append("  ");
        proof {
            reveal_strlit("  ");
            assert(indentation((i + 1) as nat) =~= indentation(i as nat) + "  "@);
        }
        i = i + 1;
    }
    r.append(text);
    r
}

/// The line number in a `path:line` location, as `parse::<usize>` reads it
/// after trimming, or 0 when it does not parse.
pub open spec fn location_line(fl: Seq<char>) -> nat {
    parse_or_zero(trim(split(fl, ':')[1]), usize::MAX as nat)
}

/// The link can number the line after the one in the location: a line
/// number of `usize::MAX` would overflow.
pub open spec fn location_fits(fl: Seq<char>) -> bool {
    fl.len() > 0 && split(fl, ':').len() >= 2 ==> location_line(fl) < usize::MAX
}

/// A markdown link to the source line of a profiled function; the function
/// name alone when the location has no `:line` part.
pub open spec fn github_link(func_name: Seq<char>, fl: Seq<char>, base: Seq<char>) -> Seq<char> {
    if fl.len() == 0 || split(fl, ':').len() < 2 {
        func_name
    } else {
        "["@ + func_name + "]("@ + base + split(fl, ':')[0] + "#L"@ + dec(location_line(fl) + 1)
            + ")"@
    }
}

/// Parses the line number of a `path:line` location; `parts` is its `split(':')`.
pub(crate) fn location_line_exec(parts: &Vec<Vec<char>>) -> (r: usize)
    requires
        parts@.len() >= 2,
    ensures
        r == parse_or_zero(trim(parts@[1]@), usize::MAX as nat),
{
    let t = trim_vec(&parts[1]);
    match parse_uint_vec(&t, usize::MAX as u64) {
        Some(v) => v as usize,
        None => 0,
    }
}

fn make_github_link(func_name: &str, file_location: &str, github_base_url: &str) -> (r: String)
    requires
        location_fits(file_location@),
    ensures
        r@ == github_link(func_name@, file_location@, github_base_url@),
{
    let v = chars_of(file_location);
    if v.len() == 0 {
        return String::from_str(func_name);
    }
    let parts = split_vec(&v, ':');
    proof {
        assert(parts@.len() == split(v@, ':').len());
    }
    if parts.len() >= 2 {
        proof {
            assert(parts@[0]@ == split(v@, ':')[0]);
            assert(parts@[1]@ == split(v@, ':')[1]);
        }
        let line_num = location_line_exec(&parts) + 1;
        let mut r = String::from_str("[");
        r.append(func_name);
        r.append("](");
        r.append(github_base_url);
        let pl = parts[0].len();
        let path = string_of(&parts[0], 0, pl);
        r.append(path.as_str());
        r.append("#L");
        push_dec(&mut r, line_num as u64);
        r.append(")");
        r
    } else {
        String::from_str(func_name)
    }
}

// ---------------------------------------------------------------------------
// Categorized README
// ---------------------------------------------------------------------------

/// Configuration for README benchmark report generation.
pub struct ReadmeConfig {
    pub title: String,
    pub description: String,
    /// Base URL for GitHub source links, e.g. "https://github.com/org/repo/blob/main/"
    pub github_base_url: String,
    pub output_path: String,
    /// Display names that override the snake_case -> Title Case conversion
    /// of folder names, as `(folder_name, display_name)` pairs.
    pub display_name_overrides: Vec<(String, String)>,
}

/// A single benchmark entry: one profiled function's result.
#[derive(Debug, Clone)]
pub struct BenchmarkEntry {
    pub func_name: String,
    pub cu_value: String,
    pub file_location: String,
}

/// The entries of one file, under its file stem.
pub type FileResults = (String, Vec<BenchmarkEntry>);

/// The files of one category, under the category name.
pub type CategoryResults = (String, Vec<FileResults>);

/// Benchmark results organized as category -> file stem -> entries, in the
/// order in which they are rendered.
pub type BenchmarkResults = Vec<CategoryResults>;

/// The names of `pairs` are distinct, as the keys of a map are.
pub open spec fn names_unique(pairs: Seq<(String, String)>) -> bool {
    forall|i: int, j: int| 0 <= i < j < pairs.len() ==> #[trigger] pairs[i].0@ != #[trigger] pairs[j].0@
}

/// The file stems of a category are strictly ascending, as the keys of a
/// sorted map are.
pub open spec fn files_sorted(fs: Seq<FileResults>) -> bool {
    forall|i: int, j: int| 0 <= i < j < fs.len() ==> str_lt(#[trigger] fs[i].0@, #[trigger] fs[j].0@)
}

/// Category names strictly ascending, and the files of each category too:
/// results organized as a sorted map of sorted maps.
pub open spec fn results_sorted(rs: Seq<CategoryResults>) -> bool {
    &&& forall|i: int, j: int| 0 <= i < j < rs.len() ==> str_lt(#[trigger] rs[i].0@, #[trigger] rs[j].0@)
    &&& forall|c: int| 0 <= c < rs.len() ==> files_sorted(#[trigger] rs[c].1@)
}

/// Whether the names of `pairs` are distinct.
pub fn overrides_unique(pairs: &Vec<(String, String)>) -> (r: bool)
    ensures
        r == names_unique(pairs@),
{
    let mut j: usize = 0;
    while j < pairs.len()
        invariant
            j <= pairs@.len(),
            forall|a: int, b: int| 0 <= a < b < j ==> #[trigger] pairs@[a].0@ != #[trigger] pairs@[b].0@,
        decreases pairs@.len() - j,
    {
        let mut i: usize = 0;
        while i < j
            invariant
                j < pairs@.len(),
                i <= j,
                forall|a: int, b: int| 0 <= a < b < j ==> #[trigger] pairs@[a].0@ != #[trigger] pairs@[b].0@,
                forall|a: int| 0 <= a < i ==> #[trigger] pairs@[a].0@ != pairs@[j as int].0@,
            decreases j - i,
        {
            if str_eq(pairs[i].0.as_str(), pairs[j].0.as_str()) {
                return false;
            }
            i = i + 1;
        }
        j = j + 1;
    }
    true
}

/// Whether the file stems of a category are strictly ascending.
fn files_sorted_check(fs: &Vec<FileResults>) -> (r: bool)
    ensures
        r == files_sorted(fs@),
{
    let mut k: usize = 1;
    while k < fs.len()
        invariant
            1 <= k,
            fs@.len() == 0 || k <= fs@.len(),
            forall|i: int, j: int| 0 <= i < j < k && j < fs@.len() ==> str_lt(#[trigger] fs@[i].0@, #[trigger] fs@[j].0@),
        decreases fs@.len() - k,
    {
        if !str_less(fs[k - 1].0.as_str(), fs[k as usize].0.as_str()) {
            return false;
        }
        proof {
            assert forall|i: int, j: int| 0 <= i < j < k + 1 && j < fs@.len() implies str_lt(#[trigger] fs@[i].0@, #[trigger] fs@[j].0@) by {
                if j == k && i < k - 1 {
                    lemma_str_lt_transitive(fs@[i].0@, fs@[k - 1].0@, fs@[j].0@);
                }
            }
        }
        k = k + 1;
    }
    true
}

/// Whether `results` is organized as a sorted map of sorted maps.
pub fn results_sorted_check(results: &BenchmarkResults) -> (r: bool)
    ensures
        r == results_sorted(results@),
{
    let mut k: usize = 1;
    while k < results.len()
        invariant
            1 <= k,
            results@.len() == 0 || k <= results@.len(),
            forall|i: int, j: int| 0 <= i < j < k && j < results@.len() ==> str_lt(#[trigger] results@[i].0@, #[trigger] results@[j].0@),
        decreases results@.len() - k,
    {
        if !str_less(results[k - 1].0.as_str(), results[k as usize].0.as_str()) {
            return false;
        }
        proof {
            assert forall|i: int, j: int| 0 <= i < j < k + 1 && j < results@.len() implies str_lt(#[trigger] results@[i].0@, #[trigger] results@[j].0@) by {
                if j == k && i < k - 1 {
                    lemma_str_lt_transitive(results@[i].0@, results@[k - 1].0@, results@[j].0@);
                }
            }
        }
        k = k + 1;
    }
    let mut c: usize = 0;
    while c < results.len()
        invariant
            c <= results@.len(),
            forall|i: int, j: int| 0 <= i < j < results@.len() ==> str_lt(#[trigger] results@[i].0@, #[trigger] results@[j].0@),
            forall|d: int| 0 <= d < c ==> files_sorted(#[trigger] results@[d].1@),
        decreases results@.len() - c,
    {
        if !files_sorted_check(&results[c].1) {
            return false;
        }
        c = c + 1;
    }
    true
}

pub open spec fn is_baseline(c: CategoryResults) -> bool {
    c.0@ == "baseline"@
}

/// The position of the first category named `baseline`.
pub open spec fn baseline_index(rs: Seq<CategoryResults>) -> Option<int>
    decreases rs.len(),
{
    if rs.len() == 0 {
        None
    } else {
        match baseline_index(rs.drop_last()) {
            Some(i) => Some(i),
            None => if is_baseline(rs.last()) {
                Some(rs.len() - 1)
            } else {
                None
            },
        }
    }
}

/// The categories other than the baseline, in order.
pub open spec fn others(rs: Seq<CategoryResults>) -> Seq<CategoryResults>
    decreases rs.len(),
{
    if rs.len() == 0 {
        Seq::empty()
    } else if is_baseline(rs.last()) {
        others(rs.drop_last())
    } else {
        others(rs.drop_last()).push(rs.last())
    }
}

/// A heading anchor of a numbered file: `{section}{file}-{display name in
/// lower case with spaces as dashes}`.
pub open spec fn toc_file_line(sn: nat, k: nat, stem: Seq<char>) -> Seq<char> {
    let fd = title_case(stem);
    "  - ["@ + dec(sn) + "."@ + dec(k) + " "@ + fd + "](#"@ + dec(sn) + dec(k) + "-"@
        + replace_char(lower(fd), ' ', "-"@) + ")\n"@
}

pub open spec fn toc_file_fn(sn: nat) -> spec_fn(int, FileResults) -> Seq<char> {
    |k: int, f: FileResults| toc_file_line(sn, (k + 1) as nat, f.0@)
}

pub open spec fn toc_files(files: Seq<FileResults>, sn: nat) -> Seq<char> {
    concat_map(files, toc_file_fn(sn))
}

pub open spec fn toc_baseline(files: Seq<FileResults>) -> Seq<char> {
    "**["@ + dec(1) + ". Baseline](#"@ + dec(1) + "-baseline)**\n\n"@ + toc_files(files, 1)
        + "\n"@
}

pub open spec fn toc_category(c: CategoryResults, sn: nat, ov: Seq<(String, String)>) -> Seq<
    char,
> {
    "**["@ + dec(sn) + ". "@ + display_name_of(ov, c.0@) + "](#"@ + dec(sn) + "-"@
        + replace_char(c.0@, '_', "-"@) + ")**\n\n"@ + toc_files(c.1@, sn) + "\n"@
}

pub open spec fn toc_category_fn(first: nat, ov: Seq<(String, String)>) -> spec_fn(
    int,
    CategoryResults,
) -> Seq<char> {
    |j: int, c: CategoryResults| toc_category(c, (first + j) as nat, ov)
}

pub open spec fn definitions() -> Seq<char> {
    "## Definitions\n\n"@
        + "- **CU Consumed**: Total compute units consumed by the profiled function\n"@
        + "- **CU Adjusted**: Actual operation cost with baseline profiling overhead subtracted (CU Consumed - Baseline CU)\n"@
        + "- **Baseline CU**: CU consumed by an empty profiled function (`#[profile]` macro overhead)\n\n"@
}

pub open spec fn table_header() -> Seq<char> {
    "| Function                                                                                                                                                                                                                | CU Consumed | CU Adjusted |"@
}

pub open spec fn table_separator() -> Seq<char> {
    "|-------------------------------------------------------------------------------------------------------------------------------------------------------------------------------------------------------------------------|-------------|-------------|"@
}

/// The heading and table head of the `k`-th file of section `num`.
pub open spec fn file_header(num: nat, k: nat, stem: Seq<char>) -> Seq<char> {
    indentation(1) + "### "@ + dec(num) + "."@ + dec(k) + " "@ + title_case(stem) + "\n\n"@
        + indentation(1) + table_header() + "\n"@ + indentation(1) + table_separator() + "\n"@
}

pub open spec fn entry_row(link: Seq<char>, cu: Seq<char>, adjusted: Seq<char>) -> Seq<char> {
    indentation(1) + "| "@ + pad_right(link, 180) + " | "@ + pad_right(cu, 11) + " | "@
        + pad_right(adjusted, 11) + " |"@ + "\n"@
}

pub open spec fn entry_link(e: BenchmarkEntry, base: Seq<char>) -> Seq<char> {
    github_link(e.func_name@, e.file_location@, base)
}

/// The consumption above the baseline, or 0 when it is below it.
pub open spec fn adjusted(cu_value: Seq<char>, baseline: nat) -> Seq<char> {
    let c = parse_or_zero(cu_value, u64::MAX as nat);
    if c >= baseline {
        dec((c - baseline) as nat)
    } else {
        "0"@
    }
}

pub open spec fn baseline_row_fn(base: Seq<char>) -> spec_fn(int, BenchmarkEntry) -> Seq<char> {
    |i: int, e: BenchmarkEntry| entry_row(entry_link(e, base), e.cu_value@, "N/A"@)
}

pub open spec fn category_row_fn(base: Seq<char>, bcu: nat) -> spec_fn(int, BenchmarkEntry) -> Seq<
    char,
> {
    |i: int, e: BenchmarkEntry| entry_row(entry_link(e, base), e.cu_value@, adjusted(e.cu_value@, bcu))
}

pub open spec fn file_block(
    num: nat,
    k: nat,
    f: FileResults,
    row_fn: spec_fn(int, BenchmarkEntry) -> Seq<char>,
) -> Seq<char> {
    file_header(num, k, f.0@) + concat_map(f.1@, row_fn) + "\n"@
}

pub open spec fn file_block_fn(num: nat, row_fn: spec_fn(int, BenchmarkEntry) -> Seq<char>) -> spec_fn(
    int,
    FileResults,
) -> Seq<char> {
    |k: int, f: FileResults| file_block(num, (k + 1) as nat, f, row_fn)
}

pub open spec fn baseline_section(files: Seq<FileResults>, base: Seq<char>) -> Seq<char> {
    "## "@ + dec(1) + ". Baseline\n\n"@ + concat_map(files, file_block_fn(1, baseline_row_fn(base)))
}

pub open spec fn category_section(
    c: CategoryResults,
    num: nat,
    ov: Seq<(String, String)>,
    base: Seq<char>,
    bcu: nat,
) -> Seq<char> {
    "## "@ + dec(num) + ". "@ + display_name_of(ov, c.0@) + "\n\n"@ + concat_map(
        c.1@,
        file_block_fn(num, category_row_fn(base, bcu)),
    )
}

pub open spec fn category_section_fn(
    first: nat,
    ov: Seq<(String, String)>,
    base: Seq<char>,
    bcu: nat,
) -> spec_fn(int, CategoryResults) -> Seq<char> {
    |j: int, c: CategoryResults| category_section(c, (first + j) as nat, ov, base, bcu)
}

/// The CU of the first entry of the first baseline file, which the other
/// entries are measured against; 0 when there is none or it does not parse.
pub open spec fn baseline_cu(rs: Seq<CategoryResults>) -> nat {
    match baseline_index(rs) {
        Some(b) => {
            let files = rs[b].1@;
            if files.len() > 0 && files[0].1@.len() > 0 {
                parse_or_zero(files[0].1@[0].cu_value@, u64::MAX as nat)
            } else {
                0
            }
        },
        None => 0,
    }
}

/// The README for `rs`: title, description, a numbered table of contents
/// (baseline first), the definitions, then a numbered section per category
/// with a table per file. Outside the baseline, each entry's consumption is
/// also shown with the baseline's subtracted.
pub open spec fn categorized_readme(config: ReadmeConfig, rs: Seq<CategoryResults>) -> Seq<char> {
    let has_b = baseline_index(rs) is Some;
    let first: nat = if has_b {
        2
    } else {
        1
    };
    let bfiles = if has_b {
        rs[baseline_index(rs)->0].1@
    } else {
        Seq::empty()
    };
    let ov = config.display_name_overrides@;
    let base = config.github_base_url@;
    "# "@ + config.title@ + "\n\n"@ + config.description@ + "\n\n"@ + "## Table of Contents\n\n"@
        + (if has_b {
        toc_baseline(bfiles)
    } else {
        Seq::empty()
    }) + concat_map(others(rs), toc_category_fn(first, ov)) + "\n"@ + definitions() + (if has_b {
        baseline_section(bfiles, config.github_base_url@)
    } else {
        Seq::empty()
    }) + concat_map(others(rs), category_section_fn(first, ov, base, baseline_cu(rs)))
}

pub open spec fn entries_fit(es: Seq<BenchmarkEntry>) -> bool {
    forall|e: int| 0 <= e < es.len() ==> location_fits(#[trigger] es[e].file_location@)
}

pub open spec fn files_fit(fs: Seq<FileResults>) -> bool {
    &&& fs.len() < i32::MAX
    &&& forall|f: int| 0 <= f < fs.len() ==> entries_fit(#[trigger] fs[f].1@)
}

/// What rendering needs of the results: every linked location can number
/// its next line, and the section and file numbers stay within `i32`.
pub open spec fn readme_fits(rs: Seq<CategoryResults>) -> bool {
    &&& rs.len() < i32::MAX
    &&& forall|c: int| 0 <= c < rs.len() ==> files_fit(#[trigger] rs[c].1@)
}

pub open spec fn row_fn_for(base: Seq<char>, bcu: Option<u64>) -> spec_fn(int, BenchmarkEntry) -> Seq<
    char,
> {
    match bcu {
        Some(b) => category_row_fn(base, b as nat),
        None => baseline_row_fn(base),
    }
}

/// Whether a location can be linked: `location_fits` checked.
pub fn location_fits_check(file_location: &str) -> (r: bool)
    ensures
        r == location_fits(file_location@),
{
    let v = chars_of(file_location);
    if v.len() == 0 {
        return true;
    }
    let parts = split_vec(&v, ':');
    proof {
        assert(parts@.len() == split(v@, ':').len());
    }
    if parts.len() < 2 {
        return true;
    }
    proof {
        assert(parts@[1]@ == split(v@, ':')[1]);
    }
    location_line_exec(&parts) < usize::MAX
}

fn entries_fit_check(es: &Vec<BenchmarkEntry>) -> (r: bool)
    ensures
        r == entries_fit(es@),
{
    let mut k: usize = 0;
    while k < es.len()
        invariant
            k <= es@.len(),
            forall|j: int| 0 <= j < k ==> location_fits(#[trigger] es@[j].file_location@),
        decreases es@.len() - k,
    {
        if !location_fits_check(es[k].file_location.as_str()) {
            return false;
        }
        k = k + 1;
    }
    true
}

/// Whether `render_categorized_readme` can render `results`: `readme_fits`
/// checked.
pub fn readme_fits_check(results: &BenchmarkResults) -> (r: bool)
    ensures
        r == readme_fits(results@),
{
    if results.len() >= i32::MAX as usize {
        return false;
    }
    let mut c: usize = 0;
    while c < results.len()
        invariant
            results@.len() < i32::MAX,
            c <= results@.len(),
            forall|j: int| 0 <= j < c ==> files_fit(#[trigger] results@[j].1@),
        decreases results@.len() - c,
    {
        let files = &results[c].1;
        if files.len() >= i32::MAX as usize {
            assert(!files_fit(results@[c as int].1@));
            return false;
        }
        let mut f: usize = 0;
        while f < files.len()
            invariant
                c < results@.len(),
                files@ == results@[c as int].1@,
                files@.len() < i32::MAX,
                f <= files@.len(),
                forall|j: int| 0 <= j < f ==> entries_fit(#[trigger] files@[j].1@),
            decreases files@.len() - f,
        {
            if !entries_fit_check(&files[f].1) {
                assert(!files_fit(results@[c as int].1@));
                return false;
            }
            f = f + 1;
        }
        c = c + 1;
    }
    true
}

proof fn lemma_indentation_one()
    ensures
        "  "@ == indentation(1),
{
    reveal_strlit("  ");
    assert("  "@ =~= indentation(1));
}

proof fn lemma_baseline_prefix(rs: Seq<CategoryResults>, j: int)
    requires
        0 <= j <= rs.len(),
        baseline_index(rs.take(j)) is Some,
    ensures
        baseline_index(rs) == baseline_index(rs.take(j)),
    decreases rs.len(),
{
    if j < rs.len() {
        assert(rs.drop_last().take(j) =~= rs.take(j));
        lemma_baseline_prefix(rs.drop_last(), j);
    } else {
        assert(rs.take(j) =~= rs);
    }
}

proof fn lemma_baseline_in_range(rs: Seq<CategoryResults>)
    ensures
        baseline_index(rs) matches Some(b) ==> 0 <= b < rs.len() && is_baseline(rs[b]),
    decreases rs.len(),
{
    if rs.len() > 0 {
        lemma_baseline_in_range(rs.drop_last());
        if baseline_index(rs.drop_last()) is Some {
            assert(rs.drop_last()[baseline_index(rs.drop_last())->0] == rs[baseline_index(
                rs.drop_last(),
            )->0]);
        }
    }
}

proof fn lemma_scan_step(rs: Seq<CategoryResults>, i: int)
    requires
        0 <= i < rs.len(),
    ensures
        others(rs.take(i + 1)) == if is_baseline(rs[i]) {
            others(rs.take(i))
        } else {
            others(rs.take(i)).push(rs[i])
        },
        baseline_index(rs.take(i)) is None ==> baseline_index(rs.take(i + 1)) == if is_baseline(
            rs[i],
        ) {
            Some(i)
        } else {
            None::<int>
        },
        others(rs.take(i)).len() <= i,
{
    assert(rs.take(i + 1).drop_last() =~= rs.take(i));
    assert(rs.take(i + 1).last() == rs[i]);
    lemma_others_len(rs.take(i));
}

proof fn lemma_others_len(rs: Seq<CategoryResults>)
    ensures
        others(rs).len() <= rs.len(),
    decreases rs.len(),
{
    if rs.len() > 0 {
        lemma_others_len(rs.drop_last());
    }
}

fn is_baseline_exec(c: &CategoryResults) -> (r: bool)
    ensures
        r == is_baseline(*c),
{
    str_eq(c.0.as_str(), "baseline")
}

fn find_baseline(rs: &BenchmarkResults) -> (r: Option<usize>)
    ensures
        match r {
            Some(b) => baseline_index(rs@) == Some(b as int),
            None => baseline_index(rs@) is None,
        },
{
    let mut i: usize = 0;
    assert(rs@.take(0) =~= Seq::<CategoryResults>::empty());
    while i < rs.len()
        invariant
            i <= rs@.len(),
            baseline_index(rs@.take(i as int)) is None,
        decreases rs@.len() - i,
    {
        proof {
            lemma_scan_step(rs@, i as int);
        }
        if is_baseline_exec(&rs[i]) {
            proof {
                lemma_baseline_prefix(rs@, i + 1);
            }
            return Some(i);
        }
        i = i + 1;
    }
    proof {
        lemma_take_all(rs@);
    }
    None
}

fn push_toc_file_line(out: &mut String, sn: u64, k: u64, stem: &String)
    ensures
        final(out)@ == old(out)@ + toc_file_line(sn as nat, k as nat, stem@),
{
    let fd = snake_to_title_case(stem.as_str());
    let mut line = String::from_str("  - [");
    push_dec(&mut line, sn);
    line.append(".");
    push_dec(&mut line, k);
    line.append(" ");
    line.append(fd.as_str());
    line.append("](#");
    push_dec(&mut line, sn);
    push_dec(&mut line, k);
    line.append("-");
    let low = to_lowercase(fd.as_str());
    let anchor = replace_char_str(low.as_str(), ' ', "-");
    line.append(anchor.as_str());
    line.append(")\n");
    out.append(line.as_str());
}

fn push_toc_files(out: &mut String, files: &Vec<FileResults>, sn: u64)
    requires
        files@.len() < i32::MAX,
    ensures
        final(out)@ == old(out)@ + toc_files(files@, sn as nat),
{
    let ghost o0 = out@;
    let mut k: usize = 0;
    assert(files@.take(0) =~= Seq::<FileResults>::empty());
    while k < files.len()
        invariant
            files@.len() < i32::MAX,
            k <= files@.len(),
            out@ == o0 + concat_map(files@.take(k as int), toc_file_fn(sn as nat)),
        decreases files@.len() - k,
    {
        proof {
            lemma_concat_map_step(files@, toc_file_fn(sn as nat), k as int);
        }
        let ghost before = out@;
        push_toc_file_line(out, sn, (k + 1) as u64, &files[k].0);
        assert(out@ =~= o0 + concat_map(files@.take(k + 1), toc_file_fn(sn as nat)));
        k = k + 1;
    }
    proof {
        lemma_take_all(files@);
    }
}

fn push_toc_baseline(out: &mut String, files: &Vec<FileResults>)
    requires
        files@.len() < i32::MAX,
    ensures
        final(out)@ == old(out)@ + toc_baseline(files@),
{
    let mut line = String::from_str("**[");
    push_dec(&mut line, 1);
    line.append(". Baseline](#");
    push_dec(&mut line, 1);
    line.append("-baseline)**\n\n");
    push_toc_files(&mut line, files, 1);
    line.append("\n");
    out.append(line.as_str());
}

fn push_toc_category(
    out: &mut String,
    c: &CategoryResults,
    sn: u64,
    ov: &Vec<(String, String)>,
)
    requires
        c.1@.len() < i32::MAX,
    ensures
        final(out)@ == old(out)@ + toc_category(*c, sn as nat, ov@),
{
    let display = get_display_name(c.0.as_str(), ov);
    let mut line = String::from_str("**[");
    push_dec(&mut line, sn);
    line.append(". ");
    line.append(display.as_str());
    line.append("](#");
    push_dec(&mut line, sn);
    line.append("-");
    let anchor = replace_char_str(c.0.as_str(), '_', "-");
    line.append(anchor.as_str());
    line.append(")**\n\n");
    push_toc_files(&mut line, &c.1, sn);
    line.append("\n");
    out.append(line.as_str());
}

fn push_toc_categories(
    out: &mut String,
    rs: &BenchmarkResults,
    first: u64,
    ov: &Vec<(String, String)>,
)
    requires
        readme_fits(rs@),
        first <= 2,
    ensures
        final(out)@ == old(out)@ + concat_map(others(rs@), toc_category_fn(first as nat, ov@)),
{
    let ghost o0 = out@;
    let ghost f = toc_category_fn(first as nat, ov@);
    let mut i: usize = 0;
    let mut j: u64 = 0;
    assert(rs@.take(0) =~= Seq::<CategoryResults>::empty());
    while i < rs.len()
        invariant
            readme_fits(rs@),
            first <= 2,
            f == toc_category_fn(first as nat, ov@),
            i <= rs@.len(),
            j == others(rs@.take(i as int)).len(),
            out@ == o0 + concat_map(others(rs@.take(i as int)), f),
        decreases rs@.len() - i,
    {
        proof {
            lemma_scan_step(rs@, i as int);
        }
        if !is_baseline_exec(&rs[i]) {
            proof {
                lemma_concat_map_push(others(rs@.take(i as int)), f, rs@[i as int]);
                assert(files_fit(rs@[i as int].1@));
            }
            push_toc_category(out, &rs[i], first + j, ov);
            assert(out@ =~= o0 + concat_map(others(rs@.take(i + 1)), f));
            j = j + 1;
        }
        i = i + 1;
    }
    proof {
        lemma_take_all(rs@);
    }
}

fn push_definitions(out: &mut String)
    ensures
        final(out)@ == old(out)@ + definitions(),
{
    let mut text = String::from_str("## Definitions\n\n");
    text.append("- **CU Consumed**: Total compute units consumed by the profiled function\n");
    text.append(
        "- **CU Adjusted**: Actual operation cost with baseline profiling overhead subtracted (CU Consumed - Baseline CU)\n",
    );
    text.append(
        "- **Baseline CU**: CU consumed by an empty profiled function (`#[profile]` macro overhead)\n\n",
    );
    out.append(text.as_str());
}

fn adjusted_exec(cu_value: &String, baseline: u64) -> (r: String)
    ensures
        r@ == adjusted(cu_value@, baseline as nat),
{
    let v = chars_of(cu_value.as_str());
    let cu_consumed = match parse_uint_vec(&v, u64::MAX) {
        Some(x) => x,
        None => 0,
    };
    if cu_consumed >= baseline {
        let mut r = String::new();
        push_dec(&mut r, cu_consumed - baseline);
        assert(r@ =~= dec((cu_consumed - baseline) as nat));
        r
    } else {
        String::from_str("0")
    }
}

fn push_entry_row(out: &mut String, link: &str, cu: &str, adj: &str)
    ensures
        final(out)@ == old(out)@ + entry_row(link@, cu@, adj@),
{
    let mut line = add_indentation("| ", 1);
    push_pad_right(&mut line, link, 180);
    line.append(" | ");
    push_pad_right(&mut line, cu, 11);
    line.append(" | ");
    push_pad_right(&mut line, adj, 11);
    line.append(" |");
    line.append("\n");
    out.append(line.as_str());
}

fn push_rows(out: &mut String, entries: &Vec<BenchmarkEntry>, base: &String, bcu: Option<u64>)
    requires
        entries_fit(entries@),
    ensures
        final(out)@ == old(out)@ + concat_map(entries@, row_fn_for(base@, bcu)),
{
    let ghost o0 = out@;
    let ghost f = row_fn_for(base@, bcu);
    let mut i: usize = 0;
    assert(entries@.take(0) =~= Seq::<BenchmarkEntry>::empty());
    while i < entries.len()
        invariant
            entries_fit(entries@),
            f == row_fn_for(base@, bcu),
            i <= entries@.len(),
            out@ == o0 + concat_map(entries@.take(i as int), f),
        decreases entries@.len() - i,
    {
        proof {
            lemma_concat_map_step(entries@, f, i as int);
            assert(location_fits(entries@[i as int].file_location@));
        }
        let entry = &entries[i];
        let link = make_github_link(
            entry.func_name.as_str(),
            entry.file_location.as_str(),
            base.as_str(),
        );
        let adj = match bcu {
            Some(b) => adjusted_exec(&entry.cu_value, b),
            None => String::from_str("N/A"),
        };
        push_entry_row(out, link.as_str(), entry.cu_value.as_str(), adj.as_str());
        assert(out@ =~= o0 + concat_map(entries@.take(i + 1), f));
        i = i + 1;
    }
    proof {
        lemma_take_all(entries@);
    }
}

fn push_file_block(
    out: &mut String,
    num: u64,
    k: u64,
    file: &FileResults,
    base: &String,
    bcu: Option<u64>,
)
    requires
        entries_fit(file.1@),
    ensures
        final(out)@ == old(out)@ + file_block(num as nat, k as nat, *file, row_fn_for(base@, bcu)),
{
    proof {
        lemma_indentation_one();
    }
    let display = snake_to_title_case(file.0.as_str());
    let mut block = add_indentation("### ", 1);
    push_dec(&mut block, num);
    block.append(".");
    push_dec(&mut block, k);
    block.append(" ");
    block.append(display.as_str());
    block.append("\n\n");
    block.append("  ");
    block.append("| Function                                                                                                                                                                                                                | CU Consumed | CU Adjusted |");
    block.append("\n");
    block.append("  ");
    block.append("|-------------------------------------------------------------------------------------------------------------------------------------------------------------------------------------------------------------------------|-------------|-------------|");
    block.append("\n");
    push_rows(&mut block, &file.1, base, bcu);
    block.append("\n");
    out.append(block.as_str());
}

fn push_files(out: &mut String, files: &Vec<FileResults>, num: u64, base: &String, bcu: Option<u64>)
    requires
        files_fit(files@),
    ensures
        final(out)@ == old(out)@ + concat_map(files@, file_block_fn(num as nat, row_fn_for(base@, bcu))),
{
    let ghost o0 = out@;
    let ghost f = file_block_fn(num as nat, row_fn_for(base@, bcu));
    let mut k: usize = 0;
    assert(files@.take(0) =~= Seq::<FileResults>::empty());
    while k < files.len()
        invariant
            files_fit(files@),
            f == file_block_fn(num as nat, row_fn_for(base@, bcu)),
            k <= files@.len(),
            out@ == o0 + concat_map(files@.take(k as int), f),
        decreases files@.len() - k,
    {
        proof {
            lemma_concat_map_step(files@, f, k as int);
            assert(entries_fit(files@[k as int].1@));
        }
        push_file_block(out, num, (k + 1) as u64, &files[k], base, bcu);
        assert(out@ =~= o0 + concat_map(files@.take(k + 1), f));
        k = k + 1;
    }
    proof {
        lemma_take_all(files@);
    }
}

fn push_baseline_section(out: &mut String, files: &Vec<FileResults>, base: &String)
    requires
        files_fit(files@),
    ensures
        final(out)@ == old(out)@ + baseline_section(files@, base@),
{
    let mut text = String::from_str("## ");
    push_dec(&mut text, 1);
    text.append(". Baseline\n\n");
    push_files(&mut text, files, 1, base, None);
    out.append(text.as_str());
}

fn push_category_section(
    out: &mut String,
    c: &CategoryResults,
    num: u64,
    ov: &Vec<(String, String)>,
    base: &String,
    bcu: u64,
)
    requires
        files_fit(c.1@),
    ensures
        final(out)@ == old(out)@ + category_section(*c, num as nat, ov@, base@, bcu as nat),
{
    let display = get_display_name(c.0.as_str(), ov);
    let mut text = String::from_str("## ");
    push_dec(&mut text, num);
    text.append(". ");
    text.append(display.as_str());
    text.append("\n\n");
    push_files(&mut text, &c.1, num, base, Some(bcu));
    out.append(text.as_str());
}

fn push_category_sections(
    out: &mut String,
    rs: &BenchmarkResults,
    first: u64,
    ov: &Vec<(String, String)>,
    base: &String,
    bcu: u64,
)
    requires
        readme_fits(rs@),
        first <= 2,
    ensures
        final(out)@ == old(out)@ + concat_map(
            others(rs@),
            category_section_fn(first as nat, ov@, base@, bcu as nat),
        ),
{
    let ghost o0 = out@;
    let ghost f = category_section_fn(first as nat, ov@, base@, bcu as nat);
    let mut i: usize = 0;
    let mut j: u64 = 0;
    assert(rs@.take(0) =~= Seq::<CategoryResults>::empty());
    while i < rs.len()
        invariant
            readme_fits(rs@),
            first <= 2,
            f == category_section_fn(first as nat, ov@, base@, bcu as nat),
            i <= rs@.len(),
            j == others(rs@.take(i as int)).len(),
            out@ == o0 + concat_map(others(rs@.take(i as int)), f),
        decreases rs@.len() - i,
    {
        proof {
            lemma_scan_step(rs@, i as int);
        }
        if !is_baseline_exec(&rs[i]) {
            proof {
                lemma_concat_map_push(others(rs@.take(i as int)), f, rs@[i as int]);
                assert(files_fit(rs@[i as int].1@));
            }
            push_category_section(out, &rs[i], first + j, ov, base, bcu);
            assert(out@ =~= o0 + concat_map(others(rs@.take(i + 1)), f));
            j = j + 1;
        }
        i = i + 1;
    }
    proof {
        lemma_take_all(rs@);
    }
}

fn baseline_cu_exec(rs: &BenchmarkResults, b: Option<usize>) -> (r: u64)
    requires
        match b {
            Some(i) => baseline_index(rs@) == Some(i as int),
            None => baseline_index(rs@) is None,
        },
    ensures
        r == baseline_cu(rs@),
{
    proof {
        lemma_baseline_in_range(rs@);
    }
    match b {
        Some(i) => {
            let files = &rs[i].1;
            if files.len() > 0 && files[0].1.len() > 0 {
                let v = chars_of(files[0].1[0].cu_value.as_str());
                match parse_uint_vec(&v, u64::MAX) {
                    Some(x) => x,
                    None => 0,
                }
            } else {
                0
            }
        },
        None => 0,
    }
}

/// Renders the categorized README of `results`: the text that
/// `write_categorized_readme` writes to `config.output_path`.
pub fn render_categorized_readme(config: &ReadmeConfig, results: &BenchmarkResults) -> (r: String)
    requires
        readme_fits(results@),
        results_sorted(results@),
        names_unique(config.display_name_overrides@),
    ensures
        r@ == categorized_readme(*config, results@),
{
    let mut readme = String::from_str("# ");
    readme.append(config.title.as_str());
    readme.append("\n\n");
    readme.append(config.description.as_str());
    readme.append("\n\n");
    readme.append("## Table of Contents\n\n");
    let b = find_baseline(results);
    proof {
        lemma_baseline_in_range(results@);
    }
    let first: u64 = match b {
        Some(_) => 2,
        None => 1,
    };
    match b {
        Some(i) => {
            assert(files_fit(results@[i as int].1@));
            push_toc_baseline(&mut readme, &results[i].1);
        },
        None => {
            let ghost r0 = readme@;
            assert(readme@ =~= r0 + Seq::<char>::empty());
        },
    }
    push_toc_categories(&mut readme, results, first, &config.display_name_overrides);
    readme.append("\n");
    push_definitions(&mut readme);
    let baseline = baseline_cu_exec(results, b);
    match b {
        Some(i) => {
            assert(files_fit(results@[i as int].1@));
            push_baseline_section(&mut readme, &results[i].1, &config.github_base_url);
        },
        None => {
            let ghost r0 = readme@;
            assert(readme@ =~= r0 + Seq::<char>::empty());
        },
    }
    push_category_sections(
        &mut readme,
        results,
        first,
        &config.display_name_overrides,
        &config.github_base_url,
        baseline,
    );
    readme
}

// ---------------------------------------------------------------------------
// Laws of the profiling state
// ---------------------------------------------------------------------------

proof fn lemma_no_children(all: Seq<CompletedEntry>, p: CompletedEntry)
    requires
        forall|k: int| 0 <= k < all.len() ==> !is_child(#[trigger] all[k], p),
    ensures
        children_cu(all, p) == 0,
    decreases all.len(),
{
    if all.len() > 0 {
        assert(all.last() == all[all.len() - 1]);
        assert forall|k: int| 0 <= k < all.len() - 1 implies !is_child(#[trigger] all.drop_last()[k], p) by {
            assert(all.drop_last()[k] == all[k]);
        }
        lemma_no_children(all.drop_last(), p);
    }
}

/// Ending a section right after starting it closes exactly that section:
/// the open sections are as before, and one record is added whose total is
/// the compute units spent between the two readings.
pub proof fn lemma_start_then_end(
    m: ProfilingModel,
    id: String,
    start_cu: u64,
    end_cu: u64,
    start_heap: u64,
    end_heap: u64,
    start_with_heap: bool,
    end_with_heap: bool,
)
    requires
        m.next_sequence + 2 <= usize::MAX,
    ensures
        ({
            let s1 = start_model(m, id, start_cu, start_heap, start_with_heap);
            let s2 = end_model(s1, id@, end_cu, end_heap, end_with_heap);
            &&& rposition(s1.active, id@) == Some(m.active.len() as int)
            &&& s2.active == m.active
            &&& s2.next_sequence == m.next_sequence + 2
            &&& s2.completed == m.completed.push(
                CompletedEntry {
                    id,
                    start_cu,
                    end_cu,
                    start_sequence: m.next_sequence,
                    end_sequence: (m.next_sequence + 1) as usize,
                    total_cu: sat_sub(start_cu, end_cu),
                    net_cu: 0,
                    remaining_cu: start_cu,
                    heap: if start_with_heap && end_with_heap {
                        Some(
                            HeapMetrics {
                                start_heap,
                                end_heap,
                                total_heap: sat_sub(end_heap, start_heap),
                                net_heap: 0,
                                remaining_heap: sat_sub(HEAP_SIZE, start_heap),
                            },
                        )
                    } else {
                        None
                    },
                },
            )
        }),
{
    let s1 = start_model(m, id, start_cu, start_heap, start_with_heap);
    assert(s1.active.last().id@ == id@);
    assert(s1.active.remove(m.active.len() as int) =~= m.active);
}

/// A section's net consumption excludes the sections nested in it: open `a`,
/// open `b`, close `b`, close `a`, and after post-processing `b` keeps its
/// whole total while `a` is charged its total less `b`'s.
pub proof fn lemma_nested_net(
    m: ProfilingModel,
    a: String,
    b: String,
    cu0: u64,
    cu1: u64,
    cu2: u64,
    cu3: u64,
    heap: u64,
    with_heap: bool,
)
    requires
        sequences_ordered(m),
        m.next_sequence + 4 <= usize::MAX,
        a@ != b@,
    ensures
        ({
            let s1 = start_model(m, a, cu0, heap, with_heap);
            let s2 = start_model(s1, b, cu1, heap, with_heap);
            let s3 = end_model(s2, b@, cu2, heap, with_heap);
            let s4 = end_model(s3, a@, cu3, heap, with_heap);
            let done = post_process_entries(s4.completed);
            &&& s4.active == m.active
            &&& done.len() == m.completed.len() + 2
            &&& done[done.len() - 2].id == b
            &&& done[done.len() - 2].net_cu == sat_sub(cu1, cu2)
            &&& done[done.len() - 1].id == a
            &&& done[done.len() - 1].net_cu == sat_sub(sat_sub(cu0, cu3), sat_sub(cu1, cu2))
        }),
{
    let s1 = start_model(m, a, cu0, heap, with_heap);
    let s2 = start_model(s1, b, cu1, heap, with_heap);
    assert(s2.active.last().id@ == b@);
    assert(s2.active.remove(s1.active.len() as int) =~= s1.active);
    let s3 = end_model(s2, b@, cu2, heap, with_heap);
    assert(s3.active =~= s1.active);
    assert(s3.active.last().id@ == a@);
    assert(s3.active.remove(m.active.len() as int) =~= m.active);
    let s4 = end_model(s3, a@, cu3, heap, with_heap);
    let all = s4.completed;
    let n = m.completed.len();
    let eb = all[n as int];
    let ea = all[n as int + 1];
    assert(all.drop_last().drop_last() =~= m.completed);
    assert(all.drop_last().last() == eb);
    assert(all.last() == ea);
    assert forall|k: int| 0 <= k < m.completed.len() implies !is_child(#[trigger] m.completed[k], ea) by {
    }
    assert forall|k: int| 0 <= k < m.completed.len() implies !is_child(#[trigger] m.completed[k], eb) by {
    }
    lemma_no_children(m.completed, ea);
    lemma_no_children(m.completed, eb);
    assert(eb.start_sequence == m.next_sequence + 1);
    assert(eb.end_sequence == m.next_sequence + 2);
    assert(ea.start_sequence == m.next_sequence);
    assert(ea.end_sequence == m.next_sequence + 3);
    assert(is_child(eb, ea));
    assert(children_cu(all.drop_last(), ea) == children_cu(m.completed, ea) + eb.total_cu);
    assert(children_cu(all, ea) == eb.total_cu);
    assert(children_cu(all.drop_last(), eb) == children_cu(m.completed, eb));
    assert(children_cu(all, eb) == 0);
}

proof fn lemma_rposition_in_range(stack: Seq<ActiveEntry>, id: Seq<char>)
    ensures
        rposition(stack, id) matches Some(p) ==> 0 <= p < stack.len() && stack[p].id@ == id,
    decreases stack.len(),
{
    if stack.len() > 0 && stack.last().id@ != id {
        lemma_rposition_in_range(stack.drop_last(), id);
    }
}


// ---------------------------------------------------------------------------
// Laws of nesting, rendering and profile ids
// ---------------------------------------------------------------------------

/// A section that no other section was opened inside reports all it
/// consumed as its own: its net compute units and net heap are its totals.
pub proof fn lemma_net_without_nested(c: Seq<CompletedEntry>, i: int)
    requires
        0 <= i < c.len(),
        forall|k: int| 0 <= k < c.len() ==> (#[trigger] c[k]).start_sequence < c[k].end_sequence,
        forall|k: int|
            0 <= k < c.len() ==> (#[trigger] c[k]).start_sequence <= c[i].start_sequence
                || c[k].start_sequence >= c[i].end_sequence,
    ensures
        post_process_entries(c)[i].net_cu == c[i].total_cu,
        (post_process_entries(c)[i].heap is Some) == (c[i].heap is Some),
        post_process_entries(c)[i].heap matches Some(h) ==> h.net_heap == h.total_heap
            && h.total_heap == c[i].heap->0.total_heap,
{
    assert forall|k: int| 0 <= k < c.len() implies !is_child(#[trigger] c[k], c[i]) by {
        assert(c[k].start_sequence < c[k].end_sequence);
    }
    lemma_no_children(c, c[i]);
    lemma_no_children_heap(c, c[i]);
}

proof fn lemma_no_children_heap(all: Seq<CompletedEntry>, p: CompletedEntry)
    requires
        forall|k: int| 0 <= k < all.len() ==> !is_child(#[trigger] all[k], p),
    ensures
        children_heap(all, p) == 0,
    decreases all.len(),
{
    if all.len() > 0 {
        assert(all.last() == all[all.len() - 1]);
        assert forall|k: int| 0 <= k < all.len() - 1 implies !is_child(#[trigger] all.drop_last()[k], p) by {
            assert(all.drop_last()[k] == all[k]);
        }
        lemma_no_children_heap(all.drop_last(), p);
    }
}

/// A section opened after another has closed, or closed before the other was
/// opened, is not nested in it: recording it leaves the other's
/// post-processed figures as they were.
pub proof fn lemma_sibling_leaves_net(c: Seq<CompletedEntry>, g: CompletedEntry, i: int)
    requires
        0 <= i < c.len(),
        c[i].start_sequence < c[i].end_sequence,
        g.start_sequence < g.end_sequence,
        g.start_sequence > c[i].end_sequence || g.end_sequence < c[i].start_sequence,
    ensures
        post_process_entries(c.push(g))[i] == post_process_entries(c)[i],
{
    let d = c.push(g);
    assert(d.drop_last() =~= c);
    assert(d.last() == g);
    assert(!is_child(g, c[i]));
    assert(children_cu(d, c[i]) == children_cu(c, c[i]));
    assert(children_heap(d, c[i]) == children_heap(c, c[i]));
    assert(d[i] == c[i]);
}

/// A section opened after another and closed before it is nested in it:
/// recording it charges its total to the other's children, so the other's
/// net compute units drop by exactly that total (down to zero).
pub proof fn lemma_nested_reduces_net(c: Seq<CompletedEntry>, g: CompletedEntry, i: int)
    requires
        0 <= i < c.len(),
        c[i].start_sequence < g.start_sequence,
        g.end_sequence < c[i].end_sequence,
        children_cu(c, c[i]) + g.total_cu <= u64::MAX,
    ensures
        post_process_entries(c.push(g))[i].net_cu == sat_sub(
            c[i].total_cu,
            (children_cu(c, c[i]) + g.total_cu) as u64,
        ),
        post_process_entries(c)[i].net_cu == sat_sub(c[i].total_cu, children_cu(c, c[i]) as u64),
{
    let d = c.push(g);
    assert(d.drop_last() =~= c);
    assert(d.last() == g);
    assert(d[i] == c[i]);
}

/// Adding an entry to a file adds exactly its row to the file's table, after
/// the rows already there; a file without entries is its header and a blank
/// line.
pub proof fn lemma_file_block_rows(
    num: nat,
    k: nat,
    f: FileResults,
    g: FileResults,
    e: BenchmarkEntry,
    row_fn: spec_fn(int, BenchmarkEntry) -> Seq<char>,
)
    requires
        g.0@ == f.0@,
        g.1@ == f.1@.push(e),
    ensures
        file_block(num, k, g, row_fn) == file_block(num, k, f, row_fn).drop_last() + row_fn(
            f.1@.len() as int,
            e,
        ) + "\n"@,
        f.1@.len() == 0 ==> file_block(num, k, f, row_fn) == file_header(num, k, f.0@) + "\n"@,
{
    lemma_concat_map_push(f.1@, row_fn, e);
    reveal_strlit("\n");
    let h = file_header(num, k, f.0@);
    let rows = concat_map(f.1@, row_fn);
    assert((h + rows + "\n"@).drop_last() =~= h + rows);
    assert(file_block(num, k, g, row_fn) =~= h + rows + row_fn(f.1@.len() as int, e) + "\n"@);
    if f.1@.len() == 0 {
        assert(rows =~= Seq::<char>::empty());
        assert(h + rows =~= h);
    }
}

/// Adding a file to the baseline appends exactly that file's table, numbered
/// after the tables already there.
pub proof fn lemma_baseline_section_files(files: Seq<FileResults>, f: FileResults, base: Seq<char>)
    ensures
        baseline_section(files.push(f), base) == baseline_section(files, base) + file_block(
            1,
            (files.len() + 1) as nat,
            f,
            baseline_row_fn(base),
        ),
{
    lemma_concat_map_push(files, file_block_fn(1, baseline_row_fn(base)), f);
    let h = "## "@ + dec(1) + ". Baseline\n\n"@;
    let r = concat_map(files, file_block_fn(1, baseline_row_fn(base)));
    assert(h + (r + file_block(1, (files.len() + 1) as nat, f, baseline_row_fn(base))) =~= (h + r)
        + file_block(1, (files.len() + 1) as nat, f, baseline_row_fn(base)));
}

/// Adding a file to a category appends exactly that file's table to the
/// category's section, numbered after the tables already there.
pub proof fn lemma_category_section_files(
    c: CategoryResults,
    d: CategoryResults,
    f: FileResults,
    num: nat,
    ov: Seq<(String, String)>,
    base: Seq<char>,
    bcu: nat,
)
    requires
        d.0@ == c.0@,
        d.1@ == c.1@.push(f),
    ensures
        category_section(d, num, ov, base, bcu) == category_section(c, num, ov, base, bcu)
            + file_block(num, (c.1@.len() + 1) as nat, f, category_row_fn(base, bcu)),
{
    let g = file_block_fn(num, category_row_fn(base, bcu));
    lemma_concat_map_push(c.1@, g, f);
    let h = "## "@ + dec(num) + ". "@ + display_name_of(ov, c.0@) + "\n\n"@;
    let r = concat_map(c.1@, g);
    assert(h + (r + g(c.1@.len() as int, f)) =~= (h + r) + g(c.1@.len() as int, f));
}

proof fn lemma_find_first(s: Seq<char>, pat: Seq<char>, i: int, p: int)
    requires
        0 <= i <= p,
        matches_at(s, pat, p),
        forall|k: int| i <= k < p ==> !matches_at(s, pat, k),
    ensures
        find_from(s, pat, i) == Some(p),
    decreases p - i,
{
    if i < p {
        lemma_find_first(s, pat, i + 1, p);
    }
}

proof fn lemma_trim_start_pad(pad: Seq<char>, r: Seq<char>)
    requires
        forall|k: int| 0 <= k < pad.len() ==> is_ws(#[trigger] pad[k]),
    ensures
        trim_start(pad + r) == trim_start(r),
    decreases pad.len(),
{
    if pad.len() == 0 {
        assert(pad + r =~= r);
    } else {
        assert((pad + r)[0] == pad[0]);
        assert((pad + r).drop_first() =~= pad.drop_first() + r);
        lemma_trim_start_pad(pad.drop_first(), r);
    }
}

proof fn lemma_trim_end_pad(r: Seq<char>, pad: Seq<char>)
    requires
        forall|k: int| 0 <= k < pad.len() ==> is_ws(#[trigger] pad[k]),
    ensures
        trim_end(r + pad) == trim_end(r),
    decreases pad.len(),
{
    if pad.len() == 0 {
        assert(r + pad =~= r);
    } else {
        assert((r + pad).last() == pad.last());
        assert((r + pad).drop_last() =~= r + pad.drop_last());
        lemma_trim_end_pad(r, pad.drop_last());
    }
}

/// The name and location read from a profile id `name`, newline, padding,
/// `loc`, padding are exactly `name` and `loc`: the location is everything
/// after the first newline with only the surrounding whitespace removed.
pub proof fn lemma_split_id_parts(name: Seq<char>, pad1: Seq<char>, loc: Seq<char>, pad2: Seq<char>)
    requires
        forall|k: int| 0 <= k < name.len() ==> #[trigger] name[k] != '\n',
        forall|k: int| 0 <= k < pad1.len() ==> is_ws(#[trigger] pad1[k]),
        forall|k: int| 0 <= k < pad2.len() ==> is_ws(#[trigger] pad2[k]),
        loc.len() > 0 ==> !is_ws(loc[0]) && !is_ws(loc.last()),
    ensures
        split_id(name + seq!['\n'] + pad1 + loc + pad2) == (name, loc),
{
    let id = name + seq!['\n'] + pad1 + loc + pad2;
    let p = name.len() as int;
    let nl = seq!['\n'];
    assert(id.subrange(p, p + 1) =~= nl);
    assert forall|k: int| 0 <= k < p implies !matches_at(id, nl, k) by {
        assert(id.subrange(k, k + 1)[0] == name[k]);
    }
    lemma_find_first(id, nl, 0, p);
    assert(id.take(p) =~= name);
    let rest = pad1 + loc + pad2;
    assert(id.skip(p + 1) =~= rest);
    assert(rest =~= pad1 + (loc + pad2));
    lemma_trim_start_pad(pad1, loc + pad2);
    if loc.len() > 0 {
        assert((loc + pad2)[0] == loc[0]);
        assert(trim_start(loc + pad2) == loc + pad2);
        lemma_trim_end_pad(loc, pad2);
        assert(trim_end(loc) == loc);
    } else {
        assert(loc + pad2 =~= Seq::<char>::empty() + pad2);
        lemma_trim_start_pad(pad2, Seq::<char>::empty());
        assert(Seq::<char>::empty() + pad2 =~= pad2 + Seq::<char>::empty());
        assert(trim_start(Seq::<char>::empty()) =~= Seq::<char>::empty());
        assert(trim_end(Seq::<char>::empty()) =~= loc);
    }
}

} // verus!
