//! Per-slot history: the decoded-token counter between refreshes, the
//! detection of prefill, and a bounded window of throughput samples.
use vstd::prelude::*;

use crate::api::{decoded_of, loaded_view, LoadedModelData, LoadedModelDataView, SlotView};
use crate::text::same_text;

verus! {

/// How many throughput samples a slot keeps.
pub const HISTORY_LEN: usize = 60;

/// Below this interval between two refreshes (0.1 s, in nanoseconds) no new
/// throughput is measured.
pub const MIN_SAMPLE_NANOS: u64 = 100_000_000;

/// A throughput: `tokens` decoded in `nanos` nanoseconds. With `nanos == 0`
/// it stands for 0 tokens/s.
#[derive(Debug, Clone, Copy, PartialEq, Eq, Structural)]
pub struct Rate {
    pub tokens: u64,
    pub nanos: u64,
}

/// No throughput.
pub open spec fn zero_rate() -> Rate {
    Rate { tokens: 0, nanos: 0 }
}

impl Rate {
    /// No throughput.
    pub fn zero() -> (r: Rate)
        ensures
            r == zero_rate(),
    {
        Rate { tokens: 0, nanos: 0 }
    }
}

/// What the monitor remembers of one slot between refreshes. Times are
/// nanoseconds on the monitor's monotonic clock.
#[derive(Debug, Clone)]
pub struct SlotHistory {
    /// Last n_decoded value seen for this slot
    pub last_n_decoded: u64,
    pub last_fetch_time: u64,
    /// Tokens/sec history (last HISTORY_LEN samples)
    pub tps_history: Vec<Rate>,
    pub current_tps: Rate,
    /// id_task of the last request we observed
    pub last_id_task: Option<i64>,
    /// True while a slot is processing but hasn't yet decoded any tokens
    pub in_prefill: bool,
}

/// A slot's history as plain values.
pub struct SlotHistoryView {
    pub last_n_decoded: u64,
    pub last_fetch_time: u64,
    pub tps_history: Seq<Rate>,
    pub current_tps: Rate,
    pub last_id_task: Option<i64>,
    pub in_prefill: bool,
}

impl View for SlotHistory {
    type V = SlotHistoryView;

    open spec fn view(&self) -> SlotHistoryView {
        SlotHistoryView {
            last_n_decoded: self.last_n_decoded,
            last_fetch_time: self.last_fetch_time,
            tps_history: self.tps_history@,
            current_tps: self.current_tps,
            last_id_task: self.last_id_task,
            in_prefill: self.in_prefill,
        }
    }
}

/// The history of a slot first seen at `now`.
pub open spec fn fresh_history(n_decoded: u64, id_task: Option<i64>, now: u64) -> SlotHistoryView {
    SlotHistoryView {
        last_n_decoded: n_decoded,
        last_fetch_time: now,
        tps_history: Seq::empty(),
        current_tps: zero_rate(),
        last_id_task: id_task,
        in_prefill: false,
    }
}

/// Whether a report shows a new request on the slot: a task that differs
/// from the last one seen, while the slot is processing.
pub open spec fn new_request(h: SlotHistoryView, id_task: Option<i64>, is_processing: bool) -> bool {
    id_task is Some && id_task != h.last_id_task && is_processing
}

/// Whether the slot is in prefill after a report: a new request starts
/// prefill; the first decoded tokens, or the slot going idle, end it.
pub open spec fn prefill_after(h: SlotHistoryView, n_decoded: u64, id_task: Option<i64>, is_processing: bool) -> bool {
    (new_request(h, id_task, is_processing) || h.in_prefill) && n_decoded <= h.last_n_decoded
        && is_processing
}

/// The time since the last report (0 if the clock reads earlier).
pub open spec fn elapsed_since(h: SlotHistoryView, now: u64) -> u64 {
    if now >= h.last_fetch_time {
        (now - h.last_fetch_time) as u64
    } else {
        0
    }
}

/// The slot's throughput after a report: the tokens decoded since the last
/// report over the time since it, once more than `MIN_SAMPLE_NANOS` have
/// passed; 0 when the counter went back (a new request) or a new request
/// started; otherwise the throughput stays as it was.
pub open spec fn rate_after(h: SlotHistoryView, n_decoded: u64, id_task: Option<i64>, is_processing: bool, now: u64) -> Rate {
    let elapsed = elapsed_since(h, now);
    if elapsed > MIN_SAMPLE_NANOS && n_decoded >= h.last_n_decoded {
        Rate { tokens: (n_decoded - h.last_n_decoded) as u64, nanos: elapsed }
    } else if n_decoded < h.last_n_decoded {
        zero_rate()
    } else if new_request(h, id_task, is_processing) {
        zero_rate()
    } else {
        h.current_tps
    }
}

/// A window of samples after one more: the sample is appended, and the
/// oldest one dropped once there are more than `HISTORY_LEN`.
pub open spec fn window_after(w: Seq<Rate>, sample: Rate) -> Seq<Rate> {
    if w.push(sample).len() > HISTORY_LEN {
        w.push(sample).drop_first()
    } else {
        w.push(sample)
    }
}

/// The history after a report of the slot at `now`.
pub open spec fn history_after(h: SlotHistoryView, n_decoded: u64, id_task: Option<i64>, is_processing: bool, now: u64) -> SlotHistoryView {
    let rate = rate_after(h, n_decoded, id_task, is_processing, now);
    SlotHistoryView {
        last_n_decoded: n_decoded,
        last_fetch_time: now,
        tps_history: window_after(h.tps_history, rate),
        current_tps: rate,
        last_id_task: id_task,
        in_prefill: prefill_after(h, n_decoded, id_task, is_processing),
    }
}

impl SlotHistory {
    pub fn new(n_decoded: u64, id_task: Option<i64>, now: u64) -> (r: SlotHistory)
        ensures
            r@ == fresh_history(n_decoded, id_task, now),
    {
        SlotHistory {
            last_n_decoded: n_decoded,
            last_fetch_time: now,
            tps_history: Vec::new(),
            current_tps: Rate::zero(),
            last_id_task: id_task,
            in_prefill: false,
        }
    }

    pub fn update(&mut self, n_decoded: u64, id_task: Option<i64>, is_processing: bool, now: u64)
        ensures
            final(self)@ == history_after(old(self)@, n_decoded, id_task, is_processing, now),
    {
        let ghost h = self@;
        // Detect a new request starting on this slot
        if id_task.is_some() && id_task != self.last_id_task && is_processing {
            self.in_prefill = true;
            self.current_tps = Rate::zero();
        }
        // Once tokens start flowing, prefill is done
        if n_decoded > self.last_n_decoded {
            self.in_prefill = false;
        }
        if !is_processing {
            self.in_prefill = false;
        }
        let elapsed: u64 = if now >= self.last_fetch_time {
            now - self.last_fetch_time
        } else {
            0
        };
        if elapsed > MIN_SAMPLE_NANOS && n_decoded >= self.last_n_decoded {
            let delta = n_decoded - self.last_n_decoded;
            self.current_tps = Rate { tokens: delta, nanos: elapsed };
        } else if n_decoded < self.last_n_decoded {
            // Counter reset for new request
            self.current_tps = Rate::zero();
        }
        self.tps_history.push(self.current_tps);
        if self.tps_history.len() > HISTORY_LEN {
            self.tps_history.remove(0);
        }
        self.last_n_decoded = n_decoded;
        self.last_id_task = id_task;
        self.last_fetch_time = now;
        assert(self@.tps_history =~= window_after(h.tps_history, self.current_tps));
    }
}

/// The rules of prefill: a new request that has decoded nothing yet puts a
/// processing slot in prefill; decoded tokens, or the slot going idle, end
/// it.
pub proof fn lemma_prefill_rules(h: SlotHistoryView, n_decoded: u64, id_task: Option<i64>, is_processing: bool, now: u64)
    ensures
        new_request(h, id_task, is_processing) && n_decoded <= h.last_n_decoded ==> history_after(
            h,
            n_decoded,
            id_task,
            is_processing,
            now,
        ).in_prefill,
        n_decoded > h.last_n_decoded ==> !history_after(h, n_decoded, id_task, is_processing, now).in_prefill,
        !is_processing ==> !history_after(h, n_decoded, id_task, is_processing, now).in_prefill,
        !new_request(h, id_task, is_processing) && !h.in_prefill ==> !history_after(
            h,
            n_decoded,
            id_task,
            is_processing,
            now,
        ).in_prefill,
{
}

/// Once more than `MIN_SAMPLE_NANOS` have passed since the last report and
/// the counter did not go back, the new throughput is exactly the tokens
/// decoded since then over the time since then, whether the slot is
/// processing or not (an unchanged counter gives 0 tokens); it is also the
/// newest sample of the window. A counter that went back gives no
/// throughput.
pub proof fn lemma_rate_measured(h: SlotHistoryView, n_decoded: u64, id_task: Option<i64>, is_processing: bool, now: u64)
    ensures
        now >= h.last_fetch_time && now - h.last_fetch_time > MIN_SAMPLE_NANOS && n_decoded >= h.last_n_decoded
            ==> history_after(h, n_decoded, id_task, is_processing, now).current_tps == (Rate {
            tokens: (n_decoded - h.last_n_decoded) as u64,
            nanos: (now - h.last_fetch_time) as u64,
        }),
        n_decoded < h.last_n_decoded ==> history_after(h, n_decoded, id_task, is_processing, now).current_tps
            == (Rate { tokens: 0, nanos: 0 }),
        history_after(h, n_decoded, id_task, is_processing, now).tps_history.last()
            == history_after(h, n_decoded, id_task, is_processing, now).current_tps,
        history_after(h, n_decoded, id_task, is_processing, now).last_n_decoded == n_decoded,
        history_after(h, n_decoded, id_task, is_processing, now).last_fetch_time == now,
{
}

/// A window never grows past `HISTORY_LEN` samples once it is within it.
pub proof fn lemma_window_bounded(w: Seq<Rate>, sample: Rate)
    requires
        w.len() <= HISTORY_LEN,
    ensures
        window_after(w, sample).len() <= HISTORY_LEN,
        window_after(w, sample).last() == sample,
{
}

// ----- the histories of all slots -----

/// One slot's history, under its key: the id of its model and its own id.
#[derive(Debug)]
pub struct SlotEntry {
    pub model_id: String,
    pub slot_id: u32,
    pub history: SlotHistory,
}

/// A keyed history as plain values.
pub struct SlotEntryView {
    pub model_id: Seq<char>,
    pub slot_id: u32,
    pub history: SlotHistoryView,
}

impl View for SlotEntry {
    type V = SlotEntryView;

    open spec fn view(&self) -> SlotEntryView {
        SlotEntryView { model_id: self.model_id@, slot_id: self.slot_id, history: self.history@ }
    }
}

/// The views of a sequence of keyed histories.
pub open spec fn entries_view(v: Seq<SlotEntry>) -> Seq<SlotEntryView> {
    v.map_values(|e: SlotEntry| e@)
}

/// Whether a keyed history has the key (`model_id`, `slot_id`).
pub open spec fn has_key(e: SlotEntryView, model_id: Seq<char>, slot_id: u32) -> bool {
    e.model_id == model_id && e.slot_id == slot_id
}

/// Whether no key occurs twice.
pub open spec fn unique_keys(s: Seq<SlotEntryView>) -> bool {
    forall|i: int, j: int|
        0 <= i < j < s.len() ==> !has_key(#[trigger] s[i], s[j].model_id, #[trigger] s[j].slot_id)
}

/// Whether some history has the key.
pub open spec fn contains_key(s: Seq<SlotEntryView>, model_id: Seq<char>, slot_id: u32) -> bool {
    exists|i: int| 0 <= i < s.len() && has_key(#[trigger] s[i], model_id, slot_id)
}

/// The position of the history with the key (where `contains_key`).
pub open spec fn key_index(s: Seq<SlotEntryView>, model_id: Seq<char>, slot_id: u32) -> int {
    choose|i: int| 0 <= i < s.len() && has_key(#[trigger] s[i], model_id, slot_id)
}

/// The history kept under the key, if any.
pub open spec fn lookup(s: Seq<SlotEntryView>, model_id: Seq<char>, slot_id: u32) -> Option<SlotHistoryView> {
    if contains_key(s, model_id, slot_id) {
        Some(s[key_index(s, model_id, slot_id)].history)
    } else {
        None
    }
}

/// What one refresh reports of one slot.
pub struct Observation {
    pub model_id: Seq<char>,
    pub slot_id: u32,
    pub n_decoded: u64,
    pub id_task: Option<i64>,
    pub is_processing: bool,
}

/// The reports of the slots of one loaded model, in order.
pub open spec fn slot_observations(m: LoadedModelDataView) -> Seq<Observation> {
    m.slots.map_values(
        |s: SlotView|
            Observation {
                model_id: m.model_id,
                slot_id: s.id,
                n_decoded: decoded_of(s.next_token),
                id_task: s.id_task,
                is_processing: s.is_processing,
            },
    )
}

/// The reports of all slots of the loaded models, model by model.
pub open spec fn observations(loaded: Seq<LoadedModelDataView>) -> Seq<Observation>
    decreases loaded.len(),
{
    if loaded.len() == 0 {
        Seq::empty()
    } else {
        observations(loaded.drop_last()) + slot_observations(loaded.last())
    }
}

/// Whether the reports include the slot with the key.
pub open spec fn observed(os: Seq<Observation>, model_id: Seq<char>, slot_id: u32) -> bool {
    exists|i: int| 0 <= i < os.len() && (#[trigger] os[i]).model_id == model_id && os[i].slot_id == slot_id
}

/// The histories after one report: the slot's history is updated where
/// there is one, else a fresh history is appended.
pub open spec fn observe(s: Seq<SlotEntryView>, o: Observation, now: u64) -> Seq<SlotEntryView> {
    if contains_key(s, o.model_id, o.slot_id) {
        let i = key_index(s, o.model_id, o.slot_id);
        s.update(
            i,
            SlotEntryView {
                model_id: o.model_id,
                slot_id: o.slot_id,
                history: history_after(s[i].history, o.n_decoded, o.id_task, o.is_processing, now),
            },
        )
    } else {
        s.push(
            SlotEntryView {
                model_id: o.model_id,
                slot_id: o.slot_id,
                history: fresh_history(o.n_decoded, o.id_task, now),
            },
        )
    }
}

/// The histories after a sequence of reports, taken in order.
pub open spec fn observe_all(s: Seq<SlotEntryView>, os: Seq<Observation>, now: u64) -> Seq<SlotEntryView>
    decreases os.len(),
{
    if os.len() == 0 {
        s
    } else {
        observe(observe_all(s, os.drop_last(), now), os.last(), now)
    }
}

/// The histories of the slots that the reports include, in their order.
pub open spec fn keep_observed(s: Seq<SlotEntryView>, os: Seq<Observation>) -> Seq<SlotEntryView> {
    s.filter(|e: SlotEntryView| observed(os, e.model_id, e.slot_id))
}

proof fn lemma_observe_unique(s: Seq<SlotEntryView>, o: Observation, now: u64)
    requires
        unique_keys(s),
    ensures
        unique_keys(observe(s, o, now)),
{
    let r = observe(s, o, now);
    if contains_key(s, o.model_id, o.slot_id) {
        let k = key_index(s, o.model_id, o.slot_id);
        assert forall|i: int, j: int| 0 <= i < j < r.len() implies !has_key(#[trigger] r[i], r[j].model_id, #[trigger] r[j].slot_id) by {
            assert(s[i].model_id == r[i].model_id && s[i].slot_id == r[i].slot_id);
            assert(s[j].model_id == r[j].model_id && s[j].slot_id == r[j].slot_id);
        }
    } else {
        assert forall|i: int, j: int| 0 <= i < j < r.len() implies !has_key(#[trigger] r[i], r[j].model_id, #[trigger] r[j].slot_id) by {
            if j == s.len() {
                assert(r[i] == s[i]);
            } else {
                assert(r[i] == s[i] && r[j] == s[j]);
            }
        }
    }
}

/// The histories of all slots, at most one per key, in the order in which
/// they were first seen: a map from (model id, slot id) to history, held as
/// a vector whose keys are unique. The keys hold strings, and the vector
/// makes every lookup and update a plain scan that the contracts state
/// exactly; it also fixes the order in which a model's slots are summed.
pub struct SlotHistories {
    entries: Vec<SlotEntry>,
}

impl View for SlotHistories {
    type V = Seq<SlotEntryView>;

    closed spec fn view(&self) -> Seq<SlotEntryView> {
        entries_view(self.entries@)
    }
}

impl SlotHistories {
    #[verifier::type_invariant]
    closed spec fn keys_unique(self) -> bool {
        unique_keys(entries_view(self.entries@))
    }

    pub fn new() -> (r: SlotHistories)
        ensures
            r@ == Seq::<SlotEntryView>::empty(),
    {
        let r = SlotHistories { entries: Vec::new() };
        assert(r@ =~= Seq::<SlotEntryView>::empty());
        r
    }

    /// The number of slots with a history.
    pub fn len(&self) -> (n: usize)
        ensures
            n == self@.len(),
    {
        self.entries.len()
    }

    /// The keyed history at position `i`.
    pub fn entry(&self, i: usize) -> (e: &SlotEntry)
        requires
            i < self@.len(),
        ensures
            e@ == self@[i as int],
    {
        &self.entries[i]
    }

    /// The position of the history with the key, if there is one.
    pub fn find(&self, model_id: &str, slot_id: u32) -> (r: Option<usize>)
        ensures
            match r {
                Some(i) => i < self@.len() && contains_key(self@, model_id@, slot_id) && key_index(
                    self@,
                    model_id@,
                    slot_id,
                ) == i,
                None => !contains_key(self@, model_id@, slot_id),
            },
    {
        proof {
            use_type_invariant(self);
        }
        let mut i: usize = 0;
        while i < self.entries.len()
            invariant
                i <= self@.len(),
                self@ == entries_view(self.entries@),
                unique_keys(self@),
                forall|j: int| 0 <= j < i ==> !has_key(#[trigger] self@[j], model_id@, slot_id),
            decreases self@.len() - i,
        {
            if self.entries[i].slot_id == slot_id && same_text(self.entries[i].model_id.as_str(), model_id) {
                assert(has_key(self@[i as int], model_id@, slot_id));
                let ghost k = key_index(self@, model_id@, slot_id);
                assert(has_key(self@[k], model_id@, slot_id));
                assert(k == i) by {
                    if k < i {
                    } else if k > i {
                        assert(!has_key(self@[i as int], self@[k].model_id, self@[k].slot_id));
                    }
                }
                return Some(i);
            }
            i = i + 1;
        }
        None
    }

    /// The history kept for the slot, if any.
    pub fn get(&self, model_id: &str, slot_id: u32) -> (r: Option<&SlotHistory>)
        ensures
            match r {
                Some(h) => lookup(self@, model_id@, slot_id) == Some(h@),
                None => lookup(self@, model_id@, slot_id) is None,
            },
    {
        match self.find(model_id, slot_id) {
            Some(i) => Some(&self.entries[i].history),
            None => None,
        }
    }

    /// Takes one report of a slot into account (see `observe`).
    pub fn observe(
        &mut self,
        model_id: &String,
        slot_id: u32,
        n_decoded: u64,
        id_task: Option<i64>,
        is_processing: bool,
        now: u64,
    )
        ensures
            final(self)@ == observe(
                old(self)@,
                Observation { model_id: model_id@, slot_id, n_decoded, id_task, is_processing },
                now,
            ),
    {
        proof {
            use_type_invariant(&*self);
        }
        let ghost o = Observation { model_id: model_id@, slot_id, n_decoded, id_task, is_processing };
        let ghost before = self@;
        let found = self.find(model_id.as_str(), slot_id);
        let mut entries: Vec<SlotEntry> = Vec::new();
        std::mem::swap(&mut entries, &mut self.entries);
        assert(entries_view(entries@) == before);
        match found {
            Some(i) => {
                let mut e = entries.remove(i);
                e.history.update(n_decoded, id_task, is_processing, now);
                entries.insert(i, e);
                assert(entries_view(entries@) =~= observe(before, o, now));
            },
            None => {
                let e = SlotEntry {
                    model_id: model_id.clone(),
                    slot_id,
                    history: SlotHistory::new(n_decoded, id_task, now),
                };
                entries.push(e);
                assert(entries_view(entries@) =~= observe(before, o, now));
            },
        }
        proof {
            lemma_observe_unique(before, o, now);
        }
        self.entries = entries;
    }

    /// Keeps only the histories of the slots of the loaded models (see
    /// `keep_observed`).
    pub fn retain_loaded(&mut self, loaded: &Vec<LoadedModelData>)
        ensures
            final(self)@ == keep_observed(old(self)@, observations(loaded_view(loaded@))),
    {
        proof {
            use_type_invariant(&*self);
        }
        let ghost s = self@;
        let ghost os = observations(loaded_view(loaded@));
        let ghost pred = |e: SlotEntryView| observed(os, e.model_id, e.slot_id);
        let mut old_entries: Vec<SlotEntry> = Vec::new();
        std::mem::swap(&mut old_entries, &mut self.entries);
        let total = old_entries.len();
        let mut kept: Vec<SlotEntry> = Vec::new();
        let mut done: usize = 0;
        assert(s.skip(0) =~= s);
        while done < total
            invariant
                total == s.len(),
                unique_keys(s),
                os == observations(loaded_view(loaded@)),
                pred == (|e: SlotEntryView| observed(os, e.model_id, e.slot_id)),
                done <= total,
                old_entries@.len() == total - done,
                entries_view(old_entries@) == s.skip(done as int),
                entries_view(kept@) == s.take(done as int).filter(pred),
                unique_keys(entries_view(kept@)),
                forall|a: int| 0 <= a < kept@.len() ==> exists|q: int| 0 <= q < done && #[trigger] entries_view(kept@)[a] == s[q],
            decreases total - done,
        {
            let ghost old_rest = old_entries@;
            let ghost before = entries_view(kept@);
            let e = old_entries.remove(0);
            assert(entries_view(old_rest)[0] == s[done as int]);
            assert forall|i: int| 0 <= i < old_entries@.len() implies #[trigger] entries_view(old_entries@)[i] == s.skip(done + 1)[i] by {
                assert(old_entries@[i] == old_rest[i + 1]);
                assert(entries_view(old_rest)[i + 1] == s.skip(done as int)[i + 1]);
            }
            assert(entries_view(old_entries@) =~= s.skip(done + 1));
            proof {
                assert(s.take(done + 1) =~= s.take(done as int).push(s[done as int]));
                s.take(done as int).lemma_filter_push(s[done as int], pred);
            }
            if loaded_has_slot(loaded, e.model_id.as_str(), e.slot_id) {
                kept.push(e);
                let ghost after = entries_view(kept@);
                assert(after =~= before.push(s[done as int]));
                assert forall|i: int, j: int| 0 <= i < j < after.len() implies !has_key(#[trigger] after[i], after[j].model_id, #[trigger] after[j].slot_id) by {
                    if j == after.len() - 1 {
                        assert(after[i] == before[i]);
                        let q = choose|q: int| 0 <= q < done && #[trigger] before[i] == s[q];
                        assert(!has_key(s[q], s[done as int].model_id, s[done as int].slot_id));
                    } else {
                        assert(after[i] == before[i] && after[j] == before[j]);
                    }
                }
                assert forall|a: int| 0 <= a < kept@.len() implies exists|q: int| 0 <= q < done + 1 && #[trigger] entries_view(kept@)[a] == s[q] by {
                    if a == kept@.len() - 1 {
                        assert(entries_view(kept@)[a] == s[done as int]);
                    } else {
                        assert(entries_view(kept@)[a] == before[a]);
                        let q = choose|q: int| 0 <= q < done && #[trigger] before[a] == s[q];
                        assert(entries_view(kept@)[a] == s[q]);
                    }
                }
            }
            done = done + 1;
        }
        assert(s.take(total as int) =~= s);
        self.entries = kept;
    }
}

/// Whether every slot's window holds at most `HISTORY_LEN` samples.
pub open spec fn windows_bounded(s: Seq<SlotEntryView>) -> bool {
    forall|i: int| 0 <= i < s.len() ==> (#[trigger] s[i]).history.tps_history.len() <= HISTORY_LEN
}

proof fn lemma_observe_all_keys(s: Seq<SlotEntryView>, os: Seq<Observation>, now: u64, model_id: Seq<char>, slot_id: u32)
    ensures
        contains_key(observe_all(s, os, now), model_id, slot_id) <==> (contains_key(s, model_id, slot_id)
            || observed(os, model_id, slot_id)),
    decreases os.len(),
{
    if os.len() > 0 {
        let init = os.drop_last();
        let o = os.last();
        lemma_observe_all_keys(s, init, now, model_id, slot_id);
        let t = observe_all(s, init, now);
        let r = observe(t, o, now);
        if contains_key(t, o.model_id, o.slot_id) {
            let k = key_index(t, o.model_id, o.slot_id);
            if contains_key(r, model_id, slot_id) {
                let i = choose|i: int| 0 <= i < r.len() && has_key(#[trigger] r[i], model_id, slot_id);
                assert(has_key(t[i], model_id, slot_id));
            }
            if contains_key(t, model_id, slot_id) {
                let i = choose|i: int| 0 <= i < t.len() && has_key(#[trigger] t[i], model_id, slot_id);
                assert(has_key(r[i], model_id, slot_id));
            }
        } else {
            if contains_key(r, model_id, slot_id) {
                let i = choose|i: int| 0 <= i < r.len() && has_key(#[trigger] r[i], model_id, slot_id);
                if i < t.len() {
                    assert(has_key(t[i], model_id, slot_id));
                } else {
                    assert(os[os.len() - 1] == o);
                }
            }
            if contains_key(t, model_id, slot_id) {
                let i = choose|i: int| 0 <= i < t.len() && has_key(#[trigger] t[i], model_id, slot_id);
                assert(has_key(r[i], model_id, slot_id));
            }
            if o.model_id == model_id && o.slot_id == slot_id {
                assert(has_key(r[t.len() as int], model_id, slot_id));
            }
        }
        if observed(os, model_id, slot_id) {
            let i = choose|i: int| 0 <= i < os.len() && (#[trigger] os[i]).model_id == model_id && os[i].slot_id == slot_id;
            if i < init.len() {
                assert(init[i] == os[i]);
            } else {
                if !contains_key(t, o.model_id, o.slot_id) {
                    assert(has_key(r[t.len() as int], model_id, slot_id));
                } else {
                    let k = key_index(t, o.model_id, o.slot_id);
                    assert(has_key(r[k], model_id, slot_id));
                }
            }
        }
        if observed(init, model_id, slot_id) {
            let i = choose|i: int| 0 <= i < init.len() && (#[trigger] init[i]).model_id == model_id && init[i].slot_id == slot_id;
            assert(os[i] == init[i]);
        }
    }
}

/// After a refresh, the slots with a history are exactly the slots that the
/// refresh reports: histories of slots no longer reported are dropped, and
/// every reported slot has one.
pub proof fn lemma_refresh_keys(s: Seq<SlotEntryView>, os: Seq<Observation>, now: u64, model_id: Seq<char>, slot_id: u32)
    ensures
        contains_key(keep_observed(observe_all(s, os, now), os), model_id, slot_id) <==> observed(
            os,
            model_id,
            slot_id,
        ),
{
    let t = observe_all(s, os, now);
    let pred = |e: SlotEntryView| observed(os, e.model_id, e.slot_id);
    let r = t.filter(pred);
    lemma_observe_all_keys(s, os, now, model_id, slot_id);
    if contains_key(r, model_id, slot_id) {
        let i = choose|i: int| 0 <= i < r.len() && has_key(#[trigger] r[i], model_id, slot_id);
        t.lemma_filter_pred(pred, i);
    }
    if observed(os, model_id, slot_id) {
        let i = choose|i: int| 0 <= i < t.len() && has_key(#[trigger] t[i], model_id, slot_id);
        t.lemma_filter_contains(pred, i);
        let j = choose|j: int| 0 <= j < r.len() && r[j] == t[i];
        assert(has_key(r[j], model_id, slot_id));
    }
}

proof fn lemma_observe_bounded(s: Seq<SlotEntryView>, o: Observation, now: u64)
    requires
        windows_bounded(s),
    ensures
        windows_bounded(observe(s, o, now)),
{
    let r = observe(s, o, now);
    if contains_key(s, o.model_id, o.slot_id) {
        let k = key_index(s, o.model_id, o.slot_id);
        let h = s[k].history;
        lemma_window_bounded(h.tps_history, rate_after(h, o.n_decoded, o.id_task, o.is_processing, now));
        assert forall|i: int| 0 <= i < r.len() implies (#[trigger] r[i]).history.tps_history.len() <= HISTORY_LEN by {
            if i != k {
                assert(r[i] == s[i]);
            }
        }
    } else {
        assert forall|i: int| 0 <= i < r.len() implies (#[trigger] r[i]).history.tps_history.len() <= HISTORY_LEN by {
            if i < s.len() {
                assert(r[i] == s[i]);
            }
        }
    }
}

/// Refreshes keep every slot's window within `HISTORY_LEN` samples.
pub proof fn lemma_refresh_bounded(s: Seq<SlotEntryView>, os: Seq<Observation>, now: u64)
    requires
        windows_bounded(s),
    ensures
        windows_bounded(observe_all(s, os, now)),
        windows_bounded(keep_observed(observe_all(s, os, now), os)),
    decreases os.len(),
{
    if os.len() > 0 {
        lemma_refresh_bounded(s, os.drop_last(), now);
        lemma_observe_bounded(observe_all(s, os.drop_last(), now), os.last(), now);
    }
    let t = observe_all(s, os, now);
    let pred = |e: SlotEntryView| observed(os, e.model_id, e.slot_id);
    let r = t.filter(pred);
    assert forall|i: int| 0 <= i < r.len() implies (#[trigger] r[i]).history.tps_history.len() <= HISTORY_LEN by {
        t.lemma_filter_pred(pred, i);
        assert(r.contains(r[i]));
        t.lemma_filter_contains_rev(pred, r[i]);
    }
}

/// Whether the slots of the loaded models include one with the key: a
/// scan of the loaded models, standing for a set of the reported keys.
pub fn loaded_has_slot(loaded: &Vec<LoadedModelData>, model_id: &str, slot_id: u32) -> (r: bool)
    ensures
        r == observed(observations(loaded_view(loaded@)), model_id@, slot_id),
{
    let ghost lv = loaded_view(loaded@);
    proof {
        lemma_observed_iff(lv, model_id@, slot_id);
    }
    let mut i: usize = 0;
    while i < loaded.len()
        invariant
            lv == loaded_view(loaded@),
            i <= lv.len(),
            forall|a: int, b: int| 0 <= a < i && 0 <= b < lv[a].slots.len() ==> !(lv[a].model_id == model_id@ && (#[trigger] lv[a].slots[b]).id == slot_id),
        decreases lv.len() - i,
    {
        if same_text(loaded[i].model_id.as_str(), model_id) {
            let mut j: usize = 0;
            while j < loaded[i].slots.len()
                invariant
                    lv == loaded_view(loaded@),
                    i < lv.len(),
                    j <= lv[i as int].slots.len(),
                    lv[i as int].model_id == model_id@,
                    forall|b: int| 0 <= b < j ==> lv[i as int].slots[b].id != slot_id,
                decreases lv[i as int].slots.len() - j,
            {
                assert(lv[i as int].slots[j as int].id == loaded@[i as int].slots@[j as int].id);
                if loaded[i].slots[j].id == slot_id {
                    proof {
                        lemma_observed_iff(lv, model_id@, slot_id);
                        assert(lv[i as int].slots[j as int].id == slot_id);
                    }
                    return true;
                }
                j = j + 1;
            }
        }
        i = i + 1;
    }
    false
}

/// The reports include a slot exactly when one of the loaded models has
/// that id and a slot with that id.
pub proof fn lemma_observed_iff(s: Seq<LoadedModelDataView>, model_id: Seq<char>, slot_id: u32)
    ensures
        observed(observations(s), model_id, slot_id) <==> exists|a: int, b: int|
            0 <= a < s.len() && 0 <= b < s[a].slots.len() && s[a].model_id == model_id
                && (#[trigger] s[a].slots[b]).id == slot_id,
    decreases s.len(),
{
    if s.len() > 0 {
        let init = s.drop_last();
        let m = s.last();
        lemma_observed_iff(init, model_id, slot_id);
        let os = observations(s);
        let first = observations(init);
        let last = slot_observations(m);
        assert(os == first + last);
        if observed(os, model_id, slot_id) {
            let i = choose|i: int| 0 <= i < os.len() && (#[trigger] os[i]).model_id == model_id && os[i].slot_id == slot_id;
            if i < first.len() {
                assert(os[i] == first[i]);
                assert(observed(first, model_id, slot_id));
                let (a, b) = choose|a: int, b: int|
                    0 <= a < init.len() && 0 <= b < init[a].slots.len() && init[a].model_id == model_id
                        && (#[trigger] init[a].slots[b]).id == slot_id;
                assert(s[a] == init[a]);
            } else {
                assert(os[i] == last[i - first.len()]);
                assert(s[s.len() - 1] == m);
                assert(m.slots[i - first.len()].id == slot_id);
            }
        }
        if exists|a: int, b: int|
            0 <= a < s.len() && 0 <= b < s[a].slots.len() && s[a].model_id == model_id
                && (#[trigger] s[a].slots[b]).id == slot_id {
            let (a, b) = choose|a: int, b: int|
                0 <= a < s.len() && 0 <= b < s[a].slots.len() && s[a].model_id == model_id
                    && (#[trigger] s[a].slots[b]).id == slot_id;
            if a < s.len() - 1 {
                assert(init[a] == s[a]);
                assert(observed(first, model_id, slot_id));
                let i = choose|i: int| 0 <= i < first.len() && (#[trigger] first[i]).model_id == model_id && first[i].slot_id == slot_id;
                assert(os[i] == first[i]);
            } else {
                assert(os[first.len() + b] == last[b]);
            }
        }
    }
}

} // verus!
