//! The monitor's state: the last refresh's models and slots, the history of
//! every slot, and the queries the display makes of them.
use vstd::prelude::*;

use crate::api::{loaded_view, models_view, opt_text, FetchResult, LoadedModelData, LoadedModelDataView, RouterModel, RouterModelView, SlotView};
use crate::history::{
    keep_observed, lemma_observed_iff, lemma_refresh_bounded, lemma_refresh_keys, lookup,
    observations, observe_all, observed, windows_bounded, zero_rate, Observation, Rate,
    SlotEntryView, SlotHistories, HISTORY_LEN,
};
use crate::text::same_text;

verus! {

broadcast use vstd::seq_lib::group_seq_properties;

pub struct App {
    pub server_url: String,
    pub all_models: Vec<RouterModel>,
    pub loaded_models: Vec<LoadedModelData>,
    pub slot_histories: SlotHistories,
    pub refreshing: bool,
    /// When the last refresh arrived, in nanoseconds on the monitor's clock.
    pub last_update: Option<u64>,
    pub error: Option<String>,
    pub scroll: usize,
}

/// The monitor's state as plain values.
pub struct AppView {
    pub server_url: Seq<char>,
    pub all_models: Seq<RouterModelView>,
    pub loaded_models: Seq<LoadedModelDataView>,
    pub histories: Seq<SlotEntryView>,
    pub refreshing: bool,
    pub last_update: Option<u64>,
    pub error: Option<Seq<char>>,
    pub scroll: usize,
}

impl View for App {
    type V = AppView;

    open spec fn view(&self) -> AppView {
        AppView {
            server_url: self.server_url@,
            all_models: models_view(self.all_models@),
            loaded_models: loaded_view(self.loaded_models@),
            histories: self.slot_histories@,
            refreshing: self.refreshing,
            last_update: self.last_update,
            error: opt_text(self.error),
            scroll: self.scroll,
        }
    }
}

/// The state after a refresh that arrived at `now`: its models and loaded
/// models replace the old ones, its error replaces the old one, each slot it
/// reports updates (or starts) the slot's history, and only the histories
/// of the slots it reports remain.
pub open spec fn after_refresh(a: AppView, r: FetchResult, now: u64) -> AppView {
    let os = observations(loaded_view(r.loaded@));
    AppView {
        all_models: models_view(r.all_models@),
        loaded_models: loaded_view(r.loaded@),
        histories: keep_observed(observe_all(a.histories, os, now), os),
        refreshing: false,
        last_update: Some(now),
        error: opt_text(r.error),
        ..a
    }
}

/// The state scrolled one line up (not past the top).
pub open spec fn scrolled_up(a: AppView) -> AppView {
    AppView { scroll: if a.scroll > 0 { (a.scroll - 1) as usize } else { 0 }, ..a }
}

/// The state scrolled one line down.
pub open spec fn scrolled_down(a: AppView) -> AppView {
    AppView { scroll: (a.scroll + 1) as usize, ..a }
}

/// A refresh replaces the model lists and the error with its own, whatever
/// the state held before; it marks the state as no longer refreshing, notes
/// when it arrived, and leaves the server URL and the scroll position.
pub proof fn lemma_refresh_replaces(a: AppView, b: AppView, r: FetchResult, now: u64)
    ensures
        after_refresh(a, r, now).all_models == models_view(r.all_models@),
        after_refresh(a, r, now).all_models.len() == r.all_models@.len(),
        after_refresh(a, r, now).loaded_models == loaded_view(r.loaded@),
        after_refresh(a, r, now).error == opt_text(r.error),
        after_refresh(a, r, now).all_models == after_refresh(b, r, now).all_models,
        after_refresh(a, r, now).loaded_models == after_refresh(b, r, now).loaded_models,
        after_refresh(a, r, now).error == after_refresh(b, r, now).error,
        !after_refresh(a, r, now).refreshing,
        after_refresh(a, r, now).last_update == Some(now),
        after_refresh(a, r, now).server_url == a.server_url,
        after_refresh(a, r, now).scroll == a.scroll,
{
}

/// A model's throughput has one rate per processing slot of the first
/// loaded model with that id, as many as `active_slot_count` counts, the
/// `j`-th being the current throughput of the `j`-th processing slot (none
/// for a slot without history); a model that is not loaded has none.
pub proof fn lemma_model_rates(a: AppView, m: Seq<char>)
    ensures
        match first_with_id(a.loaded_models, m) {
            Some(i) => {
                let ps = a.loaded_models[i].slots.filter(|s: SlotView| s.is_processing);
                &&& active_rates(a, m).len() == processing_count(a.loaded_models[i].slots)
                &&& forall|j: int| 0 <= j < ps.len() ==> #[trigger] active_rates(a, m)[j] == match lookup(
                    a.histories,
                    m,
                    ps[j].id,
                ) {
                    Some(h) => h.current_tps,
                    None => (Rate { tokens: 0, nanos: 0 }),
                }
            },
            None => active_rates(a, m).len() == 0,
        },
{
}

proof fn lemma_max_len_is_max(ws: Seq<Seq<Rate>>)
    ensures
        forall|i: int| 0 <= i < ws.len() ==> (#[trigger] ws[i]).len() <= max_len(ws),
        ws.len() > 0 ==> exists|i: int| 0 <= i < ws.len() && (#[trigger] ws[i]).len() == max_len(ws),
    decreases ws.len(),
{
    if ws.len() > 0 {
        let init = ws.drop_last();
        lemma_max_len_is_max(init);
        assert forall|i: int| 0 <= i < ws.len() implies (#[trigger] ws[i]).len() <= max_len(ws) by {
            if i < init.len() {
                assert(init[i] == ws[i]);
            }
        }
        if ws.last().len() <= max_len(init) && init.len() > 0 {
            let i = choose|i: int| 0 <= i < init.len() && (#[trigger] init[i]).len() == max_len(init);
            assert(ws[i] == init[i]);
        }
    }
}

/// A model's throughput history has as many steps as its longest window
/// has samples (`HISTORY_LEN` empty steps without windows); with a single
/// window, step `i` holds exactly the window's `i`-th sample.
pub proof fn lemma_columns_steps(ws: Seq<Seq<Rate>>)
    ensures
        ws.len() > 0 ==> (forall|i: int| 0 <= i < ws.len() ==> (#[trigger] ws[i]).len() <= columns(ws).len()),
        ws.len() > 0 ==> (exists|i: int| 0 <= i < ws.len() && (#[trigger] ws[i]).len() == columns(ws).len()),
        ws.len() == 0 ==> columns(ws).len() == HISTORY_LEN && forall|i: int| 0 <= i < HISTORY_LEN ==> (#[trigger] columns(ws)[i]).len() == 0,
        ws.len() == 1 ==> columns(ws).len() == ws[0].len() && forall|i: int| 0 <= i < ws[0].len() ==> #[trigger] columns(ws)[i] == seq![ws[0][i]],
{
    lemma_max_len_is_max(ws);
    if ws.len() == 1 {
        let w = ws[0];
        assert(max_len(ws) == w.len()) by {
            assert(ws.drop_last().len() == 0);
        }
        assert forall|i: int| 0 <= i < w.len() implies #[trigger] columns(ws)[i] == seq![w[i]] by {
            let k = w.len() - 1 - i;
            let p = |x: Seq<Rate>| k < x.len();
            assert(ws =~= Seq::<Seq<Rate>>::empty().push(w));
            Seq::<Seq<Rate>>::empty().lemma_filter_push(w, p);
            assert(Seq::<Seq<Rate>>::empty().filter(p) =~= Seq::<Seq<Rate>>::empty()) by {
                reveal(Seq::filter);
            }
            assert(ws.filter(p) =~= seq![w]);
            assert(newest(ws, k) =~= seq![w[i]]);
        }
    }
}

/// Scrolling up undoes scrolling down.
pub proof fn lemma_scroll_round_trip(a: AppView)
    requires
        a.scroll < usize::MAX,
    ensures
        scrolled_up(scrolled_down(a)) == a,
{
}

/// After a refresh, a slot has a history exactly when the refresh reports
/// it: the histories of slots of models no longer loaded are dropped.
pub proof fn lemma_refresh_tracks_reported_slots(a: AppView, r: FetchResult, now: u64, model_id: Seq<char>, slot_id: u32)
    ensures
        lookup(after_refresh(a, r, now).histories, model_id, slot_id) is Some <==> exists|i: int, j: int|
            0 <= i < r.loaded@.len() && 0 <= j < r.loaded@[i].slots@.len() && r.loaded@[i].model_id@ == model_id
                && (#[trigger] r.loaded@[i].slots@[j]).id == slot_id,
{
    let lv = loaded_view(r.loaded@);
    let os = observations(lv);
    lemma_refresh_keys(a.histories, os, now, model_id, slot_id);
    lemma_observed_iff(lv, model_id, slot_id);
    if exists|i: int, j: int|
        0 <= i < r.loaded@.len() && 0 <= j < r.loaded@[i].slots@.len() && r.loaded@[i].model_id@ == model_id
            && (#[trigger] r.loaded@[i].slots@[j]).id == slot_id {
        let (i, j) = choose|i: int, j: int|
            0 <= i < r.loaded@.len() && 0 <= j < r.loaded@[i].slots@.len() && r.loaded@[i].model_id@ == model_id
                && (#[trigger] r.loaded@[i].slots@[j]).id == slot_id;
        assert(lv[i].slots[j] == r.loaded@[i].slots@[j]@);
    }
    if observed(os, model_id, slot_id) {
        let (i, j) = choose|i: int, j: int|
            0 <= i < lv.len() && 0 <= j < lv[i].slots.len() && lv[i].model_id == model_id
                && (#[trigger] lv[i].slots[j]).id == slot_id;
        assert(lv[i].slots[j] == r.loaded@[i].slots@[j]@);
    }
}

/// Refreshes keep every slot's samples within `HISTORY_LEN`.
pub proof fn lemma_refresh_keeps_windows_bounded(a: AppView, r: FetchResult, now: u64)
    requires
        windows_bounded(a.histories),
    ensures
        windows_bounded(after_refresh(a, r, now).histories),
{
    lemma_refresh_bounded(a.histories, observations(loaded_view(r.loaded@)), now);
}

/// A model's throughput history has at most `HISTORY_LEN` steps while its
/// slots' windows are within `HISTORY_LEN`.
pub proof fn lemma_columns_bounded(s: Seq<SlotEntryView>, m: Seq<char>)
    requires
        windows_bounded(s),
    ensures
        columns(model_windows(s, m)).len() <= HISTORY_LEN,
{
    let pred = |e: SlotEntryView| e.model_id == m;
    let f = of_model(s, m);
    let ws = model_windows(s, m);
    assert forall|i: int| 0 <= i < ws.len() implies (#[trigger] ws[i]).len() <= HISTORY_LEN by {
        s.lemma_filter_pred(pred, i);
        assert(f.contains(f[i]));
        s.lemma_filter_contains_rev(pred, f[i]);
    }
    lemma_max_len_bounded(ws, HISTORY_LEN as nat);
}

/// The histories of the slots of model `m`, in order.
pub open spec fn of_model(s: Seq<SlotEntryView>, m: Seq<char>) -> Seq<SlotEntryView> {
    s.filter(|e: SlotEntryView| e.model_id == m)
}

/// The sample windows of the slots of model `m`, in order.
pub open spec fn model_windows(s: Seq<SlotEntryView>, m: Seq<char>) -> Seq<Seq<Rate>> {
    of_model(s, m).map_values(|e: SlotEntryView| e.history.tps_history)
}

/// The length of the longest window (0 without windows).
pub open spec fn max_len(ws: Seq<Seq<Rate>>) -> nat
    decreases ws.len(),
{
    if ws.len() == 0 {
        0
    } else if ws.last().len() > max_len(ws.drop_last()) {
        ws.last().len()
    } else {
        max_len(ws.drop_last())
    }
}

proof fn lemma_max_len_bounded(ws: Seq<Seq<Rate>>, b: nat)
    requires
        forall|i: int| 0 <= i < ws.len() ==> (#[trigger] ws[i]).len() <= b,
    ensures
        max_len(ws) <= b,
    decreases ws.len(),
{
    if ws.len() > 0 {
        let init = ws.drop_last();
        assert forall|i: int| 0 <= i < init.len() implies (#[trigger] init[i]).len() <= b by {
            assert(init[i] == ws[i]);
        }
        lemma_max_len_bounded(init, b);
    }
}

/// The `k`-th newest samples (0 is the newest) of the windows that have
/// one, in order.
pub open spec fn newest(ws: Seq<Seq<Rate>>, k: int) -> Seq<Rate> {
    ws.filter(|w: Seq<Rate>| k < w.len()).map_values(|w: Seq<Rate>| w[w.len() - 1 - k])
}

/// The samples of a model's slots, time step by time step, oldest step
/// first: windows are aligned on their newest sample; there are as many
/// steps as the longest window has, the last step holding the newest sample
/// of every window, the one before it the samples before those, and so on;
/// with no window, `HISTORY_LEN` empty steps.
pub open spec fn columns(ws: Seq<Seq<Rate>>) -> Seq<Seq<Rate>> {
    if ws.len() == 0 {
        Seq::new(HISTORY_LEN as nat, |i: int| Seq::<Rate>::empty())
    } else {
        Seq::new(max_len(ws), |i: int| newest(ws, max_len(ws) - 1 - i))
    }
}

/// The current throughput of a slot (none for a slot without history).
pub open spec fn current_rate(s: Seq<SlotEntryView>, m: Seq<char>, slot_id: u32) -> Rate {
    match lookup(s, m, slot_id) {
        Some(h) => h.current_tps,
        None => zero_rate(),
    }
}

/// The current throughputs of the processing slots of the first loaded model
/// with id `m`, in slot order (none if no such model is loaded).
pub open spec fn active_rates(a: AppView, m: Seq<char>) -> Seq<Rate> {
    match first_with_id(a.loaded_models, m) {
        Some(i) => a.loaded_models[i].slots.filter(|s: SlotView| s.is_processing).map_values(
            |s: SlotView| current_rate(a.histories, m, s.id),
        ),
        None => Seq::empty(),
    }
}

/// The position of the first loaded model with id `m`, if any.
pub open spec fn first_with_id(s: Seq<LoadedModelDataView>, m: Seq<char>) -> Option<int>
    decreases s.len(),
{
    if s.len() == 0 {
        None
    } else if s[0].model_id == m {
        Some(0)
    } else {
        match first_with_id(s.drop_first(), m) {
            Some(i) => Some(i + 1),
            None => None,
        }
    }
}

proof fn lemma_first_with_id(s: Seq<LoadedModelDataView>, m: Seq<char>)
    ensures
        match first_with_id(s, m) {
            Some(i) => 0 <= i < s.len() && s[i].model_id == m && forall|j: int| 0 <= j < i ==> s[j].model_id != m,
            None => forall|j: int| 0 <= j < s.len() ==> s[j].model_id != m,
        },
    decreases s.len(),
{
    if s.len() > 0 && s[0].model_id != m {
        lemma_first_with_id(s.drop_first(), m);
        match first_with_id(s.drop_first(), m) {
            Some(i) => {
                assert forall|j: int| 0 <= j < i + 1 implies s[j].model_id != m by {
                    if j > 0 {
                        assert(s[j] == s.drop_first()[j - 1]);
                    }
                }
            },
            None => {
                assert forall|j: int| 0 <= j < s.len() implies s[j].model_id != m by {
                    if j > 0 {
                        assert(s[j] == s.drop_first()[j - 1]);
                    }
                }
            },
        }
    }
}

/// The number of processing slots among `slots`.
pub open spec fn processing_count(slots: Seq<SlotView>) -> nat {
    slots.filter(|s: SlotView| s.is_processing).len()
}

impl App {
    pub fn new(server_url: String) -> (r: App)
        ensures
            r@ == (AppView {
                server_url: server_url@,
                all_models: Seq::empty(),
                loaded_models: Seq::empty(),
                histories: Seq::empty(),
                refreshing: false,
                last_update: None,
                error: None,
                scroll: 0,
            }),
    {
        let r = App {
            server_url,
            all_models: Vec::new(),
            loaded_models: Vec::new(),
            slot_histories: SlotHistories::new(),
            refreshing: false,
            last_update: None,
            error: None,
            scroll: 0,
        };
        assert(r@.all_models =~= Seq::<RouterModelView>::empty());
        assert(r@.loaded_models =~= Seq::<LoadedModelDataView>::empty());
        r
    }

    pub fn set_refreshing(&mut self, v: bool)
        ensures
            final(self)@ == (AppView { refreshing: v, ..old(self)@ }),
    {
        self.refreshing = v;
    }

    pub fn scroll_up(&mut self)
        ensures
            final(self)@ == scrolled_up(old(self)@),
    {
        self.scroll = self.scroll.saturating_sub(1);
    }

    pub fn scroll_down(&mut self)
        requires
            old(self).scroll < usize::MAX,
        ensures
            final(self)@ == scrolled_down(old(self)@),
    {
        self.scroll += 1;
    }

    /// Takes in the result of a refresh that arrived at `now` (see
    /// `after_refresh`).
    pub fn update(&mut self, result: FetchResult, now: u64)
        ensures
            final(self)@ == after_refresh(old(self)@, result, now),
    {
        let ghost old_view = self@;
        let ghost lv = loaded_view(result.loaded@);
        let ghost os = observations(lv);
        let FetchResult { all_models, loaded, error } = result;
        let mut hist = SlotHistories::new();
        std::mem::swap(&mut hist, &mut self.slot_histories);
        let mut i: usize = 0;
        while i < loaded.len()
            invariant
                lv == loaded_view(loaded@),
                os == observations(lv),
                i <= lv.len(),
                hist@ == observe_all(old_view.histories, observations(lv.take(i as int)), now),
            decreases lv.len() - i,
        {
            let ghost done = observations(lv.take(i as int));
            let ghost m = lv[i as int];
            assert(lv.take(i + 1).drop_last() =~= lv.take(i as int));
            assert(observations(lv.take(i + 1)) == done + crate::history::slot_observations(m));
            let mut j: usize = 0;
            while j < loaded[i].slots.len()
                invariant
                    lv == loaded_view(loaded@),
                    i < lv.len(),
                    m == lv[i as int],
                    j <= m.slots.len(),
                    hist@ == observe_all(
                        old_view.histories,
                        done + crate::history::slot_observations(m).take(j as int),
                        now,
                    ),
                decreases m.slots.len() - j,
            {
                let slot = &loaded[i].slots[j];
                let ghost seen = done + crate::history::slot_observations(m).take(j as int);
                let ghost o = Observation {
                    model_id: m.model_id,
                    slot_id: slot.id,
                    n_decoded: crate::api::decoded_of(slot.tokens_view()),
                    id_task: slot.id_task,
                    is_processing: slot.is_processing,
                };
                assert(m.slots[j as int] == slot@);
                assert(crate::history::slot_observations(m)[j as int] == o);
                let n_decoded = slot.n_decoded();
                hist.observe(&loaded[i].model_id, slot.id, n_decoded, slot.id_task, slot.is_processing, now);
                let ghost next = done + crate::history::slot_observations(m).take(j + 1);
                assert(next.drop_last() =~= seen);
                assert(next.last() == o);
                j = j + 1;
            }
            assert(crate::history::slot_observations(m).take(j as int) =~= crate::history::slot_observations(m));
            i = i + 1;
        }
        assert(lv.take(i as int) =~= lv);
        hist.retain_loaded(&loaded);
        self.slot_histories = hist;
        self.loaded_models = loaded;
        self.refreshing = false;
        self.last_update = Some(now);
        self.error = error;
        self.all_models = all_models;
    }

    /// Whether the slot is in prefill (false for a slot without history).
    pub fn slot_in_prefill(&self, model_id: &str, slot_id: u32) -> (r: bool)
        ensures
            r == match lookup(self@.histories, model_id@, slot_id) {
                Some(h) => h.in_prefill,
                None => false,
            },
    {
        match self.slot_histories.get(model_id, slot_id) {
            Some(h) => h.in_prefill,
            None => false,
        }
    }

    /// The slot's current throughput (none for a slot without history).
    pub fn slot_tps(&self, model_id: &str, slot_id: u32) -> (r: Rate)
        ensures
            r == match lookup(self@.histories, model_id@, slot_id) {
                Some(h) => h.current_tps,
                None => zero_rate(),
            },
    {
        match self.slot_histories.get(model_id, slot_id) {
            Some(h) => h.current_tps,
            None => Rate::zero(),
        }
    }

    /// The slot's throughput samples, oldest first (none for a slot without
    /// history).
    pub fn tps_history(&self, model_id: &str, slot_id: u32) -> (r: Vec<Rate>)
        ensures
            r@ == match lookup(self@.histories, model_id@, slot_id) {
                Some(h) => h.tps_history,
                None => Seq::empty(),
            },
    {
        match self.slot_histories.get(model_id, slot_id) {
            Some(h) => copy_rates(&h.tps_history),
            None => Vec::new(),
        }
    }

    /// The current throughputs of the processing slots of a model (see
    /// `active_rates`); the model's throughput is their sum.
    pub fn model_tps(&self, model_id: &str) -> (r: Vec<Rate>)
        ensures
            r@ == active_rates(self@, model_id@),
    {
        match self.loaded_model(model_id) {
            Some(md) => {
                let ghost sv = crate::api::slots_view(md.slots@);
                let ghost p = |s: SlotView| s.is_processing;
                let ghost f = |s: SlotView| current_rate(self@.histories, model_id@, s.id);
                let mut r: Vec<Rate> = Vec::new();
                let mut j: usize = 0;
                while j < md.slots.len()
                    invariant
                        sv == crate::api::slots_view(md.slots@),
                        p == (|s: SlotView| s.is_processing),
                        f == (|s: SlotView| current_rate(self@.histories, model_id@, s.id)),
                        j <= sv.len(),
                        r@ == sv.take(j as int).filter(p).map_values(f),
                    decreases sv.len() - j,
                {
                    proof {
                        assert(sv.take(j + 1) =~= sv.take(j as int).push(sv[j as int]));
                        sv.take(j as int).lemma_filter_push(sv[j as int], p);
                    }
                    let slot = &md.slots[j];
                    assert(sv[j as int] == slot@);
                    if slot.is_processing {
                        let rate = self.slot_tps(model_id, slot.id);
                        r.push(rate);
                        assert(r@ =~= sv.take(j + 1).filter(p).map_values(f));
                    }
                    j = j + 1;
                }
                assert(sv.take(j as int) =~= sv);
                r
            },
            None => Vec::new(),
        }
    }

    /// A model's throughput samples, time step by time step (see `columns`);
    /// each step's throughput is the sum of its samples.
    pub fn model_tps_history(&self, model_id: &str) -> (r: Vec<Vec<Rate>>)
        ensures
            rates_view(r@) == columns(model_windows(self@.histories, model_id@)),
    {
        let ghost s = self@.histories;
        let ghost pred = |e: SlotEntryView| e.model_id == model_id@;
        let ghost f = |e: SlotEntryView| e.history.tps_history;
        let mut windows: Vec<Vec<Rate>> = Vec::new();
        let mut i: usize = 0;
        while i < self.slot_histories.len()
            invariant
                s == self.slot_histories@,
                pred == (|e: SlotEntryView| e.model_id == model_id@),
                f == (|e: SlotEntryView| e.history.tps_history),
                i <= s.len(),
                rates_view(windows@) == s.take(i as int).filter(pred).map_values(f),
            decreases s.len() - i,
        {
            let e = self.slot_histories.entry(i);
            proof {
                assert(s.take(i + 1) =~= s.take(i as int).push(s[i as int]));
                s.take(i as int).lemma_filter_push(s[i as int], pred);
            }
            if same_text(e.model_id.as_str(), model_id) {
                let w = copy_rates(&e.history.tps_history);
                let ghost before = windows@;
                windows.push(w);
                assert(rates_view(windows@) =~= rates_view(before).push(w@));
                assert(rates_view(windows@) =~= s.take(i + 1).filter(pred).map_values(f));
            }
            i = i + 1;
        }
        assert(s.take(i as int) =~= s);
        let ghost ws = model_windows(s, model_id@);
        assert(rates_view(windows@) == ws);
        let mut r: Vec<Vec<Rate>> = Vec::new();
        if windows.len() == 0 {
            let mut k: usize = 0;
            while k < HISTORY_LEN
                invariant
                    k <= HISTORY_LEN,
                    r@.len() == k,
                    forall|a: int| 0 <= a < k ==> (#[trigger] r@[a])@ == Seq::<Rate>::empty(),
                decreases HISTORY_LEN - k,
            {
                r.push(Vec::new());
                k = k + 1;
            }
            assert(rates_view(r@) =~= columns(ws));
            return r;
        }
        let mut longest: usize = 0;
        let mut h: usize = 0;
        while h < windows.len()
            invariant
                rates_view(windows@) == ws,
                h <= ws.len(),
                longest == max_len(ws.take(h as int)),
            decreases ws.len() - h,
        {
            assert(ws.take(h + 1).drop_last() =~= ws.take(h as int));
            assert(ws[h as int] == windows@[h as int]@);
            if windows[h].len() > longest {
                longest = windows[h].len();
            }
            h = h + 1;
        }
        assert(ws.take(h as int) =~= ws);
        let steps = longest;
        let mut i: usize = 0;
        while i < steps
            invariant
                ws.len() > 0,
                steps == max_len(ws),
                rates_view(windows@) == ws,
                i <= steps,
                r@.len() == i,
                forall|a: int| 0 <= a < i ==> (#[trigger] r@[a])@ == newest(ws, steps - 1 - a),
            decreases steps - i,
        {
            let k: usize = steps - 1 - i;
            let ghost p = |w: Seq<Rate>| (k as int) < w.len();
            let ghost g = |w: Seq<Rate>| w[w.len() - 1 - k];
            let mut col: Vec<Rate> = Vec::new();
            let mut h: usize = 0;
            while h < windows.len()
                invariant
                    rates_view(windows@) == ws,
                    h <= ws.len(),
                    p == (|w: Seq<Rate>| (k as int) < w.len()),
                    g == (|w: Seq<Rate>| w[w.len() - 1 - k]),
                    col@ == ws.take(h as int).filter(p).map_values(g),
                decreases ws.len() - h,
            {
                proof {
                    assert(ws.take(h + 1) =~= ws.take(h as int).push(ws[h as int]));
                    ws.take(h as int).lemma_filter_push(ws[h as int], p);
                }
                assert(ws[h as int] == windows@[h as int]@);
                let n = windows[h].len();
                if k < n {
                    col.push(windows[h][n - 1 - k]);
                    assert(col@ =~= ws.take(h + 1).filter(p).map_values(g));
                }
                h = h + 1;
            }
            assert(ws.take(h as int) =~= ws);
            r.push(col);
            i = i + 1;
        }
        assert(rates_view(r@) =~= columns(ws));
        r
    }

    /// The first loaded model with the id, if any.
    pub fn loaded_model(&self, model_id: &str) -> (r: Option<&LoadedModelData>)
        ensures
            match r {
                Some(m) => first_with_id(self@.loaded_models, model_id@) matches Some(i) && m@
                    == self@.loaded_models[i],
                None => first_with_id(self@.loaded_models, model_id@) is None,
            },
    {
        let ghost s = self@.loaded_models;
        proof {
            lemma_first_with_id(s, model_id@);
        }
        let mut i: usize = 0;
        while i < self.loaded_models.len()
            invariant
                s == loaded_view(self.loaded_models@),
                i <= s.len(),
                forall|j: int| 0 <= j < i ==> s[j].model_id != model_id@,
                match first_with_id(s, model_id@) {
                    Some(x) => 0 <= x < s.len() && s[x].model_id == model_id@ && forall|j: int| 0 <= j < x ==> s[j].model_id != model_id@,
                    None => forall|j: int| 0 <= j < s.len() ==> s[j].model_id != model_id@,
                },
            decreases s.len() - i,
        {
            if same_text(self.loaded_models[i].model_id.as_str(), model_id) {
                assert(s[i as int].model_id == model_id@);
                return Some(&self.loaded_models[i]);
            }
            i = i + 1;
        }
        None
    }

    /// How many slots of the model are processing (0 for a model that is
    /// not loaded).
    pub fn active_slot_count(&self, model_id: &str) -> (r: usize)
        ensures
            r == match first_with_id(self@.loaded_models, model_id@) {
                Some(i) => processing_count(self@.loaded_models[i].slots),
                None => 0,
            },
    {
        match self.loaded_model(model_id) {
            Some(m) => {
                let ghost sv = crate::api::slots_view(m.slots@);
                let ghost p = |s: SlotView| s.is_processing;
                let mut n: usize = 0;
                let mut j: usize = 0;
                while j < m.slots.len()
                    invariant
                        sv == crate::api::slots_view(m.slots@),
                        p == (|s: SlotView| s.is_processing),
                        j <= sv.len(),
                        n == sv.take(j as int).filter(p).len(),
                        n <= j,
                    decreases sv.len() - j,
                {
                    proof {
                        assert(sv.take(j + 1) =~= sv.take(j as int).push(sv[j as int]));
                        sv.take(j as int).lemma_filter_push(sv[j as int], p);
                    }
                    if m.slots[j].is_processing {
                        n = n + 1;
                    }
                    j = j + 1;
                }
                assert(sv.take(j as int) =~= sv);
                n
            },
            None => 0,
        }
    }

    /// How many slots the model has (0 for a model that is not loaded).
    pub fn total_slot_count(&self, model_id: &str) -> (r: usize)
        ensures
            r == match first_with_id(self@.loaded_models, model_id@) {
                Some(i) => self@.loaded_models[i].slots.len(),
                None => 0,
            },
    {
        match self.loaded_model(model_id) {
            Some(m) => m.slots.len(),
            None => 0,
        }
    }
}

/// The samples held by a sequence of vectors.
pub open spec fn rates_view(v: Seq<Vec<Rate>>) -> Seq<Seq<Rate>> {
    v.map_values(|c: Vec<Rate>| c@)
}

/// A copy of a sequence of samples.
fn copy_rates(v: &Vec<Rate>) -> (r: Vec<Rate>)
    ensures
        r@ == v@,
{
    let mut r: Vec<Rate> = Vec::new();
    let mut i: usize = 0;
    while i < v.len()
        invariant
            i <= v@.len(),
            r@ == v@.take(i as int),
        decreases v@.len() - i,
    {
        r.push(v[i]);
        assert(r@ =~= v@.take(i + 1));
        i = i + 1;
    }
    assert(v@.take(i as int) =~= v@);
    r
}

} // verus!
