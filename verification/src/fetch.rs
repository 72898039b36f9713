//! How the answers of one refresh become a `FetchResult`: which models get
//! their slots fetched, which error is reported, and the stable order of the
//! loaded models by id.
use vstd::prelude::*;

use crate::api::{
    loaded_status, loaded_view, models_view, opt_text, port_in_args, slots_view, FetchResult,
    LoadedModelData, LoadedModelDataView, RouterModel, RouterModelView, Slot, SlotView,
};
use crate::text::{chars_of, lemma_text_lt_irreflexive, lemma_text_lt_total, lemma_text_lt_transitive, text_le, text_less, text_lt};

verus! {

broadcast use {vstd::seq_lib::group_seq_properties, vstd::string::group_string_axioms};

/// The test "has id `k`" on loaded models.
pub open spec fn has_id(k: Seq<char>) -> spec_fn(LoadedModelDataView) -> bool {
    |e: LoadedModelDataView| e.model_id == k
}

/// The loaded models of `s` whose id is `k`, in their order in `s`.
pub open spec fn with_id(s: Seq<LoadedModelDataView>, k: Seq<char>) -> Seq<LoadedModelDataView> {
    s.filter(has_id(k))
}

/// Whether the loaded models of `s` are in order of their ids.
pub open spec fn sorted_by_id(s: Seq<LoadedModelDataView>) -> bool {
    forall|i: int, j: int| 0 <= i < j < s.len() ==> text_le(#[trigger] s[i].model_id, #[trigger] s[j].model_id)
}

/// Whether `out` is `inp` sorted by id, stably: in order of ids, and the
/// models that share an id keep their order in `inp`. (Together these give
/// `out` as a permutation of `inp`.)
pub open spec fn stably_sorted_by_id(inp: Seq<LoadedModelDataView>, out: Seq<LoadedModelDataView>) -> bool {
    &&& sorted_by_id(out)
    &&& forall|k: Seq<char>| #[trigger] with_id(out, k) == with_id(inp, k)
}

proof fn lemma_with_id_empty(s: Seq<LoadedModelDataView>, k: Seq<char>)
    requires
        forall|m: int| 0 <= m < s.len() ==> (#[trigger] s[m]).model_id != k,
    ensures
        with_id(s, k) == Seq::<LoadedModelDataView>::empty(),
{
    if with_id(s, k).len() > 0 {
        let e = with_id(s, k)[0];
        s.lemma_filter_pred(has_id(k), 0);
        assert(with_id(s, k).contains(e));
        s.lemma_filter_contains_rev(has_id(k), e);
        let m = choose|m: int| 0 <= m < s.len() && s[m] == e;
        assert(s[m].model_id == k);
    }
    assert(with_id(s, k) =~= Seq::<LoadedModelDataView>::empty());
}

proof fn lemma_insert_with_id(s: Seq<LoadedModelDataView>, j: int, x: LoadedModelDataView, k: Seq<char>)
    requires
        0 <= j <= s.len(),
        forall|m: int| j <= m < s.len() ==> (#[trigger] s[m]).model_id != x.model_id,
    ensures
        with_id(s.insert(j, x), k) == if x.model_id == k {
            with_id(s, k).push(x)
        } else {
            with_id(s, k)
        },
{
    let a = s.take(j);
    let b = s.skip(j);
    assert(s.insert(j, x) =~= a.push(x) + b);
    assert(s =~= a + b);
    Seq::filter_distributes_over_add(a.push(x), b, has_id(k));
    Seq::filter_distributes_over_add(a, b, has_id(k));
    a.lemma_filter_push(x, has_id(k));
    if x.model_id == k {
        assert forall|m: int| 0 <= m < b.len() implies (#[trigger] b[m]).model_id != k by {
            assert(b[m] == s[j + m]);
        }
        lemma_with_id_empty(b, k);
        assert(with_id(a, k).push(x) + with_id(b, k) =~= with_id(a, k).push(x));
        assert(with_id(a, k) + with_id(b, k) =~= with_id(a, k));
    }
}

proof fn lemma_with_id_last(s: Seq<LoadedModelDataView>, k: Seq<char>)
    requires
        s.len() > 0,
    ensures
        with_id(s, k) == if s.last().model_id == k {
            with_id(s.drop_last(), k).push(s.last())
        } else {
            with_id(s.drop_last(), k)
        },
{
    assert(s =~= s.drop_last().push(s.last()));
    s.drop_last().lemma_filter_push(s.last(), has_id(k));
}

proof fn lemma_has_member_with_id(s: Seq<LoadedModelDataView>, k: Seq<char>)
    requires
        with_id(s, k).len() > 0,
    ensures
        exists|i: int| 0 <= i < s.len() && (#[trigger] s[i]).model_id == k,
{
    let e = with_id(s, k)[0];
    s.lemma_filter_pred(has_id(k), 0);
    assert(with_id(s, k).contains(e));
    s.lemma_filter_contains_rev(has_id(k), e);
}

/// The stable order by id is unique: two stable sorts of the same models
/// give the same sequence.
pub proof fn lemma_stable_sort_unique(inp: Seq<LoadedModelDataView>, a: Seq<LoadedModelDataView>, b: Seq<LoadedModelDataView>)
    requires
        stably_sorted_by_id(inp, a),
        stably_sorted_by_id(inp, b),
    ensures
        a == b,
    decreases a.len() + b.len(),
{
    if a.len() == 0 && b.len() == 0 {
        assert(a =~= b);
    } else if a.len() == 0 || b.len() == 0 {
        // the last model of the longer one has no counterpart
        let (x, y) = if a.len() == 0 { (b, a) } else { (a, b) };
        let k = x.last().model_id;
        lemma_with_id_last(x, k);
        assert(with_id(x, k) == with_id(y, k));
        assert(y =~= Seq::<LoadedModelDataView>::empty());
        assert(with_id(y, k) =~= Seq::<LoadedModelDataView>::empty()) by {
            reveal(Seq::filter);
        }
    } else {
        let ka = a.last().model_id;
        let kb = b.last().model_id;
        lemma_with_id_last(a, ka);
        lemma_with_id_last(b, kb);
        assert(with_id(b, ka) == with_id(a, ka));
        assert(with_id(a, kb) == with_id(b, kb));
        lemma_has_member_with_id(b, ka);
        lemma_has_member_with_id(a, kb);
        let i = choose|i: int| 0 <= i < b.len() && (#[trigger] b[i]).model_id == ka;
        let j = choose|j: int| 0 <= j < a.len() && (#[trigger] a[j]).model_id == kb;
        if i < b.len() - 1 {
            assert(text_le(b[i].model_id, b[b.len() - 1].model_id));
        }
        if j < a.len() - 1 {
            assert(text_le(a[j].model_id, a[a.len() - 1].model_id));
        }
        lemma_text_lt_total(ka, kb);
        assert(ka == kb);
        lemma_with_id_last(a, ka);
        lemma_with_id_last(b, ka);
        assert(a.last() == with_id(a, ka).last());
        assert(b.last() == with_id(b, ka).last());
        let a2 = a.drop_last();
        let b2 = b.drop_last();
        assert forall|k: Seq<char>| #[trigger] with_id(a2, k) == with_id(b2, k) by {
            lemma_with_id_last(a, k);
            lemma_with_id_last(b, k);
            assert(with_id(a, k) == with_id(b, k));
            if k == ka {
                assert(with_id(a2, k) =~= with_id(a, k).drop_last());
                assert(with_id(b2, k) =~= with_id(b, k).drop_last());
            }
        }
        assert forall|i: int, j: int| 0 <= i < j < a2.len() implies text_le(#[trigger] a2[i].model_id, #[trigger] a2[j].model_id) by {
            assert(a2[i] == a[i] && a2[j] == a[j]);
        }
        assert forall|i: int, j: int| 0 <= i < j < b2.len() implies text_le(#[trigger] b2[i].model_id, #[trigger] b2[j].model_id) by {
            assert(b2[i] == b[i] && b2[j] == b[j]);
        }
        lemma_stable_sort_unique(a2, a2, b2);
        assert(a =~= a2.push(a.last()));
        assert(b =~= b2.push(b.last()));
    }
}

/// Sorts loaded models by id, keeping the order of models that share an id
/// (what `sort_by` with `model_id.cmp` does).
pub fn sort_by_model_id(items: Vec<LoadedModelData>) -> (out: Vec<LoadedModelData>)
    ensures
        stably_sorted_by_id(loaded_view(items@), loaded_view(out@)),
{
    let ghost inp = loaded_view(items@);
    let total = items.len();
    let mut rest = items;
    let mut out: Vec<LoadedModelData> = Vec::new();
    let mut keys: Vec<Vec<char>> = Vec::new();
    let mut done: usize = 0;
    assert(inp.skip(0) =~= inp);
    while done < total
        invariant
            total == inp.len(),
            done <= total,
            loaded_view(rest@) == inp.skip(done as int),
            rest@.len() == total - done,
            keys@.len() == out@.len(),
            forall|i: int| 0 <= i < keys@.len() ==> (#[trigger] keys@[i])@ == out@[i].model_id@,
            sorted_by_id(loaded_view(out@)),
            forall|k: Seq<char>| #[trigger] with_id(loaded_view(out@), k) == with_id(inp.take(done as int), k),
        decreases total - done,
    {
        let ghost old_out = loaded_view(out@);
        assert(loaded_view(rest@)[0] == inp[done as int]);
        let ghost old_rest = rest@;
        let x = rest.remove(0);
        assert forall|i: int| 0 <= i < rest@.len() implies #[trigger] loaded_view(rest@)[i] == inp.skip(done + 1)[i] by {
            assert(rest@[i] == old_rest[i + 1]);
            assert(loaded_view(old_rest)[i + 1] == inp.skip(done as int)[i + 1]);
        }
        assert(loaded_view(rest@) =~= inp.skip(done + 1));
        let key = chars_of(x.model_id.as_str());
        let mut j: usize = 0;
        while j < out.len() && !text_less(&key, &keys[j])
            invariant
                j <= out@.len(),
                keys@.len() == out@.len(),
                forall|i: int| 0 <= i < keys@.len() ==> (#[trigger] keys@[i])@ == out@[i].model_id@,
                key@ == x.model_id@,
                old_out == loaded_view(out@),
                forall|i: int| 0 <= i < j ==> text_le(old_out[i].model_id, key@),
            decreases out@.len() - j,
        {
            assert(old_out[j as int].model_id == keys@[j as int]@);
            j = j + 1;
        }
        let ghost xv = x@;
        proof {
            // every model from `j` on sorts after `x`
            assert forall|m: int| j <= m < old_out.len() implies text_lt(xv.model_id, #[trigger] old_out[m].model_id) by {
                assert(old_out[j as int].model_id == keys@[j as int]@);
                assert(text_lt(xv.model_id, old_out[j as int].model_id));
                if m > j {
                    assert(text_le(old_out[j as int].model_id, old_out[m].model_id));
                    lemma_text_lt_total(old_out[j as int].model_id, old_out[m].model_id);
                    if old_out[j as int].model_id != old_out[m].model_id {
                        lemma_text_lt_transitive(xv.model_id, old_out[j as int].model_id, old_out[m].model_id);
                    }
                }
            }
            assert forall|m: int| j <= m < old_out.len() implies (#[trigger] old_out[m]).model_id != xv.model_id by {
                lemma_text_lt_irreflexive(xv.model_id);
            }
            assert(inp.take(done + 1) =~= inp.take(done as int).push(xv));
            assert forall|k: Seq<char>| #[trigger] with_id(old_out.insert(j as int, xv), k) == with_id(inp.take(done + 1), k) by {
                lemma_insert_with_id(old_out, j as int, xv, k);
                inp.take(done as int).lemma_filter_push(xv, has_id(k));
            }
        }
        let ghost old_keys = keys@;
        out.insert(j, x);
        keys.insert(j, key);
        assert(loaded_view(out@) =~= old_out.insert(j as int, xv));
        proof {
            let new_out = loaded_view(out@);
            assert forall|a: int, b: int| 0 <= a < b < new_out.len() implies text_le(#[trigger] new_out[a].model_id, #[trigger] new_out[b].model_id) by {
                if a < j && b == j {
                } else if a == j && b > j {
                    lemma_text_lt_total(xv.model_id, old_out[b - 1].model_id);
                } else if a < j && b > j {
                } else if a > j {
                    assert(new_out[a] == old_out[a - 1]);
                    assert(new_out[b] == old_out[b - 1]);
                }
            }
            assert forall|i: int| 0 <= i < keys@.len() implies (#[trigger] keys@[i])@ == out@[i].model_id@ by {
                if i < j {
                } else if i == j {
                } else {
                    assert(keys@[i] == old_keys[i - 1]);
                }
            }
        }
        done = done + 1;
    }
    assert(inp.take(total as int) =~= inp);
    out
}

// ----- which models get their slots fetched -----

/// Whether a model entry says the model is loaded.
pub open spec fn is_loaded_view(m: RouterModelView) -> bool {
    m.status == loaded_status()
}

/// The loaded models of the router's list, in its order: those whose slots
/// one refresh fetches.
pub fn loaded_models(models: &Vec<RouterModel>) -> (r: Vec<RouterModel>)
    ensures
        models_view(r@) == models_view(models@).filter(|m: RouterModelView| is_loaded_view(m)),
{
    let ghost pred = |m: RouterModelView| is_loaded_view(m);
    let mut r: Vec<RouterModel> = Vec::new();
    let mut i: usize = 0;
    while i < models.len()
        invariant
            i <= models@.len(),
            pred == (|m: RouterModelView| is_loaded_view(m)),
            models_view(r@) == models_view(models@).take(i as int).filter(pred),
        decreases models@.len() - i,
    {
        let ghost before = models_view(r@);
        assert(models_view(models@).take(i + 1) =~= models_view(models@).take(i as int).push(models@[i as int]@));
        proof {
            models_view(models@).take(i as int).lemma_filter_push(models@[i as int]@, pred);
        }
        if models[i].is_loaded() {
            let m = models[i].clone();
            r.push(m);
            assert(models_view(r@) =~= before.push(models@[i as int]@));
        }
        i = i + 1;
    }
    assert(models_view(models@).take(i as int) =~= models_view(models@));
    r
}

// ----- putting one refresh together -----

/// What fetching the slots of one loaded model gave.
#[derive(Debug)]
pub enum SlotsOutcome {
    /// The slots were fetched.
    Fetched { model: RouterModel, slots: Vec<Slot> },
    /// The request failed, with this message.
    Failed { model: RouterModel, message: String },
    /// The task that made the request failed, with this message.
    Lost { message: String },
}

/// An outcome as plain values.
pub enum SlotsOutcomeView {
    Fetched { model: RouterModelView, slots: Seq<SlotView> },
    Failed { model: RouterModelView, message: Seq<char> },
    Lost { message: Seq<char> },
}

impl View for SlotsOutcome {
    type V = SlotsOutcomeView;

    open spec fn view(&self) -> SlotsOutcomeView {
        match self {
            SlotsOutcome::Fetched { model, slots } => SlotsOutcomeView::Fetched {
                model: model@,
                slots: slots_view(slots@),
            },
            SlotsOutcome::Failed { model, message } => SlotsOutcomeView::Failed {
                model: model@,
                message: message@,
            },
            SlotsOutcome::Lost { message } => SlotsOutcomeView::Lost { message: message@ },
        }
    }
}

/// The views of a sequence of outcomes.
pub open spec fn outcomes_view(v: Seq<SlotsOutcome>) -> Seq<SlotsOutcomeView> {
    v.map_values(|o: SlotsOutcome| o@)
}

/// The loaded model that an outcome contributes: a model keeps its place
/// (and its metadata) when its slots could not be fetched, with no slots;
/// a lost task contributes nothing.
pub open spec fn outcome_entry(o: SlotsOutcomeView) -> Option<LoadedModelDataView> {
    match o {
        SlotsOutcomeView::Fetched { model, slots } => Some(
            LoadedModelDataView {
                model_id: model.id,
                port: port_in_args(model.args),
                meta: model.meta,
                slots: slots,
            },
        ),
        SlotsOutcomeView::Failed { model, message } => Some(
            LoadedModelDataView {
                model_id: model.id,
                port: port_in_args(model.args),
                meta: model.meta,
                slots: Seq::empty(),
            },
        ),
        SlotsOutcomeView::Lost { message } => None,
    }
}

/// The error message that an outcome reports, if any: `<id>: <message>`
/// for a failed request, `slots task failed: <message>` for a lost task.
pub open spec fn outcome_error(o: SlotsOutcomeView) -> Option<Seq<char>> {
    match o {
        SlotsOutcomeView::Fetched { .. } => None,
        SlotsOutcomeView::Failed { model, message } => Some(model.id + ": "@ + message),
        SlotsOutcomeView::Lost { message } => Some("slots task failed: "@ + message),
    }
}

/// The first error that a sequence of outcomes reports.
pub open spec fn first_error(os: Seq<SlotsOutcomeView>) -> Option<Seq<char>>
    decreases os.len(),
{
    if os.len() == 0 {
        None
    } else if first_error(os.drop_last()) is Some {
        first_error(os.drop_last())
    } else {
        outcome_error(os.last())
    }
}

/// `a` followed by `b`, as a new string.
fn joined(a: &str, b: &str) -> (r: String)
    ensures
        r@ == a@ + b@,
{
    let mut r = a.to_owned();
    r.append(b);
    r
}

/// The result of a refresh whose model list could not be fetched: no
/// models, and the error `Router: <message>`.
pub fn router_failure(message: &str) -> (r: FetchResult)
    ensures
        r.all_models@.len() == 0,
        r.loaded@.len() == 0,
        opt_text(r.error) == Some("Router: "@ + message@),
{
    FetchResult { all_models: Vec::new(), loaded: Vec::new(), error: Some(joined("Router: ", message)) }
}

/// The result of a refresh: the router's whole model list, one loaded
/// model for each outcome that has a model, in order of ids (stably, so
/// that models that share an id keep the order of their outcomes), and the
/// first error that the outcomes report.
pub fn assemble_fetch(all_models: Vec<RouterModel>, outcomes: Vec<SlotsOutcome>) -> (r: FetchResult)
    ensures
        models_view(r.all_models@) == models_view(all_models@),
        stably_sorted_by_id(
            outcomes_view(outcomes@).filter_map(|o: SlotsOutcomeView| outcome_entry(o)),
            loaded_view(r.loaded@),
        ),
        opt_text(r.error) == first_error(outcomes_view(outcomes@)),
{
    let ghost os = outcomes_view(outcomes@);
    let ghost f = |o: SlotsOutcomeView| outcome_entry(o);
    let total = outcomes.len();
    let mut rest = outcomes;
    let mut loaded: Vec<LoadedModelData> = Vec::new();
    let mut error: Option<String> = None;
    let mut done: usize = 0;
    assert(os.skip(0) =~= os);
    while done < total
        invariant
            total == os.len(),
            f == (|o: SlotsOutcomeView| outcome_entry(o)),
            done <= total,
            rest@.len() == total - done,
            outcomes_view(rest@) == os.skip(done as int),
            loaded_view(loaded@) == os.take(done as int).filter_map(f),
            opt_text(error) == first_error(os.take(done as int)),
        decreases total - done,
    {
        let ghost old_rest = rest@;
        let ghost before = loaded_view(loaded@);
        let o = rest.remove(0);
        assert(outcomes_view(old_rest)[0] == os[done as int]);
        assert forall|i: int| 0 <= i < rest@.len() implies #[trigger] outcomes_view(rest@)[i] == os.skip(done + 1)[i] by {
            assert(rest@[i] == old_rest[i + 1]);
            assert(outcomes_view(old_rest)[i + 1] == os.skip(done as int)[i + 1]);
        }
        assert(outcomes_view(rest@) =~= os.skip(done + 1));
        let ghost ov = o@;
        proof {
            os.lemma_filter_map_take_succ(f, done as int);
            assert(os.take(done + 1).drop_last() =~= os.take(done as int));
        }
        match o {
            SlotsOutcome::Fetched { model, slots } => {
                let port = model.port();
                let entry = LoadedModelData { model_id: model.id, port, meta: model.meta, slots };
                loaded.push(entry);
                assert(loaded_view(loaded@) =~= before + seq![entry@]);
            },
            SlotsOutcome::Failed { model, message } => {
                let port = model.port();
                if error.is_none() {
                    let mut text = joined(model.id.as_str(), ": ");
                    text.append(message.as_str());
                    error = Some(text);
                }
                let entry = LoadedModelData { model_id: model.id, port, meta: model.meta, slots: Vec::new() };
                assert(slots_view(entry.slots@) =~= Seq::<SlotView>::empty());
                loaded.push(entry);
                assert(loaded_view(loaded@) =~= before + seq![entry@]);
            },
            SlotsOutcome::Lost { message } => {
                if error.is_none() {
                    error = Some(joined("slots task failed: ", message.as_str()));
                }
                assert(loaded_view(loaded@) =~= before);
            },
        }
        done = done + 1;
    }
    assert(os.take(total as int) =~= os);
    let sorted = sort_by_model_id(loaded);
    FetchResult { all_models, loaded: sorted, error }
}

/// The outcome for a loaded model of what fetching its slots answered:
/// `Ok(Ok(slots))` the slots, `Ok(Err(message))` a failed request,
/// `Err(message)` a failed task.
pub open spec fn answer_outcome(m: RouterModelView, a: Result<Result<Vec<Slot>, String>, String>) -> SlotsOutcomeView {
    match a {
        Ok(Ok(slots)) => SlotsOutcomeView::Fetched { model: m, slots: slots_view(slots@) },
        Ok(Err(message)) => SlotsOutcomeView::Failed { model: m, message: message@ },
        Err(message) => SlotsOutcomeView::Lost { message: message@ },
    }
}

/// The loaded models of a model list, as plain values.
pub open spec fn loaded_of(models: Seq<RouterModel>) -> Seq<RouterModelView> {
    models_view(models).filter(|m: RouterModelView| is_loaded_view(m))
}

/// The outcomes of a refresh: the `i`-th loaded model with the `i`-th answer.
pub open spec fn refresh_outcomes(
    models: Seq<RouterModel>,
    answers: Seq<Result<Result<Vec<Slot>, String>, String>>,
) -> Seq<SlotsOutcomeView> {
    Seq::new(loaded_of(models).len(), |i: int| answer_outcome(loaded_of(models)[i], answers[i]))
}

/// The result of a refresh from the router's model list and one answer per
/// loaded model (in the order of `loaded_models`): the whole model list,
/// the loaded models with their slots (none where the request failed, left
/// out where the task failed) in stable order of ids, and the first error.
pub fn fetch_result(
    all_models: Vec<RouterModel>,
    answers: Vec<Result<Result<Vec<Slot>, String>, String>>,
) -> (r: FetchResult)
    requires
        answers@.len() == loaded_of(all_models@).len(),
    ensures
        models_view(r.all_models@) == models_view(all_models@),
        stably_sorted_by_id(
            refresh_outcomes(all_models@, answers@).filter_map(|o: SlotsOutcomeView| outcome_entry(o)),
            loaded_view(r.loaded@),
        ),
        opt_text(r.error) == first_error(refresh_outcomes(all_models@, answers@)),
{
    let ghost outs = refresh_outcomes(all_models@, answers@);
    let ghost ls = loaded_of(all_models@);
    let mut models = loaded_models(&all_models);
    let mut rest = answers;
    let total = models.len();
    let mut outcomes: Vec<SlotsOutcome> = Vec::new();
    let mut done: usize = 0;
    while done < total
        invariant
            total == ls.len(),
            answers@.len() == total,
            outs == refresh_outcomes(all_models@, answers@),
            ls == loaded_of(all_models@),
            done <= total,
            models@.len() == total - done,
            rest@.len() == total - done,
            models_view(models@) == ls.skip(done as int),
            rest@ == answers@.skip(done as int),
            outcomes_view(outcomes@) == outs.take(done as int),
        decreases total - done,
    {
        let ghost old_models = models@;
        let ghost old_rest = rest@;
        let ghost before = outcomes_view(outcomes@);
        let model = models.remove(0);
        let answer = rest.remove(0);
        assert(models_view(old_models)[0] == ls[done as int]);
        assert(old_rest[0] == answers@[done as int]);
        assert forall|i: int| 0 <= i < models@.len() implies #[trigger] models_view(models@)[i] == ls.skip(done + 1)[i] by {
            assert(models@[i] == old_models[i + 1]);
            assert(models_view(old_models)[i + 1] == ls.skip(done as int)[i + 1]);
        }
        assert(models_view(models@) =~= ls.skip(done + 1));
        assert(rest@ =~= answers@.skip(done + 1));
        let o = match answer {
            Ok(Ok(slots)) => SlotsOutcome::Fetched { model, slots },
            Ok(Err(message)) => SlotsOutcome::Failed { model, message },
            Err(message) => SlotsOutcome::Lost { message },
        };
        assert(o@ == outs[done as int]);
        let ghost ov = o@;
        outcomes.push(o);
        assert(outcomes_view(outcomes@) =~= before.push(ov));
        assert(outcomes_view(outcomes@) =~= outs.take(done + 1));
        done = done + 1;
    }
    assert(outs.take(total as int) =~= outs);
    assemble_fetch(all_models, outcomes)
}

/// The loaded model that an outcome with a model contributes carries that
/// model's id, metadata and port, and its slots (none when the request
/// failed).
pub open spec fn entry_from_model(e: LoadedModelDataView, o: SlotsOutcomeView) -> bool {
    match o {
        SlotsOutcomeView::Fetched { model, slots } => e.model_id == model.id && e.meta == model.meta && e.port
            == port_in_args(model.args) && e.slots == slots,
        SlotsOutcomeView::Failed { model, message } => e.model_id == model.id && e.meta == model.meta
            && e.port == port_in_args(model.args) && e.slots.len() == 0,
        SlotsOutcomeView::Lost { .. } => false,
    }
}

proof fn lemma_entry_of_outcome(o: SlotsOutcomeView)
    ensures
        outcome_entry(o) matches Some(e) ==> entry_from_model(e, o),
        !(o is Lost) ==> outcome_entry(o) is Some,
{
}

proof fn lemma_filter_map_has(os: Seq<SlotsOutcomeView>, j: int)
    requires
        0 <= j < os.len(),
        outcome_entry(os[j]) is Some,
    ensures
        os.filter_map(|o: SlotsOutcomeView| outcome_entry(o)).contains(outcome_entry(os[j])->0),
    decreases os.len(),
{
    let f = |o: SlotsOutcomeView| outcome_entry(o);
    let rest = os.drop_last();
    if j == os.len() - 1 {
        let r = rest.filter_map(f) + seq![outcome_entry(os[j])->0];
        assert(os.filter_map(f) == r);
        assert(r[r.len() - 1] == outcome_entry(os[j])->0);
    } else {
        assert(rest[j] == os[j]);
        lemma_filter_map_has(rest, j);
        let k = choose|k: int| 0 <= k < rest.filter_map(f).len() && rest.filter_map(f)[k] == outcome_entry(os[j])->0;
        match f(os.last()) {
            Some(x) => {
                assert(os.filter_map(f) == rest.filter_map(f) + seq![x]);
                assert(os.filter_map(f)[k] == rest.filter_map(f)[k]);
            },
            None => {},
        }
    }
}

/// The loaded models of a refresh are exactly those of its outcomes that
/// have a model: each loaded entry carries the id, metadata and port of the
/// router model of some outcome, and its slots (none where the request
/// failed); and every outcome with a model has such an entry.
pub proof fn lemma_loaded_from_outcomes(os: Seq<SlotsOutcomeView>, out: Seq<LoadedModelDataView>)
    requires
        stably_sorted_by_id(os.filter_map(|o: SlotsOutcomeView| outcome_entry(o)), out),
    ensures
        forall|i: int| 0 <= i < out.len() ==> exists|j: int| 0 <= j < os.len() && entry_from_model(#[trigger] out[i], os[j]),
        forall|j: int| 0 <= j < os.len() && !(os[j] is Lost) ==> exists|i: int| 0 <= i < out.len() && #[trigger] out[i] == outcome_entry(os[j])->0 && entry_from_model(out[i], os[j]),
{
    let f = |o: SlotsOutcomeView| outcome_entry(o);
    let entries = os.filter_map(f);
    assert forall|i: int| 0 <= i < out.len() implies exists|j: int| 0 <= j < os.len() && entry_from_model(#[trigger] out[i], os[j]) by {
        let e = out[i];
        let k = e.model_id;
        out.lemma_filter_contains(has_id(k), i);
        assert(with_id(out, k) == with_id(entries, k));
        entries.lemma_filter_contains_rev(has_id(k), e);
        os.lemma_filter_map_contains(f, e);
        let t = choose|t: SlotsOutcomeView| #[trigger] os.contains(t) && f(t) == Some(e);
        let j = choose|j: int| 0 <= j < os.len() && os[j] == t;
        lemma_entry_of_outcome(t);
    }
    assert forall|j: int| 0 <= j < os.len() && !(os[j] is Lost) implies exists|i: int| 0 <= i < out.len() && #[trigger] out[i] == outcome_entry(os[j])->0 && entry_from_model(out[i], os[j]) by {
        lemma_entry_of_outcome(os[j]);
        let e = outcome_entry(os[j])->0;
        let k = e.model_id;
        lemma_filter_map_has(os, j);
        let m = choose|m: int| 0 <= m < entries.len() && entries[m] == e;
        entries.lemma_filter_contains(has_id(k), m);
        assert(with_id(out, k) == with_id(entries, k));
        out.lemma_filter_contains_rev(has_id(k), e);
    }
}

} // verus!
