use llama_monitor::api::{LoadedModelData, ModelMeta, RouterModel, RouterModelStatus, Slot};
use llama_monitor::fetch::{assemble_fetch, fetch_result, loaded_models, router_failure, sort_by_model_id, SlotsOutcome};

fn model(id: &str, status: &str, args: &[&str]) -> RouterModel {
    RouterModel {
        id: id.to_string(),
        status: RouterModelStatus {
            value: status.to_string(),
            args: args.iter().map(|a| a.to_string()).collect(),
        },
        meta: None,
    }
}

fn slot(id: u32) -> Slot {
    Slot { id, is_processing: false, id_task: None, next_token: None }
}

fn loaded(id: &str, port: Option<u16>) -> LoadedModelData {
    LoadedModelData { model_id: id.to_string(), port, meta: None, slots: vec![] }
}

#[test]
fn loaded_models_keeps_loaded_in_order() {
    let models = vec![
        model("a", "loaded", &[]),
        model("b", "unloaded", &[]),
        model("c", "loaded", &[]),
        model("d", "loading", &[]),
    ];
    let l = loaded_models(&models);
    let ids: Vec<&str> = l.iter().map(|m| m.id.as_str()).collect();
    assert_eq!(ids, vec!["a", "c"]);
}

#[test]
fn sort_is_stable_by_id() {
    let items = vec![
        loaded("zeta", Some(1)),
        loaded("alpha", Some(2)),
        loaded("mid", Some(3)),
        loaded("alpha", Some(4)),
        loaded("Zed", Some(5)),
    ];
    let out = sort_by_model_id(items);
    let got: Vec<(&str, Option<u16>)> = out.iter().map(|m| (m.model_id.as_str(), m.port)).collect();
    assert_eq!(
        got,
        vec![("Zed", Some(5)), ("alpha", Some(2)), ("alpha", Some(4)), ("mid", Some(3)), ("zeta", Some(1))]
    );
}

#[test]
fn sort_agrees_with_std_sort_by() {
    let ids = ["b", "a", "日本", "é", "e", "a", "B", "", "ab", "b"];
    let items: Vec<LoadedModelData> = ids.iter().enumerate().map(|(i, id)| loaded(id, Some(i as u16))).collect();
    let mut expected: Vec<(String, Option<u16>)> = items.iter().map(|m| (m.model_id.clone(), m.port)).collect();
    expected.sort_by(|a, b| a.0.cmp(&b.0));
    let out = sort_by_model_id(items);
    let got: Vec<(String, Option<u16>)> = out.iter().map(|m| (m.model_id.clone(), m.port)).collect();
    assert_eq!(got, expected);
}

#[test]
fn router_failure_reports_the_router() {
    let r = router_failure("connection refused");
    assert!(r.all_models.is_empty());
    assert!(r.loaded.is_empty());
    assert_eq!(r.error.as_deref(), Some("Router: connection refused"));
}

#[test]
fn assemble_sorts_and_keeps_first_error() {
    let mut b = model("b-model", "loaded", &["--port", "9001"]);
    b.meta = Some(ModelMeta { n_params: Some(1), size: None, n_ctx_train: None, n_vocab: None, n_embd: None });
    let outcomes = vec![
        SlotsOutcome::Fetched { model: model("c-model", "loaded", &["--port", "9002"]), slots: vec![slot(0), slot(1)] },
        SlotsOutcome::Failed { model: b, message: "timeout".to_string() },
        SlotsOutcome::Lost { message: "panicked".to_string() },
        SlotsOutcome::Failed { model: model("a-model", "loaded", &[]), message: "404".to_string() },
    ];
    let all = vec![model("c-model", "loaded", &[]), model("x", "unloaded", &[])];
    let r = assemble_fetch(all, outcomes);
    assert_eq!(r.all_models.len(), 2);
    assert_eq!(r.all_models[1].id, "x");
    let ids: Vec<&str> = r.loaded.iter().map(|m| m.model_id.as_str()).collect();
    assert_eq!(ids, vec!["a-model", "b-model", "c-model"]);
    assert_eq!(r.loaded[0].slots.len(), 0);
    assert_eq!(r.loaded[0].port, None);
    assert_eq!(r.loaded[1].port, Some(9001));
    assert_eq!(r.loaded[1].meta.unwrap().n_params, Some(1));
    assert_eq!(r.loaded[1].slots.len(), 0);
    assert_eq!(r.loaded[2].port, Some(9002));
    assert_eq!(r.loaded[2].slots.len(), 2);
    assert_eq!(r.error.as_deref(), Some("b-model: timeout"));
}

#[test]
fn assemble_reports_lost_task_when_first() {
    let outcomes = vec![
        SlotsOutcome::Lost { message: "join error".to_string() },
        SlotsOutcome::Failed { model: model("a", "loaded", &[]), message: "x".to_string() },
    ];
    let r = assemble_fetch(vec![], outcomes);
    assert_eq!(r.error.as_deref(), Some("slots task failed: join error"));
    assert_eq!(r.loaded.len(), 1);
}

#[test]
fn assemble_without_errors() {
    let outcomes = vec![SlotsOutcome::Fetched { model: model("a", "loaded", &[]), slots: vec![] }];
    let r = assemble_fetch(vec![], outcomes);
    assert_eq!(r.error, None);
    assert_eq!(r.loaded.len(), 1);
}

#[test]
fn fetch_result_pairs_answers_with_loaded_models() {
    let all = vec![
        model("z", "loaded", &["--port", "7"]),
        model("u", "unloaded", &[]),
        model("b", "loaded", &[]),
        model("a", "loaded", &[]),
    ];
    let answers = vec![
        Ok(Ok(vec![slot(3)])),
        Ok(Err("boom".to_string())),
        Err("task".to_string()),
    ];
    let r = fetch_result(all, answers);
    assert_eq!(r.all_models.len(), 4);
    let got: Vec<(&str, usize, Option<u16>)> =
        r.loaded.iter().map(|m| (m.model_id.as_str(), m.slots.len(), m.port)).collect();
    assert_eq!(got, vec![("b", 0, None), ("z", 1, Some(7))]);
    assert_eq!(r.error.as_deref(), Some("b: boom"));
}
