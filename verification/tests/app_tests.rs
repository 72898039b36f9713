use llama_monitor::api::{FetchResult, LoadedModelData, RouterModel, RouterModelStatus, Slot, SlotNextToken};
use llama_monitor::app::App;
use llama_monitor::history::{Rate, HISTORY_LEN};

const SEC: u64 = 1_000_000_000;

fn slot(id: u32, processing: bool, task: Option<i64>, decoded: u64) -> Slot {
    Slot { id, is_processing: processing, id_task: task, next_token: Some(vec![SlotNextToken { n_decoded: decoded }]) }
}

fn loaded(id: &str, slots: Vec<Slot>) -> LoadedModelData {
    LoadedModelData { model_id: id.to_string(), port: None, meta: None, slots }
}

fn router_model(id: &str) -> RouterModel {
    RouterModel {
        id: id.to_string(),
        status: RouterModelStatus { value: "loaded".to_string(), args: vec![] },
        meta: None,
    }
}

fn result(loaded: Vec<LoadedModelData>, error: Option<&str>) -> FetchResult {
    FetchResult { all_models: vec![router_model("m1")], loaded, error: error.map(|e| e.to_string()) }
}

#[test]
fn new_app_is_empty() {
    let app = App::new("http://localhost:8080".to_string());
    assert_eq!(app.server_url, "http://localhost:8080");
    assert!(app.all_models.is_empty());
    assert!(app.loaded_models.is_empty());
    assert_eq!(app.slot_histories.len(), 0);
    assert!(!app.refreshing);
    assert_eq!(app.last_update, None);
    assert_eq!(app.error, None);
    assert_eq!(app.scroll, 0);
}

#[test]
fn scrolling() {
    let mut app = App::new(String::new());
    app.scroll_up();
    assert_eq!(app.scroll, 0);
    app.scroll_down();
    app.scroll_down();
    assert_eq!(app.scroll, 2);
    app.scroll_up();
    assert_eq!(app.scroll, 1);
    app.set_refreshing(true);
    assert!(app.refreshing);
    assert_eq!(app.scroll, 1);
}

#[test]
fn update_tracks_slots_and_drops_unloaded() {
    let mut app = App::new(String::new());
    app.set_refreshing(true);
    app.update(result(vec![loaded("m1", vec![slot(0, true, Some(1), 0), slot(1, false, None, 0)]), loaded("m2", vec![slot(0, true, Some(9), 3)])], Some("oops")), SEC);
    assert!(!app.refreshing);
    assert_eq!(app.last_update, Some(SEC));
    assert_eq!(app.error.as_deref(), Some("oops"));
    assert_eq!(app.slot_histories.len(), 3);
    assert_eq!(app.all_models.len(), 1);

    app.update(result(vec![loaded("m1", vec![slot(0, true, Some(2), 0), slot(1, false, None, 0)])], None), 2 * SEC);
    assert_eq!(app.error, None);
    assert_eq!(app.slot_histories.len(), 2);
    assert!(app.slot_in_prefill("m1", 0));
    assert!(!app.slot_in_prefill("m1", 1));
    assert!(!app.slot_in_prefill("m2", 0));
    assert_eq!(app.slot_tps("m2", 0), Rate::zero());

    app.update(result(vec![loaded("m1", vec![slot(0, true, Some(2), 40), slot(1, false, None, 0)])], None), 4 * SEC);
    assert!(!app.slot_in_prefill("m1", 0));
    assert_eq!(app.slot_tps("m1", 0), Rate { tokens: 40, nanos: 2 * SEC });
    assert_eq!(app.tps_history("m1", 0).len(), 2);
    assert!(app.tps_history("m9", 0).is_empty());
    // only the processing slot 0 counts; slot 1 is idle
    assert_eq!(app.model_tps("m1"), vec![Rate { tokens: 40, nanos: 2 * SEC }]);
    assert!(app.model_tps("m2").is_empty());
}

#[test]
fn model_tps_history_steps() {
    let mut app = App::new(String::new());
    assert_eq!(app.model_tps_history("m1").len(), HISTORY_LEN);
    assert!(app.model_tps_history("m1").iter().all(|c| c.is_empty()));
    app.update(result(vec![loaded("m1", vec![slot(0, true, Some(1), 0)])], None), SEC);
    app.update(result(vec![loaded("m1", vec![slot(0, true, Some(1), 10), slot(1, true, Some(2), 0)])], None), 2 * SEC);
    app.update(result(vec![loaded("m1", vec![slot(0, true, Some(1), 30), slot(1, true, Some(2), 4)])], None), 3 * SEC);
    // slot 0 has 2 samples, slot 1 has 1; windows align on their newest sample
    let cols = app.model_tps_history("m1");
    assert_eq!(cols.len(), 2);
    assert_eq!(cols[0], vec![Rate { tokens: 10, nanos: SEC }]);
    assert_eq!(cols[1], vec![Rate { tokens: 20, nanos: SEC }, Rate { tokens: 4, nanos: SEC }]);
}

#[test]
fn model_tps_history_uses_longest_window() {
    let mut app = App::new(String::new());
    // slot 1 is seen first, slot 0 later: the longest window sets the steps
    app.update(result(vec![loaded("m1", vec![slot(1, true, Some(1), 0)])], None), SEC);
    app.update(result(vec![loaded("m1", vec![slot(1, true, Some(1), 3)])], None), 2 * SEC);
    app.update(result(vec![loaded("m1", vec![slot(0, true, Some(2), 0), slot(1, true, Some(1), 5)])], None), 3 * SEC);
    app.update(result(vec![loaded("m1", vec![slot(0, true, Some(2), 7), slot(1, true, Some(1), 9)])], None), 4 * SEC);
    let cols = app.model_tps_history("m1");
    assert_eq!(cols.len(), 3);
    assert_eq!(cols[0], vec![Rate { tokens: 3, nanos: SEC }]);
    assert_eq!(cols[1], vec![Rate { tokens: 2, nanos: SEC }]);
    assert_eq!(cols[2], vec![Rate { tokens: 4, nanos: SEC }, Rate { tokens: 7, nanos: SEC }]);
}

#[test]
fn slot_counts() {
    let mut app = App::new(String::new());
    app.update(result(vec![loaded("m1", vec![slot(0, true, Some(1), 0), slot(1, false, None, 0), slot(2, true, Some(3), 0)])], None), SEC);
    assert_eq!(app.active_slot_count("m1"), 2);
    assert_eq!(app.total_slot_count("m1"), 3);
    assert_eq!(app.active_slot_count("m2"), 0);
    assert_eq!(app.total_slot_count("m2"), 0);
    assert!(app.loaded_model("m1").is_some());
    assert!(app.loaded_model("m2").is_none());
}

#[test]
fn duplicate_slot_reports_update_twice() {
    let mut app = App::new(String::new());
    app.update(result(vec![loaded("m1", vec![slot(0, true, Some(1), 0), slot(0, true, Some(1), 5)])], None), SEC);
    assert_eq!(app.slot_histories.len(), 1);
    let e = app.slot_histories.entry(0);
    assert_eq!(e.history.last_n_decoded, 5);
}
