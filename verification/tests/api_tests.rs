use llama_monitor::api::{ModelMeta, RouterModel, RouterModelStatus, Slot, SlotNextToken};

fn model(id: &str, status: &str, args: &[&str]) -> RouterModel {
    RouterModel {
        id: id.to_string(),
        status: RouterModelStatus {
            value: status.to_string(),
            args: args.iter().map(|a| a.to_string()).collect(),
        },
        meta: None,
    }
}

#[test]
fn port_reads_the_value_after_the_flag() {
    assert_eq!(model("m", "loaded", &["--port", "49341"]).port(), Some(49341));
    assert_eq!(model("m", "loaded", &["-m", "x.gguf", "--port", "8081", "--ctx", "4096"]).port(), Some(8081));
}

#[test]
fn port_is_none_without_a_usable_value() {
    assert_eq!(model("m", "loaded", &[]).port(), None);
    assert_eq!(model("m", "loaded", &["--port"]).port(), None);
    assert_eq!(model("m", "loaded", &["--port", "0"]).port(), None);
    assert_eq!(model("m", "loaded", &["--port", "70000"]).port(), None);
    assert_eq!(model("m", "loaded", &["--port", "abc"]).port(), None);
    assert_eq!(model("m", "loaded", &["49341"]).port(), None);
}

#[test]
fn port_flag_consumes_its_value() {
    // the second `--port` is the value of the first one, so `80` is no port
    assert_eq!(model("m", "loaded", &["--port", "--port", "80"]).port(), None);
    // a zero port is skipped and a later flag counts
    assert_eq!(model("m", "loaded", &["--port", "0", "--port", "9000"]).port(), Some(9000));
}

#[test]
fn is_loaded_only_for_loaded_status() {
    assert!(model("m", "loaded", &[]).is_loaded());
    assert!(!model("m", "unloaded", &[]).is_loaded());
    assert!(!model("m", "loading", &[]).is_loaded());
    assert!(!model("m", "unloading", &[]).is_loaded());
    assert!(!model("m", "Loaded", &[]).is_loaded());
}

#[test]
fn n_decoded_takes_the_first_token_entry() {
    let mut slot = Slot { id: 0, is_processing: true, id_task: Some(3), next_token: None };
    assert_eq!(slot.n_decoded(), 0);
    slot.next_token = Some(vec![]);
    assert_eq!(slot.n_decoded(), 0);
    slot.next_token = Some(vec![SlotNextToken { n_decoded: 42 }, SlotNextToken { n_decoded: 7 }]);
    assert_eq!(slot.n_decoded(), 42);
}

#[test]
fn clone_keeps_the_model() {
    let mut m = model("org/m", "loaded", &["--port", "1"]);
    m.meta = Some(ModelMeta { n_params: Some(7), size: Some(8), n_ctx_train: None, n_vocab: None, n_embd: Some(2) });
    let c = m.clone();
    assert_eq!(c.id, "org/m");
    assert_eq!(c.status.value, "loaded");
    assert_eq!(c.status.args, vec!["--port".to_string(), "1".to_string()]);
    assert_eq!(c.meta, m.meta);
}
