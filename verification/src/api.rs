//! What the router reports: its models (`/v1/models`) and, for each loaded
//! model, its slots (`/slots?model=<id>`), and how one refresh's answers are
//! put together.
use vstd::prelude::*;

use crate::text::{chars_of, parse_u16, parse_u16_spec, same_text};

verus! {

broadcast use vstd::string::group_string_axioms;

// ----- the router's model list -----

/// Model metadata (parameter count, size, ...); the router reports it only
/// while the model is loaded.
#[derive(Debug, Clone, Copy, PartialEq, Eq, Structural)]
pub struct ModelMeta {
    pub n_params: Option<u64>,
    /// bytes
    pub size: Option<u64>,
    pub n_ctx_train: Option<u64>,
    pub n_vocab: Option<u32>,
    pub n_embd: Option<u32>,
}

/// A model's state as the router reports it: `"loaded"`, `"unloaded"`,
/// `"loading"` or `"unloading"`, and the arguments of its backend.
#[derive(Debug)]
pub struct RouterModelStatus {
    pub value: String,
    pub args: Vec<String>,
}

/// One entry of the router's model list.
#[derive(Debug)]
pub struct RouterModel {
    pub id: String,
    pub status: RouterModelStatus,
    pub meta: Option<ModelMeta>,
}

/// The answer of the router's `/v1/models`.
#[derive(Debug, Clone)]
pub struct RouterModelsResponse {
    pub data: Vec<RouterModel>,
}

/// The texts of a sequence of strings.
pub open spec fn texts(v: Seq<String>) -> Seq<Seq<char>> {
    v.map_values(|s: String| s@)
}

/// A model entry as plain values.
pub struct RouterModelView {
    pub id: Seq<char>,
    pub status: Seq<char>,
    pub args: Seq<Seq<char>>,
    pub meta: Option<ModelMeta>,
}

impl View for RouterModel {
    type V = RouterModelView;

    open spec fn view(&self) -> RouterModelView {
        RouterModelView {
            id: self.id@,
            status: self.status.value@,
            args: texts(self.status.args@),
            meta: self.meta,
        }
    }
}

/// The views of a sequence of model entries.
pub open spec fn models_view(v: Seq<RouterModel>) -> Seq<RouterModelView> {
    v.map_values(|m: RouterModel| m@)
}

/// The text `--port`.
pub open spec fn port_flag() -> Seq<char> {
    seq!['-', '-', 'p', 'o', 'r', 't']
}

/// The text `loaded`.
pub open spec fn loaded_status() -> Seq<char> {
    seq!['l', 'o', 'a', 'd', 'e', 'd']
}

/// The backend port that a model's arguments name: the arguments are read
/// from the front; `--port` takes the argument after it as its value, and
/// the first value that parses as a nonzero `u16` is the port.
pub open spec fn port_in_args(args: Seq<Seq<char>>) -> Option<u16>
    decreases args.len(),
{
    if args.len() == 0 {
        None
    } else if args[0] == port_flag() {
        if args.len() < 2 {
            None
        } else if parse_u16_spec(args[1]) is Some && parse_u16_spec(args[1])->0 > 0 {
            parse_u16_spec(args[1])
        } else {
            port_in_args(args.subrange(2, args.len() as int))
        }
    } else {
        port_in_args(args.subrange(1, args.len() as int))
    }
}

/// A port comes from the argument right after a `--port` flag, and is
/// never 0.
pub proof fn lemma_port_follows_flag(args: Seq<Seq<char>>)
    ensures
        port_in_args(args) matches Some(p) ==> p > 0 && exists|i: int|
            0 <= i && i + 1 < args.len() && #[trigger] args[i] == port_flag() && parse_u16_spec(args[i + 1])
                == Some(p),
    decreases args.len(),
{
    if args.len() > 0 {
        let skip = if args[0] == port_flag() { 2int } else { 1int };
        if skip <= args.len() {
            let rest = args.subrange(skip, args.len() as int);
            lemma_port_follows_flag(rest);
            if port_in_args(args) is Some && port_in_args(args) == port_in_args(rest) {
                let p = port_in_args(rest)->0;
                let i = choose|i: int|
                    0 <= i && i + 1 < rest.len() && #[trigger] rest[i] == port_flag() && parse_u16_spec(rest[i + 1])
                        == Some(p);
                assert(args[i + skip] == rest[i]);
                assert(args[i + skip + 1] == rest[i + 1]);
            }
        }
        if port_in_args(args) is Some && args[0] == port_flag() && port_in_args(args) == parse_u16_spec(args[1]) {
            assert(args[0] == port_flag());
        }
    }
}

impl Clone for RouterModelStatus {
    fn clone(&self) -> (r: Self)
        ensures
            r.value@ == self.value@,
            texts(r.args@) == texts(self.args@),
    {
        let mut args: Vec<String> = Vec::new();
        let mut i: usize = 0;
        while i < self.args.len()
            invariant
                i <= self.args@.len(),
                args@.len() == i,
                texts(args@) == texts(self.args@).take(i as int),
            decreases self.args@.len() - i,
        {
            let c = self.args[i].clone();
            assert(c@ == self.args@[i as int]@);
            let ghost before = args@;
            args.push(c);
            assert forall|j: int| 0 <= j < i + 1 implies #[trigger] texts(args@)[j] == texts(self.args@)[j] by {
                if j < i {
                    assert(texts(before)[j] == texts(self.args@).take(i as int)[j]);
                }
            }
            assert(texts(args@) =~= texts(self.args@).take(i + 1));
            i = i + 1;
        }
        assert(texts(self.args@).take(i as int) =~= texts(self.args@));
        RouterModelStatus { value: self.value.clone(), args }
    }
}

impl Clone for RouterModel {
    fn clone(&self) -> (r: Self)
        ensures
            r@ == self@,
    {
        RouterModel { id: self.id.clone(), status: self.status.clone(), meta: self.meta }
    }
}

impl RouterModel {
    /// Extract the backend port from the args list: `--port 49341` (display only).
    pub fn port(&self) -> (r: Option<u16>)
        ensures
            r == port_in_args(self@.args),
    {
        let ghost all = texts(self.status.args@);
        let flag = chars_of("--port");
        proof {
            reveal_strlit("--port");
            assert(flag@ =~= port_flag());
        }
        let n = self.status.args.len();
        let mut i: usize = 0;
        assert(all.subrange(0, all.len() as int) =~= all);
        while i < n
            invariant
                n == self.status.args@.len(),
                all == texts(self.status.args@),
                flag@ == port_flag(),
                i <= n + 1,
                port_in_args(all) == port_in_args(
                    all.subrange(if i <= n { i as int } else { n as int }, n as int),
                ),
            decreases n + 1 - i,
        {
            let ghost rest = all.subrange(i as int, n as int);
            let arg = chars_of(self.status.args[i].as_str());
            assert(rest[0] == arg@);
            if same_chars(&arg, &flag) {
                if i + 1 < n {
                    assert(rest[1] == self.status.args@[i + 1]@);
                    let p = parse_u16(self.status.args[i + 1].as_str());
                    match p {
                        Some(v) => {
                            if v > 0 {
                                return Some(v);
                            }
                        },
                        None => {},
                    }
                    assert(rest.subrange(2, rest.len() as int) =~= all.subrange(i + 2, n as int));
                    i = i + 2;
                } else {
                    return None;
                }
            } else {
                assert(rest.subrange(1, rest.len() as int) =~= all.subrange(i + 1, n as int));
                i = i + 1;
            }
        }
        None
    }

    pub fn is_loaded(&self) -> (r: bool)
        ensures
            r == (self@.status == loaded_status()),
    {
        proof {
            reveal_strlit("loaded");
            assert("loaded"@ =~= loaded_status());
        }
        same_text(self.status.value.as_str(), "loaded")
    }
}

/// Whether two character vectors hold the same characters.
pub(crate) fn same_chars(a: &Vec<char>, b: &Vec<char>) -> (r: bool)
    ensures
        r == (a@ == b@),
{
    if a.len() != b.len() {
        return false;
    }
    let mut i: usize = 0;
    while i < a.len()
        invariant
            a@.len() == b@.len(),
            i <= a@.len(),
            forall|j: int| 0 <= j < i ==> a@[j] == b@[j],
        decreases a@.len() - i,
    {
        if a[i] != b[i] {
            return false;
        }
        i = i + 1;
    }
    assert(a@ =~= b@);
    true
}

// ----- slots -----

#[derive(Debug, Clone, Copy, PartialEq, Eq, Structural)]
pub struct SlotNextToken {
    pub n_decoded: u64,
}

/// One slot of a loaded model, as `/slots` reports it.
#[derive(Debug, Clone)]
pub struct Slot {
    pub id: u32,
    pub is_processing: bool,
    pub id_task: Option<i64>,
    pub next_token: Option<Vec<SlotNextToken>>,
}

/// The number of tokens decoded so far, as a slot's report gives it: that
/// of the first `next_token` entry, or 0 where there is none.
pub open spec fn decoded_of(next_token: Option<Seq<SlotNextToken>>) -> u64 {
    match next_token {
        Some(v) => if v.len() > 0 {
            v[0].n_decoded
        } else {
            0
        },
        None => 0,
    }
}

impl Slot {
    /// The slot's `next_token` as plain values.
    pub open spec fn tokens_view(&self) -> Option<Seq<SlotNextToken>> {
        match &self.next_token {
            Some(v) => Some(v@),
            None => None,
        }
    }

    pub fn n_decoded(&self) -> (r: u64)
        ensures
            r == decoded_of(self.tokens_view()),
    {
        match &self.next_token {
            Some(v) => if v.len() > 0 {
                v[0].n_decoded
            } else {
                0
            },
            None => 0,
        }
    }
}

/// A slot as plain values.
pub struct SlotView {
    pub id: u32,
    pub is_processing: bool,
    pub id_task: Option<i64>,
    pub next_token: Option<Seq<SlotNextToken>>,
}

impl View for Slot {
    type V = SlotView;

    open spec fn view(&self) -> SlotView {
        SlotView {
            id: self.id,
            is_processing: self.is_processing,
            id_task: self.id_task,
            next_token: self.tokens_view(),
        }
    }
}

/// The views of a sequence of slots.
pub open spec fn slots_view(v: Seq<Slot>) -> Seq<SlotView> {
    v.map_values(|s: Slot| s@)
}

// ----- one refresh -----

/// A loaded model with the slots fetched for it.
#[derive(Debug, Clone)]
pub struct LoadedModelData {
    pub model_id: String,
    pub port: Option<u16>,
    pub meta: Option<ModelMeta>,
    pub slots: Vec<Slot>,
}

/// A loaded model's data as plain values.
pub struct LoadedModelDataView {
    pub model_id: Seq<char>,
    pub port: Option<u16>,
    pub meta: Option<ModelMeta>,
    pub slots: Seq<SlotView>,
}

impl View for LoadedModelData {
    type V = LoadedModelDataView;

    open spec fn view(&self) -> LoadedModelDataView {
        LoadedModelDataView {
            model_id: self.model_id@,
            port: self.port,
            meta: self.meta,
            slots: slots_view(self.slots@),
        }
    }
}

/// The views of a sequence of loaded models.
pub open spec fn loaded_view(v: Seq<LoadedModelData>) -> Seq<LoadedModelDataView> {
    v.map_values(|m: LoadedModelData| m@)
}

/// Everything one refresh fetched.
#[derive(Debug, Clone)]
pub struct FetchResult {
    pub all_models: Vec<RouterModel>,
    pub loaded: Vec<LoadedModelData>,
    pub error: Option<String>,
}

/// The text of an optional string.
pub open spec fn opt_text(s: Option<String>) -> Option<Seq<char>> {
    match s {
        Some(t) => Some(t@),
        None => None,
    }
}

} // verus!
