//! The decisions of the requestor: reading the command line, the seeds and the
//! overrides, planning the requests, and building the names and texts of a result.
//! The program around them reads input, talks to the server and writes files.

use crate::path::quote_text;
use crate::stringops::{
    between, count, index_of, lemma_index_of_bounds, spec_between, spec_index_of, spec_substring,
    substring,
};
use crate::types::{parse_in_range_spec, str_to_i32, str_to_i64};
use crate::unicode::{
    glen, seg_facts, spec_graphemes, spec_str_trim, spec_to_lowercase, strings_view, to_lowercase,
    trim_whitespace,
};
use base64::Engine;
use vstd::prelude::*;

verus! {

/// Whether the lower-case mapping of `s` is `word`.
fn lower_is(s: &String, word: &str) -> (r: bool)
    ensures
        r == (spec_to_lowercase(s@) == word@),
{
    let l = to_lowercase(s.as_str());
    l == String::from_str(word)
}

/// What the command line asks for.
#[derive(Debug, PartialEq, Eq)]
pub enum StartPlan {
    /// `-h`: print the help.
    Help,
    /// The first argument is neither "repeat" nor "norepeat".
    BadMode,
    /// The third argument is not a positive `i32`.
    BadCount,
    /// Run, repeating or not, with the prompt and amount given (empty and 0 when missing);
    /// `header` when there were no arguments at all.
    Run { repeat: bool, prompt: String, count: i32, header: bool },
}

pub open spec fn lit_help() -> Seq<char> {
    seq!['-', 'h']
}

pub open spec fn lit_repeat() -> Seq<char> {
    seq!['r', 'e', 'p', 'e', 'a', 't']
}

pub open spec fn lit_norepeat() -> Seq<char> {
    seq!['n', 'o', 'r', 'e', 'p', 'e', 'a', 't']
}

/// The plan for the arguments (the program name removed): `-h` asks for help; otherwise the
/// first argument picks repeating, the second is the prompt, the third the amount.
pub open spec fn spec_plan_start(args: Seq<Seq<char>>) -> (bool, bool, bool, bool, Seq<char>, int, bool) {
    // (help, bad_mode, bad_count, repeat, prompt, count, header)
    if args.len() > 0 && spec_to_lowercase(args[0]) == lit_help() {
        (true, false, false, false, Seq::empty(), 0, false)
    } else if args.len() > 0 && spec_to_lowercase(args[0]) != lit_repeat() && spec_to_lowercase(args[0])
        != lit_norepeat() {
        (false, true, false, false, Seq::empty(), 0, false)
    } else {
        let repeat = args.len() > 0 && spec_to_lowercase(args[0]) == lit_repeat();
        let prompt = if args.len() > 1 {
            args[1]
        } else {
            Seq::empty()
        };
        if args.len() > 2 {
            match parse_in_range_spec(args[2], true, i32::MIN as int, i32::MAX as int) {
                Some(v) => if v > 0 {
                    (false, false, false, repeat, prompt, v, args.len() == 0)
                } else {
                    (false, false, true, false, Seq::empty(), 0, false)
                },
                None => (false, false, true, false, Seq::empty(), 0, false),
            }
        } else {
            (false, false, false, repeat, prompt, 0, args.len() == 0)
        }
    }
}

pub open spec fn plan_view(p: StartPlan) -> (bool, bool, bool, bool, Seq<char>, int, bool) {
    match p {
        StartPlan::Help => (true, false, false, false, Seq::empty(), 0, false),
        StartPlan::BadMode => (false, true, false, false, Seq::empty(), 0, false),
        StartPlan::BadCount => (false, false, true, false, Seq::empty(), 0, false),
        StartPlan::Run { repeat, prompt, count, header } => (
            false,
            false,
            false,
            repeat,
            prompt@,
            count as int,
            header,
        ),
    }
}

/// Reads the command line (without the program name).
pub fn plan_start(args: &Vec<String>) -> (r: StartPlan)
    ensures
        plan_view(r) == spec_plan_start(strings_view(args@)),
{
    let ghost a = strings_view(args@);
    if args.len() > 0 {
        assert(args@[0]@ == a[0]);
    }
    if args.len() > 1 {
        assert(args@[1]@ == a[1]);
    }
    if args.len() > 2 {
        assert(args@[2]@ == a[2]);
    }
    proof {
        reveal_strlit("-h");
        reveal_strlit("repeat");
        reveal_strlit("norepeat");
        assert("-h"@ =~= lit_help());
        assert("repeat"@ =~= lit_repeat());
        assert("norepeat"@ =~= lit_norepeat());
    }
    if args.len() > 0 && lower_is(&args[0], "-h") {
        return StartPlan::Help;
    }
    let header = args.len() == 0;
    let mut repeat = false;
    if args.len() > 0 {
        if lower_is(&args[0], "repeat") {
            repeat = true;
        } else if lower_is(&args[0], "norepeat") {
            repeat = false;
        } else {
            return StartPlan::BadMode;
        }
    }
    let mut prompt = String::new();
    if args.len() > 1 {
        prompt = args[1].clone();
    }
    let mut count: i32 = 0;
    if args.len() > 2 {
        let (b, r) = str_to_i32(args[2].clone());
        if b == false || (b && r <= 0) {
            return StartPlan::BadCount;
        } else {
            count = r;
        }
    }
    StartPlan::Run { repeat, prompt, count, header }
}

/// The seed range of the configuration, as the usage text describes it: each of
/// "seed_start" and "seed_end" is its own text's value when that parses as a non-negative
/// `i64`, and -1 (no range) when it is negative, missing or no number.
pub open spec fn spec_config_seeds(start_text: Seq<char>, end_text: Seq<char>) -> (int, int) {
    let seed_start = match seed_value(start_text) {
        Some(v) => v,
        None => -1,
    };
    let seed_end = match seed_value(end_text) {
        Some(v) => v,
        None => -1,
    };
    (seed_start, seed_end)
}

/// The seed range read from the configuration's "seed_start" and "seed_end" texts.
pub fn config_seeds(seed_start_str: String, seed_end_str: String) -> (r: (i64, i64))
    ensures
        (r.0 as int, r.1 as int) == spec_config_seeds(seed_start_str@, seed_end_str@),
{
    let mut seed_start: i64 = -1;
    let mut seed_end: i64 = -1;
    let (b, r) = str_to_i64(seed_start_str);
    if b && r >= 0 {
        seed_start = r;
    }
    let (b2, r2) = str_to_i64(seed_end_str);
    if b2 && r2 >= 0 {
        seed_end = r2;
    }
    (seed_start, seed_end)
}

/// The settings that arguments can override.
#[derive(Debug, PartialEq, Eq)]
pub struct Settings {
    pub model: String,
    pub url: String,
    pub output_path: String,
    pub seed_start: i64,
    pub seed_end: i64,
}

impl View for Settings {
    type V = (Seq<char>, Seq<char>, Seq<char>, i64, i64);

    open spec fn view(&self) -> Self::V {
        (self.model@, self.url@, self.output_path@, self.seed_start, self.seed_end)
    }
}

/// What the override arguments ask for, in order. Positions are those of the argument
/// that names the setting; its value is the argument after it.
#[derive(Debug, Clone, Copy, PartialEq, Eq)]
pub enum OverrideEvent {
    /// "seed_start" with a value that is negative or not an `i64`.
    SeedStartRejected,
    /// "seed_end" with a value that is negative or not an `i64`.
    SeedEndRejected,
    /// Set the configuration entry named at this position to the value after it.
    SetValue(usize),
    /// The configuration has no entry with the name at this position; reading stops.
    UnknownKey(usize),
}

pub open spec fn lit_model() -> Seq<char> {
    seq!['m', 'o', 'd', 'e', 'l']
}

pub open spec fn lit_url() -> Seq<char> {
    seq!['u', 'r', 'l']
}

pub open spec fn lit_output_path() -> Seq<char> {
    seq!['o', 'u', 't', 'p', 'u', 't', '_', 'p', 'a', 't', 'h']
}

pub open spec fn lit_seed_start() -> Seq<char> {
    seq!['s', 'e', 'e', 'd', '_', 's', 't', 'a', 'r', 't']
}

pub open spec fn lit_seed_end() -> Seq<char> {
    seq!['s', 'e', 'e', 'd', '_', 'e', 'n', 'd']
}

/// A seed override: the value when it parses as a non-negative `i64`.
pub open spec fn seed_value(v: Seq<char>) -> Option<int> {
    match parse_in_range_spec(v, true, i64::MIN as int, i64::MAX as int) {
        Some(x) => if x >= 0 {
            Some(x)
        } else {
            None
        },
        None => None,
    }
}

/// Reads the override arguments from position `x` on, as key-value pairs; the names
/// "model", "url", "output_path", "seed_start" and "seed_end" (in any case) set the
/// settings, and any other name must be a key of the configuration.
pub open spec fn overrides_from(
    args: Seq<Seq<char>>,
    keys: Seq<Seq<char>>,
    x: int,
    st: (Seq<char>, Seq<char>, Seq<char>, i64, i64),
    events: Seq<OverrideEvent>,
) -> ((Seq<char>, Seq<char>, Seq<char>, i64, i64), Seq<OverrideEvent>)
    decreases args.len() + 1 - x,
{
    if x < 0 || x >= args.len() {
        (st, events)
    } else {
        let key = args[x];
        let lk = spec_to_lowercase(key);
        let has_value = x + 1 < args.len();
        if lk == lit_model() && has_value {
            overrides_from(args, keys, x + 2, (args[x + 1], st.1, st.2, st.3, st.4), events)
        } else if lk == lit_url() && has_value {
            overrides_from(args, keys, x + 2, (st.0, args[x + 1], st.2, st.3, st.4), events)
        } else if lk == lit_output_path() && has_value {
            overrides_from(args, keys, x + 2, (st.0, st.1, args[x + 1], st.3, st.4), events)
        } else if lk == lit_seed_start() && has_value {
            match seed_value(args[x + 1]) {
                Some(v) => overrides_from(args, keys, x + 2, (st.0, st.1, st.2, v as i64, st.4), events),
                None => overrides_from(args, keys, x + 2, st, events.push(OverrideEvent::SeedStartRejected)),
            }
        } else if lk == lit_seed_end() && has_value {
            match seed_value(args[x + 1]) {
                Some(v) => overrides_from(args, keys, x + 2, (st.0, st.1, st.2, st.3, v as i64), events),
                None => overrides_from(args, keys, x + 2, st, events.push(OverrideEvent::SeedEndRejected)),
            }
        } else if has_value {
            if keys.contains(key) {
                overrides_from(args, keys, x + 2, st, events.push(OverrideEvent::SetValue(x as usize)))
            } else {
                (st, events.push(OverrideEvent::UnknownKey(x as usize)))
            }
        } else {
            overrides_from(args, keys, x + 2, st, events)
        }
    }
}

/// Whether `keys` holds `key`.
fn has_key(keys: &Vec<String>, key: &String) -> (r: bool)
    ensures
        r == strings_view(keys@).contains(key@),
{
    let mut i: usize = 0;
    while i < keys.len()
        invariant
            0 <= i <= keys.len(),
            forall|k: int| 0 <= k < i ==> keys@[k]@ != key@,
        decreases keys.len() - i,
    {
        if keys[i] == *key {
            assert(strings_view(keys@)[i as int] == key@);
            return true;
        }
        i += 1;
    }
    assert forall|k: int| 0 <= k < strings_view(keys@).len() implies strings_view(keys@)[k] != key@ by {
        assert(strings_view(keys@)[k] == keys@[k]@);
    }
    false
}

/// Applies the override arguments to the settings; `config_keys` are the keys of the
/// configuration. The events say what to report and which configuration entries to set,
/// in order.
pub fn apply_overrides(args: &Vec<String>, config_keys: &Vec<String>, settings: Settings) -> (r: (
    Settings,
    Vec<OverrideEvent>,
))
    ensures
        (r.0@, r.1@) == overrides_from(
            strings_view(args@),
            strings_view(config_keys@),
            0,
            settings@,
            Seq::empty(),
        ),
{
    let ghost a = strings_view(args@);
    let ghost kv = strings_view(config_keys@);
    let mut st = settings;
    let mut events: Vec<OverrideEvent> = Vec::new();
    let mut x: usize = 0;
    proof {
        reveal_strlit("model");
        reveal_strlit("url");
        reveal_strlit("output_path");
        reveal_strlit("seed_start");
        reveal_strlit("seed_end");
        assert("model"@ =~= lit_model());
        assert("url"@ =~= lit_url());
        assert("output_path"@ =~= lit_output_path());
        assert("seed_start"@ =~= lit_seed_start());
        assert("seed_end"@ =~= lit_seed_end());
    }
    while x < args.len()
        invariant
            a == strings_view(args@),
            kv == strings_view(config_keys@),
            "model"@ == lit_model(),
            "url"@ == lit_url(),
            "output_path"@ == lit_output_path(),
            "seed_start"@ == lit_seed_start(),
            "seed_end"@ == lit_seed_end(),
            x <= args.len(),
            overrides_from(a, kv, x as int, st@, events@) == overrides_from(
                a,
                kv,
                0,
                settings@,
                Seq::empty(),
            ),
        decreases args.len() - x,
    {
        let key = &args[x];
        assert(key@ == a[x as int]);
        let has_value = x + 1 < args.len();
        if has_value {
            assert(args@[x + 1]@ == a[x + 1]);
        }
        if lower_is(key, "model") && has_value {
            st.model = args[x + 1].clone();
            x = x + 2;
            continue;
        } else if lower_is(key, "url") && has_value {
            st.url = args[x + 1].clone();
            x = x + 2;
            continue;
        } else if lower_is(key, "output_path") && has_value {
            st.output_path = args[x + 1].clone();
            x = x + 2;
            continue;
        } else if lower_is(key, "seed_start") && has_value {
            let (b, r) = str_to_i64(args[x + 1].clone());
            if (b && r < 0) || b == false {
                events.push(OverrideEvent::SeedStartRejected);
            } else {
                st.seed_start = r;
            }
            x = x + 2;
            continue;
        } else if lower_is(key, "seed_end") && has_value {
            let (b, r) = str_to_i64(args[x + 1].clone());
            if (b && r < 0) || b == false {
                events.push(OverrideEvent::SeedEndRejected);
            } else {
                st.seed_end = r;
            }
            x = x + 2;
            continue;
        } else {
            if has_value {
                if has_key(config_keys, key) {
                    events.push(OverrideEvent::SetValue(x));
                } else {
                    events.push(OverrideEvent::UnknownKey(x));
                    return (st, events);
                }
            }
        }
        if has_value {
            x = x + 2;
        } else {
            assert(overrides_from(a, kv, x + 2, st@, events@) == (st@, events@));
            assert(overrides_from(a, kv, args.len() as int, st@, events@) == (st@, events@));
            x = args.len();
        }
    }
    (st, events)
}

/// The server's text-to-image endpoint: `url` followed by "/sdapi/v1/txt2img".
pub fn txt2img_endpoint(url: &String) -> (r: String)
    ensures
        r@ == url@ + "/sdapi/v1/txt2img"@,
{
    url.clone().concat("/sdapi/v1/txt2img")
}

/// The server's options endpoint, where the model is read and changed: `url` followed by
/// "/sdapi/v1/options".
pub fn options_endpoint(url: &String) -> (r: String)
    ensures
        r@ == url@ + "/sdapi/v1/options"@,
{
    url.clone().concat("/sdapi/v1/options")
}

/// The configuration file of a program: its name followed by ".json".
pub fn config_file_name(prog_name: &String) -> (r: String)
    ensures
        r@ == prog_name@ + ".json"@,
{
    prog_name.clone().concat(".json")
}

/// What the requestor does next in its prompt loop.
#[derive(Debug, Clone, Copy, PartialEq, Eq)]
pub enum RoundAction {
    /// No more rounds: the first one is over and the run does not repeat.
    Stop,
    /// Ask for a prompt on the input.
    ReadPrompt,
    /// The prompt is a bare line ending: the run ends.
    End,
    /// Ask for the amount of images on the input.
    ReadAmount,
    /// Make the requests of this round.
    Run,
}

/// The next step of a round: rounds go on while it is the first one or the run repeats;
/// an empty prompt not yet asked for is read; a prompt that is just the line ending ends the
/// run; an amount below 1 is read; otherwise the round's requests are made.
pub open spec fn spec_next_round(
    first: bool,
    repeat: bool,
    prompt: Seq<char>,
    prompt_read: bool,
    line_end: Seq<char>,
    count: i32,
) -> RoundAction {
    if !(first || repeat) {
        RoundAction::Stop
    } else if prompt.len() == 0 && !prompt_read {
        RoundAction::ReadPrompt
    } else if prompt == line_end {
        RoundAction::End
    } else if count <= 0 {
        RoundAction::ReadAmount
    } else {
        RoundAction::Run
    }
}

/// Decides the next step of the prompt loop; `prompt_read` tells that the prompt of this
/// round was already asked for, and `line_end` is the platform's line ending (`enter`).
pub fn next_round(
    first: bool,
    repeat: bool,
    prompt: &String,
    prompt_read: bool,
    line_end: &String,
    count: i32,
) -> (r: RoundAction)
    ensures
        r == spec_next_round(first, repeat, prompt@, prompt_read, line_end@, count),
{
    if !(first || repeat) {
        RoundAction::Stop
    } else if prompt.as_str().unicode_len() == 0 && !prompt_read {
        RoundAction::ReadPrompt
    } else if *prompt == *line_end {
        RoundAction::End
    } else if count <= 0 {
        RoundAction::ReadAmount
    } else {
        RoundAction::Run
    }
}

/// The amount typed on a line: the line without surrounding whitespace, when it parses as
/// a positive `i32`.
pub open spec fn spec_amount_from_line(line: Seq<char>) -> Option<int> {
    match parse_in_range_spec(spec_str_trim(line), true, i32::MIN as int, i32::MAX as int) {
        Some(v) => if v > 0 {
            Some(v)
        } else {
            None
        },
        None => None,
    }
}

/// Reads the amount of images from a line typed on the input; `None` when it is no
/// positive `i32`.
pub fn amount_from_line(line: &String) -> (r: Option<i32>)
    ensures
        match r {
            Some(n) => spec_amount_from_line(line@) == Some(n as int),
            None => spec_amount_from_line(line@) is None,
        },
{
    let t = trim_whitespace(line.as_str());
    let (b, n) = str_to_i32(t);
    if b && n > 0 {
        Some(n)
    } else {
        None
    }
}

/// Both seeds are set and the start comes after the end: the run stops.
pub fn seeds_conflict(seed_start: i64, seed_end: i64) -> (r: bool)
    ensures
        r == (seed_start != -1 && seed_end != -1 && seed_start > seed_end),
{
    seed_start != -1 && seed_end != -1 && seed_start > seed_end
}

/// Whether a configuration entry goes into the request body: all but "output_path",
/// "model" and "url".
pub fn is_payload_key(key: &String) -> (r: bool)
    ensures
        r == (key@ != lit_output_path() && key@ != lit_model() && key@ != lit_url()),
{
    proof {
        reveal_strlit("model");
        reveal_strlit("url");
        reveal_strlit("output_path");
        assert("model"@ =~= lit_model());
        assert("url"@ =~= lit_url());
        assert("output_path"@ =~= lit_output_path());
    }
    *key != String::from_str("output_path") && *key != String::from_str("model") && *key
        != String::from_str("url")
}

/// The requests of one run.
#[derive(Debug, Clone, Copy, PartialEq, Eq)]
pub enum RequestPlan {
    /// One request per seed from the start seed to the end seed, both included.
    SeedRange(i64, i64),
    /// This many requests with the configured seed.
    Repeat(i32),
}

/// With at least one request asked for, a seed range `0 <= start <= end` gives one request
/// per seed; otherwise `count` requests are made (none for a count below 1).
pub open spec fn spec_request_plan(count: i32, seed_start: i64, seed_end: i64) -> RequestPlan {
    if count >= 1 && 0 <= seed_start && seed_start <= seed_end {
        RequestPlan::SeedRange(seed_start, seed_end)
    } else if count >= 1 {
        RequestPlan::Repeat(count)
    } else {
        RequestPlan::Repeat(0)
    }
}

/// The requests of a run (see `spec_request_plan`).
pub fn request_plan(count: i32, seed_start: i64, seed_end: i64) -> (r: RequestPlan)
    ensures
        r == spec_request_plan(count, seed_start, seed_end),
{
    if count >= 1 && seed_start >= 0 && seed_start <= seed_end {
        RequestPlan::SeedRange(seed_start, seed_end)
    } else if count >= 1 {
        RequestPlan::Repeat(count)
    } else {
        RequestPlan::Repeat(0)
    }
}

/// Whether the lower-case mapping of `v` is "true" (`Some(true)`) or "false"
/// (`Some(false)`); `None` otherwise.
pub fn parse_bool(v: &String) -> (r: Option<bool>)
    ensures
        r == (if spec_to_lowercase(v@) == seq!['t', 'r', 'u', 'e'] {
            Some(true)
        } else if spec_to_lowercase(v@) == seq!['f', 'a', 'l', 's', 'e'] {
            Some(false)
        } else {
            None
        }),
{
    proof {
        reveal_strlit("true");
        reveal_strlit("false");
        assert("true"@ =~= seq!['t', 'r', 'u', 'e']);
        assert("false"@ =~= seq!['f', 'a', 'l', 's', 'e']);
    }
    if lower_is(v, "true") {
        Some(true)
    } else if lower_is(v, "false") {
        Some(false)
    } else {
        None
    }
}


/// The text after `start` in `s` up to the nearest following ",", ")" or "\n" (found by
/// cluster from the cluster after the text's first); "" when there is no such end.
pub open spec fn spec_info_field(s: Seq<char>, start: Seq<char>) -> Seq<char> {
    let c = glen(start);
    let i0 = spec_index_of(s, start, 0, false);
    let i = if i0 != -1 {
        i0 + c
    } else {
        i0
    };
    let j0 = spec_index_of(s, ","@, i + 1, false);
    let k = spec_index_of(s, ")"@, i + 1, false);
    let l = spec_index_of(s, "\n"@, i + 1, false);
    let j1 = if (k < j0 && k != -1) || j0 == -1 {
        k
    } else {
        j0
    };
    let j = if (l < j1 && l != -1) || j1 == -1 {
        l
    } else {
        j1
    };
    if j != -1 {
        spec_substring(s, i, j - i)
    } else {
        Seq::empty()
    }
}

/// One field of a generation's info text, such as the value after "Seed: ".
pub fn info_field(str: &String, start: String) -> (r: String)
    requires
        str@.len() < i32::MAX,
    ensures
        r@ == spec_info_field(str@, start@),
{
    let mut result = String::new();
    let c = count(&start);
    let mut i = index_of(str, start.clone(), 0, false);
    proof {
        lemma_index_of_bounds(false, spec_graphemes(str@), spec_graphemes(start@), 0);
    }
    if i != -1 {
        i = i + c;
    }
    let comma = String::from_str(",");
    let paren = String::from_str(")");
    let newline = String::from_str("\n");
    let mut j = index_of(str, comma, i + 1, false);
    let k = index_of(str, paren, i + 1, false);
    let l = index_of(str, newline, i + 1, false);
    proof {
        lemma_index_of_bounds(false, spec_graphemes(str@), spec_graphemes(","@), i + 1);
        lemma_index_of_bounds(false, spec_graphemes(str@), spec_graphemes(")"@), i + 1);
        lemma_index_of_bounds(false, spec_graphemes(str@), spec_graphemes("\n"@), i + 1);
    }
    if (k < j && k != -1) || j == -1 {
        j = k;
    }
    if (l < j && l != -1) || j == -1 {
        j = l;
    }
    if j != -1 {
        result = substring(str, i, j - i);
    }
    result
}

pub open spec fn spec_infotext(info: Seq<char>) -> Seq<char> {
    let vs = spec_between(info, "\"infotexts\": [\""@, "\"],"@, 1, false);
    if vs.len() > 0 {
        " ("@ + vs[0] + ")"@
    } else {
        Seq::empty()
    }
}

/// The first entry of the "infotexts" list in a generation's info, as " (entry)"; "" when
/// there is none.
pub fn infotext_of(info: &String) -> (r: String)
    ensures
        r@ == spec_infotext(info@),
{
    let vs = between(info, String::from_str("\"infotexts\": [\""), String::from_str("\"],"), 1, false);
    if vs.len() > 0 {
        assert(strings_view(vs@)[0] == vs@[0]@);
        String::from_str(" (").concat(vs[0].as_str()).concat(")")
    } else {
        String::new()
    }
}

pub open spec fn spec_image_prompt(prompt: Seq<char>, infotext: Seq<char>) -> Seq<char> {
    prompt + " (seed="@ + spec_info_field(infotext, "Seed: "@) + ",steps="@ + spec_info_field(
        infotext,
        "Steps: "@,
    ) + ",cfg_scale="@ + spec_info_field(infotext, "CFG scale: "@) + ",model="@ + spec_info_field(
        infotext,
        "Model: "@,
    ) + ",sampler="@ + spec_info_field(infotext, "Sampler: "@) + ")"@
}

/// The prompt with the seed, steps, scale, model and sampler read from the info text.
pub fn image_prompt(arg_prompt: &String, infotext: &String) -> (r: String)
    requires
        infotext@.len() < i32::MAX,
    ensures
        r@ == spec_image_prompt(arg_prompt@, infotext@),
{
    let samplerx = info_field(infotext, String::from_str("Sampler: "));
    let steps = info_field(infotext, String::from_str("Steps: "));
    let seed = info_field(infotext, String::from_str("Seed: "));
    let cfg_scale = info_field(infotext, String::from_str("CFG scale: "));
    let modelx = info_field(infotext, String::from_str("Model: "));
    arg_prompt.clone().concat(" (seed=").concat(seed.as_str()).concat(",steps=").concat(steps.as_str()).concat(
        ",cfg_scale=",
    ).concat(cfg_scale.as_str()).concat(",model=").concat(modelx.as_str()).concat(",sampler=").concat(
        samplerx.as_str(),
    ).concat(")")
}

pub open spec fn spec_strip_data_prefix(b: Seq<char>) -> Seq<char> {
    let i = spec_index_of(b, ","@, 0, false);
    if i >= 0 {
        spec_substring(b, i + 1, glen(b) - i - 1)
    } else {
        b
    }
}

/// The position of the first entry of `items` that is a text, or -1.
pub open spec fn first_text(items: Seq<Option<String>>) -> int
    decreases items.len(),
{
    if items.len() == 0 {
        -1
    } else if items[0] is Some {
        0
    } else {
        let r = first_text(items.drop_first());
        if r == -1 {
            -1
        } else {
            r + 1
        }
    }
}

proof fn lemma_first_text(items: Seq<Option<String>>, i: int)
    requires
        0 <= i <= items.len(),
        forall|j: int| 0 <= j < i ==> items[j] is None,
    ensures
        first_text(items) == (if first_text(items.skip(i)) == -1 {
            -1
        } else {
            first_text(items.skip(i)) + i
        }),
        -1 <= first_text(items.skip(i)),
    decreases i,
{
    lemma_first_text_range(items.skip(i));
    if i > 0 {
        assert(items[0] is None);
        let r = items.drop_first();
        assert forall|j: int| 0 <= j < i - 1 implies r[j] is None by {
            assert(r[j] == items[j + 1]);
        }
        lemma_first_text(r, i - 1);
        assert(r.skip(i - 1) =~= items.skip(i));
    } else {
        assert(items.skip(0) =~= items);
    }
}

proof fn lemma_first_text_range(items: Seq<Option<String>>)
    ensures
        -1 <= first_text(items) < items.len(),
    decreases items.len(),
{
    if items.len() > 0 {
        lemma_first_text_range(items.drop_first());
    }
}

/// Which of the images in a reply is saved: the first entry that is a text (the entries
/// before it are reported as unreadable); `None` when no entry is a text.
pub fn image_to_save(items: &Vec<Option<String>>) -> (r: Option<usize>)
    ensures
        match r {
            Some(k) => first_text(items@) == k as int,
            None => first_text(items@) == -1,
        },
{
    let mut i: usize = 0;
    while i < items.len()
        invariant
            0 <= i <= items@.len(),
            forall|j: int| 0 <= j < i ==> items@[j] is None,
        decreases items.len() - i,
    {
        if items[i].is_some() {
            proof {
                lemma_first_text(items@, i as int);
                assert(items@.skip(i as int)[0] == items@[i as int]);
            }
            return Some(i);
        }
        i += 1;
    }
    proof {
        lemma_first_text(items@, i as int);
        assert(items@.skip(i as int).len() == 0);
    }
    None
}

/// The image data after the first "," (a "data:image/png;base64," header), or all of it.
pub fn strip_data_prefix(base64: String) -> (r: String)
    requires
        base64@.len() <= i32::MAX,
    ensures
        r@ == spec_strip_data_prefix(base64@),
{
    let i = index_of(&base64, String::from_str(","), 0, false);
    proof {
        lemma_index_of_bounds(false, spec_graphemes(base64@), spec_graphemes(","@), 0);
    }
    if i >= 0 {
        let c = count(&base64);
        return substring(&base64, i + 1, c - i - 1);
    }
    base64
}

/// What the standard base64 engine's `decode` returns: the bytes, or `None` for an error.
pub uninterp spec fn spec_base64_decode(s: Seq<char>) -> Option<Seq<u8>>;

/// Calls `base64::engine::general_purpose::STANDARD.decode`. Trusted: the result is the
/// named decoding of `s`.
#[verifier::external_body]
fn base64_decode(s: &str) -> (r: Option<Vec<u8>>)
    ensures
        match r {
            Some(v) => spec_base64_decode(s@) == Some(v@),
            None => spec_base64_decode(s@) is None,
        },
{
    match base64::engine::general_purpose::STANDARD.decode(s) {
        Ok(v) => Some(v),
        Err(_) => None,
    }
}

/// The bytes of an image sent as base64 text, with any header up to the first "," removed.
pub fn decode_image(base64: String) -> (r: Option<Vec<u8>>)
    requires
        base64@.len() <= i32::MAX,
    ensures
        match r {
            Some(v) => spec_base64_decode(spec_strip_data_prefix(base64@)) == Some(v@),
            None => spec_base64_decode(spec_strip_data_prefix(base64@)) is None,
        },
{
    let payload = strip_data_prefix(base64);
    base64_decode(payload.as_str())
}

/// A character that `sanitize_filename` always removes: one of `/ ? < > \ : * | "`.
pub open spec fn is_illegal_in_name(c: char) -> bool {
    c == '/' || c == '?' || c == '<' || c == '>' || c == '\\' || c == ':' || c == '*' || c == '|' || c
        == '"'
}

/// A control character that `sanitize_filename` always removes.
pub open spec fn is_control_in_name(c: char) -> bool {
    (c as u32) <= 0x1f || (0x80 <= (c as u32) && (c as u32) <= 0x9f)
}

/// `a` is `b` with some characters deleted (greedy matching finds any such deletion).
pub open spec fn is_subsequence(a: Seq<char>, b: Seq<char>) -> bool
    decreases b.len(),
{
    if a.len() == 0 {
        true
    } else if b.len() == 0 {
        false
    } else if a[0] == b[0] {
        is_subsequence(a.drop_first(), b.drop_first())
    } else {
        is_subsequence(a, b.drop_first())
    }
}

/// What holds of a name made safe for a file: no character is one of `/ ? < > \ : * | "`
/// or a control character, it keeps characters of `name` in order, and it has at most 255
/// characters.
pub open spec fn is_safe_name_of(r: Seq<char>, name: Seq<char>) -> bool {
    &&& forall|k: int| 0 <= k < r.len() ==> !is_illegal_in_name(#[trigger] r[k]) && !is_control_in_name(r[k])
    &&& is_subsequence(r, name)
    &&& r.len() <= 255
}

/// The number of bytes that UTF-8 takes for `c`.
pub open spec fn utf8_char_len(c: char) -> int {
    if (c as u32) < 0x80 {
        1
    } else if (c as u32) < 0x800 {
        2
    } else if (c as u32) < 0x10000 {
        3
    } else {
        4
    }
}

/// The number of bytes that UTF-8 takes for `s`.
pub open spec fn utf8_len(s: Seq<char>) -> int
    decreases s.len(),
{
    if s.len() == 0 {
        0
    } else {
        utf8_len(s.drop_last()) + utf8_char_len(s.last())
    }
}

/// `c` is the ASCII lower-case letter `lower` or its upper-case form.
pub open spec fn ascii_ci_eq(c: char, lower: char) -> bool {
    c == lower || (c as u32) + 32 == (lower as u32)
}

/// The first three characters of `s` are `a`, `b`, `c` in either ASCII case.
pub open spec fn starts_ci(s: Seq<char>, a: char, b: char, c: char) -> bool {
    &&& s.len() >= 3
    &&& ascii_ci_eq(s[0], a)
    &&& ascii_ci_eq(s[1], b)
    &&& ascii_ci_eq(s[2], c)
}

/// `s` begins, in any case, with "con", "prn", "aux", "nul", "com" or "lpt": the stems of
/// the device names that Windows reserves.
pub open spec fn starts_with_device_stem(s: Seq<char>) -> bool {
    ||| starts_ci(s, 'c', 'o', 'n')
    ||| starts_ci(s, 'p', 'r', 'n')
    ||| starts_ci(s, 'a', 'u', 'x')
    ||| starts_ci(s, 'n', 'u', 'l')
    ||| starts_ci(s, 'c', 'o', 'm')
    ||| starts_ci(s, 'l', 'p', 't')
}

/// A name that `sanitize_filename` gives back unchanged on every platform: no character is
/// one it removes, it does not end in "." or " " (so it is not made of dots only), it does
/// not begin with a reserved device stem, and it fits in 255 bytes.
pub open spec fn kept_whole_by_sanitize(name: Seq<char>) -> bool {
    &&& forall|k: int|
        0 <= k < name.len() ==> !is_illegal_in_name(#[trigger] name[k]) && !is_control_in_name(name[k])
    &&& name.len() > 0 ==> name.last() != '.' && name.last() != ' '
    &&& !starts_with_device_stem(name)
    &&& utf8_len(name) <= 255
}

/// `name` with the characters deleted that `sanitize_filename` deletes wherever they stand:
/// `/ ? < > \ : * | "` and the control characters.
pub open spec fn strip_unsafe_chars(name: Seq<char>) -> Seq<char> {
    name.filter(|c: char| !is_illegal_in_name(c) && !is_control_in_name(c))
}

/// Calls `sanitize_filename::sanitize`. Trusted, from the crate's source: it first deletes
/// every one of `/ ? < > \ : * | "` and every control character (`\x00`-`\x1f`,
/// `\x80`-`\x9f`), giving `strip_unsafe_chars(name)`; each later step keeps a prefix of
/// that: it deletes a name made of dots only, or (on Windows builds) a reserved device name,
/// whole; (on Windows builds) it deletes trailing dots and spaces; and it cuts the name to at
/// most 255 bytes at a character boundary. So the result is a prefix of the stripped name
/// that fits in 255 bytes, and it is the whole stripped name when no later step touches it
/// on any platform (`kept_whole_by_sanitize`: the reserved-name pattern, which is
/// case-insensitive, needs one of the stems "con", "prn", "aux", "nul", "com", "lpt" at its
/// start, and these letters fold only to their ASCII upper case). How much of other
/// stripped names is kept depends on the platform the crate is built for and is left
/// unsaid.
#[verifier::external_body]
fn sanitize(name: &str) -> (r: String)
    ensures
        r@.is_prefix_of(strip_unsafe_chars(name@)),
        kept_whole_by_sanitize(strip_unsafe_chars(name@)) ==> r@ == strip_unsafe_chars(name@),
        utf8_len(r@) <= 255,
        is_safe_name_of(r@, name@),
{
    sanitize_filename::sanitize(name)
}

/// The prompt made safe for a file name: the characters that a file name cannot hold are
/// deleted, and of what remains a prefix of at most 255 bytes is kept, all of it when no
/// platform would shorten it further.
pub fn sanitized_prompt(prompt: &String) -> (r: String)
    ensures
        r@.is_prefix_of(strip_unsafe_chars(prompt@)),
        kept_whole_by_sanitize(strip_unsafe_chars(prompt@)) ==> r@ == strip_unsafe_chars(prompt@),
        utf8_len(r@) <= 255,
        is_safe_name_of(r@, prompt@),
{
    sanitize(prompt.as_str())
}

/// The decimal digits of `n`.
pub open spec fn spec_decimal(n: nat) -> Seq<char>
    decreases n,
{
    if n < 10 {
        seq![digit_char(n)]
    } else {
        spec_decimal(n / 10) + seq![digit_char(n % 10)]
    }
}

pub open spec fn digit_char(d: nat) -> char {
    if d == 0 {
        '0'
    } else if d == 1 {
        '1'
    } else if d == 2 {
        '2'
    } else if d == 3 {
        '3'
    } else if d == 4 {
        '4'
    } else if d == 5 {
        '5'
    } else if d == 6 {
        '6'
    } else if d == 7 {
        '7'
    } else if d == 8 {
        '8'
    } else {
        '9'
    }
}

fn digit_text(d: u32) -> (r: String)
    requires
        d < 10,
    ensures
        r@ == seq![digit_char(d as nat)],
{
    let t = if d == 0 {
        "0"
    } else if d == 1 {
        "1"
    } else if d == 2 {
        "2"
    } else if d == 3 {
        "3"
    } else if d == 4 {
        "4"
    } else if d == 5 {
        "5"
    } else if d == 6 {
        "6"
    } else if d == 7 {
        "7"
    } else if d == 8 {
        "8"
    } else {
        "9"
    };
    proof {
        reveal_strlit("0");
        reveal_strlit("1");
        reveal_strlit("2");
        reveal_strlit("3");
        reveal_strlit("4");
        reveal_strlit("5");
        reveal_strlit("6");
        reveal_strlit("7");
        reveal_strlit("8");
        reveal_strlit("9");
    }
    let r = String::from_str(t);
    assert(r@ =~= seq![digit_char(d as nat)]);
    r
}

/// `n` in decimal, as `u64`'s `Display` writes it.
pub fn decimal_u64(n: u64) -> (r: String)
    ensures
        r@ == spec_decimal(n as nat),
    decreases n,
{
    if n < 10 {
        digit_text(n as u32)
    } else {
        decimal_u64(n / 10).concat(digit_text((n % 10) as u32).as_str())
    }
}

/// `n` in decimal, as `u32`'s `Display` writes it.
pub fn decimal(n: u32) -> (r: String)
    ensures
        r@ == spec_decimal(n as nat),
{
    decimal_u64(n as u64)
}

/// `i` in decimal with a leading "-" when negative.
pub open spec fn spec_signed_decimal(i: int) -> Seq<char> {
    if i < 0 {
        seq!['-'] + spec_decimal((-i) as nat)
    } else {
        spec_decimal(i as nat)
    }
}

/// `i` in decimal, as `i64`'s `Display` writes it.
pub fn signed_decimal(i: i64) -> (r: String)
    ensures
        r@ == spec_signed_decimal(i as int),
{
    if i < 0 {
        let magnitude: u64 = if i == i64::MIN {
            9223372036854775808u64
        } else {
            (-i) as u64
        };
        let r = String::from_str("-").concat(decimal_u64(magnitude).as_str());
        proof {
            reveal_strlit("-");
        }
        r
    } else {
        decimal_u64(i as u64)
    }
}

/// The file name of the `i`-th image of a prompt: "output_path/prompt - i.png".
pub fn image_file_name(output_path: &String, prompt: &String, i: u32) -> (r: String)
    ensures
        r@ == output_path@ + "/"@ + prompt@ + " - "@ + spec_decimal(i as nat) + ".png"@,
{
    output_path.clone().concat("/").concat(prompt.as_str()).concat(" - ").concat(decimal(i).as_str()).concat(
        ".png",
    )
}

} // verus!
