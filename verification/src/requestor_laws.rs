//! Properties of the requestor's decisions: what the command line, the override arguments
//! and the configuration entries mean, stated over the arguments and entries themselves.

use crate::json::{is_new_value, lookup, spec_get_string, ConfigValue, NewValue};
use crate::sd_req::{
    lit_help, lit_model, lit_norepeat, lit_output_path, lit_repeat, lit_seed_end, lit_seed_start,
    lit_url, overrides_from, seed_value, spec_plan_start, OverrideEvent,
};
use crate::types::parse_in_range_spec;
use crate::unicode::spec_to_lowercase;
use vstd::prelude::*;

verus! {

/// The command line means what the usage text says. "-h" (in any case) asks for help.
/// Otherwise a plan to run is made only when the first argument, if any, is "repeat" or
/// "norepeat" in any case, and then: it repeats exactly when that argument is "repeat" (never
/// for "norepeat", whatever the amount); the prompt is the second argument (empty when
/// missing); the amount is the third argument's positive value (0 when missing); and the
/// header is shown only when there are no arguments.
pub proof fn lemma_plan_reads_arguments(args: Seq<Seq<char>>)
    ensures
        ({
            let p = spec_plan_start(args);
            &&& p.0 == (args.len() > 0 && spec_to_lowercase(args[0]) == lit_help())
            &&& (!p.0 && !p.1 && !p.2) ==> {
                &&& p.3 == (args.len() > 0 && spec_to_lowercase(args[0]) == lit_repeat())
                &&& (args.len() > 0 && spec_to_lowercase(args[0]) == lit_norepeat()) ==> !p.3
                &&& args.len() > 0 ==> (spec_to_lowercase(args[0]) == lit_repeat() || spec_to_lowercase(
                    args[0],
                ) == lit_norepeat())
                &&& p.4 == (if args.len() > 1 {
                    args[1]
                } else {
                    Seq::<char>::empty()
                })
                &&& args.len() > 2 ==> parse_in_range_spec(args[2], true, i32::MIN as int, i32::MAX as int)
                    == Some(p.5) && p.5 > 0
                &&& args.len() <= 2 ==> p.5 == 0
                &&& p.6 == (args.len() == 0)
            }
        }),
{
    assert(lit_help() != lit_repeat());
    assert(lit_help() != lit_norepeat());
    assert(lit_repeat() != lit_norepeat());
}

/// The setting that the override name `lit` sets: 0 the model, 1 the url, 2 the output path.
pub open spec fn setting_name(which: int) -> Seq<char> {
    if which == 0 {
        lit_model()
    } else if which == 1 {
        lit_url()
    } else {
        lit_output_path()
    }
}

pub open spec fn setting_value(st: (Seq<char>, Seq<char>, Seq<char>, i64, i64), which: int) -> Seq<char> {
    if which == 0 {
        st.0
    } else if which == 1 {
        st.1
    } else {
        st.2
    }
}

/// The overrides are read in pairs from position `x` (an even position, with an even number
/// of arguments): when the last pair names the setting `which` ("model", "url" or
/// "output_path" in any case), that setting ends up as the pair's value, unless reading
/// stopped earlier at an unknown name.
proof fn lemma_last_pair_sets(
    args: Seq<Seq<char>>,
    keys: Seq<Seq<char>>,
    x: int,
    st: (Seq<char>, Seq<char>, Seq<char>, i64, i64),
    events: Seq<OverrideEvent>,
    which: int,
)
    requires
        0 <= which <= 2,
        args.len() >= 2,
        args.len() % 2 == 0,
        0 <= x <= args.len() - 2,
        x % 2 == 0,
        spec_to_lowercase(args[args.len() - 2]) == setting_name(which),
    ensures
        ({
            let r = overrides_from(args, keys, x, st, events);
            ||| setting_value(r.0, which) == args[args.len() - 1]
            ||| (r.1.len() > events.len() && r.1.last() is UnknownKey)
        }),
    decreases args.len() - x,
{
    assert(lit_model() != lit_url());
    assert(lit_model() != lit_output_path());
    assert(lit_url() != lit_output_path());
    let n = args.len() as int;
    let lk = spec_to_lowercase(args[x]);
    if x < n - 2 {
        let v = args[x + 1];
        if lk == lit_seed_start() || lk == lit_seed_end() {
            match seed_value(v) {
                Some(sv) => {
                    if lk == lit_seed_start() {
                        lemma_last_pair_sets(args, keys, x + 2, (st.0, st.1, st.2, sv as i64, st.4), events, which);
                    } else {
                        lemma_last_pair_sets(args, keys, x + 2, (st.0, st.1, st.2, st.3, sv as i64), events, which);
                    }
                },
                None => {
                    if lk == lit_seed_start() {
                        lemma_last_pair_sets(args, keys, x + 2, st, events.push(OverrideEvent::SeedStartRejected), which);
                    } else {
                        lemma_last_pair_sets(args, keys, x + 2, st, events.push(OverrideEvent::SeedEndRejected), which);
                    }
                },
            }
        }
        lemma_last_pair_sets(args, keys, x + 2, (v, st.1, st.2, st.3, st.4), events, which);
        lemma_last_pair_sets(args, keys, x + 2, (st.0, v, st.2, st.3, st.4), events, which);
        lemma_last_pair_sets(args, keys, x + 2, (st.0, st.1, v, st.3, st.4), events, which);
        lemma_last_pair_sets(args, keys, x + 2, st, events.push(OverrideEvent::SetValue(x as usize)), which);
        lemma_last_pair_sets(args, keys, x + 2, st, events, which);
    } else {
        let v = args[n - 1];
        assert(overrides_from(args, keys, n, (v, st.1, st.2, st.3, st.4), events).0 == (v, st.1, st.2, st.3, st.4));
        assert(overrides_from(args, keys, n, (st.0, v, st.2, st.3, st.4), events).0 == (st.0, v, st.2, st.3, st.4));
        assert(overrides_from(args, keys, n, (st.0, st.1, v, st.3, st.4), events).0 == (st.0, st.1, v, st.3, st.4));
    }
}

/// The override arguments set the settings they name: with an even number of arguments
/// whose last pair names "model", "url" or "output_path" (in any case), that setting is the
/// pair's value, unless reading stopped at an unknown name (reported as the last event).
/// In particular `[k, v]` with `k` naming one of them sets it to `v` and reports nothing.
pub proof fn lemma_override_pairs_set_settings(
    args: Seq<Seq<char>>,
    keys: Seq<Seq<char>>,
    st: (Seq<char>, Seq<char>, Seq<char>, i64, i64),
    which: int,
)
    requires
        0 <= which <= 2,
        args.len() >= 2,
        args.len() % 2 == 0,
        spec_to_lowercase(args[args.len() - 2]) == setting_name(which),
    ensures
        ({
            let r = overrides_from(args, keys, 0, st, Seq::empty());
            &&& (setting_value(r.0, which) == args[args.len() - 1] || r.1.last() is UnknownKey)
            &&& args.len() == 2 ==> setting_value(r.0, which) == args[1] && r.1.len() == 0
        }),
{
    lemma_last_pair_sets(args, keys, 0, st, Seq::empty(), which);
    assert(lit_model() != lit_url());
    assert(lit_model() != lit_output_path());
    assert(lit_url() != lit_output_path());
    if args.len() == 2 {
        let v = args[1];
        assert(overrides_from(args, keys, 2, (v, st.1, st.2, st.3, st.4), Seq::empty()).1.len() == 0);
        assert(overrides_from(args, keys, 2, (st.0, v, st.2, st.3, st.4), Seq::empty()).1.len() == 0);
        assert(overrides_from(args, keys, 2, (st.0, st.1, v, st.3, st.4), Seq::empty()).1.len() == 0);
    }
}

/// The seed that the override name at `which` sets: 3 "seed_start", 4 "seed_end".
pub open spec fn seed_setting_name(which: int) -> Seq<char> {
    if which == 3 {
        lit_seed_start()
    } else {
        lit_seed_end()
    }
}

pub open spec fn seed_setting(st: (Seq<char>, Seq<char>, Seq<char>, i64, i64), which: int) -> i64 {
    if which == 3 {
        st.3
    } else {
        st.4
    }
}

proof fn lemma_last_seed_pair_sets(
    args: Seq<Seq<char>>,
    keys: Seq<Seq<char>>,
    x: int,
    st: (Seq<char>, Seq<char>, Seq<char>, i64, i64),
    events: Seq<OverrideEvent>,
    which: int,
)
    requires
        3 <= which <= 4,
        args.len() >= 2,
        args.len() % 2 == 0,
        0 <= x <= args.len() - 2,
        x % 2 == 0,
        spec_to_lowercase(args[args.len() - 2]) == seed_setting_name(which),
        seed_value(args[args.len() - 1]) is Some,
    ensures
        ({
            let r = overrides_from(args, keys, x, st, events);
            ||| seed_setting(r.0, which) as int == seed_value(args[args.len() - 1])->0
            ||| (r.1.len() > events.len() && r.1.last() is UnknownKey)
        }),
    decreases args.len() - x,
{
    assert(lit_model() != lit_seed_start());
    assert(lit_model() != lit_seed_end());
    assert(lit_url() != lit_seed_start());
    assert(lit_url() != lit_seed_end());
    assert(lit_output_path() != lit_seed_start());
    assert(lit_output_path() != lit_seed_end());
    assert(lit_seed_start() != lit_seed_end());
    let n = args.len() as int;
    let lk = spec_to_lowercase(args[x]);
    let v = args[x + 1];
    if x < n - 2 {
        match seed_value(v) {
            Some(sv) => {
                lemma_last_seed_pair_sets(args, keys, x + 2, (st.0, st.1, st.2, sv as i64, st.4), events, which);
                lemma_last_seed_pair_sets(args, keys, x + 2, (st.0, st.1, st.2, st.3, sv as i64), events, which);
            },
            None => {
                lemma_last_seed_pair_sets(args, keys, x + 2, st, events.push(OverrideEvent::SeedStartRejected), which);
                lemma_last_seed_pair_sets(args, keys, x + 2, st, events.push(OverrideEvent::SeedEndRejected), which);
            },
        }
        lemma_last_seed_pair_sets(args, keys, x + 2, (v, st.1, st.2, st.3, st.4), events, which);
        lemma_last_seed_pair_sets(args, keys, x + 2, (st.0, v, st.2, st.3, st.4), events, which);
        lemma_last_seed_pair_sets(args, keys, x + 2, (st.0, st.1, v, st.3, st.4), events, which);
        lemma_last_seed_pair_sets(args, keys, x + 2, st, events.push(OverrideEvent::SetValue(x as usize)), which);
        lemma_last_seed_pair_sets(args, keys, x + 2, st, events, which);
    } else {
        let sv = seed_value(v)->0;
        assert(overrides_from(args, keys, n, (st.0, st.1, st.2, sv as i64, st.4), events).0 == (st.0, st.1, st.2, sv as i64, st.4));
        assert(overrides_from(args, keys, n, (st.0, st.1, st.2, st.3, sv as i64), events).0 == (st.0, st.1, st.2, st.3, sv as i64));
    }
}

/// A seed override sets the seed it names: with an even number of arguments whose last pair
/// is "seed_start" (or "seed_end"), in any case, with a non-negative `i64` value, that seed
/// is the value, unless reading stopped at an unknown name (reported as the last event).
pub proof fn lemma_seed_override_sets_seed(
    args: Seq<Seq<char>>,
    keys: Seq<Seq<char>>,
    st: (Seq<char>, Seq<char>, Seq<char>, i64, i64),
    which: int,
)
    requires
        3 <= which <= 4,
        args.len() >= 2,
        args.len() % 2 == 0,
        spec_to_lowercase(args[args.len() - 2]) == seed_setting_name(which),
        seed_value(args[args.len() - 1]) is Some,
    ensures
        ({
            let r = overrides_from(args, keys, 0, st, Seq::empty());
            seed_setting(r.0, which) as int == seed_value(args[args.len() - 1])->0 || r.1.last() is UnknownKey
        }),
{
    lemma_last_seed_pair_sets(args, keys, 0, st, Seq::empty(), which);
}

/// A seed override whose value is negative or no `i64` leaves the settings as they were and
/// is reported as rejected.
pub proof fn lemma_seed_override_rejected(
    v: Seq<char>,
    k: Seq<char>,
    keys: Seq<Seq<char>>,
    st: (Seq<char>, Seq<char>, Seq<char>, i64, i64),
)
    requires
        spec_to_lowercase(k) == lit_seed_start() || spec_to_lowercase(k) == lit_seed_end(),
        seed_value(v) is None,
    ensures
        ({
            let r = overrides_from(seq![k, v], keys, 0, st, Seq::empty());
            &&& r.0 == st
            &&& r.1.len() == 1
            &&& r.1[0] == (if spec_to_lowercase(k) == lit_seed_start() {
                OverrideEvent::SeedStartRejected
            } else {
                OverrideEvent::SeedEndRejected
            })
        }),
{
    assert(lit_model() != lit_seed_start());
    assert(lit_model() != lit_seed_end());
    assert(lit_url() != lit_seed_start());
    assert(lit_url() != lit_seed_end());
    assert(lit_output_path() != lit_seed_start());
    assert(lit_output_path() != lit_seed_end());
    assert(lit_seed_start() != lit_seed_end());
    let args = seq![k, v];
    assert(args[0] == k && args[1] == v);
    let e0 = Seq::<OverrideEvent>::empty();
    let es = e0.push(OverrideEvent::SeedStartRejected);
    let ee = e0.push(OverrideEvent::SeedEndRejected);
    assert(overrides_from(args, keys, 2, st, es) == (st, es));
    assert(overrides_from(args, keys, 2, st, ee) == (st, ee));
}

/// Any other override name is a configuration entry: when the configuration has it, the
/// settings stay and its value is to be set (`SetValue` at the name's position); when it has
/// not, reading stops with `UnknownKey`.
pub proof fn lemma_other_override_names(
    k: Seq<char>,
    v: Seq<char>,
    keys: Seq<Seq<char>>,
    st: (Seq<char>, Seq<char>, Seq<char>, i64, i64),
)
    requires
        spec_to_lowercase(k) != lit_model(),
        spec_to_lowercase(k) != lit_url(),
        spec_to_lowercase(k) != lit_output_path(),
        spec_to_lowercase(k) != lit_seed_start(),
        spec_to_lowercase(k) != lit_seed_end(),
    ensures
        ({
            let r = overrides_from(seq![k, v], keys, 0, st, Seq::empty());
            &&& r.0 == st
            &&& r.1 == seq![
                if keys.contains(k) {
                    OverrideEvent::SetValue(0)
                } else {
                    OverrideEvent::UnknownKey(0)
                },
            ]
        }),
{
    let args = seq![k, v];
    assert(args[0] == k && args[1] == v);
    let e0 = Seq::<OverrideEvent>::empty();
    let es = e0.push(OverrideEvent::SetValue(0));
    assert(overrides_from(args, keys, 2, st, es) == (st, es));
    assert(es =~= seq![OverrideEvent::SetValue(0)]);
    assert(e0.push(OverrideEvent::UnknownKey(0)) =~= seq![OverrideEvent::UnknownKey(0)]);
}

proof fn lemma_lookup_first(fields: Seq<(String, ConfigValue)>, name: Seq<char>, i: int)
    requires
        0 <= i < fields.len(),
        fields[i].0@ == name,
        forall|j: int| 0 <= j < i ==> (#[trigger] fields[j]).0@ != name,
    ensures
        lookup(fields, name) == Some(fields[i].1),
    decreases i,
{
    if i > 0 {
        let r = fields.drop_first();
        assert(fields[0].0@ != name);
        assert forall|j: int| 0 <= j < i - 1 implies (#[trigger] r[j]).0@ != name by {
            assert(r[j] == fields[j + 1]);
        }
        assert(r[i - 1] == fields[i]);
        lemma_lookup_first(r, name, i - 1);
    }
}

proof fn lemma_lookup_none(fields: Seq<(String, ConfigValue)>, name: Seq<char>)
    requires
        forall|j: int| 0 <= j < fields.len() ==> (#[trigger] fields[j]).0@ != name,
    ensures
        lookup(fields, name) is None,
    decreases fields.len(),
{
    if fields.len() > 0 {
        let r = fields.drop_first();
        assert(fields[0].0@ != name);
        assert forall|j: int| 0 <= j < r.len() implies (#[trigger] r[j]).0@ != name by {
            assert(r[j] == fields[j + 1]);
        }
        lemma_lookup_none(r, name);
    }
}

/// A configuration entry read as text: the first entry of the name decides. A text entry
/// gives its text; a boolean entry gives "true" when it holds and "false" when not; an
/// integer entry gives a text that reads back as that integer; an array or null gives the
/// default, and so does a name that no entry has.
pub proof fn lemma_get_string_reads_entry(
    fields: Seq<(String, ConfigValue)>,
    name: Seq<char>,
    default: Seq<char>,
    i: int,
)
    requires
        0 <= i < fields.len(),
        fields[i].0@ == name,
        forall|j: int| 0 <= j < i ==> (#[trigger] fields[j]).0@ != name,
    ensures
        ({
            let r = spec_get_string(fields, name, default);
            match fields[i].1 {
                ConfigValue::Text(t) => r == t@,
                ConfigValue::Bool(b) => r == (if b {
                    seq!['t', 'r', 'u', 'e']
                } else {
                    seq!['f', 'a', 'l', 's', 'e']
                }),
                ConfigValue::Number { is_float: _, as_int, as_float_text: _, as_uint: _ } => match as_int {
                    Some(n) => parse_in_range_spec(r, true, i64::MIN as int, i64::MAX as int) == Some(n as int),
                    None => true,
                },
                ConfigValue::Object(_) => true,
                ConfigValue::Array => r == default,
                ConfigValue::Null => r == default,
            }
        }),
{
    lemma_lookup_first(fields, name, i);
    reveal_strlit("true");
    reveal_strlit("false");
    assert("true"@ =~= seq!['t', 'r', 'u', 'e']);
    assert("false"@ =~= seq!['f', 'a', 'l', 's', 'e']);
    match fields[i].1 {
        ConfigValue::Number { is_float: _, as_int, as_float_text: _, as_uint: _ } => match as_int {
            Some(n) => {
                crate::laws::lemma_signed_decimal_parses(n);
            },
            None => {},
        },
        _ => {},
    }
}

/// A name that no entry has reads as the default.
pub proof fn lemma_get_string_missing(fields: Seq<(String, ConfigValue)>, name: Seq<char>, default: Seq<char>)
    requires
        forall|j: int| 0 <= j < fields.len() ==> (#[trigger] fields[j]).0@ != name,
    ensures
        spec_get_string(fields, name, default) == default,
{
    lemma_lookup_none(fields, name);
}

/// Writing an integer entry back as an override keeps it: the text that `get_string` gives
/// for an entry holding the integer `n` (not as a float) is read by `get_value`, for that
/// entry, as the integer `n`.
pub proof fn lemma_integer_entry_round_trip(
    fields: Seq<(String, ConfigValue)>,
    name: Seq<char>,
    default: Seq<char>,
    i: int,
    n: i64,
    r: NewValue,
)
    requires
        0 <= i < fields.len(),
        fields[i].0@ == name,
        forall|j: int| 0 <= j < i ==> (#[trigger] fields[j]).0@ != name,
        fields[i].1 matches ConfigValue::Number { is_float: false, as_int: Some(m), .. } && m == n,
        is_new_value(fields[i].1, spec_get_string(fields, name, default), r),
    ensures
        r == NewValue::Int(n),
{
    lemma_get_string_reads_entry(fields, name, default, i);
}

} // verus!
