use sd_req::sd_req::{
    amount_from_line, apply_overrides, image_to_save, config_file_name, config_seeds, decimal, decode_image, image_file_name, image_prompt, info_field,
    infotext_of, is_payload_key, parse_bool, plan_start, request_plan, sanitized_prompt, seeds_conflict,
    next_round, options_endpoint, strip_data_prefix, RoundAction, txt2img_endpoint, OverrideEvent, RequestPlan, Settings, StartPlan,
};

fn s(x: &str) -> String {
    x.to_string()
}

fn v(xs: &[&str]) -> Vec<String> {
    xs.iter().map(|x| x.to_string()).collect()
}

#[test]
fn command_line_plans() {
    assert_eq!(plan_start(&v(&[])), StartPlan::Run { repeat: false, prompt: s(""), count: 0, header: true });
    assert_eq!(plan_start(&v(&["-H"])), StartPlan::Help);
    assert_eq!(
        plan_start(&v(&["Repeat", "rock", "5"])),
        StartPlan::Run { repeat: true, prompt: s("rock"), count: 5, header: false }
    );
    assert_eq!(
        plan_start(&v(&["norepeat", "rock"])),
        StartPlan::Run { repeat: false, prompt: s("rock"), count: 0, header: false }
    );
    assert_eq!(plan_start(&v(&["x"])), StartPlan::BadMode);
    assert_eq!(plan_start(&v(&["norepeat", "p", "0"])), StartPlan::BadCount);
    assert_eq!(plan_start(&v(&["norepeat", "p", "abc"])), StartPlan::BadCount);
}

#[test]
fn seeds_from_configuration() {
    assert_eq!(config_seeds(s("5"), s("9")), (5, 9));
    assert_eq!(config_seeds(s("-3"), s("-1")), (-1, -1));
    assert_eq!(config_seeds(s("abc"), s("7")), (-1, 7));
    assert_eq!(config_seeds(s(""), s("")), (-1, -1));
}

#[test]
fn configured_seed_range_gives_one_request_per_seed() {
    let (start, end) = config_seeds(s("1"), s("3"));
    assert_eq!(request_plan(1, start, end), RequestPlan::SeedRange(1, 3));
}

#[test]
fn no_configured_seeds_repeat_the_amount() {
    // the configuration has no seed keys: the text read is the default, ""
    let (start, end) = config_seeds(s(""), s(""));
    assert_eq!(request_plan(5, start, end), RequestPlan::Repeat(5));
}

#[test]
fn overrides_in_order() {
    let settings = Settings { model: s(""), url: s("u0"), output_path: s("out"), seed_start: -1, seed_end: -1 };
    let args = v(&["model", "m1", "seed_start", "-2", "steps", "30", "bogus", "1", "url", "u"]);
    let (st, events) = apply_overrides(&args, &v(&["steps", "seed"]), settings);
    assert_eq!(st.model, "m1");
    assert_eq!(st.url, "u0");
    assert_eq!(st.seed_start, -1);
    assert_eq!(
        events,
        vec![OverrideEvent::SeedStartRejected, OverrideEvent::SetValue(4), OverrideEvent::UnknownKey(6)]
    );
    let settings = Settings { model: s(""), url: s("u0"), output_path: s("out"), seed_start: -1, seed_end: -1 };
    let args = v(&["SEED_START", "3", "seed_end", "8", "Output_Path", "o2", "url"]);
    let (st, events) = apply_overrides(&args, &v(&[]), settings);
    assert_eq!(st, Settings { model: s(""), url: s("u0"), output_path: s("o2"), seed_start: 3, seed_end: 8 });
    assert!(events.is_empty());
}

#[test]
fn seeds_and_requests() {
    assert!(seeds_conflict(5, 3));
    assert!(!seeds_conflict(-1, 3));
    assert!(!seeds_conflict(2, 2));
    assert_eq!(request_plan(3, 2, 4), RequestPlan::SeedRange(2, 4));
    assert_eq!(request_plan(3, -1, -1), RequestPlan::Repeat(3));
    assert_eq!(request_plan(0, 1, 2), RequestPlan::Repeat(0));
    assert_eq!(request_plan(2, 5, 1), RequestPlan::Repeat(2));
}

#[test]
fn payload_keys_and_booleans() {
    assert!(!is_payload_key(&s("url")));
    assert!(!is_payload_key(&s("model")));
    assert!(!is_payload_key(&s("output_path")));
    assert!(is_payload_key(&s("steps")));
    assert!(is_payload_key(&s("URL")));
    assert_eq!(parse_bool(&s("TRUE")), Some(true));
    assert_eq!(parse_bool(&s("False")), Some(false));
    assert_eq!(parse_bool(&s("yes")), None);
}

#[test]
fn info_texts() {
    assert_eq!(info_field(&s("Steps: 20, Seed: 42, Size"), s("Seed: ")), "42");
    assert_eq!(info_field(&s("Model: abc)"), s("Model: ")), "abc");
    assert_eq!(info_field(&s("Seed: 42"), s("Seed: ")), "");
    assert_eq!(infotext_of(&s("{\"infotexts\": [\"Steps: 20, Seed: 7\"], \"x\":1}")), " (Steps: 20, Seed: 7)");
    assert_eq!(infotext_of(&s("{}")), "");
    let info = s(" (Steps: 20, Sampler: Euler, CFG scale: 7, Seed: 5, Size: 512x512, Model: m1)");
    assert_eq!(image_prompt(&s("cat"), &info), "cat (seed=5,steps=20,cfg_scale=7,model=m1,sampler=Euler)");
}

#[test]
fn images_and_names() {
    assert_eq!(strip_data_prefix(s("data:image/png;base64,QUJD")), "QUJD");
    assert_eq!(strip_data_prefix(s("QUJD")), "QUJD");
    assert_eq!(decode_image(s("data:image/png;base64,QUJD")), Some(b"ABC".to_vec()));
    assert_eq!(decode_image(s("not base64!")), None);
    assert_eq!(sanitized_prompt(&s("a/b:c")), "abc");
    assert_eq!(sanitized_prompt(&s("x\u{7}y\u{85}z")), "xyz");
    assert_eq!(sanitized_prompt(&s("...")), "");
    assert_eq!(sanitized_prompt(&s("rock in a river")), "rock in a river");
    assert_eq!(sanitized_prompt(&s("café au lait, 4k")), "café au lait, 4k");
    let long = "é".repeat(200);
    let cut = sanitized_prompt(&long);
    assert!(cut.chars().count() <= 255);
    assert!(long.starts_with(cut.as_str()));
    assert!(cut.len() <= 255);
    assert_eq!(sanitized_prompt(&s("a:b")), "ab");
    assert_eq!(sanitized_prompt(&s("rock: \"river\"?")), "rock river");
    assert_eq!(image_file_name(&s("out"), &s("cat"), 12), "out/cat - 12.png");
    assert_eq!(decimal(0), "0");
    assert_eq!(decimal(4294967295), "4294967295");
}

#[test]
fn endpoints_and_config_name() {
    assert_eq!(txt2img_endpoint(&s("http://127.0.0.1:7860")), "http://127.0.0.1:7860/sdapi/v1/txt2img");
    assert_eq!(options_endpoint(&s("http://host")), "http://host/sdapi/v1/options");
    assert_eq!(config_file_name(&s("sd-req")), "sd-req.json");
}

#[test]
fn prompt_loop_steps() {
    let nl = s("\n");
    // first round, prompt and amount from the command line
    assert_eq!(next_round(true, false, &s("rock"), false, &nl, 5), RoundAction::Run);
    // norepeat: after the first round, stop
    assert_eq!(next_round(false, false, &s(""), false, &nl, 0), RoundAction::Stop);
    // repeat: ask for the prompt, then for the amount
    assert_eq!(next_round(false, true, &s(""), false, &nl, 0), RoundAction::ReadPrompt);
    assert_eq!(next_round(false, true, &s("cat\n"), true, &nl, 0), RoundAction::ReadAmount);
    assert_eq!(next_round(false, true, &s("cat\n"), true, &nl, 2), RoundAction::Run);
    // an empty line ends the run
    assert_eq!(next_round(false, true, &s("\n"), true, &nl, 0), RoundAction::End);
    // nothing read at all: go on with the empty prompt
    assert_eq!(next_round(true, false, &s(""), true, &nl, 1), RoundAction::Run);
}

#[test]
fn amounts_typed_on_a_line() {
    assert_eq!(amount_from_line(&s("5\n")), Some(5));
    assert_eq!(amount_from_line(&s("  12 \r\n")), Some(12));
    assert_eq!(amount_from_line(&s("0\n")), None);
    assert_eq!(amount_from_line(&s("-3")), None);
    assert_eq!(amount_from_line(&s("many")), None);
    assert_eq!(amount_from_line(&s("\u{3000}7\u{a0}\u{2028}")), Some(7));
    assert_eq!(amount_from_line(&s("\u{200b}7")), None);
}

#[test]
fn first_text_image_is_saved() {
    assert_eq!(image_to_save(&vec![None, Some(s("QUJD")), Some(s("x"))]), Some(1));
    assert_eq!(image_to_save(&vec![Some(s("a"))]), Some(0));
    assert_eq!(image_to_save(&vec![None, None]), None);
    assert_eq!(image_to_save(&vec![]), None);
}
