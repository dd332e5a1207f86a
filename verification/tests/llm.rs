use ulpf::generator::llm::{
    available_field_names, derive_detectors, infer_decoders, infer_field_map, is_stable_literal,
    build_prompt, json_object_text, looks_like_a_field_name, trim_degenerate_repetition, ReplyError,
};

fn lookup<'a>(m: &'a [(String, String)], path: &str) -> Option<&'a str> {
    m.iter().find(|(p, _)| p == path).map(|(_, v)| v.as_str())
}

fn strings(lines: &[&str]) -> Vec<String> {
    lines.iter().map(|s| s.to_string()).collect()
}

#[test]
fn a_looping_reply_is_cut_at_the_repeat() {
    let looped = "Here is the answer.\n".to_string()
        + &"The logs are in a format that is easy to understand and read.\n".repeat(40);
    let out = trim_degenerate_repetition(&looped);
    let occurrences = out.matches("easy to understand").count();
    assert!(occurrences <= 2, "still repeating {occurrences} times: {out}");
    assert!(out.starts_with("Here is the answer."));
}

#[test]
fn a_normal_reply_is_left_alone() {
    let normal = "You have 11 packs loaded.\nCoverage is 98%.\nFour records are unparsed.";
    assert_eq!(trim_degenerate_repetition(normal), normal);
}

#[test]
fn repetition_inside_one_paragraph_is_also_cut() {
    let looped = "Fine. ".to_string()
        + &"The logs are in a format that is easy to understand and read. ".repeat(30);
    let out = trim_degenerate_repetition(&looped);
    assert!(out.len() < looped.len() / 3, "not trimmed: {} chars", out.len());
}

#[test]
fn a_looping_reply_is_cut_from_the_second_copy() {
    let line = "The logs are in a format that is easy to understand and read.";
    let looped = format!("Intro\n{line}\n{line}\n{line}\n{line}\n");
    assert_eq!(trim_degenerate_repetition(&looped), format!("Intro\n{line}"));
    let looped = "Here is the answer.\n".to_string() + &format!("{line}\n").repeat(40);
    assert_eq!(trim_degenerate_repetition(&looped), format!("Here is the answer.\n{line}"));
}

#[test]
fn lines_between_the_second_and_third_copy_go_too() {
    let line = "The logs are in a format that is easy to understand and read.";
    let looped = format!("Intro\n{line}\nmiddle\n{line}\nafter\n{line}\ntail");
    assert_eq!(trim_degenerate_repetition(&looped), format!("Intro\n{line}\nmiddle"));
    // Twice is not yet a loop.
    let twice = format!("Intro\n{line}\n{line}");
    assert_eq!(trim_degenerate_repetition(&twice), twice);
}

#[test]
fn short_lines_may_repeat_freely() {
    let looped = "ok\nok\nok\nok\n";
    assert_eq!(trim_degenerate_repetition(looped), "ok\nok\nok\nok");
}

#[test]
fn a_url_field_maps_onto_the_url_string() {
    let m = infer_field_map(&strings(&["url", "srcip"]));
    assert_eq!(lookup(&m, "url.url_string"), Some("url"));
    assert_eq!(lookup(&m, "url"), None);
    for (path, _) in &m {
        assert!(ulpf::generator::ocsf_paths::is_known_path(path), "{path}");
    }
}

#[test]
fn crlf_line_endings_are_joined_with_newlines() {
    assert_eq!(trim_degenerate_repetition("a\r\nb\r\n"), "a\nb");
}

#[test]
fn a_blank_reply_stays_blank() {
    assert_eq!(trim_degenerate_repetition("   \n  "), "");
}

#[test]
fn volatile_detector_literals_are_rejected() {
    assert!(!is_stable_literal("12:11:24"));
    assert!(!is_stable_literal("192.168.1.10"));
    assert!(!is_stable_literal("2024-03-15"));
    assert!(!is_stable_literal("1045"));
    assert!(!is_stable_literal("UserID: 1045"));
}

#[test]
fn stable_detector_literals_are_kept() {
    assert!(is_stable_literal("devname="));
    assert!(is_stable_literal("type=traffic"));
    assert!(is_stable_literal("[AppServer]"));
    assert!(is_stable_literal("MyAppClient"));
}

#[test]
fn field_names_map_onto_ocsf_by_convention() {
    let available = strings(&[
        "evt", "src_addr", "src_prt", "dst_addr", "dst_prt", "proto", "verdict", "rule",
    ]);
    let m = infer_field_map(&available);
    assert_eq!(lookup(&m, "src_endpoint.ip"), Some("src_addr"));
    assert_eq!(lookup(&m, "src_endpoint.port"), Some("src_prt"));
    assert_eq!(lookup(&m, "dst_endpoint.ip"), Some("dst_addr"));
    assert_eq!(lookup(&m, "dst_endpoint.port"), Some("dst_prt"));
    assert_eq!(lookup(&m, "connection_info.protocol_name"), Some("proto"));

    let fg = strings(&["srcip", "srcport", "dstip", "dstport", "devname", "action"]);
    let m2 = infer_field_map(&fg);
    assert_eq!(lookup(&m2, "src_endpoint.ip"), Some("srcip"));
    assert_eq!(lookup(&m2, "device.hostname"), Some("devname"));
}

#[test]
fn a_source_name_is_never_reused_for_two_attributes() {
    let available = strings(&["src", "dst"]);
    let m = infer_field_map(&available);
    let sources: Vec<&String> = m.iter().map(|(_, v)| v).collect();
    let mut uniq = sources.clone();
    uniq.sort();
    uniq.dedup();
    assert_eq!(sources.len(), uniq.len(), "a field was mapped twice: {m:?}");
}

#[test]
fn decoder_chain_is_inferred_from_the_bytes() {
    let kv = vec!["Mar 15 10:30:01 gw01 fw: src_addr=10.0.0.1 dst_addr=8.8.8.8".to_string()];
    assert_eq!(infer_decoders(&kv), vec!["syslog", "keyvalue"]);

    let cef = vec!["CEF:0|V|P|1|1|name|5|src=10.0.0.1".to_string()];
    assert_eq!(infer_decoders(&cef), vec!["cef"]);

    let js = vec![r#"{"src_ip":"10.0.0.1"}"#.to_string()];
    assert_eq!(infer_decoders(&js), vec!["json"]);

    let csv = vec!["a,b,c,d,e,f,g,h".to_string()];
    assert_eq!(infer_decoders(&csv), vec!["csv"]);
}

#[test]
fn calendar_words_and_bare_hostnames_are_weak_detectors() {
    assert!(!is_stable_literal("Mar"));
    assert!(!is_stable_literal("gw01"));
    assert!(is_stable_literal("zephyrfw:"));
    assert!(is_stable_literal("devname="));
}

#[test]
fn values_are_not_accepted_as_field_names() {
    let apache = vec![
        r#"192.168.1.100 - - [15/Mar/2024:10:30:01 +0000] "GET /a HTTP/1.1" 200 1024"#
            .to_string(),
    ];
    assert!(!looks_like_a_field_name("192.168.1.100", &apache));
    assert!(!looks_like_a_field_name("/api/v1/users", &apache));
    assert!(!looks_like_a_field_name("Unknown", &apache));
    assert!(!looks_like_a_field_name("GET /a HTTP/1.1", &apache));
}

#[test]
fn real_field_names_are_accepted() {
    let kv = vec!["devname=\"FGT\" srcip=10.0.0.1 action=accept".to_string()];
    assert!(looks_like_a_field_name("srcip", &kv));
    assert!(looks_like_a_field_name("action", &kv));

    let js = vec![r#"{"src_ip":"10.0.0.1","action":"allow"}"#.to_string()];
    assert!(looks_like_a_field_name("src_ip", &js));

    assert!(looks_like_a_field_name("col.7", &kv));
}

#[test]
fn detectors_come_from_tokens_shared_by_every_sample() {
    let samples = vec![
        r#"192.168.1.100 - - [15/Mar/2024:10:30:01 +0000] "GET /a HTTP/1.1" 200 1024 "-" "MyAppClient/1.0""#.to_string(),
        r#"10.2.4.19 - - [15/Mar/2024:10:31:44 +0000] "POST /b HTTP/1.1" 401 512 "-" "MyAppClient/1.0""#.to_string(),
    ];
    let detect = derive_detectors(&samples);
    assert!(!detect.is_empty(), "expected at least one detector");
    for d in &detect {
        assert!(
            samples.iter().all(|s| s.contains(d.as_str())),
            "`{d}` is not present in every sample"
        );
        assert!(!d.contains("192.168"), "address leaked into detector: {d}");
        assert!(!d.contains("10:30"), "timestamp leaked into detector: {d}");
    }
}

#[test]
fn a_constant_value_never_becomes_the_detector() {
    let samples: Vec<String> = (1..=8)
        .map(|i| {
            format!(
                "Sep  3 10:00:0{i} fw01 acmefw: action=allow src_addr=10.1.2.{i}                      dst_addr=8.8.4.4 src_port=4000{i} dst_port=443 proto=tcp"
            )
        })
        .collect();

    let detect = derive_detectors(&samples);
    assert!(
        !detect.iter().any(|d| d.contains("8.8.4.4")),
        "a constant value leaked into the detector: {detect:?}"
    );
    assert!(
        detect.iter().any(|d| d == "acmefw:"),
        "the program tag is the strongest signal and must rank first: {detect:?}"
    );
    assert_eq!(detect[0], "acmefw:", "tags outrank bare field names");
    for d in &detect {
        assert!(
            samples.iter().all(|s| s.contains(d.as_str())),
            "`{d}` is not present in every sample"
        );
    }
}

#[test]
fn key_value_names_are_listed_once_in_order() {
    let samples = strings(&[
        "date=1 devname=FGT srcip=10.0.0.1 note=a=b",
        "devname=FGT dstip=8.8.8.8 bad-key=1 =x",
    ]);
    assert_eq!(
        available_field_names(&samples),
        strings(&["date", "devname", "srcip", "note", "dstip"])
    );
}

#[test]
fn json_object_keys_are_listed() {
    let samples = strings(&[r#"  {"src_ip":"10.0.0.1","action":"allow"}"#]);
    assert_eq!(available_field_names(&samples), strings(&["action", "src_ip"]));
}

#[test]
fn delimited_records_fall_back_to_positions() {
    let samples = strings(&["a,b,c"]);
    assert_eq!(available_field_names(&samples), strings(&["col.0", "col.1", "col.2"]));
    assert!(available_field_names(&strings(&["a,b"])).is_empty());
    let wide = vec![",".repeat(50)];
    let names = available_field_names(&wide);
    assert_eq!(names.len(), 40);
    assert_eq!(names[39], "col.39");
}

#[test]
fn only_the_first_five_samples_are_read() {
    let samples = strings(&["a=1", "b=1", "c=1", "d=1", "e=1", "f=1"]);
    assert_eq!(available_field_names(&samples), strings(&["a", "b", "c", "d", "e"]));
}

#[test]
fn at_most_sixty_names_are_listed() {
    let line: String = (0..70).map(|i| format!("k{i}=v ")).collect();
    let names = available_field_names(&[line]);
    assert_eq!(names.len(), 60);
    assert_eq!(names[59], "k59");
}

#[test]
fn json_is_extracted_from_a_fenced_reply() {
    let reply = "Here you go:\n```json\n{\"vendor\":\"Acme\",\"product\":\"Gateway\"}\n```";
    let text = json_object_text(reply).unwrap();
    let spec: serde_json::Value = serde_json::from_str(&text).unwrap();
    assert_eq!(spec["vendor"], "Acme");
    assert_eq!(spec["product"], "Gateway");
}

#[test]
fn a_reply_with_no_json_is_an_error_not_a_fabricated_pack() {
    assert!(json_object_text("I could not determine the format.").is_err());
}

#[test]
fn reply_errors_name_what_is_missing() {
    assert_eq!(json_object_text("no braces"), Err(ReplyError::NoObject));
    assert_eq!(json_object_text("{ open only"), Err(ReplyError::NoClosingBrace));
    assert_eq!(json_object_text("} backwards {"), Err(ReplyError::Malformed));
    assert_eq!(json_object_text("  {\"a\":{\"b\":1}} trailing ").as_deref(), Ok("{\"a\":{\"b\":1}}"));
}

#[test]
fn the_prompt_lists_attributes_names_and_lines_in_that_order() {
    let samples = strings(&["srcip=10.0.0.1 act=allow", "srcip=10.0.0.2 act=deny"]);
    let available = strings(&["srcip", "act"]);
    let prompt = build_prompt(&samples, &available);
    assert!(prompt.starts_with("You analyse security log formats. Answer ONLY with a JSON object.\n\n"));
    assert!(prompt.contains(
        "Allowed attributes: src_endpoint.ip, src_endpoint.port, dst_endpoint.ip, dst_endpoint.port, \
         connection_info.protocol_name, device.hostname, actor.user.name, url.url_string, message\n\n"
    ));
    assert!(prompt.contains("AVAILABLE NAMES (choose only from these): srcip, act\n\n"));
    assert!(prompt.ends_with(
        "LOG LINES:\n- srcip=10.0.0.1 act=allow\n- srcip=10.0.0.2 act=deny"
    ));
}

#[test]
fn a_prompt_with_nothing_found_still_has_every_section() {
    let prompt = build_prompt(&[], &[]);
    assert!(prompt.contains("AVAILABLE NAMES (choose only from these): \n\n"));
    assert!(prompt.ends_with("LOG LINES:\n"));
}
