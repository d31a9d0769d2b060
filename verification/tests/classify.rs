use pitchers::classify::{classify_label, find_code, find_keyword, normalize_pitch_type};

fn pair(name: &str, category: &str) -> (String, String) {
    (name.to_string(), category.to_string())
}

#[test]
fn every_code_maps_to_its_name_and_the_category_is_the_name() {
    let table = [
        ("FF", "fastball"),
        ("FA", "fastball"),
        ("FT", "fastball"),
        ("FF/FT", "fastball"),
        ("SI", "sinker"),
        ("SL", "slider"),
        ("CU", "curveball"),
        ("KC", "curveball"),
        ("CH", "changeup"),
        ("FC", "cutter"),
        ("FS", "splitter"),
        ("IN", "intentional"),
    ];
    for (code, name) in table {
        assert_eq!(normalize_pitch_type(code), pair(name, name), "code {}", code);
    }
}

#[test]
fn codes_match_in_any_case() {
    assert_eq!(normalize_pitch_type("ff"), pair("fastball", "fastball"));
    assert_eq!(normalize_pitch_type("Sl"), pair("slider", "slider"));
    assert_eq!(normalize_pitch_type("kC"), pair("curveball", "curveball"));
    assert_eq!(normalize_pitch_type("ff/ft"), pair("fastball", "fastball"));
}

#[test]
fn codes_match_after_trimming() {
    assert_eq!(normalize_pitch_type("  ch \n"), pair("changeup", "changeup"));
    assert_eq!(normalize_pitch_type("\tFS"), pair("splitter", "splitter"));
}

#[test]
fn a_code_must_be_the_whole_label() {
    assert_eq!(normalize_pitch_type("FFX"), pair("FFX", "FFX"));
    assert_eq!(normalize_pitch_type("F F"), pair("F F", "F F"));
}

#[test]
fn uppercase_follows_unicode() {
    // U+FB00, the ligature ff, has the uppercase form "FF".
    assert_eq!(normalize_pitch_type("\u{FB00}"), pair("fastball", "fastball"));
    // U+017F, the long s, has the uppercase form "S".
    assert_eq!(normalize_pitch_type("\u{017F}l"), pair("slider", "slider"));
}

#[test]
fn empty_label_is_unknown() {
    assert_eq!(normalize_pitch_type(""), pair("unknown", "unknown"));
}

#[test]
fn blank_labels_are_unknown() {
    assert_eq!(normalize_pitch_type("   "), pair("unknown", "unknown"));
    assert_eq!(normalize_pitch_type("\t\r\n"), pair("unknown", "unknown"));
    assert_eq!(normalize_pitch_type("\u{00A0}\u{3000}\u{2003}"), pair("unknown", "unknown"));
}

#[test]
fn each_keyword_gives_its_name_and_category() {
    let table = [
        ("Four-Seam Fastball", "fastball", "heater"),
        ("Slider", "slider", "breaking ball"),
        ("Curveball", "curveball", "breaking ball"),
        ("Changeup", "changeup", "offspeed"),
        ("Sinker", "sinker", "heater"),
        ("Cutter", "cutter", "heater"),
        ("Splitter", "splitter", "offspeed"),
        ("Sweeper", "sweeper", "breaking ball"),
        ("Knuckleball", "knuckleball", "other"),
    ];
    for (label, name, category) in table {
        assert_eq!(normalize_pitch_type(label), pair(name, category), "label {}", label);
    }
}

#[test]
fn keywords_match_in_any_case_and_inside_a_label() {
    assert_eq!(normalize_pitch_type("TWO-SEAM FASTBALL"), pair("fastball", "heater"));
    assert_eq!(normalize_pitch_type("  hard sLiDeR "), pair("slider", "breaking ball"));
}

#[test]
fn the_first_keyword_in_rule_order_wins() {
    assert_eq!(normalize_pitch_type("curve then fast"), pair("fastball", "heater"));
    assert_eq!(normalize_pitch_type("sinker slider"), pair("slider", "breaking ball"));
    assert_eq!(normalize_pitch_type("cutter change"), pair("changeup", "offspeed"));
}

#[test]
fn knuckle_curve_is_taken_by_the_curve_rule() {
    assert_eq!(normalize_pitch_type("Knuckle Curve"), pair("curveball", "breaking ball"));
    assert_eq!(normalize_pitch_type("knuckle curve"), pair("curveball", "breaking ball"));
}

#[test]
fn unknown_labels_pass_through_trimmed_and_in_their_own_case() {
    assert_eq!(normalize_pitch_type("Eephus"), pair("Eephus", "Eephus"));
    assert_eq!(normalize_pitch_type("  Forkball \t"), pair("Forkball", "Forkball"));
    assert_eq!(normalize_pitch_type("Mound Visit"), pair("Mound Visit", "Mound Visit"));
    assert_eq!(normalize_pitch_type("unknown"), pair("unknown", "unknown"));
}

#[test]
fn the_name_is_never_empty() {
    for label in ["", " ", "FF", "slider", "x", "Knuckle Curve", "\u{2028}"] {
        assert!(!normalize_pitch_type(label).0.is_empty());
    }
}

#[test]
fn find_code_reads_the_uppercase_form_only() {
    assert_eq!(find_code("FF"), Some("fastball"));
    assert_eq!(find_code("IN"), Some("intentional"));
    assert_eq!(find_code("ff"), None);
    assert_eq!(find_code(""), None);
    assert_eq!(find_code("FASTBALL"), None);
}

#[test]
fn find_keyword_reads_the_lowercase_form_only() {
    assert_eq!(find_keyword("four-seam fastball"), Some(("fastball", "heater")));
    assert_eq!(find_keyword("knuckleball"), Some(("knuckleball", "other")));
    assert_eq!(find_keyword("knuckle curve"), Some(("curveball", "breaking ball")));
    assert_eq!(find_keyword("FASTBALL"), None);
    assert_eq!(find_keyword(""), None);
}

#[test]
fn classify_label_tries_code_then_keyword_then_the_label() {
    assert_eq!(classify_label("Zzz", "FF", "slider"), pair("fastball", "fastball"));
    assert_eq!(classify_label("Zzz", "ZZZ", "slider"), pair("slider", "breaking ball"));
    assert_eq!(classify_label("Zzz", "ZZZ", "zzz"), pair("Zzz", "Zzz"));
}
