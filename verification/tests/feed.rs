use pitchers::feed::{
    aggregate, find_events, find_pitch_type, find_pitcher_name, find_plays, is_pitch_event,
    summarize_pitches, FeedError,
};
use serde_json::Value;

fn json(text: &str) -> Value {
    serde_json::from_str(text).unwrap()
}

#[test]
fn an_explicit_flag_decides() {
    assert!(is_pitch_event(&json(r#"{"isPitch": true}"#)));
    assert!(!is_pitch_event(&json(r#"{"isPitch": false}"#)));
}

#[test]
fn the_flag_comes_before_the_pitch_data() {
    assert!(!is_pitch_event(&json(r#"{"isPitch": false, "pitchData": {"startSpeed": 95}}"#)));
    assert!(is_pitch_event(&json(r#"{"isPitch": true, "pitchData": null}"#)));
}

#[test]
fn without_a_flag_the_presence_of_pitch_data_decides() {
    assert!(is_pitch_event(&json(r#"{"pitchData": {"startSpeed": 95}}"#)));
    assert!(is_pitch_event(&json(r#"{"pitchData": null}"#)));
    assert!(is_pitch_event(&json(r#"{"pitchData": false}"#)));
    assert!(!is_pitch_event(&json(r#"{"details": {"description": "Pickoff"}}"#)));
}

#[test]
fn a_flag_that_is_no_boolean_does_not_count_as_a_flag() {
    assert!(!is_pitch_event(&json(r#"{"isPitch": "true"}"#)));
    assert!(!is_pitch_event(&json(r#"{"isPitch": 1}"#)));
    assert!(is_pitch_event(&json(r#"{"isPitch": "no", "pitchData": {}}"#)));
}

#[test]
fn an_event_with_nothing_in_it_is_no_pitch() {
    assert!(!is_pitch_event(&json("{}")));
    assert!(!is_pitch_event(&json("null")));
    assert!(!is_pitch_event(&json("[true]")));
    assert!(!is_pitch_event(&json("7")));
}

#[test]
fn the_type_description_is_the_label_as_it_stands() {
    let ev = json(r#"{"details": {"type": {"code": "FF", "description": "Four-Seam Fastball"}}}"#);
    assert_eq!(find_pitch_type(&ev), "Four-Seam Fastball");
    let ev = json(r#"{"details": {"type": {"description": "  KC "}}}"#);
    assert_eq!(find_pitch_type(&ev), "  KC ");
}

#[test]
fn the_type_description_comes_before_the_plain_description() {
    let ev = json(
        r#"{"details": {"description": "Called Strike", "type": {"description": "Slider"}}}"#,
    );
    assert_eq!(find_pitch_type(&ev), "Slider");
}

#[test]
fn the_plain_description_is_taken_as_it_stands() {
    let ev = json(r#"{"details": {"description": "Ball In Dirt"}}"#);
    assert_eq!(find_pitch_type(&ev), "Ball In Dirt");
}

#[test]
fn a_type_description_that_is_no_text_is_passed_over() {
    let ev = json(r#"{"details": {"type": {"description": 4}, "description": "Cutter"}}"#);
    assert_eq!(find_pitch_type(&ev), "Cutter");
    let ev = json(r#"{"details": {"type": "FF", "description": "Sinker"}}"#);
    assert_eq!(find_pitch_type(&ev), "Sinker");
}

#[test]
fn a_label_that_cannot_be_found_is_unknown() {
    assert_eq!(find_pitch_type(&json("{}")), "unknown");
    assert_eq!(find_pitch_type(&json(r#"{"details": {}}"#)), "unknown");
    assert_eq!(find_pitch_type(&json(r#"{"details": {"description": null}}"#)), "unknown");
    assert_eq!(find_pitch_type(&json(r#"{"details": "Slider"}"#)), "unknown");
    assert_eq!(find_pitch_type(&json(r#"{"type": {"description": "Slider"}}"#)), "unknown");
}

#[test]
fn the_pitcher_is_named_by_the_matchup() {
    let play = json(r#"{"matchup": {"pitcher": {"id": 1, "fullName": "Jane Doe"}}}"#);
    assert_eq!(find_pitcher_name(&play), "Jane Doe");
}

#[test]
fn a_play_without_a_pitcher_name_has_an_unknown_pitcher() {
    assert_eq!(find_pitcher_name(&json("{}")), "Unknown pitcher");
    assert_eq!(find_pitcher_name(&json(r#"{"matchup": {}}"#)), "Unknown pitcher");
    assert_eq!(find_pitcher_name(&json(r#"{"matchup": {"pitcher": {}}}"#)), "Unknown pitcher");
    assert_eq!(
        find_pitcher_name(&json(r#"{"matchup": {"pitcher": {"fullName": 12}}}"#)),
        "Unknown pitcher"
    );
}

#[test]
fn the_events_of_a_play_are_its_array_of_events() {
    let play = json(r#"{"playEvents": [{"isPitch": true}, {}]}"#);
    assert_eq!(find_events(&play).map(|e| e.len()), Some(2));
    assert_eq!(find_events(&json("{}")).map(|e| e.len()), None);
    assert_eq!(find_events(&json(r#"{"playEvents": {}}"#)).map(|e| e.len()), None);
}

#[test]
fn the_plays_of_a_feed_are_found_under_live_data() {
    let feed = json(r#"{"liveData": {"plays": {"allPlays": [{}, {}, {}]}}}"#);
    assert_eq!(find_plays(&feed).map(|p| p.len()), Some(3));
}

#[test]
fn a_feed_without_plays_is_refused() {
    for text in [
        "{}",
        "null",
        r#"{"liveData": {}}"#,
        r#"{"liveData": {"plays": {}}}"#,
        r#"{"liveData": {"plays": {"allPlays": {}}}}"#,
        r#"{"liveData": {"plays": {"allPlays": "none"}}}"#,
        r#"{"plays": {"allPlays": []}}"#,
    ] {
        let feed = json(text);
        assert!(find_plays(&feed).is_none(), "{}", text);
        assert_eq!(summarize_pitches(&feed).err(), Some(FeedError::MissingPlays), "{}", text);
    }
}

#[test]
fn a_feed_with_no_plays_gives_an_empty_table() {
    let feed = json(r#"{"liveData": {"plays": {"allPlays": []}}}"#);
    let table = summarize_pitches(&feed).unwrap();
    assert_eq!(table.total(), 0);
    assert!(table.pitchers().is_empty());
}

#[test]
fn one_pitch_of_one_pitcher() {
    let feed = json(
        r#"{"liveData": {"plays": {"allPlays": [
            {"matchup": {"pitcher": {"fullName": "Jane Doe"}},
             "playEvents": [{"isPitch": true, "details": {"type": {"description": "FF"}}}]}
        ]}}}"#,
    );
    let table = summarize_pitches(&feed).unwrap();
    assert_eq!(table.pitchers(), vec!["Jane Doe".to_string()]);
    assert_eq!(table.categories("Jane Doe"), vec!["fastball".to_string()]);
    assert_eq!(table.pitches("Jane Doe", "fastball"), vec![("fastball".to_string(), 1)]);
    assert_eq!(table.count("Jane Doe", "fastball", "fastball"), 1);
    assert_eq!(table.pitcher_total("Jane Doe"), 1);
    assert_eq!(table.total(), 1);
}

#[test]
fn an_unrecognized_label_is_counted_as_the_feed_gives_it() {
    let feed = json(
        r#"{"liveData": {"plays": {"allPlays": [
            {"matchup": {"pitcher": {"fullName": "Jane Doe"}},
             "playEvents": [{"isPitch": true, "details": {"type": {"description": " Eephus "}}}]}
        ]}}}"#,
    );
    let table = summarize_pitches(&feed).unwrap();
    assert_eq!(table.categories("Jane Doe"), vec!["Eephus".to_string()]);
    assert_eq!(table.pitches("Jane Doe", "Eephus"), vec![("Eephus".to_string(), 1)]);
    assert_eq!(table.count("Jane Doe", "Eephus", "Eephus"), 1);
    assert_eq!(table.count("Jane Doe", "eephus", "eephus"), 0);
}

#[test]
fn events_that_are_no_pitches_are_left_out() {
    let plays = json(
        r#"[{"matchup": {"pitcher": {"fullName": "Jane Doe"}},
             "playEvents": [
                {"details": {"description": "Mound Visit"}},
                {"isPitch": false, "pitchData": {}, "details": {"type": {"description": "Slider"}}},
                {},
                {"pitchData": {}, "details": {"type": {"description": "Slider"}}}
             ]}]"#,
    );
    let table = aggregate(plays.as_array().unwrap());
    assert_eq!(table.total(), 1);
    assert_eq!(table.count("Jane Doe", "breaking ball", "slider"), 1);
}

#[test]
fn a_malformed_play_or_event_is_passed_over() {
    let plays = json(
        r#"[
            17,
            {"matchup": {"pitcher": {"fullName": "Jane Doe"}}},
            {"matchup": {"pitcher": {"fullName": "Jane Doe"}}, "playEvents": "none"},
            {"matchup": {"pitcher": {"fullName": "Jane Doe"}},
             "playEvents": [null, 3, "x", {"isPitch": true}]},
            {"playEvents": [{"isPitch": true, "details": {"description": "Curveball"}}]}
        ]"#,
    );
    let table = aggregate(plays.as_array().unwrap());
    assert_eq!(table.total(), 2);
    assert_eq!(table.count("Jane Doe", "unknown", "unknown"), 1);
    assert_eq!(table.count("Unknown pitcher", "breaking ball", "curveball"), 1);
    assert_eq!(table.pitcher_total("Jane Doe"), 1);
    assert_eq!(table.pitcher_total("Unknown pitcher"), 1);
}

#[test]
fn counts_add_up_over_plays() {
    let plays = json(
        r#"[
            {"matchup": {"pitcher": {"fullName": "A"}},
             "playEvents": [
                {"isPitch": true, "details": {"type": {"description": "Four-Seam Fastball"}}},
                {"isPitch": true, "details": {"type": {"description": "Slider"}}}]},
            {"matchup": {"pitcher": {"fullName": "B"}},
             "playEvents": [
                {"isPitch": true, "details": {"type": {"description": "Sinker"}}}]},
            {"matchup": {"pitcher": {"fullName": "A"}},
             "playEvents": [
                {"isPitch": true, "details": {"type": {"description": "Four-Seam Fastball"}}},
                {"isPitch": true, "details": {"type": {"description": "Sinker"}}}]}
        ]"#,
    );
    let table = aggregate(plays.as_array().unwrap());
    assert_eq!(table.total(), 5);
    assert_eq!(table.pitcher_total("A"), 4);
    assert_eq!(table.pitcher_total("B"), 1);
    assert_eq!(table.category_total("A", "heater"), 3);
    assert_eq!(table.category_total("A", "breaking ball"), 1);
    assert_eq!(table.count("A", "heater", "fastball"), 2);
    assert_eq!(table.count("A", "heater", "sinker"), 1);
    assert_eq!(table.count("A", "breaking ball", "slider"), 1);
    assert_eq!(table.count("B", "heater", "sinker"), 1);
    assert_eq!(table.count("B", "heater", "fastball"), 0);
}

#[test]
fn the_total_of_a_pitcher_is_the_number_of_pitch_events() {
    let text = r#"[
        {"matchup": {"pitcher": {"fullName": "A"}},
         "playEvents": [{"isPitch": true}, {"isPitch": false}, {"pitchData": 1}]},
        {"matchup": {"pitcher": {"fullName": "B"}},
         "playEvents": [{"isPitch": true}]},
        {"matchup": {"pitcher": {"fullName": "A"}},
         "playEvents": [{"isPitch": true}, {}]}
    ]"#;
    let plays = json(text);
    let mut reversed = plays.as_array().unwrap().clone();
    reversed.reverse();
    let forward = aggregate(plays.as_array().unwrap());
    let backward = aggregate(&reversed);
    for table in [&forward, &backward] {
        assert_eq!(table.pitcher_total("A"), 3);
        assert_eq!(table.pitcher_total("B"), 1);
        assert_eq!(table.total(), 4);
    }
}

#[test]
fn summarizing_twice_gives_the_same_table() {
    let feed = json(
        r#"{"liveData": {"plays": {"allPlays": [
            {"matchup": {"pitcher": {"fullName": "Jane Doe"}},
             "playEvents": [
                {"isPitch": true, "details": {"type": {"description": "Curveball"}}},
                {"isPitch": true, "details": {"type": {"description": "Changeup"}}},
                {"isPitch": true, "details": {"type": {"description": "Curveball"}}}]}
        ]}}}"#,
    );
    let first = summarize_pitches(&feed).unwrap();
    let second = summarize_pitches(&feed).unwrap();
    assert_eq!(first.total(), second.total());
    assert_eq!(first.pitchers(), second.pitchers());
    for pitcher in first.pitchers() {
        assert_eq!(first.categories(&pitcher), second.categories(&pitcher));
        for category in first.categories(&pitcher) {
            assert_eq!(first.pitches(&pitcher, &category), second.pitches(&pitcher, &category));
        }
    }
    assert_eq!(first.count("Jane Doe", "breaking ball", "curveball"), 2);
    assert_eq!(first.count("Jane Doe", "offspeed", "changeup"), 1);
}
