use pitchers::feed::aggregate;
use pitchers::layout::{
    category_line, decimal_string, pad_left_string, pad_right_string, pitch_line, pitcher_line,
    report_lines,
};
use pitchers::report::{rank_of, render, CategoryBlock, PitchLine, PitcherBlock};
use pitchers::table::AggregationTable;

fn table_of(pitches: &[(&str, &str, &str)]) -> AggregationTable {
    let mut table = AggregationTable::new();
    for (pitcher, category, name) in pitches {
        table.record(pitcher, category, name);
    }
    table
}

fn names(blocks: &[PitcherBlock]) -> Vec<&str> {
    blocks.iter().map(|b| b.name.as_str()).collect()
}

fn labels(block: &PitcherBlock) -> Vec<&str> {
    block.categories.iter().map(|c| c.label.as_str()).collect()
}

fn lines(block: &CategoryBlock) -> Vec<(&str, u128)> {
    block.pitches.iter().map(|l| (l.name.as_str(), l.count)).collect()
}

#[test]
fn an_empty_table_has_an_empty_report() {
    let blocks = render(&AggregationTable::new());
    assert!(blocks.is_empty());
    assert_eq!(report_lines(&blocks), vec![String::new()]);
}

#[test]
fn one_pitch_gives_one_block_with_total_one() {
    let blocks = render(&table_of(&[("Jane Doe", "fastball", "fastball")]));
    assert_eq!(blocks.len(), 1);
    assert_eq!(blocks[0].name, "Jane Doe");
    assert_eq!(blocks[0].total, 1);
    assert_eq!(labels(&blocks[0]), vec!["fastball"]);
    assert_eq!(blocks[0].categories[0].subtotal, 1);
    assert_eq!(lines(&blocks[0].categories[0]), vec![("fastball", 1)]);
}

#[test]
fn pitchers_come_in_ascending_order_of_name() {
    let blocks = render(&table_of(&[
        ("Zack", "heater", "fastball"),
        ("adam", "heater", "fastball"),
        ("Bob", "heater", "fastball"),
        ("Bo", "heater", "fastball"),
        ("Adam", "heater", "fastball"),
    ]));
    assert_eq!(names(&blocks), vec!["Adam", "Bo", "Bob", "Zack", "adam"]);
}

#[test]
fn preferred_categories_come_first_and_the_rest_by_label() {
    let blocks = render(&table_of(&[
        ("A", "other", "knuckleball"),
        ("A", "offspeed", "changeup"),
        ("A", "fastball", "fastball"),
        ("A", "breaking ball", "slider"),
        ("A", "Eephus", "Eephus"),
        ("A", "heater", "sinker"),
        ("A", "unknown", "unknown"),
    ]));
    assert_eq!(
        labels(&blocks[0]),
        vec!["heater", "breaking ball", "offspeed", "Eephus", "fastball", "other", "unknown"]
    );
}

#[test]
fn a_preferred_category_that_is_absent_is_not_shown() {
    let blocks = render(&table_of(&[("A", "offspeed", "changeup"), ("A", "curveball", "curveball")]));
    assert_eq!(labels(&blocks[0]), vec!["offspeed", "curveball"]);
}

#[test]
fn pitches_come_from_the_highest_count_down() {
    let blocks = render(&table_of(&[
        ("A", "heater", "cutter"),
        ("A", "heater", "sinker"),
        ("A", "heater", "fastball"),
        ("A", "heater", "sinker"),
        ("A", "heater", "fastball"),
        ("A", "heater", "fastball"),
    ]));
    assert_eq!(lines(&blocks[0].categories[0]), vec![("fastball", 3), ("sinker", 2), ("cutter", 1)]);
    assert_eq!(blocks[0].categories[0].subtotal, 6);
    assert_eq!(blocks[0].total, 6);
}

#[test]
fn equal_counts_come_by_name() {
    let blocks = render(&table_of(&[
        ("A", "heater", "sinker"),
        ("A", "heater", "cutter"),
        ("A", "heater", "fastball"),
        ("A", "heater", "sinker"),
        ("A", "heater", "cutter"),
    ]));
    assert_eq!(lines(&blocks[0].categories[0]), vec![("cutter", 2), ("sinker", 2), ("fastball", 1)]);
}

#[test]
fn the_report_does_not_depend_on_the_order_of_recording() {
    let pitches = [
        ("B", "breaking ball", "curveball"),
        ("A", "heater", "fastball"),
        ("A", "breaking ball", "slider"),
        ("A", "heater", "fastball"),
        ("B", "breaking ball", "curveball"),
        ("A", "heater", "fastball"),
    ];
    let mut reversed = pitches;
    reversed.reverse();
    let first = report_lines(&render(&table_of(&pitches)));
    let second = report_lines(&render(&table_of(&reversed)));
    assert_eq!(first, second);
}

#[test]
fn rendering_twice_gives_the_same_report() {
    let table = table_of(&[
        ("B", "heater", "fastball"),
        ("A", "other", "knuckleball"),
        ("A", "heater", "fastball"),
    ]);
    assert_eq!(report_lines(&render(&table)), report_lines(&render(&table)));
}

#[test]
fn two_pitchers_are_reported_in_full() {
    let blocks = render(&table_of(&[
        ("Pat Smith", "breaking ball", "curveball"),
        ("Jane Doe", "heater", "fastball"),
        ("Jane Doe", "breaking ball", "slider"),
        ("Jane Doe", "heater", "fastball"),
        ("Pat Smith", "breaking ball", "curveball"),
        ("Jane Doe", "heater", "fastball"),
    ]));
    assert_eq!(names(&blocks), vec!["Jane Doe", "Pat Smith"]);
    assert_eq!(blocks[0].total, 4);
    assert_eq!(labels(&blocks[0]), vec!["heater", "breaking ball"]);
    assert_eq!(blocks[0].categories[0].subtotal, 3);
    assert_eq!(lines(&blocks[0].categories[0]), vec![("fastball", 3)]);
    assert_eq!(blocks[0].categories[1].subtotal, 1);
    assert_eq!(lines(&blocks[0].categories[1]), vec![("slider", 1)]);
    assert_eq!(blocks[1].total, 2);
    assert_eq!(labels(&blocks[1]), vec!["breaking ball"]);
    assert_eq!(lines(&blocks[1].categories[0]), vec![("curveball", 2)]);
    assert_eq!(
        report_lines(&blocks),
        vec![
            "",
            "Jane Doe      (4)",
            "  heater  3",
            "    fastball       3",
            "  breaking ball  1",
            "    slider         1",
            "",
            "Pat Smith     (2)",
            "  breaking ball  2",
            "    curveball      2",
            "",
        ]
    );
}

#[test]
fn a_feed_is_reported_from_its_labels() {
    let plays: serde_json::Value = serde_json::from_str(
        r#"[
            {"matchup": {"pitcher": {"fullName": "Pat Smith"}},
             "playEvents": [
                {"isPitch": true, "details": {"type": {"description": "Curveball"}}},
                {"isPitch": true, "details": {"type": {"description": "Curveball"}}}]},
            {"matchup": {"pitcher": {"fullName": "Jane Doe"}},
             "playEvents": [
                {"isPitch": true, "details": {"type": {"description": "Four-Seam Fastball"}}},
                {"isPitch": true, "details": {"type": {"description": "Slider"}}},
                {"details": {"description": "Pickoff Attempt 1B"}},
                {"isPitch": true, "details": {"type": {"description": "Four-Seam Fastball"}}},
                {"isPitch": true, "details": {"type": {"description": "Four-Seam Fastball"}}}]}
        ]"#,
    )
    .unwrap();
    let table = aggregate(plays.as_array().unwrap());
    assert_eq!(
        report_lines(&render(&table)),
        vec![
            "",
            "Jane Doe      (4)",
            "  heater  3",
            "    fastball       3",
            "  breaking ball  1",
            "    slider         1",
            "",
            "Pat Smith     (2)",
            "  breaking ball  2",
            "    curveball      2",
            "",
        ]
    );
}

#[test]
fn the_rank_of_a_category_is_its_place() {
    assert_eq!(rank_of("heater"), 0);
    assert_eq!(rank_of("breaking ball"), 1);
    assert_eq!(rank_of("offspeed"), 2);
    assert_eq!(rank_of("other"), 3);
    assert_eq!(rank_of("Heater"), 3);
    assert_eq!(rank_of(""), 3);
}

#[test]
fn numbers_are_written_in_decimal() {
    assert_eq!(decimal_string(0), "0");
    assert_eq!(decimal_string(7), "7");
    assert_eq!(decimal_string(10), "10");
    assert_eq!(decimal_string(109), "109");
    assert_eq!(decimal_string(1234567890), "1234567890");
    assert_eq!(decimal_string(u128::MAX), "340282366920938463463374607431768211455");
}

#[test]
fn padding_fills_up_to_the_width_and_never_cuts() {
    assert_eq!(pad_right_string("ab", 5), "ab   ");
    assert_eq!(pad_right_string("abcde", 5), "abcde");
    assert_eq!(pad_right_string("abcdef", 5), "abcdef");
    assert_eq!(pad_right_string("", 3), "   ");
    assert_eq!(pad_right_string("x", 0), "x");
    assert_eq!(pad_left_string("7", 3), "  7");
    assert_eq!(pad_left_string("123", 3), "123");
    assert_eq!(pad_left_string("1234", 3), "1234");
    assert_eq!(pad_left_string("", 2), "  ");
}

#[test]
fn padding_counts_characters() {
    assert_eq!(pad_right_string("Jos\u{00E9}", 6), "Jos\u{00E9}  ");
    assert_eq!(pad_left_string("\u{00E9}", 2), " \u{00E9}");
}

#[test]
fn padding_agrees_with_the_standard_formatter() {
    for s in ["", "a", "Jane Doe", "A Very Long Pitcher Name", "Jos\u{00E9}"] {
        assert_eq!(pad_right_string(s, 13), format!("{:13}", s));
        assert_eq!(pad_right_string(s, 12), format!("{:12}", s));
    }
    for n in [0u128, 5, 42, 100, 1234] {
        assert_eq!(pad_left_string(&decimal_string(n), 2), format!("{:>2}", n));
        assert_eq!(pad_left_string(&decimal_string(n), 3), format!("{:>3}", n));
    }
}

#[test]
fn each_kind_of_line_has_its_layout() {
    let line = PitchLine { name: "fastball".to_string(), count: 12 };
    assert_eq!(pitch_line(&line), "    fastball      12");
    let category = CategoryBlock { label: "heater".to_string(), subtotal: 12, pitches: vec![line] };
    assert_eq!(category_line(&category), "  heater 12");
    let pitcher =
        PitcherBlock { name: "Jane Doe".to_string(), total: 112, categories: vec![category] };
    assert_eq!(pitcher_line(&pitcher), "Jane Doe      (112)");
    let long = PitchLine { name: "four-seam fastball".to_string(), count: 1234 };
    assert_eq!(pitch_line(&long), "    four-seam fastball 1234");
}
