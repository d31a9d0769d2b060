use pitchers::table::AggregationTable;

#[test]
fn a_new_table_is_empty() {
    let table = AggregationTable::new();
    assert_eq!(table.total(), 0);
    assert!(table.pitchers().is_empty());
    assert!(table.categories("Jane Doe").is_empty());
    assert!(table.pitches("Jane Doe", "heater").is_empty());
    assert_eq!(table.pitcher_total("Jane Doe"), 0);
    assert_eq!(table.category_total("Jane Doe", "heater"), 0);
    assert_eq!(table.count("Jane Doe", "heater", "fastball"), 0);
}

#[test]
fn the_first_pitch_creates_its_entries() {
    let mut table = AggregationTable::new();
    table.record("Jane Doe", "heater", "fastball");
    assert_eq!(table.pitchers(), vec!["Jane Doe".to_string()]);
    assert_eq!(table.categories("Jane Doe"), vec!["heater".to_string()]);
    assert_eq!(table.pitches("Jane Doe", "heater"), vec![("fastball".to_string(), 1)]);
    assert_eq!(table.total(), 1);
}

#[test]
fn a_repeated_pitch_raises_its_count() {
    let mut table = AggregationTable::new();
    table.record("Jane Doe", "heater", "fastball");
    table.record("Jane Doe", "heater", "fastball");
    table.record("Jane Doe", "heater", "fastball");
    assert_eq!(table.count("Jane Doe", "heater", "fastball"), 3);
    assert_eq!(table.pitches("Jane Doe", "heater").len(), 1);
    assert_eq!(table.category_total("Jane Doe", "heater"), 3);
    assert_eq!(table.pitcher_total("Jane Doe"), 3);
    assert_eq!(table.total(), 3);
}

#[test]
fn totals_are_the_sums_below_them() {
    let mut table = AggregationTable::new();
    table.record("A", "heater", "fastball");
    table.record("A", "heater", "sinker");
    table.record("A", "heater", "fastball");
    table.record("A", "offspeed", "changeup");
    table.record("B", "heater", "fastball");
    table.record("B", "other", "knuckleball");
    assert_eq!(table.category_total("A", "heater"), 3);
    assert_eq!(table.category_total("A", "offspeed"), 1);
    assert_eq!(table.pitcher_total("A"), 4);
    assert_eq!(table.category_total("B", "heater"), 1);
    assert_eq!(table.category_total("B", "other"), 1);
    assert_eq!(table.pitcher_total("B"), 2);
    assert_eq!(table.total(), 6);
    let mut sum: u128 = 0;
    for pitcher in table.pitchers() {
        let mut of_pitcher: u128 = 0;
        for category in table.categories(&pitcher) {
            let of_category: u128 =
                table.pitches(&pitcher, &category).iter().map(|p| p.1).sum();
            assert_eq!(of_category, table.category_total(&pitcher, &category));
            of_pitcher += of_category;
        }
        assert_eq!(of_pitcher, table.pitcher_total(&pitcher));
        sum += of_pitcher;
    }
    assert_eq!(sum, table.total());
}

#[test]
fn every_listed_count_is_at_least_one() {
    let mut table = AggregationTable::new();
    table.record("A", "heater", "fastball");
    table.record("B", "breaking ball", "slider");
    table.record("A", "breaking ball", "slider");
    for pitcher in table.pitchers() {
        let categories = table.categories(&pitcher);
        assert!(!categories.is_empty());
        for category in categories {
            let pitches = table.pitches(&pitcher, &category);
            assert!(!pitches.is_empty());
            for (_, count) in pitches {
                assert!(count >= 1);
            }
        }
    }
}

#[test]
fn the_same_name_under_another_key_is_another_entry() {
    let mut table = AggregationTable::new();
    table.record("A", "fastball", "fastball");
    table.record("A", "heater", "fastball");
    table.record("B", "heater", "fastball");
    assert_eq!(table.count("A", "fastball", "fastball"), 1);
    assert_eq!(table.count("A", "heater", "fastball"), 1);
    assert_eq!(table.count("B", "heater", "fastball"), 1);
    assert_eq!(table.count("B", "fastball", "fastball"), 0);
    assert_eq!(table.count("a", "heater", "fastball"), 0);
}

#[test]
fn the_order_of_recording_does_not_change_the_counts() {
    let pitches = [
        ("A", "heater", "fastball"),
        ("B", "breaking ball", "curveball"),
        ("A", "breaking ball", "slider"),
        ("A", "heater", "fastball"),
        ("B", "breaking ball", "curveball"),
        ("A", "heater", "sinker"),
    ];
    let mut forward = AggregationTable::new();
    for (p, c, n) in pitches {
        forward.record(p, c, n);
    }
    let mut backward = AggregationTable::new();
    for (p, c, n) in pitches.iter().rev() {
        backward.record(p, c, n);
    }
    for (p, c, n) in pitches {
        assert_eq!(forward.count(p, c, n), backward.count(p, c, n));
        assert_eq!(forward.category_total(p, c), backward.category_total(p, c));
        assert_eq!(forward.pitcher_total(p), backward.pitcher_total(p));
    }
    assert_eq!(forward.total(), backward.total());
    assert_eq!(forward.count("A", "heater", "fastball"), 2);
}
