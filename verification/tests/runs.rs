use data_sampler::aggregate::{map_data, Aggregator, FatalParseError};
use data_sampler::config::{Config, DEFAULT_PRESSURE_THRESHOLD};
use data_sampler::extremum::MinMaxValue;
use data_sampler::record::{Record, RecordError};

fn read(line: &str) -> Record {
    let mut record = Record::parse(line.as_bytes());
    for token in record.tokens.iter_mut() {
        token.number = std::str::from_utf8(&token.text)
            .ok()
            .and_then(|text| text.parse::<f32>().ok())
            .map(f32::to_bits);
    }
    record
}

fn settings() -> Config {
    Config {
        pressure_field: String::from("F_pri_pressure_bar"),
        displacement_field: String::from("Displacement_A_mm"),
        min_max_field: String::from("Force_N"),
        pressure_threshold: 101.0f32.to_bits(),
    }
}

fn line(pressure: f32, displacement: f32, force: f32) -> String {
    format!(
        "F_pri_pressure_bar;{};Displacement_A_mm;{};Force_N;{}",
        pressure, displacement, force
    )
}

/// Lines below the threshold, then the line that arms the run with a
/// displacement of 2.5.
fn opening() -> Vec<String> {
    vec![
        line(100.0, 1.0, 50.0),
        line(101.0, -1.0, -50.0),
        line(99.5, 1.0, 50.0),
        line(105.0, 2.5, 99.0),
    ]
}

/// `before` lines that ramp down from 2.4 to 0, then `after` lines that go
/// on down to -2, with a force that swings between -1 and 3.
fn ramp(before: usize, after: usize) -> Vec<String> {
    let mut lines = Vec::new();
    for k in 1..=before {
        let d = 2.4 * ((before - k) as f32) / ((before - 1) as f32);
        let force = if k % 2 == 0 { -1.0 } else { 3.0 };
        lines.push(line(105.0, d, force));
    }
    for k in 1..=after {
        let d = -2.0 * (k as f32) / (after as f32);
        let force = if k % 2 == 0 { -1.0 } else { 3.0 };
        lines.push(line(105.0, d, force));
    }
    lines
}

fn records(lines: &[String]) -> Vec<Record> {
    lines.iter().map(|text| read(text)).collect()
}

#[test]
fn default_settings_name_the_fields() {
    let config = Config::default();
    assert_eq!(config.pressure_field, "F_pri_pressure_bar");
    assert_eq!(config.displacement_field, "Displacement_A_mm");
    assert_eq!(config.min_max_field, "Displacement_A_mm");
    assert_eq!(config.pressure_threshold, 101.0f32.to_bits());
    assert_eq!(DEFAULT_PRESSURE_THRESHOLD, 101.0f32.to_bits());
    assert_eq!(config.pressure_name(), b"F_pri_pressure_bar");
    assert_eq!(config.displacement_name(), b"Displacement_A_mm");
    assert_eq!(config.min_max_name(), b"Displacement_A_mm");
}

#[test]
fn long_cycle_is_kept_with_its_range_and_count() {
    let mut lines = opening();
    lines.extend(ramp(160, 40));
    let dataset = map_data(&records(&lines), &settings()).unwrap();
    assert_eq!(dataset.len(), 1);
    let (range, samples) = dataset[&1];
    assert_eq!(f32::from_bits(range.min), -1.0);
    assert_eq!(f32::from_bits(range.max), 3.0);
    assert_eq!(samples, 161);
}

#[test]
fn short_cycle_is_dropped_and_the_next_begins_empty() {
    let mut lines = opening();
    lines.extend(ramp(10, 1));
    let config = settings();
    let mut run = Aggregator::new();
    for text in lines.iter().take(lines.len() - 1) {
        run.feed(&read(text), &config).unwrap();
    }
    assert_eq!(run.samples(), 11);
    assert!(!run.current().has_none());
    run.feed(&read(&lines[lines.len() - 1]), &config).unwrap();
    assert_eq!(run.dataset().len(), 0);
    assert!(run.current().has_none());
    assert_eq!(run.current(), MinMaxValue::default());
    assert_eq!(run.samples(), 3);
    assert!(map_data(&records(&lines), &config).unwrap().is_empty());
}

#[test]
fn missing_pressure_while_seeking_stops_the_run() {
    let lines = vec![
        line(100.0, 1.0, 0.0),
        line(100.0, 1.0, 0.0),
        String::from("Displacement_A_mm;1.0;Force_N;2.0"),
        line(105.0, 2.5, 0.0),
    ];
    assert_eq!(
        map_data(&records(&lines), &settings()).err(),
        Some(FatalParseError { line: 3, kind: RecordError::MissingField })
    );
}

#[test]
fn run_over_nothing_keeps_nothing() {
    assert!(map_data(&Vec::new(), &settings()).unwrap().is_empty());
}

#[test]
fn new_run_is_seeking_with_a_count_of_one() {
    let run = Aggregator::new();
    assert_eq!(run.lines(), 0);
    assert_eq!(run.last(), None);
    assert_eq!(run.samples(), 1);
    assert!(run.current().has_none());
    assert!(run.dataset().is_empty());
}

#[test]
fn pressure_at_the_threshold_does_not_arm() {
    let config = settings();
    let mut run = Aggregator::new();
    run.feed(&read(&line(101.0, 2.5, 1.0)), &config).unwrap();
    assert_eq!(run.last(), None);
    assert_eq!(run.lines(), 1);
    run.feed(&read(&line(101.00001, 2.5, 1.0)), &config).unwrap();
    assert_eq!(run.last(), Some(2.5f32.to_bits()));
    assert_eq!(run.samples(), 1);
    assert!(run.current().has_none());
    assert_eq!(run.lines(), 2);
}

#[test]
fn seeking_reads_displacement_only_above_the_threshold() {
    let config = settings();
    let mut run = Aggregator::new();
    run.feed(&read("F_pri_pressure_bar;50"), &config).unwrap();
    assert_eq!(run.last(), None);
    assert_eq!(
        run.feed(&read("F_pri_pressure_bar;150"), &config),
        Err(FatalParseError { line: 2, kind: RecordError::MissingField })
    );
    assert_eq!(run.lines(), 1);
    assert_eq!(run.last(), None);
}

#[test]
fn seeking_finds_displacement_before_pressure() {
    let config = settings();
    let mut run = Aggregator::new();
    run.feed(&read("Displacement_A_mm;-4;F_pri_pressure_bar;150"), &config).unwrap();
    assert_eq!(run.last(), Some((-4.0f32).to_bits()));
}

#[test]
fn armed_run_counts_each_line_and_widens_the_range() {
    let config = settings();
    let mut run = Aggregator::new();
    run.feed(&read(&line(105.0, 2.5, 9.0)), &config).unwrap();
    run.feed(&read(&line(0.0, 2.0, 5.0)), &config).unwrap();
    assert_eq!(run.samples(), 2);
    assert_eq!(run.current(), MinMaxValue { min: 5.0f32.to_bits(), max: 5.0f32.to_bits() });
    run.feed(&read(&line(0.0, 3.0, -5.0)), &config).unwrap();
    assert_eq!(run.samples(), 3);
    assert_eq!(run.current(), MinMaxValue { min: (-5.0f32).to_bits(), max: 5.0f32.to_bits() });
    assert_eq!(run.last(), Some(3.0f32.to_bits()));
}

#[test]
fn armed_run_does_not_need_the_pressure() {
    let config = settings();
    let mut run = Aggregator::new();
    run.feed(&read(&line(105.0, 2.5, 9.0)), &config).unwrap();
    run.feed(&read("Displacement_A_mm;1;Force_N;2"), &config).unwrap();
    assert_eq!(run.samples(), 2);
}

#[test]
fn armed_run_stops_on_a_malformed_value() {
    let lines = vec![
        line(105.0, 2.5, 9.0),
        line(105.0, 2.0, 9.0),
        String::from("F_pri_pressure_bar;105;Displacement_A_mm;1.0;Force_N;much"),
    ];
    assert_eq!(
        map_data(&records(&lines), &settings()).err(),
        Some(FatalParseError { line: 3, kind: RecordError::MalformedValue })
    );
}

#[test]
fn armed_run_stops_on_a_truncated_line() {
    let lines = vec![
        line(105.0, 2.5, 9.0),
        String::from("F_pri_pressure_bar;105;Force_N;1.0;Displacement_A_mm"),
    ];
    assert_eq!(
        map_data(&records(&lines), &settings()).err(),
        Some(FatalParseError { line: 2, kind: RecordError::TruncatedLine })
    );
}

#[test]
fn displacement_is_read_before_the_range_field() {
    let lines = vec![
        line(105.0, 2.5, 9.0),
        String::from("Force_N;bad;Displacement_A_mm"),
    ];
    assert_eq!(
        map_data(&records(&lines), &settings()).err(),
        Some(FatalParseError { line: 2, kind: RecordError::TruncatedLine })
    );
}

#[test]
fn failed_line_leaves_the_run_as_it_was() {
    let config = settings();
    let mut run = Aggregator::new();
    run.feed(&read(&line(105.0, 2.5, 9.0)), &config).unwrap();
    run.feed(&read(&line(105.0, 2.0, 4.0)), &config).unwrap();
    let error = run.feed(&read("Displacement_A_mm;1"), &config);
    assert_eq!(error, Err(FatalParseError { line: 3, kind: RecordError::MissingField }));
    assert_eq!(run.lines(), 2);
    assert_eq!(run.samples(), 2);
    assert_eq!(run.last(), Some(2.0f32.to_bits()));
    assert_eq!(run.current(), MinMaxValue { min: 4.0f32.to_bits(), max: 4.0f32.to_bits() });
}

#[test]
fn crossing_takes_the_reading_of_its_own_line() {
    let mut lines = vec![line(105.0, 1.0, 0.0)];
    for _ in 0..150 {
        lines.push(line(0.0, 1.0, 2.0));
    }
    lines.push(line(0.0, -1.0, 77.0));
    let dataset = map_data(&records(&lines), &settings()).unwrap();
    assert_eq!(dataset.len(), 1);
    let (range, samples) = dataset[&1];
    assert_eq!(samples, 151);
    assert_eq!(f32::from_bits(range.min), 2.0);
    assert_eq!(f32::from_bits(range.max), 77.0);
}

#[test]
fn crossing_at_the_limit_is_noise() {
    let mut lines = vec![line(105.0, 1.0, 0.0)];
    for _ in 0..149 {
        lines.push(line(0.0, 1.0, 2.0));
    }
    lines.push(line(0.0, -1.0, 77.0));
    let config = settings();
    let mut run = Aggregator::new();
    for text in lines.iter().take(150) {
        run.feed(&read(text), &config).unwrap();
    }
    assert_eq!(run.samples(), 150);
    run.feed(&read(&lines[150]), &config).unwrap();
    assert!(run.dataset().is_empty());
    assert_eq!(run.samples(), 3);
    assert!(run.current().has_none());
}

#[test]
fn from_zero_to_minus_zero_is_a_crossing() {
    let config = settings();
    let mut run = Aggregator::new();
    run.feed(&read(&line(105.0, 0.0, 0.0)), &config).unwrap();
    run.feed(&read(&line(105.0, 0.5, 1.0)), &config).unwrap();
    run.feed(&read(&line(105.0, 0.0, 1.0)), &config).unwrap();
    assert_eq!(run.samples(), 3);
    assert!(!run.current().has_none());
    run.feed(&read("Displacement_A_mm;-0;Force_N;1"), &config).unwrap();
    assert_eq!(run.samples(), 3);
    assert!(run.current().has_none());
    assert_eq!(run.last(), Some((-0.0f32).to_bits()));
}

#[test]
fn from_negative_to_positive_is_no_crossing() {
    let config = settings();
    let mut run = Aggregator::new();
    run.feed(&read(&line(105.0, -1.0, 0.0)), &config).unwrap();
    run.feed(&read(&line(105.0, 1.0, 1.0)), &config).unwrap();
    assert_eq!(run.samples(), 2);
    run.feed(&read(&line(105.0, -1.0, 1.0)), &config).unwrap();
    assert_eq!(run.samples(), 3);
    run.feed(&read(&line(105.0, -2.0, 1.0)), &config).unwrap();
    assert_eq!(run.samples(), 4);
}

#[test]
fn cycles_are_numbered_from_one_without_gaps() {
    let mut lines = vec![line(105.0, 1.0, 0.0)];
    let lengths = [200usize, 20, 151, 5, 150, 300];
    for (round, length) in lengths.iter().enumerate() {
        let begun = if round == 0 { 1 } else { 3 };
        for _ in begun..*length {
            lines.push(line(0.0, 1.0, round as f32));
        }
        lines.push(line(0.0, -1.0, round as f32));
    }
    for _ in 0..400 {
        lines.push(line(0.0, 1.0, 0.0));
    }
    let dataset = map_data(&records(&lines), &settings()).unwrap();
    assert_eq!(dataset.len(), 3);
    let mut keys: Vec<usize> = dataset.keys().copied().collect();
    keys.sort();
    assert_eq!(keys, vec![1, 2, 3]);
    assert_eq!(dataset[&1].1, 200);
    assert_eq!(dataset[&2].1, 151);
    assert_eq!(dataset[&3].1, 300);
    assert_eq!(f32::from_bits(dataset[&1].0.max), 0.0);
    assert_eq!(f32::from_bits(dataset[&2].0.max), 2.0);
    assert_eq!(f32::from_bits(dataset[&3].0.min), 5.0);
    for (_, entry) in dataset.iter() {
        assert!(entry.1 > 150);
    }
}

#[test]
fn cycle_under_way_at_the_end_is_dropped() {
    let mut lines = vec![line(105.0, 1.0, 0.0)];
    for _ in 0..500 {
        lines.push(line(0.0, 1.0, 2.0));
    }
    assert!(map_data(&records(&lines), &settings()).unwrap().is_empty());
}

#[test]
fn finish_hands_out_what_the_run_kept() {
    let mut lines = opening();
    lines.extend(ramp(160, 40));
    let config = settings();
    let mut run = Aggregator::new();
    for text in lines.iter() {
        run.feed(&read(text), &config).unwrap();
    }
    assert_eq!(run.lines(), lines.len());
    let streamed = run.finish();
    assert_eq!(streamed, map_data(&records(&lines), &config).unwrap());
}
