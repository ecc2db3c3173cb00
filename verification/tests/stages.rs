use station_stats::aggregate::Aggregate;
use station_stats::chunk::{parse_lines, process_chunk, DiagnosticKind};
use station_stats::keys::{compare_keys, find_key, KeyOrder};
use station_stats::merge::{absorb, merge_results};
use station_stats::planner::{adjust_chunk_boundary, host_worker_count, plan_chunks, workers_for, ChunkRange};
use station_stats::record::{check_key, classify_line, split_line, LineKind};
use station_stats::render::{render_line, render_results};
use station_stats::scan::find_byte;
use station_stats::stats::{calculate_statistics, summarize, Statistics, StatsError, Summary};
use station_stats::decimal::scan_digits;
use station_stats::value::{parse_value, trim, ValueOutcome, LIMIT, SCALE};

const TENTH: i64 = 100_000_000_000_000;

fn tenths(t: i64) -> i64 {
    t * TENTH
}

fn fixed(x: f64) -> i64 {
    tenths((x * 10.0).round() as i64)
}

fn as_numbers(values: &[i64]) -> Vec<f64> {
    values.iter().map(|v| *v as f64 / 1e15).collect()
}

fn aggregate_of(entries: &[(&[u8], &[i64])]) -> Aggregate {
    let mut a = Aggregate::new();
    for (key, values) in entries {
        a.extend(key, values);
    }
    a
}

#[test]
fn test_process_chunk() {
    let chunk = b"station1;23.5\nstation2;19.8\nstation1;25.0\n";
    let result = process_chunk(chunk).aggregate;
    assert_eq!(as_numbers(result.get(b"station1").unwrap()), vec![23.5, 25.0]);
    assert_eq!(as_numbers(result.get(b"station2").unwrap()), vec![19.8]);
}

#[test]
fn test_merge_results() {
    let result1 = aggregate_of(&[(b"station1", &[fixed(23.5), fixed(25.0)])]);
    let result2 = aggregate_of(&[(b"station1", &[fixed(22.0)]), (b"station2", &[fixed(19.8)])]);
    let results = vec![result1, result2];
    let merged = merge_results(results);
    assert_eq!(as_numbers(merged.get(b"station1").unwrap()), vec![23.5, 25.0, 22.0]);
    assert_eq!(as_numbers(merged.get(b"station2").unwrap()), vec![19.8]);
}

#[test]
fn test_calculate_statistics() {
    let global_data = aggregate_of(&[
        (b"station1", &[fixed(23.5), fixed(25.0), fixed(22.0)]),
        (b"station2", &[fixed(19.8), fixed(20.2), fixed(18.5)]),
    ]);
    let stats = calculate_statistics(global_data).unwrap();
    let one = stats.get(b"station1").unwrap();
    assert_eq!((one.min as f64, one.median as f64, one.max as f64), (22.0, 24.0, 25.0));
    let two = stats.get(b"station2").unwrap();
    assert_eq!((two.min as f64, two.median as f64, two.max as f64), (19.0, 20.0, 20.0));
}

#[test]
fn test_adjust_chunk_boundary() {
    let data = b"station1;23.5\nstation2;19.8\nst";
    let mapped = &data[..0];
    let adjusted = adjust_chunk_boundary(mapped, 0, 8);
    assert_eq!(adjusted, 8);
}

#[test]
fn boundary_moves_to_the_next_line_end() {
    let data = b"station1;23.5\nstation2;19.8\nst";
    assert_eq!(adjust_chunk_boundary(data, 0, 8), 13);
    assert_eq!(adjust_chunk_boundary(data, 0, 13), 13);
    assert_eq!(adjust_chunk_boundary(data, 0, 14), 27);
    assert_eq!(adjust_chunk_boundary(data, 0, 28), 30);
    assert_eq!(adjust_chunk_boundary(data, 0, 30), 30);
    assert_eq!(adjust_chunk_boundary(data, 17, 0), 13);
}

#[test]
fn plan_gives_the_expected_ranges() {
    let data = b"station1;23.5\nstation2;19.8\nst";
    let plan = plan_chunks(data, 3);
    assert_eq!(
        plan,
        vec![
            ChunkRange { start: 0, end: 13 },
            ChunkRange { start: 13, end: 27 },
            ChunkRange { start: 27, end: 30 },
        ]
    );
    assert_eq!(plan_chunks(data, 1), vec![ChunkRange { start: 0, end: 30 }]);
}

#[test]
fn plan_tiles_the_buffer_for_every_worker_count() {
    let data = b"a;1.0\nbb;2.0\n\nccc;3.0\ndddd;4.0\ne;5.0";
    for workers in 1..=(data.len() + 3) {
        let plan = plan_chunks(data, workers);
        assert_eq!(plan.len(), workers);
        assert_eq!(plan[0].start, 0);
        assert_eq!(plan[workers - 1].end, data.len());
        for i in 0..workers {
            assert!(plan[i].start <= plan[i].end);
            if i + 1 < workers {
                assert_eq!(plan[i].end, plan[i + 1].start);
                assert!(plan[i].end == data.len() || data[plan[i].end] == b'\n');
            }
        }
        for at in 0..data.len() {
            let holders = plan.iter().filter(|r| r.start <= at && at < r.end).count();
            assert_eq!(holders, 1);
        }
    }
}

#[test]
fn plan_without_line_end_leaves_later_chunks_empty() {
    let data = b"station1;23.5";
    let plan = plan_chunks(data, 4);
    assert_eq!(plan[0], ChunkRange { start: 0, end: 13 });
    for i in 1..4 {
        assert_eq!(plan[i], ChunkRange { start: 13, end: 13 });
    }
    let empty: &[u8] = b"";
    assert_eq!(plan_chunks(empty, 2), vec![ChunkRange { start: 0, end: 0 }; 2]);
}

#[test]
fn host_has_at_least_one_worker() {
    assert!(host_worker_count() >= 1);
}

#[test]
fn one_worker_for_each_processor_and_never_none() {
    assert_eq!(workers_for(0), 1);
    assert_eq!(workers_for(1), 1);
    assert_eq!(workers_for(2), 2);
    assert_eq!(workers_for(64), 64);
    assert_eq!(workers_for(usize::MAX), usize::MAX);
}

#[test]
fn value_text_gives_exact_fixed_point() {
    assert_eq!(parse_value(b"23.5"), ValueOutcome::Valid(23_500_000_000_000_000));
    assert_eq!(parse_value(b"-99.9"), ValueOutcome::Valid(-LIMIT));
    assert_eq!(parse_value(b"99.9"), ValueOutcome::Valid(LIMIT));
    assert_eq!(parse_value(b"0.0"), ValueOutcome::Valid(0));
    assert_eq!(parse_value(b"-0.0"), ValueOutcome::Valid(0));
    assert_eq!(parse_value(b"+1.5"), ValueOutcome::Valid(SCALE + SCALE / 2));
    assert_eq!(parse_value(b".5"), ValueOutcome::Valid(SCALE / 2));
    assert_eq!(parse_value(b"5."), ValueOutcome::Valid(5 * SCALE));
    assert_eq!(parse_value(b"007.25"), ValueOutcome::Valid(7_250_000_000_000_000));
    assert_eq!(parse_value(b"1.2345"), ValueOutcome::Valid(1_234_500_000_000_000));
    assert_eq!(parse_value(b"23.50"), ValueOutcome::Valid(23_500_000_000_000_000));
    assert_eq!(parse_value(b"0.000000000000001"), ValueOutcome::Valid(1));
    assert_eq!(parse_value(b"0.0000000000000010000"), ValueOutcome::Valid(1));
    assert_eq!(parse_value(b"  23.5\t\r"), ValueOutcome::Valid(23_500_000_000_000_000));
    assert_eq!(parse_value(b"99.9000000000000000000000000000000"), ValueOutcome::Valid(LIMIT));
    assert_eq!(parse_value(b"-0099.90"), ValueOutcome::Valid(-LIMIT));
}

#[test]
fn value_text_finer_than_a_unit_is_rounded_to_the_nearest() {
    assert_eq!(parse_value(b"1.0000000000000001"), ValueOutcome::Valid(SCALE));
    assert_eq!(parse_value(b"0.0000000000000001"), ValueOutcome::Valid(0));
    assert_eq!(parse_value(b"0.0000000000000004999999999"), ValueOutcome::Valid(0));
    assert_eq!(parse_value(b"0.0000000000000005"), ValueOutcome::Valid(1));
    assert_eq!(parse_value(b"-0.0000000000000005"), ValueOutcome::Valid(-1));
    assert_eq!(parse_value(b"0.00000000000000149"), ValueOutcome::Valid(1));
    assert_eq!(parse_value(b"0.0000000000000015"), ValueOutcome::Valid(2));
    assert_eq!(parse_value(b"23.4567890123456789"), ValueOutcome::Valid(23_456_789_012_345_679));
    assert_eq!(parse_value(b"99.8999999999999999"), ValueOutcome::Valid(LIMIT));
    assert_eq!(parse_value(b"99.89999999999999949"), ValueOutcome::Valid(LIMIT - 1));
    assert_eq!(parse_value(b"99.900000000000001"), ValueOutcome::Invalid);
    assert_eq!(parse_value(b"99.9000000000000000000000000000001"), ValueOutcome::Invalid);
    assert_eq!(parse_value(b"-99.9000000000000000000000000000001"), ValueOutcome::Invalid);
}

#[test]
fn value_text_with_an_exponent() {
    assert_eq!(parse_value(b"1.5e1"), ValueOutcome::Valid(15 * SCALE));
    assert_eq!(parse_value(b"1.5E1"), ValueOutcome::Valid(15 * SCALE));
    assert_eq!(parse_value(b"-1.5e+1"), ValueOutcome::Valid(-15 * SCALE));
    assert_eq!(parse_value(b"15.0e-1"), ValueOutcome::Valid(SCALE + SCALE / 2));
    assert_eq!(parse_value(b"0.001e3"), ValueOutcome::Valid(SCALE));
    assert_eq!(parse_value(b"999.0e-1"), ValueOutcome::Valid(LIMIT));
    assert_eq!(parse_value(b"9.99e1"), ValueOutcome::Valid(LIMIT));
    assert_eq!(parse_value(b".999E2"), ValueOutcome::Valid(LIMIT));
    assert_eq!(parse_value(b"1.e1"), ValueOutcome::Valid(10 * SCALE));
    assert_eq!(parse_value(b"1.0e0000000000000000000000000000000000000000001"), ValueOutcome::Valid(10 * SCALE));
    assert_eq!(parse_value(b"1.0e-15"), ValueOutcome::Valid(1));
    assert_eq!(parse_value(b"5.0e-16"), ValueOutcome::Valid(1));
    assert_eq!(parse_value(b"4.9e-16"), ValueOutcome::Valid(0));
    assert_eq!(parse_value(b"1.0e-20"), ValueOutcome::Valid(0));
    assert_eq!(parse_value(b"9.9e-99999999999999999999999999999999999999999"), ValueOutcome::Valid(0));
    assert_eq!(parse_value(b"0.0e99999999999999999999999999999999999999999"), ValueOutcome::Valid(0));
    assert_eq!(parse_value(b"000.000e5"), ValueOutcome::Valid(0));
    assert_eq!(parse_value(b"0.00000000000000000001e21"), ValueOutcome::Valid(10 * SCALE));
    assert_eq!(parse_value(b"12345678901234567890.0e-19"), ValueOutcome::Valid(1_234_567_890_123_457));
    assert_eq!(parse_value(b"1.0e2"), ValueOutcome::Invalid);
    assert_eq!(parse_value(b"9.991e1"), ValueOutcome::Invalid);
    assert_eq!(parse_value(b"0.1e4"), ValueOutcome::Invalid);
    assert_eq!(parse_value(b"1.0e99999999999999999999999999999999999999999"), ValueOutcome::Invalid);
    assert_eq!(parse_value(b"0.00000000000000000001e99"), ValueOutcome::Invalid);
    assert_eq!(parse_value(b"1e1"), ValueOutcome::Invalid);
    assert_eq!(parse_value(b"1e-5"), ValueOutcome::Invalid);
    assert_eq!(parse_value(b"1.5e"), ValueOutcome::Unparsable);
    assert_eq!(parse_value(b"1.5e+"), ValueOutcome::Unparsable);
    assert_eq!(parse_value(b"1.5e1.0"), ValueOutcome::Unparsable);
    assert_eq!(parse_value(b"1.5e1e1"), ValueOutcome::Unparsable);
    assert_eq!(parse_value(b"1.5 e1"), ValueOutcome::Unparsable);
    assert_eq!(parse_value(b"e5"), ValueOutcome::Unparsable);
    assert_eq!(parse_value(b".e5"), ValueOutcome::Unparsable);
    assert_eq!(parse_value(b"1.5e--1"), ValueOutcome::Unparsable);
}

#[test]
fn value_text_that_names_no_finite_number() {
    for word in ["inf", "INF", "Inf", "infinity", "Infinity", "INFINITY", "nan", "NaN", "NAN", "+inf", "-inf", "-nan", " nan "] {
        assert_eq!(parse_value(word.as_bytes()), ValueOutcome::Invalid, "{}", word);
    }
    for word in ["in", "infi", "infinit", "infinityy", "na", "nanx", "+", "i", "n", "1nf", "+-inf"] {
        assert_eq!(parse_value(word.as_bytes()), ValueOutcome::Unparsable, "{}", word);
    }
}

#[test]
fn value_text_is_a_number_where_the_float_parser_takes_it() {
    let signs = ["", "+", "-"];
    let wholes = ["", "0", "7", "42", "099", "123", "4x"];
    let points = ["", "."];
    let fractions = ["", "0", "5", "25", "000001", "99999999999999999999", "5 "];
    let exponents = ["", "e0", "e1", "E-1", "e+2", "e-20", "e", "e+", "E-", "e1.5", "e999999999999999999999", "e-999999999999999999999", "f3"];
    let mut seen = 0;
    for sign in signs {
        for whole in wholes {
            for point in points {
                for fraction in fractions {
                    for exponent in exponents {
                        let text = format!(" {}{}{}{}{}\t", sign, whole, point, fraction, exponent);
                        let outcome = parse_value(text.as_bytes());
                        let float: Result<f64, _> = text.trim().parse::<f64>();
                        assert_eq!(outcome == ValueOutcome::Unparsable, float.is_err(), "{:?}", text);
                        if let Ok(f) = float {
                            let pointed = text.contains('.');
                            if !pointed || f.abs() > 100.0 {
                                assert_eq!(outcome, ValueOutcome::Invalid, "{:?}", text);
                            } else if f.abs() < 99.8 {
                                match outcome {
                                    ValueOutcome::Valid(v) => {
                                        assert!((v as f64 / 1e15 - f).abs() < 1e-12, "{:?}", text);
                                    }
                                    _ => panic!("{:?} is a value", text),
                                }
                            }
                        }
                        seen += 1;
                    }
                }
            }
        }
    }
    assert_eq!(seen, 3 * 7 * 2 * 7 * 13);
}

#[test]
fn value_text_that_is_a_number_but_not_accepted() {
    assert_eq!(parse_value(b"100.0"), ValueOutcome::Invalid);
    assert_eq!(parse_value(b"-100.0"), ValueOutcome::Invalid);
    assert_eq!(parse_value(b"99.91"), ValueOutcome::Invalid);
    assert_eq!(parse_value(b"-99.95"), ValueOutcome::Invalid);
    assert_eq!(parse_value(b"12345678901234567890123.0"), ValueOutcome::Invalid);
    assert_eq!(parse_value(b"5"), ValueOutcome::Invalid);
    assert_eq!(parse_value(b"-17"), ValueOutcome::Invalid);
}

#[test]
fn value_text_that_is_no_number() {
    assert_eq!(parse_value(b""), ValueOutcome::Unparsable);
    assert_eq!(parse_value(b"   "), ValueOutcome::Unparsable);
    assert_eq!(parse_value(b"."), ValueOutcome::Unparsable);
    assert_eq!(parse_value(b"-"), ValueOutcome::Unparsable);
    assert_eq!(parse_value(b"+-1.0"), ValueOutcome::Unparsable);
    assert_eq!(parse_value(b"abc"), ValueOutcome::Unparsable);
    assert_eq!(parse_value(b"1.2.3"), ValueOutcome::Unparsable);
    assert_eq!(parse_value(b"1 .5"), ValueOutcome::Unparsable);
    assert_eq!(parse_value(b"12a"), ValueOutcome::Unparsable);
    assert_eq!(parse_value(b"1.5x"), ValueOutcome::Unparsable);
}

#[test]
fn trim_strips_both_ends_only() {
    assert_eq!(trim(b" \t a b \r\n"), b"a b");
    assert_eq!(trim(b"ab"), b"ab");
    assert_eq!(trim(b" \x0b\x0c "), b"");
    assert_eq!(trim(b""), b"");
}

#[test]
fn trim_agrees_with_the_trimming_of_strings() {
    for code in 0..=0x10FFFFu32 {
        if let Some(c) = char::from_u32(code) {
            if code > 0x3100 && !c.is_whitespace() && code % 97 != 0 {
                continue;
            }
            let padded = format!("{}{} 1.5{}x {}", c, c, c, c);
            assert_eq!(trim(padded.as_bytes()), padded.trim().as_bytes(), "U+{:04X}", code);
            let one = c.to_string();
            assert_eq!(trim(one.as_bytes()), one.trim().as_bytes(), "U+{:04X}", code);
        }
    }
    assert_eq!(parse_value("\u{a0}23.5\u{3000}".as_bytes()), ValueOutcome::Valid(23_500_000_000_000_000));
}

#[test]
fn key_is_one_to_a_hundred_bytes() {
    assert!(check_key(b"a"));
    assert!(check_key(&[b'k'; 100]));
    assert!(!check_key(&[b'k'; 101]));
    assert!(!check_key(b""));
    assert!(!check_key(b"a;b"));
    assert!(!check_key(b"a\nb"));
    assert!(check_key("Zürich".as_bytes()));
}

#[test]
fn line_splits_at_the_first_delimiter() {
    let (key, raw) = split_line(b"a;b;c").unwrap();
    assert_eq!(key, b"a");
    assert_eq!(raw, b"b;c");
    assert!(split_line(b"abc").is_none());
    let (key, raw) = split_line(b";").unwrap();
    assert_eq!(key, b"");
    assert_eq!(raw, b"");
}

#[test]
fn every_kind_of_line() {
    assert_eq!(classify_line(b""), LineKind::Blank);
    assert_eq!(classify_line(b"station1 23.5"), LineKind::Undelimited);
    assert_eq!(classify_line(b";23.5"), LineKind::BadKey);
    let mut long = vec![b'k'; 101];
    long.extend_from_slice(b";23.5");
    assert_eq!(classify_line(&long), LineKind::BadKey);
    assert_eq!(classify_line(b";abc"), LineKind::BadKey);
    assert_eq!(classify_line(b"station1;abc"), LineKind::Unparsable);
    assert_eq!(classify_line(b"station1;"), LineKind::Unparsable);
    assert_eq!(classify_line(b"station1;1;2"), LineKind::Unparsable);
    assert_eq!(classify_line(b"station1;100.0"), LineKind::BadValue);
    assert_eq!(classify_line(b"station1;23"), LineKind::BadValue);
    assert_eq!(classify_line(b"station1; 23.5 "), LineKind::Record(tenths(235)));
    assert_eq!(classify_line(b"station1;-0.5\r"), LineKind::Record(-tenths(5)));
}

#[test]
fn single_key_keeps_every_value_in_line_order() {
    let chunk = b"k;3.0\nk;1.0\nk;2.0\nk;1.0\nk;-4.5";
    let report = process_chunk(chunk);
    assert_eq!(report.aggregate.len(), 1);
    assert_eq!(
        report.aggregate.get(b"k").unwrap(),
        &vec![tenths(30), tenths(10), tenths(20), tenths(10), -tenths(45)]
    );
    assert!(report.diagnostics.is_empty());
}

#[test]
fn long_fractions_and_exponents_are_records_too() {
    let chunk = b"k;1.0000000000000001\nk;1.5e1\nk;0.0000000000000001\nk;-99.9000\n";
    let report = process_chunk(chunk);
    assert_eq!(report.aggregate.len(), 1);
    assert_eq!(report.aggregate.get(b"k").unwrap(), &vec![SCALE, 15 * SCALE, 0, -LIMIT]);
    assert!(report.diagnostics.is_empty());
    let report = process_chunk(b"k;inf\nk;1e1\nk;99.900000000000001\nk;NaN\nk;1.5e\n");
    assert_eq!(report.aggregate.len(), 0);
    let texts: Vec<&[u8]> = report.diagnostics.iter().map(|d| d.text.as_slice()).collect();
    assert_eq!(texts, vec![&b"inf"[..], b"1e1", b"99.900000000000001", b"NaN"]);
}

#[test]
fn rejected_lines_are_left_out_and_the_rest_is_kept() {
    let mut chunk: Vec<u8> = Vec::new();
    chunk.extend_from_slice(b"a;1.0\n");
    chunk.extend_from_slice(b"a;100.0\n");
    chunk.extend_from_slice(b"a;-99.95\n");
    chunk.extend_from_slice(b"a;42\n");
    chunk.extend_from_slice(&[b'k'; 101]);
    chunk.extend_from_slice(b";2.0\n");
    chunk.extend_from_slice(b"no delimiter here\n");
    chunk.extend_from_slice(b"a;not a number\n");
    chunk.extend_from_slice(b"\n");
    chunk.extend_from_slice(b"b;2.0\n");
    chunk.extend_from_slice(b"a;3.0\n");
    let report = process_chunk(&chunk);
    assert_eq!(report.aggregate.len(), 2);
    assert_eq!(report.aggregate.get(b"a").unwrap(), &vec![tenths(10), tenths(30)]);
    assert_eq!(report.aggregate.get(b"b").unwrap(), &vec![tenths(20)]);
    assert!(report.aggregate.get(&[b'k'; 101]).is_none());
    let kinds: Vec<DiagnosticKind> = report.diagnostics.iter().map(|d| d.kind).collect();
    assert_eq!(
        kinds,
        vec![
            DiagnosticKind::InvalidValue,
            DiagnosticKind::InvalidValue,
            DiagnosticKind::InvalidValue,
            DiagnosticKind::InvalidKey,
            DiagnosticKind::MissingDelimiter,
        ]
    );
    assert_eq!(report.diagnostics[0].text, b"100.0");
    assert_eq!(report.diagnostics[3].text, vec![b'k'; 101]);
    assert_eq!(report.diagnostics[4].text, b"no delimiter here");
}

#[test]
fn chunk_that_is_not_utf8_yields_nothing() {
    let chunk = b"a;1.0\nb\xff;2.0\nc;3.0\n";
    let report = process_chunk(chunk);
    assert_eq!(report.aggregate.len(), 0);
    assert!(report.diagnostics.is_empty());
    let read_anyway = parse_lines(chunk);
    assert_eq!(read_anyway.aggregate.len(), 3);
    let text = "Zürich;1.5\n".as_bytes();
    let report = process_chunk(text);
    assert_eq!(report.aggregate.get("Zürich".as_bytes()).unwrap(), &vec![tenths(15)]);
}

#[test]
fn empty_chunk_yields_an_empty_aggregate() {
    let report = process_chunk(b"");
    assert_eq!(report.aggregate.len(), 0);
    assert!(report.diagnostics.is_empty());
    let report = process_chunk(b"\n\n\n");
    assert_eq!(report.aggregate.len(), 0);
    assert!(report.diagnostics.is_empty());
}

#[test]
fn carriage_return_before_the_line_end_is_whitespace() {
    let report = process_chunk(b"a;1.5\r\nb;2.5\r\n");
    assert_eq!(report.aggregate.get(b"a").unwrap(), &vec![tenths(15)]);
    assert_eq!(report.aggregate.get(b"b").unwrap(), &vec![tenths(25)]);
}

#[test]
fn aggregate_appends_and_never_leaves_a_key_empty() {
    let mut a = Aggregate::new();
    assert_eq!(a.len(), 0);
    a.extend(b"x", &[]);
    assert_eq!(a.len(), 0);
    assert!(a.get(b"x").is_none());
    a.record(b"x", 5);
    a.record(b"a", 7);
    a.record(b"x", 5);
    a.extend(b"m", &[1, 2]);
    a.extend(b"x", &[9]);
    assert_eq!(a.len(), 3);
    assert_eq!(a.get(b"x").unwrap(), &vec![5, 5, 9]);
    assert_eq!(a.get(b"a").unwrap(), &vec![7]);
    assert_eq!(a.get(b"m").unwrap(), &vec![1, 2]);
    assert_eq!(a.key_at(0), b"a");
    assert_eq!(a.key_at(1), b"m");
    assert_eq!(a.key_at(2), b"x");
    assert_eq!(a.values_at(1), &vec![1, 2]);
}

#[test]
fn keys_stand_in_byte_order() {
    let mut a = Aggregate::new();
    for key in [&b"b"[..], b"ab", b"", b"a", b"B", b"abc", b"\xc3\xa9"] {
        a.record(key, 1);
    }
    let keys: Vec<Vec<u8>> = (0..a.len()).map(|i| a.key_at(i).clone()).collect();
    let mut sorted = keys.clone();
    sorted.sort();
    assert_eq!(keys, sorted);
    assert_eq!(keys.len(), 7);
}

#[test]
fn merge_keeps_duplicates_and_chunk_order() {
    let first = aggregate_of(&[(b"k", &[1, 1]), (b"z", &[9])]);
    let second = aggregate_of(&[]);
    let third = aggregate_of(&[(b"k", &[1, 0]), (b"a", &[4])]);
    let merged = merge_results(vec![first, second, third]);
    assert_eq!(merged.len(), 3);
    assert_eq!(merged.get(b"k").unwrap(), &vec![1, 1, 1, 0]);
    assert_eq!(merged.get(b"z").unwrap(), &vec![9]);
    assert_eq!(merged.get(b"a").unwrap(), &vec![4]);
    assert_eq!(merge_results(Vec::new()).len(), 0);
}

#[test]
fn absorb_appends_to_what_is_there() {
    let mut global = aggregate_of(&[(b"k", &[1])]);
    let part = aggregate_of(&[(b"k", &[2, 3]), (b"j", &[4])]);
    absorb(&mut global, &part);
    assert_eq!(global.get(b"k").unwrap(), &vec![1, 2, 3]);
    assert_eq!(global.get(b"j").unwrap(), &vec![4]);
}

#[test]
fn summary_of_an_odd_count_takes_the_middle() {
    let s = summarize(&[tenths(235), tenths(250), tenths(220)]);
    assert_eq!(s, Summary { min: 22, median: 24, max: 25 });
    let s = summarize(&[tenths(71)]);
    assert_eq!(s, Summary { min: 7, median: 7, max: 7 });
}

#[test]
fn summary_of_an_even_count_takes_the_mean_of_the_middle_two() {
    let s = summarize(&[tenths(40), tenths(10), tenths(30), tenths(20)]);
    assert_eq!(s, Summary { min: 1, median: 3, max: 4 });
    let s = summarize(&[tenths(10), tenths(14)]);
    assert_eq!(s, Summary { min: 1, median: 1, max: 1 });
    let s = summarize(&[tenths(14), tenths(15)]);
    assert_eq!(s, Summary { min: 1, median: 1, max: 2 });
    let s = summarize(&[-tenths(30), -tenths(40)]);
    assert_eq!(s, Summary { min: -4, median: -4, max: -3 });
}

#[test]
fn rounding_goes_to_the_nearest_and_ties_away_from_zero() {
    let round = |v: i64| summarize(&[v]).min;
    assert_eq!(round(tenths(5)), 1);
    assert_eq!(round(-tenths(5)), -1);
    assert_eq!(round(tenths(15)), 2);
    assert_eq!(round(tenths(25)), 3);
    assert_eq!(round(-tenths(25)), -3);
    assert_eq!(round(tenths(4)), 0);
    assert_eq!(round(-tenths(4)), 0);
    assert_eq!(round(tenths(5) - 1), 0);
    assert_eq!(round(-tenths(5) + 1), 0);
    assert_eq!(round(LIMIT), 100);
    assert_eq!(round(-LIMIT), -100);
    assert_eq!(round(0), 0);
    assert_eq!(round(i64::MAX), 9223);
    assert_eq!(round(i64::MIN), -9223);
    assert_eq!(summarize(&[i64::MAX, i64::MAX]).median, 9223);
}

#[test]
fn statistics_fail_beyond_ten_thousand_keys() {
    let mut global = Aggregate::new();
    for i in 0..10_001u32 {
        let key = format!("key{:05}", i);
        global.record(key.as_bytes(), tenths(10));
    }
    assert_eq!(global.len(), 10_001);
    let result = calculate_statistics(global);
    assert!(matches!(result, Err(StatsError::CapacityExceeded)));
}

#[test]
fn statistics_succeed_at_ten_thousand_keys() {
    let mut global = Aggregate::new();
    for i in 0..10_000u32 {
        let key = format!("key{:05}", i);
        global.record(key.as_bytes(), tenths(10) + i as i64);
    }
    let stats = calculate_statistics(global).unwrap();
    assert_eq!(stats.len(), 10_000);
    assert_eq!(stats.get(b"key09999").unwrap(), Summary { min: 1, median: 1, max: 1 });
    assert_eq!(stats.key_at(0), b"key00000");
    assert_eq!(stats.summary_at(0), Summary { min: 1, median: 1, max: 1 });
}

#[test]
fn statistics_table_inserts_and_replaces() {
    let mut stats = Statistics::new();
    stats.insert(b"m", Summary { min: 1, median: 2, max: 3 });
    stats.insert(b"a", Summary { min: 4, median: 5, max: 6 });
    stats.insert(b"m", Summary { min: 7, median: 8, max: 9 });
    assert_eq!(stats.len(), 2);
    assert_eq!(stats.get(b"m"), Some(Summary { min: 7, median: 8, max: 9 }));
    assert_eq!(stats.get(b"a"), Some(Summary { min: 4, median: 5, max: 6 }));
    assert_eq!(stats.get(b"z"), None);
}

#[test]
fn results_are_written_in_key_order_with_one_fractional_digit() {
    let mut stats = Statistics::new();
    stats.insert(b"station2", Summary { min: 19, median: 20, max: 20 });
    stats.insert(b"station1", Summary { min: 22, median: 24, max: 25 });
    stats.insert(b"cold", Summary { min: -100, median: -7, max: 0 });
    let text = String::from_utf8(render_results(&stats)).unwrap();
    assert_eq!(
        text,
        "cold = -100.0/ -7.0/ 0.0\nstation1 = 22.0/ 24.0/ 25.0\nstation2 = 19.0/ 20.0/ 20.0\n"
    );
    assert_eq!(render_results(&Statistics::new()), b"");
    assert_eq!(
        render_line(b"k", Summary { min: -1234567890, median: 10, max: 9007199254740993 }),
        b"k = -1234567890.0/ 10.0/ 9007199254740993.0"
    );
    assert_eq!(
        render_line(b"", Summary { min: i64::MIN, median: 0, max: i64::MAX }),
        b" = -9223372036854775808.0/ 0.0/ 9223372036854775807.0"
    );
}

#[test]
fn keys_compare_byte_by_byte() {
    assert_eq!(compare_keys(b"a", b"b"), KeyOrder::Less);
    assert_eq!(compare_keys(b"b", b"a"), KeyOrder::Greater);
    assert_eq!(compare_keys(b"ab", b"ab"), KeyOrder::Equal);
    assert_eq!(compare_keys(b"ab", b"abc"), KeyOrder::Less);
    assert_eq!(compare_keys(b"abc", b"ab"), KeyOrder::Greater);
    assert_eq!(compare_keys(b"", b""), KeyOrder::Equal);
    assert_eq!(compare_keys(b"", b"\x00"), KeyOrder::Less);
    assert_eq!(compare_keys(b"Z", b"a"), KeyOrder::Less);
    assert_eq!(compare_keys(b"\xff", b"\x7f\xff"), KeyOrder::Greater);
}

#[test]
fn key_is_found_or_its_place_is() {
    let keys: Vec<Vec<u8>> = vec![b"b".to_vec(), b"d".to_vec(), b"f".to_vec()];
    assert_eq!(find_key(&keys, b"a"), (false, 0));
    assert_eq!(find_key(&keys, b"b"), (true, 0));
    assert_eq!(find_key(&keys, b"c"), (false, 1));
    assert_eq!(find_key(&keys, b"d"), (true, 1));
    assert_eq!(find_key(&keys, b"e"), (false, 2));
    assert_eq!(find_key(&keys, b"f"), (true, 2));
    assert_eq!(find_key(&keys, b"g"), (false, 3));
    assert_eq!(find_key(&Vec::new(), b"a"), (false, 0));
}

#[test]
fn byte_is_found_at_or_after_the_start() {
    let data = b"ab;cd;e";
    assert_eq!(find_byte(data, 0, b';'), 2);
    assert_eq!(find_byte(data, 2, b';'), 2);
    assert_eq!(find_byte(data, 3, b';'), 5);
    assert_eq!(find_byte(data, 6, b';'), 7);
    assert_eq!(find_byte(data, 7, b';'), 7);
    assert_eq!(find_byte(data, 9, b';'), 9);
    assert_eq!(scan_digits(b"123.45", 0), 3);
    assert_eq!(scan_digits(b"123.45", 3), 3);
    assert_eq!(scan_digits(b"123.45", 4), 6);
    assert_eq!(scan_digits(b"", 0), 0);
}
