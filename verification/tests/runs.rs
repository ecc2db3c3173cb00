use station_stats::chunk::{process_chunk, ChunkReport, DiagnosticKind};
use station_stats::pipeline::{conclude, process_chunks, run};
use station_stats::planner::plan_chunks;
use station_stats::stats::StatsError;

fn sample() -> Vec<u8> {
    let mut data: Vec<u8> = Vec::new();
    let names = ["Oslo", "Lima", "Zürich", "Accra", "Hobart"];
    for i in 0..200i64 {
        let name = names[(i * 7 % 5) as usize];
        let t = (i * 37) % 1999 - 999;
        let sign = if t < 0 { "-" } else { "" };
        let line = format!("{};{}{}.{}\n", name, sign, t.abs() / 10, t.abs() % 10);
        data.extend_from_slice(line.as_bytes());
        if i % 41 == 0 {
            data.extend_from_slice(b"broken line\n");
        }
        if i % 53 == 0 {
            data.extend_from_slice(b"Quito;123.4\n");
        }
    }
    data
}

#[test]
fn run_gives_the_expected_text() {
    let data = b"station1;23.5\nstation2;19.8\nstation1;25.0\nstation1;22.0\nstation2;20.2\nstation2;18.5\n";
    let out = run(data, 1);
    assert!(out.diagnostics.is_empty());
    assert_eq!(
        String::from_utf8(out.results.unwrap()).unwrap(),
        "station1 = 22.0/ 24.0/ 25.0\nstation2 = 19.0/ 20.0/ 20.0\n"
    );
}

#[test]
fn run_twice_gives_the_same_bytes() {
    let data = sample();
    let first = run(&data, 4);
    let second = run(&data, 4);
    assert_eq!(first.results, second.results);
    assert_eq!(first.diagnostics, second.diagnostics);
    assert!(first.results.is_ok());
}

#[test]
fn worker_count_does_not_change_the_results() {
    let data = sample();
    let one = run(&data, 1);
    for workers in [2usize, 3, 5, 8, 64, 5000] {
        let many = run(&data, workers);
        assert_eq!(one.results, many.results);
        assert_eq!(one.diagnostics, many.diagnostics);
    }
    let kinds: Vec<DiagnosticKind> = one.diagnostics.iter().map(|d| d.kind).collect();
    assert!(kinds.contains(&DiagnosticKind::MissingDelimiter));
    assert!(kinds.contains(&DiagnosticKind::InvalidValue));
}

#[test]
fn staged_run_agrees_with_the_whole_run() {
    let data = sample();
    let plan = plan_chunks(&data, 6);
    let reports: Vec<ChunkReport> =
        plan.iter().map(|r| process_chunk(&data[r.start..r.end])).collect();
    let staged = conclude(&reports);
    let sequential = conclude(&process_chunks(&data, &plan));
    let whole = run(&data, 6);
    assert_eq!(staged.results, whole.results);
    assert_eq!(sequential.results, whole.results);
    assert_eq!(staged.diagnostics, whole.diagnostics);
}

#[test]
fn run_fails_as_a_whole_beyond_ten_thousand_keys() {
    let mut data: Vec<u8> = Vec::new();
    for i in 0..10_001u32 {
        data.extend_from_slice(format!("k{};1.0\n", i).as_bytes());
    }
    let out = run(&data, 3);
    assert_eq!(out.results, Err(StatsError::CapacityExceeded));
    data.truncate(data.len() - "k10000;1.0\n".len());
    let out = run(&data, 3);
    assert!(out.results.is_ok());
}

#[test]
fn run_on_an_empty_buffer_writes_nothing() {
    let out = run(b"", 4);
    assert_eq!(out.results, Ok(Vec::new()));
    assert!(out.diagnostics.is_empty());
}
