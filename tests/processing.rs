use phips_1brc::aggregated_data::AggregatedData;
use phips_1brc::chunk_iter::split_chunks;
use phips_1brc::station_table::StationTable;
use phips_1brc::{cpu_count, finalize, process_file_chunk, process_line, process_single_chunk};

fn avg(data: &AggregatedData) -> f32 {
    data.sum_scaled() as f32 / ((data.sample_count() * 10) as f32)
}

#[test]
fn test_process_file_chunk() {
    let input = "Berlin;10.0\nHamburg;-12.7\nNew York;21.5\nBerlin;-15.7\n";
    let actual = process_file_chunk(input.as_bytes());

    let hamburg = actual.get(b"Hamburg").unwrap();
    let berlin = actual.get(b"Berlin").unwrap();
    let new_york = actual.get(b"New York").unwrap();

    assert_eq!(hamburg, &AggregatedData::new(-127, -127, -127, 1));
    assert_eq!(berlin, &AggregatedData::new(-157, 100, -57, 2));
    assert_eq!(new_york, &AggregatedData::new(215, 215, 215, 1));

    assert_eq!(avg(hamburg), -12.7);
    assert_eq!(avg(berlin), -2.85);
    assert_eq!(avg(new_york), 21.5);
}

#[test]
fn process_file_chunk_holds_each_station_once() {
    let input = "Berlin;10.0\nHamburg;-12.7\nNew York;21.5\nBerlin;-15.7\n";
    let entries = process_file_chunk(input.as_bytes()).into_sorted_entries();
    let names: Vec<&[u8]> = entries.iter().map(|e| e.0).collect();
    assert_eq!(names, vec![&b"Berlin"[..], b"Hamburg", b"New York"]);
    assert!(process_file_chunk(input.as_bytes()).get(b"Paris").is_none());
}

#[test]
fn process_line_reads_one_row() {
    let bytes = b"New York;21.5\nBerlin;-15.7\n";
    let mut consumed = 0;
    let (station, measurement) = process_line(bytes, &mut consumed);
    assert_eq!(station, b"New York");
    assert_eq!(measurement, 215);
    assert_eq!(consumed, 14);
    let (station, measurement) = process_line(&bytes[consumed..], &mut consumed);
    assert_eq!(station, b"Berlin");
    assert_eq!(measurement, -157);
    assert_eq!(consumed, bytes.len());
}

#[test]
fn process_line_with_one_byte_names() {
    let bytes = b"X;1.0\nX;2.0\n";
    let mut consumed = 0;
    let (station, measurement) = process_line(bytes, &mut consumed);
    assert_eq!((station, measurement, consumed), (&b"X"[..], 10, 6));
}

fn run(input: &str) -> String {
    String::from_utf8(process_single_chunk(input.as_bytes())).unwrap()
}

#[test]
fn four_rows_give_sorted_summaries() {
    assert_eq!(
        run("Berlin;10.0\nHamburg;-12.7\nNew York;21.5\nBerlin;-15.7\n"),
        "{Berlin=-15.7/-2.9/10.0, Hamburg=-12.7/-12.7/-12.7, New York=21.5/21.5/21.5}\n"
    );
}

#[test]
fn single_line_output() {
    assert_eq!(run("Abha;0.0\n"), "{Abha=0.0/0.0/0.0}\n");
}

#[test]
fn repeated_station_output() {
    assert_eq!(run("X;1.0\nX;2.0\nX;3.0\n"), "{X=1.0/2.0/3.0}\n");
}

#[test]
fn output_is_not_in_insertion_order() {
    assert_eq!(run("Zed;1.0\nAlpha;2.0\n"), "{Alpha=2.0/2.0/2.0, Zed=1.0/1.0/1.0}\n");
}

#[test]
fn extreme_readings_output() {
    assert_eq!(run("A;-99.9\nA;99.9\n"), "{A=-99.9/0.0/99.9}\n");
}

#[test]
fn mean_rounds_half_away_from_zero() {
    assert_eq!(run("P;0.1\nP;0.2\n"), "{P=0.1/0.2/0.2}\n");
    assert_eq!(run("N;-0.1\nN;-0.2\n"), "{N=-0.2/-0.2/-0.1}\n");
    assert_eq!(run("S;-0.1\nS;0.0\nS;0.0\n"), "{S=-0.1/0.0/0.0}\n");
}

#[test]
fn byte_order_puts_prefixes_and_upper_case_first() {
    assert_eq!(
        run("ab;1.0\na;2.0\nB;3.0\nÄ;4.0\n"),
        "{B=3.0/3.0/3.0, a=2.0/2.0/2.0, ab=1.0/1.0/1.0, Ä=4.0/4.0/4.0}\n"
    );
}

fn synthetic_input(rows: usize) -> String {
    let names = ["Hamburg", "Bulawayo", "Palembang", "St. John's", "Cracow", "Zürich", "X", "Abha"];
    let mut out = String::new();
    for i in 0..rows {
        let name = names[(i * 7 + i / 3) % names.len()];
        let v = ((i * 7919) % 1999) as i64 - 999;
        let sign = if v < 0 { "-" } else { "" };
        out.push_str(&format!("{name};{sign}{}.{}\n", v.abs() / 10, v.abs() % 10));
    }
    out
}

fn run_with_workers(input: &[u8], workers: usize) -> Vec<u8> {
    let chunks = split_chunks(input, workers);
    let tables: Vec<StationTable> = chunks.iter().map(|c| process_file_chunk(c)).collect();
    finalize(tables)
}

#[test]
fn output_is_the_same_for_any_worker_count() {
    let input = synthetic_input(10_000);
    let one = run_with_workers(input.as_bytes(), 1);
    assert_eq!(one, process_single_chunk(input.as_bytes()));
    for workers in [2, 3, 4, 7, 16, 64] {
        assert_eq!(run_with_workers(input.as_bytes(), workers), one);
    }
}

#[test]
fn merged_tables_equal_the_sequential_table() {
    let input = synthetic_input(2_000);
    let whole = process_file_chunk(input.as_bytes());
    let chunks = split_chunks(input.as_bytes(), 5);
    let mut merged = process_file_chunk(chunks[0]);
    for c in &chunks[1..] {
        merged.merge(process_file_chunk(c));
    }
    let a = whole.into_sorted_entries();
    let b = merged.into_sorted_entries();
    assert_eq!(a.len(), b.len());
    for (x, y) in a.iter().zip(b.iter()) {
        assert_eq!(x.0, y.0);
        assert_eq!(x.1, y.1);
    }
}

#[test]
fn every_station_has_its_mean_between_min_and_max() {
    let input = synthetic_input(3_000);
    for (_, d) in process_file_chunk(input.as_bytes()).into_sorted_entries() {
        assert!(d.sample_count() >= 1);
        assert!(d.min_scaled() <= d.avg_scaled() && d.avg_scaled() <= d.max_scaled());
        let mean = d.sum_scaled() as f64 / d.sample_count() as f64;
        assert!(d.min_scaled() as f64 <= mean && mean <= d.max_scaled() as f64);
    }
}

#[test]
fn output_names_strictly_increase() {
    let input = synthetic_input(500);
    let entries = process_file_chunk(input.as_bytes()).into_sorted_entries();
    for pair in entries.windows(2) {
        assert!(pair[0].0 < pair[1].0);
    }
}

#[test]
fn worker_count_threshold() {
    assert_eq!(cpu_count(0, 8), 1);
    assert_eq!(cpu_count(9_999, 8), 1);
    assert_eq!(cpu_count(10_000, 8), 8);
    assert_eq!(cpu_count(1 << 30, 3), 3);
}

#[test]
fn finalize_merges_tables_from_several_inputs() {
    let a = "Zed;1.0\nAlpha;2.0\n";
    let b = "Alpha;-4.0\nMid;0.5\n";
    let out = finalize(vec![process_file_chunk(a.as_bytes()), process_file_chunk(b.as_bytes())]);
    assert_eq!(
        String::from_utf8(out).unwrap(),
        "{Alpha=-4.0/-1.0/2.0, Mid=0.5/0.5/0.5, Zed=1.0/1.0/1.0}\n"
    );
}
