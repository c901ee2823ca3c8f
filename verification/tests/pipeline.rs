use station_stats::chunk::split_into_chunks;
use station_stats::chunk::worker_for_chunk;
use station_stats::render::render_report;
use station_stats::table::StationTable;
use station_stats::worker::process_chunk;

fn run_single(data: &[u8]) -> StationTable {
    let mut t = StationTable::new();
    assert!(process_chunk(&mut t, data));
    t
}

#[test]
fn formatting_scenario() {
    let t = run_single(b"A;10.5\nB;-3.2\nA;20.0\n");
    let out = render_report(&t);
    assert_eq!(out, b"A:10.5/15.2/20.0;\nB:-3.2/-3.2/-3.2;\n".to_vec());
}

#[test]
fn count_sum_min_max_fields() {
    let t = run_single(b"A;10.5\nB;-3.2\nA;20.0\nA;-1.1\n");
    assert_eq!(t.num_stations(), 2);
    let a = &t.entries[0];
    assert_eq!(a.0, b"A".to_vec());
    assert_eq!(a.1.count, 3);
    assert_eq!(a.1.sum, 105 + 200 - 11);
    assert_eq!(a.1.min, -11);
    assert_eq!(a.1.max, 200);
    let b = &t.entries[1];
    assert_eq!(b.0, b"B".to_vec());
    assert_eq!(b.1.count, 1);
    assert_eq!(b.1.sum, -32);
    assert_eq!(b.1.min, -32);
    assert_eq!(b.1.max, -32);
}

#[test]
fn bounds_invariant_on_every_entry() {
    let t = run_single(b"X;5.0\nY;-2.5\nX;-7.5\nY;9.9\nX;0.0\n");
    for e in t.entries.iter() {
        assert!(e.1.min <= e.1.max);
        assert!(i64::from(e.1.min) * i64::from(e.1.count as u32) <= e.1.sum as i64);
        assert!(e.1.sum as i64 <= i64::from(e.1.max) * i64::from(e.1.count as u32));
    }
}

#[test]
fn malformed_line_fails_whole_chunk() {
    let mut t = StationTable::new();
    assert!(!process_chunk(&mut t, b"A;10.5\nB10.5\n"));
    assert_eq!(t.num_stations(), 0);
    assert!(!process_chunk(&mut t, b"A;10.5\nB;10\n"));
    assert_eq!(t.num_stations(), 0);
    assert!(!process_chunk(&mut t, b"A;10.5\n\nB;1.0\n"));
    assert_eq!(t.num_stations(), 0);
    assert!(!process_chunk(&mut t, b"A;99999.9\n"));
    assert_eq!(t.num_stations(), 0);
}

#[test]
fn empty_chunk_is_fine() {
    let mut t = StationTable::new();
    assert!(process_chunk(&mut t, b""));
    assert_eq!(t.num_stations(), 0);
}

#[test]
fn final_line_without_newline_counts() {
    let t = run_single(b"A;1.0\nB;2.0");
    let out = render_report(&t);
    assert_eq!(out, b"A:1.0/1.0/1.0;\nB:2.0/2.0/2.0;\n".to_vec());
}

#[test]
fn merge_equals_single_worker() {
    let whole = b"A;10.5\nB;-3.2\nA;20.0\nC;0.1\nB;7.7\n";
    let single = run_single(whole);

    let mut w1 = run_single(b"A;10.5\nB;-3.2\n");
    let w2 = run_single(b"A;20.0\nC;0.1\nB;7.7\n");
    w1.merge_from(w2);

    assert_eq!(render_report(&w1), render_report(&single));
}

#[test]
fn merge_order_does_not_matter() {
    let p1 = b"A;1.0\nB;2.0\nA;3.0\n";
    let p2 = b"B;4.0\nC;5.0\n";
    let p3 = b"A;-1.0\nC;6.0\n";

    let mut left = run_single(p1);
    left.merge_from(run_single(p2));
    left.merge_from(run_single(p3));

    let mut right = run_single(p3);
    right.merge_from(run_single(p1));
    right.merge_from(run_single(p2));

    assert_eq!(render_report(&left), render_report(&right));
}

#[test]
fn merge_into_empty_table() {
    let mut t = StationTable::new();
    t.merge_from(run_single(b"A;1.5\n"));
    assert_eq!(render_report(&t), b"A:1.5/1.5/1.5;\n".to_vec());
}

#[test]
fn chunks_concatenate_back_to_input() {
    let data = b"Aachen;10.5\nBerlin;-3.2\nAachen;20.0\nCottbus;0.1\n";
    let longest_line = 12;
    for chunk_size in 1..data.len() + 2 {
        let chunks = split_into_chunks(data, chunk_size);
        let mut glued: Vec<u8> = Vec::new();
        for c in chunks.iter() {
            glued.extend_from_slice(c);
        }
        assert_eq!(glued, data.to_vec());
        for (i, c) in chunks.iter().enumerate() {
            assert!(!c.is_empty());
            if i + 1 < chunks.len() {
                // every non-final chunk carries at least chunk_size bytes and
                // ends at the first line feed at or after that size
                assert!(c.len() >= chunk_size);
                assert_eq!(*c.last().unwrap(), b'\n');
                for j in chunk_size - 1..c.len() - 1 {
                    assert_ne!(c[j], b'\n');
                }
                assert!(c.len() < chunk_size + longest_line);
            }
        }
        // the splitter must actually split: with every line at most
        // longest_line bytes, a chunk_size this far below the input length
        // cannot be served by a single chunk
        if chunk_size + longest_line < data.len() {
            assert!(chunks.len() >= 2);
        }
    }
}

#[test]
fn chunked_runs_match_single_run_any_chunk_size() {
    let data = b"A;10.5\nB;-3.2\nA;20.0\nC;0.1\nB;7.7\nA;-0.5\n";
    let single = run_single(data);
    let expected = render_report(&single);
    for chunk_size in 1..data.len() + 2 {
        let chunks = split_into_chunks(data, chunk_size);
        let workers = 3;
        let mut tables: Vec<StationTable> = Vec::new();
        for _ in 0..workers {
            tables.push(StationTable::new());
        }
        for (i, c) in chunks.iter().enumerate() {
            let w = worker_for_chunk(i, workers);
            assert!(w < workers);
            assert!(process_chunk(&mut tables[w], c));
        }
        let mut merged = StationTable::new();
        for t in tables {
            merged.merge_from(t);
        }
        assert_eq!(render_report(&merged), expected);
    }
}

#[test]
fn round_robin_assignment() {
    assert_eq!(worker_for_chunk(0, 4), 0);
    assert_eq!(worker_for_chunk(1, 4), 1);
    assert_eq!(worker_for_chunk(5, 4), 1);
    assert_eq!(worker_for_chunk(7, 1), 0);
}

#[test]
fn max_count_bounds_every_station() {
    let t = run_single(b"A;1.0\nA;2.0\nA;3.0\nB;1.0\n");
    assert_eq!(t.max_count(), 3);
    assert_eq!(StationTable::new().max_count(), 0);
}
