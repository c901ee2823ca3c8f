use station_stats::render::render_report;
use station_stats::table::StationTable;
use station_stats::worker::process_chunk;

fn run_single(data: &[u8]) -> StationTable {
    let mut t = StationTable::new();
    assert!(process_chunk(&mut t, data));
    t
}

#[test]
fn report_is_sorted_by_name() {
    let t = run_single(b"Cb;1.0\nB;1.0\nA;1.0\nAb;1.0\nC;1.0\n");
    let out = render_report(&t);
    assert_eq!(
        out,
        b"A:1.0/1.0/1.0;\nAb:1.0/1.0/1.0;\nB:1.0/1.0/1.0;\nC:1.0/1.0/1.0;\nCb:1.0/1.0/1.0;\n"
            .to_vec()
    );
}

#[test]
fn report_empty_table() {
    let t = StationTable::new();
    assert_eq!(render_report(&t), Vec::<u8>::new());
}

#[test]
fn mean_truncates_toward_zero() {
    let t = run_single(b"X;-3.5\nX;-3.0\n");
    assert_eq!(render_report(&t), b"X:-3.5/-3.2/-3.0;\n".to_vec());
    let u = run_single(b"Y;0.1\nY;0.2\n");
    assert_eq!(render_report(&u), b"Y:0.1/0.1/0.2;\n".to_vec());
}

#[test]
fn small_magnitudes_keep_leading_zero() {
    let t = run_single(b"A;0.7\nB;-0.5\n");
    assert_eq!(render_report(&t), b"A:0.7/0.7/0.7;\nB:-0.5/-0.5/-0.5;\n".to_vec());
}

#[test]
fn extreme_fixed_point_values() {
    let t = run_single(b"A;3276.7\nB;-3276.8\n");
    assert_eq!(
        render_report(&t),
        b"A:3276.7/3276.7/3276.7;\nB:-3276.8/-3276.8/-3276.8;\n".to_vec()
    );
}

#[test]
fn mean_of_mixed_signs() {
    let t = run_single(b"M;10.0\nM;-10.0\nM;0.1\n");
    assert_eq!(render_report(&t), b"M:-10.0/0.0/10.0;\n".to_vec());
}

#[test]
fn non_ascii_station_names_pass_through() {
    let data = "Zürich;12.3\nAß;1.0\n".as_bytes();
    let t = run_single(data);
    let out = render_report(&t);
    assert_eq!(out, "Aß:1.0/1.0/1.0;\nZürich:12.3/12.3/12.3;\n".as_bytes().to_vec());
}
