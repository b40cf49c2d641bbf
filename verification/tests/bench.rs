use mmapzstd::bench::{
    csv_row, median_line, median_u64, run_result, size_line, table_line, table_row, Mode, RunResult,
};

#[test]
fn median() {
    assert_eq!(median_u64(vec![5]), 5);
    assert_eq!(median_u64(vec![9, 1]), 9);
    assert_eq!(median_u64(vec![696, 694, 695]), 695);
    assert_eq!(median_u64(vec![4, 1, 3, 2]), 3);
    assert_eq!(median_u64(vec![2, 2, 9, 1, 2]), 2);
    assert_eq!(median_u64(vec![3, 2, 4, 1]), median_u64(vec![1, 2, 3, 4]));
    assert_eq!(median_u64(vec![u64::MAX, 0, 7]), 7);
}

#[test]
fn readings() {
    assert_eq!(
        run_result(5, 6, 100, 40, 7, 17),
        RunResult { wall_ns: 5, decompressed_bytes: 6, drss_kib: -60, minfaults: 10 }
    );
    assert_eq!(run_result(0, 0, 40, 100, 0, 0).drss_kib, 60);
    assert_eq!(run_result(0, 0, u64::MAX, 1, 0, 0).drss_kib, 2);
}

#[test]
fn table() {
    let r = RunResult {
        wall_ns: 694_999_999,
        decompressed_bytes: 1_932_735_283,
        drss_kib: 4116,
        minfaults: 1136,
    };
    assert_eq!(
        table_row(1, &r, 2674),
        format!(
            "| {:<3} | {:<9} | {:<12} | {:<17} | {:<10} | {:<12} |",
            1, "694 ms", "1.8 GiB", "2,674", 4116, 1136
        )
    );
    let r = RunResult { drss_kib: -12, ..r };
    assert_eq!(
        table_row(1234567, &r, 0),
        "| 1234567 | 694 ms    | 1.8 GiB      | 0                 | -12        | 1136         |"
    );
    assert_eq!(
        table_line("run", "wall", "decompressed", "throughput (MB/s)", "dRSS (KiB)", "minor faults"),
        "| run | wall      | decompressed | throughput (MB/s) | dRSS (KiB) | minor faults |"
    );
}

#[test]
fn lines() {
    let r = RunResult { wall_ns: 1, decompressed_bytes: 4194304, drss_kib: -3, minfaults: 9 };
    assert_eq!(
        csv_row(&Mode::HugepageMemfd, 2, &r, "123.45"),
        "hugepage-memfd,2,1,4194304,123.45,-3,9"
    );
    assert_eq!(csv_row(&Mode::Bufreader, 1, &r, "0.10"), "bufreader,1,1,4194304,0.10,-3,9");
    assert_eq!(Mode::HugepageAnon.name(), "hugepage-anon");
    assert_eq!(size_line(224226015), "size: 224,226,015 bytes (213.8 MiB compressed)");
    assert_eq!(median_line(695_123_456, 2668), "median: 695 ms / 2,668 MB/s");
}

#[test]
fn warning_is_due() {
    assert!(Mode::HugepageAnon.lacks_hugepages(0, 1));
    assert!(!Mode::HugepageAnon.lacks_hugepages(0, 0));
    assert!(!Mode::HugepageMemfd.lacks_hugepages(2, 4194304));
    assert!(Mode::HugepageMemfd.lacks_hugepages(2, 4194305));
    assert!(!Mode::Bufreader.lacks_hugepages(0, 4194305));
}
