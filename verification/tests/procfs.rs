use mmapzstd::procfs::{hugepages_free, minflt, vmrss_kib};

const STATUS: &str = "Name:\tbench\nVmPeak:\t  999 kB\nVmRSS:\t   10240 kB\nThreads:\t1\n";

#[test]
fn resident_set() {
    assert_eq!(vmrss_kib(STATUS), 10240);
    assert_eq!(vmrss_kib(""), 0);
    assert_eq!(vmrss_kib("VmRSS:"), 0);
    assert_eq!(vmrss_kib("VmRSS: \n 5"), 0);
    assert_eq!(vmrss_kib("VmRSS: many kB\nVmRSS: 7"), 0);
    assert_eq!(vmrss_kib("xVmRSS: 3\nVmRSS: 4"), 4);
    assert_eq!(vmrss_kib(" VmRSS: 3"), 0);
    assert_eq!(vmrss_kib("VmRSS:3 9 kB"), 9);
    assert_eq!(vmrss_kib("VmRSS:\t12\r\nVmHWM: 1"), 12);
    assert_eq!(vmrss_kib("VmRSS:\u{3000}12"), 12);
    assert_eq!(vmrss_kib("VmRSS:\u{200b}12"), 0);
    assert_eq!(vmrss_kib("VmRSS: \u{2003}12\u{a0}kB"), 12);
}

#[test]
fn numbers() {
    let value = |s: &str| vmrss_kib(&format!("VmRSS: {}", s));
    for s in [
        "0", "007", "+5", "++5", "+", "-0", "-1", "1_0", "0x10", "18446744073709551615",
        "18446744073709551616", "18446744073709551620", "99999999999999999999999",
        "000000000000000000000000000000009", "12a", "\u{663}",
    ] {
        assert_eq!(value(s), s.parse::<u64>().unwrap_or(0), "{}", s);
    }
}

#[test]
fn free_pages() {
    let text = "MemTotal: 1 kB\nHugePages_Total:     160\nHugePages_Free:      158\nHugePages_Rsvd: 2\n";
    assert_eq!(hugepages_free(text), 158);
    assert_eq!(hugepages_free("MemTotal: 1 kB\n"), 0);
}

#[test]
fn faults() {
    assert_eq!(minflt("42 (bench) R 1 42 42 0 -1 4194304 107 0 0 0"), 107);
    assert_eq!(minflt("4242 (a)b) R 1 4242 4242 0 -1 4194304 1136 0 7 0"), 1136);
    assert_eq!(minflt("42 (a b) c) R 1 42 42 0 -1 4194304 107"), 107);
    assert_eq!(minflt("42 (a)) R 1 42 42 0 -1 4194304 107 0)"), 0);
    assert_eq!(minflt("0 1 2 3 4 5 6 77 8"), 77);
    assert_eq!(minflt("42 (bench) R 1 42"), 0);
    assert_eq!(minflt("42 (bench)"), 0);
    assert_eq!(minflt(""), 0);
}

fn labelled_by_std(text: &str) -> u64 {
    text.lines()
        .find(|l| l.starts_with("VmRSS:"))
        .and_then(|l| l.split_whitespace().nth(1))
        .and_then(|s| s.parse().ok())
        .unwrap_or(0)
}

fn minflt_by_std(stat: &str) -> u64 {
    let after_comm = stat.rfind(')').map(|i| &stat[i + 1..]).unwrap_or(stat);
    let parts: Vec<&str> = after_comm.split_whitespace().collect();
    parts.get(7).and_then(|s| s.parse().ok()).unwrap_or(0)
}

#[test]
fn agrees_with_std_on_mixed_text() {
    let pieces = [
        "VmRSS:", "VmRSS", " ", "\t", "\n", "\r\n", "\r", "12", "+3", "x", ")", "(", "\u{85}",
        "\u{2028}", "\u{1680}", "18446744073709551616", "\u{e9}", "\u{b}",
    ];
    let mut seed: u64 = 7;
    for _ in 0..20_000 {
        let mut text = String::new();
        for _ in 0..24 {
            seed = seed.wrapping_mul(6364136223846793005).wrapping_add(1442695040888963407);
            text.push_str(pieces[(seed >> 33) as usize % pieces.len()]);
        }
        assert_eq!(vmrss_kib(&text), labelled_by_std(&text), "{:?}", text);
        assert_eq!(minflt(&text), minflt_by_std(&text), "{:?}", text);
    }
}

#[test]
fn white_space_agrees_with_std() {
    for c in '\0'..='\u{10ffff}' {
        let text = format!("VmRSS:{}12", c);
        assert_eq!(vmrss_kib(&text), labelled_by_std(&text), "{:?}", text);
    }
}
