use mmapzstd::decoder::Decoder;
use mmapzstd::hugepage::{
    hugepage_capacity, needed_hugepages, Action, HugepageOpen, Stage, HUGEPAGE, MAP_HUGE_2MB,
    MEMFD_FLAGS,
};

/// Carries an opening out in ordinary memory. `refuse` names the action that fails.
fn carry_out(
    mut open: HugepageOpen,
    compressed: &[u8],
    refuse: &str,
) -> (Action, Vec<u8>, Vec<String>) {
    let mut region = Vec::new();
    let mut log = Vec::new();
    loop {
        let action = open.action();
        let (name, good, bad) = match action {
            Action::CreateMemfd { .. } => ("create", 3, -1),
            Action::Resize { .. } => ("resize", 0, -1),
            Action::MapAnonymous { capacity, .. } | Action::MapFile { capacity, .. } => {
                region = vec![0u8; capacity];
                ("map", 0, -1)
            }
            Action::Close { fd } => {
                assert_eq!(fd, 3);
                ("close", 0, 0)
            }
            Action::Fill { len } => {
                region[..len].copy_from_slice(compressed);
                ("fill", 0, -1)
            }
            Action::Unmap { .. } => ("unmap", 0, 0),
            Action::FallBack | Action::Fail | Action::Decode { .. } => {
                return (action, region, log);
            }
        };
        log.push(name.to_string());
        open.answer(if name == refuse { bad } else { good });
    }
}

fn decode(open: HugepageOpen, compressed: &[u8]) -> Vec<u8> {
    let (end, region, _) = carry_out(open, compressed, "");
    let mut got = Vec::new();
    match end {
        Action::Decode { len, capacity } => {
            assert_eq!(region.len(), capacity);
            let mut dec = Decoder::from_slice(&region[..len]).expect("from_slice");
            dec.read_to_end(&mut got).expect("read_to_end");
        }
        other => panic!("{:?}", other),
    }
    got
}

#[test]
fn open_hugepage_memfd_round_trip() {
    let data: Vec<u8> = (0u16..1024).map(|i| (i % 251) as u8).collect();
    let compressed = zstd::encode_all(data.as_slice(), 0).expect("encode_all");
    assert_eq!(decode(HugepageOpen::memfd(compressed.len()), &compressed), data);
}

#[test]
fn open_hugepage_round_trip() {
    let data: Vec<u8> = (0u16..1024).map(|i| (i % 251) as u8).collect();
    let compressed = zstd::encode_all(data.as_slice(), 0).expect("encode_all");
    assert_eq!(decode(HugepageOpen::anonymous(compressed.len()), &compressed), data);
}

#[test]
fn memfd_steps() {
    let run = |refuse: &str| {
        let (end, _, log) = carry_out(HugepageOpen::memfd(5), b"12345", refuse);
        (end, log.join(" "))
    };
    let ready = Action::Decode { len: 5, capacity: HUGEPAGE };
    assert_eq!(run(""), (ready, "create resize map close fill".to_string()));
    assert_eq!(run("create"), (Action::FallBack, "create".to_string()));
    assert_eq!(run("resize"), (Action::FallBack, "create resize close".to_string()));
    assert_eq!(run("map"), (Action::FallBack, "create resize map close".to_string()));
    assert_eq!(run("fill"), (Action::Fail, "create resize map close fill unmap".to_string()));
}

#[test]
fn anonymous_steps() {
    let run = |refuse: &str| {
        let (end, _, log) = carry_out(HugepageOpen::anonymous(5), b"12345", refuse);
        (end, log.join(" "))
    };
    let ready = Action::Decode { len: 5, capacity: HUGEPAGE };
    assert_eq!(run(""), (ready, "map fill".to_string()));
    assert_eq!(run("map"), (Action::FallBack, "map".to_string()));
    assert_eq!(run("fill"), (Action::Fail, "map fill unmap".to_string()));
}

#[test]
fn actions_carry_sizes_and_flags() {
    let mut open = HugepageOpen::memfd(HUGEPAGE + 1);
    assert_eq!(open.action(), Action::CreateMemfd { flags: 0x0004 | 21 << 26 });
    open.answer(7);
    assert_eq!(open.action(), Action::Resize { fd: 7, size: 2 * HUGEPAGE });
    open.answer(0);
    assert_eq!(open.action(), Action::MapFile { fd: 7, capacity: 2 * HUGEPAGE });
    open.answer(0);
    assert_eq!(open.action(), Action::Close { fd: 7 });
    open.answer(0);
    assert_eq!(open.action(), Action::Fill { len: HUGEPAGE + 1 });
    open.answer(-1);
    assert_eq!(open.action(), Action::Unmap { capacity: 2 * HUGEPAGE });
    open.answer(0);
    assert_eq!(open.stage, Stage::Fail);
    open.answer(0);
    assert_eq!(open.stage, Stage::Fail);

    assert_eq!(
        HugepageOpen::anonymous(1).action(),
        Action::MapAnonymous { capacity: HUGEPAGE, page_flag: 21 << 26 }
    );
    assert_eq!(MAP_HUGE_2MB, 21 << 26);
    assert_eq!(MEMFD_FLAGS, 0x0004 | 21 << 26);
}

#[test]
fn capacity_values() {
    assert_eq!(HUGEPAGE, 2 * 1024 * 1024);
    assert_eq!(hugepage_capacity(0), 0);
    assert_eq!(hugepage_capacity(1), 2097152);
    assert_eq!(hugepage_capacity(2097152), 2097152);
    assert_eq!(hugepage_capacity(2097153), 4194304);
    assert_eq!(needed_hugepages(0), 0);
    assert_eq!(needed_hugepages(1), 1);
    assert_eq!(needed_hugepages(2097152), 1);
    assert_eq!(needed_hugepages(2097153), 2);
    // 128.5 MiB and 214 MiB of compressed input.
    assert_eq!(needed_hugepages(134_742_016), 65);
    assert_eq!(needed_hugepages(224_226_015), 107);
    assert_eq!(needed_hugepages(u64::MAX), 8796093022208);
    for len in [1usize, 5, 2097151, 2097152, 9_999_999] {
        assert_eq!(hugepage_capacity(len) as u64, needed_hugepages(len as u64) * 2097152);
    }
}
