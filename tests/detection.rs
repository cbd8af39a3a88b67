use rowclone_trace::detector::{
    address_in_same_subarray, match_copy_to_mem_accesses, page_number, CopyDetector, DetectorConfig,
};
use rowclone_trace::kernel_log::{parse_kernel_log, CopyOp, KernelLogReader, KernelRecord};
use rowclone_trace::memory_access::{MemRecord, MemoryAccess, RowcloneRecord};
use rowclone_trace::record::LogRecord;

fn access(insn: u64, store: bool, size: u8, address: u64) -> LogRecord {
    LogRecord { insn_count: insn, cpu: 1, store: store as u8, size, address }
}

fn log_of(lines: &[&str]) -> Vec<Option<KernelRecord>> {
    let owned: Vec<String> = lines.iter().map(|s| s.to_string()).collect();
    parse_kernel_log(&owned)
}

#[test]
fn kernel_line_grammar() {
    let mut reader = KernelLogReader::new();
    let r = reader
        .parse_kernel_line("[  12.5] trace: N=memcpy,r,3,4096,0x1,0x2,0xffff8000,0x7f00")
        .unwrap();
    assert_eq!(
        r,
        KernelRecord {
            rec_id: 0,
            cpu: 3,
            size: 4096,
            operation: CopyOp::KernelToUser,
            kernel_address: 0xffff8000,
            user_address: 0x7f00,
            stale: 0,
        }
    );
    let w = reader.parse_kernel_line("N=cp,w,0,8,0xa,0xb,0xC,0xD tail").unwrap();
    assert_eq!(w.rec_id, 1);
    assert_eq!(w.operation, CopyOp::UserToKernel);
    assert_eq!((w.kernel_address, w.user_address), (0xc, 0xd));
    assert_eq!(reader.parse_kernel_line("no intent here"), None);
    assert_eq!(reader.parse_kernel_line("N=cp,x,0,8,0xa,0xb,0xc,0xd"), None);
    assert_eq!(reader.parse_kernel_line("N=,r,0,8,0xa,0xb,0xc,0xd"), None);
    assert_eq!(reader.parse_kernel_line("N=cp,r,0,8,0xa,0xb,0xc,0xd").unwrap().rec_id, 2);
}

#[test]
fn overflowing_fields_consume_an_id() {
    let mut reader = KernelLogReader::new();
    assert_eq!(reader.parse_kernel_line("N=cp,r,4294967296,8,0xa,0xb,0xc,0xd"), None);
    assert_eq!(reader.parse_kernel_line("N=cp,r,1,8,0xa,0xb,0xc,0xd").unwrap().rec_id, 1);
}

#[test]
fn later_match_in_line_is_found() {
    let mut reader = KernelLogReader::new();
    let r = reader.parse_kernel_line("N=bad,q N=ok,r,1,2,0x1,0x2,0x3,0x4").unwrap();
    assert_eq!((r.cpu, r.size, r.kernel_address, r.user_address), (1, 2, 0x3, 0x4));
}

#[test]
fn accesses_without_intents_pass_through() {
    let mut det = CopyDetector::new(Vec::new(), DetectorConfig::standard());
    let out = det.process(access(4, true, 3, 0x40));
    assert_eq!(
        out,
        vec![MemoryAccess::Regular(MemRecord { insn_count: 4, address: 0x40, store: true, cpu: 1 })]
    );
}

#[test]
fn clean_copy_is_detected_once() {
    let log = log_of(&["N=copy,r,1,256,0x0,0x0,0x10000,0x20000"]);
    let mut trace = Vec::new();
    for j in 0..32u64 {
        trace.push(access(100 + j, false, 3, 0x10000 + 8 * j));
    }
    for j in 0..32u64 {
        trace.push(access(200 + j, true, 3, 0x20000 + 8 * j));
    }
    trace.push(access(300, false, 3, 0x5000));
    let out = match_copy_to_mem_accesses(log, DetectorConfig::standard(), &trace);
    assert_eq!(
        out,
        vec![
            MemoryAccess::Rowclone(RowcloneRecord { insn_count: 100, from: 0x10000, to: 0x20000, cpu: 1 }),
            MemoryAccess::Regular(MemRecord { insn_count: 300, address: 0x5000, store: false, cpu: 1 }),
        ]
    );
}

#[test]
fn small_copy_is_reported_on_completion() {
    let log = log_of(&["N=copy,w,1,16,0x0,0x0,0x9000,0x3000"]);
    let mut det = CopyDetector::new(log, DetectorConfig::standard());
    assert!(det.process(access(1, false, 3, 0x3000)).is_empty());
    assert!(det.process(access(2, false, 3, 0x3008)).is_empty());
    assert!(det.process(access(3, true, 3, 0x9000)).is_empty());
    assert_eq!(det.potential_copies(), 1);
    let out = det.process(access(4, true, 3, 0x9008));
    assert_eq!(
        out,
        vec![MemoryAccess::Rowclone(RowcloneRecord { insn_count: 1, from: 0x3000, to: 0x9000, cpu: 1 })]
    );
    assert_eq!(det.potential_copies(), 0);
    assert_eq!(det.unmatched_intents(), 0);
}

#[test]
fn promoted_copy_continues_as_ongoing() {
    let log = log_of(&["N=copy,r,1,64,0x0,0x0,0x1000,0x2000"]);
    let config = DetectorConfig { window_size: 4, confidence_threshold: 16, stale_threshold: 2 };
    let mut det = CopyDetector::new(log, config);
    for j in 0..8u64 {
        assert!(det.process(access(10 + j, false, 3, 0x1000 + 8 * j)).is_empty());
    }
    assert!(det.process(access(20, true, 3, 0x2000)).is_empty());
    assert!(det.process(access(21, true, 3, 0x2008)).is_empty());
    let out = det.process(access(22, true, 3, 0x2010));
    assert_eq!(
        out,
        vec![MemoryAccess::Rowclone(RowcloneRecord { insn_count: 10, from: 0x1000, to: 0x2000, cpu: 1 })]
    );
    assert_eq!(det.unfinished_copies(), 1);
    for j in 3..8u64 {
        assert!(det.process(access(20 + j, true, 3, 0x2000 + 8 * j)).is_empty());
    }
    assert_eq!(det.unfinished_copies(), 0);
}

#[test]
fn stale_intent_leaves_the_window() {
    let log = log_of(&[
        "N=never,r,0,8,0x0,0x0,0x900000,0xa00000",
        "N=first,r,0,8,0x0,0x0,0x100000,0x200000",
        "N=second,r,0,8,0x0,0x0,0x300000,0x400000",
    ]);
    let config = DetectorConfig { window_size: 200, confidence_threshold: 128, stale_threshold: 1 };
    let mut det = CopyDetector::new(log, config);
    assert_eq!(det.unmatched_intents(), 3);
    assert!(det.process(access(1, false, 3, 0x100000)).is_empty());
    assert_eq!(det.process(access(2, true, 3, 0x200000)).len(), 1);
    assert_eq!(det.unmatched_intents(), 2);
    assert!(det.process(access(3, false, 3, 0x300000)).is_empty());
    assert_eq!(det.process(access(4, true, 3, 0x400000)).len(), 1);
    // the window is empty; the stale intent is counted as dropped
    assert_eq!(det.unmatched_intents(), 1);
    let out = det.process(access(5, false, 3, 0x900000));
    assert_eq!(out.len(), 1);
    assert!(matches!(out[0], MemoryAccess::Regular(_)));
}

#[test]
fn window_refills_from_the_log() {
    let log = log_of(&[
        "N=a,r,0,8,0x0,0x0,0x100000,0x200000",
        "N=b,r,0,8,0x0,0x0,0x300000,0x400000",
    ]);
    let config = DetectorConfig { window_size: 1, confidence_threshold: 128, stale_threshold: 20 };
    let mut det = CopyDetector::new(log, config);
    assert_eq!(det.unmatched_intents(), 1);
    assert_eq!(det.process(access(1, false, 3, 0x300000)).len(), 1);
    assert!(det.process(access(2, false, 3, 0x100000)).is_empty());
    assert_eq!(det.process(access(3, true, 3, 0x200000)).len(), 1);
    assert_eq!(det.unmatched_intents(), 1);
    assert!(det.process(access(4, false, 3, 0x300000)).is_empty());
    assert_eq!(det.process(access(5, true, 3, 0x400000)).len(), 1);
}

#[test]
fn page_and_subarray_of_addresses() {
    assert_eq!(page_number(0x1234_5678), 0x1234_5000);
    assert_eq!(page_number(0x3000), 0x3000);
    assert!(address_in_same_subarray(0x20_0000, 0x3f_ffff));
    assert!(!address_in_same_subarray(0x20_0000, 0x40_0000));
    assert!(address_in_same_subarray(0x0, 0x1000_0000));
}

#[test]
fn kernel_log_ids_count_matching_lines() {
    let log = log_of(&[
        "N=a,r,0,8,0x0,0x0,0x1,0x2",
        "garbage",
        "N=b,w,1,8,0x0,0x0,0x3,0x4",
    ]);
    assert_eq!(log.len(), 3);
    assert_eq!(log[0].unwrap().rec_id, 0);
    assert_eq!(log[1], None);
    assert_eq!(log[2].unwrap().rec_id, 1);
}
