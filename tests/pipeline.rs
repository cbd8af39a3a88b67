use rowclone_trace::detector::{CopyDetector, DetectorConfig};
use rowclone_trace::lookahead_iter::LookaheadIterator;
use rowclone_trace::memory_access::{MemRecord, MemoryAccess, RowcloneRecord};
use rowclone_trace::merge::merge_sources;
use rowclone_trace::record::{LogRecord, RECORD_SIZE};
use rowclone_trace::trace_filter::{ramulator_copy_format, ramulator_mem_format, TraceFilter};

#[test]
fn line_formats() {
    let load = MemRecord { insn_count: 30, address: 0xabc, store: false, cpu: 0 };
    let store = MemRecord { insn_count: 30, address: 0xabc, store: true, cpu: 0 };
    assert_eq!(ramulator_mem_format(&load, &12), "18 0x0000000000000abc");
    assert_eq!(ramulator_mem_format(&store, &0), "30 -1 0x0000000000000abc");
    assert_eq!(ramulator_mem_format(&load, &31), "1 0x0000000000000abc");
    let copy = RowcloneRecord { insn_count: 50, from: 0x1000, to: 0x3000, cpu: 0 };
    assert_eq!(ramulator_copy_format(&copy, &45), "5 0x0000000000001000 0x0000000000003000");
}

#[test]
fn filter_writes_misses_with_bubbles() {
    let mut f = TraceFilter::new(2, 512, 64, 2);
    let a = |insn: u64, address: u64, cpu: usize| {
        MemoryAccess::Regular(MemRecord { insn_count: insn, address, store: false, cpu })
    };
    assert_eq!(f.process(&a(5, 0x40, 0)), Some((0, "5 0x0000000000000040".to_string())));
    assert_eq!(f.process(&a(8, 0x40, 0)), None);
    assert_eq!(f.process(&a(9, 0x40, 1)), Some((1, "9 0x0000000000000040".to_string())));
    assert_eq!(f.process(&a(12, 0x80, 0)), Some((0, "7 0x0000000000000080".to_string())));
    assert_eq!(f.process(&a(3, 0xc0, 0)), Some((0, "1 0x00000000000000c0".to_string())));
}

#[test]
fn copies_invalidate_every_cache_and_are_always_written() {
    let mut f = TraceFilter::new(2, 512, 64, 2);
    let a = |insn: u64, address: u64, cpu: usize| {
        MemoryAccess::Regular(MemRecord { insn_count: insn, address, store: false, cpu })
    };
    assert!(f.process(&a(1, 0x2000, 0)).is_some());
    assert!(f.process(&a(2, 0x2040, 1)).is_some());
    assert!(f.process(&a(3, 0x3000, 1)).is_some());
    let copy = MemoryAccess::Rowclone(RowcloneRecord { insn_count: 10, from: 0x1000, to: 0x2000, cpu: 1 });
    assert_eq!(
        f.process(&copy),
        Some((1, "7 0x0000000000001000 0x0000000000002000".to_string()))
    );
    assert!(f.process(&a(11, 0x2000, 0)).is_some());
    assert!(f.process(&a(12, 0x2040, 1)).is_some());
    assert_eq!(f.process(&a(13, 0x3000, 1)), None);
}

#[test]
fn lookahead_peeks_without_consuming() {
    let mut it = LookaheadIterator::new(vec![1, 2, 3].into_iter());
    assert_eq!(it.peek_n(2), &[1, 2]);
    assert_eq!(it.peek_n(5), &[1, 2, 3]);
    assert_eq!(it.advance(), Some(1));
    assert_eq!(it.peek_n(1), &[2, 3]);
    assert_eq!(it.advance(), Some(2));
    assert_eq!(it.advance(), Some(3));
    assert_eq!(it.advance(), None);
    assert!(it.peek_n(3).is_empty());
}

#[test]
fn three_cpus_end_to_end() {
    let mut files: Vec<Vec<u8>> = Vec::new();
    for i in 0..3u8 {
        let r = LogRecord { insn_count: 10, cpu: i, store: 0, size: 0, address: 0x1000 + i as u64 };
        let mut buf = [0u8; RECORD_SIZE];
        r.serialize(&mut buf);
        files.push(buf.to_vec());
    }
    let sources: Vec<Vec<LogRecord>> = files
        .iter()
        .map(|bytes| {
            let mut buf = [0u8; RECORD_SIZE];
            buf.copy_from_slice(&bytes[..RECORD_SIZE]);
            vec![LogRecord::deserialize(&mut buf)]
        })
        .collect();
    let merged = merge_sources(&sources);
    let order: Vec<(u64, u8)> = merged.iter().map(|(r, _)| (r.insn_count, r.cpu)).collect();
    assert_eq!(order, vec![(10, 0), (10, 1), (10, 2)]);

    let mut det = CopyDetector::new(Vec::new(), DetectorConfig::standard());
    let mut filter = TraceFilter::new(3, 512, 64, 2);
    let mut lines: Vec<(usize, String)> = Vec::new();
    for (r, _) in merged {
        for a in det.process(r) {
            if let Some(line) = filter.process(&a) {
                lines.push(line);
            }
        }
    }
    assert_eq!(
        lines,
        vec![
            (0, "10 0x0000000000001000".to_string()),
            (1, "10 0x0000000000001001".to_string()),
            (2, "10 0x0000000000001002".to_string()),
        ]
    );
}
