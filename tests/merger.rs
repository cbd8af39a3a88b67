use rowclone_trace::merge::{merge_sources, MergeQueue};
use rowclone_trace::record::LogRecord;

fn rec(insn: u64, cpu: u8, address: u64) -> LogRecord {
    LogRecord { insn_count: insn, cpu, store: 0, size: 0, address }
}

#[test]
fn merge_is_total_and_ordered() {
    let sources = vec![
        vec![rec(1, 0, 0), rec(4, 0, 1), rec(9, 0, 2)],
        vec![rec(2, 1, 3), rec(3, 1, 4)],
        vec![],
        vec![rec(0, 3, 5), rec(10, 3, 6)],
    ];
    let out = merge_sources(&sources);
    assert_eq!(out.len(), 7);
    let counts: Vec<u64> = out.iter().map(|(r, _)| r.insn_count).collect();
    assert_eq!(counts, vec![0, 1, 2, 3, 4, 9, 10]);
    let srcs: Vec<usize> = out.iter().map(|(_, s)| *s).collect();
    assert_eq!(srcs, vec![3, 0, 1, 1, 0, 0, 3]);
}

#[test]
fn ties_go_to_the_lower_source() {
    let sources = vec![vec![rec(5, 0, 0), rec(5, 0, 1)], vec![rec(5, 1, 2)], vec![rec(4, 2, 3), rec(5, 2, 4)]];
    let out = merge_sources(&sources);
    let order: Vec<(u64, usize, u64)> = out.iter().map(|(r, s)| (r.insn_count, *s, r.address)).collect();
    assert_eq!(order, vec![(4, 2, 3), (5, 0, 0), (5, 0, 1), (5, 1, 2), (5, 2, 4)]);
}

#[test]
fn merge_of_nothing() {
    let sources: Vec<Vec<LogRecord>> = vec![vec![], vec![]];
    assert!(merge_sources(&sources).is_empty());
    assert!(merge_sources(&Vec::new()).is_empty());
}

#[test]
fn queue_pops_least_key_and_refills() {
    let mut q = MergeQueue::new(3);
    assert!(q.pop().is_none());
    q.push_next_record(1, Some(rec(7, 1, 0)));
    q.push_next_record(2, Some(rec(7, 2, 0)));
    q.push_next_record(0, Some(rec(8, 0, 0)));
    assert_eq!(q.pop().map(|(r, i)| (r.insn_count, i)), Some((7, 1)));
    q.push_next_record(1, None);
    assert_eq!(q.pop().map(|(r, i)| (r.insn_count, i)), Some((7, 2)));
    assert_eq!(q.pop().map(|(r, i)| (r.insn_count, i)), Some((8, 0)));
    assert!(q.pop().is_none());
}

#[test]
fn many_sources_merge_in_key_order() {
    let mut sources: Vec<Vec<LogRecord>> = Vec::new();
    for s in 0..11u64 {
        let mut v = Vec::new();
        for j in 0..(s % 4 + 1) {
            v.push(rec((s * 7 + j * 5) % 13 + j * 13, s as u8, s * 100 + j));
        }
        sources.push(v);
    }
    let total: usize = sources.iter().map(|v| v.len()).sum();
    let out = merge_sources(&sources);
    assert_eq!(out.len(), total);
    for w in out.windows(2) {
        let (a, i) = (w[0].0.insn_count, w[0].1);
        let (b, j) = (w[1].0.insn_count, w[1].1);
        assert!(a < b || (a == b && i <= j));
    }
    for (s, v) in sources.iter().enumerate() {
        let from_s: Vec<LogRecord> = out.iter().filter(|(_, i)| *i == s).map(|(r, _)| *r).collect();
        assert_eq!(&from_s, v);
    }
}
