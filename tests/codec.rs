use rowclone_trace::memory_access::{
    parse_binary_record, parse_rowclone_record, MemRecord, MemoryAccess, RowcloneRecord,
};
use rowclone_trace::record::{LogRecord, RecordError, RECORD_SIZE};

fn sample() -> LogRecord {
    LogRecord { insn_count: 0x0102_0304_0506_0708, cpu: 3, store: 1, size: 2, address: 0xdead_beef }
}

#[test]
fn binary_layout_is_little_endian_with_padding() {
    let mut buf = [0xffu8; RECORD_SIZE];
    sample().serialize(&mut buf);
    assert_eq!(
        buf,
        [
            0x08, 0x07, 0x06, 0x05, 0x04, 0x03, 0x02, 0x01, 3, 1, 2, 0, 0, 0, 0, 0, 0xef, 0xbe,
            0xad, 0xde, 0, 0, 0, 0
        ]
    );
}

#[test]
fn binary_round_trip() {
    for r in [
        sample(),
        LogRecord { insn_count: 0, cpu: 0, store: 0, size: 0, address: 0 },
        LogRecord { insn_count: u64::MAX, cpu: 255, store: 255, size: 255, address: u64::MAX },
    ] {
        let mut buf = [0u8; RECORD_SIZE];
        r.serialize(&mut buf);
        let back = LogRecord::deserialize(&mut buf);
        assert_eq!(back, r);
    }
}

#[test]
fn deserialize_ignores_padding() {
    let mut buf = [0u8; RECORD_SIZE];
    sample().serialize(&mut buf);
    for b in buf.iter_mut().take(16).skip(11) {
        *b = 0x5a;
    }
    assert_eq!(LogRecord::deserialize(&mut buf), sample());
}

#[test]
fn text_form_is_exact() {
    let r = LogRecord { insn_count: 10, cpu: 1, store: 0, size: 3, address: 0x1000 };
    assert_eq!(r.to_text(), "10,1,0,3,0x0000000000001000");
    assert_eq!(sample().to_text(), "72623859790382856,3,1,2,0x00000000deadbeef");
}

#[test]
fn text_and_binary_denote_the_same_record() {
    let r = sample();
    let mut buf = [0u8; RECORD_SIZE];
    r.serialize(&mut buf);
    let from_binary = LogRecord::deserialize(&mut buf);
    let from_text = LogRecord::from_text(&r.to_text()).unwrap();
    assert_eq!(from_binary, from_text);
    assert_eq!(from_text, r);
}

#[test]
fn text_parse_trims_and_accepts_plus() {
    let r = LogRecord::from_text("  +7,2,1,0,0x00ff\t\r").unwrap();
    assert_eq!(r, LogRecord { insn_count: 7, cpu: 2, store: 1, size: 0, address: 0xff });
    let r = LogRecord::from_text("7,2,1,0,ABC").unwrap();
    assert_eq!(r.address, 0xabc);
}

#[test]
fn text_parse_errors() {
    assert_eq!(LogRecord::from_text("1,2,3,4"), Err(RecordError::FieldCount));
    assert_eq!(LogRecord::from_text("1,2,3,4,0x1,5"), Err(RecordError::FieldCount));
    assert_eq!(LogRecord::from_text(""), Err(RecordError::FieldCount));
    assert_eq!(LogRecord::from_text("x,2,3,4,0x1"), Err(RecordError::BadField));
    assert_eq!(LogRecord::from_text("1,256,3,4,0x1"), Err(RecordError::BadField));
    assert_eq!(LogRecord::from_text("1, 2,3,4,0x1"), Err(RecordError::BadField));
    assert_eq!(LogRecord::from_text("1,2,3,4,0xg"), Err(RecordError::BadField));
    assert_eq!(LogRecord::from_text("1,2,3,4,0x"), Err(RecordError::BadField));
    assert_eq!(
        LogRecord::from_text("18446744073709551616,2,3,4,0x1"),
        Err(RecordError::BadField)
    );
    assert_eq!(LogRecord::from_text("1,2,3,4,0x10000000000000000"), Err(RecordError::BadField));
}

#[test]
fn access_text_forms() {
    let load = MemoryAccess::Regular(MemRecord { insn_count: 5, address: 0x40, store: false, cpu: 2 });
    let store = MemoryAccess::Regular(MemRecord { insn_count: 6, address: 0x80, store: true, cpu: 0 });
    let copy = MemoryAccess::Rowclone(RowcloneRecord { insn_count: 9, from: 0x1000, to: 0x2000, cpu: 1 });
    assert_eq!(load.to_text(), "5,0,0,2,0x0000000000000040");
    assert_eq!(store.to_text(), "6,0,1,0,0x0000000000000080");
    assert_eq!(copy.to_text(), "9,1,1,0x0000000000001000,0x0000000000002000");
    for a in [load, store, copy] {
        assert_eq!(MemoryAccess::from_text(&a.to_text()), Ok(a));
    }
}

#[test]
fn access_text_errors() {
    assert_eq!(MemoryAccess::from_text("1,0,0,0"), Err(RecordError::FieldCount));
    assert_eq!(MemoryAccess::from_text("a,0,0,0,0x1"), Err(RecordError::BadField));
    assert_eq!(MemoryAccess::from_text("1,1,0,zz,0x1"), Err(RecordError::BadField));
    assert_eq!(MemoryAccess::from_text("1,0,0,cpu,0x1"), Err(RecordError::BadField));
    let other = MemoryAccess::from_text("1,7,2,3,0x10").unwrap();
    assert_eq!(
        other,
        MemoryAccess::Regular(MemRecord { insn_count: 1, address: 0x10, store: false, cpu: 3 })
    );
}

#[test]
fn input_parsers_of_the_cache_stage() {
    assert_eq!(
        parse_binary_record("12,4,1,3,0x0000000000002000"),
        Ok(MemoryAccess::Regular(MemRecord { insn_count: 12, address: 0x2000, store: true, cpu: 4 }))
    );
    assert_eq!(
        parse_binary_record("12,4,2,3,0x0000000000002000"),
        Ok(MemoryAccess::Regular(MemRecord { insn_count: 12, address: 0x2000, store: false, cpu: 4 }))
    );
    assert_eq!(parse_binary_record("12,4,1"), Err(RecordError::FieldCount));
    assert_eq!(
        parse_rowclone_record("3,1,0,0x1000,0x2000"),
        Ok(MemoryAccess::Rowclone(RowcloneRecord { insn_count: 3, from: 0x1000, to: 0x2000, cpu: 0 }))
    );
}
