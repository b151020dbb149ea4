use tx_fuzzer::status::{CellStatus, CorruptError, TxOutputsStatus, TxStatus};
use tx_fuzzer::status::{read_u32, write_u32};

fn pattern(n: usize) -> Vec<CellStatus> {
    (0..n)
        .map(|i| match (i * 7 + i / 3) % 3 {
            0 => CellStatus::Live,
            1 => CellStatus::Burn,
            _ => CellStatus::Dead,
        })
        .collect()
}

fn encode(statuses: Vec<CellStatus>) -> Vec<u8> {
    let mut out = Vec::new();
    TxOutputsStatus { statuses }.write_into(&mut out);
    out
}

#[test]
fn round_trip_all_lengths_up_to_1000() {
    for n in 0..=1000usize {
        let s = pattern(n);
        let bytes = encode(s.clone());
        assert_eq!(bytes.len(), 4 + (n + 3) / 4);
        let back = TxOutputsStatus::from_slice(&bytes).unwrap();
        assert_eq!(back.statuses, s);
    }
}

#[test]
fn encoding_exact_bytes() {
    let s = vec![
        CellStatus::Live,
        CellStatus::Burn,
        CellStatus::Dead,
        CellStatus::Live,
        CellStatus::Dead,
    ];
    assert_eq!(encode(s), vec![5, 0, 0, 0, 0b0010_1100, 0b1100_0000]);
    assert_eq!(encode(vec![]), vec![0, 0, 0, 0]);
}

#[test]
fn encoding_never_holds_reserved_pattern() {
    let bytes = encode(pattern(997));
    for b in &bytes[4..] {
        for k in 0..4 {
            assert_ne!((b >> (6 - 2 * k)) & 3, 0b01);
        }
    }
}

#[test]
fn decode_rejects_count_mismatch() {
    let mut bytes = encode(pattern(9));
    bytes.push(0);
    assert_eq!(
        TxOutputsStatus::from_slice(&bytes).unwrap_err(),
        CorruptError::WrongLength
    );
    let short = vec![9, 0, 0, 0, 0];
    assert_eq!(
        TxOutputsStatus::from_slice(&short).unwrap_err(),
        CorruptError::WrongLength
    );
    assert_eq!(
        TxOutputsStatus::from_slice(&[1, 0]).unwrap_err(),
        CorruptError::TooShort
    );
}

#[test]
fn decode_rejects_reserved_pattern() {
    let bytes = vec![2, 0, 0, 0, 0b0001_0000];
    assert_eq!(
        TxOutputsStatus::from_slice(&bytes).unwrap_err(),
        CorruptError::ReservedPattern
    );
}

#[test]
fn decode_rejects_dirty_padding() {
    let bytes = vec![1, 0, 0, 0, 0b0000_1000];
    assert_eq!(
        TxOutputsStatus::from_slice(&bytes).unwrap_err(),
        CorruptError::DirtyPadding
    );
}

#[test]
fn tx_status_tags_and_round_trip() {
    let pending = TxStatus::Pending(TxOutputsStatus { statuses: vec![CellStatus::Dead] });
    let bytes = pending.to_vec();
    assert_eq!(bytes, vec![0x00, 1, 0, 0, 0, 0b1100_0000]);
    match TxStatus::from_slice(&bytes).unwrap() {
        TxStatus::Pending(o) => assert_eq!(o.statuses, vec![CellStatus::Dead]),
        other => panic!("unexpected {:?}", other),
    }
    let committed = TxStatus::new_committed(2);
    assert_eq!(committed.to_vec(), vec![0x01, 2, 0, 0, 0, 0]);
    assert_eq!(TxStatus::Failed.to_vec(), vec![0xff]);
    assert!(matches!(TxStatus::from_slice(&[0xff]).unwrap(), TxStatus::Failed));
    assert_eq!(TxStatus::from_slice(&[0x07]).unwrap_err(), CorruptError::UnknownTag);
    assert_eq!(TxStatus::from_slice(&[]).unwrap_err(), CorruptError::TooShort);
}

#[test]
fn status_queries_and_spending() {
    let mut t = TxStatus::Committed(TxOutputsStatus {
        statuses: vec![CellStatus::Live, CellStatus::Burn],
    });
    assert!(!t.is_invalid());
    t.spent(0);
    assert!(t.is_invalid());
    match &t {
        TxStatus::Committed(o) => {
            assert_eq!(o.count(), 2);
            assert_eq!(o.status(0), CellStatus::Dead);
            assert_eq!(o.status(1), CellStatus::Burn);
        }
        _ => panic!("kind changed"),
    }
    assert!(TxStatus::Failed.is_invalid());
    let all = TxOutputsStatus::new_all_live(3);
    assert_eq!(all.statuses, vec![CellStatus::Live; 3]);
}

#[test]
fn u32_little_endian() {
    let mut out = vec![9];
    write_u32(&mut out, 0x0102_0304);
    assert_eq!(out, vec![9, 4, 3, 2, 1]);
    assert_eq!(read_u32(&out[1..]).unwrap(), 0x0102_0304);
    assert_eq!(read_u32(&[1, 2, 3]).unwrap_err(), CorruptError::TooShort);
}
