use mini_lsm::errors::{IoErrorKind, LsmError};
use mini_lsm::mem_table::MemTable;
use mini_lsm::wal::Wal;

#[test]
fn test_format() {
    let s = format!("{:05}.wal", &1);
    assert_eq!(s, "00001.wal");
}

#[test]
fn test_wal_create() {
    let wal = Wal::create();
    assert_eq!(wal.data().len(), 0);
}

#[test]
fn test_wal_record_framing() {
    let mut wal = Wal::create();
    wal.put(b"k", b"v");
    let expected: Vec<u8> = vec![
        1, 0, 0, 0, 0, 0, 0, 0, // key length, little endian
        1, 0, 0, 0, 0, 0, 0, 0, // value length, little endian
        b'k', b'v',
    ];
    assert_eq!(wal.data().clone(), expected);
}

#[test]
fn test_wal_round_trip() {
    let mut mem_table = MemTable::create_with_wal(3);
    mem_table.put(b"alpha", b"1");
    mem_table.put(b"beta", b"2");
    mem_table.put(b"alpha", b"3");
    mem_table.put(b"gamma", b"4");
    mem_table.put(b"beta", b""); // tombstone
    let image = mem_table.wal_data().unwrap().clone();
    let recovered = MemTable::recover_with_wal(3, &image);
    assert_eq!(recovered.id(), 3);
    assert_eq!(recovered.get(b"alpha"), Some(b"3".to_vec()));
    assert_eq!(recovered.get(b"beta"), Some(b"".to_vec()));
    assert_eq!(recovered.get(b"gamma"), Some(b"4".to_vec()));
    assert_eq!(recovered.get(b"delta"), None);
}

#[test]
fn test_wal_recover_strict_ok() {
    let mut wal = Wal::create();
    wal.put(b"a", b"1");
    wal.put(b"b", b"2");
    let image = wal.data().clone();
    let (recovered, entries) = Wal::recover(&image).unwrap();
    assert_eq!(recovered.data().clone(), image);
    assert_eq!(entries.len(), 2);
    assert_eq!(entries[0], (b"a".to_vec(), b"1".to_vec()));
    assert_eq!(entries[1], (b"b".to_vec(), b"2".to_vec()));
}

#[test]
fn test_wal_recover_strict_truncated() {
    let mut wal = Wal::create();
    wal.put(b"a", b"1");
    let mut extra = Wal::create();
    extra.put(b"bb", b"22");
    let mut image = wal.data().clone();
    let tail = extra.data();
    // Cut the trailing record short, mid-way through its payload.
    image.extend_from_slice(&tail[..tail.len() - 3]);
    let err = match Wal::recover(&image) {
        Ok(_) => panic!("a cut record must be reported"),
        Err(e) => e,
    };
    assert_eq!(err, LsmError::IoError(IoErrorKind::Truncated));
}

#[test]
fn test_truncated_wal_recovers_prefix() {
    let mut mem_table = MemTable::create_with_wal(1);
    mem_table.put(b"kept", b"yes");
    mem_table.put(b"also", b"sure");
    let mut image = mem_table.wal_data().unwrap().clone();
    let mut extra = Wal::create();
    extra.put(b"lost", b"record");
    let tail = extra.data();
    for cut in [1usize, 8, 15, 16, 17, tail.len() - 1] {
        let mut damaged = image.clone();
        damaged.extend_from_slice(&tail[..cut]);
        let recovered = MemTable::recover_with_wal(1, &damaged);
        assert_eq!(recovered.get(b"kept"), Some(b"yes".to_vec()));
        assert_eq!(recovered.get(b"also"), Some(b"sure".to_vec()));
        assert_eq!(recovered.get(b"lost"), None);
    }
    // An undamaged image still recovers whole.
    image.extend_from_slice(tail);
    let recovered = MemTable::recover_with_wal(1, &image);
    assert_eq!(recovered.get(b"lost"), Some(b"record".to_vec()));
}
