use std::collections::HashMap;

use hangman2::solver::disk_cache::{
    db_dir_name, decide_save, entry_bytes, plan_save, read_entry, read_packed, SaveOutcome, SaveStats, TABLE_NAME,
};
use hangman2::solver::tt::{cache_pack, cache_unpack, BOUND_EXACT, BOUND_LOWER, BOUND_UPPER};

fn cache_words() -> Vec<Vec<u8>> {
    vec![b"cat".to_vec(), b"bat".to_vec(), b"hat".to_vec()]
}

/// Save entries to a table that is kept as stored bytes.
fn save_to(table: &mut HashMap<Vec<u8>, Vec<u8>>, entries: &[(u128, u32)]) -> SaveStats {
    let existing: Vec<Option<u32>> =
        entries.iter().map(|&(k, v)| table.get(&entry_bytes(k, v).0).and_then(|b| read_packed(b))).collect();
    let (writes, stats) = plan_save(entries, &existing);
    assert_eq!(writes.len() as u64, stats.total_written());
    assert_eq!(entries.len() as u64, stats.total_considered());
    for (k, v) in writes {
        let (key, value) = entry_bytes(k, v);
        table.insert(key, value);
    }
    stats
}

fn get_from(table: &HashMap<Vec<u8>, Vec<u8>>, key: u128) -> Option<u32> {
    table.get(&entry_bytes(key, 0).0).and_then(|b| read_packed(b))
}

#[test]
fn round_trip() {
    let mut table = HashMap::new();
    let saved = save_to(&mut table, &[(42, 0x0000_0005), (99, 0x0000_0003), (200, 0x0000_0005 | (1 << 10))]);
    assert_eq!(saved.total_written(), 3); // all entries, bounds too
    assert_eq!(get_from(&table, 42), Some(0x0000_0005));
    assert_eq!(get_from(&table, 99), Some(0x0000_0003));
    assert_eq!(get_from(&table, 200), Some(0x0000_0005 | (1 << 10)));
    assert_eq!(get_from(&table, 12345), None);
    assert_eq!(table.len(), 3);
}

#[test]
fn save_preserves_existing_exact_against_later_bound() {
    let mut table = HashMap::new();
    assert_eq!(save_to(&mut table, &[(42, cache_pack(5, b'a', BOUND_EXACT))]).total_written(), 1);
    let written = save_to(&mut table, &[(42, cache_pack(7, b'a', BOUND_UPPER))]);
    assert_eq!(written.total_written(), 0, "EXACT must not be overwritten by a bound");
    assert_eq!(written.rejected_by_exact, 1);
    let (val, _, bound) = cache_unpack(get_from(&table, 42).unwrap());
    assert_eq!(bound, BOUND_EXACT);
    assert_eq!(val, 5);
}

#[test]
fn save_overwrites_bound_with_tighter_same_type() {
    let mut table = HashMap::new();
    save_to(&mut table, &[(42, cache_pack(10, b'a', BOUND_UPPER))]);

    // A tighter upper bound dominates.
    let written = save_to(&mut table, &[(42, cache_pack(7, b'a', BOUND_UPPER))]);
    assert_eq!(written.total_written(), 1);
    let (val, _, bound) = cache_unpack(get_from(&table, 42).unwrap());
    assert_eq!((val, bound), (7, BOUND_UPPER));

    // A looser one does not.
    let written = save_to(&mut table, &[(42, cache_pack(12, b'a', BOUND_UPPER))]);
    assert_eq!(written.total_written(), 0);
    let (val, _, _) = cache_unpack(get_from(&table, 42).unwrap());
    assert_eq!(val, 7, "looser upper bound must not overwrite tighter");

    // A bound of the other kind does not.
    let written = save_to(&mut table, &[(42, cache_pack(3, b'a', BOUND_LOWER))]);
    assert_eq!(written.total_written(), 0);
    assert_eq!(written.rejected_other, 1);

    // An exact value always wins over a bound.
    let written = save_to(&mut table, &[(42, cache_pack(5, b'a', BOUND_EXACT))]);
    assert_eq!(written.total_written(), 1);
    let (val, _, bound) = cache_unpack(get_from(&table, 42).unwrap());
    assert_eq!((val, bound), (5, BOUND_EXACT));
}

#[test]
fn different_words_different_db() {
    let words1 = cache_words();
    let words2 = vec![b"dog".to_vec(), b"log".to_vec()];
    assert_ne!(db_dir_name(3, &words1), db_dir_name(3, &words2));
    assert!(db_dir_name(3, &words1).starts_with("tt_len3_"));
    assert_eq!(db_dir_name(3, &words1).len(), "tt_len3_".len() + 16);
}

#[test]
fn every_outcome_of_a_save() {
    let exact = cache_pack(5, b'a', BOUND_EXACT);
    let low = cache_pack(3, b'a', BOUND_LOWER);
    assert_eq!(decide_save(exact, None), SaveOutcome::Inserted);
    assert_eq!(decide_save(exact, Some(low)), SaveOutcome::Overwritten);
    assert_eq!(decide_save(low, Some(exact)), SaveOutcome::RejectedByExact);
    assert_eq!(decide_save(low, Some(low)), SaveOutcome::RejectedOther);
    assert_eq!(SaveStats::default().total_considered(), 0);
}

#[test]
fn stored_entries_are_little_endian() {
    let (key, value) = entry_bytes(0x0102, 0x0304);
    assert_eq!(key.len(), 16);
    assert_eq!(&key[..3], &[2, 1, 0]);
    assert_eq!(value, vec![4, 3, 0, 0]);
    assert_eq!(read_entry(&key, &value), Some((0x0102, 0x0304)));
    assert_eq!(read_entry(&key[..8], &value), None);
    assert_eq!(read_packed(&[1, 2, 3]), None);
    assert_eq!(read_packed(&[1, 0, 0, 0, 9, 9]), Some(1));
}

#[test]
fn saving_the_same_entries_again_writes_nothing() {
    let entries = [
        (1u128, cache_pack(5, b'a', BOUND_EXACT)),
        (2, cache_pack(7, b'b', BOUND_UPPER)),
        (3, cache_pack(2, b'c', BOUND_LOWER)),
    ];
    let mut table = HashMap::new();
    save_to(&mut table, &[(2, cache_pack(9, b'b', BOUND_UPPER))]);
    let first = save_to(&mut table, &entries);
    assert_eq!((first.inserted, first.overwritten), (2, 1));
    let before = table.clone();
    let second = save_to(&mut table, &entries);
    assert_eq!(second.total_written(), 0);
    assert_eq!((second.rejected_by_exact, second.rejected_other), (1, 2));
    assert_eq!(table, before);
    let both = first.plus(second);
    assert_eq!(both.total_considered(), 6);
    assert_eq!(both.total_written(), 3);
}

#[test]
fn the_table_has_a_name_of_its_own() {
    assert_eq!(TABLE_NAME, "forms_with_width");
}
