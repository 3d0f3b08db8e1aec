use aos_kernel::journal::fs::{read_all_records, FsJournal};
use aos_kernel::journal::mem::{JournalBackend, MemJournal};
use aos_kernel::journal::{
    Journal, JournalBounds, JournalEntry, JournalError, JournalKind, OwnedJournalEntry,
};

#[test]
fn append_and_load_round_trip() {
    let mut journal = MemJournal::new();
    journal
        .append(JournalEntry::new(JournalKind::DomainEvent, b"first"))
        .unwrap();
    journal
        .append(JournalEntry::new(JournalKind::EffectIntent, b"second"))
        .unwrap();

    let all = journal.load_from(0).unwrap();
    assert_eq!(all.len(), 2);
    assert_eq!(all[0].seq, 0);
    assert_eq!(all[0].payload, b"first");
    assert_eq!(all[1].seq, 1);
    assert_eq!(all[1].kind, JournalKind::EffectIntent);

    let tail = journal.load_from(1).unwrap();
    assert_eq!(tail.len(), 1);
    assert_eq!(tail[0].payload, b"second");
}

#[test]
fn append_and_load_from_returns_contiguous_entries() {
    let mut journal = Journal::new();
    journal
        .append(JournalEntry::new(JournalKind::DomainEvent, b"first"))
        .unwrap();
    journal
        .append(JournalEntry::new(JournalKind::EffectIntent, b"second"))
        .unwrap();

    let all = journal.load_from(0).unwrap();
    assert_eq!(all.len(), 2);
    assert_eq!(all[0].seq, 0);
    assert_eq!(all[1].seq, 1);
    assert_eq!(all[1].kind, JournalKind::EffectIntent);
    assert_eq!(journal.bounds().retained_from, 0);
    assert_eq!(journal.bounds().next_seq, 2);
}

#[test]
fn compact_through_advances_retained_prefix_without_resetting_sequence() {
    let mut journal = Journal::new();
    journal
        .append(JournalEntry::new(JournalKind::DomainEvent, b"a"))
        .unwrap();
    journal
        .append(JournalEntry::new(JournalKind::DomainEvent, b"b"))
        .unwrap();
    journal
        .append(JournalEntry::new(JournalKind::DomainEvent, b"c"))
        .unwrap();

    journal.compact_through(1).unwrap();
    let retained = journal.load_from(0).unwrap();
    assert_eq!(retained.len(), 1);
    assert_eq!(retained[0].seq, 2);
    assert_eq!(
        journal.bounds(),
        JournalBounds {
            retained_from: 2,
            next_seq: 3,
        }
    );

    let next = journal
        .append(JournalEntry::new(JournalKind::EffectReceipt, b"d"))
        .unwrap();
    assert_eq!(next, 3);
    assert_eq!(journal.bounds().next_seq, 4);
}

#[test]
fn from_entries_rejects_non_contiguous_sequence() {
    let err = Journal::from_entries(&vec![
        OwnedJournalEntry {
            seq: 0,
            kind: JournalKind::DomainEvent,
            payload: b"a".to_vec(),
        },
        OwnedJournalEntry {
            seq: 2,
            kind: JournalKind::DomainEvent,
            payload: b"b".to_vec(),
        },
    ])
    .unwrap_err();

    assert!(matches!(err, JournalError::Corrupt(_)));
}

#[test]
fn with_retained_from_preserves_next_seq_for_empty_journal() {
    let journal = Journal::with_retained_from(42);
    assert_eq!(journal.bounds().retained_from, 42);
    assert_eq!(journal.bounds().next_seq, 42);
}

/// Appends an entry to the bytes of a log.
fn append(journal: &mut FsJournal, log: &mut Vec<u8>, kind: JournalKind, payload: &[u8]) {
    let frame = journal.next_frame(JournalEntry::new(kind, payload)).unwrap();
    log.extend_from_slice(&frame);
    journal.advance();
}

#[test]
fn writes_and_recovers_entries() {
    let mut log = Vec::new();
    let mut journal = FsJournal::open("log".to_string(), &read_all_records(&log).unwrap());
    assert_eq!(journal.next_seq(), 0);
    append(&mut journal, &mut log, JournalKind::EffectIntent, b"a");
    append(&mut journal, &mut log, JournalKind::EffectReceipt, b"b");

    let again = FsJournal::open("log".to_string(), &read_all_records(&log).unwrap());
    assert_eq!(again.next_seq(), 2);
    let entries = FsJournal::load_from(&log, 0).unwrap();
    assert_eq!(entries.len(), 2);
    assert_eq!(entries[0].seq, 0);
    assert_eq!(entries[0].payload, b"a");
    assert_eq!(entries[1].kind, JournalKind::EffectReceipt);
}

#[test]
fn load_from_filters_sequence() {
    let mut log = Vec::new();
    let mut journal = FsJournal::open("log".to_string(), &Vec::new());
    for payload in [b"one".as_ref(), b"two", b"three"] {
        append(&mut journal, &mut log, JournalKind::DomainEvent, payload);
    }
    let entries = FsJournal::load_from(&log, 2).unwrap();
    assert_eq!(entries.len(), 1);
    assert_eq!(entries[0].payload, b"three");
}

#[test]
fn detects_truncated_entry() {
    let mut log = Vec::new();
    let mut journal = FsJournal::open("log".to_string(), &Vec::new());
    append(&mut journal, &mut log, JournalKind::EffectIntent, b"payload");
    log.pop();

    let err = read_all_records(&log).unwrap_err();
    assert!(matches!(err, JournalError::Corrupt(_)));
}

#[test]
fn a_length_without_all_its_bytes_is_corrupt() {
    assert!(matches!(
        read_all_records(&[1, 0, 0]).unwrap_err(),
        JournalError::Corrupt(_)
    ));
}

#[test]
fn a_record_that_is_no_cbor_is_refused() {
    assert!(matches!(
        read_all_records(&[1, 0, 0, 0, 0xff]).unwrap_err(),
        JournalError::Cbor(_)
    ));
}

#[test]
fn a_frame_starts_with_the_length_of_its_record() {
    let journal = FsJournal::open("log".to_string(), &Vec::new());
    let frame = journal
        .next_frame(JournalEntry::new(JournalKind::Custom, &[1, 2]))
        .unwrap();
    let len = u32::from_le_bytes([frame[0], frame[1], frame[2], frame[3]]);
    assert_eq!(len as usize, frame.len() - 4);
}

#[test]
fn a_batch_of_entries_is_loaded_by_cursor() {
    let mut journal = Journal::new();
    let next = journal
        .append_batch(&vec![
            JournalEntry::new(JournalKind::DomainEvent, b"a"),
            JournalEntry::new(JournalKind::Snapshot, b"b"),
            JournalEntry::new(JournalKind::Manifest, b"c"),
        ])
        .unwrap();
    assert_eq!(next, 0);
    let page = journal.load_batch_from(1, 1).unwrap();
    assert_eq!(page.len(), 1);
    assert_eq!(page[0].payload, b"b");
    assert_eq!(page[0].kind, JournalKind::Snapshot);
}

#[test]
fn errors_of_a_journal_are_told_apart() {
    assert_eq!(
        JournalError::Corrupt("bad".to_string()).message(),
        "corrupt entry: bad"
    );
}

#[test]
fn appending_goes_on_after_the_last_entry() {
    let mut journal = MemJournal::from_entries(&vec![OwnedJournalEntry {
        seq: 5,
        kind: JournalKind::DomainEvent,
        payload: b"a".to_vec(),
    }]);
    assert_eq!(journal.next_seq(), 6);
    let entry = |p: &'static [u8]| JournalEntry::new(JournalKind::DomainEvent, p);
    assert_eq!(journal.append(entry(b"b")).unwrap(), 6);
    assert_eq!(journal.append(entry(b"c")).unwrap(), 7);
    assert_eq!(journal.next_seq(), 8);
    let seqs: Vec<u64> = journal.load_from(6).unwrap().iter().map(|e| e.seq).collect();
    assert_eq!(seqs, vec![6, 7]);
}

#[test]
fn the_next_cursor_is_taken_by_no_entry() {
    let made = |seqs: &[u64]| {
        let entries = seqs
            .iter()
            .map(|seq| OwnedJournalEntry {
                seq: *seq,
                kind: JournalKind::DomainEvent,
                payload: vec![],
            })
            .collect();
        MemJournal::from_entries(&entries)
    };
    assert_eq!(made(&[]).next_seq(), 0);
    assert_eq!(made(&[0, 1]).next_seq(), 2);
    assert_eq!(made(&[0, 0]).next_seq(), 2);
    assert_eq!(made(&[1, 0]).next_seq(), 2);
    assert_eq!(made(&[7, 2]).next_seq(), 8);
    let mut journal = made(&[1, 0]);
    let entry = JournalEntry::new(JournalKind::DomainEvent, b"x");
    assert_eq!(journal.append(entry).unwrap(), 2);
    let seqs: Vec<u64> = journal.entries().iter().map(|e| e.seq).collect();
    assert_eq!(seqs, vec![1, 0, 2]);
    let again: Vec<u64> = journal.entries().iter().map(|e| e.seq).collect();
    assert_eq!(again, seqs);
}
