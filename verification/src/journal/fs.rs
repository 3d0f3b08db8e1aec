//! The format of a journal on disk: records one after the other, each with its length before it.
use vstd::prelude::*;
use vstd::utf8::*;

use crate::bytes::{copy_range, copy_slice};
use crate::cbor::{cbor_parsed, cbor_printed, decode_cbor, encode_cbor, entry_trees, get_text_entry, key_lt,
    keys_of, lemma_map_tree, lemma_round_trips_writable, plain_order, round_trips, safe_depth,
    text_entry, CborTree, CborValue};
use crate::journal::mem::{copy_since, since};
use crate::journal::{entries_view, EntryModel, JournalEntry, JournalError, JournalFault,
    JournalKind, JournalSeq, OwnedJournalEntry};
use crate::text::{decimal, decimal_text, join3, str_eq};

verus! {

/// The directory of a journal below the root of its world.
pub const JOURNAL_DIR: &'static str = "journal";

/// The file of a journal in its directory.
pub const JOURNAL_FILE: &'static str = "journal.log";

/// A journal in a file: where the file is, and the cursor of the next entry.
#[derive(Debug)]
pub struct FsJournal {
    pub path: String,
    pub next_seq: JournalSeq,
}

/// An entry as it stands on disk.
#[derive(Clone, Copy, Debug)]
pub struct DiskRecord<'a> {
    pub seq: JournalSeq,
    pub kind: JournalKind,
    pub payload: &'a [u8],
}

impl<'a> View for DiskRecord<'a> {
    type V = EntryModel;

    open spec fn view(&self) -> EntryModel {
        EntryModel { seq: self.seq, kind: self.kind, payload: self.payload@ }
    }
}

/// The CBOR form of an entry.
pub open spec fn record_tree(e: EntryModel) -> CborTree {
    CborTree::Mapping(
        seq![
            (CborTree::Text("seq"@), CborTree::Integer(e.seq as i128)),
            (CborTree::Text("kind"@), CborTree::Text(e.kind.name())),
            (CborTree::Text("payload"@), CborTree::Bytes(e.payload)),
        ],
    )
}

/// A longer text key comes after a shorter one, where both are ASCII.
pub proof fn lemma_longer_key(a: Seq<char>, b: Seq<char>)
    requires
        is_ascii_chars(a),
        is_ascii_chars(b),
        a.len() < b.len(),
    ensures
        key_lt(CborTree::Text(a), CborTree::Text(b)),
{
    is_ascii_chars_encode_utf8(a);
    is_ascii_chars_encode_utf8(b);
}

/// The form of an entry is read back as it is written.
pub proof fn lemma_record_round_trips(e: EntryModel)
    ensures
        round_trips(record_tree(e), safe_depth()),
{
    let entries = record_tree(e)->Mapping_0;
    let keys = keys_of(entries);
    reveal_strlit("seq");
    reveal_strlit("kind");
    reveal_strlit("payload");
    lemma_longer_key("seq"@, "kind"@);
    lemma_longer_key("kind"@, "payload"@);
    lemma_longer_key("seq"@, "payload"@);
    assert(keys.len() == 3);
    assert(keys[0] == CborTree::Text("seq"@));
    assert(keys[1] == CborTree::Text("kind"@));
    assert(keys[2] == CborTree::Text("payload"@));
    assert(plain_order(keys));
    reveal_with_fuel(round_trips, 2);
    assert forall|i: int| 0 <= i < entries.len() implies round_trips(
        (#[trigger] entries[i]).1,
        (safe_depth() - 1) as nat,
    ) by {
        assert(i == 0 || i == 1 || i == 2);
    }
}

impl<'a> DiskRecord<'a> {
    /// The record of an entry.
    pub fn of_entry(entry: &'a OwnedJournalEntry) -> (r: Self)
        ensures
            r@ == entry@,
    {
        DiskRecord { seq: entry.seq, kind: entry.kind, payload: entry.payload.as_slice() }
    }

    pub fn into_owned(self) -> (r: OwnedJournalEntry)
        ensures
            r@ == self@,
    {
        OwnedJournalEntry { seq: self.seq, kind: self.kind, payload: copy_slice(self.payload) }
    }

    fn to_cbor(&self) -> (r: CborValue)
        ensures
            r@ == record_tree(self@),
    {
        let mut entries: Vec<(CborValue, CborValue)> = Vec::new();
        entries.push((CborValue::Text("seq".to_owned()), CborValue::Integer(self.seq as i128)));
        entries.push(
            (
                CborValue::Text("kind".to_owned()),
                CborValue::Text(self.kind.label().to_owned()),
            ),
        );
        entries.push(
            (CborValue::Text("payload".to_owned()), CborValue::Bytes(copy_slice(self.payload))),
        );
        let r = CborValue::Mapping(entries);
        proof {
            lemma_map_tree(r);
            assert(entry_trees(entries@) =~= record_tree(self@)->Mapping_0);
        }
        r
    }
}

/// The kind with a given word.
pub open spec fn kind_named(word: Seq<char>) -> Option<JournalKind> {
    if word == "domain_event"@ {
        Some(JournalKind::DomainEvent)
    } else if word == "effect_intent"@ {
        Some(JournalKind::EffectIntent)
    } else if word == "effect_receipt"@ {
        Some(JournalKind::EffectReceipt)
    } else if word == "stream_frame"@ {
        Some(JournalKind::StreamFrame)
    } else if word == "manifest"@ {
        Some(JournalKind::Manifest)
    } else if word == "snapshot"@ {
        Some(JournalKind::Snapshot)
    } else if word == "policy_decision"@ {
        Some(JournalKind::PolicyDecision)
    } else if word == "governance"@ {
        Some(JournalKind::Governance)
    } else if word == "plan_started"@ {
        Some(JournalKind::PlanStarted)
    } else if word == "plan_result"@ {
        Some(JournalKind::PlanResult)
    } else if word == "plan_ended"@ {
        Some(JournalKind::PlanEnded)
    } else if word == "custom"@ {
        Some(JournalKind::Custom)
    } else {
        None
    }
}

fn parse_kind(word: &str) -> (r: Option<JournalKind>)
    ensures
        r == kind_named(word@),
{
    if str_eq(word, "domain_event") {
        Some(JournalKind::DomainEvent)
    } else if str_eq(word, "effect_intent") {
        Some(JournalKind::EffectIntent)
    } else if str_eq(word, "effect_receipt") {
        Some(JournalKind::EffectReceipt)
    } else if str_eq(word, "stream_frame") {
        Some(JournalKind::StreamFrame)
    } else if str_eq(word, "manifest") {
        Some(JournalKind::Manifest)
    } else if str_eq(word, "snapshot") {
        Some(JournalKind::Snapshot)
    } else if str_eq(word, "policy_decision") {
        Some(JournalKind::PolicyDecision)
    } else if str_eq(word, "governance") {
        Some(JournalKind::Governance)
    } else if str_eq(word, "plan_started") {
        Some(JournalKind::PlanStarted)
    } else if str_eq(word, "plan_result") {
        Some(JournalKind::PlanResult)
    } else if str_eq(word, "plan_ended") {
        Some(JournalKind::PlanEnded)
    } else if str_eq(word, "custom") {
        Some(JournalKind::Custom)
    } else {
        None
    }
}

/// Every kind is found by its word.
pub proof fn lemma_kind_reads_back(kind: JournalKind)
    ensures
        kind_named(kind.name()) == Some(kind),
{
    reveal_strlit("domain_event");
    reveal_strlit("effect_intent");
    reveal_strlit("effect_receipt");
    reveal_strlit("stream_frame");
    reveal_strlit("manifest");
    reveal_strlit("snapshot");
    reveal_strlit("policy_decision");
    reveal_strlit("governance");
    reveal_strlit("plan_started");
    reveal_strlit("plan_result");
    reveal_strlit("plan_ended");
    reveal_strlit("custom");
    assert("domain_event"@[0] == 'd');
    assert("effect_intent"@.len() == 13);
    assert("effect_receipt"@.len() == 14);
    assert("stream_frame"@[1] == 't');
    assert("manifest"@[0] == 'm');
    assert("snapshot"@[1] == 'n');
    assert("policy_decision"@[0] == 'p' && "policy_decision"@[1] == 'o');
    assert("governance"@[0] == 'g');
    assert("plan_started"@[0] == 'p' && "plan_started"@.len() == 12);
    assert("plan_result"@[0] == 'p' && "plan_result"@.len() == 11);
    assert("plan_ended"@[0] == 'p' && "plan_ended"@.len() == 10);
    assert("custom"@[0] == 'c');
}

/// The entry that a CBOR value stands for, or why it stands for none.
pub open spec fn tree_record(t: CborTree) -> Result<EntryModel, Seq<char>> {
    match t {
        CborTree::Mapping(entries) => match (
            text_entry(entries, "seq"@),
            text_entry(entries, "kind"@),
            text_entry(entries, "payload"@),
        ) {
            (None, _, _) => Err("missing field `seq`"@),
            (_, None, _) => Err("missing field `kind`"@),
            (_, _, None) => Err("missing field `payload`"@),
            (Some(s), Some(k), Some(p)) => match (s, k, p) {
                (CborTree::Integer(n), CborTree::Text(w), CborTree::Bytes(b)) => if !(0 <= n
                    <= u64::MAX) {
                    Err("invalid value for field `seq`"@)
                } else {
                    match kind_named(w) {
                        Some(kind) => Ok(EntryModel { seq: n as u64, kind, payload: b }),
                        None => Err("unknown variant for field `kind`"@),
                    }
                },
                _ => Err("invalid type of a field"@),
            },
        },
        _ => Err("invalid type, expected a journal entry"@),
    }
}

fn record_from_cbor(v: &CborValue) -> (r: Result<OwnedJournalEntry, String>)
    ensures
        match (r, tree_record(v@)) {
            (Ok(e), Ok(m)) => e@ == m,
            (Err(e), Err(t)) => e@ == t,
            _ => false,
        },
{
    let entries = match v {
        CborValue::Mapping(entries) => entries,
        _ => {
            return Err("invalid type, expected a journal entry".to_owned());
        },
    };
    proof {
        lemma_map_tree(*v);
    }
    let s = match get_text_entry(entries, "seq") {
        Some(x) => x,
        None => {
            return Err("missing field `seq`".to_owned());
        },
    };
    let k = match get_text_entry(entries, "kind") {
        Some(x) => x,
        None => {
            return Err("missing field `kind`".to_owned());
        },
    };
    let p = match get_text_entry(entries, "payload") {
        Some(x) => x,
        None => {
            return Err("missing field `payload`".to_owned());
        },
    };
    match (s, k, p) {
        (CborValue::Integer(n), CborValue::Text(w), CborValue::Bytes(b)) => {
            if *n < 0 || *n > u64::MAX as i128 {
                return Err("invalid value for field `seq`".to_owned());
            }
            match parse_kind(w.as_str()) {
                Some(kind) => Ok(
                    OwnedJournalEntry::from_disk(*n as u64, kind, copy_slice(b.as_slice())),
                ),
                None => Err("unknown variant for field `kind`".to_owned()),
            }
        },
        _ => Err("invalid type of a field".to_owned()),
    }
}

/// The form of an entry stands for the entry.
pub proof fn lemma_record_reads_back(e: EntryModel)
    ensures
        tree_record(record_tree(e)) == Ok::<EntryModel, Seq<char>>(e),
{
    let s = record_tree(e)->Mapping_0;
    reveal_strlit("seq");
    reveal_strlit("kind");
    reveal_strlit("payload");
    lemma_kind_reads_back(e.kind);
    reveal_with_fuel(text_entry, 4);
    assert("seq"@.len() == 3 && "kind"@.len() == 4 && "payload"@.len() == 7);
    assert(s.drop_first()[0] == s[1]);
    assert(s.drop_first().drop_first()[0] == s[2]);
}

/// The four bytes of a length, the lowest first.
pub open spec fn le_bytes(n: int) -> Seq<u8> {
    seq![
        (n % 256) as u8,
        ((n / 256) % 256) as u8,
        ((n / 65536) % 256) as u8,
        ((n / 16777216) % 256) as u8,
    ]
}

/// The length that four bytes stand for.
pub open spec fn le_value(b: Seq<u8>) -> int {
    b[0] + b[1] * 256 + b[2] * 65536 + b[3] * 16777216
}

pub proof fn lemma_le_reads_back(n: int)
    requires
        0 <= n <= u32::MAX,
    ensures
        le_value(le_bytes(n)) == n,
{
}

/// Whether `frame` is an entry as it stands in the file: the length of its bytes, then its bytes,
/// which are read as its form.
pub open spec fn is_frame(frame: Seq<u8>, e: EntryModel) -> bool {
    &&& 4 <= frame.len() <= u32::MAX + 4
    &&& frame.take(4) == le_bytes(frame.len() - 4)
    &&& cbor_parsed(frame.skip(4)) == Ok::<CborTree, Seq<char>>(record_tree(e))
}

/// Whether the bytes of an entry are more than a length of four bytes can tell.
pub open spec fn is_too_long(e: EntryModel) -> bool {
    cbor_printed(record_tree(e)) matches Ok(b) && b.len() > u32::MAX
}

/// Whether `r` is the frame of an entry, or the error where the entry is too long.
pub open spec fn framed(r: Result<Vec<u8>, JournalError>, e: EntryModel) -> bool {
    &&& r is Err <==> is_too_long(e)
    &&& match r {
        Ok(f) => is_frame(f@, e) && cbor_printed(record_tree(e)) == Ok::<Seq<u8>, Seq<char>>(
            f@.skip(4),
        ),
        Err(x) => x@ == JournalFault::Corrupt("entry larger than 4GiB"@),
    }
}

/// The bytes that a record adds to the file. Only a record of more than four gigabytes is refused.
pub fn frame_record(record: DiskRecord<'_>) -> (r: Result<Vec<u8>, JournalError>)
    ensures
        framed(r, record@),
{
    let value = record.to_cbor();
    proof {
        lemma_record_round_trips(record@);
        lemma_round_trips_writable(value@, safe_depth());
    }
    let bytes = match encode_cbor(&value) {
        Ok(b) => b,
        Err(e) => {
            return Err(JournalError::Cbor(e));
        },
    };
    let len: usize = bytes.len();
    if len as u64 > 0xFFFF_FFFF {
        assert(bytes@.len() > u32::MAX);
        return Err(JournalError::Corrupt("entry larger than 4GiB".to_owned()));
    }
    let n: u64 = len as u64;
    let mut out: Vec<u8> = Vec::new();
    out.push((n % 256) as u8);
    out.push(((n / 256) % 256) as u8);
    out.push(((n / 65536) % 256) as u8);
    out.push(((n / 16777216) % 256) as u8);
    let ghost head = out@;
    let ghost body = bytes@;
    let mut rest = bytes;
    out.append(&mut rest);
    assert(out@.take(4) =~= head);
    assert(head =~= le_bytes(n as int));
    assert(out@.skip(4) =~= body);
    Ok(out)
}

/// The entries that the bytes of a file hold, or the first fault.
pub open spec fn records_in(s: Seq<u8>) -> Result<Seq<EntryModel>, JournalFault>
    decreases s.len(),
{
    if s.len() == 0 {
        Ok(Seq::empty())
    } else if s.len() < 4 {
        Err(
            JournalFault::Corrupt(
                "truncated length header (read "@ + decimal(s.len()) + " bytes)"@,
            ),
        )
    } else {
        let n = le_value(s.take(4));
        if s.len() < 4 + n {
            Err(JournalFault::Corrupt("truncated entry payload"@))
        } else {
            match cbor_parsed(s.subrange(4, 4 + n)) {
                Err(e) => Err(JournalFault::Cbor(e)),
                Ok(t) => match tree_record(t) {
                    Err(e) => Err(JournalFault::Cbor(e)),
                    Ok(first) => match records_in(s.skip(4 + n)) {
                        Err(e) => Err(e),
                        Ok(rest) => Ok(seq![first] + rest),
                    },
                },
            }
        }
    }
}

/// What comes of a result when entries stand before it.
spec fn after(
    done: Seq<EntryModel>,
    r: Result<Seq<EntryModel>, JournalFault>,
) -> Result<Seq<EntryModel>, JournalFault> {
    match r {
        Ok(rest) => Ok(done + rest),
        Err(e) => Err(e),
    }
}

/// Reads the entries that the bytes of a file hold.
pub fn read_all_records(content: &[u8]) -> (r: Result<Vec<OwnedJournalEntry>, JournalError>)
    ensures
        match (r, records_in(content@)) {
            (Ok(v), Ok(t)) => entries_view(v@) == t,
            (Err(e), Err(t)) => e@ == t,
            _ => false,
        },
{
    let total: usize = content.len();
    let mut out: Vec<OwnedJournalEntry> = Vec::new();
    let mut at: usize = 0;
    proof {
        assert(content@.skip(0) =~= content@);
        assert(entries_view(out@) =~= Seq::empty());
        match records_in(content@) {
            Ok(rest) => {
                assert(Seq::<EntryModel>::empty() + rest =~= rest);
            },
            Err(_) => {},
        }
    }
    while at < total
        invariant
            at <= total,
            total == content@.len(),
            records_in(content@) == after(
                entries_view(out@),
                records_in(content@.skip(at as int)),
            ),
        decreases total - at,
    {
        let ghost s = content@.skip(at as int);
        let left: usize = total - at;
        if left < 4 {
            return Err(
                JournalError::Corrupt(
                    join3(
                        "truncated length header (read ",
                        decimal_text(left as u64).as_str(),
                        " bytes)",
                    ),
                ),
            );
        }
        let n: u64 = content[at] as u64 + content[at + 1] as u64 * 256 + content[at + 2] as u64
            * 65536 + content[at + 3] as u64 * 16777216;
        assert(n == le_value(s.take(4)));
        if ((left - 4) as u64) < n {
            return Err(JournalError::Corrupt("truncated entry payload".to_owned()));
        }
        let len: usize = n as usize;
        let body = copy_range(content, at + 4, at + 4 + len);
        assert(body@ =~= s.subrange(4, 4 + n as int));
        let value = match decode_cbor(body.as_slice()) {
            Ok(v) => v,
            Err(e) => {
                return Err(JournalError::Cbor(e));
            },
        };
        let entry = match record_from_cbor(&value) {
            Ok(e) => e,
            Err(e) => {
                return Err(JournalError::Cbor(e));
            },
        };
        let ghost done = entries_view(out@);
        let ghost first = entry@;
        out.push(entry);
        proof {
            assert(entries_view(out@) =~= done.push(first));
            assert(s.skip(4 + n as int) =~= content@.skip(at + 4 + n as int));
            match records_in(s.skip(4 + n as int)) {
                Ok(rest) => {
                    assert(done + (seq![first] + rest) =~= done.push(first) + rest);
                },
                Err(_) => {},
            }
        }
        at = at + 4 + len;
    }
    proof {
        assert(content@.skip(at as int) =~= Seq::empty());
        assert(entries_view(out@) + Seq::empty() =~= entries_view(out@));
    }
    Ok(out)
}

/// The bytes of frames, one after the other.
pub open spec fn log_of(frames: Seq<Seq<u8>>) -> Seq<u8>
    decreases frames.len(),
{
    if frames.len() == 0 {
        Seq::empty()
    } else {
        frames[0] + log_of(frames.drop_first())
    }
}

/// A file that holds the frames of entries holds those entries: what was written is read back.
pub proof fn lemma_log_reads_back(frames: Seq<Seq<u8>>, entries: Seq<EntryModel>)
    requires
        frames.len() == entries.len(),
        forall|i: int| 0 <= i < frames.len() ==> is_frame(#[trigger] frames[i], entries[i]),
    ensures
        records_in(log_of(frames)) == Ok::<Seq<EntryModel>, JournalFault>(entries),
    decreases frames.len(),
{
    if frames.len() == 0 {
        assert(entries =~= Seq::empty());
    } else {
        let f = frames[0];
        let rest = log_of(frames.drop_first());
        let s = f + rest;
        assert(is_frame(frames[0], entries[0]));
        assert forall|i: int| 0 <= i < frames.drop_first().len() implies is_frame(
            #[trigger] frames.drop_first()[i],
            entries.drop_first()[i],
        ) by {
            assert(is_frame(frames[i + 1], entries[i + 1]));
        }
        lemma_log_reads_back(frames.drop_first(), entries.drop_first());
        lemma_le_reads_back(f.len() - 4);
        lemma_record_reads_back(entries[0]);
        let n = f.len() - 4;
        assert(s.take(4) =~= f.take(4));
        assert(s.subrange(4, 4 + n) =~= f.skip(4));
        assert(s.skip(4 + n) =~= rest);
        assert(seq![entries[0]] + entries.drop_first() =~= entries);
    }
}

/// A file from which bytes at the end were lost in the middle of a record is refused.
pub proof fn lemma_truncated_record_is_refused(frame: Seq<u8>, e: EntryModel, n: int)
    requires
        is_frame(frame, e),
        0 < n < frame.len(),
    ensures
        records_in(frame.take(n)) matches Err(JournalFault::Corrupt(_)),
{
    let s = frame.take(n);
    if n >= 4 {
        lemma_le_reads_back(frame.len() - 4);
        assert(s.take(4) =~= frame.take(4));
    }
}

impl FsJournal {
    /// The journal in the file at `path`, which holds `entries`.
    pub fn open(path: String, entries: &Vec<OwnedJournalEntry>) -> (r: Self)
        requires
            entries@.len() > 0 ==> entries@.last().seq < u64::MAX,
        ensures
            r.path == path,
            r.next_seq == if entries@.len() == 0 {
                0
            } else {
                entries@.last().seq + 1
            },
    {
        let n: usize = entries.len();
        let next_seq: u64 = if n == 0 {
            0
        } else {
            entries[n - 1].seq + 1
        };
        FsJournal { path, next_seq }
    }

    pub fn path(&self) -> (r: &str)
        ensures
            r@ == self.path@,
    {
        self.path.as_str()
    }

    /// The bytes to be added to the file for an entry. The cursor moves on once they are there.
    pub fn next_frame(&self, entry: JournalEntry<'_>) -> (r: Result<Vec<u8>, JournalError>)
        ensures
            framed(
                r,
                (EntryModel { seq: self.next_seq, kind: entry.kind, payload: entry.payload@ }),
            ),
    {
        frame_record(
            DiskRecord { seq: self.next_seq, kind: entry.kind, payload: entry.payload },
        )
    }

    /// Moves the cursor past the entry that was written, and returns the entry's cursor.
    pub fn advance(&mut self) -> (r: JournalSeq)
        requires
            old(self).next_seq < u64::MAX,
        ensures
            r == old(self).next_seq,
            final(self).next_seq == old(self).next_seq + 1,
            final(self).path == old(self).path,
    {
        let seq: u64 = self.next_seq;
        self.next_seq = seq + 1;
        seq
    }

    /// The entries from a cursor on, out of the bytes of the file.
    pub fn load_from(content: &[u8], from: JournalSeq) -> (r: Result<
        Vec<OwnedJournalEntry>,
        JournalError,
    >)
        ensures
            match (r, records_in(content@)) {
                (Ok(v), Ok(t)) => entries_view(v@) == since(t, from),
                (Err(e), Err(t)) => e@ == t,
                _ => false,
            },
    {
        match read_all_records(content) {
            Ok(all) => Ok(copy_since(&all, from)),
            Err(e) => Err(e),
        }
    }

    /// The cursor of the next entry.
    pub fn next_seq(&self) -> (r: JournalSeq)
        ensures
            r == self.next_seq,
    {
        self.next_seq
    }
}

} // verus!
