//! A journal that keeps all its entries in memory.
use vstd::prelude::*;

use crate::bytes::copy_slice;
use crate::journal::{entries_view, EntryModel, JournalEntry, JournalError, JournalKind, JournalSeq,
    OwnedJournalEntry};

verus! {

/// What the kernel asks of a journal.
pub trait JournalBackend: Sized {
    /// The entries, in the order in which they were appended.
    spec fn log(&self) -> Seq<EntryModel>;

    /// The cursor of the next entry.
    spec fn next(&self) -> int;

    /// Appends an entry and returns its cursor.
    fn append(&mut self, entry: JournalEntry<'_>) -> (r: Result<JournalSeq, JournalError>)
        requires
            old(self).next() < u64::MAX,
        ensures
            match r {
                Ok(seq) => seq == old(self).next() && final(self).next() == old(self).next() + 1
                    && final(self).log() == old(self).log().push(
                    EntryModel { seq, kind: entry.kind, payload: entry.payload@ },
                ),
                Err(_) => final(self).log() == old(self).log() && final(self).next() == old(
                    self,
                ).next(),
            },
    ;

    /// The entries whose cursor is `from` or later.
    fn load_from(&self, from: JournalSeq) -> (r: Result<Vec<OwnedJournalEntry>, JournalError>)
        ensures
            r matches Ok(v) ==> entries_view(v@) == since(self.log(), from),
    ;

    fn next_seq(&self) -> (r: JournalSeq)
        requires
            self.next() <= u64::MAX,
        ensures
            r == self.next(),
    ;
}

/// The entries whose cursor is `from` or later, in order.
pub open spec fn since(log: Seq<EntryModel>, from: u64) -> Seq<EntryModel> {
    log.filter(|e: EntryModel| e.seq >= from)
}

/// The cursor after the greatest of the entries.
pub open spec fn cursor_end(log: Seq<EntryModel>) -> int
    decreases log.len(),
{
    if log.len() == 0 {
        0
    } else {
        let rest = cursor_end(log.drop_last());
        if log.last().seq >= rest {
            log.last().seq + 1
        } else {
            rest
        }
    }
}

/// The cursor of the next entry: as many as there are entries, or the one after the greatest where
/// that is more.
pub open spec fn next_cursor(log: Seq<EntryModel>) -> int {
    if cursor_end(log) >= log.len() {
        cursor_end(log)
    } else {
        log.len() as int
    }
}

/// A journal that keeps all its entries in memory.
#[derive(Debug)]
pub struct MemJournal {
    entries: Vec<OwnedJournalEntry>,
}

impl View for MemJournal {
    type V = Seq<EntryModel>;

    closed spec fn view(&self) -> Seq<EntryModel> {
        entries_view(self.entries@)
    }
}

/// Copies of entries.
pub fn copy_all(entries: &Vec<OwnedJournalEntry>) -> (r: Vec<OwnedJournalEntry>)
    ensures
        entries_view(r@) == entries_view(entries@),
{
    let mut out: Vec<OwnedJournalEntry> = Vec::new();
    let mut i: usize = 0;
    while i < entries.len()
        invariant
            i <= entries@.len(),
            out@.len() == i,
            forall|k: int| 0 <= k < i ==> (#[trigger] out@[k])@ == entries@[k]@,
        decreases entries@.len() - i,
    {
        out.push(entries[i].copied());
        i += 1;
    }
    assert(entries_view(out@) =~= entries_view(entries@));
    out
}

/// Copies of the entries whose cursor is `from` or later.
pub fn copy_since(entries: &Vec<OwnedJournalEntry>, from: JournalSeq) -> (r: Vec<OwnedJournalEntry>)
    ensures
        entries_view(r@) == since(entries_view(entries@), from),
{
    let ghost all = entries_view(entries@);
    let ghost keep = |e: EntryModel| e.seq >= from;
    let mut out: Vec<OwnedJournalEntry> = Vec::new();
    let mut i: usize = 0;
    proof {
        assert(all.take(0) =~= Seq::empty());
        reveal(Seq::filter);
        assert(entries_view(out@) =~= all.take(0).filter(keep));
    }
    while i < entries.len()
        invariant
            i <= entries@.len(),
            all == entries_view(entries@),
            keep == (|e: EntryModel| e.seq >= from),
            entries_view(out@) == all.take(i as int).filter(keep),
        decreases entries@.len() - i,
    {
        let ghost sofar = entries_view(out@);
        proof {
            reveal(Seq::filter);
            assert(all.take(i + 1).drop_last() =~= all.take(i as int));
            assert(all.take(i + 1).last() == all[i as int]);
        }
        if entries[i].seq >= from {
            out.push(entries[i].copied());
            assert(entries_view(out@) =~= sofar.push(all[i as int]));
        }
        i += 1;
    }
    assert(all.take(i as int) =~= all);
    out
}

impl MemJournal {
    pub fn new() -> (r: Self)
        ensures
            r@ == Seq::<EntryModel>::empty(),
    {
        let r = MemJournal { entries: Vec::new() };
        assert(r@ =~= Seq::empty());
        r
    }

    pub fn from_entries(entries: &Vec<OwnedJournalEntry>) -> (r: Self)
        ensures
            r@ == entries_view(entries@),
    {
        MemJournal { entries: copy_all(entries) }
    }

    pub fn entries(&self) -> (r: Vec<OwnedJournalEntry>)
        ensures
            entries_view(r@) == self@,
    {
        copy_all(&self.entries)
    }
}

impl JournalBackend for MemJournal {
    open spec fn log(&self) -> Seq<EntryModel> {
        self@
    }

    open spec fn next(&self) -> int {
        next_cursor(self@)
    }

    fn append(&mut self, entry: JournalEntry<'_>) -> (r: Result<JournalSeq, JournalError>)
        ensures
            r is Ok,
    {
        let ghost before = self@;
        let seq: u64 = self.next_seq();
        let payload = copy_slice(entry.payload);
        self.entries.push(OwnedJournalEntry { seq, kind: entry.kind, payload });
        assert(self@ =~= before.push(
            EntryModel { seq, kind: entry.kind, payload: entry.payload@ },
        ));
        proof {
            lemma_cursor_grows(before, self@.last());
        }
        Ok(seq)
    }

    fn load_from(&self, from: JournalSeq) -> (r: Result<Vec<OwnedJournalEntry>, JournalError>)
        ensures
            r is Ok,
    {
        Ok(copy_since(&self.entries, from))
    }

    fn next_seq(&self) -> JournalSeq {
        let n: usize = self.entries.len();
        let mut next: u64 = 0;
        let mut i: usize = 0;
        assert(self@.take(0) =~= Seq::empty());
        while i < n
            invariant
                i <= n,
                n == self.entries@.len(),
                self@.len() == n,
                next == cursor_end(self@.take(i as int)),
                next_cursor(self@) <= u64::MAX,
            decreases n - i,
        {
            proof {
                assert(self@.take(i + 1).drop_last() =~= self@.take(i as int));
                assert(self@.take(i + 1).last() == self.entries@[i as int]@);
                lemma_cursor_end(self@, i as int);
                assert(self@[i as int] == self.entries@[i as int]@);
            }
            if self.entries[i].seq >= next {
                next = self.entries[i].seq + 1;
            }
            i += 1;
        }
        assert(self@.take(n as int) =~= self@);
        if next >= n as u64 {
            next
        } else {
            n as u64
        }
    }
}

/// The cursor of every entry comes before the end of the cursors.
pub proof fn lemma_cursor_end(log: Seq<EntryModel>, i: int)
    requires
        0 <= i < log.len(),
    ensures
        log[i].seq < cursor_end(log),
    decreases log.len(),
{
    if i < log.len() - 1 {
        lemma_cursor_end(log.drop_last(), i);
    }
}

/// The cursor of the next entry is taken by none.
pub proof fn lemma_next_cursor_is_free(log: Seq<EntryModel>)
    ensures
        forall|i: int| 0 <= i < log.len() ==> (#[trigger] log[i]).seq < next_cursor(log),
{
    assert forall|i: int| 0 <= i < log.len() implies (#[trigger] log[i]).seq < next_cursor(
        log,
    ) by {
        lemma_cursor_end(log, i);
    }
}

/// Where each entry has its place for its cursor, the next cursor is the number of entries.
pub proof fn lemma_next_cursor_counts(log: Seq<EntryModel>)
    requires
        forall|i: int| 0 <= i < log.len() ==> (#[trigger] log[i]).seq == i,
    ensures
        next_cursor(log) == log.len(),
    decreases log.len(),
{
    if log.len() > 0 {
        assert forall|i: int| 0 <= i < log.len() - 1 implies (#[trigger] log.drop_last()[i]).seq
            == i by {
            assert(log.drop_last()[i] == log[i]);
        }
        lemma_next_cursor_counts(log.drop_last());
    }
}

/// What is appended is loaded by every later load that starts no later than its cursor, after all
/// that was loaded before.
pub proof fn lemma_append_is_loaded(log: Seq<EntryModel>, entry: EntryModel, from: u64)
    ensures
        entry.seq >= from ==> since(log.push(entry), from) == since(log, from).push(entry),
        entry.seq < from ==> since(log.push(entry), from) == since(log, from),
{
    reveal(Seq::filter);
    assert(log.push(entry).drop_last() =~= log);
}

/// The entries after the first `n` of `items`, each a kind and a payload, have been appended.
pub open spec fn appended(
    log: Seq<EntryModel>,
    items: Seq<(JournalKind, Seq<u8>)>,
    n: nat,
) -> Seq<EntryModel>
    decreases n,
{
    if n == 0 || n > items.len() {
        log
    } else {
        let before = appended(log, items, (n - 1) as nat);
        before.push(
            EntryModel {
                seq: next_cursor(before) as u64,
                kind: items[n - 1].0,
                payload: items[n - 1].1,
            },
        )
    }
}

/// After any number of appends a journal holds what it held before, as it was, and then what was
/// appended, in order. The cursors follow one another, as long as there are any left.
pub proof fn lemma_appends_are_kept(
    log: Seq<EntryModel>,
    items: Seq<(JournalKind, Seq<u8>)>,
    n: nat,
)
    requires
        n <= items.len(),
    ensures
        appended(log, items, n).len() == log.len() + n,
        appended(log, items, n).take(log.len() as int) == log,
        forall|k: int|
            #![trigger appended(log, items, n)[log.len() + k]]
            0 <= k < n ==> appended(log, items, n)[log.len() + k].kind == items[k].0 && appended(
                log,
                items,
                n,
            )[log.len() + k].payload == items[k].1,
        next_cursor(log) + n <= u64::MAX ==> next_cursor(appended(log, items, n)) == next_cursor(
            log,
        ) + n,
        next_cursor(log) + n <= u64::MAX ==> forall|k: int|
            0 <= k < n ==> (#[trigger] appended(log, items, n)[log.len() + k]).seq == next_cursor(
                log,
            ) + k,
    decreases n,
{
    if n > 0 {
        lemma_appends_are_kept(log, items, (n - 1) as nat);
        let before = appended(log, items, (n - 1) as nat);
        let after = appended(log, items, n);
        assert(after.take(log.len() as int) =~= before.take(log.len() as int));
        assert forall|k: int| 0 <= k < n - 1 implies #[trigger] after[log.len() + k] == before[
            log.len() + k] by {}
        if next_cursor(log) + n <= u64::MAX {
            lemma_cursor_grows(before, after.last());
        }
    } else {
        assert(log.take(log.len() as int) =~= log);
    }
}

/// The cursor of an entry that is appended is greater than those of the entries before it.
pub proof fn lemma_cursor_grows(log: Seq<EntryModel>, entry: EntryModel)
    requires
        entry.seq == next_cursor(log),
    ensures
        forall|i: int| 0 <= i < log.len() ==> (#[trigger] log[i]).seq < entry.seq,
        next_cursor(log.push(entry)) == next_cursor(log) + 1,
{
    lemma_next_cursor_is_free(log);
    assert(log.push(entry).drop_last() =~= log);
}

/// A journal that was made from entries gives them back as they are, and after them what was
/// appended since.
pub proof fn lemma_entries_are_given_back(
    made: MemJournal,
    grown: MemJournal,
    entries: Seq<OwnedJournalEntry>,
    items: Seq<(JournalKind, Seq<u8>)>,
    given: Seq<OwnedJournalEntry>,
    again: Seq<OwnedJournalEntry>,
)
    requires
        made@ == entries_view(entries),
        grown@ == appended(made@, items, items.len()),
        entries_view(given) == grown@,
        entries_view(again) == grown@,
    ensures
        given.len() == entries.len() + items.len(),
        forall|i: int| 0 <= i < entries.len() ==> (#[trigger] given[i])@ == entries[i]@,
        forall|k: int|
            #![trigger given[entries.len() + k]]
            0 <= k < items.len() ==> given[entries.len() + k]@.kind == items[k].0 && given[
            entries.len() + k]@.payload == items[k].1,
        entries_view(again) == entries_view(given),
{
    lemma_appends_are_kept(made@, items, items.len());
    let log = entries_view(given);
    assert(log.len() == given.len() && made@.len() == entries.len());
    assert forall|i: int| 0 <= i < entries.len() implies (#[trigger] given[i])@
        == entries[i]@ by {
        assert(log[i] == given[i]@);
        assert(log.take(made@.len() as int)[i] == log[i]);
    }
    assert forall|k: int| 0 <= k < items.len() implies (#[trigger] given[entries.len() + k])@.kind
        == items[k].0 && given[entries.len() + k]@.payload == items[k].1 by {
        assert(log[made@.len() + k] == given[entries.len() + k]@);
    }
}

} // verus!
