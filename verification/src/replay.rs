//! What a log holds after a series of appends.
//!
//! A [`LogRun`] follows a manager and its log file through the appends of a
//! sequence of records, every write that the manager asks for being carried
//! out. It keeps what the manager itself forgets: the pages that were written
//! out for good and which records went into which page. The laws of this
//! module say where the records are then found: within each page newest
//! first, and from the tail back to the first page in the reverse of the
//! order in which they were appended.

use vstd::prelude::*;
use crate::log::{
    is_log_page,
    law_reopen_restores_tail,
    lemma_empty_log_page,
    lemma_with_record,
    records_of,
    LogState,
};
use crate::page::{
    file_read,
    law_write_keeps_other_pages,
    law_write_then_read,
    PageManager,
};

verus! {

/// A log after a series of appends.
pub struct LogRun {
    /// The contents of the log file.
    pub file: Seq<u8>,
    /// The pages that were written out when they had become full, oldest
    /// first. None of them changes any more.
    pub sealed: Seq<Seq<u8>>,
    /// For each sealed page, the number of records that had been appended
    /// when it was written out.
    pub cuts: Seq<int>,
    /// The state of the manager.
    pub state: LogState,
}

impl LogRun {
    /// The pages of the log in the order of their positions: the sealed
    /// pages, then the tail.
    pub open spec fn pages(self) -> Seq<Seq<u8>> {
        self.sealed.push(self.state.tail)
    }

    /// The index of the first record that went into page `k`.
    pub open spec fn first_record(self, k: int) -> int {
        if k == 0 {
            0
        } else {
            self.cuts[k - 1]
        }
    }

    /// The index behind the last record that went into page `k`, of `total`
    /// records in all.
    pub open spec fn end_record(self, k: int, total: int) -> int {
        if k < self.cuts.len() {
            self.cuts[k]
        } else {
            total
        }
    }
}

/// The log that begins in state `start` on a file with contents `file`, after
/// `records` were appended in order. A record that the tail has no room for
/// has the tail written out and begins a new tail.
pub open spec fn run_of(start: LogState, file: Seq<u8>, records: Seq<Seq<u8>>) -> LogRun
    decreases records.len(),
{
    if records.len() == 0 {
        LogRun { file, sealed: Seq::empty(), cuts: Seq::empty(), state: start }
    } else {
        let before = run_of(start, file, records.drop_last());
        let data = records.last();
        if before.state.fits(data.len()) {
            LogRun { state: before.state.stored(data), ..before }
        } else {
            LogRun {
                file: before.state.flush_onto(before.file),
                sealed: before.sealed.push(before.state.tail),
                cuts: before.cuts.push(records.len() - 1),
                state: before.state.flushed().rolled_over().stored(data),
            }
        }
    }
}

/// The bytes of `records`, the last of them first.
pub open spec fn newest_first(records: Seq<Seq<u8>>) -> Seq<u8>
    decreases records.len(),
{
    if records.len() == 0 {
        Seq::empty()
    } else {
        records.last() + newest_first(records.drop_last())
    }
}

/// The records of `pages`, read from the last page back to the first.
pub open spec fn records_from_tail(pages: Seq<Seq<u8>>) -> Seq<u8>
    decreases pages.len(),
{
    if pages.len() == 0 {
        Seq::empty()
    } else {
        records_of(pages.last()) + records_from_tail(pages.drop_last())
    }
}

/// Whether every record of `records` is one that a page of `start` can hold.
pub open spec fn all_fit(start: LogState, records: Seq<Seq<u8>>) -> bool {
    forall|i: int| 0 <= i < records.len() ==> (#[trigger] records[i]).len() <= start.max_record()
}

/// Appends keep the manager's state well-formed. Each of them raises the
/// sequence number by one, each page written out moves the tail on by one
/// position, and the records are dealt out to the pages in order.
pub proof fn lemma_run_state(start: LogState, file: Seq<u8>, records: Seq<Seq<u8>>)
    requires
        start.wf(),
        all_fit(start, records),
    ensures
        ({
            let run = run_of(start, file, records);
            &&& run.state.wf()
            &&& run.state.page_size == start.page_size
            &&& run.state.latest_lsn == start.latest_lsn + records.len()
            &&& run.state.tail_position == start.tail_position + run.sealed.len()
            &&& run.cuts.len() == run.sealed.len()
            &&& forall|k: int|
                0 <= k < run.sealed.len() ==> is_log_page(#[trigger] run.sealed[k])
                    && run.sealed[k].len() == start.page_size
            &&& forall|k: int|
                0 <= k <= run.sealed.len() ==> 0 <= #[trigger] run.first_record(k)
                    <= run.end_record(k, records.len() as int) <= records.len()
        }),
    decreases records.len(),
{
    if records.len() > 0 {
        let before = run_of(start, file, records.drop_last());
        let data = records.last();
        let run = run_of(start, file, records);
        lemma_run_state(start, file, records.drop_last());
        let n = records.len() as int;
        if before.state.fits(data.len()) {
            lemma_with_record(before.state.tail, data);
            assert forall|k: int| 0 <= k <= run.sealed.len() implies 0 <= #[trigger]
                run.first_record(k) <= run.end_record(k, n) <= n by {
                assert(run.first_record(k) == before.first_record(k));
                assert(before.end_record(k, n - 1) <= n - 1);
            }
        } else {
            lemma_empty_log_page(start.page_size);
            lemma_with_record(before.state.flushed().rolled_over().tail, data);
            assert forall|k: int| 0 <= k <= run.sealed.len() implies 0 <= #[trigger]
                run.first_record(k) <= run.end_record(k, n) <= n by {
                if k < run.sealed.len() {
                    assert(run.first_record(k) == before.first_record(k));
                    assert(before.end_record(k, n - 1) <= n - 1);
                }
            }
        }
    }
}

/// Of a run of records that ends with the last one, the last one comes first.
proof fn lemma_newest_first_step(records: Seq<Seq<u8>>, first: int)
    requires
        0 <= first < records.len(),
    ensures
        newest_first(records.subrange(first, records.len() as int)) == records.last()
            + newest_first(records.drop_last().subrange(first, records.len() - 1)),
{
    let part = records.subrange(first, records.len() as int);
    assert(part.last() == records.last());
    assert(part.drop_last() =~= records.drop_last().subrange(first, records.len() - 1));
}

/// Within every page of the log the records stand newest first: the page
/// holds the records that went into it, the last of them in front. The first
/// page holds behind them what the tail held when the run began.
pub proof fn law_records_within_pages(start: LogState, file: Seq<u8>, records: Seq<Seq<u8>>)
    requires
        start.wf(),
        all_fit(start, records),
    ensures
        ({
            let run = run_of(start, file, records);
            forall|k: int|
                0 <= k < run.pages().len() ==> records_of(#[trigger] run.pages()[k])
                    == newest_first(
                    records.subrange(run.first_record(k), run.end_record(k, records.len() as int)),
                ) + if k == 0 {
                    records_of(start.tail)
                } else {
                    Seq::empty()
                }
        }),
    decreases records.len(),
{
    let run = run_of(start, file, records);
    let n = records.len() as int;
    lemma_run_state(start, file, records);
    if n == 0 {
        assert(records.subrange(0, 0) =~= Seq::<Seq<u8>>::empty());
        assert(records_of(start.tail) =~= Seq::<u8>::empty() + records_of(start.tail));
    } else {
        let earlier = records.drop_last();
        let before = run_of(start, file, earlier);
        let data = records.last();
        law_records_within_pages(start, file, earlier);
        lemma_run_state(start, file, earlier);
        let tail_index = before.sealed.len() as int;
        assert(before.pages()[tail_index] == before.state.tail);
        assert forall|k: int| 0 <= k < run.pages().len() implies records_of(
            #[trigger] run.pages()[k],
        ) == newest_first(records.subrange(run.first_record(k), run.end_record(k, n))) + if k
            == 0 {
            records_of(start.tail)
        } else {
            Seq::empty()
        } by {
            if k < tail_index {
                // A page sealed earlier: neither it nor its records changed.
                assert(run.pages()[k] == before.pages()[k]);
                assert(run.first_record(k) == before.first_record(k));
                assert(run.end_record(k, n) == before.end_record(k, n - 1));
                assert(records.subrange(run.first_record(k), run.end_record(k, n))
                    =~= earlier.subrange(before.first_record(k), before.end_record(k, n - 1)));
            } else if before.state.fits(data.len()) {
                // The tail took the record.
                let first = before.first_record(k);
                lemma_with_record(before.state.tail, data);
                lemma_newest_first_step(records.subrange(0, n), first);
                assert(records.subrange(0, n) =~= records);
                assert(run.pages()[k] == run.state.tail);
                assert(run.first_record(k) == first);
                assert(run.end_record(k, n) == n);
                assert(before.end_record(k, n - 1) == n - 1);
                let old_part = newest_first(earlier.subrange(first, n - 1));
                let rest = if k == 0 {
                    records_of(start.tail)
                } else {
                    Seq::empty()
                };
                assert(data + (old_part + rest) =~= (data + old_part) + rest);
            } else if k == tail_index {
                // The tail was sealed as it was.
                assert(run.pages()[k] == before.state.tail);
                assert(run.first_record(k) == before.first_record(k));
                assert(run.end_record(k, n) == n - 1);
                assert(before.end_record(k, n - 1) == n - 1);
                assert(records.subrange(run.first_record(k), n - 1) =~= earlier.subrange(
                    before.first_record(k),
                    n - 1,
                ));
            } else {
                // The new tail holds the record alone.
                lemma_empty_log_page(start.page_size);
                lemma_with_record(before.state.flushed().rolled_over().tail, data);
                assert(run.pages()[k] == run.state.tail);
                assert(run.first_record(k) == n - 1);
                assert(run.end_record(k, n) == n);
                let part = records.subrange(n - 1, n);
                assert(part.last() == data);
                assert(part.drop_last() =~= Seq::<Seq<u8>>::empty());
                assert(newest_first(part.drop_last()) =~= Seq::<u8>::empty());
                assert(newest_first(part) =~= data);
                assert(records_of(run.state.tail) =~= newest_first(part) + Seq::<u8>::empty());
            }
        }
    }
}

/// Read from the tail back to the first page, the log holds the records in
/// the reverse of the order in which they were appended, and behind them
/// what the tail held when the run began.
pub proof fn law_records_across_pages(start: LogState, file: Seq<u8>, records: Seq<Seq<u8>>)
    requires
        start.wf(),
        all_fit(start, records),
    ensures
        records_from_tail(run_of(start, file, records).pages()) == newest_first(records)
            + records_of(start.tail),
    decreases records.len(),
{
    let run = run_of(start, file, records);
    if records.len() == 0 {
        let pages = run.pages();
        assert(pages.drop_last() =~= Seq::<Seq<u8>>::empty());
        assert(records_from_tail(pages.drop_last()) =~= Seq::<u8>::empty());
        assert(records_from_tail(pages) =~= newest_first(records) + records_of(start.tail));
    } else {
        let earlier = records.drop_last();
        let before = run_of(start, file, earlier);
        let data = records.last();
        law_records_across_pages(start, file, earlier);
        lemma_run_state(start, file, earlier);
        assert(before.pages().last() == before.state.tail);
        assert(before.pages().drop_last() =~= before.sealed);
        assert(run.pages().drop_last() =~= run.sealed);
        if before.state.fits(data.len()) {
            lemma_with_record(before.state.tail, data);
            assert((data + records_of(before.state.tail)) + records_from_tail(before.sealed)
                =~= data + (records_of(before.state.tail) + records_from_tail(before.sealed)));
            assert(data + (newest_first(earlier) + records_of(start.tail)) =~= (data
                + newest_first(earlier)) + records_of(start.tail));
        } else {
            lemma_empty_log_page(start.page_size);
            lemma_with_record(before.state.flushed().rolled_over().tail, data);
            assert(run.sealed == before.pages());
            assert((data + Seq::<u8>::empty()) + records_from_tail(before.pages()) =~= data
                + records_from_tail(before.pages()));
            assert(data + (newest_first(earlier) + records_of(start.tail)) =~= (data
                + newest_first(earlier)) + records_of(start.tail));
        }
    }
}

/// Every page that was written out is on disk as it was then, at its
/// position: sealed page `k` stands `k` positions behind the page that was
/// the tail when the run began.
pub proof fn law_sealed_pages_on_disk(start: LogState, file: Seq<u8>, records: Seq<Seq<u8>>)
    requires
        start.wf(),
        all_fit(start, records),
    ensures
        ({
            let run = run_of(start, file, records);
            forall|k: int|
                0 <= k < run.sealed.len() ==> file_read(
                    run.file,
                    (start.tail_position + k) * start.page_size,
                    start.page_size as int,
                ) == Some(#[trigger] run.sealed[k])
        }),
    decreases records.len(),
{
    let run = run_of(start, file, records);
    if records.len() > 0 {
        let earlier = records.drop_last();
        let before = run_of(start, file, earlier);
        let data = records.last();
        law_sealed_pages_on_disk(start, file, earlier);
        lemma_run_state(start, file, earlier);
        if !before.state.fits(data.len()) {
            let manager = PageManager { page_size: start.page_size as usize };
            let written = before.state.tail_position;
            assert forall|k: int| 0 <= k < run.sealed.len() implies file_read(
                run.file,
                (start.tail_position + k) * start.page_size,
                start.page_size as int,
            ) == Some(#[trigger] run.sealed[k]) by {
                if k < before.sealed.len() {
                    assert(run.sealed[k] == before.sealed[k]);
                    law_write_keeps_other_pages(
                        manager,
                        before.file,
                        written,
                        before.state.tail,
                        (start.tail_position + k) as nat,
                    );
                } else {
                    law_write_then_read(manager, before.file, written, before.state.tail);
                }
            }
        }
    }
}

/// Appends never make the file reach beyond the page of the tail, if it did
/// not do so when the run began.
proof fn lemma_run_file_len(start: LogState, file: Seq<u8>, records: Seq<Seq<u8>>)
    requires
        start.wf(),
        all_fit(start, records),
        file.len() <= (start.tail_position + 1) * start.page_size,
    ensures
        ({
            let run = run_of(start, file, records);
            run.file.len() <= (run.state.tail_position + 1) * run.state.page_size
        }),
    decreases records.len(),
{
    if records.len() > 0 {
        let before = run_of(start, file, records.drop_last());
        lemma_run_file_len(start, file, records.drop_last());
        lemma_run_state(start, file, records.drop_last());
        let size = before.state.page_size as int;
        let position = before.state.tail_position as int;
        assert((position + 1) * size == position * size + size && (position + 2) * size
            == position * size + size + size) by (nonlinear_arith);
    }
}

/// After any appends, a log whose tail is written out is taken up again as
/// it was left: the manager that opens the file has the tail of the run, byte
/// for byte, at its position. The file must not have reached beyond the page
/// of the tail when the run began.
pub proof fn law_reopen_after_appends(start: LogState, file: Seq<u8>, records: Seq<Seq<u8>>)
    requires
        start.wf(),
        all_fit(start, records),
        file.len() <= (start.tail_position + 1) * start.page_size,
    ensures
        ({
            let run = run_of(start, file, records);
            LogState::opened(start.page_size, run.state.flush_onto(run.file)) == Some(
                LogState::resumed(start.page_size, run.state.tail_position, run.state.tail),
            )
        }),
{
    let run = run_of(start, file, records);
    lemma_run_state(start, file, records);
    lemma_run_file_len(start, file, records);
    law_reopen_restores_tail(run.state, run.file);
}

} // verus!
