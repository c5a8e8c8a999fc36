//! The write-ahead log: records packed into pages from the back.
//!
//! A log page begins with a two-byte big-endian header, the offset at which
//! its newest record starts. Records fill the page from its end towards the
//! header, so the bytes from the offset to the end of the page hold the
//! page's records, newest first. A page without records has its offset equal
//! to the page size.
//!
//! The [`LogManager`] keeps the last page of the log, the tail, in memory and
//! decides what is to be written to the log file and when. It does not touch
//! the file: each write it asks for is a [`PageWrite`] that the caller
//! carries out, reporting back when it succeeded.

use vstd::prelude::*;
use vstd::std_specs::convert::TryIntoSpec;
use crate::page::{
    file_after_write,
    file_read,
    law_write_then_read,
    zeroed,
    Page,
    PageManager,
    PageRead,
    PageWrite,
    SeekTo,
};

verus! {

/// The number of bytes of a log page's header.
pub const HEADER_LEN: usize = 2;

/// The largest page that a two-byte offset can describe.
pub const MAX_PAGE_SIZE: usize = 0xffff;

/// The offset that the header of `page` holds.
pub open spec fn header(page: Seq<u8>) -> int {
    page[0] as int * 256 + page[1] as int
}

/// `page` with `offset` in its header and its other bytes as they are.
pub open spec fn with_header(page: Seq<u8>, offset: int) -> Seq<u8> {
    page.update(0, (offset / 256) as u8).update(1, (offset % 256) as u8)
}

/// Whether `page` is laid out as a log page: its header points behind
/// itself and not past the end of the page.
pub open spec fn is_log_page(page: Seq<u8>) -> bool {
    &&& HEADER_LEN <= page.len() <= MAX_PAGE_SIZE
    &&& HEADER_LEN <= header(page) <= page.len()
}

/// The records of a log page, newest first, as one run of bytes.
pub open spec fn records_of(page: Seq<u8>) -> Seq<u8> {
    page.subrange(header(page), page.len() as int)
}

/// The number of bytes between the header of `page` and its newest record.
pub open spec fn free_space(page: Seq<u8>) -> int {
    header(page) - HEADER_LEN
}

/// The log page of `page_size` bytes that holds no record.
pub open spec fn empty_log_page(page_size: nat) -> Seq<u8> {
    with_header(zeroed(page_size), page_size as int)
}

/// `page` with `data` added as its newest record: `data` sits directly in
/// front of the records that were there, and the header points to its start.
pub open spec fn with_record(page: Seq<u8>, data: Seq<u8>) -> Seq<u8> {
    let end = header(page);
    let start = end - data.len();
    with_header(
        Seq::new(
            page.len(),
            |i: int|
                if start <= i < end {
                    data[i - start]
                } else {
                    page[i]
                },
        ),
        start,
    )
}

/// A header gives back the offset that was put into it, and putting one in
/// changes the two header bytes only.
pub proof fn lemma_with_header(page: Seq<u8>, offset: int)
    requires
        page.len() >= HEADER_LEN,
        0 <= offset <= MAX_PAGE_SIZE,
    ensures
        header(with_header(page, offset)) == offset,
        with_header(page, offset).len() == page.len(),
        forall|i: int|
            HEADER_LEN <= i < page.len() ==> #[trigger] with_header(page, offset)[i] == page[i],
{
}

/// The empty log page is a log page without records, with all the room
/// that a page has.
pub proof fn lemma_empty_log_page(page_size: nat)
    requires
        HEADER_LEN <= page_size <= MAX_PAGE_SIZE,
    ensures
        is_log_page(empty_log_page(page_size)),
        empty_log_page(page_size).len() == page_size,
        header(empty_log_page(page_size)) == page_size,
        free_space(empty_log_page(page_size)) == page_size - HEADER_LEN,
        records_of(empty_log_page(page_size)) == Seq::<u8>::empty(),
{
    lemma_with_header(zeroed(page_size), page_size as int);
    assert(records_of(empty_log_page(page_size)) =~= Seq::<u8>::empty());
}

/// A record that goes into a log page leaves a log page of the same length;
/// the record stands in front of the records that were there.
pub proof fn lemma_with_record(page: Seq<u8>, data: Seq<u8>)
    requires
        is_log_page(page),
        data.len() <= free_space(page),
    ensures
        is_log_page(with_record(page, data)),
        with_record(page, data).len() == page.len(),
        header(with_record(page, data)) == header(page) - data.len(),
        records_of(with_record(page, data)) == data + records_of(page),
{
    let end = header(page);
    let start = end - data.len();
    let body = Seq::new(
        page.len(),
        |i: int|
            if start <= i < end {
                data[i - start]
            } else {
                page[i]
            },
    );
    lemma_with_header(body, start);
    assert(records_of(with_record(page, data)) =~= data + records_of(page));
}

impl Page {
    /// Stores `offset` in the page's header, as two big-endian bytes.
    pub fn set_offset<T>(&mut self, offset: T) where T: TryInto<u16>, T::Error: std::fmt::Debug
        requires
            old(self)@.len() >= HEADER_LEN,
            T::obeys_try_into_spec(),
            offset.try_into_spec() is Ok,
        ensures
            final(self)@ == with_header(old(self)@, offset.try_into_spec().unwrap() as int),
    {
        let value: u16 = offset.try_into().unwrap();
        let bytes = self.mutate();
        bytes[0] = (value / 256) as u8;
        bytes[1] = (value % 256) as u8;
    }

    /// The offset that the page's header holds.
    pub fn get_offset(&self) -> (offset: u16)
        requires
            self@.len() >= HEADER_LEN,
        ensures
            offset == header(self@),
    {
        let bytes = self.read();
        let high: u16 = bytes[0] as u16;
        let low: u16 = bytes[1] as u16;
        high * 256 + low
    }

    /// Whether the page is laid out as a log page, so that a log can go on
    /// from it.
    pub fn is_log_page(&self) -> (ok: bool)
        ensures
            ok == is_log_page(self@),
    {
        let len: usize = self.read().len();
        if len < HEADER_LEN || len > MAX_PAGE_SIZE {
            return false;
        }
        let offset: usize = self.get_offset() as usize;
        HEADER_LEN <= offset && offset <= len
    }
}

/// What a [`LogManager`] knows, as plain mathematical values.
pub struct LogState {
    /// The size of every page of the log.
    pub page_size: nat,
    /// The bytes of the tail, the one page that still takes records.
    pub tail: Seq<u8>,
    /// The position of the tail in the log file.
    pub tail_position: nat,
    /// The number of records appended since the manager was made.
    pub latest_lsn: nat,
    /// The value of `latest_lsn` when the tail was last written out.
    pub latest_flushed_lsn: nat,
}

impl LogState {
    /// What holds of the state of every manager.
    pub open spec fn wf(self) -> bool {
        &&& self.tail.len() == self.page_size
        &&& is_log_page(self.tail)
        &&& self.latest_flushed_lsn <= self.latest_lsn
    }

    /// The state of a manager that begins a log in an empty file.
    pub open spec fn fresh(page_size: nat) -> LogState {
        LogState {
            page_size,
            tail: empty_log_page(page_size),
            tail_position: 0,
            latest_lsn: 0,
            latest_flushed_lsn: 0,
        }
    }

    /// The state of a manager that takes up a log whose last page, at
    /// `position`, holds `tail`.
    pub open spec fn resumed(page_size: nat, position: nat, tail: Seq<u8>) -> LogState {
        LogState { page_size, tail, tail_position: position, latest_lsn: 0, latest_flushed_lsn: 0 }
    }

    /// The length of the longest record that a page can hold.
    pub open spec fn max_record(self) -> int {
        self.page_size - HEADER_LEN
    }

    /// Whether a record of `len` bytes still goes into the tail.
    pub open spec fn fits(self, len: nat) -> bool {
        len <= free_space(self.tail)
    }

    /// The state after `data` went into the tail as its newest record.
    pub open spec fn stored(self, data: Seq<u8>) -> LogState {
        LogState { tail: with_record(self.tail, data), latest_lsn: self.latest_lsn + 1, ..self }
    }

    /// The state after the tail was written out.
    pub open spec fn flushed(self) -> LogState {
        LogState { latest_flushed_lsn: self.latest_lsn, ..self }
    }

    /// The contents of a file with contents `file` once the tail was written
    /// to it at its position.
    pub open spec fn flush_onto(self, file: Seq<u8>) -> Seq<u8> {
        file_after_write(file, (self.tail_position * self.page_size) as int, self.tail)
    }

    /// The state of a manager that takes up the log in a file with contents
    /// `file`: a new log where the file is empty, else the log that the last
    /// page of the file is the tail of. Nothing where the file is shorter
    /// than a page.
    pub open spec fn opened(page_size: nat, file: Seq<u8>) -> Option<LogState> {
        if file.len() == 0 {
            Some(LogState::fresh(page_size))
        } else {
            match file_read(file, file.len() - page_size, page_size as int) {
                Some(tail) => Some(
                    LogState::resumed(
                        page_size,
                        (file.len() as int / page_size as int - 1) as nat,
                        tail,
                    ),
                ),
                None => None,
            }
        }
    }

    /// The state after an empty tail took the place of the tail, one
    /// position further on.
    pub open spec fn rolled_over(self) -> LogState {
        LogState {
            tail: empty_log_page(self.page_size),
            tail_position: self.tail_position + 1,
            ..self
        }
    }
}

/// Why the log did not take a record.
#[derive(Clone, Copy, Debug, PartialEq, Eq)]
pub enum LogError {
    /// The record is longer than a page has room for, even an empty one.
    RecordTooLarge,
}

impl LogError {
    /// The error in words.
    pub fn message(&self) -> (text: &'static str)
        ensures
            text == "log data is larger than maximum page size",
    {
        "log data is larger than maximum page size"
    }
}

/// How an append ended that did not fail.
#[derive(Clone, Copy, Debug, PartialEq, Eq)]
pub enum Appended {
    /// The record is in the tail; it is the record with this sequence number.
    Stored(u32),
    /// The tail has no room for the record and nothing was changed. The tail
    /// is to be written out as [`LogManager::flush`] says; once that is done,
    /// [`LogManager::append_after_flush`] takes the record.
    TailFull,
}

/// How a log file is taken up.
pub enum LogStart {
    /// The file is empty: the manager begins with an empty tail at position 0.
    Ready(LogManager),
    /// The file holds pages. The last of them is the tail: it is at
    /// `position`, `read` fetches it, and [`LogManager::resume`] goes on
    /// from it.
    LoadTail { position: usize, read: PageRead },
}

/// An append-only log of records in a file of pages.
pub struct LogManager {
    log: PageManager,
    tail: Page,
    tail_position: usize,
    latest_lsn: u32,
    latest_flushed_lsn: u32,
}

impl View for LogManager {
    type V = LogState;

    closed spec fn view(&self) -> LogState {
        LogState {
            page_size: self.log.page_size as nat,
            tail: self.tail@,
            tail_position: self.tail_position as nat,
            latest_lsn: self.latest_lsn as nat,
            latest_flushed_lsn: self.latest_flushed_lsn as nat,
        }
    }
}

/// Puts `data` into `tail` as its newest record.
fn store_record(tail: &mut Page, data: &[u8])
    requires
        is_log_page(old(tail)@),
        data@.len() <= free_space(old(tail)@),
    ensures
        final(tail)@ == with_record(old(tail)@, data@),
{
    let end: usize = tail.get_offset() as usize;
    let start: usize = end - data.len();
    let ghost before = tail@;
    let bytes = tail.mutate();
    let mut i: usize = 0;
    while i < data.len()
        invariant
            i <= data@.len(),
            start + data@.len() == end,
            end <= bytes@.len(),
            bytes@.len() == before.len(),
            forall|k: int| 0 <= k < start || start + i <= k < bytes@.len() ==> bytes@[k] == before[k],
            forall|k: int| start <= k < start + i ==> bytes@[k] == data@[k - start],
        decreases data@.len() - i,
    {
        bytes[start + i] = data[i];
        i += 1;
    }
    assert(bytes@ =~= Seq::new(
        before.len(),
        |k: int|
            if start <= k < end {
                data@[k - start]
            } else {
                before[k]
            },
    ));
    tail.set_offset(start);
}

impl LogManager {
    /// What every manager keeps to: its state is well-formed, and the offset
    /// of its tail in the file is a number that the machine can hold.
    pub open spec fn wf(&self) -> bool {
        &&& self@.wf()
        &&& self@.tail_position * self@.page_size <= usize::MAX
    }

    /// Takes up the log in a file of `file_len` bytes: an empty file gives a
    /// manager with an empty tail; any other gives the read of its last page.
    pub fn new(page_size: usize, file_len: usize) -> (start: LogStart)
        requires
            HEADER_LEN <= page_size <= MAX_PAGE_SIZE,
            file_len as int % page_size as int == 0,
        ensures
            file_len == 0 ==> (start matches LogStart::Ready(manager) && manager.wf() && manager@
                == LogState::fresh(page_size as nat)),
            file_len > 0 ==> (start matches LogStart::LoadTail { position, read } && position
                == file_len / page_size - 1 && read == (PageRead {
                offset: (file_len - page_size) as u64,
                len: page_size,
            }) && forall|file: Seq<u8>|
                file.len() == file_len ==> #[trigger] LogState::opened(page_size as nat, file)
                    == match read.outcome(file) {
                    Some(tail) => Some(
                        LogState::resumed(page_size as nat, position as nat, tail),
                    ),
                    None => None,
                }),
    {
        let log = PageManager::new(page_size);
        if file_len == 0 {
            let mut tail = Page::new(page_size);
            tail.set_offset(page_size);
            proof {
                lemma_with_header(zeroed(page_size as nat), page_size as int);
                assert(0 * page_size == 0);
            }
            LogStart::Ready(
                LogManager { log, tail, tail_position: 0, latest_lsn: 0, latest_flushed_lsn: 0 },
            )
        } else {
            let position: usize = log.n_pages(file_len) - 1;
            assert(position * page_size == file_len - page_size) by (nonlinear_arith)
                requires
                    position == file_len as int / page_size as int - 1,
                    file_len as int % page_size as int == 0,
                    page_size > 0,
            ;
            LogStart::LoadTail { position, read: log.read_page(position) }
        }
    }

    /// The manager of a log whose last page, at `position`, is `tail`.
    pub fn resume(page_size: usize, position: usize, tail: Page) -> (manager: LogManager)
        requires
            tail@.len() == page_size,
            is_log_page(tail@),
            position * page_size <= usize::MAX,
        ensures
            manager.wf(),
            manager@ == LogState::resumed(page_size as nat, position as nat, tail@),
    {
        LogManager {
            log: PageManager::new(page_size),
            tail,
            tail_position: position,
            latest_lsn: 0,
            latest_flushed_lsn: 0,
        }
    }

    /// Adds `data` to the log as its newest record, if the tail has room.
    ///
    /// A record longer than a page can hold is refused. One that a page can
    /// hold but the tail cannot is not stored either: the tail has to be
    /// written out first.
    pub fn append(&mut self, data: &[u8]) -> (result: Result<Appended, LogError>)
        requires
            old(self).wf(),
            old(self)@.fits(data@.len()) ==> old(self)@.latest_lsn < u32::MAX,
        ensures
            final(self).wf(),
            data@.len() > old(self)@.max_record() ==> result == Err::<Appended, LogError>(
                LogError::RecordTooLarge,
            ) && final(self)@ == old(self)@,
            data@.len() <= old(self)@.max_record() && !old(self)@.fits(data@.len()) ==> result
                == Ok::<Appended, LogError>(Appended::TailFull) && final(self)@ == old(self)@,
            old(self)@.fits(data@.len()) ==> result == Ok::<Appended, LogError>(
                Appended::Stored(final(self)@.latest_lsn as u32),
            ) && final(self)@ == old(self)@.stored(data@),
    {
        let free: usize = self.tail.get_offset() as usize - HEADER_LEN;
        if data.len() > self.log.page_size - HEADER_LEN {
            return Err(LogError::RecordTooLarge);
        }
        if free < data.len() {
            return Ok(Appended::TailFull);
        }
        store_record(&mut self.tail, data);
        self.latest_lsn = self.latest_lsn + 1;
        Ok(Appended::Stored(self.latest_lsn))
    }

    /// Adds `data` to the log once the tail, which had no room for it, was
    /// written out: the tail is left as it is on disk, an empty tail begins
    /// at the next position, and `data` is its first record.
    pub fn append_after_flush(&mut self, data: &[u8]) -> (lsn: u32)
        requires
            old(self).wf(),
            data@.len() <= old(self)@.max_record(),
            !old(self)@.fits(data@.len()),
            old(self)@.latest_lsn < u32::MAX,
            (old(self)@.tail_position + 1) * old(self)@.page_size <= usize::MAX,
        ensures
            final(self).wf(),
            final(self)@ == old(self)@.flushed().rolled_over().stored(data@),
            lsn == final(self)@.latest_lsn,
    {
        self.latest_flushed_lsn = self.latest_lsn;
        let mut tail = Page::new(self.log.page_size);
        tail.set_offset(self.log.page_size);
        store_record(&mut tail, data);
        self.tail = tail;
        assert(self.tail_position + 1 <= usize::MAX) by (nonlinear_arith)
            requires
                (self.tail_position + 1) * self.log.page_size <= usize::MAX,
                self.log.page_size >= 1,
        ;
        self.tail_position = self.tail_position + 1;
        self.latest_lsn = self.latest_lsn + 1;
        self.latest_lsn
    }

    /// The write that puts the tail on disk, at its position.
    pub fn flush(&self) -> (write: PageWrite<'_>)
        requires
            self.wf(),
        ensures
            write.seek == SeekTo::Start((self@.tail_position * self@.page_size) as u64),
            write.bytes@ == self@.tail,
            forall|file: Seq<u8>| #[trigger] write.outcome(file) == self@.flush_onto(file),
    {
        self.log.write_page(self.tail_position, &self.tail)
    }

    /// Records that the write of the tail succeeded: every record appended so
    /// far is on disk.
    pub fn flushed(&mut self)
        requires
            old(self).wf(),
        ensures
            final(self).wf(),
            final(self)@ == old(self)@.flushed(),
    {
        self.latest_flushed_lsn = self.latest_lsn;
    }

    /// The write of the tail, where a record with sequence number `lsn` may
    /// not be on disk yet; nothing where it is.
    pub fn flush_since_lsn(&self, lsn: u32) -> (write: Option<PageWrite<'_>>)
        requires
            self.wf(),
        ensures
            lsn < self@.latest_flushed_lsn ==> write is None,
            lsn >= self@.latest_flushed_lsn ==> (write matches Some(w) && w.seek == SeekTo::Start(
                (self@.tail_position * self@.page_size) as u64,
            ) && w.bytes@ == self@.tail && forall|file: Seq<u8>| #[trigger]
                w.outcome(file) == self@.flush_onto(file)),
    {
        if lsn >= self.latest_flushed_lsn {
            Some(self.flush())
        } else {
            None
        }
    }

    /// The size of the log's pages.
    pub fn page_size(&self) -> (page_size: usize)
        ensures
            page_size == self@.page_size,
    {
        self.log.page_size
    }

    /// The tail: the page that takes the next record.
    pub fn tail(&self) -> (tail: &Page)
        ensures
            tail@ == self@.tail,
    {
        &self.tail
    }

    /// The position of the tail in the log file.
    pub fn tail_position(&self) -> (position: usize)
        ensures
            position == self@.tail_position,
    {
        self.tail_position
    }

    /// The sequence number of the newest record; 0 before the first.
    pub fn latest_lsn(&self) -> (lsn: u32)
        ensures
            lsn == self@.latest_lsn,
    {
        self.latest_lsn
    }

    /// The sequence number of the newest record that was on disk after the
    /// last write of the tail.
    pub fn latest_flushed_lsn(&self) -> (lsn: u32)
        ensures
            lsn == self@.latest_flushed_lsn,
    {
        self.latest_flushed_lsn
    }
}

/// No record that the tail has room for is longer than a page can hold, and
/// an empty tail has room for every record that a page can hold, the longest
/// of them included.
pub proof fn law_record_limits(state: LogState, len: nat)
    requires
        state.wf(),
    ensures
        state.fits(len) ==> len <= state.max_record(),
        state.tail == empty_log_page(state.page_size) ==> (state.fits(len) <==> len
            <= state.max_record()),
{
    lemma_empty_log_page(state.page_size);
}

/// A log whose tail was written out is taken up again as it was left: the
/// manager that opens the file has the same tail, byte for byte, at the same
/// position. The file must not reach beyond the page of the tail.
pub proof fn law_reopen_restores_tail(state: LogState, file: Seq<u8>)
    requires
        state.wf(),
        file.len() <= (state.tail_position + 1) * state.page_size,
    ensures
        LogState::opened(state.page_size, state.flush_onto(file)) == Some(
            LogState::resumed(state.page_size, state.tail_position, state.tail),
        ),
{
    let size = state.page_size as int;
    let position = state.tail_position as int;
    let disk = state.flush_onto(file);
    assert((position + 1) * size == position * size + size && position * size >= 0 && (position
        * size + size) / size - 1 == position) by (nonlinear_arith)
        requires
            size > 0,
            position >= 0,
    ;
    assert(disk.len() == position * size + size);
    law_write_then_read(
        PageManager { page_size: state.page_size as usize },
        file,
        state.tail_position,
        state.tail,
    );
}

} // verus!
