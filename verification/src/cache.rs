//! The descriptor of one buffer: what a pool of buffers has to know of a
//! page that it holds in memory.
//!
//! A buffer counts its pins. While the count is above zero somebody uses the
//! page and the buffer must not be given to another page. A buffer also
//! remembers which transaction changed the page last and the sequence number
//! of the log record of that change, so that the log can be written out
//! before the page is.

use vstd::prelude::*;
use crate::page::Page;

verus! {

/// What a [`Buffer`] holds, as plain mathematical values.
pub struct BufferState {
    /// The bytes of the page in the buffer, if it holds one.
    pub page: Option<Seq<u8>>,
    /// The position of that page in its file.
    pub page_position: nat,
    /// The transaction that changed the page last; -1 for none.
    pub tx_id: int,
    /// The sequence number of the log record of that change.
    pub lsn: int,
    /// The number of pins on the buffer.
    pub pins: nat,
}

/// The descriptor of one buffer.
pub struct Buffer<'a> {
    page: Option<&'a Page>,
    page_position: usize,
    tx_id: i32,
    lsn: i32,
    pins: usize,
}

impl<'a> View for Buffer<'a> {
    type V = BufferState;

    closed spec fn view(&self) -> BufferState {
        BufferState {
            page: match self.page {
                Some(page) => Some(page@),
                None => None,
            },
            page_position: self.page_position as nat,
            tx_id: self.tx_id as int,
            lsn: self.lsn as int,
            pins: self.pins as nat,
        }
    }
}

impl<'a> Buffer<'a> {
    /// A buffer that holds no page, has no pin and was changed by no
    /// transaction.
    pub fn new() -> (buffer: Self)
        ensures
            buffer@ == (BufferState { page: None, page_position: 0, tx_id: -1, lsn: 1, pins: 0 }),
    {
        Self { page: None, page_position: 0, tx_id: -1, lsn: 1, pins: 0 }
    }

    /// Adds a pin.
    pub fn pin(&mut self)
        requires
            old(self)@.pins < usize::MAX,
        ensures
            final(self)@ == (BufferState { pins: old(self)@.pins + 1, ..old(self)@ }),
    {
        self.pins = self.pins + 1;
    }

    /// Takes a pin away. There has to be one: a buffer without pins cannot be
    /// unpinned.
    pub fn unpin(&mut self)
        requires
            old(self)@.pins > 0,
        ensures
            final(self)@ == (BufferState { pins: (old(self)@.pins - 1) as nat, ..old(self)@ }),
    {
        self.pins = self.pins - 1;
    }

    /// Whether the buffer has a pin.
    pub fn is_pinned(&self) -> (pinned: bool)
        ensures
            pinned == (self@.pins > 0),
    {
        self.pins > 0
    }

    /// Records that transaction `tx_id` changed the page. The sequence number
    /// of the change is recorded only where `lsn` is above zero; otherwise
    /// the one recorded before stays.
    pub fn mark_modified(&mut self, tx_id: i32, lsn: i32)
        ensures
            final(self)@ == (BufferState {
                tx_id: tx_id as int,
                lsn: if lsn > 0 {
                    lsn as int
                } else {
                    old(self)@.lsn
                },
                ..old(self)@
            }),
    {
        self.tx_id = tx_id;
        if lsn > 0 {
            self.lsn = lsn;
        }
    }

    /// The page in the buffer, if it holds one.
    pub fn page(&self) -> (page: Option<&'a Page>)
        ensures
            self@.page == match page {
                Some(p) => Some(p@),
                None => None,
            },
    {
        self.page
    }

    /// The position of the buffer's page in its file.
    pub fn page_position(&self) -> (position: usize)
        ensures
            position == self@.page_position,
    {
        self.page_position
    }

    /// The transaction that changed the page last; -1 for none.
    pub fn tx_id(&self) -> (tx_id: i32)
        ensures
            tx_id == self@.tx_id,
    {
        self.tx_id
    }

    /// The sequence number of the log record of the last change.
    pub fn lsn(&self) -> (lsn: i32)
        ensures
            lsn == self@.lsn,
    {
        self.lsn
    }

    /// The number of pins on the buffer.
    pub fn pins(&self) -> (pins: usize)
        ensures
            pins == self@.pins,
    {
        self.pins
    }
}

} // verus!
