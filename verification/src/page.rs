//! Fixed-size pages and the addressing of pages within one backing file.
//!
//! The file itself is owned by the caller. The [`PageManager`] knows the page
//! size only: from a page position it works out which bytes of the file are
//! to be read or written and hands that out as a [`PageRead`] or a
//! [`PageWrite`]. The caller performs the request on the file.
//!
//! What a request does to a file is modelled on the file's contents as a
//! byte sequence ([`file_read`], [`file_after_write`]); the laws at the end of
//! this module are proved over that model.

use vstd::prelude::*;

verus! {

/// `len` zero bytes.
pub open spec fn zeroed(len: nat) -> Seq<u8> {
    Seq::new(len, |i: int| 0u8)
}

/// A block of bytes whose length is fixed when it is made: the unit of
/// storage and of transfer between memory and the file.
///
/// A page does not know where it is stored. Its view is its bytes.
pub struct Page {
    data: Vec<u8>,
}

impl View for Page {
    type V = Seq<u8>;

    closed spec fn view(&self) -> Seq<u8> {
        self.data@
    }
}

impl Page {
    /// A page of `page_size` zero bytes.
    pub fn new(page_size: usize) -> (page: Page)
        ensures
            page@ == zeroed(page_size as nat),
    {
        let data: Vec<u8> = vec![0u8; page_size];
        assert(data@ =~= zeroed(page_size as nat));
        Page { data }
    }

    /// The page that holds exactly the bytes of `data`, which must be
    /// `page_size` long.
    pub fn from_vec(data: Vec<u8>, page_size: usize) -> (page: Page)
        requires
            data@.len() == page_size,
        ensures
            page@ == data@,
    {
        Page { data }
    }

    /// The bytes of the page.
    pub fn read(&self) -> (bytes: &Vec<u8>)
        ensures
            bytes@ == self@,
    {
        &self.data
    }

    /// The bytes of the page, for writing. The page ends up holding whatever
    /// the caller leaves in the slice; its length cannot change.
    pub fn mutate(&mut self) -> (bytes: &mut [u8])
        ensures
            bytes@ == old(self)@,
            final(self)@ == final(bytes)@,
    {
        self.data.as_mut_slice()
    }
}

/// The file's contents after `bytes` were written at `offset`. Bytes between
/// the old end of the file and `offset` read as zero afterwards.
pub open spec fn file_after_write(file: Seq<u8>, offset: int, bytes: Seq<u8>) -> Seq<u8> {
    let end = offset + bytes.len();
    let len = if end > file.len() && bytes.len() > 0 {
        end
    } else {
        file.len() as int
    };
    Seq::new(
        len as nat,
        |i: int|
            if offset <= i < end {
                bytes[i - offset]
            } else if i < file.len() {
                file[i]
            } else {
                0u8
            },
    )
}

/// What reading exactly `len` bytes at `offset` yields: the bytes, or nothing
/// where the file ends before `offset + len`.
pub open spec fn file_read(file: Seq<u8>, offset: int, len: int) -> Option<Seq<u8>> {
    if 0 <= offset && 0 <= len && offset + len <= file.len() {
        Some(file.subrange(offset, offset + len))
    } else {
        None
    }
}

/// The file that results from appending `pages`, in order, to an empty file.
pub open spec fn file_of_pages(pages: Seq<Seq<u8>>) -> Seq<u8>
    decreases pages.len(),
{
    if pages.len() == 0 {
        Seq::empty()
    } else {
        file_of_pages(pages.drop_last()) + pages.last()
    }
}

/// Where in the file a write begins.
#[derive(Clone, Copy, Debug, PartialEq, Eq)]
pub enum SeekTo {
    /// At this many bytes from the start of the file.
    Start(u64),
    /// At the end of the file, whatever its length.
    End,
}

/// A request to read exactly `len` bytes, starting `offset` bytes into the
/// file. It fails where the file ends before that.
#[derive(Clone, Copy, Debug, PartialEq, Eq)]
pub struct PageRead {
    pub offset: u64,
    pub len: usize,
}

impl PageRead {
    /// What the request yields on a file with these contents.
    pub open spec fn outcome(self, file: Seq<u8>) -> Option<Seq<u8>> {
        file_read(file, self.offset as int, self.len as int)
    }
}

/// A request to write all of `bytes` at `seek`, over whatever is there.
#[derive(Clone, Copy, Debug, PartialEq, Eq)]
pub struct PageWrite<'a> {
    pub seek: SeekTo,
    pub bytes: &'a [u8],
}

impl<'a> PageWrite<'a> {
    /// The contents of the file once the request was carried out on a file
    /// with these contents.
    pub open spec fn outcome(self, file: Seq<u8>) -> Seq<u8> {
        match self.seek {
            SeekTo::Start(offset) => file_after_write(file, offset as int, self.bytes@),
            SeekTo::End => file + self.bytes@,
        }
    }
}

/// Maps page positions (0, 1, 2, ...) to byte offsets in a file of pages of
/// one fixed size. It keeps no pages in memory.
pub struct PageManager {
    pub page_size: usize,
}

impl PageManager {
    /// The offset at which the page at `position` begins.
    pub open spec fn offset_of(self, position: int) -> int {
        position * self.page_size
    }

    /// The number of whole pages in a file of `file_len` bytes.
    pub open spec fn page_count(self, file_len: int) -> int {
        file_len / self.page_size as int
    }

    /// A manager for pages of `page_size` bytes.
    pub fn new(page_size: usize) -> (manager: PageManager)
        ensures
            manager.page_size == page_size,
    {
        PageManager { page_size }
    }

    /// The read that fetches the page at `position`. The bytes it yields make
    /// a page through [`Page::from_vec`]; it fails where the file has no page
    /// at `position` yet.
    pub fn read_page(&self, position: usize) -> (request: PageRead)
        requires
            self.offset_of(position as int) <= usize::MAX,
        ensures
            request.offset == self.offset_of(position as int),
            request.len == self.page_size,
            forall|file: Seq<u8>| #[trigger]
                request.outcome(file) == file_read(
                    file,
                    self.offset_of(position as int),
                    self.page_size as int,
                ),
    {
        PageRead { offset: self.offset(position), len: self.page_size }
    }

    /// The write that stores `page` at `position`, in place of what is there.
    /// Past the end of the file it lengthens the file.
    pub fn write_page<'a>(&self, position: usize, page: &'a Page) -> (request: PageWrite<'a>)
        requires
            page@.len() == self.page_size,
            self.offset_of(position as int) <= usize::MAX,
        ensures
            request.seek == SeekTo::Start(self.offset_of(position as int) as u64),
            request.bytes@ == page@,
            forall|file: Seq<u8>| #[trigger]
                request.outcome(file) == file_after_write(
                    file,
                    self.offset_of(position as int),
                    page@,
                ),
    {
        PageWrite { seek: SeekTo::Start(self.offset(position)), bytes: page.read().as_slice() }
    }

    /// The position that `page` gets when it is added to a file of `file_len`
    /// bytes, and the write that adds it at the end.
    pub fn append_page<'a>(&self, file_len: usize, page: &'a Page) -> (out: (usize, PageWrite<'a>))
        requires
            page@.len() == self.page_size,
            self.page_size > 0,
        ensures
            out.0 == self.page_count(file_len as int),
            out.1.seek == SeekTo::End,
            out.1.bytes@ == page@,
            forall|file: Seq<u8>| #[trigger] out.1.outcome(file) == file + page@,
    {
        let position: usize = file_len / self.page_size;
        (position, PageWrite { seek: SeekTo::End, bytes: page.read().as_slice() })
    }

    /// The number of pages in a file of `file_len` bytes, which must be a
    /// whole number of pages.
    pub fn n_pages(&self, file_len: usize) -> (count: usize)
        requires
            self.page_size > 0,
            file_len as int % self.page_size as int == 0,
        ensures
            count == self.page_count(file_len as int),
    {
        file_len / self.page_size
    }

    fn offset(&self, position: usize) -> (offset: u64)
        requires
            self.offset_of(position as int) <= usize::MAX,
        ensures
            offset == self.offset_of(position as int),
    {
        (position * self.page_size) as u64
    }
}

/// A page written at a position is read back from that position as it was
/// written, whatever the file held before and however long it was.
pub proof fn law_write_then_read(
    manager: PageManager,
    file: Seq<u8>,
    position: nat,
    page: Seq<u8>,
)
    requires
        page.len() == manager.page_size,
    ensures
        file_read(
            file_after_write(file, manager.offset_of(position as int), page),
            manager.offset_of(position as int),
            manager.page_size as int,
        ) == Some(page),
{
    let offset = manager.offset_of(position as int);
    assert(offset >= 0 && (manager.page_size == 0 ==> offset == 0)) by (nonlinear_arith)
        requires
            offset == position * manager.page_size,
    ;
    let after = file_after_write(file, offset, page);
    assert(after.subrange(offset, offset + page.len()) =~= page);
}

/// A write of a page at one position leaves the page at every other position
/// as it was.
pub proof fn law_write_keeps_other_pages(
    manager: PageManager,
    file: Seq<u8>,
    position: nat,
    page: Seq<u8>,
    other: nat,
)
    requires
        page.len() == manager.page_size,
        other != position,
        file_read(file, manager.offset_of(other as int), manager.page_size as int) is Some,
    ensures
        file_read(
            file_after_write(file, manager.offset_of(position as int), page),
            manager.offset_of(other as int),
            manager.page_size as int,
        ) == file_read(file, manager.offset_of(other as int), manager.page_size as int),
{
    let size = manager.page_size as int;
    let written = manager.offset_of(position as int);
    let kept = manager.offset_of(other as int);
    assert(kept + size <= written || written + size <= kept) by (nonlinear_arith)
        requires
            other != position,
            size >= 0,
            written == position * size,
            kept == other * size,
    ;
    let after = file_after_write(file, written, page);
    assert(after.subrange(kept, kept + size) =~= file.subrange(kept, kept + size));
}

/// A file holds a page at a position exactly where the position is below the
/// number of its pages: a read at or beyond that number fails, a read below
/// it succeeds.
pub proof fn law_read_within_pages(manager: PageManager, file: Seq<u8>, position: nat)
    requires
        manager.page_size > 0,
    ensures
        file_read(file, manager.offset_of(position as int), manager.page_size as int) is Some
            <==> position < manager.page_count(file.len() as int),
{
    let size = manager.page_size as int;
    let len = file.len() as int;
    assert(position * size + size <= len <==> position < len / size) by (nonlinear_arith)
        requires
            size > 0,
            len >= 0,
            position >= 0,
    ;
    assert(position * size >= 0) by (nonlinear_arith)
        requires
            size > 0,
            position >= 0,
    ;
}

/// A page added at the end of a file of whole pages gets the position that is
/// the number of pages before it, is read back from that position as it was
/// added, and makes the file one page longer.
pub proof fn law_append_then_read(manager: PageManager, file: Seq<u8>, page: Seq<u8>)
    requires
        manager.page_size > 0,
        page.len() == manager.page_size,
        file.len() as int % manager.page_size as int == 0,
    ensures
        file_read(
            file + page,
            manager.offset_of(manager.page_count(file.len() as int)),
            manager.page_size as int,
        ) == Some(page),
        manager.page_count((file + page).len() as int) == manager.page_count(file.len() as int)
            + 1,
{
    let size = manager.page_size as int;
    let len = file.len() as int;
    assert((len / size) * size == len && (len + size) / size == len / size + 1)
        by (nonlinear_arith)
        requires
            size > 0,
            len >= 0,
            len % size == 0,
    ;
    assert((file + page).subrange(len, len + size) =~= page);
}

/// The file made of `pages` is as long as they are together.
pub proof fn lemma_file_of_pages_len(page_size: nat, pages: Seq<Seq<u8>>)
    requires
        forall|i: int| 0 <= i < pages.len() ==> (#[trigger] pages[i]).len() == page_size,
    ensures
        file_of_pages(pages).len() == pages.len() * page_size,
    decreases pages.len(),
{
    if pages.len() > 0 {
        lemma_file_of_pages_len(page_size, pages.drop_last());
        assert(pages.len() * page_size == (pages.len() - 1) * page_size + page_size)
            by (nonlinear_arith);
    } else {
        assert(0 * page_size == 0);
    }
}

/// Pages appended one after another to an empty file get the positions
/// 0, 1, 2, ... in turn; the file then has as many pages as were appended,
/// and each of them is read back from its position.
pub proof fn law_appended_pages(manager: PageManager, pages: Seq<Seq<u8>>)
    requires
        manager.page_size > 0,
        forall|i: int| 0 <= i < pages.len() ==> (#[trigger] pages[i]).len() == manager.page_size,
    ensures
        manager.page_count(file_of_pages(pages).len() as int) == pages.len(),
        forall|i: int|
            0 <= i < pages.len() ==> manager.page_count(
                (#[trigger] file_of_pages(pages.take(i))).len() as int,
            ) == i,
        forall|i: int|
            0 <= i < pages.len() ==> file_read(
                file_of_pages(pages),
                manager.offset_of(i),
                manager.page_size as int,
            ) == Some(#[trigger] pages[i]),
    decreases pages.len(),
{
    let size = manager.page_size as nat;
    lemma_file_of_pages_len(size, pages);
    lemma_count_of_whole_pages(size as int, pages.len() as int);
    assert forall|i: int| 0 <= i < pages.len() implies manager.page_count(
        (#[trigger] file_of_pages(pages.take(i))).len() as int,
    ) == i by {
        lemma_file_of_pages_len(size, pages.take(i));
        lemma_count_of_whole_pages(size as int, i);
    }
    if pages.len() > 0 {
        let before = pages.drop_last();
        let file = file_of_pages(pages);
        law_appended_pages(manager, before);
        lemma_file_of_pages_len(size, before);
        assert forall|i: int| 0 <= i < pages.len() implies file_read(
            file,
            manager.offset_of(i),
            manager.page_size as int,
        ) == Some(#[trigger] pages[i]) by {
            let offset = manager.offset_of(i);
            assert(offset >= 0 && offset + size <= (pages.len() - 1) * size + size && (i
                < pages.len() - 1 ==> offset + size <= (pages.len() - 1) * size) && (i
                == pages.len() - 1 ==> offset == (pages.len() - 1) * size)) by (nonlinear_arith)
                requires
                    0 <= i < pages.len(),
                    offset == i * size,
            ;
            assert(pages.len() * size == (pages.len() - 1) * size + size) by (nonlinear_arith);
            if i < pages.len() - 1 {
                assert(before[i] == pages[i]);
                assert(file.subrange(offset, offset + size) =~= file_of_pages(before).subrange(
                    offset,
                    offset + size,
                ));
            } else {
                assert(file.subrange(offset, offset + size) =~= pages.last());
            }
        }
    }
}

/// A file of `count` pages of `size` bytes has `count` whole pages.
proof fn lemma_count_of_whole_pages(size: int, count: int)
    requires
        size > 0,
        count >= 0,
    ensures
        (count * size) / size == count,
{
    assert((count * size) / size == count) by (nonlinear_arith)
        requires
            size > 0,
            count >= 0,
    ;
}

} // verus!
