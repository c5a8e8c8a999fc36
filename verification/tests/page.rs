use e_db::page::{Page, PageManager, PageRead, PageWrite, SeekTo};
use std::io::{Cursor, Read, Seek, SeekFrom, Write};

const PAGESIZE: usize = 32;

fn file_len<F: Seek>(file: &mut F) -> usize {
    file.seek(SeekFrom::End(0)).unwrap() as usize
}

fn perform_read<F: Read + Seek>(file: &mut F, request: PageRead) -> std::io::Result<Vec<u8>> {
    let mut buf = vec![0; request.len];
    file.seek(SeekFrom::Start(request.offset))?;
    file.read_exact(&mut buf)?;
    Ok(buf)
}

fn perform_write<F: Write + Seek>(file: &mut F, request: PageWrite) -> std::io::Result<()> {
    match request.seek {
        SeekTo::Start(offset) => file.seek(SeekFrom::Start(offset))?,
        SeekTo::End => file.seek(SeekFrom::End(0))?,
    };
    file.write_all(request.bytes)
}

fn read_page<F: Read + Seek>(
    file: &mut F,
    manager: &PageManager,
    position: usize,
) -> std::io::Result<Page> {
    let buf = perform_read(file, manager.read_page(position))?;
    Ok(Page::from_vec(buf, manager.page_size))
}

fn write_page<F: Write + Seek>(
    file: &mut F,
    manager: &PageManager,
    position: usize,
    page: &Page,
) -> std::io::Result<()> {
    perform_write(file, manager.write_page(position, page))
}

fn append_page<F: Write + Seek>(
    file: &mut F,
    manager: &PageManager,
    page: &Page,
) -> std::io::Result<usize> {
    let len = file_len(file);
    let (position, write) = manager.append_page(len, page);
    perform_write(file, write)?;
    Ok(position)
}

#[test]
fn page_init() {
    let page = Page::new(PAGESIZE);
    assert!(page.read().iter().all(|&byte| byte == 0));
}

#[test]
fn page_from_vec() {
    let page = Page::from_vec(vec![1; PAGESIZE], PAGESIZE);
    assert!(page.read().iter().all(|&byte| byte == 1));
}

#[test]
fn page_read() {
    let page = Page::from_vec(vec![2; PAGESIZE], PAGESIZE);
    assert!(page.read().iter().all(|&byte| byte == 2));
}

#[test]
fn page_mutate() {
    let mut mutable_page = Page::new(PAGESIZE);
    mutable_page.mutate().fill(2);
    assert!(mutable_page.read().iter().all(|&byte| byte == 2));
}

#[test]
fn page_manager_read_write() {
    let mut file = tempfile::tempfile().unwrap();
    let manager = PageManager::new(PAGESIZE);

    let page = Page::from_vec(vec![3; PAGESIZE], PAGESIZE);
    write_page(&mut file, &manager, 0, &page).unwrap();

    let page = read_page(&mut file, &manager, 0).unwrap();
    assert!(page.read().iter().all(|&byte| byte == 3));
}

#[test]
fn page_manager_append() {
    let mut file = tempfile::tempfile().unwrap();
    let manager = PageManager::new(PAGESIZE);

    for i in 0..=3 {
        let page = Page::from_vec(vec![i as u8; PAGESIZE], PAGESIZE);
        append_page(&mut file, &manager, &page).unwrap();
    }

    for i in 0..=3 {
        let page = read_page(&mut file, &manager, i).unwrap();
        assert!(page.read().iter().all(|&byte| byte == (i as u8)));
    }
}

#[test]
fn page_manager_read_write_position() {
    let mut file = tempfile::tempfile().unwrap();
    let manager = PageManager::new(PAGESIZE);

    for i in 0..=10 {
        let page = Page::from_vec(vec![i as u8; PAGESIZE], PAGESIZE);
        write_page(&mut file, &manager, i, &page).unwrap();
    }

    for i in (0..=10).rev() {
        let page = read_page(&mut file, &manager, i).unwrap();
        assert!(page.read().iter().all(|&byte| byte == (i as u8)));
    }
}

#[test]
fn page_manager_read_empty_page() {
    let mut file = tempfile::tempfile().unwrap();
    let manager = PageManager::new(PAGESIZE);

    assert!(read_page(&mut file, &manager, 0).is_err());

    for i in 0..3 {
        let page = Page::from_vec(vec![i as u8; PAGESIZE], PAGESIZE);
        append_page(&mut file, &manager, &page).unwrap();
    }

    assert!(read_page(&mut file, &manager, 3).is_err());
}

#[test]
fn page_new_has_the_size_asked_for() {
    assert_eq!(Page::new(0).read().len(), 0);
    assert_eq!(Page::new(1).read(), &vec![0]);
    assert_eq!(Page::new(PAGESIZE).read().len(), PAGESIZE);
}

#[test]
fn page_from_vec_keeps_the_bytes() {
    let page = Page::from_vec(vec![9, 8, 7, 6], 4);
    assert_eq!(page.read(), &vec![9, 8, 7, 6]);
}

#[test]
fn page_mutate_changes_single_bytes_only() {
    let mut page = Page::from_vec(vec![1, 2, 3, 4], 4);
    page.mutate()[2] = 30;
    assert_eq!(page.read(), &vec![1, 2, 30, 4]);
    assert_eq!(page.mutate().len(), 4);
}

#[test]
fn read_request_is_position_times_page_size() {
    let manager = PageManager::new(PAGESIZE);
    assert_eq!(manager.read_page(0), PageRead { offset: 0, len: 32 });
    assert_eq!(manager.read_page(3), PageRead { offset: 96, len: 32 });
    assert_eq!(PageManager::new(4096).read_page(7), PageRead { offset: 28672, len: 4096 });
}

#[test]
fn write_request_carries_offset_and_bytes() {
    let manager = PageManager::new(4);
    let page = Page::from_vec(vec![1, 2, 3, 4], 4);
    let write = manager.write_page(5, &page);
    assert_eq!(write.seek, SeekTo::Start(20));
    assert_eq!(write.bytes, &[1, 2, 3, 4]);
}

#[test]
fn append_request_goes_to_the_end() {
    let manager = PageManager::new(4);
    let page = Page::from_vec(vec![5, 6, 7, 8], 4);
    let (position, write) = manager.append_page(0, &page);
    assert_eq!(position, 0);
    assert_eq!(write.seek, SeekTo::End);
    assert_eq!(write.bytes, &[5, 6, 7, 8]);
    let (position, _) = manager.append_page(12, &page);
    assert_eq!(position, 3);
    let (position, _) = manager.append_page(14, &page);
    assert_eq!(position, 3);
}

#[test]
fn n_pages_is_length_over_page_size() {
    let manager = PageManager::new(PAGESIZE);
    assert_eq!(manager.n_pages(0), 0);
    assert_eq!(manager.n_pages(32), 1);
    assert_eq!(manager.n_pages(96), 3);
}

#[test]
fn written_page_is_read_back_for_several_sizes() {
    for size in [1usize, 2, 7, 64, 4096] {
        let mut file = tempfile::tempfile().unwrap();
        let manager = PageManager::new(size);
        let bytes: Vec<u8> = (0..size).map(|i| (i * 7 + 3) as u8).collect();
        let page = Page::from_vec(bytes.clone(), size);
        write_page(&mut file, &manager, 2, &page).unwrap();
        assert_eq!(read_page(&mut file, &manager, 2).unwrap().read(), &bytes);
    }
}

#[test]
fn appended_pages_get_rising_positions() {
    let mut file = tempfile::tempfile().unwrap();
    let manager = PageManager::new(PAGESIZE);
    for k in 0..5 {
        assert_eq!(manager.n_pages(file_len(&mut file)), k);
        let page = Page::from_vec(vec![k as u8; PAGESIZE], PAGESIZE);
        assert_eq!(append_page(&mut file, &manager, &page).unwrap(), k);
    }
    assert_eq!(manager.n_pages(file_len(&mut file)), 5);
}

#[test]
fn read_at_page_count_fails_until_written() {
    let mut file = tempfile::tempfile().unwrap();
    let manager = PageManager::new(PAGESIZE);
    for k in 0..2 {
        let page = Page::from_vec(vec![k as u8; PAGESIZE], PAGESIZE);
        append_page(&mut file, &manager, &page).unwrap();
    }
    let count = manager.n_pages(file_len(&mut file));
    assert_eq!(count, 2);
    assert!(read_page(&mut file, &manager, count).is_err());
    assert!(read_page(&mut file, &manager, count + 5).is_err());

    let page = Page::from_vec(vec![42; PAGESIZE], PAGESIZE);
    write_page(&mut file, &manager, count, &page).unwrap();
    assert_eq!(read_page(&mut file, &manager, count).unwrap().read(), &vec![42; PAGESIZE]);
}

#[test]
fn write_past_the_end_leaves_zero_pages_between() {
    let mut file = tempfile::tempfile().unwrap();
    let manager = PageManager::new(4);
    let page = Page::from_vec(vec![1, 2, 3, 4], 4);
    write_page(&mut file, &manager, 2, &page).unwrap();
    assert_eq!(file_len(&mut file), 12);
    assert_eq!(manager.n_pages(12), 3);
    assert_eq!(read_page(&mut file, &manager, 0).unwrap().read(), &vec![0; 4]);
    assert_eq!(read_page(&mut file, &manager, 1).unwrap().read(), &vec![0; 4]);
    assert_eq!(read_page(&mut file, &manager, 2).unwrap().read(), &vec![1, 2, 3, 4]);
}

#[test]
fn write_in_place_keeps_the_other_pages() {
    let mut file = Cursor::new(Vec::new());
    let manager = PageManager::new(2);
    for k in 0..3u8 {
        let page = Page::from_vec(vec![k, k], 2);
        append_page(&mut file, &manager, &page).unwrap();
    }
    let page = Page::from_vec(vec![9, 9], 2);
    write_page(&mut file, &manager, 1, &page).unwrap();
    assert_eq!(file.get_ref(), &vec![0, 0, 9, 9, 2, 2]);
}
