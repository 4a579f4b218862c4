use animefs::filesystem::driver::FilesystemDriver;
use animefs::filesystem::io::MemoryIo;
use animefs::pages::book::Book;
use animefs::pages::page::Page;

#[test]
fn book_read() {
    let mut fs = FilesystemDriver::new(MemoryIo::new());
    let page_size = fs.read_header().page_size;
    let w = &mut fs.worker;

    let mut page = Page::new(0);
    let book = Book::open(page, page_size);

    for i in 1..=255u64 {
        page.write(w, 0, vec![i as u8; page_size as usize]);
        page = page.create_next_page(w);
    }

    for i in 1..255u8 {
        let j = (i as u64 - 1) * page_size;

        let body = book.read(w, j, page_size);

        assert_eq!(body.len() as u64, page_size);
        assert_eq!(body, vec![i; page_size as usize]);

        let body = book.read(w, j + i as u64, page_size);

        let k = (page_size - i as u64) as usize;

        assert_eq!(body.len() as u64, page_size);
        assert_eq!(body[..k], vec![i; k]);
        assert_eq!(body[k..], vec![i + 1; i as usize]);
    }
}

#[test]
fn book_write() {
    let mut fs = FilesystemDriver::new(MemoryIo::new());
    let page_size = fs.read_header().page_size;
    let w = &mut fs.worker;

    let mut page = Page::new(0);
    let book = Book::open(page, page_size);

    for i in 0..=255u64 {
        book.write(w, i * page_size, vec![i as u8; page_size as usize]);
        book.write(w, i * page_size, vec![!(i as u8); page_size as usize / 2]);
    }

    for i in 0..255u8 {
        let buf = page.read(w, 0, page_size);

        assert_eq!(&buf[..page_size as usize / 2], vec![!i; page_size as usize / 2]);
        assert_eq!(&buf[page_size as usize / 2..], vec![i; page_size as usize / 2]);

        page = page.read_next_page(w).unwrap();
    }

    book.write(w, page_size / 2 - 1, vec![17; page_size as usize * 4 + 1]);

    let buf = book.read(w, page_size / 2 - 1, page_size * 4 + 1);

    assert_eq!(buf, vec![17; page_size as usize * 4 + 1]);
}

#[test]
fn book_pages() {
    let mut fs = FilesystemDriver::new(MemoryIo::new());
    let page_size = fs.read_header().page_size;
    let w = &mut fs.worker;

    let page = Page::new(0);
    let book = Book::open(page, page_size);

    page.write(w, 0, vec![1]);
    assert_eq!(book.pages(w), 1);

    book.write(w, page_size * 3, vec![2]);
    assert_eq!(book.pages(w), 4);

    // Reads past the end grow the chain on access, and only as far as
    // the touched offset needs.
    book.read(w, page_size * 9, 0);
    assert_eq!(book.pages(w), 10);
    book.read(w, page_size * 10, 1);
    assert_eq!(book.pages(w), 11);
}
