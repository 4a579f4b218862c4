use animefs::filesystem::driver::FilesystemDriver;
use animefs::filesystem::io::MemoryIo;
use animefs::filesystem::tasks::{FilesystemTask, FilesystemTaskResponse};
use animefs::geometry::{FS_HEADER_LEN, PAGE_HEADER_LEN};
use animefs::pages::page::{Page, PageHeader};

fn create_page(fs: &mut FilesystemDriver<MemoryIo>, parent: Option<u32>) -> u32 {
    match fs.worker.execute(FilesystemTask::CreatePage { parent_page_number: parent }) {
        FilesystemTaskResponse::PageCreated(number) => number,
        other => panic!("unexpected response: {:?}", other),
    }
}

#[test]
fn create_page_grows_by_one_stride() {
    let mut fs = FilesystemDriver::new(MemoryIo::new());
    let page_size = fs.read_header().page_size;
    let stride = PAGE_HEADER_LEN + page_size;

    assert_eq!(fs.worker.container_len(), FS_HEADER_LEN);

    // Page n starts at exactly FS_HEADER_LEN + n * stride.
    for n in 0..4u64 {
        assert_eq!(fs.worker.container_len(), FS_HEADER_LEN + n * stride);
        let number = create_page(&mut fs, None);
        assert_eq!(number as u64, n);
        assert_eq!(fs.worker.container_len(), FS_HEADER_LEN + (n + 1) * stride);
    }
}

#[test]
fn read_page_bounds() {
    let mut fs = FilesystemDriver::new(MemoryIo::new());
    let page_size = fs.read_header().page_size;
    create_page(&mut fs, None);

    let page = Page::new(0);
    page.write(&mut fs.worker, 0, vec![7; page_size as usize]);

    // Reads return at most min(length, page_size - offset) bytes, and
    // exactly none past the body or for an empty request.
    assert_eq!(page.read(&mut fs.worker, 0, 10).len(), 10);
    assert_eq!(page.read(&mut fs.worker, page_size - 3, 10).len(), 3);
    assert_eq!(page.read(&mut fs.worker, 0, page_size + 100).len(), page_size as usize);
    assert_eq!(page.read(&mut fs.worker, page_size, 1).len(), 0);
    assert_eq!(page.read(&mut fs.worker, page_size + 5, 1).len(), 0);
    assert_eq!(page.read(&mut fs.worker, 0, 0).len(), 0);
}

#[test]
fn write_page_returns_overflow() {
    let mut fs = FilesystemDriver::new(MemoryIo::new());
    let page_size = fs.read_header().page_size;
    create_page(&mut fs, None);

    let page = Page::new(0);

    // A write past the body comes back whole.
    let tail = page.write(&mut fs.worker, page_size, vec![1, 2, 3]);
    assert_eq!(tail, vec![1, 2, 3]);

    // A straddling write keeps what fits and returns the rest.
    let bytes = vec![9; page_size as usize + 4];
    let tail = page.write(&mut fs.worker, 2, bytes);
    assert_eq!(tail, vec![9; 6]);
    assert_eq!(page.read(&mut fs.worker, 2, 4), vec![9; 4]);
}

#[test]
fn page_links() {
    let mut fs = FilesystemDriver::new(MemoryIo::new());
    create_page(&mut fs, None);

    let page = Page::new(0);
    assert!(page.read_next_page(&mut fs.worker).is_none());
    assert!(page.read_prev_page(&mut fs.worker).is_none());

    let next = page.create_next_page(&mut fs.worker);
    assert_eq!(next.number(), 1);

    // The link is durable and mutual: forward from 0, back from 1.
    let again = page.read_next_page(&mut fs.worker).unwrap();
    assert_eq!(again.number(), 1);
    let back = next.read_prev_page(&mut fs.worker).unwrap();
    assert_eq!(back.number(), 0);

    let header = page.read_header(&mut fs.worker);
    assert_eq!(
        header,
        PageHeader { prev_page_number: 0, next_page_number: 1, has_prev: false, has_next: true }
    );
}
