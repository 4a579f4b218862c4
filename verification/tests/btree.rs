use animefs::btree::tree::GenericBTree;
use animefs::filesystem::driver::FilesystemDriver;
use animefs::filesystem::io::MemoryIo;
use animefs::filesystem::tasks::{FilesystemTask, FilesystemTaskResponse};
use animefs::geometry::{FS_HEADER_LEN, PAGE_HEADER_LEN};

fn with_btree(callback: impl FnOnce(GenericBTree<8, 8>, &mut FilesystemDriver<MemoryIo>)) {
    let mut fs = FilesystemDriver::new(MemoryIo::new());
    let page_size = fs.read_header().page_size;

    let response = fs.worker.execute(FilesystemTask::CreatePage { parent_page_number: None });
    let page_number = match response {
        FilesystemTaskResponse::PageCreated(number) => number,
        _ => panic!("expected a created page"),
    };

    let btree = GenericBTree::<8, 8>::new(page_number, page_size);

    callback(btree, &mut fs);
}

const RECORDS: u64 = 128;

#[test]
fn insert() {
    with_btree(|btree, fs| {
        for i in 0..RECORDS {
            let value = seahash::hash(&i.to_be_bytes());

            btree.insert(&mut fs.worker, &i.to_be_bytes().to_vec(), &value.to_be_bytes().to_vec());
        }

        let page_size = fs.read_header().page_size;
        let len = fs.worker.container_len();
        let pages = (len - FS_HEADER_LEN) / (PAGE_HEADER_LEN + page_size);

        // keys[n + 1] > keys[n] => records fill whole pages.
        let max_records = btree.max_records();
        let expected = (RECORDS + max_records - 1) / max_records;
        assert_eq!(pages, expected);
    });

    with_btree(|btree, fs| {
        for i in 0..RECORDS {
            let i = RECORDS - i;
            let value = seahash::hash(&i.to_be_bytes());

            btree.insert(&mut fs.worker, &i.to_be_bytes().to_vec(), &value.to_be_bytes().to_vec());
        }

        let page_size = fs.read_header().page_size;
        let len = fs.worker.container_len();
        let pages = (len - FS_HEADER_LEN) / (PAGE_HEADER_LEN + page_size);

        // keys[n + 1] < keys[n] => every record lands on a new page.
        assert_eq!(pages, RECORDS);
    });
}

#[test]
fn insert_allocation_steps() {
    with_btree(|btree, fs| {
        let page_size = fs.read_header().page_size;
        let stride = PAGE_HEADER_LEN + page_size;
        let len0 = fs.worker.container_len();

        // First insert fills the empty root: no allocation.
        btree.insert(&mut fs.worker, &10u64.to_be_bytes().to_vec(), &1u64.to_be_bytes().to_vec());
        assert_eq!(fs.worker.container_len(), len0);

        // A smaller key goes into a missing left subtree: exactly one
        // fresh page.
        btree.insert(&mut fs.worker, &5u64.to_be_bytes().to_vec(), &2u64.to_be_bytes().to_vec());
        assert_eq!(fs.worker.container_len(), len0 + stride);

        // A greater key extends the root page while a slot fits: no
        // allocation.
        btree.insert(&mut fs.worker, &20u64.to_be_bytes().to_vec(), &3u64.to_be_bytes().to_vec());
        assert_eq!(fs.worker.container_len(), len0 + stride);
    });
}

#[test]
fn insert_updates_in_place() {
    with_btree(|btree, fs| {
        let key = 7u64.to_be_bytes().to_vec();

        btree.insert(&mut fs.worker, &key, &1u64.to_be_bytes().to_vec());
        let len_after_first = fs.worker.container_len();

        btree.insert(&mut fs.worker, &key, &2u64.to_be_bytes().to_vec());
        let len_after_second = fs.worker.container_len();

        // The second insert updates the record in place: no new pages.
        assert_eq!(len_after_first, len_after_second);
    });
}
