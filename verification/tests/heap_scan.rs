use crustydb::error::CrustyError;
use crustydb::heap_page::HeapPage;
use crustydb::heapfileiter::{HeapFileIterator, ScanAction, ScanEvent};
use crustydb::ids::{PageId, SlotId, TransactionId, ValueId};

const CONTAINER: u16 = 9;

/// Pages given by their records; `None` for a page that cannot be read.
type Pages = Vec<Option<Vec<(&'static str, SlotId)>>>;

fn page(records: &[(&'static str, SlotId)]) -> HeapPage {
    HeapPage {
        records: records
            .iter()
            .map(|(text, slot)| (text.as_bytes().to_vec(), *slot))
            .collect(),
    }
}

fn read(pages: &Pages, pid: PageId) -> Result<HeapPage, CrustyError> {
    match pages.get(pid as usize) {
        Some(Some(records)) => Ok(page(records)),
        _ => Err(CrustyError::IOError("no such page".to_string())),
    }
}

fn next(scan: &mut HeapFileIterator, pages: &Pages) -> Option<(String, ValueId)> {
    let mut event = ScanEvent::Resume;
    loop {
        event = match scan.step(event) {
            ScanAction::Yield(bytes, value_id) => {
                return Some((String::from_utf8(bytes).unwrap(), value_id));
            }
            ScanAction::CountPages => ScanEvent::NumPages(pages.len() as PageId),
            ScanAction::ReadPage(pid) => ScanEvent::Read(read(pages, pid)),
            ScanAction::Finish => return None,
        };
    }
}

fn rest(scan: &mut HeapFileIterator, pages: &Pages) -> Vec<(String, ValueId)> {
    let mut records = Vec::new();
    while let Some(record) = next(scan, pages) {
        records.push(record);
    }
    records
}

fn record(text: &str, pid: PageId, slot: SlotId) -> (String, ValueId) {
    let value_id = ValueId {
        container_id: CONTAINER,
        segment_id: None,
        page_id: Some(pid),
        slot_id: Some(slot),
    };
    (text.to_string(), value_id)
}

fn at(page_id: Option<PageId>, slot_id: Option<SlotId>) -> ValueId {
    ValueId {
        container_id: CONTAINER,
        segment_id: None,
        page_id,
        slot_id,
    }
}

fn scan_from(value_id: ValueId, pages: &Pages) -> HeapFileIterator {
    let pid = HeapFileIterator::first_page(&value_id);
    HeapFileIterator::new_from(TransactionId { id: 1 }, CONTAINER, value_id, read(pages, pid))
}

fn sample() -> Pages {
    vec![
        Some(vec![("a", 0), ("b", 2)]),
        Some(vec![]),
        Some(vec![("c", 1), ("d", 3), ("e", 4)]),
    ]
}

#[test]
fn whole_file_in_page_order() {
    let mut scan = HeapFileIterator::new(TransactionId { id: 1 }, CONTAINER);
    assert_eq!(
        rest(&mut scan, &sample()),
        vec![
            record("a", 0, 0),
            record("b", 0, 2),
            record("c", 2, 1),
            record("d", 2, 3),
            record("e", 2, 4),
        ]
    );
    assert_eq!(next(&mut scan, &sample()), None);
}

#[test]
fn empty_file() {
    let mut scan = HeapFileIterator::new(TransactionId { id: 1 }, CONTAINER);
    assert_eq!(rest(&mut scan, &vec![]), vec![]);
}

#[test]
fn scan_from_a_value_leaves_out_as_many_records() {
    let mut scan = scan_from(at(Some(2), Some(1)), &sample());
    assert_eq!(
        rest(&mut scan, &sample()),
        vec![record("d", 2, 3), record("e", 2, 4)]
    );
    let mut scan = scan_from(at(Some(0), Some(1)), &sample());
    assert_eq!(next(&mut scan, &sample()), Some(record("b", 0, 2)));
    assert_eq!(next(&mut scan, &sample()), Some(record("c", 2, 1)));
}

#[test]
fn scan_from_a_page_is_the_end_of_the_whole_scan() {
    let mut whole = HeapFileIterator::new(TransactionId { id: 1 }, CONTAINER);
    let all = rest(&mut whole, &sample());
    let mut scan = scan_from(at(Some(2), None), &sample());
    assert_eq!(rest(&mut scan, &sample()), all[2..].to_vec());
}

#[test]
fn scan_from_a_slot_past_the_records_goes_on_with_the_next_page() {
    let mut scan = scan_from(at(Some(0), Some(7)), &sample());
    assert_eq!(next(&mut scan, &sample()), Some(record("c", 2, 1)));
}

#[test]
fn scan_from_nowhere_in_particular_starts_at_the_beginning() {
    let mut scan = scan_from(at(None, None), &sample());
    assert_eq!(rest(&mut scan, &sample()).len(), 5);
}

#[test]
fn scan_from_a_page_past_the_end_is_over() {
    let mut scan = scan_from(at(Some(40), Some(0)), &sample());
    assert_eq!(next(&mut scan, &sample()), None);
}

#[test]
fn unreadable_page_ends_the_scan() {
    let mut pages = sample();
    pages[1] = None;
    let mut scan = HeapFileIterator::new(TransactionId { id: 1 }, CONTAINER);
    assert_eq!(
        rest(&mut scan, &pages),
        vec![record("a", 0, 0), record("b", 0, 2)]
    );
    // The page is tried again with the next call.
    assert_eq!(next(&mut scan, &sample()), Some(record("c", 2, 1)));
}

#[test]
fn scan_from_an_unreadable_page_begins_with_the_next() {
    let mut pages = sample();
    pages[0] = None;
    let mut scan = scan_from(at(Some(0), Some(1)), &pages);
    assert_eq!(next(&mut scan, &pages), Some(record("c", 2, 1)));
}

#[test]
fn page_iterator_skips() {
    let mut iter = page(&[("a", 0), ("b", 2), ("c", 5)]).into_iter();
    iter.skip(1);
    assert_eq!(iter.next(), Some((b"b".to_vec(), 2)));
    iter.skip(4);
    assert_eq!(iter.next(), None);
}
