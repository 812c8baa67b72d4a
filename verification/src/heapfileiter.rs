//! The scan over the records of a heap file.
//!
//! Reading pages is left to whoever drives the scan: each call of `step` tells the scan what has
//! happened and says what to do next. A driver that asks for the next record starts with
//! `ScanEvent::Resume`, carries out each action and reports back, until the action is to yield a
//! record or to finish.

use crate::error::CrustyError;
use crate::heap_page::{HeapPage, HeapPageIntoIter};
use crate::ids::{ContainerId, PageId, SlotId, TransactionId, ValueId};
use vstd::prelude::*;

verus! {

/// What the driver of a scan reports.
#[derive(Debug)]
pub enum ScanEvent {
    /// The next record is wanted.
    Resume,
    /// The file has this many pages.
    NumPages(PageId),
    /// The page that was asked for has been read, or could not be.
    Read(Result<HeapPage, CrustyError>),
}

/// What the driver of a scan is to do.
#[derive(Debug)]
pub enum ScanAction {
    /// Hand out this record.
    Yield(Vec<u8>, ValueId),
    /// Find out how many pages the file has.
    CountPages,
    /// Read this page.
    ReadPage(PageId),
    /// Report that there are no more records.
    Finish,
}

/// What a scan waits for.
#[derive(Clone, Copy, Debug, PartialEq, Eq, Structural)]
pub enum Waiting {
    Resume,
    NumPages,
    Read,
}

/// Records, each by its bytes and its slot.
pub type PageModel = Seq<(Seq<u8>, SlotId)>;

/// The state of a scan.
pub ghost struct Scan {
    pub container_id: ContainerId,
    pub tid: TransactionId,
    /// The page after the one that is being scanned.
    pub current_pid: PageId,
    /// The records of the page being scanned that have not been handed out, once there is one.
    pub page: Option<PageModel>,
    pub waiting: Waiting,
}

/// An event, by its values. A page that could not be read is `None`.
pub ghost enum EventModel {
    Resume,
    NumPages(PageId),
    Read(Option<PageModel>),
}

/// An action, by its values.
pub ghost enum ActionModel {
    Yield(Seq<u8>, ValueId),
    CountPages,
    ReadPage(PageId),
    Finish,
}

impl View for ScanEvent {
    type V = EventModel;

    open spec fn view(&self) -> EventModel {
        match self {
            ScanEvent::Resume => EventModel::Resume,
            ScanEvent::NumPages(n) => EventModel::NumPages(*n),
            ScanEvent::Read(Ok(page)) => EventModel::Read(Some(page@)),
            ScanEvent::Read(Err(_)) => EventModel::Read(None),
        }
    }
}

impl View for ScanAction {
    type V = ActionModel;

    open spec fn view(&self) -> ActionModel {
        match self {
            ScanAction::Yield(bytes, value_id) => ActionModel::Yield(bytes@, *value_id),
            ScanAction::CountPages => ActionModel::CountPages,
            ScanAction::ReadPage(pid) => ActionModel::ReadPage(*pid),
            ScanAction::Finish => ActionModel::Finish,
        }
    }
}

/// The identifier of the record in slot `slot` of page `pid`.
pub open spec fn record_id(container_id: ContainerId, pid: int, slot: SlotId) -> ValueId {
    ValueId {
        container_id,
        segment_id: None,
        page_id: Some(pid as PageId),
        slot_id: Some(slot),
    }
}

impl Scan {
    /// A page is being scanned only after one was read, and a page is waited for only where there
    /// is a page after it.
    pub open spec fn wf(self) -> bool {
        &&& self.page is Some ==> self.current_pid > 0
        &&& self.waiting == Waiting::Read ==> self.current_pid < PageId::MAX
    }

    /// Whether the event is one that the scan waits for.
    pub open spec fn expects(self, event: EventModel) -> bool {
        match event {
            EventModel::Resume => self.waiting == Waiting::Resume,
            EventModel::NumPages(_) => self.waiting == Waiting::NumPages,
            EventModel::Read(_) => self.waiting == Waiting::Read,
        }
    }

    /// Hands out the next record of the page being scanned; without one, the number of pages is
    /// needed to go on.
    pub open spec fn take_record(self) -> (Scan, ActionModel) {
        match self.page {
            Some(records) if records.len() > 0 => (
                Scan { page: Some(records.drop_first()), waiting: Waiting::Resume, ..self },
                ActionModel::Yield(
                    records[0].0,
                    record_id(self.container_id, self.current_pid - 1, records[0].1),
                ),
            ),
            _ => (Scan { waiting: Waiting::NumPages, ..self }, ActionModel::CountPages),
        }
    }

    /// What the scan does on an event.
    pub open spec fn step(self, event: EventModel) -> (Scan, ActionModel) {
        match event {
            EventModel::Resume => self.take_record(),
            EventModel::NumPages(n) => if self.current_pid >= n {
                (Scan { waiting: Waiting::Resume, ..self }, ActionModel::Finish)
            } else {
                (
                    Scan { waiting: Waiting::Read, ..self },
                    ActionModel::ReadPage(self.current_pid),
                )
            },
            EventModel::Read(Some(page)) => Scan {
                page: Some(page),
                current_pid: (self.current_pid + 1) as PageId,
                ..self
            }.take_record(),
            EventModel::Read(None) => (
                Scan { waiting: Waiting::Resume, ..self },
                ActionModel::Finish,
            ),
        }
    }
}

/// A scan over the records of a heap file, in page order.
pub struct HeapFileIterator {
    container_id: ContainerId,
    current_pid: PageId,
    page_iter: Option<HeapPageIntoIter>,
    tid: TransactionId,
    waiting: Waiting,
}

impl View for HeapFileIterator {
    type V = Scan;

    closed spec fn view(&self) -> Scan {
        Scan {
            container_id: self.container_id,
            tid: self.tid,
            current_pid: self.current_pid,
            page: match self.page_iter {
                Some(iter) => Some(iter@),
                None => None,
            },
            waiting: self.waiting,
        }
    }
}

/// The page where a scan from `value_id` begins.
pub open spec fn start_page(value_id: ValueId) -> PageId {
    match value_id.page_id {
        Some(pid) => pid,
        None => 0,
    }
}

/// How many records of that page a scan from `value_id` leaves out.
pub open spec fn start_slot(value_id: ValueId) -> SlotId {
    match value_id.slot_id {
        Some(slot) => slot,
        None => 0,
    }
}

/// The records after the first `n`, or none where there are fewer.
pub open spec fn after_first(page: PageModel, n: int) -> PageModel {
    if n <= page.len() {
        page.skip(n)
    } else {
        Seq::empty()
    }
}

impl HeapFileIterator {
    /// The scan is well-formed, and so is what is left of its page.
    pub closed spec fn inv(&self) -> bool {
        &&& self@.wf()
        &&& self.page_iter matches Some(iter) ==> iter.inv()
    }

    /// The scan that an iterator stands for is well-formed.
    pub proof fn lemma_scan_wf(&self)
        requires
            self.inv(),
        ensures
            self@.wf(),
    {
    }

    /// Creates a scan over all records of the file of a container.
    pub fn new(tid: TransactionId, container_id: ContainerId) -> (r: Self)
        ensures
            r.inv(),
            r@ == (Scan {
                container_id,
                tid,
                current_pid: 0,
                page: None,
                waiting: Waiting::Resume,
            }),
    {
        HeapFileIterator {
            container_id,
            current_pid: 0,
            page_iter: None,
            tid,
            waiting: Waiting::Resume,
        }
    }

    /// The page to read before a scan can begin at `value_id`.
    pub fn first_page(value_id: &ValueId) -> (r: PageId)
        ensures
            r == start_page(*value_id),
            value_id.page_id matches Some(pid) ==> r == pid,
            value_id.page_id is None ==> r == 0,
    {
        value_id.page_id.unwrap_or(0)
    }

    /// Creates a scan that begins at `value_id`, where `read` is what came of reading its page.
    /// The scan leaves out as many records of the page as the slot says; where the page could not
    /// be read, it begins with the next page.
    pub fn new_from(
        tid: TransactionId,
        container_id: ContainerId,
        value_id: ValueId,
        read: Result<HeapPage, CrustyError>,
    ) -> (r: Self)
        requires
            start_page(value_id) < PageId::MAX,
        ensures
            r.inv(),
            r@ == (Scan {
                container_id,
                tid,
                current_pid: (start_page(value_id) + 1) as PageId,
                page: match read {
                    Ok(page) => Some(after_first(page@, start_slot(value_id) as int)),
                    Err(_) => None,
                },
                waiting: Waiting::Resume,
            }),
            value_id.page_id matches Some(pid) ==> r@.current_pid == pid + 1,
            value_id.page_id is None ==> r@.current_pid == 1,
            read is Err ==> r@.page is None,
            value_id.slot_id is None ==> (read matches Ok(page) ==> r@.page == Some(page@)),
            value_id.slot_id matches Some(slot) ==> (read matches Ok(page) ==> {
                &&& r@.page is Some
                &&& slot <= page@.len() ==> r@.page->Some_0 == page@.subrange(
                    slot as int,
                    page@.len() as int,
                )
                &&& slot > page@.len() ==> r@.page->Some_0.len() == 0
            }),
    {
        proof {
            if let Ok(page) = &read {
                assert(page@.skip(0) =~= page@);
            }
        }
        let pid = Self::first_page(&value_id);
        let slot = value_id.slot_id.unwrap_or(0);
        let page_iter = match read {
            Ok(page) => {
                let mut iter = page.into_iter();
                iter.skip(slot);
                Some(iter)
            },
            Err(_) => None,
        };
        HeapFileIterator {
            container_id,
            current_pid: pid + 1,
            page_iter,
            tid,
            waiting: Waiting::Resume,
        }
    }

    /// Takes the next record of the page being scanned.
    fn take_record(&mut self) -> (r: ScanAction)
        requires
            old(self)@.page is Some ==> old(self)@.current_pid > 0,
            old(self).page_iter matches Some(iter) ==> iter.inv(),
        ensures
            final(self).inv(),
            (final(self)@, r@) == old(self)@.take_record(),
    {
        if let Some(iter) = &mut self.page_iter {
            if let Some((bytes, slot_id)) = iter.next() {
                let value_id = ValueId {
                    container_id: self.container_id,
                    segment_id: None,
                    page_id: Some(self.current_pid - 1),
                    slot_id: Some(slot_id),
                };
                self.waiting = Waiting::Resume;
                return ScanAction::Yield(bytes, value_id);
            }
        }
        self.waiting = Waiting::NumPages;
        ScanAction::CountPages
    }

    /// Takes note of an event and says what to do next.
    pub fn step(&mut self, event: ScanEvent) -> (r: ScanAction)
        requires
            old(self).inv(),
            old(self)@.expects(event@),
        ensures
            final(self).inv(),
            (final(self)@, r@) == old(self)@.step(event@),
    {
        match event {
            ScanEvent::Resume => self.take_record(),
            ScanEvent::NumPages(num_pages) => {
                if self.current_pid >= num_pages {
                    self.waiting = Waiting::Resume;
                    ScanAction::Finish
                } else {
                    self.waiting = Waiting::Read;
                    ScanAction::ReadPage(self.current_pid)
                }
            },
            ScanEvent::Read(Ok(page)) => {
                self.page_iter = Some(page.into_iter());
                self.current_pid = self.current_pid + 1;
                self.take_record()
            },
            ScanEvent::Read(Err(_)) => {
                self.waiting = Waiting::Resume;
                ScanAction::Finish
            },
        }
    }
}

} // verus!
