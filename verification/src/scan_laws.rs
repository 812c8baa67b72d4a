//! What a scan hands out of a heap file, stated of the file rather than of the steps.

use crate::heapfileiter::{
    after_first, record_id, start_page, start_slot, ActionModel, EventModel, PageModel, Scan,
    ScanAction, ScanEvent, Waiting,
};
use crate::ids::{ContainerId, PageId, TransactionId, ValueId};
use vstd::prelude::*;

verus! {

/// A heap file that does not change while it is scanned: its pages, `None` for those that cannot
/// be read.
pub ghost struct FileModel {
    pub container_id: ContainerId,
    pub pages: Seq<Option<PageModel>>,
}

/// A record as a scan hands it out.
pub type Record = (Seq<u8>, ValueId);

impl FileModel {
    /// The number of pages can be reported as a page identifier.
    pub open spec fn wf(self) -> bool {
        self.pages.len() <= PageId::MAX
    }

    /// The records of a page with their identifiers.
    pub open spec fn identified(self, page: PageModel, pid: int) -> Seq<Record> {
        Seq::new(
            page.len(),
            |i: int| (page[i].0, record_id(self.container_id, pid, page[i].1)),
        )
    }

    /// The records of the pages from `pid` on, in page order, up to the first page that cannot be
    /// read.
    pub open spec fn records_from(self, pid: int) -> Seq<Record>
        decreases self.pages.len() - pid,
    {
        if 0 <= pid < self.pages.len() {
            match self.pages[pid] {
                Some(page) => self.identified(page, pid) + self.records_from(pid + 1),
                None => Seq::empty(),
            }
        } else {
            Seq::empty()
        }
    }

    /// The records that a scan of the file has yet to hand out.
    pub open spec fn pending(self, scan: Scan) -> Seq<Record> {
        (match scan.page {
            Some(page) => self.identified(page, scan.current_pid - 1),
            None => Seq::empty(),
        }) + self.records_from(scan.current_pid as int)
    }

    /// What comes of driving a scan from an event on, with this file to answer it, until it yields
    /// a record or finishes.
    pub open spec fn drive(self, scan: Scan, event: EventModel) -> (Scan, Option<Record>)
        decreases
                self.pages.len() - scan.current_pid,
                (if event is Resume {
                    2int
                } else if event is NumPages {
                    1int
                } else {
                    0int
                }),
        when self.answerable(scan, event)
    {
        let (after, action) = scan.step(event);
        match action {
            ActionModel::Yield(bytes, value_id) => (after, Some((bytes, value_id))),
            ActionModel::CountPages => self.drive(
                after,
                EventModel::NumPages(self.pages.len() as PageId),
            ),
            ActionModel::ReadPage(pid) => self.drive(
                after,
                EventModel::Read(self.pages[pid as int]),
            ),
            ActionModel::Finish => (after, None),
        }
    }

    /// Whether the file can have given rise to the event.
    pub open spec fn answerable(self, scan: Scan, event: EventModel) -> bool {
        &&& self.wf()
        &&& match event {
            EventModel::Resume => true,
            EventModel::NumPages(n) => n == self.pages.len(),
            EventModel::Read(page) => scan.current_pid < self.pages.len() && page
                == self.pages[scan.current_pid as int],
        }
    }

    /// The scan and the record that come of asking for the next record.
    pub open spec fn next(self, scan: Scan) -> (Scan, Option<Record>) {
        self.drive(scan, EventModel::Resume)
    }

    /// Whether a scan of this file is between two records.
    pub open spec fn idle(self, scan: Scan) -> bool {
        &&& scan.wf()
        &&& scan.waiting == Waiting::Resume
        &&& scan.container_id == self.container_id
    }

    /// The scan after asking `n` times for the next record.
    pub open spec fn advanced(self, scan: Scan, n: nat) -> Scan
        decreases n,
    {
        if n == 0 {
            scan
        } else {
            self.next(self.advanced(scan, (n - 1) as nat)).0
        }
    }

    /// Goes through the pages, from one that is used up, to the next record.
    proof fn lemma_drive_count(self, scan: Scan)
        requires
            self.wf(),
            scan.wf(),
            scan.container_id == self.container_id,
            scan.waiting == Waiting::NumPages,
            scan.page matches Some(page) ==> page.len() == 0,
        ensures
            ({
                let (after, record) = self.drive(
                    scan,
                    EventModel::NumPages(self.pages.len() as PageId),
                );
                let records = self.records_from(scan.current_pid as int);
                &&& self.idle(after)
                &&& after.tid == scan.tid
                &&& if records.len() > 0 {
                    &&& record == Some(records[0])
                    &&& self.pending(after) == records.drop_first()
                } else {
                    &&& record is None
                    &&& self.pending(after) == records
                }
            }),
        decreases self.pages.len() - scan.current_pid,
    {
        let pid = scan.current_pid as int;
        let count = EventModel::NumPages(self.pages.len() as PageId);
        let (asked, _) = scan.step(count);
        if pid < self.pages.len() {
            let (read, _) = asked.step(EventModel::Read(self.pages[pid]));
            assert(self.drive(scan, count) == self.drive(
                asked,
                EventModel::Read(self.pages[pid]),
            ));
            match self.pages[pid] {
                Some(page) => {
                    let rest = self.records_from(pid + 1);
                    let here = self.identified(page, pid);
                    if page.len() > 0 {
                        assert(self.identified(page.drop_first(), pid) =~= here.drop_first());
                        assert(self.pending(read) =~= here.drop_first() + rest);
                        assert((here + rest).drop_first() =~= here.drop_first() + rest);
                    } else {
                        assert(here + rest =~= rest);
                        assert(self.drive(asked, EventModel::Read(self.pages[pid])) == self.drive(
                            read,
                            count,
                        ));
                        self.lemma_drive_count(read);
                    }
                },
                None => {
                    assert(self.records_from(pid) =~= Seq::empty());
                    assert(self.pending(read) =~= Seq::empty());
                },
            }
        } else {
            assert(self.pending(asked) =~= Seq::empty());
        }
    }

    /// Asking a scan for the next record takes the first of the pending ones, and leaves the
    /// others pending; without any, it reports the end and stays there.
    pub proof fn law_next(self, scan: Scan)
        requires
            self.wf(),
            self.idle(scan),
        ensures
            self.idle(self.next(scan).0),
            self.next(scan).0.tid == scan.tid,
            self.pending(scan).len() > 0 ==> {
                &&& self.next(scan).1 == Some(self.pending(scan)[0])
                &&& self.pending(self.next(scan).0) == self.pending(scan).drop_first()
            },
            self.pending(scan).len() == 0 ==> {
                &&& self.next(scan).1 is None
                &&& self.pending(self.next(scan).0) == self.pending(scan)
            },
    {
        let rest = self.records_from(scan.current_pid as int);
        let (after, _) = scan.step(EventModel::Resume);
        match scan.page {
            Some(page) if page.len() > 0 => {
                let here = self.identified(page, scan.current_pid - 1);
                assert(self.identified(page.drop_first(), scan.current_pid - 1)
                    =~= here.drop_first());
                assert((here + rest).drop_first() =~= here.drop_first() + rest);
            },
            _ => {
                assert(self.pending(scan) =~= rest);
                self.lemma_drive_count(after);
            },
        }
    }

    /// A scan hands out exactly the pending records, in order, and then reports the end for good.
    pub proof fn law_scan(self, scan: Scan, n: nat)
        requires
            self.wf(),
            self.idle(scan),
        ensures
            self.idle(self.advanced(scan, n)),
            self.next(self.advanced(scan, n)).1 == if n < self.pending(scan).len() {
                Some(self.pending(scan)[n as int])
            } else {
                None
            },
            self.pending(self.advanced(scan, n)) == if n <= self.pending(scan).len() {
                self.pending(scan).skip(n as int)
            } else {
                Seq::empty()
            },
        decreases n,
    {
        let all = self.pending(scan);
        if n == 0 {
            assert(all.skip(0) =~= all);
        } else {
            let m = (n - 1) as nat;
            self.law_scan(scan, m);
            self.law_next(self.advanced(scan, m));
            if n <= all.len() {
                assert(all.skip(m as int).drop_first() =~= all.skip(n as int));
            } else if m == all.len() {
                assert(all.skip(m as int) =~= Seq::empty());
            }
        }
        self.law_next(self.advanced(scan, n));
    }

    /// The scan that `HeapFileIterator::new` creates goes through the whole file.
    pub proof fn law_new_scans_all(self, tid: TransactionId)
        requires
            self.wf(),
        ensures
            ({
                let scan = Scan {
                    container_id: self.container_id,
                    tid,
                    current_pid: 0,
                    page: None,
                    waiting: Waiting::Resume,
                };
                &&& self.idle(scan)
                &&& self.pending(scan) == self.records_from(0)
            }),
    {
        assert(Seq::<Record>::empty() + self.records_from(0) =~= self.records_from(0));
    }

    /// The scan that `HeapFileIterator::new_from` creates begins with the page of the value, the
    /// first one where there is none, less as many of its records as the slot says, none where there
    /// is no slot, or all where the page has fewer. Where the page cannot be read, it begins with
    /// the next one.
    pub proof fn law_new_from(self, tid: TransactionId, value_id: ValueId)
        requires
            self.wf(),
            value_id.page_id != Some(PageId::MAX),
        ensures
            ({
                let pid = match value_id.page_id {
                    Some(pid) => pid as int,
                    None => 0,
                };
                let slot = match value_id.slot_id {
                    Some(slot) => slot as int,
                    None => 0,
                };
                let read = if pid < self.pages.len() {
                    self.pages[pid]
                } else {
                    None
                };
                let scan = Scan {
                    container_id: self.container_id,
                    tid,
                    current_pid: (start_page(value_id) + 1) as PageId,
                    page: match read {
                        Some(page) => Some(after_first(page, start_slot(value_id) as int)),
                        None => None,
                    },
                    waiting: Waiting::Resume,
                };
                &&& start_page(value_id) == pid
                &&& self.idle(scan)
                &&& match read {
                    Some(page) => {
                        let left_out = if slot <= page.len() {
                            slot
                        } else {
                            page.len() as int
                        };
                        &&& self.pending(scan).len() == self.records_from(pid).len() - left_out
                        &&& self.pending(scan) == self.records_from(pid).subrange(
                            left_out,
                            self.records_from(pid).len() as int,
                        )
                    },
                    None => self.pending(scan) == self.records_from(pid + 1),
                }
            }),
    {
        let pid = start_page(value_id) as int;
        let slot = start_slot(value_id) as int;
        let rest = self.records_from(pid + 1);
        if pid < self.pages.len() && self.pages[pid] is Some {
            let page = self.pages[pid]->Some_0;
            let here = self.identified(page, pid);
            let left = self.identified(after_first(page, slot), pid);
            if slot <= page.len() {
                assert(left + rest =~= (here + rest).skip(slot));
            } else {
                assert(left + rest =~= (here + rest).skip(page.len() as int));
            }
        } else {
            assert(Seq::<Record>::empty() + rest =~= rest);
        }
    }

    /// The records from a page on are those of the pages that can be read, up to one that cannot.
    /// Here `offsets` say how many records the pages before each page have.
    pub proof fn law_record_count(self, pid: int, n: int, offsets: Seq<int>)
        requires
            self.pages.len() <= 0xffff,
            0 <= pid,
            0 <= n,
            pid + n <= self.pages.len(),
            forall|q: int| pid <= q < pid + n ==> (#[trigger] self.pages[q]) is Some,
            pid + n == self.pages.len() || self.pages[pid + n] is None,
            offsets.len() == n + 1,
            offsets[0] == 0,
            forall|q: int|
                pid <= q < pid + n ==> offsets[q - pid + 1] == offsets[q - pid] + (
                #[trigger] self.pages[q])->Some_0.len(),
        ensures
            self.records_from(pid).len() == offsets[n],
        decreases n,
    {
        if n > 0 {
            let later = Seq::new(n as nat, |i: int| offsets[i + 1] - offsets[1]);
            assert(self.pages[pid] is Some);
            self.law_record_count(pid + 1, n - 1, later);
        }
    }

    /// The records from a page on come page by page, and within a page in the order of its records,
    /// each with its bytes, its page and its slot.
    pub proof fn law_record_place(self, pid: int, n: int, offsets: Seq<int>, p: int, k: int)
        requires
            self.pages.len() <= 0xffff,
            0 <= pid,
            0 <= n,
            pid + n <= self.pages.len(),
            forall|q: int| pid <= q < pid + n ==> (#[trigger] self.pages[q]) is Some,
            pid + n == self.pages.len() || self.pages[pid + n] is None,
            offsets.len() == n + 1,
            offsets[0] == 0,
            forall|q: int|
                pid <= q < pid + n ==> offsets[q - pid + 1] == offsets[q - pid] + (
                #[trigger] self.pages[q])->Some_0.len(),
            pid <= p < pid + n,
            0 <= k < self.pages[p]->Some_0.len(),
        ensures
            ({
                let stored = self.pages[p]->Some_0[k];
                let record = self.records_from(pid)[offsets[p - pid] + k];
                &&& 0 <= offsets[p - pid] + k < offsets[n]
                &&& record.0 == stored.0
                &&& record.1.container_id == self.container_id
                &&& record.1.segment_id is None
                &&& record.1.page_id == Some(p as PageId)
                &&& record.1.slot_id == Some(stored.1)
            }),
        decreases n,
    {
        let page = self.pages[pid]->Some_0;
        let here = self.identified(page, pid);
        let rest = self.records_from(pid + 1);
        let later = Seq::new(n as nat, |i: int| offsets[i + 1] - offsets[1]);
        assert(self.pages[pid] is Some);
        assert(offsets[1] == page.len());
        assert(later[n - 1] == offsets[n] - page.len());
        self.law_record_count(pid + 1, n - 1, later);
        if p > pid {
            let at = later[p - pid - 1] + k;
            self.law_record_place(pid + 1, n - 1, later, p, k);
            assert((here + rest)[here.len() + at] == rest[at]);
        } else {
            assert((here + rest)[k] == here[k]);
        }
    }

    /// A file is driven by its own answers: it counts its pages, reads the page that is asked for,
    /// and stops with the record that is handed out or at the end.
    pub proof fn law_drive(self, scan: Scan, event: EventModel)
        requires
            self.pages.len() <= 0xffff,
            match event {
                EventModel::Resume => true,
                EventModel::NumPages(n) => n == self.pages.len(),
                EventModel::Read(page) => scan.current_pid < self.pages.len() && page
                    == self.pages[scan.current_pid as int],
            },
        ensures
            self.next(scan) == self.drive(scan, EventModel::Resume),
            self.drive(scan, event) == match scan.step(event).1 {
                ActionModel::Yield(bytes, value_id) => (
                    scan.step(event).0,
                    Some((bytes, value_id)),
                ),
                ActionModel::CountPages => self.drive(
                    scan.step(event).0,
                    EventModel::NumPages(self.pages.len() as PageId),
                ),
                ActionModel::ReadPage(pid) => self.drive(
                    scan.step(event).0,
                    EventModel::Read(self.pages[pid as int]),
                ),
                ActionModel::Finish => (scan.step(event).0, None),
            },
    {
    }

    /// Asking once more is asking for the next record.
    pub proof fn law_advanced(self, scan: Scan, n: nat)
        ensures
            self.advanced(scan, 0) == scan,
            self.advanced(scan, n + 1) == self.next(self.advanced(scan, n)).0,
    {
    }

    /// A scan is between two records where the next one may be asked for.
    pub proof fn law_idle(self, scan: Scan)
        ensures
            self.wf() <==> self.pages.len() <= 0xffff,
            self.idle(scan) <==> scan.waiting == Waiting::Resume && scan.container_id
                == self.container_id && (scan.page is Some ==> scan.current_pid > 0),
    {
    }

    /// A scan of the whole file hands out the records of its first page in their order, then those
    /// of the second, and so on up to a page that cannot be read, and then reports the end.
    pub proof fn law_whole_file(
        self,
        tid: TransactionId,
        n: int,
        offsets: Seq<int>,
        p: int,
        k: int,
    )
        requires
            self.pages.len() <= 0xffff,
            0 <= n <= self.pages.len(),
            forall|q: int| 0 <= q < n ==> (#[trigger] self.pages[q]) is Some,
            n == self.pages.len() || self.pages[n] is None,
            offsets.len() == n + 1,
            offsets[0] == 0,
            forall|q: int|
                0 <= q < n ==> offsets[q + 1] == offsets[q] + (
                #[trigger] self.pages[q])->Some_0.len(),
        ensures
            ({
                let scan = Scan {
                    container_id: self.container_id,
                    tid,
                    current_pid: 0,
                    page: None,
                    waiting: Waiting::Resume,
                };
                let stored = self.pages[p]->Some_0[k];
                let record = self.next(self.advanced(scan, (offsets[p] + k) as nat)).1;
                &&& offsets[n] >= 0
                &&& self.next(self.advanced(scan, offsets[n] as nat)).1 is None
                &&& 0 <= p < n && 0 <= k < self.pages[p]->Some_0.len() ==> {
                    &&& 0 <= offsets[p] + k < offsets[n]
                    &&& record is Some
                    &&& record->Some_0.0 == stored.0
                    &&& record->Some_0.1.container_id == self.container_id
                    &&& record->Some_0.1.segment_id is None
                    &&& record->Some_0.1.page_id == Some(p as PageId)
                    &&& record->Some_0.1.slot_id == Some(stored.1)
                }
            }),
    {
        let scan = Scan {
            container_id: self.container_id,
            tid,
            current_pid: 0,
            page: None,
            waiting: Waiting::Resume,
        };
        self.law_record_count(0, n, offsets);
        self.law_new_scans_all(tid);
        self.law_scan(scan, offsets[n] as nat);
        if 0 <= p < n && 0 <= k < self.pages[p]->Some_0.len() {
            self.law_record_place(0, n, offsets, p, k);
            self.law_scan(scan, (offsets[p] + k) as nat);
        }
    }

    /// The records from a page on are the end of the records from any page before it, where the
    /// pages between can be read.
    pub proof fn law_records_suffix(self, from: int, to: int)
        requires
            0 <= from <= to <= self.pages.len(),
            forall|pid: int| from <= pid < to ==> (#[trigger] self.pages[pid]) is Some,
        ensures
            exists|n: int|
                0 <= n <= self.records_from(from).len()
                    && #[trigger] self.records_from(from).skip(n) == self.records_from(to),
        decreases to - from,
    {
        let all = self.records_from(from);
        if from == to {
            assert(all.skip(0) =~= self.records_from(to));
        } else {
            self.law_records_suffix(from + 1, to);
            let here = self.identified(self.pages[from]->Some_0, from);
            let rest = self.records_from(from + 1);
            let n = choose|n: int|
                0 <= n <= rest.len() && #[trigger] rest.skip(n) == self.records_from(to);
            assert(all.skip(here.len() + n) =~= rest.skip(n));
        }
    }
}

/// What is reported to a scan and what it asks for are taken by their values; of a page that could
/// not be read, only that.
pub proof fn law_messages(event: ScanEvent, action: ScanAction)
    ensures
        match event {
            ScanEvent::Resume => event@ == EventModel::Resume,
            ScanEvent::NumPages(n) => event@ == EventModel::NumPages(n),
            ScanEvent::Read(Ok(page)) => event@ == EventModel::Read(Some(page@)),
            ScanEvent::Read(Err(_)) => event@ == EventModel::Read(None),
        },
        match action {
            ScanAction::Yield(bytes, value_id) => action@ == ActionModel::Yield(bytes@, value_id),
            ScanAction::CountPages => action@ == ActionModel::CountPages,
            ScanAction::ReadPage(pid) => action@ == ActionModel::ReadPage(pid),
            ScanAction::Finish => action@ == ActionModel::Finish,
        },
{
}

/// A scan may be told what it waits for, and nothing else.
pub proof fn law_expects(scan: Scan, n: PageId, page: Option<PageModel>)
    ensures
        scan.expects(EventModel::Resume) <==> scan.waiting == Waiting::Resume,
        scan.expects(EventModel::NumPages(n)) <==> scan.waiting == Waiting::NumPages,
        scan.expects(EventModel::Read(page)) <==> scan.waiting == Waiting::Read,
        scan.wf() <==> (scan.page is Some ==> scan.current_pid > 0) && (scan.waiting
            == Waiting::Read ==> scan.current_pid < 0xffff),
{
}

/// Asked for a record, a scan hands out the first of those that are left of its page, under the
/// page before the one that it would read next; without one it asks how many pages there are.
pub proof fn law_resume(scan: Scan)
    requires
        scan.wf(),
    ensures
        ({
            let (after, action) = scan.step(EventModel::Resume);
            &&& after.container_id == scan.container_id && after.tid == scan.tid
            &&& after.current_pid == scan.current_pid
            &&& match scan.page {
                Some(left) if left.len() > 0 => {
                    &&& action matches ActionModel::Yield(bytes, value_id) && bytes == left[0].0
                        && value_id.container_id == scan.container_id && value_id.segment_id is None
                        && value_id.slot_id == Some(left[0].1) && (value_id.page_id matches Some(p)
                        && p + 1 == scan.current_pid)
                    &&& after.page == Some(left.subrange(1, left.len() as int))
                    &&& after.waiting == Waiting::Resume
                },
                _ => action == ActionModel::CountPages && after.page == scan.page && after.waiting
                    == Waiting::NumPages,
            }
        }),
{
}

/// Told how many pages there are, a scan asks for its next page or, without one, finishes.
pub proof fn law_count(scan: Scan, n: PageId)
    ensures
        ({
            let (after, action) = scan.step(EventModel::NumPages(n));
            &&& after == (Scan { waiting: after.waiting, ..scan })
            &&& scan.current_pid < n ==> action == ActionModel::ReadPage(scan.current_pid)
                && after.waiting == Waiting::Read
            &&& scan.current_pid >= n ==> action == ActionModel::Finish && after.waiting
                == Waiting::Resume
        }),
{
}

/// Given a page, a scan goes on as it would from that page, at its first record; without one it
/// finishes where it is.
pub proof fn law_read(scan: Scan, page: PageModel)
    requires
        scan.current_pid < 0xffff,
    ensures
        ({
            let at_page = Scan {
                page: Some(page),
                current_pid: (scan.current_pid + 1) as PageId,
                ..scan
            };
            &&& scan.step(EventModel::Read(Some(page))) == at_page.step(EventModel::Resume)
            &&& scan.step(EventModel::Read(None)) == (
                Scan { waiting: Waiting::Resume, ..scan },
                ActionModel::Finish,
            )
        }),
{
}

/// Where a scan from an identifier starts, and what it leaves out there.
pub proof fn law_start(value_id: ValueId, page: PageModel, n: int)
    requires
        n >= 0,
    ensures
        value_id.page_id matches Some(pid) ==> start_page(value_id) == pid,
        value_id.page_id is None ==> start_page(value_id) == 0,
        value_id.slot_id matches Some(slot) ==> start_slot(value_id) == slot,
        value_id.slot_id is None ==> start_slot(value_id) == 0,
        n > page.len() ==> after_first(page, n).len() == 0,
        n <= page.len() ==> after_first(page, n).len() == page.len() - n && forall|i: int|
            0 <= i < page.len() - n ==> #[trigger] after_first(page, n)[i] == page[n + i],
{
}

} // verus!
