//! The records of a heap page.

use crate::ids::SlotId;
use vstd::prelude::*;

verus! {

/// A page as it was read: the records that are in use, in order, each with its slot.
#[derive(Debug, PartialEq, Eq)]
pub struct HeapPage {
    pub records: Vec<(Vec<u8>, SlotId)>,
}

/// The bytes and the slot of each of the records.
pub open spec fn record_values(records: Seq<(Vec<u8>, SlotId)>) -> Seq<(Seq<u8>, SlotId)> {
    records.map_values(|r: (Vec<u8>, SlotId)| (r.0@, r.1))
}

impl View for HeapPage {
    type V = Seq<(Seq<u8>, SlotId)>;

    open spec fn view(&self) -> Seq<(Seq<u8>, SlotId)> {
        record_values(self.records@)
    }
}

/// The value of a page has, record by record, the bytes and the slot.
pub proof fn law_page(page: HeapPage)
    ensures
        page@.len() == page.records@.len(),
        forall|i: int|
            0 <= i < page.records@.len() ==> (#[trigger] page@[i]).0 == page.records@[i].0@
                && page@[i].1 == page.records@[i].1,
{
}

impl HeapPage {
    /// An iterator over the records.
    pub fn into_iter(self) -> (r: HeapPageIntoIter)
        ensures
            r.inv(),
            r@ == self@,
    {
        let r = HeapPageIntoIter { records: self.records, position: 0 };
        assert(r@ =~= self@);
        r
    }
}

/// The records of a page that have not been taken.
#[derive(Debug)]
pub struct HeapPageIntoIter {
    records: Vec<(Vec<u8>, SlotId)>,
    position: usize,
}

impl View for HeapPageIntoIter {
    type V = Seq<(Seq<u8>, SlotId)>;

    closed spec fn view(&self) -> Seq<(Seq<u8>, SlotId)> {
        record_values(self.records@).skip(self.position as int)
    }
}

impl HeapPageIntoIter {
    /// No more records have been taken than there were.
    pub closed spec fn inv(&self) -> bool {
        self.position <= self.records.len()
    }

    /// Takes the next record.
    pub fn next(&mut self) -> (r: Option<(Vec<u8>, SlotId)>)
        requires
            old(self).inv(),
        ensures
            final(self).inv(),
            match r {
                Some((bytes, slot)) => {
                    &&& old(self)@.len() > 0
                    &&& old(self)@[0] == (bytes@, slot)
                    &&& final(self)@ == old(self)@.drop_first()
                },
                None => old(self)@.len() == 0 && final(self)@ == old(self)@,
            },
    {
        if self.position < self.records.len() {
            let mut bytes: Vec<u8> = Vec::new();
            std::mem::swap(&mut bytes, &mut self.records[self.position].0);
            let slot = self.records[self.position].1;
            self.position = self.position + 1;
            assert(self@ =~= old(self)@.drop_first());
            Some((bytes, slot))
        } else {
            None
        }
    }

    /// Leaves out the next `count` records, or all where there are fewer.
    pub fn skip(&mut self, count: SlotId)
        requires
            old(self).inv(),
        ensures
            final(self).inv(),
            final(self)@ == if count <= old(self)@.len() {
                old(self)@.skip(count as int)
            } else {
                Seq::empty()
            },
    {
        let mut done: SlotId = 0;
        assert(self@ =~= old(self)@.skip(0));
        while done < count
            invariant
                self.inv(),
                done <= count,
                done <= old(self)@.len(),
                self@ == old(self)@.skip(done as int),
            decreases count - done,
        {
            if self.next().is_none() {
                assert(self@ =~= Seq::empty());
                return;
            }
            assert(old(self)@.skip(done as int).drop_first() =~= old(self)@.skip(done + 1));
            done = done + 1;
        }
    }
}

} // verus!
