//! Page-addressed storage beneath the pager, and an in-memory one.

use crate::layout::{zeros, PAGE_SIZE};
use vstd::prelude::*;

verus! {

/// A page-addressed byte store beneath the pager, holding pages 0 to n - 1.
pub trait Storage {
    /// The pages held, in order.
    spec fn pages(&self) -> Seq<Seq<u8>>;

    /// The store is in a state its operations accept.
    spec fn inv(&self) -> bool;

    /// Every page held is `PAGE_SIZE` bytes.
    proof fn lemma_whole_pages(&self)
        requires
            self.inv(),
        ensures
            forall|i: int| 0 <= i < self.pages().len() ==> (#[trigger] self.pages()[i]).len() == PAGE_SIZE,
    ;

    /// Total byte length of the store.
    fn size(&mut self) -> (r: u64)
        requires
            old(self).inv(),
        ensures
            final(self).inv(),
            final(self).pages() == old(self).pages(),
            r as int == old(self).pages().len() * PAGE_SIZE,
    ;

    /// Fills `buf` with a page's bytes; a page past the end leaves `buf` as it was.
    fn read(&mut self, page_num: usize, buf: &mut [u8])
        requires
            old(self).inv(),
            old(buf)@.len() == PAGE_SIZE,
        ensures
            final(self).inv(),
            final(self).pages() == old(self).pages(),
            page_num < old(self).pages().len() ==> final(buf)@ == old(self).pages()[page_num as int],
            page_num >= old(self).pages().len() ==> final(buf)@ == old(buf)@,
    ;

    /// Overwrites the start of a page with `buf`, first adding zero pages up to it.
    fn write(&mut self, page_num: usize, buf: &[u8])
        requires
            old(self).inv(),
            buf@.len() <= PAGE_SIZE,
            (page_num + 1) * PAGE_SIZE <= u64::MAX,
        ensures
            final(self).inv(),
            final(self).pages() == written(old(self).pages(), page_num as int, buf@),
    ;
}

/// Opens a store by name; the same name gives the same store again.
pub trait StorageFactory<'a, S: Storage + 'a> {
    /// The factory can open its stores.
    spec fn inv(&self) -> bool;

    /// The pages kept under `name`; none for a name never opened.
    spec fn stored(&self, name: Seq<char>) -> Seq<Seq<u8>>;

    /// The store kept under `filename`.
    fn open(&'a mut self, filename: &'a str) -> (r: S)
        requires
            old(self).inv(),
        ensures
            r.inv(),
            r.pages() == old(self).stored(filename@),
    ;
}

/// The pages after `data` was written at the start of page `n`.
pub open spec fn written(pages: Seq<Seq<u8>>, n: int, data: Seq<u8>) -> Seq<Seq<u8>> {
    let padded = if n < pages.len() {
        pages
    } else {
        pages + Seq::new((n + 1 - pages.len()) as nat, |i: int| zeros(PAGE_SIZE as nat))
    };
    padded.update(n, data + padded[n].subrange(data.len() as int, PAGE_SIZE as int))
}

/// Every page is `PAGE_SIZE` bytes.
pub open spec fn whole_pages(pages: Seq<Vec<u8>>) -> bool {
    forall|i: int| 0 <= i < pages.len() ==> (#[trigger] pages[i])@.len() == PAGE_SIZE
}

/// Storage in memory, borrowed from the factory that keeps it between openings. Its operations
/// keep the borrow's final value: what it holds when dropped is what the factory keeps.
pub struct InMemoryStorage<'a> {
    pub pages: &'a mut Vec<Vec<u8>>,
}

impl<'a> Storage for InMemoryStorage<'a> {
    open spec fn pages(&self) -> Seq<Seq<u8>> {
        self.pages@.map_values(|p: Vec<u8>| p@)
    }

    open spec fn inv(&self) -> bool {
        &&& whole_pages(self.pages@)
        &&& self.pages@.len() * PAGE_SIZE <= u64::MAX
    }

    proof fn lemma_whole_pages(&self) {
        assert forall|i: int| 0 <= i < self.pages().len() implies (#[trigger] self.pages()[i]).len() == PAGE_SIZE by {
            assert(self.pages@[i]@.len() == PAGE_SIZE);
        }
    }

    fn size(&mut self) -> (r: u64)
        ensures
            *final(final(self).pages) == *final(old(self).pages),
    {
        (self.pages.len() as u64) * (PAGE_SIZE as u64)
    }

    fn read(&mut self, page_num: usize, buf: &mut [u8])
        ensures
            *final(final(self).pages) == *final(old(self).pages),
    {
        if page_num < self.pages.len() {
            let page = &self.pages[page_num];
            let mut i: usize = 0;
            while i < PAGE_SIZE
                invariant
                    0 <= i <= PAGE_SIZE,
                    page@.len() == PAGE_SIZE,
                    buf@.len() == PAGE_SIZE,
                    forall|k: int| 0 <= k < i ==> buf@[k] == page@[k],
                decreases PAGE_SIZE - i,
            {
                buf[i] = page[i];
                i = i + 1;
            }
            assert(buf@ =~= page@);
        }
    }

    fn write(&mut self, page_num: usize, buf: &[u8])
        ensures
            *final(final(self).pages) == *final(old(self).pages),
    {
        let ghost old_pages = self.pages();
        let ghost tail = Seq::new((page_num + 1 - old_pages.len()) as nat, |i: int| zeros(PAGE_SIZE as nat));
        let ghost padded = if page_num < old_pages.len() {
            old_pages
        } else {
            old_pages + tail
        };
        proof {
            assert forall|k: int| 0 <= k < self.pages@.len() implies (#[trigger] self.pages@[k])@ == padded[k] by {
                assert(old_pages[k] == self.pages@[k]@);
            }
        }
        while self.pages.len() <= page_num
            invariant
                *final(self.pages) == *final(old(self).pages),
                whole_pages(self.pages@),
                old_pages.len() <= self.pages@.len() <= padded.len(),
                padded.len() >= page_num + 1,
                page_num >= old_pages.len() ==> padded == old_pages + tail,
                tail == Seq::new((page_num + 1 - old_pages.len()) as nat, |i: int| zeros(PAGE_SIZE as nat)),
                forall|k: int| 0 <= k < self.pages@.len() ==> (#[trigger] self.pages@[k])@ == padded[k],
            decreases page_num + 1 - self.pages@.len(),
        {
            let zero_page = vec![0u8; PAGE_SIZE];
            assert(zero_page@ =~= zeros(PAGE_SIZE as nat));
            let ghost n = self.pages@.len();
            assert(page_num >= old_pages.len());
            assert(padded == old_pages + tail);
            assert(tail[n - old_pages.len()] == zeros(PAGE_SIZE as nat));
            assert(padded[n as int] == zeros(PAGE_SIZE as nat));
            self.pages.push(zero_page);
        }
        let mut page: Vec<u8> = Vec::new();
        self.pages.set_and_swap(page_num, &mut page);
        let ghost before = page@;
        let mut i: usize = 0;
        while i < buf.len()
            invariant
                *final(self.pages) == *final(old(self).pages),
                0 <= i <= buf@.len() <= PAGE_SIZE,
                page@.len() == PAGE_SIZE,
                before.len() == PAGE_SIZE,
                forall|k: int| 0 <= k < i ==> page@[k] == buf@[k],
                forall|k: int| i <= k < PAGE_SIZE ==> page@[k] == before[k],
            decreases buf@.len() - i,
        {
            page.set(i, buf[i]);
            i = i + 1;
        }
        self.pages.set(page_num, page);
        proof {
            assert(page@ =~= buf@ + before.subrange(buf@.len() as int, PAGE_SIZE as int));
            assert(self.pages() =~= written(old_pages, page_num as int, buf@));
        }
    }
}


/// Stores in memory by name, kept between openings: a store that an `InMemoryStorage` borrowed
/// holds what was written through it once that borrow ends.
pub struct InMemoryStorageFactory {
    names: Vec<String>,
    stores: Vec<Vec<Vec<u8>>>,
}

impl InMemoryStorageFactory {
    /// One store per name, each of whole pages.
    pub closed spec fn wf(&self) -> bool {
        &&& self.names@.len() == self.stores@.len()
        &&& forall|i: int, j: int|
            0 <= i < self.names@.len() && 0 <= j < self.names@.len() && i != j ==> self.names@[i]@
                != self.names@[j]@
        &&& forall|i: int|
            0 <= i < self.stores@.len() ==> whole_pages((#[trigger] self.stores@[i])@)
                && self.stores@[i]@.len() * PAGE_SIZE <= u64::MAX
    }

    /// The pages kept under `name`.
    pub closed spec fn stored_pages(&self, name: Seq<char>) -> Seq<Seq<u8>> {
        if exists|i: int| 0 <= i < self.names@.len() && self.names@[i]@ == name {
            let i = choose|i: int| 0 <= i < self.names@.len() && self.names@[i]@ == name;
            self.stores@[i]@.map_values(|p: Vec<u8>| p@)
        } else {
            Seq::empty()
        }
    }

    /// Lends store `i`; the factory keeps what the borrow holds at its end.
    fn borrow_store<'a>(&'a mut self, i: usize) -> (r: InMemoryStorage<'a>)
        requires
            i < old(self).stores@.len(),
        ensures
            *r.pages == old(self).stores@[i as int],
            final(self).stores@ == old(self).stores@.update(i as int, *final(r.pages)),
            final(self).names == old(self).names,
    {
        InMemoryStorage { pages: &mut self.stores[i] }
    }

    /// Once store `i`, kept under `name`, is replaced, `name` gives the new store and every
    /// other name what it gave before.
    proof fn lemma_stored_after_borrow(before: Self, i: int, name: Seq<char>)
        requires
            before.wf(),
            0 <= i < before.names@.len(),
            before.names@[i]@ == name,
        ensures
            forall|after: Self|
                after.names == before.names && after.stores@.len() == before.stores@.len() && (
                forall|k: int| 0 <= k < before.stores@.len() && k != i ==> after.stores@[k]
                    == before.stores@[k]) ==> #[trigger] after.stored_pages(name)
                    == after.stores@[i]@.map_values(|p: Vec<u8>| p@)
                    && forall|other: Seq<char>|
                    other != name ==> #[trigger] after.stored_pages(other) == before.stored_pages(
                        other,
                    ),
    {
        assert forall|after: Self|
            after.names == before.names && after.stores@.len() == before.stores@.len() && (
            forall|k: int| 0 <= k < before.stores@.len() && k != i ==> after.stores@[k]
                == before.stores@[k]) implies #[trigger] after.stored_pages(name)
                == after.stores@[i]@.map_values(|p: Vec<u8>| p@)
                && forall|other: Seq<char>|
                other != name ==> #[trigger] after.stored_pages(other) == before.stored_pages(
                    other,
                ) by {
            let k = choose|k: int| 0 <= k < after.names@.len() && after.names@[k]@ == name;
            assert(k == i);
            assert forall|other: Seq<char>| other != name implies #[trigger] after.stored_pages(other)
                == before.stored_pages(other) by {
                if exists|k: int| 0 <= k < before.names@.len() && before.names@[k]@ == other {
                    let k = choose|k: int| 0 <= k < before.names@.len() && before.names@[k]@ == other;
                    assert(k != i);
                    assert(after.stores@[k] == before.stores@[k]);
                }
            }
        }
    }

    /// A factory with no stores: every name gives an empty store.
    pub fn new() -> (r: Self)
        ensures
            r.wf(),
            forall|name: Seq<char>| #[trigger] r.stored_pages(name) == Seq::<Seq<u8>>::empty(),
    {
        InMemoryStorageFactory { names: Vec::new(), stores: Vec::new() }
    }
}

impl<'a> StorageFactory<'a, InMemoryStorage<'a>> for InMemoryStorageFactory {
    open spec fn inv(&self) -> bool {
        self.wf()
    }

    open spec fn stored(&self, name: Seq<char>) -> Seq<Seq<u8>> {
        self.stored_pages(name)
    }

    fn open(&'a mut self, filename: &'a str) -> (r: InMemoryStorage<'a>)
        ensures
            final(self).stored_pages(filename@) == (*final(r.pages))@.map_values(|p: Vec<u8>| p@),
            forall|name: Seq<char>|
                name != filename@ ==> #[trigger] final(self).stored_pages(name) == old(self).stored_pages(
                    name,
                ),
            whole_pages((*final(r.pages))@) && (*final(r.pages))@.len() * PAGE_SIZE <= u64::MAX
                ==> final(self).wf(),
    {
        let name = filename.to_owned();
        let n = self.names.len();
        let mut found: usize = n;
        let mut k: usize = 0;
        while k < n
            invariant
                self.wf(),
                self == old(self),
                n == self.names@.len(),
                name@ == filename@,
                0 <= k <= n,
                found == n ==> forall|j: int| 0 <= j < k ==> self.names@[j]@ != name@,
                found < n ==> self.names@[found as int]@ == name@,
                found <= n,
            decreases n - k,
        {
            if found == n && self.names[k] == name {
                found = k;
            }
            k = k + 1;
        }
        let i = found;
        if i == self.names.len() {
            proof {
                assert(!(exists|k: int| 0 <= k < self.names@.len() && self.names@[k]@ == filename@));
            }
            self.names.push(name);
            self.stores.push(Vec::new());
            proof {
                assert forall|other: Seq<char>| other != filename@ implies #[trigger] self.stored_pages(
                    other,
                ) == old(self).stored_pages(other) by {
                    if exists|k: int| 0 <= k < old(self).names@.len() && old(self).names@[k]@ == other {
                        let k = choose|k: int| 0 <= k < old(self).names@.len() && old(self).names@[k]@ == other;
                        assert(self.names@[k] == old(self).names@[k]);
                        let k2 = choose|k2: int| 0 <= k2 < self.names@.len() && self.names@[k2]@ == other;
                        assert(k2 == k);
                    } else {
                        if exists|k: int| 0 <= k < self.names@.len() && self.names@[k]@ == other {
                            let k = choose|k: int| 0 <= k < self.names@.len() && self.names@[k]@ == other;
                            assert(k < old(self).names@.len());
                            assert(self.names@[k] == old(self).names@[k]);
                        }
                    }
                }
            }
            assert(whole_pages(self.stores@[i as int]@));
            assert(self.stores@[i as int]@.map_values(|p: Vec<u8>| p@) =~= Seq::<Seq<u8>>::empty());
        } else {
            proof {
                let k = choose|k: int| 0 <= k < self.names@.len() && self.names@[k]@ == filename@;
                assert(k == i);
            }
        }
        assert(whole_pages(self.stores@[i as int]@));
        proof {
            InMemoryStorageFactory::lemma_stored_after_borrow(*self, i as int, filename@);
        }
        self.borrow_store(i)
    }
}

} // verus!
