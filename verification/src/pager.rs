//! The page store: a file image held as bytes, read page by page into an
//! in-memory cache on demand.
//!
//! The store owns two things: the byte image of the backing file as it was
//! handed in at open (and as flushes rewrite it), and the cache of pages
//! loaded so far.  Once a page is cached the cache is authoritative: nothing
//! re-reads the file for it, and writes stored back into the cache are seen
//! by every later read.  Flushing copies one cached page back into the file
//! image; the caller persists the image when the table closes.

use vstd::prelude::*;
use vstd::slice::slice_to_vec;
use crate::data_consts::{PAGE_SIZE, TABLE_MAX_PAGES};

verus! {

/// The typed failures of the page store.
#[derive(Debug, PartialEq, Eq, Structural, Clone, Copy)]
pub enum PagerError {
    /// A page number at or past the fixed page capacity.
    Bounds,
    /// A file whose length is not a whole number of pages.
    Corruption,
    /// A flush of a page that was never loaded: there is nothing to write.
    PageMissing,
}

/// The 4096 bytes page `n` of a file holds: the file's bytes at
/// `n * PAGE_SIZE`, zero-filled past the end of the file.
pub open spec fn spec_file_page(file: Seq<u8>, n: int) -> Seq<u8>
    recommends
        n >= 0,
{
    Seq::new(
        PAGE_SIZE as nat,
        |i: int| if n * PAGE_SIZE + i < file.len() { file[n * PAGE_SIZE + i] } else { 0u8 },
    )
}

/// The page store.
pub struct Pager {
    /// The byte image of the backing file.
    pub file_contents: Vec<u8>,
    /// The file's length, always in step with `file_contents`.
    pub file_length: u64,
    /// How many pages the store tracks: grows when a page past the end is
    /// first touched, never shrinks.
    pub num_pages: usize,
    /// The cache, one slot per possible page number.
    pub pages: Vec<Option<Vec<u8>>>,
}

impl Pager {
    /// The store's internal invariant: a full-size slot table, a file image
    /// of whole pages, and every cached page full-size and inside the
    /// tracked page count.
    pub open spec fn wf(self) -> bool {
        &&& self.pages@.len() == TABLE_MAX_PAGES
        &&& self.file_length == self.file_contents@.len()
        &&& self.file_contents@.len() as int % (PAGE_SIZE as int) == 0
        &&& forall|i: int|
            0 <= i < TABLE_MAX_PAGES ==> (#[trigger] self.pages@[i] matches Some(p) ==> p@.len()
                == PAGE_SIZE && i < self.num_pages)
    }

    /// What page `n` effectively holds: the cached buffer once loaded, the
    /// file's bytes (zero-filled past its end) before that.
    pub open spec fn page_view(self, n: int) -> Seq<u8>
        recommends
            0 <= n < TABLE_MAX_PAGES,
    {
        match self.pages@[n] {
            Some(p) => p@,
            None => spec_file_page(self.file_contents@, n),
        }
    }

    /// Takes charge of a file's bytes, rejecting a file that is not a whole
    /// number of pages.  No page is read yet: the cache starts empty.
    pub fn pager_open(file_contents: Vec<u8>) -> (r: Result<Pager, PagerError>)
        ensures
            r is Ok <==> file_contents@.len() as int % (PAGE_SIZE as int) == 0,
            r is Err ==> r == Err::<Pager, PagerError>(PagerError::Corruption),
            r matches Ok(p) ==> {
                &&& p.wf()
                &&& p.file_contents@ == file_contents@
                &&& p.num_pages == file_contents@.len() as int / (PAGE_SIZE as int)
                &&& forall|i: int| 0 <= i < TABLE_MAX_PAGES ==> p.pages@[i] is None
            },
    {
        let file_length = file_contents.len();
        if file_length % PAGE_SIZE != 0 {
            // The tail of the file is a fraction of a page: corrupt.
            return Err(PagerError::Corruption);
        }
        let num_pages = file_length / PAGE_SIZE;

        let mut pages: Vec<Option<Vec<u8>>> = Vec::new();
        let mut i: usize = 0;
        while i < TABLE_MAX_PAGES
            invariant
                i <= TABLE_MAX_PAGES,
                pages@.len() == i,
                forall|j: int| 0 <= j < i ==> pages@[j] is None,
            decreases TABLE_MAX_PAGES - i,
        {
            pages.push(None);
            i = i + 1;
        }

        Ok(Pager { file_contents, file_length: file_length as u64, num_pages, pages })
    }

    /// Hands out a copy of page `page_num`, loading it into the cache first
    /// if this is its first access.  A page past the file's extent reads as
    /// zeros.  Tracks the page count past the highest page touched.
    pub fn get_page(&mut self, page_num: usize) -> (r: Result<Vec<u8>, PagerError>)
        requires
            old(self).wf(),
        ensures
            final(self).wf(),
            r is Err <==> page_num >= TABLE_MAX_PAGES,
            r is Err ==> *final(self) == *old(self) && r == Err::<Vec<u8>, PagerError>(
                PagerError::Bounds,
            ),
            r matches Ok(page) ==> {
                &&& page@.len() == PAGE_SIZE
                &&& page@ == old(self).page_view(page_num as int)
                &&& final(self).file_contents@ == old(self).file_contents@
                &&& final(self).pages@[page_num as int] matches Some(q) && q@ == page@
                &&& forall|i: int|
                    0 <= i < TABLE_MAX_PAGES ==> final(self).page_view(i) == old(self).page_view(i)
                &&& forall|i: int|
                    0 <= i < TABLE_MAX_PAGES && i != page_num ==> final(self).pages@[i] == old(
                        self,
                    ).pages@[i]
                &&& final(self).num_pages as int == if page_num >= old(self).num_pages {
                    page_num + 1
                } else {
                    old(self).num_pages as int
                }
            },
    {
        if page_num >= TABLE_MAX_PAGES {
            return Err(PagerError::Bounds);
        }
        let ghost old_self = *self;

        if self.pages[page_num].is_none() {
            // Cache miss: build the page from the file image, zero-filling
            // past the end of the file.
            let mut page: Vec<u8> = Vec::new();
            let file_len = self.file_contents.len();
            let mut k: usize = 0;
            while k < PAGE_SIZE
                invariant
                    k <= PAGE_SIZE,
                    page@.len() == k,
                    forall|j: int| 0 <= j < k ==> page@[j] == spec_file_page(
                        self.file_contents@,
                        page_num as int,
                    )[j],
                    self.file_contents@.len() == file_len,
                    page_num < TABLE_MAX_PAGES,
                decreases PAGE_SIZE - k,
            {
                let offset = page_num * PAGE_SIZE + k;
                if offset < self.file_contents.len() {
                    let b = self.file_contents[offset];
                    page.push(b);
                } else {
                    page.push(0);
                }
                k = k + 1;
            }
            proof {
                assert(page@ =~= spec_file_page(self.file_contents@, page_num as int));
            }

            if page_num >= self.num_pages {
                self.num_pages = page_num + 1;
            }
            self.pages[page_num] = Some(page);
        }

        match &self.pages[page_num] {
            Some(p) => {
                let out = slice_to_vec(p.as_slice());
                proof {
                    assert forall|i: int| 0 <= i < TABLE_MAX_PAGES implies self.page_view(i)
                        == old_self.page_view(i) by {
                        if i != page_num {
                            assert(self.pages@[i] == old_self.pages@[i]);
                        }
                    }
                }
                Ok(out)
            },
            None => {
                // The slot was just filled on a miss and is never taken out:
                // this arm is unreachable, and the bounds error it reports
                // cannot escape a well-formed store.
                proof {
                    assert(false);
                }
                Err(PagerError::Bounds)
            },
        }
    }

    /// Stores a caller-modified copy of a page back into the cache slot it
    /// was read from.
    pub fn write_page(&mut self, page_num: usize, page: Vec<u8>)
        requires
            old(self).wf(),
            page_num < TABLE_MAX_PAGES,
            page@.len() == PAGE_SIZE,
            old(self).pages@[page_num as int] is Some,
        ensures
            final(self).wf(),
            final(self).file_contents@ == old(self).file_contents@,
            final(self).num_pages == old(self).num_pages,
            final(self).page_view(page_num as int) == page@,
            forall|i: int|
                0 <= i < TABLE_MAX_PAGES && i != page_num ==> final(self).pages@[i] == old(
                    self,
                ).pages@[i] && final(self).page_view(i) == old(self).page_view(i),
    {
        self.pages[page_num] = Some(page);
    }

    /// Writes cached page `page_num` back into the file image at its
    /// offset, zero-filling any gap if the file was shorter.  Fails if the
    /// page was never loaded: there is nothing to flush.
    pub fn pager_flush(&mut self, page_num: usize) -> (r: Result<(), PagerError>)
        requires
            old(self).wf(),
        ensures
            final(self).wf(),
            r is Err <==> (page_num >= TABLE_MAX_PAGES || old(self).pages@[page_num as int]
                is None),
            r is Err ==> *final(self) == *old(self),
            r is Err ==> r == Err::<(), PagerError>(
                if page_num >= TABLE_MAX_PAGES {
                    PagerError::Bounds
                } else {
                    PagerError::PageMissing
                },
            ),
            r is Ok ==> {
                &&& final(self).pages@ == old(self).pages@
                &&& final(self).num_pages == old(self).num_pages
                &&& final(self).file_contents@.len() as int
                    == if old(self).file_contents@.len() >= (page_num + 1) * PAGE_SIZE {
                        old(self).file_contents@.len() as int
                    } else {
                        (page_num + 1) * PAGE_SIZE
                    }
                &&& forall|k: int|
                    0 <= k < old(self).file_contents@.len()
                        && !(page_num * PAGE_SIZE <= k < (page_num + 1) * PAGE_SIZE)
                        ==> final(self).file_contents@[k] == old(self).file_contents@[k]
                &&& forall|k: int|
                    old(self).file_contents@.len() <= k < final(self).file_contents@.len()
                        && !(page_num * PAGE_SIZE <= k < (page_num + 1) * PAGE_SIZE)
                        ==> final(self).file_contents@[k] == 0u8
                &&& spec_file_page(final(self).file_contents@, page_num as int) == old(
                    self,
                ).page_view(page_num as int)
                &&& forall|m: int|
                    m >= 0 && m != page_num ==> spec_file_page(final(self).file_contents@, m)
                        == spec_file_page(old(self).file_contents@, m)
                &&& forall|m: int|
                    0 <= m < TABLE_MAX_PAGES ==> final(self).page_view(m) == old(self).page_view(m)
            },
    {
        if page_num >= TABLE_MAX_PAGES {
            return Err(PagerError::Bounds);
        }
        if self.pages[page_num].is_none() {
            return Err(PagerError::PageMissing);
        }
        let ghost old_self = *self;
        let offset = page_num * PAGE_SIZE;

        // Zero-fill up to the end of this page's span if the file image is
        // shorter: a write past the end of a file fills the gap with zeros.
        while self.file_contents.len() < offset + PAGE_SIZE
            invariant
                offset == page_num * PAGE_SIZE,
                page_num < TABLE_MAX_PAGES,
                self.file_contents@.len() >= old(self).file_contents@.len(),
                self.pages@ == old(self).pages@,
                self.num_pages == old(self).num_pages,
                self.file_length == old(self).file_length,
                forall|k: int|
                    0 <= k < old(self).file_contents@.len() ==> self.file_contents@[k] == old(
                        self,
                    ).file_contents@[k],
                forall|k: int|
                    old(self).file_contents@.len() <= k < self.file_contents@.len()
                        ==> self.file_contents@[k] == 0u8,
                old(self).file_contents@.len() < offset + PAGE_SIZE
                    ==> self.file_contents@.len() <= offset + PAGE_SIZE,
                old(self).file_contents@.len() >= offset + PAGE_SIZE
                    ==> self.file_contents@.len() == old(self).file_contents@.len(),
            decreases offset + PAGE_SIZE - self.file_contents@.len(),
        {
            self.file_contents.push(0);
        }

        let ghost extended = self.file_contents@;
        proof {
            assert(forall|k: int|
                0 <= k < old(self).file_contents@.len() ==> extended[k] == old(
                    self,
                ).file_contents@[k]);
            assert(forall|k: int|
                old(self).file_contents@.len() <= k < extended.len() ==> extended[k] == 0u8);
        }

        // Copy the cached page over its span.
        match &self.pages[page_num] {
            Some(p) => {
                let mut k: usize = 0;
                while k < PAGE_SIZE
                    invariant
                        k <= PAGE_SIZE,
                        offset == page_num * PAGE_SIZE,
                        page_num < TABLE_MAX_PAGES,
                        self.pages@ == old(self).pages@,
                        self.num_pages == old(self).num_pages,
                        self.file_length == old(self).file_length,
                        p@.len() == PAGE_SIZE,
                        self.file_contents@.len() == extended.len(),
                        offset + PAGE_SIZE <= extended.len() <= usize::MAX,
                        forall|j: int|
                            0 <= j < extended.len() && !(offset <= j < offset + PAGE_SIZE)
                                ==> self.file_contents@[j] == extended[j],
                        forall|j: int| 0 <= j < k ==> self.file_contents@[offset + j] == p@[j],
                        forall|j: int|
                            k <= j < PAGE_SIZE ==> #[trigger] self.file_contents@[offset + j]
                                == extended[offset + j],
                    decreases PAGE_SIZE - k,
                {
                    let b = p[k];
                    self.file_contents[offset + k] = b;
                    k = k + 1;
                }
            },
            None => {
                proof {
                    assert(false);
                }
            },
        }

        self.file_length = self.file_contents.len() as u64;

        proof {
            let old_file = old_self.file_contents@;
            let new_file = self.file_contents@;
            let n = page_num as int;
            assert(new_file.len() as int == if old_file.len() >= (n + 1) * PAGE_SIZE {
                old_file.len() as int
            } else {
                (n + 1) * PAGE_SIZE
            });
            vstd::arithmetic::div_mod::lemma_mod_multiples_basic(n + 1, PAGE_SIZE as int);
            assert(new_file.len() as int % (PAGE_SIZE as int) == 0);

            assert(spec_file_page(new_file, n) =~= old_self.page_view(n));

            assert forall|k: int|
                0 <= k < old_file.len() && !(n * PAGE_SIZE <= k < (n + 1) * PAGE_SIZE) implies
                new_file[k] == old_file[k] by {
                assert(new_file[k] == extended[k]);
            }
            assert forall|k: int|
                old_file.len() <= k < new_file.len() && !(n * PAGE_SIZE <= k < (n + 1)
                    * PAGE_SIZE) implies new_file[k] == 0u8 by {
                assert(new_file[k] == extended[k]);
            }

            assert forall|m: int| m >= 0 && m != n implies spec_file_page(
                new_file,
                m,
            ) =~= spec_file_page(old_file, m) by {
                assert forall|i: int| 0 <= i < PAGE_SIZE implies spec_file_page(new_file, m)[i]
                    == spec_file_page(old_file, m)[i] by {
                    let pos = m * PAGE_SIZE + i;
                    if m < n {
                        assert(pos < n * PAGE_SIZE);
                    } else {
                        assert(pos >= (n + 1) * PAGE_SIZE);
                    }
                    if pos < old_file.len() {
                        assert(new_file[pos] == extended[pos]);
                        assert(new_file[pos] == old_file[pos]);
                    } else if pos < new_file.len() {
                        assert(new_file[pos] == extended[pos]);
                        assert(extended[pos] == 0u8);
                    }
                }
            }

            assert(self.pages@[n] is Some);
            assert forall|m: int| 0 <= m < TABLE_MAX_PAGES implies self.page_view(m)
                == old_self.page_view(m) by {
                if self.pages@[m] is None {
                    assert(m != n);
                    assert(spec_file_page(new_file, m) == spec_file_page(old_file, m));
                }
            }
        }
        Ok(())
    }
}

} // verus!
