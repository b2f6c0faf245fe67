//! Physical memory as the page-table code sees it: whole pages of 64-bit words
//! starting at a page-aligned base address.
use vstd::prelude::*;

verus! {

/// Number of 64-bit words in one page.
pub const WORDS_PER_PAGE: usize = 512;

/// Physical addresses of Sv39 live below 2^56.
pub const PHYS_LIMIT: u64 = 0x0100_0000_0000_0000;

/// The abstract contents of physical memory.
#[verifier::ext_equal]
pub struct PhysView {
    /// Address of the first word.
    pub base: int,
    /// The words, in address order.
    pub words: Seq<u64>,
}

impl PhysView {
    pub open spec fn wf(self) -> bool {
        &&& self.base % 4096 == 0
        &&& 0 <= self.base
        &&& self.words.len() % 512 == 0
        &&& self.base + self.words.len() * 8 <= PHYS_LIMIT
        &&& self.base + self.words.len() * 8 <= usize::MAX
    }

    /// The page at `addr` lies wholly inside this memory.
    pub open spec fn holds_page(self, addr: int) -> bool {
        &&& addr % 4096 == 0
        &&& self.base <= addr
        &&& addr + 4096 <= self.base + self.words.len() * 8
    }

    /// Index in `words` of word `i` of the page at `addr`.
    pub open spec fn word_index(self, addr: int, i: int) -> int {
        (addr - self.base) / 8 + i
    }

    /// Word `i` of the page at `addr`.
    pub open spec fn page_word(self, addr: int, i: int) -> u64 {
        self.words[self.word_index(addr, i)]
    }

    /// The memory after word `i` of the page at `addr` is set to `w`.
    pub open spec fn write(self, addr: int, i: int, w: u64) -> PhysView {
        PhysView { words: self.words.update(self.word_index(addr, i), w), ..self }
    }

    /// The memory after the page at `addr` is filled with zeros.
    pub open spec fn zero_page(self, addr: int) -> PhysView {
        PhysView {
            words: Seq::new(
                self.words.len(),
                |k: int|
                    if self.word_index(addr, 0) <= k < self.word_index(addr, 512) {
                        0u64
                    } else {
                        self.words[k]
                    },
            ),
            ..self
        }
    }
}

/// Words of two different held pages are different words.
pub proof fn lemma_pages_disjoint(m: PhysView, a: int, b: int, i: int, j: int)
    requires
        m.wf(),
        m.holds_page(a),
        m.holds_page(b),
        a != b,
        0 <= i < 512,
        0 <= j < 512,
    ensures
        m.word_index(a, i) != m.word_index(b, j),
{
    let base = m.base;
    assert(m.word_index(a, i) != m.word_index(b, j)) by (nonlinear_arith)
        requires
            a % 4096 == 0,
            b % 4096 == 0,
            base % 4096 == 0,
            base <= a,
            base <= b,
            a != b,
            0 <= i < 512,
            0 <= j < 512,
            m.word_index(a, i) == (a - base) / 8 + i,
            m.word_index(b, j) == (b - base) / 8 + j,
    ;
}

/// The words of a held page lie inside the memory.
pub proof fn lemma_page_word_in_range(m: PhysView, a: int, i: int)
    requires
        m.wf(),
        m.holds_page(a),
        0 <= i < 512,
    ensures
        0 <= m.word_index(a, i) < m.words.len(),
{
    let base = m.base;
    let n = m.words.len();
    assert(0 <= m.word_index(a, i) < n) by (nonlinear_arith)
        requires
            a % 4096 == 0,
            base % 4096 == 0,
            base <= a,
            a + 4096 <= base + n * 8,
            0 <= i < 512,
            m.word_index(a, i) == (a - base) / 8 + i,
    ;
}

/// What a write of word `i` of page `a` does to word `j` of held page `b`.
pub proof fn lemma_write_effect(m: PhysView, a: int, i: int, w: u64, b: int, j: int)
    requires
        m.wf(),
        m.holds_page(a),
        m.holds_page(b),
        0 <= i < 512,
        0 <= j < 512,
    ensures
        m.write(a, i, w).wf(),
        m.write(a, i, w).page_word(b, j) == if a == b && i == j {
            w
        } else {
            m.page_word(b, j)
        },
{
    lemma_page_word_in_range(m, a, i);
    lemma_page_word_in_range(m, b, j);
    if a != b {
        lemma_pages_disjoint(m, a, b, i, j);
    }
}

/// What zeroing page `a` does to word `j` of held page `b`.
pub proof fn lemma_zero_effect(m: PhysView, a: int, b: int, j: int)
    requires
        m.wf(),
        m.holds_page(a),
        m.holds_page(b),
        0 <= j < 512,
    ensures
        m.zero_page(a).wf(),
        m.zero_page(a).page_word(b, j) == if a == b {
            0
        } else {
            m.page_word(b, j)
        },
{
    lemma_page_word_in_range(m, b, j);
    if a != b {
        let base = m.base;
        let k = m.word_index(b, j);
        let lo = m.word_index(a, 0);
        let hi = m.word_index(a, 512);
        assert(!(lo <= k < hi)) by (nonlinear_arith)
            requires
                a % 4096 == 0,
                b % 4096 == 0,
                base % 4096 == 0,
                base <= a,
                base <= b,
                a != b,
                0 <= j < 512,
                k == (b - base) / 8 + j,
                lo == (a - base) / 8 + 0,
                hi == (a - base) / 8 + 512,
        ;
    }
}

/// Physical memory: `words.len() / 512` whole pages starting at `base`.
pub struct PhysMemory {
    base: usize,
    words: Vec<u64>,
}

impl View for PhysMemory {
    type V = PhysView;

    closed spec fn view(&self) -> PhysView {
        PhysView { base: self.base as int, words: self.words@ }
    }
}

impl PhysMemory {
    /// Zero-filled memory of `pages` pages starting at `base`.
    pub fn new(base: usize, pages: usize) -> (m: Self)
        requires
            base % 4096 == 0,
            base + pages * 4096 <= PHYS_LIMIT,
            base + pages * 4096 <= usize::MAX,
        ensures
            m@.wf(),
            m@.base == base,
            m@.words.len() == pages * 512,
            forall|k: int| 0 <= k < pages * 512 ==> m@.words[k] == 0,
    {
        let n = pages * WORDS_PER_PAGE;
        let words: Vec<u64> = vec![0u64; n];
        PhysMemory { base, words }
    }

    /// Memory whose pages starting at `base` hold `words`, 512 words a page.
    pub fn from_words(base: usize, words: Vec<u64>) -> (m: Self)
        requires
            base % 4096 == 0,
            words@.len() % 512 == 0,
            base + words@.len() * 8 <= PHYS_LIMIT,
            base + words@.len() * 8 <= usize::MAX,
        ensures
            m@.wf(),
            m@ == (PhysView { base: base as int, words: words@ }),
    {
        PhysMemory { base, words }
    }

    /// Address of the first word.
    pub fn base(&self) -> (r: usize)
        ensures
            r == self@.base,
    {
        self.base
    }

    /// Number of whole pages.
    pub fn pages(&self) -> (r: usize)
        requires
            self@.wf(),
        ensures
            r * 512 == self@.words.len(),
    {
        self.words.len() / WORDS_PER_PAGE
    }

    /// Whether the page at `addr` lies wholly inside this memory.
    pub fn holds_page(&self, addr: usize) -> (r: bool)
        requires
            self@.wf(),
        ensures
            r == self@.holds_page(addr as int),
    {
        addr % 4096 == 0 && self.base <= addr && (addr - self.base) / 8 + WORDS_PER_PAGE
            <= self.words.len()
    }

    /// Word `i` of the page at `addr`.
    pub fn read(&self, addr: usize, i: usize) -> (r: u64)
        requires
            self@.wf(),
            self@.holds_page(addr as int),
            i < 512,
        ensures
            r == self@.page_word(addr as int, i as int),
    {
        self.words[(addr - self.base) / 8 + i]
    }

    /// Set word `i` of the page at `addr` to `w`.
    pub fn write(&mut self, addr: usize, i: usize, w: u64)
        requires
            old(self)@.wf(),
            old(self)@.holds_page(addr as int),
            i < 512,
        ensures
            final(self)@ == old(self)@.write(addr as int, i as int, w),
            final(self)@.wf(),
    {
        let k = (addr - self.base) / 8 + i;
        self.words.set(k, w);
    }

    /// Fill the page at `addr` with zeros.
    pub fn zero_page(&mut self, addr: usize)
        requires
            old(self)@.wf(),
            old(self)@.holds_page(addr as int),
        ensures
            final(self)@ == old(self)@.zero_page(addr as int),
            final(self)@.wf(),
    {
        let ghost v = self@;
        let first = (addr - self.base) / 8;
        let mut i: usize = 0;
        while i < WORDS_PER_PAGE
            invariant
                v.wf(),
                v.holds_page(addr as int),
                first == v.word_index(addr as int, 0),
                i <= 512,
                self@.base == v.base,
                self@.words.len() == v.words.len(),
                forall|k: int|
                    0 <= k < v.words.len() ==> #[trigger] self@.words[k] == if first <= k < first
                        + i {
                        0u64
                    } else {
                        v.words[k]
                    },
            decreases 512 - i,
        {
            self.words.set(first + i, 0);
            i = i + 1;
        }
        assert(self@ =~= v.zero_page(addr as int));
    }
}

} // verus!
