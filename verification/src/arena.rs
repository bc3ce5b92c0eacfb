//! The allocator itself: a fixed arena of `LENGTH` bytes at a base address
//! chosen at construction, carved into `PAGE_SIZE`-byte pages, with all
//! bookkeeping held inside the arena.
//!
//! The arena's bytes are modelled as a vector of 8-byte words; every address
//! the allocator stores or returns is an absolute byte address in
//! `[base, base + LENGTH)`, and word `n` of the model stands for the 8 bytes
//! at `base + 8 * n`. The ghost fields mirror the state the bookkeeping words
//! encode: what each page is used for, which blocks sit on each intrusive
//! free list, and which small blocks are currently handed out.

use vstd::prelude::*;

verus! {

use vstd::arithmetic::power2::pow2;
use vstd::arithmetic::div_mod::{
    lemma_fundamental_div_mod,
    lemma_mod_multiples_basic,
    lemma_mod_bound,
    lemma_div_is_ordered,
    lemma_div_is_ordered_by_denominator,
    lemma_div_pos_is_pos,
    lemma_div_multiples_vanish,
    lemma_multiply_divide_lt,
};
use vstd::arithmetic::mul::{
    lemma_mul_inequality,
    lemma_mul_is_commutative,
    lemma_mul_is_distributive_add,
    lemma_mul_is_distributive_sub,
    lemma_mul_strict_inequality,
};
use crate::bits::{clog2, round_up_log2};
use crate::config::{
    levels,
    page_count,
    block_size,
    header_words,
    surplus_offset,
    valid_config,
    lemma_config_properties,
    lemma_divides_transitive,
};

/// What a page is currently used for.
pub enum PageState {
    /// Not in use.
    Free,
    /// Subdivided into equal blocks of size class `level`; never leaves this
    /// state.
    Slab { level: nat },
    /// Member of the multi-page block that covers pages
    /// `[start, start + len)`.
    Run { start: int, len: nat },
}

/// The fixed-region allocator over an arena of `LENGTH` bytes, with minimum
/// block size `MIN` and page size `PAGE_SIZE`.
pub struct Smalloc<const LENGTH: usize, const MIN: usize, const PAGE_SIZE: usize> {
    /// Base address of the arena.
    pub(crate) base: usize,
    /// The arena's bytes, as 8-byte words.
    pub(crate) mem: Vec<usize>,
    /// What each page is used for.
    pub(crate) pages: Ghost<Seq<PageState>>,
    /// The blocks on each size class's intrusive free list, head first.
    pub(crate) free_lists: Ghost<Seq<Seq<usize>>>,
    /// The sub-page blocks currently handed out, each with its size class.
    pub(crate) live: Ghost<Map<usize, nat>>,
}

impl<const LENGTH: usize, const MIN: usize, const PAGE_SIZE: usize> Smalloc<LENGTH, MIN, PAGE_SIZE> {
    /// Number of sub-page size classes.
    pub open spec fn k_levels() -> int {
        levels(MIN as int, PAGE_SIZE as int)
    }

    /// Number of pages in the arena.
    pub open spec fn n_pages() -> int {
        page_count(LENGTH as int, PAGE_SIZE as int)
    }

    /// Number of 8-byte words in the arena.
    pub open spec fn n_words() -> int {
        LENGTH as int / 8
    }

    /// Number of words of in-arena metadata.
    pub open spec fn hdr_words() -> int {
        header_words(LENGTH as int, MIN as int, PAGE_SIZE as int)
    }

    /// Byte offset of the post-header surplus block inside the first page.
    pub open spec fn sup_off() -> int {
        surplus_offset(LENGTH as int, MIN as int, PAGE_SIZE as int)
    }

    /// Byte size of a block of size class `level`.
    pub open spec fn bsize(level: int) -> int {
        block_size(MIN as int, level)
    }

    /// The size class an allocation of `size` bytes is served from; at least
    /// `Self::k_levels()` means the multi-page path.
    pub open spec fn spec_size_level(size: int) -> int {
        if clog2(size as nat) >= clog2(MIN as nat) {
            clog2(size as nat) - clog2(MIN as nat)
        } else {
            0
        }
    }

    /// Pages needed to hold `size` bytes.
    pub open spec fn spec_need_pages(size: int) -> int {
        if size % (PAGE_SIZE as int) == 0 {
            size / (PAGE_SIZE as int)
        } else {
            size / (PAGE_SIZE as int) + 1
        }
    }

    /// The arena's base address.
    pub closed spec fn base_spec(&self) -> int {
        self.base as int
    }

    /// Whether this instance's constants form a usable configuration.
    pub closed spec fn cfg_ok(&self) -> bool {
        valid_config(self.base as int, LENGTH as int, MIN as int, PAGE_SIZE as int)
    }

    /// Word `n` of the arena: the 8 bytes at `base + 8 * n`.
    pub(crate) open spec fn word(&self, n: int) -> usize {
        self.mem@[n]
    }

    /// Whether lazy initialisation has run: the arena's first word holds the
    /// base address, written once by `init` and never changed.
    pub closed spec fn is_init(&self) -> bool {
        self.mem@[0] == self.base
    }

    /// What each page is used for.
    pub closed spec fn page_view(&self) -> Seq<PageState> {
        self.pages@
    }

    /// The blocks on size class `l`'s free list, head first.
    pub closed spec fn free_list_view(&self, l: int) -> Seq<usize> {
        self.free_lists@[l]
    }

    /// The sub-page blocks currently handed out, each with its size class.
    pub closed spec fn live_view(&self) -> Map<usize, nat> {
        self.live@
    }

    /// The free-list head word of size class `l`.
    pub(crate) open spec fn head_word(&self, l: int) -> usize {
        self.mem@[1 + l]
    }

    /// The used/free word of page `i`.
    pub(crate) open spec fn page_word(&self, i: int) -> usize {
        self.mem@[1 + Self::k_levels() + i]
    }

    /// Model index of the word at byte address `a`.
    pub(crate) open spec fn widx(&self, a: usize) -> int {
        (a - self.base) / 8
    }

    /// The page that byte address `a` falls in.
    pub(crate) open spec fn page_of(&self, a: usize) -> int {
        (a - self.base) / (PAGE_SIZE as int)
    }

    /// `a` is the address of a size-class-`l` block: inside the arena, on a
    /// block boundary of a page that is a class-`l` slab, and past the header
    /// region if it lies in the first page.
    pub closed spec fn valid_block(&self, a: usize, l: int) -> bool {
        &&& 0 <= l < Self::k_levels()
        &&& self.base <= a
        &&& a - self.base < LENGTH
        &&& (a - self.base) % Self::bsize(l) == 0
        &&& self.pages@[self.page_of(a)] == (PageState::Slab { level: l as nat })
        &&& (self.page_of(a) == 0 ==> a - self.base >= Self::sup_off())
    }

    /// The intrusive free list of class `l` is faithfully mirrored by its
    /// ghost sequence: the head word holds the first block, each block's
    /// first word holds its successor (zero at the tail), every entry is a
    /// distinct valid class-`l` block.
    pub(crate) open spec fn inv_chain(&self, l: int) -> bool {
        let s = self.free_lists@[l];
        &&& self.head_word(l) == if s.len() == 0 {
            0usize
        } else {
            s[0]
        }
        &&& forall|j: int| 0 <= j < s.len() ==> self.valid_block(#[trigger] s[j], l)
        &&& forall|j: int|
            0 <= j < s.len() ==> (#[trigger] self.mem@[self.widx(s[j])]) == if j == s.len() - 1 {
                0usize
            } else {
                s[j + 1]
            }
        &&& forall|j1: int, j2: int| 0 <= j1 < j2 < s.len() ==> s[j1] != s[j2]
    }

    /// Each page's used/free word matches its ghost state, the first page is
    /// the class-0 slab that holds the header, and multi-page runs are
    /// well-formed and mutually consistent.
    pub(crate) open spec fn inv_pages(&self) -> bool {
        &&& self.pages@[0] == (PageState::Slab { level: 0nat })
        &&& forall|i: int|
            0 <= i < Self::n_pages() ==> ((#[trigger] self.page_word(i)) == 0 <==> self.pages@[i]
                is Free)
        &&& forall|i: int|
            0 <= i < Self::n_pages() ==> (#[trigger] self.page_word(i)) == 0 || self.page_word(i)
                == 1
        &&& forall|i: int|
            0 <= i < Self::n_pages() ==> ((#[trigger] self.pages@[i]) matches PageState::Run {
                start,
                len,
            } ==> {
                &&& 0 <= start <= i
                &&& i < start + len
                &&& start + len <= Self::n_pages()
                &&& forall|j: int|
                    start <= j < start + len ==> self.pages@[j] == (PageState::Run { start, len })
            })
    }

    /// Every handed-out sub-page block is a valid block of its class and sits
    /// on no free list.
    pub(crate) open spec fn inv_live(&self) -> bool {
        &&& forall|a: usize|
            #[trigger] self.live@.dom().contains(a) ==> self.valid_block(a, self.live@[a] as int)
        &&& forall|a: usize, l: int, j: int|
            #![trigger self.live@.dom().contains(a), self.free_lists@[l][j]]
            self.live@.dom().contains(a) && 0 <= l < Self::k_levels() && 0 <= j
                < self.free_lists@[l].len() ==> self.free_lists@[l][j] != a
    }

    /// The invariant of an initialised arena.
    pub(crate) open spec fn inv_ready(&self) -> bool {
        &&& self.inv_pages()
        &&& forall|l: int| 0 <= l < Self::k_levels() ==> self.inv_chain(l)
        &&& self.inv_live()
    }

    /// Before initialisation nothing is tracked: no page used, no free block,
    /// nothing handed out.
    pub(crate) open spec fn pristine(&self) -> bool {
        &&& forall|i: int| 0 <= i < Self::n_pages() ==> (#[trigger] self.pages@[i]) is Free
        &&& forall|l: int| 0 <= l < Self::k_levels() ==> (#[trigger] self.free_lists@[l]).len() == 0
        &&& self.live@ == Map::<usize, nat>::empty()
    }

    /// Well-formedness: the configuration is valid, the model covers the
    /// arena, the first word is either still clear or holds the base address,
    /// and the state matching that word holds.
    pub closed spec fn wf(&self) -> bool {
        &&& self.cfg_ok()
        &&& self.mem@.len() == Self::n_words()
        &&& self.pages@.len() == Self::n_pages()
        &&& self.free_lists@.len() == Self::k_levels()
        &&& self.mem@[0] == 0 || self.mem@[0] == self.base
        &&& (self.mem@[0] == 0 ==> self.pristine())
        &&& (self.is_init() ==> self.inv_ready())
    }

    /// Build an allocator over the arena `[start, start + LENGTH)`. The arena
    /// starts clear; the first allocation triggers initialisation.
    pub fn new(start: usize) -> (s: Self)
        requires
            valid_config(start as int, LENGTH as int, MIN as int, PAGE_SIZE as int),
        ensures
            s.wf(),
            !s.is_init(),
            s.base_spec() == start as int,
            s.page_view().len() == Self::n_pages(),
            forall|i: int| 0 <= i < Self::n_pages() ==> (#[trigger] s.page_view()[i]) is Free,
            forall|l: int|
                0 <= l < Self::k_levels() ==> (#[trigger] s.free_list_view(l)).len() == 0,
            s.live_view() == Map::<usize, nat>::empty(),
    {
        proof {
            lemma_config_properties(start as int, LENGTH as int, MIN as int, PAGE_SIZE as int);
        }
        let words: usize = LENGTH / 8;
        let mut mem: Vec<usize> = Vec::new();
        while mem.len() < words
            invariant
                mem@.len() <= words,
                forall|j: int| 0 <= j < mem@.len() ==> mem@[j] == 0usize,
            decreases words - mem@.len(),
        {
            mem.push(0);
        }
        let s = Smalloc {
            base: start,
            mem,
            pages: Ghost(Seq::new(Self::n_pages() as nat, |i: int| PageState::Free)),
            free_lists: Ghost(Seq::new(Self::k_levels() as nat, |l: int| Seq::<usize>::empty())),
            live: Ghost(Map::<usize, nat>::empty()),
        };
        proof {
            assert(s.mem@[0] == 0);
            assert(s.pristine());
        }
        s
    }

    /// The base address this allocator was built over.
    pub fn get_start(&self) -> (r: usize)
        ensures
            r as int == self.base_spec(),
    {
        self.base
    }

    /// The arena's first word: zero until initialisation, the base address
    /// after.
    pub fn start(&self) -> (r: usize)
        requires
            self.wf(),
        ensures
            r == 0 <==> !self.is_init(),
            r != 0 ==> r as int == self.base_spec(),
    {
        proof {
            lemma_config_properties(
                self.base as int,
                LENGTH as int,
                MIN as int,
                PAGE_SIZE as int,
            );
            assert(Self::n_words() >= 1) by {
                lemma_div_is_ordered_by_denominator(LENGTH as int, 8, PAGE_SIZE as int);
            }
        }
        self.mem[0]
    }

    /// The page size.
    pub fn page_size() -> (r: usize)
        ensures
            r == PAGE_SIZE,
    {
        PAGE_SIZE
    }

    /// The page count.
    pub fn page_count() -> (r: usize)
        requires
            PAGE_SIZE >= 1,
        ensures
            r as int == Self::n_pages(),
    {
        LENGTH / PAGE_SIZE
    }

    /// log2 of the minimum block size.
    pub fn log2_min() -> (r: usize)
        requires
            1 <= MIN <= 0x8000_0000,
        ensures
            r == clog2(MIN as nat),
    {
        round_up_log2(MIN as u32)
    }

    /// The number of sub-page size classes.
    pub fn free_list_count() -> (r: usize)
        requires
            1 <= MIN <= PAGE_SIZE,
            PAGE_SIZE <= 0x8000_0000,
        ensures
            r as int == Self::k_levels(),
    {
        proof {
            crate::bits::lemma_clog2_mono(MIN as nat, PAGE_SIZE as nat);
            crate::bits::lemma_clog2_pow2(31);
            vstd::arithmetic::power2::lemma2_to64();
            crate::bits::lemma_clog2_mono(PAGE_SIZE as nat, pow2(31));
        }
        round_up_log2(PAGE_SIZE as u32) - round_up_log2(MIN as u32) + 1
    }

    /// The head of size class `level`'s free list: the address of its first
    /// free block, or zero when the list is empty.
    pub fn free_list(&self, level: usize) -> (r: usize)
        requires
            self.wf(),
            self.is_init(),
            level < Self::k_levels(),
        ensures
            r == if self.free_list_view(level as int).len() == 0 {
                0usize
            } else {
                self.free_list_view(level as int)[0]
            },
    {
        proof {
            self.lemma_header_fits();
            assert(self.inv_chain(level as int));
        }
        self.mem[1 + level]
    }

    /// Whether page `index` is in use.
    pub fn page_header(&self, index: usize) -> (r: bool)
        requires
            self.wf(),
            self.is_init(),
            index < Self::n_pages(),
        ensures
            r <==> !(self.page_view()[index as int] is Free),
    {
        proof {
            self.lemma_header_fits();
            assert(self.page_word(index as int) == 0 <==> self.pages@[index as int] is Free);
        }
        let kk = Self::free_list_count();
        self.mem[1 + kk + index] != 0
    }

    /// Pages needed to hold `size` bytes.
    pub fn need_page_count(size: usize) -> (r: usize)
        requires
            PAGE_SIZE >= 1,
        ensures
            r as int == Self::spec_need_pages(size as int),
    {
        if size % PAGE_SIZE == 0 {
            size / PAGE_SIZE
        } else {
            proof {
                lemma_div_is_ordered_by_denominator(size as int, 2, PAGE_SIZE as int);
            }
            size / PAGE_SIZE + 1
        }
    }

    /// The size class an allocation of `size` bytes is served from.
    pub fn size_level(&self, size: usize) -> (r: usize)
        requires
            self.wf(),
            size <= 0x8000_0000,
        ensures
            r as int == Self::spec_size_level(size as int),
    {
        proof {
            lemma_config_properties(
                self.base as int,
                LENGTH as int,
                MIN as int,
                PAGE_SIZE as int,
            );
        }
        let sz: usize = if size == 0 {
            1
        } else {
            size
        };
        let log2 = round_up_log2(sz as u32);
        let log2_min = Self::log2_min();
        if log2 >= log2_min {
            log2 - log2_min
        } else {
            0
        }
    }

    /// Facts about the byte size of one size class.
    pub(crate) proof fn lemma_bsize_facts(&self, l: int)
        requires
            self.cfg_ok(),
            0 <= l < Self::k_levels(),
        ensures
            MIN as int <= Self::bsize(l),
            Self::bsize(l) <= PAGE_SIZE as int,
            PAGE_SIZE as int % Self::bsize(l) == 0,
            Self::bsize(l) % (MIN as int) == 0,
            Self::bsize(l) % 8 == 0,
            Self::bsize(l) == pow2((clog2(MIN as nat) + l) as nat),
            l == Self::k_levels() - 1 ==> Self::bsize(l) == PAGE_SIZE as int,
    {
        lemma_config_properties(self.base as int, LENGTH as int, MIN as int, PAGE_SIZE as int);
        let lm = clog2(MIN as nat);
        let lp = clog2(PAGE_SIZE as nat);
        let bs = Self::bsize(l);
        vstd::arithmetic::power2::lemma_pow2_adds(lm, l as nat);
        assert(bs == pow2((lm + l) as nat));
        vstd::arithmetic::power2::lemma_pow2_adds((lm + l) as nat, (lp - lm - l) as nat);
        assert(PAGE_SIZE as int == bs * pow2((lp - lm - l) as nat));
        vstd::arithmetic::power2::lemma_pow2_pos((lp - lm - l) as nat);
        vstd::arithmetic::power2::lemma_pow2_pos((lm + l) as nat);
        vstd::arithmetic::power2::lemma_pow2_pos(l as nat);
        lemma_mod_multiples_basic(pow2((lp - lm - l) as nat) as int, bs);
        lemma_mul_is_commutative(bs, pow2((lp - lm - l) as nat) as int);
        assert(PAGE_SIZE as int % bs == 0);
        lemma_mod_multiples_basic(pow2(l as nat) as int, MIN as int);
        lemma_mul_is_commutative(MIN as int, pow2(l as nat) as int);
        assert(bs % (MIN as int) == 0);
        lemma_divides_transitive(bs, MIN as int, 8);
        assert(MIN as int <= bs) by (nonlinear_arith)
            requires
                bs == (MIN as int) * pow2(l as nat),
                pow2(l as nat) >= 1,
                MIN as int >= 0,
        ;
        assert(bs <= PAGE_SIZE as int) by (nonlinear_arith)
            requires
                PAGE_SIZE as int == bs * pow2((lp - lm - l) as nat),
                pow2((lp - lm - l) as nat) >= 1,
                bs >= 0,
        ;
    }

    /// Facts about where a valid block lies: word aligned, past the header,
    /// wholly inside its page and the arena.
    pub(crate) proof fn lemma_block_facts(&self, a: usize, l: int)
        requires
            self.cfg_ok(),
            self.valid_block(a, l),
        ensures
            MIN as int <= Self::bsize(l) <= PAGE_SIZE as int,
            (a - self.base) % 8 == 0,
            self.widx(a) * 8 == a - self.base,
            Self::hdr_words() <= self.widx(a),
            self.widx(a) < Self::n_words(),
            0 <= self.page_of(a) < Self::n_pages(),
            a + Self::bsize(l) <= self.base + LENGTH,
            self.page_of(a) * (PAGE_SIZE as int) <= a - self.base,
            a + Self::bsize(l) - self.base <= (self.page_of(a) + 1) * (PAGE_SIZE as int),
            self.page_of(a) >= 1 ==> self.widx(a) >= PAGE_SIZE as int / 8,
            a > 0,
    {
        self.lemma_header_fits();
        self.lemma_bsize_facts(l);
        let off = a - self.base;
        let bs = Self::bsize(l);
        let ps = PAGE_SIZE as int;
        let pg = self.page_of(a);
        lemma_divides_transitive(off, bs, 8);
        lemma_fundamental_div_mod(off, 8);
        assert(self.widx(a) * 8 == off) by {
            lemma_mul_is_commutative(8, off / 8);
        }
        lemma_fundamental_div_mod(off, ps);
        lemma_mod_bound(off, ps);
        assert(ps * pg <= off < ps * pg + ps);
        lemma_mul_is_commutative(ps, pg);
        lemma_mul_is_distributive_add(ps, pg, 1);
        assert(off < (pg + 1) * ps);
        lemma_div_pos_is_pos(off, ps);
        assert(off < ps * Self::n_pages()) by {
            lemma_mul_is_commutative(ps, Self::n_pages());
        }
        lemma_multiply_divide_lt(off, ps, Self::n_pages());
        assert(pg < Self::n_pages());
        // The whole block fits below the arena end and its page end.
        lemma_divides_transitive(LENGTH as int, ps, bs);
        crate::config::lemma_multiple_below(off, LENGTH as int, bs);
        assert(off + bs <= LENGTH);
        assert((pg + 1) * ps % bs == 0) by {
            lemma_mod_multiples_basic(pg + 1, ps);
            lemma_mul_is_commutative(pg + 1, ps);
            lemma_divides_transitive((pg + 1) * ps, ps, bs);
        }
        crate::config::lemma_multiple_below(off, (pg + 1) * ps, bs);
        // Word index bounds.
        if pg == 0 {
            assert(off >= Self::sup_off() >= 8 * Self::hdr_words());
            lemma_div_is_ordered(8 * Self::hdr_words(), off, 8);
            lemma_div_multiples_vanish(Self::hdr_words(), 8);
        } else {
            assert(off >= pg * ps) by {
                lemma_mul_is_commutative(ps, pg);
            }
            assert(ps * 1 <= ps * pg) by (nonlinear_arith)
                requires
                    ps >= 0,
                    pg >= 1,
            ;
            assert(off >= ps);
            lemma_div_is_ordered(ps, off, 8);
            lemma_fundamental_div_mod(ps, 8);
            assert(off / 8 >= ps / 8);
            assert(8 * Self::hdr_words() < ps);
            lemma_div_is_ordered(8 * Self::hdr_words(), off, 8);
            lemma_div_multiples_vanish(Self::hdr_words(), 8);
        }
        assert(off <= LENGTH - bs <= LENGTH - 8);
        lemma_div_is_ordered(off, LENGTH - 8, 8);
        assert((LENGTH - 8) % 8 == 0) by {
            lemma_config_properties(self.base as int, LENGTH as int, MIN as int, PAGE_SIZE as int);
            lemma_mod_multiples_basic(Self::n_words() - 1, 8);
            lemma_mul_is_distributive_sub(8, Self::n_words(), 1);
            lemma_mul_is_commutative(Self::n_words() - 1, 8);
            lemma_mul_is_commutative(Self::n_words(), 8);
        }
        lemma_fundamental_div_mod(LENGTH - 8, 8);
        assert((LENGTH - 8) / 8 == Self::n_words() - 1);
        assert(self.widx(a) < Self::n_words());
    }

    /// Two distinct valid blocks, of any classes, occupy distinct words.
    pub(crate) proof fn lemma_blocks_distinct_words(&self, a: usize, la: int, b: usize, lb: int)
        requires
            self.cfg_ok(),
            self.valid_block(a, la),
            self.valid_block(b, lb),
            a != b,
        ensures
            self.widx(a) != self.widx(b),
    {
        self.lemma_block_facts(a, la);
        self.lemma_block_facts(b, lb);
    }

    /// Pop the head block off size class `level`'s free list and hand it
    /// out: the head word takes the popped block's successor.
    pub fn remove_free0(&mut self, level: usize) -> (r: usize)
        requires
            old(self).wf(),
            old(self).is_init(),
            (level as int) < Self::k_levels(),
            old(self).free_list_view(level as int).len() > 0,
        ensures
            final(self).wf(),
            final(self).is_init(),
            final(self).base_spec() == old(self).base_spec(),
            r == old(self).free_list_view(level as int)[0],
            r != 0,
            final(self).valid_block(r, level as int),
            final(self).free_list_view(level as int) == old(self).free_list_view(
                level as int,
            ).skip(1),
            forall|l: int|
                0 <= l < Self::k_levels() && l != level ==> final(self).free_list_view(l) == old(
                    self,
                ).free_list_view(l),
            final(self).page_view() == old(self).page_view(),
            !old(self).live_view().dom().contains(r),
            final(self).live_view() == old(self).live_view().insert(r, level as nat),
    {
        let ghost lvl = level as int;
        proof {
            self.lemma_header_fits();
            assert(self.inv_chain(lvl));
            self.lemma_block_facts(self.free_lists@[lvl][0], lvl);
        }
        let head_addr: usize = self.mem[1 + level];
        proof {
            assert(head_addr == old(self).free_lists@[lvl][0]);
        }
        let wi: usize = (head_addr - self.base) / 8;
        let next: usize = self.mem[wi];
        self.mem.set(1 + level, next);
        self.free_lists = Ghost(
            self.free_lists@.update(lvl, self.free_lists@[lvl].skip(1)),
        );
        self.live = Ghost(self.live@.insert(head_addr, level as nat));
        proof {
            let pre = *old(self);
            let s = pre.free_lists@[lvl];
            // The popped block was on no other list and not handed out.
            assert(!pre.live@.dom().contains(head_addr)) by {
                if pre.live@.dom().contains(head_addr) {
                    assert(pre.free_lists@[lvl][0] != head_addr);
                }
            }
            // Page bookkeeping is untouched: only the head word changed.
            assert forall|i: int| 0 <= i < Self::n_pages() implies #[trigger] self.page_word(i)
                == pre.page_word(i) by {}
            // Every chain stays mirrored.
            assert forall|l2: int| 0 <= l2 < Self::k_levels() implies self.inv_chain(l2) by {
                assert(pre.inv_chain(l2));
                let s2 = pre.free_lists@[l2];
                assert forall|j: int| 0 <= j < s2.len() implies self.valid_block(
                    #[trigger] s2[j],
                    l2,
                ) && self.mem@[self.widx(s2[j])] == pre.mem@[pre.widx(s2[j])] by {
                    pre.lemma_block_facts(s2[j], l2);
                }
                if l2 == lvl {
                    let s_new = self.free_lists@[lvl];
                    assert(s_new == s.skip(1));
                    assert(self.head_word(lvl) == next);
                    assert(pre.mem@[pre.widx(s[0])] == if s.len() == 1 {
                        0usize
                    } else {
                        s[1]
                    });
                    assert forall|j: int| 0 <= j < s_new.len() implies (
                    #[trigger] self.mem@[self.widx(s_new[j])]) == if j == s_new.len() - 1 {
                        0usize
                    } else {
                        s_new[j + 1]
                    } by {
                        assert(s_new[j] == s[j + 1]);
                    }
                } else {
                    assert(self.head_word(l2) == pre.head_word(l2));
                }
            }
            // Handed-out blocks stay valid and off every list.
            assert forall|a: usize| #[trigger] self.live@.dom().contains(a) implies self.valid_block(
                a,
                self.live@[a] as int,
            ) by {
                if a != head_addr {
                    assert(pre.live@.dom().contains(a));
                    pre.lemma_block_facts(a, pre.live@[a] as int);
                }
            }
            assert forall|a: usize, l2: int, j: int|
                #![trigger self.live@.dom().contains(a), self.free_lists@[l2][j]]
                self.live@.dom().contains(a) && 0 <= l2 < Self::k_levels() && 0 <= j
                    < self.free_lists@[l2].len() implies self.free_lists@[l2][j] != a by {
                assert(pre.inv_chain(l2));
                let s2 = pre.free_lists@[l2];
                if l2 == lvl {
                    assert(self.free_lists@[l2][j] == s[j + 1]);
                } else {
                    assert(self.free_lists@[l2][j] == s2[j]);
                }
                if a == head_addr {
                    // A chain entry equal to the popped block would either
                    // repeat it inside its own chain or put one address in
                    // two slab classes.
                    if self.free_lists@[l2][j] == a {
                        if l2 == lvl {
                            assert(0 <= j + 1 < s.len());
                            assert(s[0] != s[j + 1]);
                            assert(false);
                        } else {
                            assert(pre.valid_block(pre.free_lists@[l2][j], l2));
                            assert(pre.valid_block(s[0], lvl));
                            assert(false);
                        }
                    }
                } else {
                    assert(pre.live@.dom().contains(a));
                }
            }
            assert(self.wf());
        }
        head_addr
    }

    /// Push a handed-out block back onto size class `level`'s free list: the
    /// block's first word takes the old head, the head word takes the block.
    pub fn insert_free(&mut self, p: usize, level: usize)
        requires
            old(self).wf(),
            old(self).is_init(),
            (level as int) < Self::k_levels(),
            old(self).live_view().dom().contains(p),
            old(self).live_view()[p] == level as nat,
        ensures
            final(self).wf(),
            final(self).is_init(),
            final(self).base_spec() == old(self).base_spec(),
            final(self).free_list_view(level as int) == seq![p] + old(self).free_list_view(
                level as int,
            ),
            forall|l: int|
                0 <= l < Self::k_levels() && l != level ==> final(self).free_list_view(l) == old(
                    self,
                ).free_list_view(l),
            final(self).page_view() == old(self).page_view(),
            final(self).live_view() == old(self).live_view().remove(p),
    {
        let ghost lvl = level as int;
        proof {
            self.lemma_header_fits();
            assert(self.inv_chain(lvl));
            assert(self.valid_block(p, lvl));
            self.lemma_block_facts(p, lvl);
        }
        let head_old: usize = self.mem[1 + level];
        let wi: usize = (p - self.base) / 8;
        self.mem.set(wi, head_old);
        self.mem.set(1 + level, p);
        self.free_lists = Ghost(
            self.free_lists@.update(lvl, seq![p] + self.free_lists@[lvl]),
        );
        self.live = Ghost(self.live@.remove(p));
        proof {
            let pre = *old(self);
            let s = pre.free_lists@[lvl];
            let s_new = self.free_lists@[lvl];
            assert(s_new == seq![p] + s);
            assert(s_new.len() == s.len() + 1);
            assert(s_new[0] == p);
            // The pushed block was on no list, so no chain word moved but its
            // own.
            assert forall|l2: int, j: int|
                0 <= l2 < Self::k_levels() && 0 <= j < pre.free_lists@[l2].len() implies (
            #[trigger] pre.free_lists@[l2][j]) != p by {}
            assert forall|i: int| 0 <= i < Self::n_pages() implies #[trigger] self.page_word(i)
                == pre.page_word(i) by {}
            assert forall|l2: int| 0 <= l2 < Self::k_levels() implies self.inv_chain(l2) by {
                assert(pre.inv_chain(l2));
                let s2 = pre.free_lists@[l2];
                assert forall|j: int| 0 <= j < s2.len() implies self.valid_block(
                    #[trigger] s2[j],
                    l2,
                ) && self.mem@[self.widx(s2[j])] == pre.mem@[pre.widx(s2[j])] by {
                    pre.lemma_block_facts(s2[j], l2);
                    pre.lemma_blocks_distinct_words(s2[j], l2, p, lvl);
                }
                if l2 == lvl {
                    assert(self.head_word(lvl) == p);
                    assert(self.mem@[self.widx(p)] == head_old);
                    assert forall|j: int| 0 <= j < s_new.len() implies (
                    #[trigger] self.mem@[self.widx(s_new[j])]) == if j == s_new.len() - 1 {
                        0usize
                    } else {
                        s_new[j + 1]
                    } by {
                        if j > 0 {
                            assert(s_new[j] == s[j - 1]);
                        }
                    }
                } else {
                    assert(self.head_word(l2) == pre.head_word(l2));
                }
            }
            assert forall|a: usize| #[trigger] self.live@.dom().contains(a) implies self.valid_block(
                a,
                self.live@[a] as int,
            ) by {
                assert(pre.live@.dom().contains(a));
                pre.lemma_block_facts(a, pre.live@[a] as int);
            }
            assert forall|a: usize, l2: int, j: int|
                #![trigger self.live@.dom().contains(a), self.free_lists@[l2][j]]
                self.live@.dom().contains(a) && 0 <= l2 < Self::k_levels() && 0 <= j
                    < self.free_lists@[l2].len() implies self.free_lists@[l2][j] != a by {
                assert(pre.inv_chain(l2));
                assert(pre.live@.dom().contains(a));
                assert(a != p);
                if l2 == lvl {
                    if j > 0 {
                        assert(self.free_lists@[l2][j] == s[j - 1]);
                    }
                } else {
                    assert(self.free_lists@[l2][j] == pre.free_lists@[l2][j]);
                }
            }
            assert(self.wf());
        }
    }

    /// The arena's address of the post-header surplus block.
    pub open spec fn surplus_addr(&self) -> int {
        self.base_spec() + Self::sup_off()
    }

    /// What initialisation leaves behind: the marker written, the first page
    /// a class-0 slab whose free list holds exactly the post-header surplus
    /// block, every other page free, every other list empty, nothing handed
    /// out.
    pub open spec fn init_views(pre: Self, post: Self) -> bool {
        &&& post.wf()
        &&& post.is_init()
        &&& post.base_spec() == pre.base_spec()
        &&& post.page_view().len() == Self::n_pages()
        &&& post.page_view()[0] == (PageState::Slab { level: 0nat })
        &&& forall|i: int| 1 <= i < Self::n_pages() ==> (#[trigger] post.page_view()[i]) is Free
        &&& post.free_list_view(0) == seq![(pre.base_spec() + Self::sup_off()) as usize]
        &&& forall|l: int|
            1 <= l < Self::k_levels() ==> (#[trigger] post.free_list_view(l)).len() == 0
        &&& post.live_view() == Map::<usize, nat>::empty()
    }

    /// One-shot lazy initialisation: write the base address into the marker
    /// word, clear every free-list head and page word, take the first page
    /// for the header, and seed class 0's list with the single surplus block
    /// between the header's end (rounded up to `MIN`) and the page's end.
    #[verifier::loop_isolation(false)]
    pub fn init(&mut self)
        requires
            old(self).wf(),
            !old(self).is_init(),
        ensures
            Self::init_views(*old(self), *final(self)),
    {
        proof {
            self.lemma_header_fits();
            vstd::arithmetic::power2::lemma2_to64();
        }
        let kk: usize = Self::free_list_count();
        let pc: usize = Self::page_count();
        let base: usize = self.base;
        self.mem.set(0, base);
        let ghost m0 = self.mem@;
        // Clear the free-list heads (the arena is assumed clear; written all
        // the same).
        let mut i: usize = 0;
        while i < kk
            invariant
                i <= kk,
                self.base == base,
                base == old(self).base,
                self.cfg_ok(),
                kk as int == Self::k_levels(),
                self.mem@.len() == m0.len(),
                self.mem@.len() == Self::n_words(),
                Self::hdr_words() < Self::n_words(),
                1 + Self::k_levels() < Self::hdr_words(),
                forall|n: int| 1 <= n < 1 + i ==> self.mem@[n] == 0usize,
                forall|n: int|
                    0 <= n < self.mem@.len() && !(1 <= n < 1 + i) ==> self.mem@[n] == m0[n],
            decreases kk - i,
        {
            self.mem.set(1 + i, 0);
            i += 1;
        }
        let ghost m1 = self.mem@;
        // Clear the page words.
        let mut j: usize = 0;
        while j < pc
            invariant
                j <= pc,
                self.base == base,
                base == old(self).base,
                self.cfg_ok(),
                kk as int == Self::k_levels(),
                pc as int == Self::n_pages(),
                self.mem@.len() == m1.len(),
                self.mem@.len() == Self::n_words(),
                Self::hdr_words() < Self::n_words(),
                Self::hdr_words() == 1 + Self::k_levels() + Self::n_pages(),
                forall|n: int| 1 + kk <= n < 1 + kk + j ==> self.mem@[n] == 0usize,
                forall|n: int|
                    0 <= n < self.mem@.len() && !(1 + kk <= n < 1 + kk + j) ==> self.mem@[n]
                        == m1[n],
            decreases pc - j,
        {
            self.mem.set(1 + kk + j, 0);
            j += 1;
        }
        // Take the first page: it holds the header and becomes the class-0
        // slab.
        self.mem.set(1 + kk, 1);
        // Seed class 0 with the surplus block: the header's end rounded up
        // to the minimum block size.
        let hdr_end: usize = 8 * (1 + kk + pc);
        let rem: usize = hdr_end % MIN;
        let surplus_off: usize = if rem == 0 {
            hdr_end
        } else {
            hdr_end + (MIN - rem)
        };
        proof {
            assert(surplus_off as int == Self::sup_off());
        }
        let surplus: usize = base + surplus_off;
        let wi: usize = surplus_off / 8;
        proof {
            lemma_div_is_ordered(8 * Self::hdr_words(), surplus_off as int, 8);
            lemma_div_multiples_vanish(Self::hdr_words(), 8);
            lemma_div_is_ordered(surplus_off as int, LENGTH - 8, 8);
            lemma_fundamental_div_mod(LENGTH as int, 8);
            assert(Self::hdr_words() <= wi < Self::n_words());
        }
        self.mem.set(wi, 0);
        self.mem.set(1, surplus);
        self.pages = Ghost(
            Seq::new(
                Self::n_pages() as nat,
                |i: int|
                    if i == 0 {
                        PageState::Slab { level: 0nat }
                    } else {
                        PageState::Free
                    },
            ),
        );
        self.free_lists = Ghost(
            Seq::new(
                Self::k_levels() as nat,
                |l: int|
                    if l == 0 {
                        seq![surplus]
                    } else {
                        Seq::<usize>::empty()
                    },
            ),
        );
        self.live = Ghost(Map::<usize, nat>::empty());
        proof {
            lemma_fundamental_div_mod(surplus_off as int, 8);
            assert(self.widx(surplus) == wi);
            assert(m0[0] == base);
            assert(m1[0] == base);
            assert(wi != 0 && 1 + kk != 0);
            assert(self.mem@[0] == base);
            assert(self.is_init());
            // The surplus is a valid class-0 block of the first page.
            assert(pow2(0) == 1);
            assert(Self::bsize(0) == MIN as int * pow2(0));
            assert(Self::bsize(0) == MIN);
            assert(self.page_of(surplus) == 0) by {
                vstd::arithmetic::div_mod::lemma_basic_div(
                    surplus_off as int,
                    PAGE_SIZE as int,
                );
            }
            assert(self.valid_block(surplus, 0));
            // Every chain is mirrored: class 0 holds the surplus alone, the
            // rest are empty.
            assert forall|l2: int| 0 <= l2 < Self::k_levels() implies self.inv_chain(l2) by {
                if l2 == 0 {
                    assert(self.free_lists@[0] == seq![surplus]);
                    assert(self.head_word(0) == surplus);
                    assert(self.mem@[wi as int] == 0usize);
                } else {
                    assert(self.free_lists@[l2].len() == 0);
                    assert(1 < 1 + l2 < 1 + kk);
                    assert(m1[1 + l2] == 0usize);
                    assert(self.head_word(l2) == 0usize);
                }
            }
            assert forall|i2: int| 0 <= i2 < Self::n_pages() implies ((#[trigger] self.page_word(
                i2,
            )) == 0 <==> self.pages@[i2] is Free) && (self.page_word(i2) == 0 || self.page_word(i2)
                == 1) by {
                if i2 == 0 {
                    assert(self.page_word(0) == 1usize);
                } else {
                    assert(1 + kk + i2 != wi as int);
                    assert(self.page_word(i2) == 0usize);
                }
            }
            assert(self.inv_pages());
            assert(self.wf());
        }
    }

    /// Page `i` is the lowest-indexed free page.
    pub open spec fn is_first_free(s: Self, i: int) -> bool {
        &&& 0 <= i < Self::n_pages()
        &&& s.page_view()[i] is Free
        &&& forall|j: int| 0 <= j < i ==> !((#[trigger] s.page_view()[j]) is Free)
    }

    /// The blocks a page carved for size class `level` holds, in address
    /// order: page `i` split into `PAGE_SIZE / bsize(level)` equal blocks.
    pub open spec fn slab_chain(s: Self, i: int, level: int) -> Seq<usize> {
        Seq::new(
            (PAGE_SIZE as int / Self::bsize(level)) as nat,
            |j: int| (s.base_spec() + i * (PAGE_SIZE as int) + j * Self::bsize(level)) as usize,
        )
    }

    /// Facts about the `j`-th block of page `i` carved for class `l`.
    pub(crate) proof fn lemma_carve_addr(&self, i: int, j: int, l: int)
        requires
            self.cfg_ok(),
            1 <= i < Self::n_pages(),
            0 <= l < Self::k_levels(),
            0 <= j < PAGE_SIZE as int / Self::bsize(l),
        ensures
            ({
                let bs = Self::bsize(l);
                let ps = PAGE_SIZE as int;
                let a = self.base + i * ps + j * bs;
                &&& self.base <= a
                &&& a - self.base < LENGTH
                &&& a + bs <= self.base + (i + 1) * ps
                &&& a + bs <= self.base + LENGTH
                &&& (a - self.base) % bs == 0
                &&& (a - self.base) / ps == i
                &&& (a - self.base) % 8 == 0
                &&& Self::bsize(l) * (ps / bs) == ps
                &&& ps / bs >= 1
                &&& i * ps % 8 == 0
                &&& (i + 1) * ps % 8 == 0
                &&& Self::hdr_words() <= i * ps / 8
                &&& i * ps / 8 <= (a - self.base) / 8
                &&& (a - self.base) / 8 < (i + 1) * ps / 8
                &&& (i + 1) * ps / 8 <= Self::n_words()
            }),
    {
        self.lemma_header_fits();
        self.lemma_bsize_facts(l);
        let bs = Self::bsize(l);
        let ps = PAGE_SIZE as int;
        let count = ps / bs;
        let a = self.base + i * ps + j * bs;
        lemma_fundamental_div_mod(ps, bs);
        assert(bs * count == ps);
        assert(count >= 1) by (nonlinear_arith)
            requires
                bs * count == ps,
                0 < bs <= ps,
        ;
        // The block lies inside its page.
        assert(j * bs + bs <= ps) by (nonlinear_arith)
            requires
                j < count,
                bs > 0,
                bs * count == ps,
        ;
        assert(0 <= j * bs) by (nonlinear_arith)
            requires
                j >= 0,
                bs > 0,
        ;
        // The page lies inside the arena.
        assert(i * ps + ps <= LENGTH) by (nonlinear_arith)
            requires
                i < Self::n_pages(),
                ps > 0,
                Self::n_pages() * ps == LENGTH,
        ;
        assert(0 <= i * ps) by (nonlinear_arith)
            requires
                i >= 0,
                ps > 0,
        ;
        lemma_mul_is_distributive_add(ps, i, 1);
        // Offset arithmetic: the block starts on a block boundary of page i.
        let off = a - self.base;
        assert(off == i * ps + j * bs);
        assert(off % bs == 0) by {
            assert(i * ps == bs * (count * i)) by (nonlinear_arith)
                requires
                    bs * count == ps,
            ;
            assert(off == bs * (count * i + j)) by (nonlinear_arith)
                requires
                    off == bs * (count * i) + j * bs,
            ;
            lemma_mod_multiples_basic(count * i + j, bs);
            lemma_mul_is_commutative(count * i + j, bs);
        }
        assert(off / ps == i) by {
            vstd::arithmetic::div_mod::lemma_fundamental_div_mod_converse(
                off,
                ps,
                i,
                j * bs,
            );
        }
        lemma_divides_transitive(off, bs, 8);
        // Word-index bounds: the block's word lies in page i's word range,
        // past the header.
        assert(i * ps % 8 == 0 && (i + 1) * ps % 8 == 0) by {
            lemma_mod_multiples_basic(i, ps);
            lemma_mul_is_commutative(i, ps);
            lemma_divides_transitive(i * ps, ps, 8);
            lemma_mod_multiples_basic(i + 1, ps);
            lemma_mul_is_commutative(i + 1, ps);
            lemma_divides_transitive((i + 1) * ps, ps, 8);
        }
        lemma_div_is_ordered(i * ps, off, 8);
        assert(off <= (i + 1) * ps - 8);
        lemma_div_is_ordered(off, (i + 1) * ps - 8, 8);
        lemma_fundamental_div_mod((i + 1) * ps, 8);
        lemma_fundamental_div_mod(i * ps, 8);
        assert(((i + 1) * ps - 8) / 8 == (i + 1) * ps / 8 - 1) by {
            vstd::arithmetic::div_mod::lemma_fundamental_div_mod_converse(
                (i + 1) * ps - 8,
                8,
                (i + 1) * ps / 8 - 1,
                0,
            );
        }
        assert(Self::hdr_words() <= i * ps / 8) by {
            assert(ps * 1 <= ps * i) by (nonlinear_arith)
                requires
                    ps >= 0,
                    i >= 1,
            ;
            lemma_mul_is_commutative(ps, i);
            lemma_div_is_ordered(ps, i * ps, 8);
            lemma_fundamental_div_mod(ps, 8);
            assert(8 * Self::hdr_words() <= ps);
            lemma_div_is_ordered(8 * Self::hdr_words(), ps, 8);
            lemma_div_multiples_vanish(Self::hdr_words(), 8);
        }
        assert((i + 1) * ps / 8 <= Self::n_words()) by {
            assert((i + 1) * ps <= LENGTH) by (nonlinear_arith)
                requires
                    i + 1 <= Self::n_pages(),
                    ps > 0,
                    Self::n_pages() * ps == LENGTH,
            ;
            lemma_div_is_ordered((i + 1) * ps, LENGTH as int, 8);
            lemma_fundamental_div_mod(LENGTH as int, 8);
        }
    }

    /// A valid block of another page has its word outside page `i`'s word
    /// range.
    pub(crate) proof fn lemma_word_outside_page(&self, a: usize, l: int, i: int)
        requires
            self.cfg_ok(),
            self.valid_block(a, l),
            self.page_of(a) != i,
            0 <= i < Self::n_pages(),
        ensures
            self.widx(a) < i * (PAGE_SIZE as int) / 8 || self.widx(a) >= (i + 1) * (
            PAGE_SIZE as int) / 8,
    {
        self.lemma_header_fits();
        self.lemma_block_facts(a, l);
        let ps = PAGE_SIZE as int;
        let off = a - self.base;
        let pg = self.page_of(a);
        assert(i * ps % 8 == 0 && (i + 1) * ps % 8 == 0) by {
            lemma_mod_multiples_basic(i, ps);
            lemma_mul_is_commutative(i, ps);
            lemma_divides_transitive(i * ps, ps, 8);
            lemma_mod_multiples_basic(i + 1, ps);
            lemma_mul_is_commutative(i + 1, ps);
            lemma_divides_transitive((i + 1) * ps, ps, 8);
        }
        if pg < i {
            assert((pg + 1) * ps <= i * ps) by {
                lemma_mul_inequality(pg + 1, i, ps);
            }
            assert(off + 8 <= i * ps);
            lemma_div_is_ordered(off, i * ps - 8, 8);
            lemma_fundamental_div_mod(i * ps, 8);
            assert((i * ps - 8) / 8 == i * ps / 8 - 1) by {
                vstd::arithmetic::div_mod::lemma_fundamental_div_mod_converse(
                    i * ps - 8,
                    8,
                    i * ps / 8 - 1,
                    0,
                );
            }
        } else {
            assert((i + 1) * ps <= pg * ps) by {
                lemma_mul_inequality(i + 1, pg, ps);
            }
            assert((i + 1) * ps <= off);
            lemma_div_is_ordered((i + 1) * ps, off, 8);
            lemma_fundamental_div_mod((i + 1) * ps, 8);
            assert((i + 1) * ps / 8 * 8 == (i + 1) * ps);
        }
    }

    /// `b` shows the same abstract state as `a`: same base, same
    /// initialisation, same page states, same free lists, same handed-out
    /// blocks.
    pub open spec fn same_views(a: Self, b: Self) -> bool {
        &&& b.base_spec() == a.base_spec()
        &&& b.is_init() == a.is_init()
        &&& b.page_view() == a.page_view()
        &&& forall|l: int|
            0 <= l < Self::k_levels() ==> #[trigger] b.free_list_view(l) == a.free_list_view(l)
        &&& b.live_view() == a.live_view()
    }

    /// With class `level`'s free list empty, take the first free page, mark
    /// it used, carve it into a fresh chain of class-`level` blocks, and pop
    /// the first of them. Returns null exactly when no page is free.
    #[verifier::loop_isolation(false)]
    #[verifier::rlimit(60)]
    pub fn alloc_page_for_small(&mut self, level: usize) -> (r: usize)
        requires
            old(self).wf(),
            old(self).is_init(),
            (level as int) < Self::k_levels(),
            old(self).free_list_view(level as int).len() == 0,
        ensures
            final(self).wf(),
            final(self).is_init(),
            final(self).base_spec() == old(self).base_spec(),
            (r == 0) <==> (forall|i: int|
                0 <= i < Self::n_pages() ==> !((#[trigger] old(self).page_view()[i]) is Free)),
            r == 0 ==> Self::same_views(*old(self), *final(self)),
            r != 0 ==> !old(self).live_view().dom().contains(r),
            r != 0 ==> final(self).valid_block(r, level as int),
            forall|i: int|
                #[trigger] Self::is_first_free(*old(self), i) ==> ({
                    &&& r != 0
                    &&& r == old(self).base_spec() + i * (PAGE_SIZE as int)
                    &&& final(self).page_view() == old(self).page_view().update(
                        i,
                        PageState::Slab { level: level as nat },
                    )
                    &&& final(self).free_list_view(level as int) == Self::slab_chain(
                        *old(self),
                        i,
                        level as int,
                    ).skip(1)
                    &&& forall|l: int|
                        0 <= l < Self::k_levels() && l != level ==> final(self).free_list_view(l)
                            == #[trigger] old(self).free_list_view(l)
                    &&& final(self).live_view() == old(self).live_view().insert(r, level as nat)
                }),
    {
        let ghost pre = *old(self);
        let ghost lvl = level as int;
        proof {
            self.lemma_header_fits();
            self.lemma_bsize_facts(lvl);
        }
        let pc: usize = Self::page_count();
        // Linear scan for the first free page.
        let mut i: usize = 0;
        while i < pc && self.page_header(i)
            invariant
                i <= pc,
                self.base == pre.base,
                self.mem@ == pre.mem@,
                self.pages@ == pre.pages@,
                self.free_lists@ == pre.free_lists@,
                self.live@ == pre.live@,
                forall|j: int| 0 <= j < i ==> !((#[trigger] self.pages@[j]) is Free),
            decreases pc - i,
        {
            i += 1;
        }
        if i == pc {
            return 0;
        }
        proof {
            assert(self.pages@[i as int] is Free);
            assert(Self::is_first_free(pre, i as int));
            assert(i >= 1);
            // The first-free index is unique, so the ensures' quantified
            // description speaks about this very page.
            assert forall|i2: int| Self::is_first_free(pre, i2) implies i2 == i as int by {
                if i2 < i as int {
                    assert(!(pre.page_view()[i2] is Free));
                } else if i2 > i as int {
                    assert(!(pre.page_view()[i as int] is Free));
                }
            }
        }
        let ghost chain = Self::slab_chain(pre, i as int, lvl);
        self.promote_to_slab(i, level);
        proof {
            assert(chain =~= Self::slab_chain(pre, i as int, lvl));
            assert(self.free_list_view(lvl) == chain);
            self.lemma_carve_addr(i as int, 0, lvl);
            assert(chain[0] == pre.base + (i as int) * (PAGE_SIZE as int));
        }
        let r = self.remove_free0(level);
        proof {
            assert(r == chain[0]);
            assert(self.free_list_view(lvl) == chain.skip(1));
        }
        r
    }

    /// Convert free page `i` into a class-`level` slab: mark it used, write
    /// each block's first word with its successor's address (zero in the
    /// last), and hang the whole chain off class `level`'s head.
    #[verifier::rlimit(100)]
    #[verifier::spinoff_prover]
    pub fn promote_to_slab(&mut self, i: usize, level: usize) -> (page_start: usize)
        requires
            old(self).wf(),
            old(self).is_init(),
            (level as int) < Self::k_levels(),
            old(self).free_list_view(level as int).len() == 0,
            (i as int) < Self::n_pages(),
            old(self).page_view()[i as int] is Free,
        ensures
            final(self).wf(),
            final(self).is_init(),
            final(self).base_spec() == old(self).base_spec(),
            page_start as int == old(self).base_spec() + (i as int) * (PAGE_SIZE as int),
            final(self).page_view() == old(self).page_view().update(
                i as int,
                PageState::Slab { level: level as nat },
            ),
            final(self).free_list_view(level as int) == Self::slab_chain(
                *old(self),
                i as int,
                level as int,
            ),
            final(self).free_list_view(level as int).len() >= 1,
            forall|l: int|
                0 <= l < Self::k_levels() && l != level ==> final(self).free_list_view(l)
                    == #[trigger] old(self).free_list_view(l),
            final(self).live_view() == old(self).live_view(),
    {
        let ghost pre = *old(self);
        let ghost lvl = level as int;
        proof {
            self.lemma_header_fits();
            self.lemma_bsize_facts(lvl);
            assert(i >= 1);
        }
        let kk: usize = Self::free_list_count();
        let lm: usize = Self::log2_min();
        proof {
            lemma_config_properties(self.base as int, LENGTH as int, MIN as int, PAGE_SIZE as int);
            assert(lm + level <= clog2(PAGE_SIZE as nat) < 32);
            vstd::bits::lemma_usize_pow2_no_overflow((lm + level) as nat);
            vstd::bits::lemma_usize_shl_is_mul(1usize, (level + lm) as usize);
            vstd::arithmetic::power2::lemma_pow2_adds(lm as nat, level as nat);
        }
        let size: usize = 1usize << (level + lm);
        proof {
            assert(size as int == Self::bsize(lvl));
        }
        // Mark the page used; it becomes a class-`level` slab forever.
        self.mem.set(1 + kk + i, 1);
        self.pages = Ghost(
            self.pages@.update(i as int, PageState::Slab { level: level as nat }),
        );
        proof {
            assert(PAGE_SIZE as int / Self::bsize(lvl) >= 1) by {
                vstd::arithmetic::div_mod::lemma_div_non_zero(
                    PAGE_SIZE as int,
                    Self::bsize(lvl),
                );
            }
            self.lemma_carve_addr(i as int, 0, lvl);
        }
        let page_start: usize = self.base + i * PAGE_SIZE;
        let count: usize = PAGE_SIZE / size;
        let ghost chain = Self::slab_chain(pre, i as int, lvl);
        let ghost m2 = self.mem@;
        let ghost wlo = (i as int) * (PAGE_SIZE as int) / 8;
        let ghost whi = ((i as int) + 1) * (PAGE_SIZE as int) / 8;
        proof {
            assert(chain.len() == count);
            assert(chain[0] == page_start);
        }
        // Link each block to its successor, the last to nothing.
        let mut b: usize = 0;
        while b < count
            invariant
                0 <= b <= count,
                lvl == level as int,
                0 <= lvl < Self::k_levels(),
                chain == Self::slab_chain(pre, i as int, lvl),
                chain.len() == count,
                wlo == (i as int) * (PAGE_SIZE as int) / 8,
                whi == ((i as int) + 1) * (PAGE_SIZE as int) / 8,
                count as int == PAGE_SIZE as int / Self::bsize(lvl),
                1 <= count,
                size as int == Self::bsize(lvl),
                page_start as int == self.base + (i as int) * (PAGE_SIZE as int),
                1 <= i,
                (i as int) < Self::n_pages(),
                self.base == pre.base,
                self.cfg_ok(),
                self.mem@.len() == Self::n_words(),
                self.pages@ == pre.pages@.update(
                    i as int,
                    PageState::Slab { level: level as nat },
                ),
                self.free_lists@ == pre.free_lists@,
                self.live@ == pre.live@,
                forall|j: int|
                    0 <= j < b ==> self.mem@[self.widx(#[trigger] chain[j])] == if j == count - 1 {
                        0usize
                    } else {
                        chain[j + 1]
                    },
                forall|n: int|
                    0 <= n < self.mem@.len() && !(wlo <= n < whi) ==> self.mem@[n] == m2[n],
            decreases count - b,
        {
            proof {
                self.lemma_carve_addr(i as int, b as int, lvl);
                if b + 1 < count {
                    self.lemma_carve_addr(i as int, b as int + 1, lvl);
                }
            }
            let a: usize = page_start + b * size;
            let w: usize = (a - self.base) / 8;
            let v: usize = if b + 1 == count {
                0
            } else {
                page_start + (b + 1) * size
            };
            self.mem.set(w, v);
            proof {
                assert(chain[b as int] == a);
                assert forall|j: int| 0 <= j < b + 1 implies self.mem@[self.widx(
                    #[trigger] chain[j],
                )] == if j == count - 1 {
                    0usize
                } else {
                    chain[j + 1]
                } by {
                    if j < b as int {
                        self.lemma_carve_addr(i as int, j, lvl);
                        self.lemma_carve_addr(i as int, b as int, lvl);
                        assert(j * (size as int) < (b as int) * (size as int)) by {
                            lemma_mul_strict_inequality(j, b as int, size as int);
                        }
                        assert(chain[j] != chain[b as int]);
                        assert(self.widx(chain[j]) != self.widx(chain[b as int]));
                    }
                }
            }
            b += 1;
        }
        // Hang the chain off the head.
        self.mem.set(1 + level, page_start);
        self.free_lists = Ghost(self.free_lists@.update(lvl, chain));
        proof {
            let mid = *self;
            assert(1 + kk + i < Self::hdr_words() <= wlo);
            // The chain's words carry the written links: the head write went
            // to a header word, below every block word.
            assert forall|j: int| 0 <= j < count implies (#[trigger] mid.mem@[mid.widx(chain[j])])
                == if j == count - 1 {
                0usize
            } else {
                chain[j + 1]
            } by {
                mid.lemma_carve_addr(i as int, j, lvl);
                assert(mid.widx(chain[j]) != 1 + lvl);
            }
            // Outside the carved page's words, the head word and the page
            // word, memory is untouched.
            assert forall|n: int|
                0 <= n < Self::n_words() && !(wlo <= n < whi) && n != 1 + kk + i && n != 1
                    + lvl implies #[trigger] mid.mem@[n] == pre.mem@[n] by {
                assert(mid.mem@[n] == m2[n]);
            }
            assert(mid.mem@[1 + kk + i] == m2[1 + kk + i]);
            assert(mid.page_word(i as int) == 1usize);
            assert(mid.head_word(lvl) == chain[0]);
            Self::lemma_promote_wf(pre, mid, i as int, lvl);
            assert(mid.free_list_view(lvl) == chain);
        }
        page_start
    }

    /// Re-establish the invariant after a page promotion: `mid` differs from
    /// the well-formed `pre` in one page gone from free to slab, the carved
    /// chain hung off class `level`'s head, the chain links written inside
    /// that page, and nothing else.
    #[verifier::rlimit(100)]
    #[verifier::spinoff_prover]
    pub(crate) proof fn lemma_promote_wf(pre: Self, mid: Self, i: int, level: int)
        requires
            pre.wf(),
            pre.is_init(),
            0 <= level < Self::k_levels(),
            pre.free_list_view(level).len() == 0,
            1 <= i < Self::n_pages(),
            pre.page_view()[i] is Free,
            mid.base == pre.base,
            mid.mem@.len() == Self::n_words(),
            pre.mem@.len() == Self::n_words(),
            mid.pages@ == pre.pages@.update(i, PageState::Slab { level: level as nat }),
            mid.free_lists@ == pre.free_lists@.update(level, Self::slab_chain(pre, i, level)),
            mid.live@ == pre.live@,
            mid.page_word(i) == 1usize,
            mid.head_word(level) == Self::slab_chain(pre, i, level)[0],
            forall|j: int|
                0 <= j < Self::slab_chain(pre, i, level).len() ==> (#[trigger] mid.mem@[mid.widx(
                    Self::slab_chain(pre, i, level)[j],
                )]) == if j == Self::slab_chain(pre, i, level).len() - 1 {
                    0usize
                } else {
                    Self::slab_chain(pre, i, level)[j + 1]
                },
            forall|n: int|
                0 <= n < Self::n_words() && !(i * (PAGE_SIZE as int) / 8 <= n < (i + 1) * (
                PAGE_SIZE as int) / 8) && n != 1 + Self::k_levels() + i && n != 1 + level ==> (
                #[trigger] mid.mem@[n]) == pre.mem@[n],
        ensures
            mid.wf(),
            mid.is_init(),
    {
        pre.lemma_header_fits();
        pre.lemma_bsize_facts(level);
        let chain = Self::slab_chain(pre, i, level);
        let count = chain.len() as int;
        let wlo = i * (PAGE_SIZE as int) / 8;
        let whi = (i + 1) * (PAGE_SIZE as int) / 8;
        let kk = Self::k_levels();
        assert(mid.cfg_ok());
        assert(PAGE_SIZE as int / Self::bsize(level) >= 1) by {
            vstd::arithmetic::div_mod::lemma_div_non_zero(
                PAGE_SIZE as int,
                Self::bsize(level),
            );
        }
        mid.lemma_carve_addr(i, 0, level);
        assert(count == PAGE_SIZE as int / Self::bsize(level));
        assert(count >= 1);
        // Chain entries are pairwise distinct valid blocks.
        assert forall|j: int| 0 <= j < count implies mid.valid_block(
            #[trigger] chain[j],
            level,
        ) by {
            mid.lemma_carve_addr(i, j, level);
        }
        assert forall|j1: int, j2: int| 0 <= j1 < j2 < count implies chain[j1] != chain[j2] by {
            mid.lemma_carve_addr(i, j1, level);
            mid.lemma_carve_addr(i, j2, level);
            assert(j1 * Self::bsize(level) < j2 * Self::bsize(level)) by {
                lemma_mul_strict_inequality(j1, j2, Self::bsize(level));
            }
        }
        // The header words kept their values.
        assert forall|n: int|
            0 <= n < Self::hdr_words() && n != 1 + kk + i && n != 1 + level implies #[trigger] mid.mem@[n]
            == pre.mem@[n] by {
            assert(Self::hdr_words() <= wlo);
        }
        assert(mid.mem@[0] == pre.mem@[0]);
        assert(mid.is_init());
        assert forall|i2: int| 0 <= i2 < Self::n_pages() implies #[trigger] mid.page_word(i2)
            == if i2 == i {
            1usize
        } else {
            pre.page_word(i2)
        } by {
            if i2 != i {
                assert(1 + kk + i2 < Self::hdr_words());
            }
        }
        // Pages: only page i changed, from free to slab; no run touched it.
        assert(mid.inv_pages()) by {
            assert forall|i2: int|
                0 <= i2 < Self::n_pages() implies ((#[trigger] mid.page_word(i2)) == 0
                <==> mid.pages@[i2] is Free) && (mid.page_word(i2) == 0 || mid.page_word(i2)
                == 1) by {}
            assert forall|i2: int|
                0 <= i2 < Self::n_pages() implies ((#[trigger] mid.pages@[i2])
                matches PageState::Run { start, len } ==> {
                &&& 0 <= start <= i2
                &&& i2 < start + len
                &&& start + len <= Self::n_pages()
                &&& forall|j: int|
                    start <= j < start + len ==> mid.pages@[j] == (PageState::Run { start, len })
            }) by {
                if i2 != i {
                    match mid.pages@[i2] {
                        PageState::Run { start, len } => {
                            assert(pre.pages@[i2] == (PageState::Run { start, len }));
                            assert forall|j: int|
                                start <= j < start + len implies mid.pages@[j] == (PageState::Run {
                                start,
                                len,
                            }) by {
                                assert(pre.pages@[j] == (PageState::Run { start, len }));
                                assert(j != i);
                            }
                        },
                        _ => {},
                    }
                }
            }
        }
        // Chains: class `level` carries the fresh chain; the others are
        // untouched, their words lying outside the carved page.
        assert forall|l2: int| 0 <= l2 < Self::k_levels() implies mid.inv_chain(l2) by {
            assert(pre.inv_chain(l2));
            let s2 = pre.free_lists@[l2];
            if l2 == level {
                assert(mid.free_lists@[level] == chain);
            } else {
                assert(mid.free_lists@[l2] == s2);
                assert(mid.head_word(l2) == pre.head_word(l2));
                assert forall|j: int| 0 <= j < s2.len() implies mid.valid_block(
                    #[trigger] s2[j],
                    l2,
                ) && mid.mem@[mid.widx(s2[j])] == pre.mem@[pre.widx(s2[j])] by {
                    pre.lemma_block_facts(s2[j], l2);
                    assert(pre.page_of(s2[j]) != i);
                    assert(mid.valid_block(s2[j], l2));
                    pre.lemma_word_outside_page(s2[j], l2, i);
                }
            }
        }
        // Handed-out blocks: untouched, still valid, still off every list.
        assert forall|a2: usize| #[trigger] mid.live@.dom().contains(a2) implies mid.valid_block(
            a2,
            mid.live@[a2] as int,
        ) by {
            assert(pre.live@.dom().contains(a2));
            pre.lemma_block_facts(a2, pre.live@[a2] as int);
        }
        assert forall|a2: usize, l2: int, j: int|
            #![trigger mid.live@.dom().contains(a2), mid.free_lists@[l2][j]]
            mid.live@.dom().contains(a2) && 0 <= l2 < Self::k_levels() && 0 <= j
                < mid.free_lists@[l2].len() implies mid.free_lists@[l2][j] != a2 by {
            assert(pre.inv_chain(l2));
            assert(pre.live@.dom().contains(a2));
            if l2 == level {
                // A handed-out block lies in a slab page, not in the page
                // just carved.
                assert(pre.valid_block(a2, pre.live@[a2] as int));
                assert(pre.page_of(a2) != i);
                mid.lemma_carve_addr(i, j, level);
                assert(mid.page_of(chain[j]) == i);
            } else {
                assert(mid.free_lists@[l2][j] == pre.free_lists@[l2][j]);
            }
        }
        assert(mid.wf());
    }

    /// Pages `[b, b + n)` are all free.
    pub open spec fn run_free(s: Self, b: int, n: int) -> bool {
        forall|j: int| b <= j < b + n ==> (#[trigger] s.page_view()[j]) is Free
    }

    /// `b` is the highest start of a free `n`-page run: the scan prefers
    /// high addresses, to leave low pages for slab growth.
    pub open spec fn is_best_run(s: Self, b: int, n: int) -> bool {
        &&& 0 <= b <= Self::n_pages() - n
        &&& Self::run_free(s, b, n)
        &&& forall|b2: int| b < b2 <= Self::n_pages() - n ==> !Self::run_free(s, b2, n)
    }

    /// Re-establish the invariant after `n` free pages starting at `b` are
    /// taken for one multi-page block: only their page words changed, to one.
    #[verifier::rlimit(60)]
    #[verifier::spinoff_prover]
    pub(crate) proof fn lemma_mark_run_wf(pre: Self, mid: Self, b: int, n: int)
        requires
            pre.wf(),
            pre.is_init(),
            1 <= n,
            0 <= b,
            b + n <= Self::n_pages(),
            Self::run_free(pre, b, n),
            mid.base == pre.base,
            mid.mem@.len() == Self::n_words(),
            pre.mem@.len() == Self::n_words(),
            mid.pages@ == Seq::new(
                Self::n_pages() as nat,
                |i: int|
                    if b <= i < b + n {
                        PageState::Run { start: b, len: n as nat }
                    } else {
                        pre.pages@[i]
                    },
            ),
            mid.free_lists@ == pre.free_lists@,
            mid.live@ == pre.live@,
            forall|i: int| b <= i < b + n ==> #[trigger] mid.page_word(i) == 1usize,
            forall|n2: int|
                0 <= n2 < Self::n_words() && !(1 + Self::k_levels() + b <= n2 < 1
                    + Self::k_levels() + b + n) ==> (#[trigger] mid.mem@[n2]) == pre.mem@[n2],
        ensures
            mid.wf(),
            mid.is_init(),
    {
        pre.lemma_header_fits();
        let kk = Self::k_levels();
        assert(mid.mem@[0] == pre.mem@[0]);
        assert(mid.is_init());
        assert forall|i2: int| 0 <= i2 < Self::n_pages() && !(b <= i2 < b + n) implies #[trigger] mid.page_word(
            i2,
        ) == pre.page_word(i2) by {
            assert(1 + kk + i2 < Self::hdr_words());
        }
        assert(mid.inv_pages()) by {
            assert forall|i2: int|
                0 <= i2 < Self::n_pages() implies ((#[trigger] mid.page_word(i2)) == 0
                <==> mid.pages@[i2] is Free) && (mid.page_word(i2) == 0 || mid.page_word(i2)
                == 1) by {}
            assert forall|i2: int|
                0 <= i2 < Self::n_pages() implies ((#[trigger] mid.pages@[i2])
                matches PageState::Run { start, len } ==> {
                &&& 0 <= start <= i2
                &&& i2 < start + len
                &&& start + len <= Self::n_pages()
                &&& forall|j: int|
                    start <= j < start + len ==> mid.pages@[j] == (PageState::Run { start, len })
            }) by {
                if b <= i2 < b + n {
                    assert(mid.pages@[i2] == (PageState::Run { start: b, len: n as nat }));
                } else {
                    match mid.pages@[i2] {
                        PageState::Run { start, len } => {
                            assert(pre.pages@[i2] == (PageState::Run { start, len }));
                            assert forall|j: int|
                                start <= j < start + len implies mid.pages@[j] == (PageState::Run {
                                start,
                                len,
                            }) by {
                                assert(pre.pages@[j] == (PageState::Run { start, len }));
                                assert(!(pre.pages@[j] is Free));
                                assert(!(b <= j < b + n));
                            }
                        },
                        _ => {},
                    }
                }
            }
        }
        // Chains and handed-out blocks sit in slab pages, which kept their
        // state, and in words past the header, which kept their values.
        assert forall|l2: int| 0 <= l2 < Self::k_levels() implies mid.inv_chain(l2) by {
            assert(pre.inv_chain(l2));
            let s2 = pre.free_lists@[l2];
            assert(mid.head_word(l2) == pre.head_word(l2));
            assert forall|j: int| 0 <= j < s2.len() implies mid.valid_block(#[trigger] s2[j], l2)
                && mid.mem@[mid.widx(s2[j])] == pre.mem@[pre.widx(s2[j])] by {
                pre.lemma_block_facts(s2[j], l2);
                assert(!(b <= pre.page_of(s2[j]) < b + n));
                assert(mid.valid_block(s2[j], l2));
            }
        }
        assert forall|a2: usize| #[trigger] mid.live@.dom().contains(a2) implies mid.valid_block(
            a2,
            mid.live@[a2] as int,
        ) by {
            assert(pre.live@.dom().contains(a2));
            pre.lemma_block_facts(a2, pre.live@[a2] as int);
            assert(!(b <= pre.page_of(a2) < b + n));
        }
        assert(mid.inv_live()) by {
            assert forall|a2: usize, l2: int, j: int|
                #![trigger mid.live@.dom().contains(a2), mid.free_lists@[l2][j]]
                mid.live@.dom().contains(a2) && 0 <= l2 < Self::k_levels() && 0 <= j
                    < mid.free_lists@[l2].len() implies mid.free_lists@[l2][j] != a2 by {
                assert(pre.live@.dom().contains(a2));
                assert(pre.free_lists@[l2][j] != a2);
            }
        }
        assert(mid.wf());
    }

    /// Serve a request of more than a page: find the highest-placed run of
    /// enough free pages, mark them used, and return the run's byte address.
    /// Returns null exactly when no such run exists.
    #[verifier::rlimit(60)]
    #[verifier::spinoff_prover]
    pub fn alloc_n_page_for_big(&mut self, size: usize) -> (r: usize)
        requires
            old(self).wf(),
            old(self).is_init(),
            size <= 0x8000_0000,
            PAGE_SIZE < size,
        ensures
            final(self).wf(),
            final(self).is_init(),
            final(self).base_spec() == old(self).base_spec(),
            ({
                let n = Self::spec_need_pages(size as int);
                &&& ((r == 0) <==> !(exists|b: int|
                    0 <= b <= Self::n_pages() - n && Self::run_free(*old(self), b, n)))
                &&& (r == 0 ==> Self::same_views(*old(self), *final(self)))
                &&& (r != 0 ==> (r - old(self).base_spec()) % (PAGE_SIZE as int) == 0)
                &&& (r != 0 ==> old(self).base_spec() <= r && r + n * (PAGE_SIZE as int) <= old(
                    self,
                ).base_spec() + LENGTH)
                &&& forall|b: int|
                    #[trigger] Self::is_best_run(*old(self), b, n) ==> ({
                        &&& r != 0
                        &&& r == old(self).base_spec() + b * (PAGE_SIZE as int)
                        &&& final(self).page_view() == Seq::new(
                            Self::n_pages() as nat,
                            |i: int|
                                if b <= i < b + n {
                                    PageState::Run { start: b, len: n as nat }
                                } else {
                                    old(self).page_view()[i]
                                },
                        )
                        &&& forall|l: int|
                            0 <= l < Self::k_levels() ==> final(self).free_list_view(l)
                                == #[trigger] old(self).free_list_view(l)
                        &&& final(self).live_view() == old(self).live_view()
                    })
            }),
    {
        let ghost pre = *old(self);
        proof {
            self.lemma_header_fits();
        }
        let n: usize = Self::need_page_count(size);
        let pc: usize = Self::page_count();
        let kk: usize = Self::free_list_count();
        proof {
            lemma_div_pos_is_pos(size as int, PAGE_SIZE as int);
            vstd::arithmetic::div_mod::lemma_div_non_zero(size as int, PAGE_SIZE as int);
            assert(n >= 1);
        }
        if n > pc {
            return 0;
        }
        // Walk candidate starts from the highest down to zero.
        let mut begin: usize = pc - n + 1;
        while begin > 0
            invariant
                begin <= pc - n + 1,
                n >= 1,
                n <= pc,
                pre == *old(self),
                pc as int == Self::n_pages(),
                kk as int == Self::k_levels(),
                n as int == Self::spec_need_pages(size as int),
                size <= 0x8000_0000,
                PAGE_SIZE < size,
                pre.wf(),
                pre.is_init(),
                self.wf(),
                self.is_init(),
                self.base == pre.base,
                self.mem@ == pre.mem@,
                self.pages@ == pre.pages@,
                self.free_lists@ == pre.free_lists@,
                self.live@ == pre.live@,
                forall|b: int|
                    begin <= b <= pc - n ==> !Self::run_free(pre, b, n as int),
            decreases begin,
        {
            let b0: usize = begin - 1;
            proof {
                self.lemma_header_fits();
            }
            // Are pages b0 .. b0 + n all free?
            let mut j: usize = 0;
            let mut ok: bool = true;
            while j < n
                invariant
                    j <= n,
                    b0 + n <= pc,
                    pc as int == Self::n_pages(),
                    self.wf(),
                    self.is_init(),
                    self.base == pre.base,
                    self.mem@ == pre.mem@,
                    self.pages@ == pre.pages@,
                    self.free_lists@ == pre.free_lists@,
                    self.live@ == pre.live@,
                    ok <==> (forall|t: int|
                        0 <= t < j ==> (#[trigger] self.pages@[b0 + t]) is Free),
                decreases n - j,
            {
                if self.page_header(b0 + j) {
                    ok = false;
                }
                j += 1;
            }
            if ok {
                proof {
                    assert(Self::run_free(pre, b0 as int, n as int)) by {
                        assert forall|t: int|
                            b0 <= t < b0 + n implies (#[trigger] pre.page_view()[t]) is Free by {
                            assert(pre.pages@[b0 + (t - b0)] is Free);
                        }
                    }
                    assert(Self::is_best_run(pre, b0 as int, n as int));
                    assert forall|b2: int| Self::is_best_run(pre, b2, n as int) implies b2
                        == b0 as int by {
                        if b2 < b0 as int {
                            assert(!Self::run_free(pre, b0 as int, n as int));
                        }
                    }
                }
                // Take the run.
                let mut j2: usize = 0;
                let ghost m1 = self.mem@;
                while j2 < n
                    invariant
                        j2 <= n,
                        b0 + n <= pc,
                        kk as int == Self::k_levels(),
                        1 + kk + b0 + n < Self::n_words(),
                        self.base == pre.base,
                        self.cfg_ok(),
                        self.mem@.len() == Self::n_words(),
                        self.pages@ == pre.pages@,
                        self.free_lists@ == pre.free_lists@,
                        self.live@ == pre.live@,
                        forall|t: int|
                            0 <= t < j2 ==> #[trigger] self.mem@[1 + kk + b0 + t] == 1usize,
                        forall|n2: int|
                            0 <= n2 < self.mem@.len() && !(1 + kk + b0 <= n2 < 1 + kk + b0 + j2)
                                ==> self.mem@[n2] == m1[n2],
                    decreases n - j2,
                {
                    self.mem.set(1 + kk + b0 + j2, 1);
                    j2 += 1;
                }
                self.pages = Ghost(
                    Seq::new(
                        Self::n_pages() as nat,
                        |i: int|
                            if b0 <= i < b0 + n {
                                PageState::Run { start: b0 as int, len: n as nat }
                            } else {
                                pre.pages@[i]
                            },
                    ),
                );
                proof {
                    let mid = *self;
                    assert forall|i2: int| b0 <= i2 < b0 + n implies #[trigger] mid.page_word(i2)
                        == 1usize by {
                        assert(mid.mem@[1 + kk + b0 + (i2 - b0)] == 1usize);
                    }
                    Self::lemma_mark_run_wf(pre, mid, b0 as int, n as int);
                    assert((b0 as int) * (PAGE_SIZE as int) % (PAGE_SIZE as int) == 0) by {
                        lemma_mod_multiples_basic(b0 as int, PAGE_SIZE as int);
                        lemma_mul_is_commutative(b0 as int, PAGE_SIZE as int);
                    }
                    assert((b0 as int) * (PAGE_SIZE as int) + (n as int) * (PAGE_SIZE as int)
                        <= LENGTH) by {
                        lemma_mul_is_distributive_add(PAGE_SIZE as int, b0 as int, n as int);
                        lemma_mul_is_commutative(b0 as int + n as int, PAGE_SIZE as int);
                        lemma_mul_inequality(b0 as int + n as int, Self::n_pages(), PAGE_SIZE as int);
                        lemma_mul_is_commutative(Self::n_pages(), PAGE_SIZE as int);
                    }
                    assert(0 <= (b0 as int) * (PAGE_SIZE as int)) by (nonlinear_arith)
                        requires
                            0 <= b0 as int,
                            0 < PAGE_SIZE as int,
                    ;
                }
                let r: usize = self.base + b0 * PAGE_SIZE;
                proof {
                    assert(r != 0);
                }
                return r;
            }
            begin = b0;
        }
        0
    }

    /// The size class that serves a request of `size` bytes with alignment
    /// `align`: the class of whichever is larger, so that the block is big
    /// enough and, being a naturally placed power of two, aligned enough.
    pub open spec fn eff_level(size: int, align: int) -> int {
        Self::spec_size_level(
            if size >= align {
                size
            } else {
                align
            },
        )
    }

    /// Re-establish the invariant after the `n`-page run at `b` is released:
    /// only its page words changed, to zero.
    #[verifier::rlimit(60)]
    #[verifier::spinoff_prover]
    pub(crate) proof fn lemma_release_run_wf(pre: Self, mid: Self, b: int, n: int)
        requires
            pre.wf(),
            pre.is_init(),
            1 <= n,
            0 <= b,
            b + n <= Self::n_pages(),
            forall|j: int|
                b <= j < b + n ==> #[trigger] pre.page_view()[j] == (PageState::Run {
                    start: b,
                    len: n as nat,
                }),
            mid.base == pre.base,
            mid.mem@.len() == Self::n_words(),
            pre.mem@.len() == Self::n_words(),
            mid.pages@ == Seq::new(
                Self::n_pages() as nat,
                |i: int|
                    if b <= i < b + n {
                        PageState::Free
                    } else {
                        pre.pages@[i]
                    },
            ),
            mid.free_lists@ == pre.free_lists@,
            mid.live@ == pre.live@,
            forall|i: int| b <= i < b + n ==> #[trigger] mid.page_word(i) == 0usize,
            forall|n2: int|
                0 <= n2 < Self::n_words() && !(1 + Self::k_levels() + b <= n2 < 1
                    + Self::k_levels() + b + n) ==> (#[trigger] mid.mem@[n2]) == pre.mem@[n2],
        ensures
            mid.wf(),
            mid.is_init(),
    {
        pre.lemma_header_fits();
        let kk = Self::k_levels();
        assert(mid.mem@[0] == pre.mem@[0]);
        assert(mid.is_init());
        assert forall|i2: int| 0 <= i2 < Self::n_pages() && !(b <= i2 < b + n) implies #[trigger] mid.page_word(
            i2,
        ) == pre.page_word(i2) by {
            assert(1 + kk + i2 < Self::hdr_words());
        }
        assert(mid.inv_pages()) by {
            assert(pre.pages@[0] == (PageState::Slab { level: 0nat }));
            assert forall|i2: int|
                0 <= i2 < Self::n_pages() implies ((#[trigger] mid.page_word(i2)) == 0
                <==> mid.pages@[i2] is Free) && (mid.page_word(i2) == 0 || mid.page_word(i2)
                == 1) by {}
            assert forall|i2: int|
                0 <= i2 < Self::n_pages() implies ((#[trigger] mid.pages@[i2])
                matches PageState::Run { start, len } ==> {
                &&& 0 <= start <= i2
                &&& i2 < start + len
                &&& start + len <= Self::n_pages()
                &&& forall|j: int|
                    start <= j < start + len ==> mid.pages@[j] == (PageState::Run { start, len })
            }) by {
                if !(b <= i2 < b + n) {
                    match mid.pages@[i2] {
                        PageState::Run { start, len } => {
                            assert(pre.pages@[i2] == (PageState::Run { start, len }));
                            // Another run cannot overlap the released one:
                            // a shared page would make them the same run.
                            assert forall|j: int|
                                start <= j < start + len implies mid.pages@[j] == (PageState::Run {
                                start,
                                len,
                            }) by {
                                assert(pre.pages@[j] == (PageState::Run { start, len }));
                                if b <= j < b + n {
                                    assert(pre.pages@[j] == (PageState::Run {
                                        start: b,
                                        len: n as nat,
                                    }));
                                    assert(start == b && len == n as nat);
                                    assert(b <= i2 < b + n);
                                    assert(false);
                                }
                            }
                        },
                        _ => {},
                    }
                }
            }
        }
        // Chains and handed-out blocks sit in slab pages, which kept their
        // state, and in words past the header, which kept their values.
        assert forall|l2: int| 0 <= l2 < Self::k_levels() implies mid.inv_chain(l2) by {
            assert(pre.inv_chain(l2));
            let s2 = pre.free_lists@[l2];
            assert(mid.head_word(l2) == pre.head_word(l2));
            assert forall|j: int| 0 <= j < s2.len() implies mid.valid_block(#[trigger] s2[j], l2)
                && mid.mem@[mid.widx(s2[j])] == pre.mem@[pre.widx(s2[j])] by {
                pre.lemma_block_facts(s2[j], l2);
                if b <= pre.page_of(s2[j]) < b + n {
                    assert(pre.page_view()[pre.page_of(s2[j])] == (PageState::Run {
                        start: b,
                        len: n as nat,
                    }));
                    assert(false);
                }
                assert(mid.valid_block(s2[j], l2));
            }
        }
        assert forall|a2: usize| #[trigger] mid.live@.dom().contains(a2) implies mid.valid_block(
            a2,
            mid.live@[a2] as int,
        ) by {
            assert(pre.live@.dom().contains(a2));
            pre.lemma_block_facts(a2, pre.live@[a2] as int);
            if b <= pre.page_of(a2) < b + n {
                assert(pre.page_view()[pre.page_of(a2)] == (PageState::Run {
                    start: b,
                    len: n as nat,
                }));
                assert(false);
            }
        }
        assert(mid.inv_live()) by {
            assert forall|a2: usize, l2: int, j: int|
                #![trigger mid.live@.dom().contains(a2), mid.free_lists@[l2][j]]
                mid.live@.dom().contains(a2) && 0 <= l2 < Self::k_levels() && 0 <= j
                    < mid.free_lists@[l2].len() implies mid.free_lists@[l2][j] != a2 by {
                assert(pre.live@.dom().contains(a2));
                assert(pre.free_lists@[l2][j] != a2);
            }
        }
        assert(mid.wf());
    }

    /// Return a block. A null pointer is a no-op. A sub-page block goes back
    /// onto its class's free list; a multi-page block's pages go back to the
    /// pool. The size and alignment must be the ones the block was allocated
    /// with.
    #[verifier::rlimit(60)]
    pub fn dealloc(&mut self, ptr: usize, size: usize, align: usize)
        requires
            old(self).wf(),
            size <= 0x8000_0000,
            1 <= align <= PAGE_SIZE,
            vstd::arithmetic::power2::is_pow2(align as int),
            ptr != 0 ==> Self::owns_block(*old(self), ptr, size as int, align as int),
        ensures
            final(self).wf(),
            final(self).base_spec() == old(self).base_spec(),
            final(self).is_init() == old(self).is_init(),
            ptr == 0 ==> Self::same_views(*old(self), *final(self)),
            ptr != 0 ==> Self::dealloc_post(
                *old(self),
                *final(self),
                ptr,
                size as int,
                align as int,
            ),
    {
        if ptr == 0 {
            return ;
        }
        let ghost pre = *old(self);
        proof {
            self.lemma_header_fits();
        }
        let eff: usize = if align > size {
            align
        } else {
            size
        };
        let level: usize = self.size_level(eff);
        let kk: usize = Self::free_list_count();
        if level < kk {
            proof {
                assert(self.is_init()) by {
                    if self.mem@[0] == 0 {
                        assert(self.pristine());
                        assert(!self.live@.dom().contains(ptr));
                    }
                }
            }
            self.insert_free(ptr, level);
        } else {
            let loc: usize = ptr - self.base;
            let idx: usize = loc / PAGE_SIZE;
            let n: usize = Self::need_page_count(size);
            proof {
                assert((idx as int) < Self::n_pages()) by {
                    assert((loc as int) < Self::n_pages() * (PAGE_SIZE as int));
                    lemma_mul_is_commutative(Self::n_pages(), PAGE_SIZE as int);
                    lemma_multiply_divide_lt(loc as int, PAGE_SIZE as int, Self::n_pages());
                }
                assert(self.pages@[idx as int] == (PageState::Run {
                    start: idx as int,
                    len: n as nat,
                }));
                assert(1 <= n && idx + n <= Self::n_pages());
            }
            let ghost m1 = self.mem@;
            let mut j: usize = 0;
            while j < n
                invariant
                    j <= n,
                    idx as int + n <= Self::n_pages(),
                    kk as int == Self::k_levels(),
                    1 + kk + idx + n < Self::n_words(),
                    self.base == pre.base,
                    self.cfg_ok(),
                    self.mem@.len() == Self::n_words(),
                    self.pages@ == pre.pages@,
                    self.free_lists@ == pre.free_lists@,
                    self.live@ == pre.live@,
                    forall|t: int|
                        0 <= t < j ==> #[trigger] self.mem@[1 + kk + idx + t] == 0usize,
                    forall|n2: int|
                        0 <= n2 < self.mem@.len() && !(1 + kk + idx <= n2 < 1 + kk + idx + j)
                            ==> self.mem@[n2] == m1[n2],
                decreases n - j,
            {
                self.mem.set(1 + kk + idx + j, 0);
                j += 1;
            }
            self.pages = Ghost(
                Seq::new(
                    Self::n_pages() as nat,
                    |i: int|
                        if idx <= i < idx + n {
                            PageState::Free
                        } else {
                            pre.pages@[i]
                        },
                ),
            );
            proof {
                let mid = *self;
                assert forall|i2: int| idx <= i2 < idx + n implies #[trigger] mid.page_word(i2)
                    == 0usize by {
                    assert(mid.mem@[1 + kk + idx + (i2 - idx)] == 0usize);
                }
                Self::lemma_release_run_wf(pre, mid, idx as int, n as int);
            }
        }
    }

    /// Some page is free, so some page is the first free one.
    pub proof fn lemma_first_free_exists(s: Self, j: int)
        requires
            0 <= j < Self::n_pages(),
            s.page_view()[j] is Free,
        ensures
            exists|i: int| #[trigger] Self::is_first_free(s, i),
        decreases j,
    {
        if exists|j2: int| 0 <= j2 < j && (#[trigger] s.page_view()[j2]) is Free {
            let j2 = choose|j2: int| 0 <= j2 < j && (#[trigger] s.page_view()[j2]) is Free;
            Self::lemma_first_free_exists(s, j2);
        } else {
            assert(Self::is_first_free(s, j));
        }
    }

    /// Some free run exists, so some free run is the highest-placed one.
    pub proof fn lemma_best_run_exists(s: Self, b: int, n: int)
        requires
            0 <= b <= Self::n_pages() - n,
            Self::run_free(s, b, n),
        ensures
            exists|b2: int| #[trigger] Self::is_best_run(s, b2, n),
        decreases Self::n_pages() - n - b,
    {
        if exists|b2: int| b < b2 <= Self::n_pages() - n && #[trigger] Self::run_free(s, b2, n) {
            let b2 = choose|b2: int|
                b < b2 <= Self::n_pages() - n && #[trigger] Self::run_free(s, b2, n);
            Self::lemma_best_run_exists(s, b2, n);
        } else {
            assert(Self::is_best_run(s, b, n));
        }
    }

    /// The state an operation acts on once lazy initialisation is settled:
    /// the state itself if the marker is already written, else the state
    /// `init` leaves.
    pub open spec fn lazy_init_views(pre: Self, mid: Self) -> bool {
        if pre.is_init() {
            mid == pre
        } else {
            Self::init_views(pre, mid)
        }
    }

    /// What `alloc` does to an initialised state `mid`: pop the head of the
    /// class's list, or carve the first free page and pop, or take the best
    /// free run; null exactly on exhaustion.
    pub open spec fn alloc_post(mid: Self, post: Self, size: int, align: int, r: usize) -> bool {
        let l = Self::eff_level(size, align);
        let n = Self::spec_need_pages(size);
        if l < Self::k_levels() {
            if mid.free_list_view(l).len() > 0 {
                &&& r != 0
                &&& r == mid.free_list_view(l)[0]
                &&& post.free_list_view(l) == mid.free_list_view(l).skip(1)
                &&& forall|l2: int|
                    0 <= l2 < Self::k_levels() && l2 != l ==> post.free_list_view(l2)
                        == #[trigger] mid.free_list_view(l2)
                &&& post.page_view() == mid.page_view()
                &&& !mid.live_view().dom().contains(r)
                &&& post.live_view() == mid.live_view().insert(r, l as nat)
            } else {
                &&& ((r == 0) <==> (forall|i: int|
                    0 <= i < Self::n_pages() ==> !((#[trigger] mid.page_view()[i]) is Free)))
                &&& (r == 0 ==> Self::same_views(mid, post))
                &&& (r != 0 ==> !mid.live_view().dom().contains(r) && post.live_view()
                    == mid.live_view().insert(r, l as nat))
                &&& (r != 0 ==> forall|i2: int|
                    0 <= i2 < Self::n_pages() && !((#[trigger] mid.page_view()[i2]) is Free)
                        ==> post.page_view()[i2] == mid.page_view()[i2])
                &&& forall|i: int|
                    #[trigger] Self::is_first_free(mid, i) ==> ({
                        &&& r == mid.base_spec() + i * (PAGE_SIZE as int)
                        &&& post.page_view() == mid.page_view().update(
                            i,
                            PageState::Slab { level: l as nat },
                        )
                        &&& post.free_list_view(l) == Self::slab_chain(mid, i, l).skip(1)
                        &&& forall|l2: int|
                            0 <= l2 < Self::k_levels() && l2 != l ==> post.free_list_view(l2)
                                == #[trigger] mid.free_list_view(l2)
                    })
            }
        } else {
            &&& ((r == 0) <==> !(exists|b: int|
                0 <= b <= Self::n_pages() - n && Self::run_free(mid, b, n)))
            &&& (r == 0 ==> Self::same_views(mid, post))
            &&& (r != 0 ==> post.live_view() == mid.live_view() && (r - mid.base_spec()) % (
            PAGE_SIZE as int) == 0)
            &&& (r != 0 ==> forall|l2: int|
                0 <= l2 < Self::k_levels() ==> post.free_list_view(l2)
                    == #[trigger] mid.free_list_view(l2))
            &&& (r != 0 ==> forall|i2: int|
                0 <= i2 < Self::n_pages() && !((#[trigger] mid.page_view()[i2]) is Free)
                    ==> post.page_view()[i2] == mid.page_view()[i2])
            &&& forall|b: int|
                #[trigger] Self::is_best_run(mid, b, n) ==> ({
                    &&& r == mid.base_spec() + b * (PAGE_SIZE as int)
                    &&& post.page_view() == Seq::new(
                        Self::n_pages() as nat,
                        |i: int|
                            if b <= i < b + n {
                                PageState::Run { start: b, len: n as nat }
                            } else {
                                mid.page_view()[i]
                            },
                    )
                })
        }
    }

    /// `ptr` is a block this allocator handed out and has not yet taken
    /// back, allocated with `size` and `align`.
    pub open spec fn owns_block(s: Self, ptr: usize, size: int, align: int) -> bool {
        let l = Self::eff_level(size, align);
        if l < Self::k_levels() {
            &&& s.live_view().dom().contains(ptr)
            &&& s.live_view()[ptr] == l
        } else {
            &&& s.is_init()
            &&& s.base_spec() < ptr
            &&& ptr - s.base_spec() < LENGTH
            &&& (ptr - s.base_spec()) % (PAGE_SIZE as int) == 0
            &&& s.page_view()[(ptr - s.base_spec()) / (PAGE_SIZE as int)] == (PageState::Run {
                start: (ptr - s.base_spec()) / (PAGE_SIZE as int),
                len: Self::spec_need_pages(size) as nat,
            })
        }
    }

    /// What freeing a non-null owned block does: a sub-page block becomes
    /// the new head of its class's list; a multi-page block's pages go back
    /// to the pool.
    pub open spec fn dealloc_post(pre: Self, post: Self, ptr: usize, size: int, align: int) -> bool {
        let l = Self::eff_level(size, align);
        if l < Self::k_levels() {
            &&& post.free_list_view(l) == seq![ptr] + pre.free_list_view(l)
            &&& forall|l2: int|
                0 <= l2 < Self::k_levels() && l2 != l ==> post.free_list_view(l2)
                    == #[trigger] pre.free_list_view(l2)
            &&& post.page_view() == pre.page_view()
            &&& post.live_view() == pre.live_view().remove(ptr)
        } else {
            ({
                let idx = (ptr - pre.base_spec()) / (PAGE_SIZE as int);
                let n = Self::spec_need_pages(size);
                &&& post.page_view() == Seq::new(
                    Self::n_pages() as nat,
                    |i: int|
                        if idx <= i < idx + n {
                            PageState::Free
                        } else {
                            pre.page_view()[i]
                        },
                )
                &&& forall|l2: int|
                    0 <= l2 < Self::k_levels() ==> post.free_list_view(l2)
                        == #[trigger] pre.free_list_view(l2)
                &&& post.live_view() == pre.live_view()
            })
        }
    }

    /// Allocate `size` bytes with the given power-of-two alignment. Runs
    /// lazy initialisation on first use, serves sub-page requests from the
    /// size-class free lists (carving a fresh page when a list is empty) and
    /// larger requests from the page pool. Returns null exactly on
    /// exhaustion; a non-null result lies in the arena, aligned as asked.
    #[verifier::rlimit(60)]
    pub fn allocate(&mut self, size: usize, align: usize) -> (r: usize)
        requires
            old(self).wf(),
            size <= 0x8000_0000,
            1 <= align <= PAGE_SIZE,
            vstd::arithmetic::power2::is_pow2(align as int),
        ensures
            final(self).wf(),
            final(self).is_init(),
            final(self).base_spec() == old(self).base_spec(),
            r != 0 ==> old(self).base_spec() < r && r < old(self).base_spec() + LENGTH,
            r != 0 ==> (r - old(self).base_spec()) % (align as int) == 0,
            exists|mid: Self|
                #[trigger] Self::lazy_init_views(*old(self), mid) && Self::alloc_post(
                    mid,
                    *final(self),
                    size as int,
                    align as int,
                    r,
                ),
    {
        let ghost pre = *old(self);
        proof {
            self.lemma_header_fits();
        }
        if self.start() == 0 {
            self.init();
        }
        let ghost mid = *self;
        proof {
            assert(Self::lazy_init_views(pre, mid));
            assert(mid.wf() && mid.is_init());
        }
        let eff: usize = if align > size {
            align
        } else {
            size
        };
        let level: usize = self.size_level(eff);
        let kk: usize = Self::free_list_count();
        let ghost lvl = level as int;
        let ghost ca = clog2(align as nat);
        proof {
            lemma_config_properties(self.base as int, LENGTH as int, MIN as int, PAGE_SIZE as int);
            crate::config::lemma_is_pow2_iff_round_trip(align as nat);
            crate::bits::lemma_clog2_mono(align as nat, eff as nat);
            crate::bits::lemma_clog2_mono(align as nat, PAGE_SIZE as nat);
            assert(pow2(ca) == align);
            assert(ca <= clog2(PAGE_SIZE as nat));
        }
        let r: usize;
        if level < kk {
            proof {
                assert(mid.inv_chain(lvl));
                // The class is aligned at least as much as asked: the class
                // covers the larger of size and alignment.
                assert(ca <= clog2(MIN as nat) + lvl) by {
                    if ca > clog2(MIN as nat) {
                        assert(clog2(eff as nat) >= ca);
                    }
                }
            }
            let head = self.free_list(level);
            if head != 0 {
                r = self.remove_free0(level);
            } else {
                r = self.alloc_page_for_small(level);
            }
            proof {
                if r != 0 {
                    assert(self.valid_block(r, lvl));
                    self.lemma_block_facts(r, lvl);
                    self.lemma_bsize_facts(lvl);
                    assert((r - self.base) % Self::bsize(lvl) == 0);
                    assert(Self::bsize(lvl) % (align as int) == 0) by {
                        crate::bits::lemma_pow2_divides(ca, (clog2(MIN as nat) + lvl) as nat);
                    }
                    lemma_divides_transitive(
                        r - self.base,
                        Self::bsize(lvl),
                        align as int,
                    );
                    assert(r - self.base < LENGTH);
                }
            }
        } else {
            proof {
                // A class past the last sub-page class means the request
                // exceeds a page.
                assert(PAGE_SIZE < size) by {
                    if eff <= PAGE_SIZE {
                        crate::bits::lemma_clog2_mono(eff as nat, PAGE_SIZE as nat);
                        assert(Self::spec_size_level(eff as int) < Self::k_levels());
                    }
                    assert(PAGE_SIZE < eff);
                }
            }
            r = self.alloc_n_page_for_big(size);
            proof {
                if r != 0 {
                    assert((r - self.base) % (align as int) == 0) by {
                        assert((r - self.base) % (PAGE_SIZE as int) == 0);
                        assert(PAGE_SIZE as int % (align as int) == 0) by {
                            crate::bits::lemma_pow2_divides(ca, clog2(PAGE_SIZE as nat));
                        }
                        lemma_divides_transitive(
                            r - self.base,
                            PAGE_SIZE as int,
                            align as int,
                        );
                    }
                }
            }
        }
        proof {
            let np = Self::spec_need_pages(size as int);
            if lvl < Self::k_levels() {
                if mid.free_list_view(lvl).len() > 0 {
                    assert(self.base < r && r - self.base < LENGTH) by {
                        self.lemma_block_facts(r, lvl);
                        if self.page_of(r) >= 1 {
                            assert(r - self.base >= PAGE_SIZE as int / 8 * 8);
                        }
                    }
                } else {
                    if r != 0 {
                        // The scan found a page, so a first free page
                        // exists; every stated consequence follows from it.
                        let j = choose|j: int|
                            0 <= j < Self::n_pages() && (#[trigger] mid.page_view()[j]) is Free;
                        Self::lemma_first_free_exists(mid, j);
                        let i = choose|i: int| #[trigger] Self::is_first_free(mid, i);
                        assert forall|i2: int|
                            0 <= i2 < Self::n_pages() && !((#[trigger] mid.page_view()[i2])
                                is Free) implies self.page_view()[i2] == mid.page_view()[i2] by {
                            assert(self.page_view() == mid.page_view().update(
                                i,
                                PageState::Slab { level: lvl as nat },
                            ));
                        }
                        assert(self.base < r && r - self.base < LENGTH) by {
                            self.lemma_block_facts(r, lvl);
                            if self.page_of(r) >= 1 {
                                assert(r - self.base >= PAGE_SIZE as int / 8 * 8);
                            }
                        }
                    }
                }
            } else {
                assert(np >= 1) by {
                    vstd::arithmetic::div_mod::lemma_div_non_zero(size as int, PAGE_SIZE as int);
                }
                if r != 0 {
                    let b = choose|b: int|
                        0 <= b <= Self::n_pages() - np && #[trigger] Self::run_free(mid, b, np);
                    Self::lemma_best_run_exists(mid, b, np);
                    let bb = choose|bb: int| #[trigger] Self::is_best_run(mid, bb, np);
                    assert(bb >= 1) by {
                        if bb == 0 {
                            assert(Self::run_free(mid, bb, np));
                            assert(mid.page_view()[0] is Free);
                            assert(mid.pages@[0] == (PageState::Slab { level: 0nat }));
                        }
                    }
                    assert(r == self.base + bb * (PAGE_SIZE as int));
                    assert(self.base < r && r - self.base < LENGTH) by {
                        assert((PAGE_SIZE as int) * 1 <= (PAGE_SIZE as int) * bb)
                            by (nonlinear_arith)
                            requires
                                1 <= bb,
                                0 < PAGE_SIZE as int,
                        ;
                        lemma_mul_is_commutative(bb, PAGE_SIZE as int);
                        assert((PAGE_SIZE as int) * 1 <= np * (PAGE_SIZE as int))
                            by (nonlinear_arith)
                            requires
                                1 <= np,
                                0 < PAGE_SIZE as int,
                        ;
                    }
                }
            }
            assert(Self::alloc_post(mid, *self, size as int, align as int, r));
        }
        r
    }

    /// Reallocate an owned block to `new_size` bytes. When the old and new
    /// sizes fall in the same sub-page class the block is already big
    /// enough and is returned as it is. Otherwise a new block is allocated
    /// and, if that succeeds, the old one is freed; on exhaustion the old
    /// block is left untouched and null returned.
    #[verifier::rlimit(60)]
    pub fn realloc(&mut self, ptr: usize, size: usize, align: usize, new_size: usize) -> (r:
        usize)
        requires
            old(self).wf(),
            ptr != 0,
            Self::owns_block(*old(self), ptr, size as int, align as int),
            size <= 0x8000_0000,
            new_size <= 0x8000_0000,
            1 <= align <= PAGE_SIZE,
            vstd::arithmetic::power2::is_pow2(align as int),
        ensures
            final(self).wf(),
            final(self).is_init(),
            final(self).base_spec() == old(self).base_spec(),
            r != 0 ==> (r - old(self).base_spec()) % (align as int) == 0,
            ({
                let lo = Self::eff_level(size as int, align as int);
                let ln = Self::eff_level(new_size as int, align as int);
                if lo < Self::k_levels() && lo == ln {
                    r == ptr && Self::same_views(*old(self), *final(self))
                } else {
                    exists|m1: Self|
                        #[trigger] Self::alloc_post(
                            *old(self),
                            m1,
                            new_size as int,
                            align as int,
                            r,
                        ) && (r == 0 ==> Self::same_views(m1, *final(self))) && (r != 0
                            ==> Self::dealloc_post(m1, *final(self), ptr, size as int, align as int))
                }
            }),
    {
        let ghost pre = *old(self);
        proof {
            self.lemma_header_fits();
            // An owned block means the arena is initialised.
            assert(pre.is_init()) by {
                if Self::eff_level(size as int, align as int) < Self::k_levels() {
                    if pre.mem@[0] == 0 {
                        assert(pre.pristine());
                        assert(!pre.live@.dom().contains(ptr));
                    }
                }
            }
        }
        let eff_old: usize = if align > size {
            align
        } else {
            size
        };
        let level: usize = self.size_level(eff_old);
        let kk: usize = Self::free_list_count();
        if level < kk {
            let eff_new: usize = if align > new_size {
                align
            } else {
                new_size
            };
            if level == self.size_level(eff_new) {
                // Same sub-page class: the block already fits, and sits
                // aligned to its class's block size.
                proof {
                    let lo = level as int;
                    let ca = clog2(align as nat);
                    assert(self.valid_block(ptr, lo));
                    self.lemma_block_facts(ptr, lo);
                    self.lemma_bsize_facts(lo);
                    lemma_config_properties(
                        self.base as int,
                        LENGTH as int,
                        MIN as int,
                        PAGE_SIZE as int,
                    );
                    crate::config::lemma_is_pow2_iff_round_trip(align as nat);
                    crate::bits::lemma_clog2_mono(align as nat, eff_old as nat);
                    assert(ca <= clog2(MIN as nat) + lo) by {
                        if ca > clog2(MIN as nat) {
                            assert(clog2(eff_old as nat) >= ca);
                        }
                    }
                    assert(Self::bsize(lo) % (align as int) == 0) by {
                        crate::bits::lemma_pow2_divides(ca, (clog2(MIN as nat) + lo) as nat);
                    }
                    lemma_divides_transitive(
                        ptr - self.base,
                        Self::bsize(lo),
                        align as int,
                    );
                }
                return ptr;
            }
        }
        let ghost lo = Self::eff_level(size as int, align as int);
        let ghost ln = Self::eff_level(new_size as int, align as int);
        let r = self.allocate(new_size, align);
        let ghost m1 = *self;
        proof {
            let midw = choose|m: Self|
                #[trigger] Self::lazy_init_views(pre, m) && Self::alloc_post(
                    m,
                    m1,
                    new_size as int,
                    align as int,
                    r,
                );
            assert(midw == pre);
            assert(Self::alloc_post(pre, m1, new_size as int, align as int, r));
            if r != 0 {
                // The old block is still owned after the allocation: a
                // fresh sub-page block is a different address, and a
                // multi-page run's pages were not free, so not re-taken.
                assert(Self::owns_block(m1, ptr, size as int, align as int)) by {
                    if lo < Self::k_levels() {
                        assert(m1.live_view().dom().contains(ptr) && m1.live_view()[ptr]
                            == lo as nat);
                    } else {
                        let idx = (ptr - pre.base_spec()) / (PAGE_SIZE as int);
                        assert(idx < Self::n_pages()) by {
                            assert((ptr - pre.base_spec()) < Self::n_pages() * (
                            PAGE_SIZE as int));
                            lemma_mul_is_commutative(Self::n_pages(), PAGE_SIZE as int);
                            lemma_multiply_divide_lt(
                                ptr - pre.base_spec(),
                                PAGE_SIZE as int,
                                Self::n_pages(),
                            );
                        }
                        assert(idx >= 0) by {
                            lemma_div_pos_is_pos(ptr - pre.base_spec(), PAGE_SIZE as int);
                        }
                        assert(!(pre.page_view()[idx] is Free));
                        assert(m1.page_view()[idx] == pre.page_view()[idx]);
                    }
                }
            }
        }
        if r != 0 {
            self.dealloc(ptr, size, align);
        }
        proof {
            assert(Self::alloc_post(pre, m1, new_size as int, align as int, r) && (r == 0
                ==> Self::same_views(m1, *self)) && (r != 0 ==> Self::dealloc_post(
                m1,
                *self,
                ptr,
                size as int,
                align as int,
            )));
        }
        r
    }

    /// No address is handed out twice while it is outstanding: two
    /// successful allocations, the second acting on the state the first
    /// left, return distinct addresses.
    #[verifier::rlimit(60)]
    pub proof fn lemma_allocations_distinct(
        s0: Self,
        s1: Self,
        s2: Self,
        size1: int,
        align1: int,
        r1: usize,
        size2: int,
        align2: int,
        r2: usize,
    )
        requires
            s0.wf(),
            s1.wf(),
            s0.is_init(),
            s1.is_init(),
            s0.base_spec() == s1.base_spec(),
            0 <= size1 <= 0x8000_0000,
            0 <= size2 <= 0x8000_0000,
            1 <= align1 <= PAGE_SIZE,
            1 <= align2 <= PAGE_SIZE,
            Self::alloc_post(s0, s1, size1, align1, r1),
            Self::alloc_post(s1, s2, size2, align2, r2),
            r1 != 0,
            r2 != 0,
        ensures
            r1 != r2,
    {
        s0.lemma_header_fits();
        let ps = PAGE_SIZE as int;
        let l1 = Self::eff_level(size1, align1);
        let l2 = Self::eff_level(size2, align2);
        let n1 = Self::spec_need_pages(size1);
        let n2 = Self::spec_need_pages(size2);
        // Where the first result lies in the state `s1`.
        if l1 < Self::k_levels() {
            assert(s1.live_view().dom().contains(r1) && s1.live_view()[r1] == l1 as nat);
            assert(s1.valid_block(r1, l1));
            s1.lemma_block_facts(r1, l1);
        } else {
            // The first allocation took a run; its start page is Run in s1.
            assert(n1 >= 1) by {
                Self::lemma_level_means_large(size1, align1);
                vstd::arithmetic::div_mod::lemma_div_non_zero(size1, ps);
            }
            let b1 = choose|b: int| 0 <= b <= Self::n_pages() - n1 && #[trigger] Self::run_free(
                s0,
                b,
                n1,
            );
            Self::lemma_best_run_exists(s0, b1, n1);
            let bb1 = choose|b: int| #[trigger] Self::is_best_run(s0, b, n1);
            assert(r1 == s0.base_spec() + bb1 * ps);
            assert(s1.page_view()[bb1] == (PageState::Run { start: bb1, len: n1 as nat }));
            assert((r1 - s1.base) % ps == 0 && (r1 - s1.base) / ps == bb1) by {
                lemma_mod_multiples_basic(bb1, ps);
                lemma_mul_is_commutative(bb1, ps);
                lemma_div_multiples_vanish(bb1, ps);
            }
        }
        // Where the second result comes from in the state `s1`, and why it
        // cannot be the first.
        if l2 < Self::k_levels() {
            if s1.free_list_view(l2).len() > 0 {
                assert(!s1.live_view().dom().contains(r2));
                assert(r2 == s1.free_list_view(l2)[0]);
                assert(s1.inv_chain(l2));
                assert(s1.valid_block(r2, l2));
                s1.lemma_block_facts(r2, l2);
                if l1 < Self::k_levels() {
                    assert(r1 != r2);
                } else {
                    // A chain block's page is a slab; the run's start is not.
                    if r1 == r2 {
                        assert(s1.page_view()[s1.page_of(r2)] is Slab);
                        assert(false);
                    }
                }
            } else {
                assert(!s1.live_view().dom().contains(r2));
                let j = choose|j: int|
                    0 <= j < Self::n_pages() && (#[trigger] s1.page_view()[j]) is Free;
                Self::lemma_first_free_exists(s1, j);
                let i = choose|i: int| #[trigger] Self::is_first_free(s1, i);
                assert(r2 == s1.base_spec() + i * ps);
                assert((r2 - s1.base) / ps == i) by {
                    lemma_mod_multiples_basic(i, ps);
                    lemma_mul_is_commutative(i, ps);
                    lemma_div_multiples_vanish(i, ps);
                }
                if l1 < Self::k_levels() {
                    // The first block sits in a slab page, not in the free
                    // page just carved.
                    if r1 == r2 {
                        assert(s1.page_view()[s1.page_of(r1)] is Slab);
                        assert(false);
                    }
                } else {
                    if r1 == r2 {
                        assert(s1.page_view()[i] is Free);
                        assert(false);
                    }
                }
            }
        } else {
            assert(n2 >= 1) by {
                Self::lemma_level_means_large(size2, align2);
                vstd::arithmetic::div_mod::lemma_div_non_zero(size2, ps);
            }
            let b2 = choose|b: int| 0 <= b <= Self::n_pages() - n2 && #[trigger] Self::run_free(
                s1,
                b,
                n2,
            );
            Self::lemma_best_run_exists(s1, b2, n2);
            let bb2 = choose|b: int| #[trigger] Self::is_best_run(s1, b, n2);
            assert(r2 == s1.base_spec() + bb2 * ps);
            assert(Self::run_free(s1, bb2, n2));
            assert(s1.page_view()[bb2] is Free);
            assert((r2 - s1.base) / ps == bb2) by {
                lemma_mod_multiples_basic(bb2, ps);
                lemma_mul_is_commutative(bb2, ps);
                lemma_div_multiples_vanish(bb2, ps);
            }
            if r1 == r2 {
                if l1 < Self::k_levels() {
                    // The first block's page is a slab, not free.
                    assert(s1.page_view()[s1.page_of(r1)] is Slab);
                } else {
                    // The first run's start page is in use, not free.
                    assert(s1.page_view()[s1.page_of(r1)] is Run);
                }
                assert(false);
            }
        }
    }

    /// The free lists are LIFO stacks: freeing a sub-page block and then
    /// allocating from the same class hands that very block back.
    pub proof fn lemma_free_then_alloc_returns_block(
        s0: Self,
        s1: Self,
        s2: Self,
        ptr: usize,
        size: int,
        align: int,
        r: usize,
    )
        requires
            Self::eff_level(size, align) < Self::k_levels(),
            Self::dealloc_post(s0, s1, ptr, size, align),
            Self::alloc_post(s1, s2, size, align, r),
        ensures
            r == ptr,
    {
        let l = Self::eff_level(size, align);
        assert(s1.free_list_view(l) == seq![ptr] + s0.free_list_view(l));
        assert(s1.free_list_view(l)[0] == ptr);
    }

    /// A size class past the last sub-page class means the request exceeds a
    /// page.
    pub proof fn lemma_level_means_large(size: int, align: int)
        requires
            0 <= size,
            1 <= align <= PAGE_SIZE,
            Self::eff_level(size, align) >= Self::k_levels(),
            Self::k_levels() >= 1,
        ensures
            size > PAGE_SIZE,
    {
        let eff = if size >= align {
            size
        } else {
            align
        };
        if eff <= PAGE_SIZE {
            crate::bits::lemma_clog2_mono(eff as nat, PAGE_SIZE as nat);
            assert(Self::spec_size_level(eff) < Self::k_levels());
        }
        assert(PAGE_SIZE < eff);
    }

    /// The constants needed everywhere: the header (free-list count and page
    /// count included) fits below the surplus, which fits inside the first
    /// page, which fits in the word count.
    pub(crate) proof fn lemma_header_fits(&self)
        requires
            self.cfg_ok(),
        ensures
            1 <= Self::k_levels() <= 29,
            2 <= Self::n_pages(),
            4 <= Self::hdr_words(),
            Self::hdr_words() == 1 + Self::k_levels() + Self::n_pages(),
            8 * Self::hdr_words() <= Self::sup_off(),
            Self::sup_off() < PAGE_SIZE,
            Self::sup_off() % MIN as int == 0,
            Self::sup_off() % 8 == 0,
            PAGE_SIZE as int <= LENGTH as int / 2,
            Self::n_pages() * PAGE_SIZE as int == LENGTH,
            Self::n_words() * 8 == LENGTH,
            Self::hdr_words() < Self::n_words(),
            PAGE_SIZE as int % 8 == 0,
            MIN as int % 8 == 0,
            8 <= MIN,
            MIN as int <= PAGE_SIZE as int,
            self.base + LENGTH <= usize::MAX,
            self.base > 0,
    {
        lemma_config_properties(self.base as int, LENGTH as int, MIN as int, PAGE_SIZE as int);
        lemma_fundamental_div_mod(LENGTH as int, 8);
        lemma_fundamental_div_mod(LENGTH as int, PAGE_SIZE as int);
        lemma_mul_is_commutative(Self::n_pages(), PAGE_SIZE as int);
        lemma_mul_is_commutative(Self::n_words(), 8);
        assert(Self::n_pages() * PAGE_SIZE as int == LENGTH);
        assert(Self::n_words() * 8 == LENGTH);
        assert(PAGE_SIZE as int <= LENGTH as int / 2) by (nonlinear_arith)
            requires
                Self::n_pages() * PAGE_SIZE as int == LENGTH,
                Self::n_pages() >= 2,
                PAGE_SIZE as int > 0,
                LENGTH as int % 2 == 0,
        ;
        assert(8 * Self::hdr_words() < PAGE_SIZE as int);
        assert(Self::hdr_words() < Self::n_words()) by (nonlinear_arith)
            requires
                8 * Self::hdr_words() < PAGE_SIZE as int,
                PAGE_SIZE as int <= LENGTH as int / 2,
                Self::n_words() * 8 == LENGTH,
        ;
    }
}

} // verus!
