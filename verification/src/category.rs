//! The category block compiler and the category query.
//!
//! The code space is cut into chunks of 256 code points. Chunks with the same
//! contents are stored once; an index array maps each chunk to its block.
use vstd::prelude::*;
use crate::labels::{collect_labels, enumerates, names};
use crate::runs::{category_at, lemma_category_at_cursor, spans, Run, RunSpan};
use crate::MAX_CODEPOINT;

verus! {

/// Number of code points in one chunk.
pub const CHUNK_SIZE: usize = 256;

/// Number of chunks that cover the code space.
pub const CHUNK_COUNT: usize = 4352;

/// The narrowest unsigned integer that holds every block number of a table.
#[derive(Debug, Clone, Copy, PartialEq, Eq)]
pub enum IndexWidth {
    U8,
    U16,
}

/// The label that a slot of a block holds.
pub open spec fn label_of(slot: Option<String>) -> Option<Seq<char>> {
    match slot {
        Some(s) => Some(s@),
        None => None,
    }
}

/// The labels of the slots of a block.
pub open spec fn slots(block: Seq<Option<String>>) -> Seq<Option<Seq<char>>> {
    block.map_values(|slot: Option<String>| label_of(slot))
}

/// The contents of chunk number `chunk` in the full, uncompressed table.
pub open spec fn chunk_of(runs: Seq<RunSpan>, chunk: int) -> Seq<Option<Seq<char>>> {
    Seq::new(CHUNK_SIZE as nat, |offset: int| category_at(runs, chunk * CHUNK_SIZE + offset))
}

/// Whether one of the first `c` chunks has block number `b`.
pub open spec fn used_before(index: Seq<usize>, c: int, b: int) -> bool {
    exists|e: int| 0 <= e < c && #[trigger] index[e] == b
}

/// Whether two slots hold the same label.
fn same_slot(a: &Option<String>, b: &Option<String>) -> (r: bool)
    ensures
        r == (label_of(*a) == label_of(*b)),
{
    match a {
        Some(x) => match b {
            Some(y) => *x == *y,
            None => false,
        },
        None => b.is_none(),
    }
}

/// Whether two blocks hold the same labels, slot by slot.
fn same_block(a: &Vec<Option<String>>, b: &Vec<Option<String>>) -> (r: bool)
    ensures
        r == (slots(a@) == slots(b@)),
{
    if a.len() != b.len() {
        assert(slots(a@).len() != slots(b@).len());
        return false;
    }
    let mut i: usize = 0;
    while i < a.len()
        invariant
            i <= a.len(),
            a.len() == b.len(),
            forall|j: int| 0 <= j < i ==> slots(a@)[j] == slots(b@)[j],
        decreases a.len() - i,
    {
        if !same_slot(&a[i], &b[i]) {
            assert(slots(a@)[i as int] != slots(b@)[i as int]);
            return false;
        }
        i += 1;
    }
    assert(slots(a@) =~= slots(b@));
    true
}

/// The number of the first block of `blocks` with the contents of `block`.
fn find_block(blocks: &Vec<Vec<Option<String>>>, block: &Vec<Option<String>>) -> (found: Option<
    usize,
>)
    ensures
        match found {
            Some(i) => i < blocks.len() && slots(blocks[i as int]@) == slots(block@),
            None => forall|j: int|
                0 <= j < blocks.len() ==> slots(#[trigger] blocks[j]@) != slots(block@),
        },
{
    let mut i: usize = 0;
    while i < blocks.len()
        invariant
            i <= blocks.len(),
            forall|j: int| 0 <= j < i ==> slots(#[trigger] blocks[j]@) != slots(block@),
        decreases blocks.len() - i,
    {
        if same_block(&blocks[i], block) {
            return Some(i);
        }
        i += 1;
    }
    None
}

/// Fills one chunk by walking the runs from `cursor` on. Runs before the
/// cursor end below the chunk and are not looked at again.
fn sweep_chunk(runs: &Vec<Run>, chunk: usize, cursor: usize) -> (out: (Vec<Option<String>>, usize))
    requires
        chunk < CHUNK_COUNT,
        cursor <= runs.len(),
        forall|j: int| 0 <= j < cursor ==> runs[j].end < chunk * CHUNK_SIZE,
    ensures
        slots(out.0@) == chunk_of(spans(runs@), chunk as int),
        out.1 <= runs.len(),
        forall|j: int| 0 <= j < out.1 ==> runs[j].end < (chunk + 1) * CHUNK_SIZE,
{
    let chunk_start: u32 = (chunk * CHUNK_SIZE) as u32;
    let mut block: Vec<Option<String>> = Vec::with_capacity(CHUNK_SIZE);
    let mut cursor = cursor;
    let mut offset: u32 = 0;
    while offset < 256
        invariant
            offset <= 256,
            chunk < CHUNK_COUNT,
            chunk_start == chunk * CHUNK_SIZE,
            block.len() == offset,
            cursor <= runs.len(),
            forall|j: int| 0 <= j < cursor ==> runs[j].end < chunk_start + offset,
            forall|o: int|
                0 <= o < offset ==> label_of(#[trigger] block[o]) == category_at(
                    spans(runs@),
                    chunk_start + o,
                ),
        decreases 256 - offset,
    {
        let cp = chunk_start + offset;
        while cursor < runs.len() && cp > runs[cursor].end
            invariant
                cursor <= runs.len(),
                forall|j: int| 0 <= j < cursor ==> runs[j].end < cp,
            decreases runs.len() - cursor,
        {
            cursor += 1;
        }
        let category = if cursor < runs.len() && cp >= runs[cursor].start {
            Some(runs[cursor].general_category.clone())
        } else {
            None
        };
        proof {
            let all = spans(runs@);
            assert forall|j: int| 0 <= j < cursor implies all[j].end < cp by {
                assert(all[j] == runs[j]@);
            }
            if cursor < runs.len() {
                assert(all[cursor as int] == runs[cursor as int]@);
            }
            lemma_category_at_cursor(all, cursor as int, cp as int);
        }
        block.push(category);
        offset += 1;
    }
    assert(slots(block@) =~= chunk_of(spans(runs@), chunk as int));
    (block, cursor)
}

/// The compiled category table.
///
/// `chunk_index` has one entry per chunk of the code space, the number of the
/// block that holds the chunk's contents. No two blocks are alike.
pub struct CategoryTable {
    categories: Vec<String>,
    chunk_index: Vec<usize>,
    unique_blocks: Vec<Vec<Option<String>>>,
}

impl CategoryTable {
    /// The category labels of the table, in ascending order.
    pub closed spec fn labels(&self) -> Seq<Seq<char>> {
        names(self.categories@)
    }

    /// For each chunk, the number of its block.
    pub closed spec fn index(&self) -> Seq<usize> {
        self.chunk_index@
    }

    /// The contents of the blocks.
    pub closed spec fn blocks(&self) -> Seq<Seq<Option<Seq<char>>>> {
        self.unique_blocks@.map_values(|b: Vec<Option<String>>| slots(b@))
    }

    /// The shape of a table: one index entry per chunk, each naming a block;
    /// blocks of one chunk's size; no block stored twice, and none unused.
    pub open spec fn well_formed(&self) -> bool {
        &&& self.index().len() == CHUNK_COUNT
        &&& forall|c: int|
            0 <= c < CHUNK_COUNT ==> #[trigger] self.index()[c] < self.blocks().len()
        &&& forall|b: int|
            0 <= b < self.blocks().len() ==> (#[trigger] self.blocks()[b]).len() == CHUNK_SIZE
        &&& forall|a: int, b: int|
            0 <= a < b < self.blocks().len() ==> #[trigger] self.blocks()[a]
                != #[trigger] self.blocks()[b]
        &&& forall|b: int|
            0 <= b < self.blocks().len() ==> #[trigger] used_before(
                self.index(),
                CHUNK_COUNT as int,
                b,
            )
    }

    /// The table is the one that `runs` compile to: its labels are the
    /// categories of the runs in ascending order; every chunk of the code
    /// space points at a block with the chunk's contents in the full,
    /// uncompressed table; and blocks are numbered in the order in which
    /// their contents first occur.
    pub open spec fn compiled_from(&self, runs: Seq<RunSpan>) -> bool {
        &&& self.well_formed()
        &&& enumerates(self.labels(), runs)
        &&& forall|c: int|
            0 <= c < CHUNK_COUNT ==> self.blocks()[#[trigger] self.index()[c] as int] == chunk_of(
                runs,
                c,
            )
        &&& forall|c: int, b: int|
            0 <= c < CHUNK_COUNT && 0 <= b < self.index()[c] ==> #[trigger] used_before(
                self.index(),
                c,
                b,
            )
    }

    #[verifier::type_invariant]
    spec fn inv(&self) -> bool {
        self.well_formed()
    }

    /// The category that the table holds for `cp`: none outside the code
    /// space, else the slot of `cp` in the block of its chunk.
    pub open spec fn lookup(&self, cp: int) -> Option<Seq<char>> {
        if 0 <= cp <= MAX_CODEPOINT {
            self.blocks()[self.index()[cp / (CHUNK_SIZE as int)] as int][cp % (CHUNK_SIZE as int)]
        } else {
            None
        }
    }

    /// Compiles the table of `runs`. What the table then holds for a code
    /// point is what the runs give it.
    pub fn build(runs: &Vec<Run>) -> (table: CategoryTable)
        ensures
            table.compiled_from(spans(runs@)),
            forall|cp: int|
                0 <= cp <= MAX_CODEPOINT ==> #[trigger] table.lookup(cp) == category_at(
                    spans(runs@),
                    cp,
                ),
    {
        let categories = collect_labels(runs);
        let mut unique_blocks: Vec<Vec<Option<String>>> = Vec::new();
        let mut chunk_index: Vec<usize> = Vec::new();
        let mut cursor: usize = 0;
        let ghost all = spans(runs@);
        let mut chunk: usize = 0;
        while chunk < CHUNK_COUNT
            invariant
                chunk <= CHUNK_COUNT,
                all == spans(runs@),
                cursor <= runs.len(),
                forall|j: int| 0 <= j < cursor ==> runs[j].end < chunk * CHUNK_SIZE,
                chunk_index.len() == chunk,
                forall|c: int| 0 <= c < chunk ==> #[trigger] chunk_index[c] < unique_blocks.len(),
                forall|c: int|
                    0 <= c < chunk ==> slots(unique_blocks[#[trigger] chunk_index[c] as int]@)
                        == chunk_of(all, c),
                forall|a: int, b: int|
                    0 <= a < b < unique_blocks.len() ==> slots(#[trigger] unique_blocks[a]@)
                        != slots(#[trigger] unique_blocks[b]@),
                forall|c: int, b: int|
                    0 <= c < chunk && 0 <= b < chunk_index[c] ==> #[trigger] used_before(
                        chunk_index@,
                        c,
                        b,
                    ),
                forall|b: int|
                    0 <= b < unique_blocks.len() ==> #[trigger] used_before(
                        chunk_index@,
                        chunk as int,
                        b,
                    ),
            decreases CHUNK_COUNT - chunk,
        {
            let (block, next) = sweep_chunk(runs, chunk, cursor);
            cursor = next;
            let ghost old_index = chunk_index@;
            let ghost old_blocks = unique_blocks@;
            match find_block(&unique_blocks, &block) {
                Some(number) => {
                    chunk_index.push(number);
                },
                None => {
                    chunk_index.push(unique_blocks.len());
                    unique_blocks.push(block);
                    proof {
                        assert forall|c: int| 0 <= c < chunk + 1 implies slots(
                            unique_blocks[#[trigger] chunk_index[c] as int]@,
                        ) == chunk_of(all, c) by {
                            if c < chunk {
                                assert(chunk_index[c] == old_index[c]);
                                assert(unique_blocks[old_index[c] as int]
                                    == old_blocks[old_index[c] as int]);
                            }
                        }
                        assert forall|a: int, b: int|
                            0 <= a < b < unique_blocks.len() implies slots(
                            #[trigger] unique_blocks[a]@,
                        ) != slots(#[trigger] unique_blocks[b]@) by {
                            assert(unique_blocks[a] == old_blocks[a]);
                            if b < old_blocks.len() {
                                assert(unique_blocks[b] == old_blocks[b]);
                            }
                        }
                    }
                },
            }
            proof {
                let new_index = chunk_index@;
                assert forall|c: int, b: int|
                    0 <= c < chunk + 1 && 0 <= b < new_index[c] implies #[trigger] used_before(
                    new_index,
                    c,
                    b,
                ) by {
                    if c == chunk {
                        assert(used_before(old_index, chunk as int, b));
                        let e = choose|e: int| 0 <= e < chunk && #[trigger] old_index[e] == b;
                        assert(new_index[e] == b);
                    } else {
                        assert(new_index[c] == old_index[c]);
                        assert(used_before(old_index, c, b));
                        let e = choose|e: int| 0 <= e < c && #[trigger] old_index[e] == b;
                        assert(new_index[e] == b);
                    }
                }
                assert forall|b: int| 0 <= b < unique_blocks.len() implies #[trigger] used_before(
                    new_index,
                    chunk + 1,
                    b,
                ) by {
                    if b < old_blocks.len() {
                        assert(used_before(old_index, chunk as int, b));
                        let c = choose|c: int| 0 <= c < chunk && #[trigger] old_index[c] == b;
                        assert(new_index[c] == b);
                    } else {
                        assert(new_index[chunk as int] == b);
                    }
                }
            }
            chunk += 1;
        }
        proof {
            let contents = unique_blocks@.map_values(|b: Vec<Option<String>>| slots(b@));
            assert forall|b: int| 0 <= b < contents.len() implies (#[trigger] contents[b]).len()
                == CHUNK_SIZE by {
                assert(used_before(chunk_index@, CHUNK_COUNT as int, b));
                let c = choose|c: int| 0 <= c < CHUNK_COUNT && #[trigger] chunk_index[c] == b;
                assert(slots(unique_blocks[chunk_index[c] as int]@) == chunk_of(all, c));
            }
            assert forall|a: int, b: int| 0 <= a < b < contents.len() implies #[trigger] contents[a]
                != #[trigger] contents[b] by {
                assert(slots(unique_blocks[a]@) != slots(unique_blocks[b]@));
            }
        }
        let table = CategoryTable { categories, chunk_index, unique_blocks };
        proof {
            assert(table.compiled_from(all));
            table.lemma_lookup(all);
        }
        table
    }

    /// Looking a code point up in the compiled table gives what the runs
    /// give it: storing equal chunks once changes no answer.
    pub proof fn lemma_lookup(&self, runs: Seq<RunSpan>)
        requires
            self.compiled_from(runs),
        ensures
            forall|cp: int|
                0 <= cp <= MAX_CODEPOINT ==> #[trigger] self.lookup(cp) == category_at(runs, cp),
    {
        assert forall|cp: int| 0 <= cp <= MAX_CODEPOINT implies #[trigger] self.lookup(cp)
            == category_at(runs, cp) by {
            let c = cp / (CHUNK_SIZE as int);
            let o = cp % (CHUNK_SIZE as int);
            assert(0 <= c < CHUNK_COUNT);
            assert(self.blocks()[self.index()[c] as int] == chunk_of(runs, c));
            assert(chunk_of(runs, c)[o] == category_at(runs, c * CHUNK_SIZE + o));
        }
    }

    /// The general category of code point `cp`, or nothing where `cp` is
    /// unassigned or lies outside the code space.
    pub fn from_char(&self, cp: u32) -> (category: Option<&str>)
        ensures
            match category {
                Some(label) => self.lookup(cp as int) == Some(label@),
                None => self.lookup(cp as int) is None,
            },
    {
        proof {
            use_type_invariant(self);
        }
        if cp > MAX_CODEPOINT {
            return None;
        }
        let chunk = (cp >> 8) as usize;
        let offset = (cp & 0xFF) as usize;
        proof {
            assert(cp <= 0x10FFFF ==> (cp >> 8) == cp / 256 && (cp & 0xFF) == cp % 256 && (cp >> 8)
                < 4352) by (bit_vector);
        }
        let number = self.chunk_index[chunk];
        proof {
            assert(self.blocks()[number as int] == slots(self.unique_blocks[number as int]@));
        }
        match &self.unique_blocks[number][offset] {
            Some(label) => Some(label.as_str()),
            None => None,
        }
    }

    /// The category labels of the table, in ascending order.
    pub fn categories(&self) -> (labels: &Vec<String>)
        ensures
            names(labels@) == self.labels(),
    {
        &self.categories
    }

    /// For each chunk of the code space, the number of its block.
    pub fn chunk_index(&self) -> (index: &Vec<usize>)
        ensures
            index@ == self.index(),
    {
        &self.chunk_index
    }

    /// The blocks, each with one slot per code point of a chunk.
    pub fn unique_blocks(&self) -> (blocks: &Vec<Vec<Option<String>>>)
        ensures
            blocks@.map_values(|b: Vec<Option<String>>| slots(b@)) == self.blocks(),
    {
        &self.unique_blocks
    }

    /// The narrowest integer type that holds every block number: eight bits
    /// for up to 256 blocks, sixteen bits beyond.
    pub fn index_width(&self) -> (width: IndexWidth)
        ensures
            width == IndexWidth::U8 <==> self.blocks().len() <= 256,
            self.blocks().len() <= CHUNK_COUNT,
    {
        proof {
            use_type_invariant(self);
            lemma_block_count(self.index(), self.blocks().len() as int);
        }
        if self.unique_blocks.len() <= 256 {
            IndexWidth::U8
        } else {
            IndexWidth::U16
        }
    }
}

/// An index whose entries reach every number below `count` has at least
/// `count` entries.
pub proof fn lemma_block_count(index: Seq<usize>, count: int)
    requires
        0 <= count,
        forall|b: int| 0 <= b < count ==> used_before(index, index.len() as int, b),
    ensures
        count <= index.len(),
    decreases count,
{
    if count > 0 {
        let b = count - 1;
        assert(used_before(index, index.len() as int, b));
        let c = choose|c: int| 0 <= c < index.len() && #[trigger] index[c] == b;
        let rest = index.remove(c);
        assert forall|a: int| 0 <= a < count - 1 implies used_before(
            rest,
            rest.len() as int,
            a,
        ) by {
            assert(used_before(index, index.len() as int, a));
            let e = choose|e: int| 0 <= e < index.len() && #[trigger] index[e] == a;
            if e < c {
                assert(rest[e] == a);
            } else {
                assert(rest[e - 1] == a);
            }
        }
        lemma_block_count(rest, count - 1);
    }
}

} // verus!
