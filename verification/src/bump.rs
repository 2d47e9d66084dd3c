use vstd::prelude::*;

verus! {

/// The sizes, in elements, of the dynamically sized GPU buffers, together
/// with the `failed` flags that a render reports when one of them ran out.
///
/// The same layout serves two purposes: the sizes the renderer allocates, and
/// the counts a finished frame reports back through the bump buffer.
#[derive(Debug, Copy, Clone, PartialEq, Eq, Structural, Default)]
pub struct BumpAllocators {
    /// Nonzero when some stage of the frame ran out of space.
    pub failed: u32,
    pub binning: u32,
    pub ptcl: u32,
    pub tile: u32,
    pub seg_counts: u32,
    pub segments: u32,
    pub blend_spill: u32,
    pub lines: u32,
}

/// The flag in `failed` that says the run already reallocated and will be retried.
pub const RETRY_PENDING: u32 = 0x20;

/// How many elements of `element_size` bytes (at least one byte) fit in
/// `max_binding_size` bytes, saturating at `u32::MAX`.
pub open spec fn binding_ceiling(element_size: u32, max_binding_size: u64) -> int {
    let size: int = if element_size == 0 { 1 } else { element_size as int };
    let elements = max_binding_size as int / size;
    if elements > u32::MAX {
        u32::MAX as int
    } else {
        elements
    }
}

/// The size that `grow_within_binding_limit` picks: a quarter more than
/// `needed`, or, when that is more than the device binds, the most it binds,
/// but never less than `current`.
pub open spec fn grown_size(needed: u32, current: u32, element_size: u32, max_binding_size: u64) -> int {
    let wanted = needed * 5 / 4;
    let ceiling = binding_ceiling(element_size, max_binding_size);
    if wanted <= ceiling {
        wanted
    } else if ceiling >= current {
        ceiling
    } else {
        current as int
    }
}

/// Grow an element count by 25%, without exceeding what the device can bind.
///
/// A count that would not fit under `max_binding_size` is clamped to the
/// largest count that does, but never below `current`.
pub fn grow_within_binding_limit(
    needed: u32,
    current: u32,
    element_size: u32,
    max_binding_size: u64,
    _name: &str,
) -> (r: u32)
    ensures
        r == grown_size(needed, current, element_size, max_binding_size),
        needed > current ==> r >= current,
        needed as int * (if element_size == 0 { 1 } else { element_size as int }) <= max_binding_size
            ==> r >= needed,
        r as int * (if element_size == 0 { 1 } else { element_size as int }) <= max_binding_size
            || r == current,
        needed * 5 / 4 <= u32::MAX && needed * 5 / 4 * (if element_size == 0 {
            1
        } else {
            element_size as int
        }) <= max_binding_size ==> r == needed * 5 / 4,
        needed * 5 / 4 * (if element_size == 0 { 1 } else { element_size as int })
            > max_binding_size ==> r >= current && (r == current || (r as int + 1) * (
        if element_size == 0 {
            1
        } else {
            element_size as int
        }) > max_binding_size || r == u32::MAX),
        ({
            let size: int = if element_size == 0 { 1 } else { element_size as int };
            !(needed * 5 / 4 <= u32::MAX && needed * 5 / 4 * size <= max_binding_size) ==> {
                &&& r >= current
                &&& r == current || (r * size <= max_binding_size && ((r + 1) * size > max_binding_size
                    || r == u32::MAX))
                &&& (current < u32::MAX && (current + 1) * size <= max_binding_size ==> r > current)
            }
        }),
{
    proof {
        lemma_growth_respects_binding_limit(needed, current, element_size, max_binding_size);
    }
    let wanted: u64 = (needed as u64) * 5 / 4;
    let size: u64 = if element_size == 0 { 1 } else { element_size as u64 };
    let elements: u64 = max_binding_size / size;
    let ceiling: u32 = if elements > u32::MAX as u64 {
        u32::MAX
    } else {
        elements as u32
    };
    if wanted > ceiling as u64 {
        return if ceiling >= current { ceiling } else { current };
    }
    wanted as u32
}

/// The growth law: a grown size never asks the device for more than it can
/// bind, unless it keeps a size that was already allocated; growing a size
/// that ran out never gives back space that is already allocated; and growth
/// that stays under the limit is exactly a quarter more.
pub proof fn lemma_growth_respects_binding_limit(
    needed: u32,
    current: u32,
    element_size: u32,
    max_binding_size: u64,
)
    ensures
        ({
            let r = grown_size(needed, current, element_size, max_binding_size);
            let size: int = if element_size == 0 { 1 } else { element_size as int };
            &&& r <= u32::MAX
            &&& (r * size <= max_binding_size || r == current)
            &&& (needed > current ==> r >= current)
            &&& (needed * 5 / 4 <= binding_ceiling(element_size, max_binding_size) ==> r == needed * 5
                / 4)
            &&& (needed * size <= max_binding_size ==> r >= needed)
            &&& (needed > current && (current + 1) * size <= max_binding_size ==> r > current)
            &&& (needed * 5 / 4 <= u32::MAX && needed * 5 / 4 * size <= max_binding_size ==> r
                == needed * 5 / 4)
            &&& (needed * 5 / 4 * size > max_binding_size ==> r >= current && (r == current || (r
                + 1) * size > max_binding_size || r == u32::MAX))
            &&& (!(needed * 5 / 4 <= u32::MAX && needed * 5 / 4 * size <= max_binding_size) ==> {
                &&& r >= current
                &&& r == current || (r * size <= max_binding_size && ((r + 1) * size > max_binding_size
                    || r == u32::MAX))
                &&& (current < u32::MAX && (current + 1) * size <= max_binding_size ==> r > current)
            })
        }),
{
    let size: int = if element_size == 0 { 1 } else { element_size as int };
    let ceiling = binding_ceiling(element_size, max_binding_size);
    assert(ceiling * size <= max_binding_size) by (nonlinear_arith)
        requires
            size >= 1,
            ceiling <= max_binding_size as int / size,
    ;
    let q = max_binding_size as int / size;
    assert(q * size <= max_binding_size && (q + 1) * size > max_binding_size) by (nonlinear_arith)
        requires
            size >= 1,
            q == max_binding_size as int / size,
            max_binding_size >= 0,
    ;
    let wanted = needed * 5 / 4;
    if needed * size <= max_binding_size {
        assert(needed <= q) by (nonlinear_arith)
            requires
                needed * size <= max_binding_size,
                (q + 1) * size > max_binding_size,
                size >= 1,
        ;
    }
    if (current + 1) * size <= max_binding_size {
        assert(current + 1 <= q) by (nonlinear_arith)
            requires
                (current + 1) * size <= max_binding_size,
                (q + 1) * size > max_binding_size,
                size >= 1,
        ;
    }
    if wanted * size <= max_binding_size {
        assert(wanted <= q) by (nonlinear_arith)
            requires
                wanted * size <= max_binding_size,
                (q + 1) * size > max_binding_size,
                size >= 1,
        ;
    }
    if wanted > u32::MAX {
        assert(wanted > ceiling);
    }
    if wanted * size > max_binding_size {
        assert(wanted > ceiling) by (nonlinear_arith)
            requires
                wanted * size > max_binding_size,
                ceiling * size <= max_binding_size,
                size >= 1,
        ;
    }
    let r = grown_size(needed, current, element_size, max_binding_size);
    if r != current && r <= ceiling {
        assert(r * size <= ceiling * size) by (nonlinear_arith)
            requires
                r <= ceiling,
                size >= 1,
                r >= 0,
        ;
    }
}

/// What a frame's bump report led to.
#[derive(Debug, Copy, Clone, PartialEq, Eq, Structural)]
pub enum Reallocation {
    /// The frame did not run out of space: nothing to do.
    Sufficient,
    /// The frame ran out, but it had already reallocated and will be retried.
    RetryPending,
    /// The frame ran out, and at least one buffer was grown.
    Grown,
    /// The frame ran out, but no reported count exceeded its allocation.
    NothingToGrow,
}

/// One buffer's new size after a report: grown when the report needs more.
pub open spec fn next_size(reported: u32, current: u32, element_size: u32, max_binding_size: u64) -> u32 {
    if reported > current {
        grown_size(reported, current, element_size, max_binding_size) as u32
    } else {
        current
    }
}

/// Reallocation never shrinks a buffer.
pub proof fn lemma_reallocation_never_shrinks(
    reported: u32,
    current: u32,
    element_size: u32,
    max_binding_size: u64,
)
    ensures
        next_size(reported, current, element_size, max_binding_size) >= current,
{
}

/// How one buffer's size answers a report that asks for growth: it never
/// shrinks; a buffer that did not run out keeps its size; one that ran out
/// gets a quarter more than the reported count when the device can bind that
/// many elements of `element_size` bytes, and otherwise the most the device
/// binds, unless it had more already; so it gets at least the reported count
/// when the device can bind that many, and more than it had whenever the
/// device can bind one more; and it never asks the device for more than it
/// binds, unless it keeps the size it had.
pub open spec fn answers_report(before: u32, after: u32, reported: u32, element_size: int, max_binding_size: u64) -> bool {
    &&& after >= before
    &&& reported <= before ==> after == before
    &&& reported > before && reported * element_size <= max_binding_size ==> after >= reported
    &&& reported > before && (before + 1) * element_size <= max_binding_size ==> after > before
    &&& after * element_size <= max_binding_size || after == before
    &&& reported > before && reported * 5 / 4 <= u32::MAX && reported * 5 / 4 * element_size
        <= max_binding_size ==> after == reported * 5 / 4
    &&& reported > before && !(reported * 5 / 4 <= u32::MAX && reported * 5 / 4 * element_size
        <= max_binding_size) ==> after == before || ((after + 1) * element_size > max_binding_size
        || after == u32::MAX)
}

/// One buffer grown after a report answers it.
proof fn lemma_next_size_answers_report(reported: u32, current: u32, element_size: u32, max_binding_size: u64)
    requires
        element_size > 0,
    ensures
        answers_report(
            current,
            next_size(reported, current, element_size, max_binding_size),
            reported,
            element_size as int,
            max_binding_size,
        ),
{
    lemma_growth_respects_binding_limit(reported, current, element_size, max_binding_size);
}

/// The reallocation law: for a report that asks for growth, every buffer
/// answers the report (see `answers_report`), each with its own element size:
/// four bytes for the binning, ptcl and blend spill buffers, sixteen for the
/// tile, seg_counts, segments and lines buffers.
pub proof fn lemma_reallocation_grows_what_ran_out(sizes: BumpAllocators, report: BumpAllocators, max_binding_size: u64)
    ensures
        ({
            let g = sizes.grown_to_fit(report, max_binding_size);
            &&& answers_report(sizes.binning, g.binning, report.binning, 4, max_binding_size)
            &&& answers_report(sizes.ptcl, g.ptcl, report.ptcl, 4, max_binding_size)
            &&& answers_report(sizes.tile, g.tile, report.tile, 16, max_binding_size)
            &&& answers_report(sizes.seg_counts, g.seg_counts, report.seg_counts, 16, max_binding_size)
            &&& answers_report(sizes.segments, g.segments, report.segments, 16, max_binding_size)
            &&& answers_report(sizes.blend_spill, g.blend_spill, report.blend_spill, 4, max_binding_size)
            &&& answers_report(sizes.lines, g.lines, report.lines, 16, max_binding_size)
            &&& g.failed == sizes.failed
        }),
{
    lemma_next_size_answers_report(report.binning, sizes.binning, 4, max_binding_size);
    lemma_next_size_answers_report(report.ptcl, sizes.ptcl, 4, max_binding_size);
    lemma_next_size_answers_report(report.tile, sizes.tile, 16, max_binding_size);
    lemma_next_size_answers_report(report.seg_counts, sizes.seg_counts, 16, max_binding_size);
    lemma_next_size_answers_report(report.segments, sizes.segments, 16, max_binding_size);
    lemma_next_size_answers_report(report.blend_spill, sizes.blend_spill, 4, max_binding_size);
    lemma_next_size_answers_report(report.lines, sizes.lines, 16, max_binding_size);
}

impl BumpAllocators {
    /// The counts from the eight words of a bump buffer, in their layout order.
    pub fn from_words(words: [u32; 8]) -> (r: Self)
        ensures
            r == (BumpAllocators {
                failed: words@[0],
                binning: words@[1],
                ptcl: words@[2],
                tile: words@[3],
                seg_counts: words@[4],
                segments: words@[5],
                blend_spill: words@[6],
                lines: words@[7],
            }),
    {
        BumpAllocators {
            failed: words[0],
            binning: words[1],
            ptcl: words[2],
            tile: words[3],
            seg_counts: words[4],
            segments: words[5],
            blend_spill: words[6],
            lines: words[7],
        }
    }

    /// Whether a report asks for buffers to be grown: the frame failed, and
    /// it was not already a retry after an earlier reallocation.
    pub open spec fn asks_to_grow(self) -> bool {
        self.failed != 0 && self.failed & RETRY_PENDING == 0
    }

    /// The sizes after growing each buffer that `report` says was too small.
    pub open spec fn grown_to_fit(self, report: Self, max_binding_size: u64) -> Self {
        BumpAllocators {
            failed: self.failed,
            binning: next_size(report.binning, self.binning, 4, max_binding_size),
            ptcl: next_size(report.ptcl, self.ptcl, 4, max_binding_size),
            tile: next_size(report.tile, self.tile, 16, max_binding_size),
            seg_counts: next_size(report.seg_counts, self.seg_counts, 16, max_binding_size),
            segments: next_size(report.segments, self.segments, 16, max_binding_size),
            blend_spill: next_size(report.blend_spill, self.blend_spill, 4, max_binding_size),
            lines: next_size(report.lines, self.lines, 16, max_binding_size),
        }
    }

    /// Whether some count in `report` exceeds its allocation in `self`.
    pub open spec fn exceeded_by(self, report: Self) -> bool {
        ||| report.binning > self.binning
        ||| report.ptcl > self.ptcl
        ||| report.tile > self.tile
        ||| report.seg_counts > self.seg_counts
        ||| report.segments > self.segments
        ||| report.blend_spill > self.blend_spill
        ||| report.lines > self.lines
    }

    /// Apply the report of an earlier frame to these allocation sizes.
    ///
    /// A frame that ran out of space, and was not already a retry, has each
    /// buffer whose reported count exceeds its size grown with
    /// [`grow_within_binding_limit`]; every other size is left alone.
    pub fn reallocate(&mut self, report: &BumpAllocators, max_binding_size: u64) -> (r: Reallocation)
        ensures
            report.asks_to_grow() ==> *final(self) == old(self).grown_to_fit(*report, max_binding_size),
            report.asks_to_grow() ==> {
                &&& answers_report(old(self).binning, final(self).binning, report.binning, 4, max_binding_size)
                &&& answers_report(old(self).ptcl, final(self).ptcl, report.ptcl, 4, max_binding_size)
                &&& answers_report(old(self).tile, final(self).tile, report.tile, 16, max_binding_size)
                &&& answers_report(
                    old(self).seg_counts,
                    final(self).seg_counts,
                    report.seg_counts,
                    16,
                    max_binding_size,
                )
                &&& answers_report(
                    old(self).segments,
                    final(self).segments,
                    report.segments,
                    16,
                    max_binding_size,
                )
                &&& answers_report(
                    old(self).blend_spill,
                    final(self).blend_spill,
                    report.blend_spill,
                    4,
                    max_binding_size,
                )
                &&& answers_report(old(self).lines, final(self).lines, report.lines, 16, max_binding_size)
                &&& final(self).failed == old(self).failed
            },
            !report.asks_to_grow() ==> *final(self) == *old(self),
            r == (if report.failed == 0 {
                Reallocation::Sufficient
            } else if report.failed & RETRY_PENDING != 0 {
                Reallocation::RetryPending
            } else if old(self).exceeded_by(*report) {
                Reallocation::Grown
            } else {
                Reallocation::NothingToGrow
            }),
    {
        proof {
            lemma_reallocation_grows_what_ran_out(*self, *report, max_binding_size);
        }
        if report.failed == 0 {
            return Reallocation::Sufficient;
        }
        if report.failed & RETRY_PENDING != 0 {
            return Reallocation::RetryPending;
        }
        let mut changed = false;
        if report.binning > self.binning {
            changed = true;
            self.binning = grow_within_binding_limit(report.binning, self.binning, 4, max_binding_size, "binning");
        }
        if report.lines > self.lines {
            changed = true;
            self.lines = grow_within_binding_limit(report.lines, self.lines, 16, max_binding_size, "lines");
        }
        if report.ptcl > self.ptcl {
            changed = true;
            self.ptcl = grow_within_binding_limit(report.ptcl, self.ptcl, 4, max_binding_size, "ptcl");
        }
        if report.seg_counts > self.seg_counts {
            changed = true;
            self.seg_counts = grow_within_binding_limit(
                report.seg_counts,
                self.seg_counts,
                16,
                max_binding_size,
                "seg_counts",
            );
        }
        if report.tile > self.tile {
            changed = true;
            self.tile = grow_within_binding_limit(report.tile, self.tile, 16, max_binding_size, "tile");
        }
        if report.segments > self.segments {
            changed = true;
            self.segments = grow_within_binding_limit(
                report.segments,
                self.segments,
                16,
                max_binding_size,
                "segments",
            );
        }
        if report.blend_spill > self.blend_spill {
            changed = true;
            self.blend_spill = grow_within_binding_limit(
                report.blend_spill,
                self.blend_spill,
                4,
                max_binding_size,
                "blend_spill",
            );
        }
        if changed {
            Reallocation::Grown
        } else {
            Reallocation::NothingToGrow
        }
    }
}

/// The `i`th four-byte word of `bytes`, read little-endian or big-endian.
pub open spec fn word_at(bytes: Seq<u8>, i: int, little_endian: bool) -> u32 {
    let b0 = bytes[4 * i] as int;
    let b1 = bytes[4 * i + 1] as int;
    let b2 = bytes[4 * i + 2] as int;
    let b3 = bytes[4 * i + 3] as int;
    if little_endian {
        (b0 + b1 * 0x100 + b2 * 0x1_0000 + b3 * 0x100_0000) as u32
    } else {
        (b3 + b2 * 0x100 + b1 * 0x1_0000 + b0 * 0x100_0000) as u32
    }
}

/// The eight words of a 32-byte buffer, in one byte order.
pub open spec fn words_of(bytes: Seq<u8>, little_endian: bool) -> Seq<u32> {
    Seq::new(8, |i: int| word_at(bytes, i, little_endian))
}

/// Whether the machine running the code stores words little-endian.
pub open spec fn native_little_endian() -> bool {
    vstd::endian::endianness() is Little
}

/// The four bytes of `w`, in one byte order.
pub open spec fn word_bytes(w: u32, little_endian: bool) -> Seq<u8> {
    let b = seq![
        (w & 0xff) as u8,
        ((w >> 8u32) & 0xff) as u8,
        ((w >> 16u32) & 0xff) as u8,
        ((w >> 24u32) & 0xff) as u8,
    ];
    if little_endian {
        b
    } else {
        seq![b[3], b[2], b[1], b[0]]
    }
}

/// The 32 bytes that hold eight words, each in one byte order.
pub open spec fn buffer_of(words: Seq<u32>, little_endian: bool) -> Seq<u8> {
    Seq::new(32, |i: int| word_bytes(words[i / 4], little_endian)[i % 4])
}

proof fn lemma_word_bytes_recombine(w: u32)
    by (bit_vector)
    ensures
        (w & 0xff) + ((w >> 8u32) & 0xff) * 0x100 + ((w >> 16u32) & 0xff) * 0x1_0000 + ((w >> 24u32)
            & 0xff) * 0x100_0000 == w,
        w & 0xff < 0x100,
        (w >> 8u32) & 0xff < 0x100,
        (w >> 16u32) & 0xff < 0x100,
        (w >> 24u32) & 0xff < 0x100,
{
}

/// A word written in one byte order is read back as itself in that order.
proof fn lemma_word_read_back(w: u32, little_endian: bool)
    ensures
        word_at(word_bytes(w, little_endian), 0, little_endian) == w,
{
    lemma_word_bytes_recombine(w);
    let b = word_bytes(w, little_endian);
    let b0 = (w & 0xff) as u8;
    let b1 = ((w >> 8u32) & 0xff) as u8;
    let b2 = ((w >> 16u32) & 0xff) as u8;
    let b3 = ((w >> 24u32) & 0xff) as u8;
    assert(b0 as int == w & 0xff);
    assert(b1 as int == (w >> 8u32) & 0xff);
    assert(b2 as int == (w >> 16u32) & 0xff);
    assert(b3 as int == (w >> 24u32) & 0xff);
    if little_endian {
        assert(b[0] == b0 && b[1] == b1 && b[2] == b2 && b[3] == b3);
    } else {
        assert(b[3] == b0 && b[2] == b1 && b[1] == b2 && b[0] == b3);
    }
}

/// Eight words written in one byte order are read back as themselves in that order.
proof fn lemma_buffer_read_back(words: Seq<u32>, little_endian: bool)
    requires
        words.len() == 8,
    ensures
        words_of(buffer_of(words, little_endian), little_endian) == words,
{
    let buffer = buffer_of(words, little_endian);
    assert forall|i: int| 0 <= i < 8 implies #[trigger] words_of(buffer, little_endian)[i] == words[i] by {
        let w = words[i];
        let b = word_bytes(w, little_endian);
        lemma_word_read_back(w, little_endian);
        assert(buffer[4 * i] == b[0]);
        assert(buffer[4 * i + 1] == b[1]);
        assert(buffer[4 * i + 2] == b[2]);
        assert(buffer[4 * i + 3] == b[3]);
        assert(word_at(buffer, i, little_endian) == word_at(b, 0, little_endian));
    }
    assert(words_of(buffer, little_endian) =~= words);
}

/// The readback law: the words a frame stores in its bump buffer, in the
/// machine's byte order, are read back as exactly those counts; and in
/// either byte order a buffer is read back as the words it was written with.
pub proof fn lemma_mapped_words_read_back(words: Seq<u32>, little_endian: bool)
    requires
        words.len() == 8,
    ensures
        words_of(buffer_of(words, little_endian), little_endian) == words,
        counts_of(words_of(buffer_of(words, native_little_endian()), native_little_endian()))
            == counts_of(words),
{
    lemma_buffer_read_back(words, little_endian);
    lemma_buffer_read_back(words, native_little_endian());
}

/// The counts held by eight words, in their layout order.
pub open spec fn counts_of(words: Seq<u32>) -> BumpAllocators {
    BumpAllocators {
        failed: words[0],
        binning: words[1],
        ptcl: words[2],
        tile: words[3],
        seg_counts: words[4],
        segments: words[5],
        blend_spill: words[6],
        lines: words[7],
    }
}

/// Reads the eight `u32` words of a mapped bump buffer, with
/// `bytemuck::pod_read_unaligned`.
///
/// `pod_read_unaligned` copies the bytes into the words as they lie in
/// memory, so each word is its four bytes in the byte order of the machine
/// running the code, vstd's `endianness()`: the same order for every buffer.
/// Which of the two orders that is is left unsaid, since it depends on the
/// machine. The function panics unless the slice holds exactly the 32 bytes
/// of the words, so that is required.
#[verifier::external_body]
fn read_bump_words(bytes: &[u8]) -> (words: [u32; 8])
    requires
        bytes@.len() == 32,
    ensures
        words@ == words_of(bytes@, true) || words@ == words_of(bytes@, false),
        words@ == words_of(bytes@, native_little_endian()),
{
    bytemuck::pod_read_unaligned::<[u32; 8]>(bytes)
}

impl BumpAllocators {
    /// The counts in a mapped bump buffer of exactly 32 bytes: its eight
    /// words, each read in the machine's byte order.
    pub fn from_mapped_bytes(bytes: &[u8]) -> (r: Self)
        requires
            bytes@.len() == 32,
        ensures
            r == counts_of(words_of(bytes@, true)) || r == counts_of(words_of(bytes@, false)),
            r == counts_of(words_of(bytes@, native_little_endian())),
    {
        let words = read_bump_words(bytes);
        let r = Self::from_words(words);
        proof {
            assert(r == counts_of(words@));
        }
        r
    }
}

/// The readback chain of bump buffers: each frame's buffer is examined two
/// frames later, so that waiting for it does not stall the frame just submitted.
pub struct ReadbackQueue<T> {
    previous: Option<T>,
    previouser: Option<T>,
}

impl<T> ReadbackQueue<T> {
    /// The buffer of the last frame, and that of the frame before it.
    pub closed spec fn view(&self) -> (Option<T>, Option<T>) {
        (self.previous, self.previouser)
    }

    /// A chain with nothing queued.
    pub fn new() -> (r: Self)
        ensures
            r@ == (None::<T>, None::<T>),
    {
        ReadbackQueue { previous: None, previouser: None }
    }

    /// Takes the readback of the frame two frames back, if there is one.
    pub fn take_oldest(&mut self) -> (r: Option<T>)
        ensures
            r == oldest(old(self)@),
            final(self)@ == (old(self)@.0, None::<T>),
    {
        self.previouser.take()
    }

    /// Records the readback of the frame just submitted (`None` when it kept
    /// no bump buffer), shifting the last frame's readback one frame back.
    pub fn advance(&mut self, latest: Option<T>)
        ensures
            final(self)@ == after_frame(old(self)@, latest),
    {
        let last = self.previous.take();
        self.previous = latest;
        self.previouser = last;
    }
}

/// The state of a readback chain after one frame: the oldest readback is
/// taken at the start, and the frame's own readback queued at the end.
pub open spec fn after_frame<T>(q: (Option<T>, Option<T>), latest: Option<T>) -> (Option<T>, Option<T>) {
    (latest, q.0)
}

/// The readback a frame starts from: the oldest one in the chain.
pub open spec fn oldest<T>(q: (Option<T>, Option<T>)) -> Option<T> {
    q.1
}

/// A readback queued by one frame is the one taken at the start of the frame
/// after next, whatever came before it and whatever the next frame queued.
pub proof fn lemma_readback_is_two_frames_late<T>(q: (Option<T>, Option<T>), a: Option<T>, b: Option<T>)
    ensures
        oldest(after_frame(after_frame(q, a), b)) == a,
{
}

/// What to do next with the readback of the frame two back.
#[derive(Debug, Copy, Clone, PartialEq, Eq, Structural)]
pub enum ReadbackStep {
    /// Block on the device until that frame's submission has completed.
    Wait,
    /// Read the mapped bump buffer: its completion has been reported.
    Read,
    /// Leave the buffer unread: it was waited for and still has not reported.
    Skip,
}

/// Decides the next step with the readback of the frame two back, from its
/// completion flag and whether the device was already waited on for it. The
/// device is waited on only while the flag is unset, so a frame whose data is
/// already there costs no wait; the buffer is read only once the flag is set,
/// so no read races a submission still in flight.
pub fn next_readback_step(completed: bool, waited: bool) -> (r: ReadbackStep)
    ensures
        completed ==> r == ReadbackStep::Read,
        !completed && !waited ==> r == ReadbackStep::Wait,
        !completed && waited ==> r == ReadbackStep::Skip,
{
    if completed {
        ReadbackStep::Read
    } else if !waited {
        ReadbackStep::Wait
    } else {
        ReadbackStep::Skip
    }
}

} // verus!
