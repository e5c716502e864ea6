//! Builds the database from a file's lines: every three-byte window of a
//! line feeds the trie, and chunks close on the line-count or byte-budget
//! threshold.

use vstd::prelude::*;
use crate::chunk_inventory::prefix_len;
use crate::database::DatabaseBuilder;

verus! {

/// The chunk bookkeeping after the first `i` lines: the running chunk's
/// start offset and the cumulative byte offsets and line counts of the
/// chunks closed so far.
///
/// The line-count test is `line_count % lines_per_chunk == 0` over the
/// whole file, as the on-disk format has it, not a per-chunk count.
pub open spec fn chunk_state(
    lines: Seq<Seq<u8>>,
    lines_per_chunk: u32,
    bytes_per_chunk: u32,
    i: int,
) -> (int, Seq<u32>, Seq<u32>)
    decreases i,
{
    if i <= 0 {
        (0, Seq::empty(), Seq::empty())
    } else {
        let (cs, offs, lcs) = chunk_state(lines, lines_per_chunk, bytes_per_chunk, i - 1);
        let pos = prefix_len(lines, i);
        if (i % (lines_per_chunk as int) == 0) || (pos - cs > bytes_per_chunk) {
            (pos, offs.push(pos as u32), lcs.push(i as u32))
        } else {
            (cs, offs, lcs)
        }
    }
}

/// The byte offsets of the chunk ends, the final partial chunk included.
pub open spec fn spec_chunk_offsets(
    lines: Seq<Seq<u8>>,
    lines_per_chunk: u32,
    bytes_per_chunk: u32,
) -> Seq<u32> {
    let n = lines.len() as int;
    let (cs, offs, lcs) = chunk_state(lines, lines_per_chunk, bytes_per_chunk, n);
    if cs != prefix_len(lines, n) {
        offs.push(prefix_len(lines, n) as u32)
    } else {
        offs
    }
}

/// The line counts of the chunk ends, the final partial chunk included.
pub open spec fn spec_chunk_line_counts(
    lines: Seq<Seq<u8>>,
    lines_per_chunk: u32,
    bytes_per_chunk: u32,
) -> Seq<u32> {
    let n = lines.len() as int;
    let (cs, offs, lcs) = chunk_state(lines, lines_per_chunk, bytes_per_chunk, n);
    if cs != prefix_len(lines, n) {
        lcs.push(lines.len() as u32)
    } else {
        lcs
    }
}

/// Length of a line once its trailing terminator bytes are stripped;
/// only what remains feeds the three-byte windows.
pub open spec fn trimmed_len(line: Seq<u8>) -> int
    decreases line.len(),
{
    if line.len() == 0 {
        0
    } else if line.last() == 10 || line.last() == 13 {
        trimmed_len(line.drop_last())
    } else {
        line.len() as int
    }
}

/// Whether one of the first `w` window positions of the trimmed line
/// holds the trigram.
pub open spec fn has_window_below(line: Seq<u8>, w: int, b0: int, b1: int, b2: int) -> bool {
    exists|k: int|
        0 <= k < w && k + 3 <= trimmed_len(line) && (#[trigger] line[k]) == b0 && line[k + 1]
            == b1 && line[k + 2] == b2
}

/// Whether the trimmed line holds the trigram anywhere.
pub open spec fn has_window(line: Seq<u8>, b0: int, b1: int, b2: int) -> bool {
    has_window_below(line, trimmed_len(line) - 2, b0, b1, b2)
}

/// The chunk id in effect while line `i` is indexed: how many chunks have
/// closed before it.
pub open spec fn line_chunk(lines: Seq<Seq<u8>>, lpc: u32, bpc: u32, i: int) -> int {
    chunk_state(lines, lpc, bpc, i).1.len() as int
}

/// Whether some line of chunk `c`, among the first `upto` lines, holds
/// the trigram.
pub open spec fn trigram_in_chunk_below(
    lines: Seq<Seq<u8>>,
    lpc: u32,
    bpc: u32,
    upto: int,
    b0: int,
    b1: int,
    b2: int,
    c: u64,
) -> bool {
    exists|i: int|
        0 <= i < upto && c == line_chunk(lines, lpc, bpc, i) && has_window(
            #[trigger] lines[i],
            b0,
            b1,
            b2,
        )
}

/// Whether some line of chunk `c` holds the trigram.
pub open spec fn trigram_in_chunk(
    lines: Seq<Seq<u8>>,
    lpc: u32,
    bpc: u32,
    b0: int,
    b1: int,
    b2: int,
    c: u64,
) -> bool {
    trigram_in_chunk_below(lines, lpc, bpc, lines.len() as int, b0, b1, b2, c)
}

/// The running chunk start never runs ahead of the stream, and the two
/// boundary lists stay in step.
pub proof fn lemma_chunk_state_bounds(
    lines: Seq<Seq<u8>>,
    lines_per_chunk: u32,
    bytes_per_chunk: u32,
    i: int,
)
    ensures
        ({
            let (cs, offs, lcs) = chunk_state(lines, lines_per_chunk, bytes_per_chunk, i);
            &&& 0 <= cs
            &&& i >= 0 ==> cs <= prefix_len(lines, i)
            &&& offs.len() == lcs.len()
            &&& i >= 0 ==> offs.len() <= i
        }),
    decreases (if i >= 0 { i } else { 0 }),
{
    if i > 0 {
        lemma_chunk_state_bounds(lines, lines_per_chunk, bytes_per_chunk, i - 1);
        crate::chunk_inventory::lemma_prefix_len_monotone(lines, i - 1, i);
    }
}

/// Strictly ascending `u32` entries.
pub open spec fn ascending_u32(s: Seq<u32>) -> bool {
    forall|i: int, j: int| 0 <= i < j < s.len() ==> s[i] < s[j]
}

/// With no line empty, every close moves the stream strictly forward, so
/// both boundary lists ascend strictly and trail the stream.
proof fn lemma_chunk_state_ascending(
    lines: Seq<Seq<u8>>,
    lines_per_chunk: u32,
    bytes_per_chunk: u32,
    i: int,
)
    requires
        lines_per_chunk > 0,
        0 <= i <= lines.len(),
        lines.len() < 0xffff_ffff,
        forall|j: int| 0 <= j < lines.len() ==> (#[trigger] lines[j]).len() >= 1,
        prefix_len(lines, lines.len() as int) <= u32::MAX,
    ensures
        ({
            let (cs, offs, lcs) = chunk_state(lines, lines_per_chunk, bytes_per_chunk, i);
            &&& ascending_u32(offs)
            &&& ascending_u32(lcs)
            &&& (offs.len() > 0 ==> offs.last() == cs)
            &&& (offs.len() == 0 ==> cs == 0)
            &&& (lcs.len() > 0 ==> lcs.last() <= i)
            &&& (lcs.len() > 0 ==> cs == prefix_len(lines, lcs.last() as int))
        }),
    decreases (if i >= 0 { i } else { 0 }),
{
    if i > 0 {
        lemma_chunk_state_ascending(lines, lines_per_chunk, bytes_per_chunk, i - 1);
        lemma_chunk_state_bounds(lines, lines_per_chunk, bytes_per_chunk, i - 1);
        crate::chunk_inventory::lemma_prefix_len_monotone(lines, i - 1, i);
        crate::chunk_inventory::lemma_prefix_len_monotone(lines, i, lines.len() as int);
        let (cs0, offs0, lcs0) = chunk_state(lines, lines_per_chunk, bytes_per_chunk, i - 1);
        let pos = prefix_len(lines, i);
        assert(pos == prefix_len(lines, i - 1) + lines[i - 1].len());
        assert(pos > cs0);
        if (i % (lines_per_chunk as int) == 0) || (pos - cs0 > bytes_per_chunk) {
            let offs = offs0.push(pos as u32);
            let lcs = lcs0.push(i as u32);
            assert forall|a: int, b: int| 0 <= a < b < offs.len() implies offs[a] < offs[b] by {
                if b == offs.len() - 1 && offs0.len() > 0 && a < offs0.len() - 1 {
                    assert(offs0[a] < offs0[offs0.len() - 1]);
                }
            }
            assert forall|a: int, b: int| 0 <= a < b < lcs.len() implies lcs[a] < lcs[b] by {
                if b == lcs.len() - 1 && lcs0.len() > 0 && a < lcs0.len() - 1 {
                    assert(lcs0[a] < lcs0[lcs0.len() - 1]);
                }
            }
        }
    }
}

impl DatabaseBuilder {
    /// Builds a database from the lines of a file, each line given with
    /// its terminator bytes still attached. A chunk closes when the
    /// running line count divides `lines_per_chunk` or the chunk has run
    /// past `bytes_per_chunk` bytes; a final partial chunk closes at the
    /// end of the input.
    #[verifier::loop_isolation(false)]
    pub fn from_lines(
        lines: &Vec<Vec<u8>>,
        lines_per_chunk: u32,
        bytes_per_chunk: u32,
    ) -> (r: DatabaseBuilder)
        requires
            lines_per_chunk > 0,
            lines@.len() < 0xffff_ffff,
            prefix_len(lines@.map_values(|l: Vec<u8>| l@), lines@.len() as int) < 0xffff_ffff,
            forall|i: int| 0 <= i < lines@.len() ==> (#[trigger] lines@[i]@).len() >= 1,
        ensures
            r.wf(),
            ascending_u32(r.offsets_of()),
            ascending_u32(r.lines_of()),
            r.offsets_of().len() > 0 ==> r.offsets_of().last() == prefix_len(
                lines@.map_values(|l: Vec<u8>| l@),
                lines@.len() as int,
            ),
            r.lines_of().len() > 0 ==> r.lines_of().last() == lines@.len(),
            r.offsets_of() == spec_chunk_offsets(
                lines@.map_values(|l: Vec<u8>| l@),
                lines_per_chunk,
                bytes_per_chunk,
            ),
            r.lines_of() == spec_chunk_line_counts(
                lines@.map_values(|l: Vec<u8>| l@),
                lines_per_chunk,
                bytes_per_chunk,
            ),
            forall|b0: int, b1: int, b2: int, c: u64|
                0 <= b0 < 256 && 0 <= b1 < 256 && 0 <= b2 < 256 ==> ((#[trigger] r.ids_for(
                    b0,
                    b1,
                    b2,
                ).contains(c)) <==> trigram_in_chunk(
                    lines@.map_values(|l: Vec<u8>| l@),
                    lines_per_chunk,
                    bytes_per_chunk,
                    b0,
                    b1,
                    b2,
                    c,
                )),
    {
        let ghost ls = lines@.map_values(|l: Vec<u8>| l@);
        let ghost n = ls.len() as int;
        let mut builder = DatabaseBuilder::new();
        let mut chunk: u64 = 0;
        let mut line_count: u32 = 0;
        let mut chunk_start: u32 = 0;
        let mut stream_position: u32 = 0;
        let mut i: usize = 0;
        proof {
            crate::chunk_inventory::lemma_prefix_len_monotone(ls, 0, n);
        }
        while i < lines.len()
            invariant
                lines_per_chunk > 0,
                ls == lines@.map_values(|l: Vec<u8>| l@),
                n == ls.len(),
                ls.len() < 0xffff_ffff,
                prefix_len(ls, n) < 0xffff_ffff,
                i <= ls.len(),
                line_count == i,
                stream_position == prefix_len(ls, i as int),
                builder.wf(),
                ({
                    let (cs, offs, lcs) = chunk_state(ls, lines_per_chunk, bytes_per_chunk,
                        i as int);
                    &&& chunk_start == cs
                    &&& builder.offsets_of() == offs
                    &&& builder.lines_of() == lcs
                    &&& chunk == offs.len()
                }),
                builder.inventory_of().lists().len() <= prefix_len(ls, i as int),
                match builder.last_chunk() {
                    None => true,
                    Some(p) => p <= chunk,
                },
                forall|b0: int, b1: int, b2: int, c: u64|
                    0 <= b0 < 256 && 0 <= b1 < 256 && 0 <= b2 < 256 ==> ((
                    #[trigger] builder.ids_for(b0, b1, b2).contains(c))
                        <==> trigram_in_chunk_below(
                        ls,
                        lines_per_chunk,
                        bytes_per_chunk,
                        i as int,
                        b0,
                        b1,
                        b2,
                        c,
                    )),
            decreases ls.len() - i,
        {
            proof {
                crate::chunk_inventory::lemma_prefix_len_monotone(ls, 0, i as int);
                crate::chunk_inventory::lemma_prefix_len_monotone(ls, i as int, i as int + 1);
                crate::chunk_inventory::lemma_prefix_len_monotone(ls, i as int + 1, n);
                assert(ls[i as int] == lines@[i as int]@);
                assert(prefix_len(ls, i as int + 1) == prefix_len(ls, i as int)
                    + ls[i as int].len());
                lemma_chunk_state_bounds(ls, lines_per_chunk, bytes_per_chunk, i as int);
                lemma_chunk_state_bounds(ls, lines_per_chunk, bytes_per_chunk, i as int + 1);
            }
            let line_len = lines[i].len();
            let ghost pre = builder;
            builder.add_line(chunk, &lines[i]);
            proof {
                let il = i as int;
                assert forall|b0: int, b1: int, b2: int, c: u64|
                    0 <= b0 < 256 && 0 <= b1 < 256 && 0 <= b2 < 256 implies ((
                #[trigger] builder.ids_for(b0, b1, b2).contains(c)) <==> trigram_in_chunk_below(
                    ls,
                    lines_per_chunk,
                    bytes_per_chunk,
                    il + 1,
                    b0,
                    b1,
                    b2,
                    c,
                )) by {
                    assert(chunk == line_chunk(ls, lines_per_chunk, bytes_per_chunk, il));
                    if builder.ids_for(b0, b1, b2).contains(c) {
                        if pre.ids_for(b0, b1, b2).contains(c) {
                            let j = choose|j: int|
                                0 <= j < il && c == line_chunk(
                                    ls,
                                    lines_per_chunk,
                                    bytes_per_chunk,
                                    j,
                                ) && has_window(#[trigger] ls[j], b0, b1, b2);
                            assert(trigram_in_chunk_below(
                                ls,
                                lines_per_chunk,
                                bytes_per_chunk,
                                il + 1,
                                b0,
                                b1,
                                b2,
                                c,
                            ));
                        } else {
                            assert(c == chunk && has_window(ls[il], b0, b1, b2));
                            assert(trigram_in_chunk_below(
                                ls,
                                lines_per_chunk,
                                bytes_per_chunk,
                                il + 1,
                                b0,
                                b1,
                                b2,
                                c,
                            ));
                        }
                    }
                    if trigram_in_chunk_below(
                        ls,
                        lines_per_chunk,
                        bytes_per_chunk,
                        il + 1,
                        b0,
                        b1,
                        b2,
                        c,
                    ) {
                        let j = choose|j: int|
                            0 <= j < il + 1 && c == line_chunk(
                                ls,
                                lines_per_chunk,
                                bytes_per_chunk,
                                j,
                            ) && has_window(#[trigger] ls[j], b0, b1, b2);
                        if j < il {
                            assert(pre.ids_for(b0, b1, b2).contains(c));
                        } else {
                            assert(c == chunk && has_window(ls[il], b0, b1, b2));
                        }
                        assert(builder.ids_for(b0, b1, b2).contains(c));
                    }
                }
            }
            stream_position = stream_position + line_len as u32;
            line_count = line_count + 1;
            i = i + 1;
            if line_count % lines_per_chunk == 0 || stream_position - chunk_start
                > bytes_per_chunk {
                builder.add_chunk_end(stream_position, line_count);
                chunk = chunk + 1;
                chunk_start = stream_position;
            }
        }
        if chunk_start != stream_position {
            builder.add_chunk_end(stream_position, line_count);
        }
        proof {
            lemma_chunk_state_ascending(ls, lines_per_chunk, bytes_per_chunk, n);
            lemma_chunk_state_bounds(ls, lines_per_chunk, bytes_per_chunk, n);
            let (cs, offs, lcs) = chunk_state(ls, lines_per_chunk, bytes_per_chunk, n);
            if cs != prefix_len(ls, n) {
                assert forall|a: int, b: int|
                    0 <= a < b < builder.offsets_of().len() implies builder.offsets_of()[a]
                    < builder.offsets_of()[b] by {
                    if b == builder.offsets_of().len() - 1 && offs.len() > 0 && a < offs.len()
                        - 1 {
                        assert(offs[a] < offs[offs.len() - 1]);
                    }
                }
                assert forall|a: int, b: int|
                    0 <= a < b < builder.lines_of().len() implies builder.lines_of()[a]
                    < builder.lines_of()[b] by {
                    if b == builder.lines_of().len() - 1 && lcs.len() > 0 && a < lcs.len() - 1 {
                        assert(lcs[a] < lcs[lcs.len() - 1]);
                    }
                }
            } else {
                if lcs.len() > 0 && (lcs.last() as int) < n {
                    // the last close fell short of the last line, yet the
                    // stream did not move past it: impossible with no line
                    // empty
                    crate::chunk_inventory::lemma_prefix_len_monotone(
                        ls,
                        lcs.last() as int,
                        n - 1,
                    );
                    assert(prefix_len(ls, n) == prefix_len(ls, n - 1) + ls[n - 1].len());
                    assert(false);
                }
            }
        }
        builder
    }

    /// Feeds every three-byte window of one line to the trie, the trailing
    /// terminator bytes left out of the windows: afterwards a trigram's id
    /// list holds `chunk` exactly when it did before or the line's windows
    /// hold the trigram, and a trigram the line does not hold keeps its
    /// list untouched.
    #[verifier::loop_isolation(false)]
    fn add_line(&mut self, chunk: u64, line: &Vec<u8>)
        requires
            old(self).wf(),
            old(self).inventory_of().lists().len() + line@.len() < 0xffff_ffff,
            match old(self).last_chunk() {
                None => true,
                Some(p) => p <= chunk,
            },
        ensures
            final(self).wf(),
            final(self).offsets_of() == old(self).offsets_of(),
            final(self).lines_of() == old(self).lines_of(),
            final(self).inventory_of().lists().len() <= old(self).inventory_of().lists().len()
                + line@.len(),
            match final(self).last_chunk() {
                None => old(self).last_chunk() is None,
                Some(p) => p == chunk || old(self).last_chunk() == Some(p),
            },
            forall|b0: int, b1: int, b2: int|
                0 <= b0 < 256 && 0 <= b1 < 256 && 0 <= b2 < 256 && !has_window(
                    line@,
                    b0,
                    b1,
                    b2,
                ) ==> #[trigger] final(self).ids_for(b0, b1, b2) == old(self).ids_for(
                    b0,
                    b1,
                    b2,
                ),
            forall|b0: int, b1: int, b2: int, c: u64|
                0 <= b0 < 256 && 0 <= b1 < 256 && 0 <= b2 < 256 ==> ((#[trigger] final(self).ids_for(b0, b1, b2).contains(c)) <==> (old(self).ids_for(b0, b1, b2).contains(
                    c,
                ) || (c == chunk && has_window(line@, b0, b1, b2)))),
    {
        let mut end = line.len();
        proof {
            assert(line@.subrange(0, line@.len() as int) =~= line@);
        }
        while end > 0 && (line[end - 1] == 10 || line[end - 1] == 13)
            invariant
                end <= line@.len(),
                trimmed_len(line@) == trimmed_len(line@.subrange(0, end as int)),
            decreases end,
        {
            proof {
                assert(line@.subrange(0, end as int).drop_last() =~= line@.subrange(
                    0,
                    end as int - 1,
                ));
            }
            end = end - 1;
        }
        proof {
            if end > 0 {
                assert(trimmed_len(line@.subrange(0, end as int)) == end);
            }
            assert(end as int == trimmed_len(line@));
        }
        if end < 3 {
            proof {
                assert forall|b0: int, b1: int, b2: int|
                    0 <= b0 < 256 && 0 <= b1 < 256 && 0 <= b2 < 256 implies !(
                #[trigger] has_window(line@, b0, b1, b2)) by {}
            }
            return ;
        }
        let mut w: usize = 0;
        while w < end - 2
            invariant
                3 <= end <= line@.len(),
                end as int == trimmed_len(line@),
                w <= end - 2,
                self.wf(),
                self.offsets_of() == old(self).offsets_of(),
                self.lines_of() == old(self).lines_of(),
                self.inventory_of().lists().len() <= old(self).inventory_of().lists().len() + w,
                match self.last_chunk() {
                    None => old(self).last_chunk() is None,
                    Some(p) => p == chunk || old(self).last_chunk() == Some(p),
                },
                match self.last_chunk() {
                    None => true,
                    Some(p) => p <= chunk,
                },
                forall|b0: int, b1: int, b2: int|
                    0 <= b0 < 256 && 0 <= b1 < 256 && 0 <= b2 < 256 && !has_window_below(
                        line@,
                        w as int,
                        b0,
                        b1,
                        b2,
                    ) ==> #[trigger] self.ids_for(b0, b1, b2) == old(self).ids_for(b0, b1, b2),
                forall|b0: int, b1: int, b2: int, c: u64|
                    0 <= b0 < 256 && 0 <= b1 < 256 && 0 <= b2 < 256 ==> ((#[trigger] self.ids_for(
                        b0,
                        b1,
                        b2,
                    ).contains(c)) <==> (old(self).ids_for(b0, b1, b2).contains(c) || (c == chunk
                        && has_window_below(line@, w as int, b0, b1, b2)))),
            decreases end - w,
        {
            proof {
                assert(self.inventory_of().lists().len() < 0xffff_ffff);
            }
            let ghost pre = *self;
            let t = [line[w], line[w + 1], line[w + 2]];
            self.add_trigram(t, chunk);
            proof {
                let wl = w as int;
                assert forall|b0: int, b1: int, b2: int|
                    0 <= b0 < 256 && 0 <= b1 < 256 && 0 <= b2 < 256 && !has_window_below(
                    line@,
                    wl + 1,
                    b0,
                    b1,
                    b2,
                ) implies #[trigger] self.ids_for(b0, b1, b2) == old(self).ids_for(
                    b0,
                    b1,
                    b2,
                ) by {
                    assert(!has_window_below(line@, wl, b0, b1, b2));
                    if (b0, b1, b2) == (line@[wl] as int, line@[wl + 1] as int, line@[wl
                        + 2] as int) {
                        assert(has_window_below(line@, wl + 1, b0, b1, b2));
                    } else {
                        assert(self.ids_for(b0, b1, b2) == pre.ids_for(b0, b1, b2));
                    }
                }
                assert forall|b0: int, b1: int, b2: int, c: u64|
                    0 <= b0 < 256 && 0 <= b1 < 256 && 0 <= b2 < 256 implies ((
                #[trigger] self.ids_for(b0, b1, b2).contains(c)) <==> (old(self).ids_for(
                    b0,
                    b1,
                    b2,
                ).contains(c) || (c == chunk && has_window_below(
                    line@,
                    wl + 1,
                    b0,
                    b1,
                    b2,
                )))) by {
                    if (b0, b1, b2) == (line@[wl] as int, line@[wl + 1] as int, line@[wl
                        + 2] as int) {
                        assert(self.ids_for(b0, b1, b2) == pre.ids_for(b0, b1, b2).push(chunk));
                        assert(has_window_below(line@, wl + 1, b0, b1, b2));
                        assert forall|v: u64| #[trigger] self.ids_for(b0, b1, b2).contains(
                            v,
                        ) <==> pre.ids_for(b0, b1, b2).contains(v) || v == chunk by {
                            lemma_push_contains(pre.ids_for(b0, b1, b2), chunk, v);
                        }
                    } else {
                        assert(self.ids_for(b0, b1, b2) == pre.ids_for(b0, b1, b2));
                        assert(has_window_below(line@, wl + 1, b0, b1, b2)
                            == has_window_below(line@, wl, b0, b1, b2)) by {
                            if has_window_below(line@, wl + 1, b0, b1, b2) {
                                let k = choose|k: int|
                                    0 <= k < wl + 1 && k + 3 <= trimmed_len(line@) && (
                                    #[trigger] line@[k]) == b0 && line@[k + 1] == b1 && line@[k
                                        + 2] == b2;
                                if k == wl {
                                    assert(false);
                                }
                            }
                        }
                    }
                }
            }
            w = w + 1;
        }
        proof {
            assert forall|b0: int, b1: int, b2: int|
                0 <= b0 < 256 && 0 <= b1 < 256 && 0 <= b2 < 256 implies has_window_below(
                line@,
                end as int - 2,
                b0,
                b1,
                b2,
            ) == #[trigger] has_window(line@, b0, b1, b2) by {}
        }
    }
}

/// Membership in a pushed sequence.
proof fn lemma_push_contains(s: Seq<u64>, x: u64, v: u64)
    ensures
        s.push(x).contains(v) <==> s.contains(v) || v == x,
{
    if s.contains(v) {
        let i = choose|i: int| 0 <= i < s.len() && s[i] == v;
        assert(s.push(x)[i] == v);
    }
    if v == x {
        assert(s.push(x)[s.len() as int] == v);
    }
    if s.push(x).contains(v) {
        let i = choose|i: int| 0 <= i < s.push(x).len() && s.push(x)[i] == v;
        if i < s.len() {
            assert(s[i] == v);
        }
    }
}

} // verus!
