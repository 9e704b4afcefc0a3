//! Chunks: the contiguous, numbered parts in which lines are sent out.

use vstd::prelude::*;

verus! {

/// A contiguous part of the lines to translate, sent out as one request.
/// Chunks are numbered from 1 in the order of the lines.
#[derive(Clone, Debug, PartialEq, Eq)]
pub struct Chunk {
    pub number: usize,
    pub lines: Vec<String>,
}

/// The mathematical value of a [`Chunk`].
pub struct ChunkModel {
    pub number: nat,
    pub lines: Seq<Seq<char>>,
}

impl View for Chunk {
    type V = ChunkModel;

    open spec fn view(&self) -> ChunkModel {
        ChunkModel { number: self.number as nat, lines: self.lines.deep_view() }
    }
}

impl DeepView for Chunk {
    type V = ChunkModel;

    open spec fn deep_view(&self) -> ChunkModel {
        self@
    }
}

/// The chunks of at most `size` lines that `lines` fall into, numbered
/// from `number` on. Every chunk but the last holds exactly `size` lines.
pub open spec fn partitioned_from(lines: Seq<Seq<char>>, size: nat, number: nat) -> Seq<
    ChunkModel,
>
    decreases lines.len(),
{
    if lines.len() == 0 || size == 0 {
        Seq::empty()
    } else if lines.len() <= size {
        seq![ChunkModel { number, lines }]
    } else {
        seq![ChunkModel { number, lines: lines.take(size as int) }] + partitioned_from(
            lines.skip(size as int),
            size,
            number + 1,
        )
    }
}

/// The chunks of at most `size` lines that `lines` fall into, numbered
/// from 1.
pub open spec fn partitioned(lines: Seq<Seq<char>>, size: nat) -> Seq<ChunkModel> {
    partitioned_from(lines, size, 1)
}

/// The lines of the chunks, one chunk after the other.
pub open spec fn chunk_lines(chunks: Seq<ChunkModel>) -> Seq<Seq<char>>
    decreases chunks.len(),
{
    if chunks.len() == 0 {
        Seq::empty()
    } else {
        chunk_lines(chunks.drop_last()) + chunks.last().lines
    }
}

/// The lines of chunks laid end to end: those of the first part, then
/// those of the second.
pub proof fn lemma_chunk_lines_concat(a: Seq<ChunkModel>, b: Seq<ChunkModel>)
    ensures
        chunk_lines(a + b) == chunk_lines(a) + chunk_lines(b),
    decreases b.len(),
{
    if b.len() == 0 {
        assert(a + b == a);
    } else {
        assert((a + b).drop_last() == a + b.drop_last());
        lemma_chunk_lines_concat(a, b.drop_last());
    }
}

/// Partitioning loses and reorders nothing, numbers the chunks one by one,
/// and makes no chunk empty or longer than `size`.
pub proof fn lemma_partitioned(lines: Seq<Seq<char>>, size: nat, number: nat)
    requires
        size > 0,
    ensures
        chunk_lines(partitioned_from(lines, size, number)) == lines,
        partitioned_from(lines, size, number).len() <= lines.len(),
        forall|i: int|
            0 <= i < partitioned_from(lines, size, number).len() ==> {
                let chunk = #[trigger] partitioned_from(lines, size, number)[i];
                &&& chunk.number == number + i
                &&& 0 < chunk.lines.len() <= size
            },
    decreases lines.len(),
{
    let chunks = partitioned_from(lines, size, number);
    if lines.len() == 0 {
    } else if lines.len() <= size {
        assert(chunks.drop_last() == Seq::<ChunkModel>::empty());
        assert(chunk_lines(chunks.drop_last()) == Seq::<Seq<char>>::empty());
        assert(chunk_lines(chunks) == Seq::<Seq<char>>::empty() + lines);
    } else {
        let first = seq![ChunkModel { number, lines: lines.take(size as int) }];
        let rest = partitioned_from(lines.skip(size as int), size, number + 1);
        lemma_partitioned(lines.skip(size as int), size, number + 1);
        lemma_chunk_lines_concat(first, rest);
        assert(first.drop_last() == Seq::<ChunkModel>::empty());
        assert(chunk_lines(first.drop_last()) == Seq::<Seq<char>>::empty());
        assert(chunk_lines(first) == Seq::<Seq<char>>::empty() + lines.take(size as int));
        assert(lines.take(size as int) + lines.skip(size as int) == lines);
        assert forall|i: int| 0 <= i < chunks.len() implies {
            let chunk = #[trigger] chunks[i];
            &&& chunk.number == number + i
            &&& 0 < chunk.lines.len() <= size
        } by {
            if i > 0 {
                assert(chunks[i] == rest[i - 1]);
            }
        }
    }
}

/// Copies the lines from index `from` up to index `to`.
pub fn copy_lines(lines: &Vec<String>, from: usize, to: usize) -> (copy: Vec<String>)
    requires
        from <= to <= lines@.len(),
    ensures
        copy.deep_view() == lines.deep_view().subrange(from as int, to as int),
{
    let mut copy: Vec<String> = Vec::new();
    let mut i: usize = from;
    assert(copy.deep_view() == lines.deep_view().subrange(from as int, from as int));
    while i < to
        invariant
            from <= i <= to,
            to <= lines@.len(),
            copy.deep_view() == lines.deep_view().subrange(from as int, i as int),
        decreases to - i,
    {
        let ghost so_far = copy.deep_view();
        copy.push(lines[i].clone());
        assert(copy.deep_view() == so_far.push(lines[i as int]@));
        i += 1;
        assert(lines.deep_view().subrange(from as int, i as int) == so_far.push(
            lines[i - 1]@,
        ));
    }
    copy
}

/// Partitions `lines` into chunks of `chunk_lines` lines each, the last one
/// perhaps shorter, numbered from 1 in the order of the lines.
pub fn partition(lines: &Vec<String>, chunk_lines: usize) -> (chunks: Vec<Chunk>)
    requires
        chunk_lines > 0,
    ensures
        chunks.deep_view() == partitioned(lines.deep_view(), chunk_lines as nat),
{
    let ghost all = lines.deep_view();
    let ghost size = chunk_lines as nat;
    let mut chunks: Vec<Chunk> = Vec::new();
    let mut start: usize = 0;
    proof {
        assert(all.skip(0) == all);
        assert(chunks.deep_view() + partitioned_from(all, size, 1) == partitioned(all, size));
    }
    while start < lines.len()
        invariant
            start <= lines@.len(),
            chunks@.len() <= start,
            chunk_lines > 0,
            size == chunk_lines,
            all == lines.deep_view(),
            chunks.deep_view() + partitioned_from(
                all.skip(start as int),
                size,
                (chunks@.len() + 1) as nat,
            ) == partitioned(all, size),
        decreases lines@.len() - start,
    {
        let end = if lines.len() - start <= chunk_lines {
            lines.len()
        } else {
            start + chunk_lines
        };
        let chunk = Chunk { number: chunks.len() + 1, lines: copy_lines(lines, start, end) };
        let ghost done = chunks.deep_view();
        let ghost rest = all.skip(start as int);
        proof {
            if rest.len() <= size {
                assert(all.subrange(start as int, end as int) == rest);
                assert(all.skip(end as int).len() == 0);
            } else {
                assert(all.subrange(start as int, end as int) == rest.take(size as int));
                assert(all.skip(end as int) == rest.skip(size as int));
            }
        }
        chunks.push(chunk);
        proof {
            assert(chunks.deep_view() == done.push(chunk@));
            assert(done.push(chunk@) + partitioned_from(
                all.skip(end as int),
                size,
                (chunks@.len() + 1) as nat,
            ) == done + partitioned_from(rest, size, chunks@.len() as nat));
        }
        start = end;
    }
    proof {
        assert(all.skip(start as int).len() == 0);
        assert(chunks.deep_view() + Seq::<ChunkModel>::empty() == chunks.deep_view());
    }
    chunks
}

} // verus!
