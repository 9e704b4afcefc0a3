//! The chunked translation orchestrator.
//!
//! The orchestrator decides; its caller talks to the backend. It hands out a
//! batch of chunks to send, takes the outcomes of the batch in whatever
//! order they arrived, and answers with the next batch, the finished
//! translation or the end of the run. A chunk whose outcome holds the wrong
//! number of lines is sent again line by line, one level deeper, until the
//! levels run out.

use crate::translate::chunk::{
    chunk_lines, lemma_partitioned, partition, partitioned, Chunk, ChunkModel,
};
use crate::translate::outcome::{
    in_sequence, inserted, lemma_order_restored, rising, sort_by_number, OutcomeModel,
    TranslationOutcome,
};
use vstd::prelude::*;

verus! {

/// The deepest level of a run: how many times a line can be sent again
/// after its first chunk. A chunk is sent at the levels 0 to
/// `MAX_RETRY_DEPTH`, five attempts in all, and never deeper.
pub const MAX_RETRY_DEPTH: usize = 4;

/// The chunk on which a run gave up.
#[derive(Clone, Copy, Debug, PartialEq, Eq, Structural)]
pub struct RetryExhausted {
    /// The sequence number of the chunk in its batch.
    pub number: usize,
    /// How many lines were sent.
    pub expected: usize,
    /// How many lines came back.
    pub received: usize,
}

/// What the orchestrator asks of its caller.
#[derive(Debug, PartialEq, Eq)]
pub enum Step {
    /// Send these chunks to the backend and come back with their outcomes.
    Dispatch(Vec<Chunk>),
    /// The run is over: these are the translated lines, in the order of the
    /// input.
    Done(Vec<String>),
    /// The run is over without a translation: a chunk came back with the
    /// wrong number of lines at the deepest level.
    Fatal(RetryExhausted),
}

/// The mathematical value of a [`Step`].
pub enum StepModel {
    Dispatch(Seq<ChunkModel>),
    Done(Seq<Seq<char>>),
    Fatal(RetryExhausted),
}

impl View for Step {
    type V = StepModel;

    open spec fn view(&self) -> StepModel {
        match self {
            Step::Dispatch(chunks) => StepModel::Dispatch(chunks.deep_view()),
            Step::Done(lines) => StepModel::Done(lines.deep_view()),
            Step::Fatal(e) => StepModel::Fatal(*e),
        }
    }
}

/// One level of a run: the outcomes of a batch that are not merged yet, in
/// the order of their sequence numbers, and the lines merged so far.
pub struct FrameModel {
    pub remaining: Seq<OutcomeModel>,
    pub translated: Seq<Seq<char>>,
}

/// The state of a run between two steps: the levels that wait for a
/// deeper one, from the first batch down, the number of lines that the run
/// translates and the number of lines in the batch that is out.
pub struct OrchestratorModel {
    pub frames: Seq<FrameModel>,
    pub total: nat,
    pub awaited: nat,
}

/// The chunk on which a run gives up, seen from its outcome.
pub open spec fn exhausted(outcome: OutcomeModel) -> RetryExhausted {
    RetryExhausted {
        number: outcome.number as usize,
        expected: outcome.original_lines.len() as usize,
        received: outcome.translated_lines.len() as usize,
    }
}

/// The frame after merging the accepted outcomes at its front: it ends at
/// the first outcome with the wrong number of lines, or empty.
pub open spec fn scanned(frame: FrameModel) -> FrameModel
    decreases frame.remaining.len(),
{
    if frame.remaining.len() > 0 && frame.remaining[0].accepted() {
        scanned(
            FrameModel {
                remaining: frame.remaining.skip(1),
                translated: frame.translated + frame.remaining[0].translated_lines,
            },
        )
    } else {
        frame
    }
}

/// The waiting frame after the level below it has finished with `lines`:
/// they take the place of its first outcome.
pub open spec fn spliced(frame: FrameModel, lines: Seq<Seq<char>>) -> FrameModel {
    FrameModel {
        remaining: if frame.remaining.len() > 0 {
            frame.remaining.skip(1)
        } else {
            frame.remaining
        },
        translated: frame.translated + lines,
    }
}

/// What becomes of a run whose deepest level is `top`, above the waiting
/// levels `below`. The accepted outcomes at the front of `top` are merged.
/// If none is left, the level is finished: the run is done if no level
/// waits, and otherwise the level above goes on with the lines in place of
/// its mismatching outcome. If a mismatching outcome is left, its
/// original lines go out again, one line to a chunk, one level deeper,
/// unless the level is the deepest already: then the run is over.
pub open spec fn settled(below: Seq<FrameModel>, top: FrameModel) -> (Seq<FrameModel>, StepModel)
    decreases below.len(),
{
    let top = scanned(top);
    if top.remaining.len() == 0 {
        if below.len() == 0 {
            (Seq::empty(), StepModel::Done(top.translated))
        } else {
            settled(below.drop_last(), spliced(below.last(), top.translated))
        }
    } else if below.len() >= MAX_RETRY_DEPTH {
        (Seq::empty(), StepModel::Fatal(exhausted(top.remaining[0])))
    } else {
        (below.push(top), StepModel::Dispatch(partitioned(top.remaining[0].original_lines, 1)))
    }
}

/// How many original lines the outcomes stand for.
pub open spec fn lines_owed(outcomes: Seq<OutcomeModel>) -> nat
    decreases outcomes.len(),
{
    if outcomes.len() == 0 {
        0
    } else {
        lines_owed(outcomes.drop_last()) + outcomes.last().original_lines.len()
    }
}

impl OrchestratorModel {
    /// A run that has not begun or is over.
    pub open spec fn idle() -> OrchestratorModel {
        OrchestratorModel { frames: Seq::empty(), total: 0, awaited: 0 }
    }

    /// The state and the step at the start of a run. Without lines there
    /// is nothing to send, and the run is done at once.
    pub open spec fn begun(lines: Seq<Seq<char>>, size: nat) -> (OrchestratorModel, StepModel) {
        if lines.len() == 0 {
            (OrchestratorModel::idle(), StepModel::Done(lines))
        } else {
            (
                OrchestratorModel { frames: Seq::empty(), total: lines.len(), awaited: lines.len() },
                StepModel::Dispatch(partitioned(lines, size)),
            )
        }
    }

    /// The state and the step after the outcomes of the batch that was out
    /// have come back: they are taken in the order of their sequence
    /// numbers and form the deepest level of the run, which is then settled.
    pub open spec fn resumed(self, outcomes: Seq<OutcomeModel>) -> (OrchestratorModel, StepModel) {
        let (frames, step) = settled(
            self.frames,
            FrameModel { remaining: in_sequence(outcomes), translated: Seq::empty() },
        );
        match step {
            StepModel::Dispatch(_) => (
                OrchestratorModel {
                    frames,
                    total: self.total,
                    awaited: frames.last().remaining[0].original_lines.len(),
                },
                step,
            ),
            _ => (OrchestratorModel::idle(), step),
        }
    }

    /// How many lines the level at index `k` has to deliver: all lines of
    /// the run for the first level, and for a deeper one the original
    /// lines of the outcome that the level above it waits for.
    pub open spec fn source_size(self, k: int) -> nat {
        if k == 0 {
            self.total
        } else {
            self.frames[k - 1].remaining[0].original_lines.len()
        }
    }

    /// Whether every level waits for a deeper one, and the batch that is
    /// out lies no deeper than the deepest level.
    pub open spec fn waiting(self) -> bool {
        &&& self.frames.len() <= MAX_RETRY_DEPTH
        &&& forall|k: int|
            0 <= k < self.frames.len() ==> (#[trigger] self.frames[k]).remaining.len() > 0
                && !self.frames[k].remaining[0].accepted()
    }

    /// Whether the counts of the run add up: at every level the lines
    /// merged and the lines that the remaining outcomes stand for are what
    /// the level has to deliver, and the batch that is out stands for what
    /// the next level has to deliver.
    pub open spec fn balanced(self) -> bool {
        &&& forall|k: int|
            0 <= k < self.frames.len() ==> (#[trigger] self.frames[k]).translated.len()
                + lines_owed(self.frames[k].remaining) == self.source_size(k)
        &&& self.awaited == self.source_size(self.frames.len() as int)
    }
}

/// The lines that outcomes stand for, counted from the front.
pub proof fn lemma_lines_owed_front(outcomes: Seq<OutcomeModel>)
    requires
        outcomes.len() > 0,
    ensures
        lines_owed(outcomes) == outcomes[0].original_lines.len() + lines_owed(outcomes.skip(1)),
    decreases outcomes.len(),
{
    if outcomes.len() == 1 {
        assert(outcomes.drop_last() == outcomes.skip(1));
        assert(lines_owed(outcomes.skip(1)) == 0);
    } else {
        lemma_lines_owed_front(outcomes.drop_last());
        assert(outcomes.drop_last().skip(1) == outcomes.skip(1).drop_last());
        assert(outcomes.skip(1).last() == outcomes.last());
    }
}

/// Putting outcomes in the order of their numbers changes nothing in the
/// lines that they stand for.
pub proof fn lemma_lines_owed_in_sequence(outcomes: Seq<OutcomeModel>)
    ensures
        lines_owed(in_sequence(outcomes)) == lines_owed(outcomes),
        in_sequence(outcomes).len() == outcomes.len(),
    decreases outcomes.len(),
{
    if outcomes.len() > 0 {
        lemma_lines_owed_in_sequence(outcomes.drop_last());
        lemma_lines_owed_inserted(in_sequence(outcomes.drop_last()), outcomes.last());
    }
}

proof fn lemma_lines_owed_inserted(sorted: Seq<OutcomeModel>, outcome: OutcomeModel)
    ensures
        lines_owed(inserted(sorted, outcome)) == lines_owed(sorted)
            + outcome.original_lines.len(),
        inserted(sorted, outcome).len() == sorted.len() + 1,
    decreases sorted.len(),
{
    if sorted.len() == 0 || sorted.last().number <= outcome.number {
        assert(sorted.push(outcome).drop_last() == sorted);
    } else {
        lemma_lines_owed_inserted(sorted.drop_last(), outcome);
        let inner = inserted(sorted.drop_last(), outcome);
        assert(inner.push(sorted.last()).drop_last() == inner);
    }
}

/// Merging accepted outcomes keeps the count of a level: every outcome
/// that is merged holds as many translated lines as original ones. What
/// is left begins with a mismatching outcome.
pub proof fn lemma_scanned(frame: FrameModel)
    ensures
        scanned(frame).translated.len() + lines_owed(scanned(frame).remaining)
            == frame.translated.len() + lines_owed(frame.remaining),
        scanned(frame).remaining.len() > 0 ==> !scanned(frame).remaining[0].accepted(),
        scanned(scanned(frame)) == scanned(frame),
    decreases frame.remaining.len(),
{
    if frame.remaining.len() > 0 && frame.remaining[0].accepted() {
        lemma_lines_owed_front(frame.remaining);
        lemma_scanned(
            FrameModel {
                remaining: frame.remaining.skip(1),
                translated: frame.translated + frame.remaining[0].translated_lines,
            },
        );
    }
}

/// Settling keeps the counts of a run, and a run that is done has
/// translated as many lines as it was given: if the counts add up at every
/// waiting level and at the deepest one, they add up after the step, and
/// the lines of a finished run number `total`.
pub proof fn lemma_settled_balanced(below: Seq<FrameModel>, top: FrameModel, total: nat)
    requires
        (OrchestratorModel { frames: below, total, awaited: 0 }).waiting(),
        forall|k: int|
            0 <= k < below.len() ==> (#[trigger] below[k]).translated.len() + lines_owed(
                below[k].remaining,
            ) == (OrchestratorModel { frames: below, total, awaited: 0 }).source_size(k),
        top.translated.len() + lines_owed(top.remaining) == (OrchestratorModel {
            frames: below,
            total,
            awaited: 0,
        }).source_size(below.len() as int),
    ensures
        match settled(below, top) {
            (frames, StepModel::Done(lines)) => frames.len() == 0 && lines.len() == total,
            (frames, StepModel::Dispatch(chunks)) => {
                let after = OrchestratorModel {
                    frames,
                    total,
                    awaited: frames.last().remaining[0].original_lines.len(),
                };
                &&& frames.len() > 0
                &&& after.waiting()
                &&& after.balanced()
                &&& chunks == partitioned(frames.last().remaining[0].original_lines, 1)
                &&& chunk_lines(chunks).len() == after.awaited
            },
            (frames, StepModel::Fatal(_)) => frames.len() == 0 && below.len() >= MAX_RETRY_DEPTH,
        },
    decreases below.len(),
{
    let before = OrchestratorModel { frames: below, total, awaited: 0 };
    lemma_scanned(top);
    let top = scanned(top);
    if top.remaining.len() == 0 {
        assert(lines_owed(top.remaining) == 0);
        if below.len() > 0 {
            let parent = below.last();
            let rest = below.drop_last();
            let joined = spliced(parent, top.translated);
            let inner = OrchestratorModel { frames: rest, total, awaited: 0 };
            lemma_lines_owed_front(parent.remaining);
            assert(below[below.len() - 1] == parent);
            assert(inner.waiting()) by {
                assert forall|k: int| 0 <= k < rest.len() implies (#[trigger] rest[k]).remaining.len()
                    > 0 && !rest[k].remaining[0].accepted() by {
                    assert(rest[k] == below[k]);
                }
            }
            assert forall|k: int| 0 <= k < rest.len() implies (#[trigger] rest[k]).translated.len()
                + lines_owed(rest[k].remaining) == inner.source_size(k) by {
                assert(rest[k] == below[k]);
                assert(before.source_size(k) == inner.source_size(k)) by {
                    if k > 0 {
                        assert(rest[k - 1] == below[k - 1]);
                    }
                }
            }
            assert(inner.source_size(rest.len() as int) == before.source_size(below.len() - 1)) by {
                if rest.len() > 0 {
                    assert(rest[rest.len() - 1] == below[below.len() - 2]);
                }
            }
            lemma_settled_balanced(rest, joined, total);
        }
    } else if below.len() >= MAX_RETRY_DEPTH {
    } else {
        let frames = below.push(top);
        let after = OrchestratorModel {
            frames,
            total,
            awaited: frames.last().remaining[0].original_lines.len(),
        };
        assert(after.waiting()) by {
            assert forall|k: int| 0 <= k < frames.len() implies (#[trigger] frames[k]).remaining.len()
                > 0 && !frames[k].remaining[0].accepted() by {
                if k < below.len() {
                    assert(frames[k] == below[k]);
                }
            }
        }
        assert(after.balanced()) by {
            assert forall|k: int| 0 <= k < frames.len() implies (
            #[trigger] frames[k]).translated.len() + lines_owed(frames[k].remaining)
                == after.source_size(k) by {
                if k > 0 {
                    assert(frames[k - 1] == below[k - 1]);
                }
                if k < below.len() {
                    assert(frames[k] == below[k]);
                    assert(after.source_size(k) == before.source_size(k));
                } else {
                    assert(after.source_size(k) == before.source_size(k));
                }
            }
        }
        lemma_partitioned(top.remaining[0].original_lines, 1, 1);
    }
}

/// Whether the outcomes answer the chunks one for one: each carries the
/// number and the lines of its chunk.
pub open spec fn echoes(outcomes: Seq<OutcomeModel>, chunks: Seq<ChunkModel>) -> bool {
    &&& outcomes.len() == chunks.len()
    &&& forall|i: int|
        0 <= i < outcomes.len() ==> (#[trigger] outcomes[i]).number == chunks[i].number
            && outcomes[i].original_lines == chunks[i].lines
}

/// Outcomes that answer chunks stand for the lines of the chunks.
pub proof fn lemma_echo_lines(outcomes: Seq<OutcomeModel>, chunks: Seq<ChunkModel>)
    requires
        echoes(outcomes, chunks),
    ensures
        lines_owed(outcomes) == chunk_lines(chunks).len(),
    decreases outcomes.len(),
{
    if outcomes.len() > 0 {
        assert(echoes(outcomes.drop_last(), chunks.drop_last())) by {
            assert forall|i: int| 0 <= i < outcomes.drop_last().len() implies (
            #[trigger] outcomes.drop_last()[i]).number == chunks.drop_last()[i].number
                && outcomes.drop_last()[i].original_lines == chunks.drop_last()[i].lines by {
                assert(outcomes[i].number == chunks[i].number);
            }
        }
        lemma_echo_lines(outcomes.drop_last(), chunks.drop_last());
        assert(outcomes[outcomes.len() - 1].original_lines == chunks[chunks.len() - 1].lines);
    }
}

/// Outcomes that answer the chunks of a partition carry rising numbers
/// and stand for exactly the lines that were partitioned.
pub proof fn lemma_echo_of_partition(
    outcomes: Seq<OutcomeModel>,
    lines: Seq<Seq<char>>,
    size: nat,
)
    requires
        size > 0,
        echoes(outcomes, partitioned(lines, size)),
    ensures
        rising(outcomes),
        lines_owed(outcomes) == lines.len(),
{
    let chunks = partitioned(lines, size);
    lemma_partitioned(lines, size, 1);
    lemma_echo_lines(outcomes, chunks);
    assert forall|i: int, j: int| 0 <= i < j < outcomes.len() implies (
    #[trigger] outcomes[i]).number < (#[trigger] outcomes[j]).number by {
        assert(chunks[i].number == 1 + i);
        assert(chunks[j].number == 1 + j);
    }
}

/// The order of arrival does not matter to a run: a batch whose outcomes
/// carry rising numbers in the order of dispatch leads to the same state and
/// the same step in whatever order the outcomes arrive.
pub proof fn lemma_arrival_order_irrelevant(
    run: OrchestratorModel,
    dispatched: Seq<OutcomeModel>,
    arrived: Seq<OutcomeModel>,
)
    requires
        rising(dispatched),
        arrived.to_multiset() == dispatched.to_multiset(),
    ensures
        in_sequence(arrived) == dispatched,
        run.resumed(arrived) == run.resumed(dispatched),
{
    lemma_order_restored(dispatched, arrived);
    lemma_order_restored(dispatched, dispatched);
}

/// A step keeps the counts of a run: if they add up before and the
/// outcomes stand for as many lines as the batch held, they add up after,
/// every batch that goes out holds the lines of the chunk that is sent
/// again, and a run that is done has as many lines as it was given.
pub proof fn lemma_resumed_balanced(run: OrchestratorModel, outcomes: Seq<OutcomeModel>)
    requires
        run.waiting(),
        run.balanced(),
        lines_owed(outcomes) == run.awaited,
    ensures
        run.resumed(outcomes).0.waiting(),
        run.resumed(outcomes).0.balanced(),
        match run.resumed(outcomes).1 {
            StepModel::Done(lines) => lines.len() == run.total,
            StepModel::Dispatch(chunks) => chunk_lines(chunks).len() == run.resumed(
                outcomes,
            ).0.awaited,
            StepModel::Fatal(_) => true,
        },
{
    lemma_lines_owed_in_sequence(outcomes);
    lemma_settled_balanced(
        run.frames,
        FrameModel { remaining: in_sequence(outcomes), translated: Seq::empty() },
        run.total,
    );
}

/// A run goes down one level for each mismatch and no further than the
/// deepest level: a batch whose first outcome in sequence has the wrong
/// number of lines ends the run if it was sent at the deepest level, and
/// otherwise sends one more batch, one level deeper. So a line that keeps
/// coming back wrong is sent at the levels 0 to `MAX_RETRY_DEPTH` and then no
/// more.
pub proof fn lemma_mismatch_descends(run: OrchestratorModel, outcomes: Seq<OutcomeModel>)
    requires
        run.waiting(),
        in_sequence(outcomes).len() > 0,
        !in_sequence(outcomes)[0].accepted(),
    ensures
        run.resumed(outcomes).1 is Fatal <==> run.frames.len() == MAX_RETRY_DEPTH,
        run.resumed(outcomes).1 is Dispatch <==> run.frames.len() < MAX_RETRY_DEPTH,
        run.resumed(outcomes).1 is Dispatch ==> run.resumed(outcomes).0.frames.len()
            == run.frames.len() + 1,
        run.resumed(outcomes).0.frames.len() <= MAX_RETRY_DEPTH,
{
}

/// Where a run stands after its batches have been answered by `batches`,
/// one after the other, from the state `run` and the step `step` on. Once a
/// run is over, what is left of `batches` is not looked at.
pub open spec fn run_after(
    run: OrchestratorModel,
    step: StepModel,
    batches: Seq<Seq<OutcomeModel>>,
) -> (OrchestratorModel, StepModel)
    decreases batches.len(),
{
    if batches.len() == 0 || !(step is Dispatch) {
        (run, step)
    } else {
        let (next_run, next_step) = run.resumed(batches[0]);
        run_after(next_run, next_step, batches.skip(1))
    }
}

/// Whether every batch that `batches` answers is answered in full: its
/// outcomes stand for as many lines as the batch held.
pub open spec fn answered_in_full(
    run: OrchestratorModel,
    step: StepModel,
    batches: Seq<Seq<OutcomeModel>>,
) -> bool
    decreases batches.len(),
{
    if batches.len() == 0 || !(step is Dispatch) {
        true
    } else {
        let (next_run, next_step) = run.resumed(batches[0]);
        lines_owed(batches[0]) == run.awaited && answered_in_full(
            next_run,
            next_step,
            batches.skip(1),
        )
    }
}

/// Whether two sequences of batches hold the same outcomes batch by batch,
/// the first with rising numbers and the second in any order.
pub open spec fn rearranged(
    dispatched: Seq<Seq<OutcomeModel>>,
    arrived: Seq<Seq<OutcomeModel>>,
) -> bool {
    &&& dispatched.len() == arrived.len()
    &&& forall|i: int|
        0 <= i < dispatched.len() ==> rising(#[trigger] dispatched[i]) && arrived[i].to_multiset()
            == dispatched[i].to_multiset()
}

/// Settling never sends a batch deeper than the deepest level, whatever
/// the outcomes are.
pub proof fn lemma_settled_waiting(below: Seq<FrameModel>, top: FrameModel)
    requires
        (OrchestratorModel { frames: below, total: 0, awaited: 0 }).waiting(),
    ensures
        (OrchestratorModel { frames: settled(below, top).0, total: 0, awaited: 0 }).waiting(),
    decreases below.len(),
{
    lemma_scanned(top);
    let top = scanned(top);
    if top.remaining.len() == 0 {
        if below.len() > 0 {
            let rest = below.drop_last();
            assert forall|k: int| 0 <= k < rest.len() implies (#[trigger] rest[k]).remaining.len()
                > 0 && !rest[k].remaining[0].accepted() by {
                assert(rest[k] == below[k]);
            }
            lemma_settled_waiting(rest, spliced(below.last(), top.translated));
        }
    } else if below.len() >= MAX_RETRY_DEPTH {
    } else {
        let frames = below.push(top);
        assert forall|k: int| 0 <= k < frames.len() implies (#[trigger] frames[k]).remaining.len()
            > 0 && !frames[k].remaining[0].accepted() by {
            if k < below.len() {
                assert(frames[k] == below[k]);
            }
        }
    }
}

/// No run ever goes deeper than the deepest level: however its batches are
/// answered, the batch that is out lies at a level of at most
/// `MAX_RETRY_DEPTH`.
pub proof fn lemma_run_stays_shallow(
    run: OrchestratorModel,
    step: StepModel,
    batches: Seq<Seq<OutcomeModel>>,
)
    requires
        run.waiting(),
    ensures
        run_after(run, step, batches).0.waiting(),
        run_after(run, step, batches).0.frames.len() <= MAX_RETRY_DEPTH,
    decreases batches.len(),
{
    if batches.len() > 0 && step is Dispatch {
        lemma_settled_waiting(
            run.frames,
            FrameModel { remaining: in_sequence(batches[0]), translated: Seq::empty() },
        );
        let (next_run, next_step) = run.resumed(batches[0]);
        assert(next_run.waiting());
        lemma_run_stays_shallow(next_run, next_step, batches.skip(1));
    }
}

/// A run whose batches are answered in full and that is done has
/// translated as many lines as it was given.
pub proof fn lemma_run_keeps_count(
    lines: Seq<Seq<char>>,
    size: nat,
    batches: Seq<Seq<OutcomeModel>>,
)
    requires
        answered_in_full(
            OrchestratorModel::begun(lines, size).0,
            OrchestratorModel::begun(lines, size).1,
            batches,
        ),
    ensures
        run_after(
            OrchestratorModel::begun(lines, size).0,
            OrchestratorModel::begun(lines, size).1,
            batches,
        ).1 matches StepModel::Done(translated) ==> translated.len() == lines.len(),
{
    let (run, step) = OrchestratorModel::begun(lines, size);
    lemma_run_from(run, step, batches, lines.len());
}

proof fn lemma_run_from(
    run: OrchestratorModel,
    step: StepModel,
    batches: Seq<Seq<OutcomeModel>>,
    total: nat,
)
    requires
        run.waiting(),
        step is Dispatch ==> run.balanced() && run.total == total,
        step matches StepModel::Done(translated) ==> translated.len() == total,
        answered_in_full(run, step, batches),
    ensures
        run_after(run, step, batches).1 matches StepModel::Done(translated) ==> translated.len()
            == total,
    decreases batches.len(),
{
    if batches.len() > 0 && step is Dispatch {
        lemma_resumed_balanced(run, batches[0]);
        let (next_run, next_step) = run.resumed(batches[0]);
        lemma_run_from(next_run, next_step, batches.skip(1), total);
    }
}

/// The order of arrival does not matter to a whole run: batches that hold
/// the same outcomes lead to the same end in whatever order the outcomes of
/// each batch arrive.
pub proof fn lemma_run_order_irrelevant(
    run: OrchestratorModel,
    step: StepModel,
    dispatched: Seq<Seq<OutcomeModel>>,
    arrived: Seq<Seq<OutcomeModel>>,
)
    requires
        rearranged(dispatched, arrived),
    ensures
        run_after(run, step, arrived) == run_after(run, step, dispatched),
    decreases dispatched.len(),
{
    if dispatched.len() > 0 && step is Dispatch {
        lemma_arrival_order_irrelevant(run, dispatched[0], arrived[0]);
        let (next_run, next_step) = run.resumed(dispatched[0]);
        assert(rearranged(dispatched.skip(1), arrived.skip(1))) by {
            assert forall|i: int| 0 <= i < dispatched.skip(1).len() implies rising(
                #[trigger] dispatched.skip(1)[i],
            ) && arrived.skip(1)[i].to_multiset() == dispatched.skip(1)[i].to_multiset() by {
                assert(dispatched.skip(1)[i] == dispatched[i + 1]);
                assert(arrived.skip(1)[i] == arrived[i + 1]);
            }
        }
        lemma_run_order_irrelevant(next_run, next_step, dispatched.skip(1), arrived.skip(1));
    }
}

/// One level of a run: the outcomes of a batch in the order of their
/// sequence numbers, how many of them are merged, and the lines merged so
/// far.
struct Frame {
    outcomes: Vec<TranslationOutcome>,
    next: usize,
    translated: Vec<String>,
}

impl Frame {
    spec fn wf(&self) -> bool {
        self.next <= self.outcomes@.len()
    }

    spec fn model(&self) -> FrameModel {
        FrameModel {
            remaining: self.outcomes.deep_view().skip(self.next as int),
            translated: self.translated.deep_view(),
        }
    }

    /// Merges the accepted outcomes at the front.
    fn scan(&mut self)
        requires
            old(self).wf(),
        ensures
            final(self).wf(),
            final(self).model() == scanned(old(self).model()),
    {
        proof {
            lemma_scanned(self.model());
        }
        while self.next < self.outcomes.len() && self.outcomes[self.next].is_accepted()
            invariant
                self.wf(),
                scanned(self.model()) == scanned(old(self).model()),
            decreases self.outcomes@.len() - self.next,
        {
            let ghost before = self.model();
            let ghost merged = self.translated.deep_view();
            append_lines(&mut self.translated, &self.outcomes[self.next].translated_lines);
            self.next = self.next + 1;
            proof {
                assert(before.remaining[0] == self.outcomes[self.next - 1]@);
                assert(self.model().remaining == before.remaining.skip(1));
                assert(self.model().translated == before.translated
                    + before.remaining[0].translated_lines);
            }
        }
        proof {
            if self.next < self.outcomes@.len() {
                assert(self.model().remaining[0] == self.outcomes[self.next as int]@);
            }
        }
    }
}

/// Appends copies of `lines` to `out`.
pub fn append_lines(out: &mut Vec<String>, lines: &Vec<String>)
    ensures
        final(out).deep_view() == old(out).deep_view() + lines.deep_view(),
{
    let mut i: usize = 0;
    assert(lines.deep_view().take(0) == Seq::<Seq<char>>::empty());
    assert(out.deep_view() == old(out).deep_view() + lines.deep_view().take(0));
    while i < lines.len()
        invariant
            i <= lines@.len(),
            out.deep_view() == old(out).deep_view() + lines.deep_view().take(i as int),
        decreases lines@.len() - i,
    {
        let ghost so_far = out.deep_view();
        out.push(lines[i].clone());
        assert(out.deep_view() == so_far.push(lines[i as int]@));
        i += 1;
        assert(lines.deep_view().take(i as int) == lines.deep_view().take(i - 1).push(
            lines[i - 1]@,
        ));
    }
    assert(lines.deep_view().take(i as int) == lines.deep_view());
}

/// A run of the orchestrator between two steps.
pub struct Orchestrator {
    frames: Vec<Frame>,
    total: usize,
    awaited: usize,
}

impl View for Orchestrator {
    type V = OrchestratorModel;

    closed spec fn view(&self) -> OrchestratorModel {
        OrchestratorModel {
            frames: Seq::new(self.frames@.len(), |k: int| self.frames@[k].model()),
            total: self.total as nat,
            awaited: self.awaited as nat,
        }
    }
}

impl Orchestrator {
    /// Whether the run is in a state that its steps lead to.
    pub closed spec fn wf(&self) -> bool {
        &&& self@.waiting()
        &&& forall|k: int| 0 <= k < self.frames@.len() ==> (#[trigger] self.frames@[k]).wf()
    }

    /// Begins a run on `lines`, to be sent in chunks of `chunk_lines`
    /// lines. Without lines the run is done at once and nothing is sent.
    pub fn start(lines: Vec<String>, chunk_lines: usize) -> (r: (Orchestrator, Step))
        requires
            lines@.len() > 0 ==> chunk_lines > 0,
        ensures
            r.0.wf(),
            r.0@.waiting(),
            r.0@.balanced(),
            (r.0@, r.1@) == OrchestratorModel::begun(lines.deep_view(), chunk_lines as nat),
            lines@.len() == 0 ==> r.1@ == StepModel::Done(Seq::empty()),
    {
        if lines.len() == 0 {
            let run = Orchestrator { frames: Vec::new(), total: 0, awaited: 0 };
            assert(run@.frames == Seq::<FrameModel>::empty());
            assert(lines.deep_view() == Seq::<Seq<char>>::empty());
            (run, Step::Done(lines))
        } else {
            let chunks = partition(&lines, chunk_lines);
            let run = Orchestrator { frames: Vec::new(), total: lines.len(), awaited: lines.len() };
            assert(run@.frames == Seq::<FrameModel>::empty());
            (run, Step::Dispatch(chunks))
        }
    }

    /// How deep the batch that is out lies: 0 for the first batch of a
    /// run, and one more for every retry above it. No batch lies deeper than
    /// the deepest level.
    pub fn depth(&self) -> (depth: usize)
        requires
            self.wf(),
        ensures
            depth == self@.frames.len(),
            depth <= MAX_RETRY_DEPTH,
    {
        self.frames.len()
    }

    /// How many lines the run translates.
    pub fn total_lines(&self) -> (total: usize)
        ensures
            total == self@.total,
    {
        self.total
    }

    /// How many lines the batch that is out holds.
    pub fn awaited_lines(&self) -> (awaited: usize)
        ensures
            awaited == self@.awaited,
    {
        self.awaited
    }

    /// Takes the outcomes of the batch that was out, in whatever order they
    /// arrived, and tells what to do next. Where the outcomes stand for as
    /// many lines as the batch held, the counts of the run keep adding up,
    /// and a run that is done returns as many lines as it was given.
    pub fn resume(&mut self, outcomes: Vec<TranslationOutcome>) -> (step: Step)
        requires
            old(self).wf(),
        ensures
            final(self).wf(),
            final(self)@.waiting(),
            (final(self)@, step@) == old(self)@.resumed(outcomes.deep_view()),
            step@ is Dispatch ==> final(self)@.frames.len() <= MAX_RETRY_DEPTH,
            old(self)@.balanced() && lines_owed(outcomes.deep_view()) == old(self)@.awaited ==> {
                &&& final(self)@.balanced()
                &&& step@ matches StepModel::Done(lines) ==> lines.len() == old(self)@.total
            },
    {
        let ghost before = self@;
        let ghost arrived = outcomes.deep_view();
        let sorted = sort_by_number(outcomes);
        let top = Frame { outcomes: sorted, next: 0, translated: Vec::new() };
        proof {
            assert(top.outcomes.deep_view().skip(0) == top.outcomes.deep_view());
            assert(top.translated.deep_view() == Seq::<Seq<char>>::empty());
            lemma_lines_owed_in_sequence(arrived);
            if before.balanced() && lines_owed(arrived) == before.awaited {
                lemma_settled_balanced(before.frames, top.model(), before.total);
            }
        }
        let ghost new_top = top.model();
        let step = self.settle(top);
        proof {
            assert(new_top == (FrameModel {
                remaining: in_sequence(arrived),
                translated: Seq::empty(),
            }));
            assert((self@.frames, step@) == settled(before.frames, new_top));
        }
        match &step {
            Step::Dispatch(_) => {},
            _ => {
                self.total = 0;
                self.awaited = 0;
                assert(self@.frames == Seq::<FrameModel>::empty());
                assert(self@ == OrchestratorModel::idle());
            },
        }
        step
    }

    /// Settles the deepest level `top` above the waiting levels.
    fn settle(&mut self, frame: Frame) -> (step: Step)
        requires
            old(self).wf(),
            frame.wf(),
        ensures
            final(self).wf(),
            (final(self)@.frames, step@) == settled(old(self)@.frames, frame.model()),
            final(self)@.total == old(self)@.total,
            step@ is Dispatch ==> final(self)@.frames.len() > 0 && final(self)@.awaited
                == final(self)@.frames.last().remaining[0].original_lines.len(),
            !(step@ is Dispatch) ==> final(self)@.frames.len() == 0,
    {
        let ghost first = frame.model();
        let mut top = frame;
        loop
            invariant
                self.wf(),
                top.wf(),
                self@.total == old(self)@.total,
                first == frame.model(),
                settled(self@.frames, top.model()) == settled(old(self)@.frames, first),
            decreases self.frames@.len(),
        {
            let ghost below = self@.frames;
            let ghost unscanned = top.model();
            top.scan();
            proof {
                lemma_scanned(unscanned);
            }
            if top.next == top.outcomes.len() {
                assert(top.model().remaining.len() == 0);
                match self.frames.pop() {
                    None => {
                        assert(below.len() == 0);
                        assert(self@.frames == Seq::<FrameModel>::empty());
                        assert(settled(below, unscanned) == (
                            Seq::<FrameModel>::empty(),
                            StepModel::Done(top.model().translated),
                        ));
                        return Step::Done(top.translated);
                    },
                    Some(parent) => {
                        let mut parent = parent;
                        let ghost waiting = parent.model();
                        let ghost lines = top.translated.deep_view();
                        proof {
                            assert(below.last() == waiting);
                            assert(self@.frames == below.drop_last());
                            assert(below[below.len() - 1].remaining.len() > 0);
                            assert(parent.wf());
                            assert(parent.next < parent.outcomes.len());
                            assert(settled(below, unscanned) == settled(
                                below.drop_last(),
                                spliced(waiting, lines),
                            ));
                        }
                        let mut lines_done = top.translated;
                        let ghost merged = parent.translated.deep_view();
                        parent.next = parent.next + 1;
                        parent.translated.append(&mut lines_done);
                        proof {
                            assert(parent.translated.deep_view() == merged + lines);
                            assert(parent.outcomes.deep_view().skip(parent.next as int)
                                == waiting.remaining.skip(1));
                            assert(parent.model() == spliced(waiting, lines));
                        }
                        top = parent;
                    },
                }
            } else if self.frames.len() >= MAX_RETRY_DEPTH {
                let failed = &top.outcomes[top.next];
                let error = RetryExhausted {
                    number: failed.number,
                    expected: failed.original_lines.len(),
                    received: failed.translated_lines.len(),
                };
                proof {
                    assert(top.model().remaining[0] == failed@);
                }
                self.frames = Vec::new();
                assert(self@.frames == Seq::<FrameModel>::empty());
                assert(settled(below, unscanned) == (
                    Seq::<FrameModel>::empty(),
                    StepModel::Fatal(exhausted(top.model().remaining[0])),
                ));
                assert(error == exhausted(top.model().remaining[0]));
                return Step::Fatal(error);
            } else {
                let chunks = partition(&top.outcomes[top.next].original_lines, 1);
                self.awaited = top.outcomes[top.next].original_lines.len();
                proof {
                    assert(top.model().remaining[0] == top.outcomes[top.next as int]@);
                }
                let ghost settled_top = top.model();
                self.frames.push(top);
                proof {
                    assert(self@.frames == below.push(settled_top));
                    assert forall|k: int| 0 <= k < self@.frames.len() implies (
                    #[trigger] self@.frames[k]).remaining.len() > 0
                        && !self@.frames[k].remaining[0].accepted() by {
                        if k < below.len() {
                            assert(self@.frames[k] == below[k]);
                        }
                    }
                    assert(settled(below, unscanned) == (
                        below.push(settled_top),
                        StepModel::Dispatch(
                            partitioned(settled_top.remaining[0].original_lines, 1),
                        ),
                    ));
                    assert(self@.frames.last() == settled_top);
                }
                return Step::Dispatch(chunks);
            }
        }
    }
}

} // verus!
