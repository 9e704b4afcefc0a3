//! Outcomes: what came back for a chunk, and their order.

use vstd::prelude::*;

verus! {

/// What came back for one chunk: its sequence number, the lines that were
/// sent and the lines that the backend returned.
#[derive(Clone, Debug, PartialEq, Eq)]
pub struct TranslationOutcome {
    pub number: usize,
    pub original_lines: Vec<String>,
    pub translated_lines: Vec<String>,
}

/// The mathematical value of a [`TranslationOutcome`].
pub struct OutcomeModel {
    pub number: nat,
    pub original_lines: Seq<Seq<char>>,
    pub translated_lines: Seq<Seq<char>>,
}

impl OutcomeModel {
    /// Whether the outcome can be merged as it is: it holds as many
    /// translated lines as original ones.
    pub open spec fn accepted(self) -> bool {
        self.translated_lines.len() == self.original_lines.len()
    }
}

impl View for TranslationOutcome {
    type V = OutcomeModel;

    open spec fn view(&self) -> OutcomeModel {
        OutcomeModel {
            number: self.number as nat,
            original_lines: self.original_lines.deep_view(),
            translated_lines: self.translated_lines.deep_view(),
        }
    }
}

impl DeepView for TranslationOutcome {
    type V = OutcomeModel;

    open spec fn deep_view(&self) -> OutcomeModel {
        self@
    }
}

impl TranslationOutcome {
    /// Whether the outcome holds as many translated lines as original ones.
    pub fn is_accepted(&self) -> (r: bool)
        ensures
            r == self@.accepted(),
    {
        self.translated_lines.len() == self.original_lines.len()
    }
}

/// `sorted` with `outcome` put behind the last outcome whose number is not
/// greater than its own.
pub open spec fn inserted(sorted: Seq<OutcomeModel>, outcome: OutcomeModel) -> Seq<OutcomeModel>
    decreases sorted.len(),
{
    if sorted.len() == 0 || sorted.last().number <= outcome.number {
        sorted.push(outcome)
    } else {
        inserted(sorted.drop_last(), outcome).push(sorted.last())
    }
}

/// The outcomes in the order of their sequence numbers; outcomes of one
/// number stay in the order in which they arrived.
pub open spec fn in_sequence(outcomes: Seq<OutcomeModel>) -> Seq<OutcomeModel>
    decreases outcomes.len(),
{
    if outcomes.len() == 0 {
        Seq::empty()
    } else {
        inserted(in_sequence(outcomes.drop_last()), outcomes.last())
    }
}

/// Whether the sequence numbers rise from each outcome to the next.
pub open spec fn rising(outcomes: Seq<OutcomeModel>) -> bool {
    forall|i: int, j: int|
        0 <= i < j < outcomes.len() ==> (#[trigger] outcomes[i]).number < (
        #[trigger] outcomes[j]).number
}

/// Where an outcome goes: behind everything that is not greater, before
/// everything that is.
pub proof fn lemma_inserted_at(sorted: Seq<OutcomeModel>, outcome: OutcomeModel, at: int)
    requires
        0 <= at <= sorted.len(),
        forall|j: int| at <= j < sorted.len() ==> (#[trigger] sorted[j]).number > outcome.number,
        at > 0 ==> sorted[at - 1].number <= outcome.number,
    ensures
        inserted(sorted, outcome) == sorted.insert(at, outcome),
    decreases sorted.len(),
{
    if sorted.len() == 0 {
        assert(sorted.push(outcome) == sorted.insert(at, outcome));
    } else if sorted.last().number <= outcome.number {
        assert(at == sorted.len()) by {
            if at < sorted.len() {
                assert(sorted[sorted.len() - 1].number > outcome.number);
            }
        }
        assert(sorted.push(outcome) == sorted.insert(at, outcome));
    } else {
        assert(at < sorted.len());
        let before = sorted.drop_last();
        assert forall|j: int| at <= j < before.len() implies (#[trigger] before[j]).number
            > outcome.number by {
            assert(sorted[j].number > outcome.number);
        }
        lemma_inserted_at(before, outcome, at);
        assert(before.insert(at, outcome).push(sorted.last()) == sorted.insert(at, outcome));
    }
}

/// The order of arrival does not matter: outcomes whose numbers rise in
/// the order of dispatch come out in that order, in whatever order they
/// arrived.
pub proof fn lemma_order_restored(dispatched: Seq<OutcomeModel>, arrived: Seq<OutcomeModel>)
    requires
        rising(dispatched),
        arrived.to_multiset() == dispatched.to_multiset(),
    ensures
        in_sequence(arrived) == dispatched,
    decreases arrived.len(),
{
    arrived.to_multiset_ensures();
    dispatched.to_multiset_ensures();
    if arrived.len() == 0 {
        assert(dispatched.len() == 0);
        assert(dispatched == Seq::<OutcomeModel>::empty());
    } else {
        let earlier = arrived.drop_last();
        let last = arrived.last();
        earlier.to_multiset_ensures();
        assert(earlier.push(last) == arrived);
        assert(arrived.to_multiset() == earlier.to_multiset().insert(last));
        assert(dispatched.to_multiset().count(last) > 0);
        assert(dispatched.contains(last));
        let at = choose|at: int| 0 <= at < dispatched.len() && dispatched[at] == last;
        let others = dispatched.remove(at);
        assert(others.to_multiset() == dispatched.to_multiset().remove(last));
        assert(earlier.to_multiset() =~= others.to_multiset());
        assert(rising(others)) by {
            assert forall|i: int, j: int| 0 <= i < j < others.len() implies (
            #[trigger] others[i]).number < (#[trigger] others[j]).number by {
                let from_i = if i < at {
                    i
                } else {
                    i + 1
                };
                let from_j = if j < at {
                    j
                } else {
                    j + 1
                };
                assert(others[i] == dispatched[from_i]);
                assert(others[j] == dispatched[from_j]);
            }
        }
        lemma_order_restored(others, earlier);
        assert forall|j: int| at <= j < others.len() implies (#[trigger] others[j]).number
            > last.number by {
            assert(others[j] == dispatched[j + 1]);
        }
        if at > 0 {
            assert(others[at - 1] == dispatched[at - 1]);
        }
        lemma_inserted_at(others, last, at);
        assert(others.insert(at, last) == dispatched);
    }
}

/// Takes the outcomes in the order of their sequence numbers. Outcomes of
/// one number stay in the order in which they arrived.
pub fn sort_by_number(outcomes: Vec<TranslationOutcome>) -> (sorted: Vec<TranslationOutcome>)
    ensures
        sorted.deep_view() == in_sequence(outcomes.deep_view()),
{
    let ghost arrived = outcomes.deep_view();
    let mut sorted: Vec<TranslationOutcome> = Vec::new();
    assert(arrived.take(0) == Seq::<OutcomeModel>::empty());
    assert(sorted.deep_view() == Seq::<OutcomeModel>::empty());
    for outcome in it: outcomes.into_iter()
        invariant
            arrived.len() == it.seq().len(),
            forall|i: int| 0 <= i < arrived.len() ==> arrived[i] == (#[trigger] it.seq()[i])@,
            sorted.deep_view() == in_sequence(arrived.take(it.index() as int)),
    {
        let ghost so_far = sorted.deep_view();
        let ghost done = it.index() as int;
        let mut at: usize = sorted.len();
        while at > 0 && sorted[at - 1].number > outcome.number
            invariant
                at <= sorted@.len(),
                so_far == sorted.deep_view(),
                forall|j: int| at <= j < so_far.len() ==> (#[trigger] so_far[j]).number
                    > outcome@.number,
            decreases at,
        {
            at -= 1;
        }
        proof {
            lemma_inserted_at(so_far, outcome@, at as int);
            assert(arrived.take(done + 1).drop_last() == arrived.take(done));
            assert(arrived.take(done + 1).last() == outcome@);
        }
        sorted.insert(at, outcome);
        assert(sorted.deep_view() == so_far.insert(at as int, outcome@));
    }
    assert(arrived.take(arrived.len() as int) == arrived);
    sorted
}

} // verus!
