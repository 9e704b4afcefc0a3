//! Where the events of a document lie in its bytes.
//!
//! The events of a document tile its bytes: every event has a range, the
//! ranges follow one another without a gap, and what lies behind the last of
//! them is the tail. Markup space before a tag belongs to the range of the
//! tag, and markup space around a text to the range of the text.

use crate::markup::{EventModel, MarkupEvent};
use vstd::prelude::*;

verus! {

/// How many bytes at the start of `content` are a byte order mark, which
/// the reader passes over without counting it.
pub open spec fn order_mark_length(content: Seq<u8>) -> nat {
    if content.len() >= 3 && content[0] == 0xef && content[1] == 0xbb && content[2] == 0xbf {
        3
    } else {
        0
    }
}

/// Where the range of `event` ends in `content`: behind the bytes that the
/// reader counts as taken, and behind the byte order mark that it does not
/// count.
pub open spec fn boundary(content: Seq<u8>, event: EventModel) -> nat {
    order_mark_length(content) + event.end
}

/// Where the range of the event at index `i` begins: at the start of the
/// content for the first event, and where the event before it ends for any
/// other. For `i == events.len()` this is where the tail begins.
pub open spec fn start_of(content: Seq<u8>, events: Seq<EventModel>, i: int) -> nat {
    if i <= 0 {
        0
    } else {
        boundary(content, events[i - 1])
    }
}

/// Whether the events lie in `content` one after the other: no range ends
/// before it begins or behind the end of the content.
pub open spec fn laid_out(content: Seq<u8>, events: Seq<EventModel>) -> bool {
    forall|i: int|
        0 <= i < events.len() ==> start_of(content, events, i) <= boundary(
            content,
            #[trigger] events[i],
        ) <= content.len()
}

/// The bytes of the event at index `i`.
pub open spec fn range(content: Seq<u8>, events: Seq<EventModel>, i: int) -> Seq<u8> {
    content.subrange(start_of(content, events, i) as int, boundary(content, events[i]) as int)
}

/// The bytes behind the last event.
pub open spec fn tail(content: Seq<u8>, events: Seq<EventModel>) -> Seq<u8> {
    content.skip(start_of(content, events, events.len() as int) as int)
}

/// The ranges of the first `n` events, one after the other.
pub open spec fn ranges_upto(content: Seq<u8>, events: Seq<EventModel>, n: int) -> Seq<u8>
    decreases n,
{
    if n <= 0 {
        Seq::empty()
    } else {
        ranges_upto(content, events, n - 1) + range(content, events, n - 1)
    }
}

/// The ranges of events that are laid out are the content up to where the
/// last of them ends: the events tile the content.
pub proof fn lemma_ranges_tile(content: Seq<u8>, events: Seq<EventModel>, n: int)
    requires
        laid_out(content, events),
        0 <= n <= events.len(),
    ensures
        ranges_upto(content, events, n) == content.take(start_of(content, events, n) as int),
        start_of(content, events, n) <= content.len(),
    decreases n,
{
    if n > 0 {
        lemma_ranges_tile(content, events, n - 1);
        assert(start_of(content, events, n - 1) <= boundary(content, events[n - 1])
            <= content.len());
        assert(content.take(start_of(content, events, n - 1) as int) + range(
            content,
            events,
            n - 1,
        ) == content.take(start_of(content, events, n) as int));
    } else {
        assert(content.take(0) == Seq::<u8>::empty());
    }
}

/// Finds where every event ends in `content`, if the events are laid out
/// in it.
pub fn boundaries(content: &[u8], events: &Vec<MarkupEvent>) -> (r: Option<Vec<usize>>)
    ensures
        match r {
            Some(bounds) => {
                &&& laid_out(content@, events.deep_view())
                &&& bounds@.len() == events@.len()
                &&& forall|i: int|
                    0 <= i < bounds@.len() ==> (#[trigger] bounds@[i]) == boundary(
                        content@,
                        events.deep_view()[i],
                    )
            },
            None => !laid_out(content@, events.deep_view()),
        },
{
    let ghost models = events.deep_view();
    let mark: usize = if content.len() >= 3 && content[0] == 0xef && content[1] == 0xbb
        && content[2] == 0xbf {
        3
    } else {
        0
    };
    let mut bounds: Vec<usize> = Vec::new();
    let mut start: usize = 0;
    let mut i: usize = 0;
    while i < events.len()
        invariant
            i <= events@.len(),
            models == events.deep_view(),
            mark == order_mark_length(content@),
            bounds@.len() == i,
            start == start_of(content@, models, i as int),
            start <= content@.len(),
            forall|k: int|
                0 <= k < i ==> (#[trigger] bounds@[k]) == boundary(content@, models[k]),
            forall|k: int|
                0 <= k < i ==> start_of(content@, models, k) <= boundary(
                    content@,
                    #[trigger] models[k],
                ) <= content@.len(),
        decreases events@.len() - i,
    {
        let event = &events[i];
        assert(models[i as int] == event@);
        let taken = match mark.checked_add(event.end) {
            Some(taken) => taken,
            None => {
                let length = content.len();
                assert(mark + event.end > length);
                assert(boundary(content@, models[i as int]) > content@.len());
                return None;
            },
        };
        let bound = taken;
        if bound < start || bound > content.len() {
            assert(!(start_of(content@, models, i as int) <= boundary(content@, models[i as int])
                <= content@.len()));
            return None;
        }
        bounds.push(bound);
        start = bound;
        i += 1;
    }
    Some(bounds)
}

/// Copies the bytes of `content` from index `from` up to index `to` to the
/// end of `out`.
pub fn append_range(out: &mut Vec<u8>, content: &[u8], from: usize, to: usize)
    requires
        from <= to <= content@.len(),
    ensures
        final(out)@ == old(out)@ + content@.subrange(from as int, to as int),
{
    let mut i: usize = from;
    assert(content@.subrange(from as int, from as int) == Seq::<u8>::empty());
    while i < to
        invariant
            from <= i <= to,
            to <= content@.len(),
            out@ == old(out)@ + content@.subrange(from as int, i as int),
        decreases to - i,
    {
        out.push(content[i]);
        i += 1;
        assert(content@.subrange(from as int, i as int) == content@.subrange(
            from as int,
            i - 1,
        ).push(content@[i - 1]));
    }
}

} // verus!
