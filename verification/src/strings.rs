//! Small operations on text that the rest of the library is stated over.

use vstd::prelude::*;

verus! {

/// Whether `text` ends with `suffix`.
pub open spec fn has_suffix(text: Seq<char>, suffix: Seq<char>) -> bool {
    text.len() >= suffix.len() && text.skip(text.len() - suffix.len()) == suffix
}

/// The parts laid end to end with a line break between every two of them.
pub open spec fn joined(parts: Seq<Seq<char>>) -> Seq<char>
    decreases parts.len(),
{
    if parts.len() == 0 {
        Seq::empty()
    } else if parts.len() == 1 {
        parts[0]
    } else {
        joined(parts.drop_last()) + seq!['\n'] + parts.last()
    }
}

/// The characters of `text`.
pub fn chars_of(text: &str) -> (chars: Vec<char>)
    ensures
        chars@ == text@,
{
    let mut chars: Vec<char> = Vec::new();
    for c in it: text.chars()
        invariant
            it.seq() == text@,
            chars@ == text@.take(it.index() as int),
    {
        chars.push(c);
        assert(text@.take(it.index() + 1) == text@.take(it.index() as int).push(c));
    }
    assert(text@.take(text@.len() as int) == text@);
    chars
}

/// Whether `text` ends with `suffix`.
pub fn ends_with(text: &str, suffix: &str) -> (r: bool)
    ensures
        r == has_suffix(text@, suffix@),
{
    let chars = chars_of(text);
    let tail = chars_of(suffix);
    if chars.len() < tail.len() {
        return false;
    }
    let start = chars.len() - tail.len();
    let mut i: usize = 0;
    while i < tail.len()
        invariant
            i <= tail@.len(),
            chars@ == text@,
            tail@ == suffix@,
            start + tail.len() == chars.len(),
            forall|j: int| 0 <= j < i ==> chars@[start + j] == tail@[j],
        decreases tail@.len() - i,
    {
        if chars[start + i] != tail[i] {
            assert(chars@.skip(start as int)[i as int] != tail@[i as int]);
            return false;
        }
        i += 1;
    }
    assert(chars@.skip(start as int) =~= tail@);
    true
}

/// Joins the parts with a line break between every two of them.
pub fn join_lines(parts: &Vec<String>) -> (text: String)
    ensures
        text@ == joined(parts.deep_view()),
{
    let ghost all = parts.deep_view();
    let mut text = String::new();
    let mut i: usize = 0;
    assert(all.take(0) == Seq::<Seq<char>>::empty());
    while i < parts.len()
        invariant
            i <= parts@.len(),
            all == parts.deep_view(),
            text@ == joined(all.take(i as int)),
        decreases parts@.len() - i,
    {
        proof {
            assert(all.take(i + 1).drop_last() == all.take(i as int));
            assert(all.take(i + 1).last() == parts[i as int]@);
            reveal_strlit("\n");
            assert("\n"@ == seq!['\n']);
        }
        if i > 0 {
            text.append("\n");
        } else {
            assert(text@ == Seq::<char>::empty());
            assert(all.take(1)[0] == parts[0]@);
        }
        text.append(parts[i].as_str());
        i += 1;
    }
    assert(all.take(i as int) == all);
    text
}

} // verus!
