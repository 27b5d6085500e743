//! Draining a channel down to its newest item.

use vstd::prelude::*;

verus! {

/// What a look into a channel without waiting finds.
pub enum Poll<T> {
    /// An item.
    Ready(T),
    /// Nothing for now.
    Empty,
    /// Nothing, and nothing will follow: the sender is gone.
    Disconnected,
}

/// How draining goes on.
pub enum Drain {
    /// Look again.
    Again,
    /// The channel is empty.
    Done,
    /// The channel is empty for good.
    SenderGone,
}

/// The newest of the items drained so far.
pub struct Latest<T> {
    pub item: Option<T>,
}

/// The newest item after a series of looks, given the newest before it.
pub open spec fn newest<T>(before: Option<T>, polls: Seq<Poll<T>>) -> Option<T>
    decreases polls.len(),
{
    if polls.len() == 0 {
        before
    } else {
        match polls.last() {
            Poll::Ready(item) => Some(item),
            _ => newest(before, polls.drop_last()),
        }
    }
}

impl<T> Latest<T> {
    /// Nothing drained yet.
    pub fn new() -> (latest: Latest<T>)
        ensures
            latest.item is None,
    {
        Latest { item: None }
    }

    /// Takes in what one look found and tells whether to look again: an item replaces
    /// the one held before, and anything else ends the draining.
    pub fn offer(&mut self, poll: Poll<T>) -> (drain: Drain)
        ensures
            final(self).item == newest(old(self).item, seq![poll]),
            poll matches Poll::Ready(item) ==> final(self).item == Some(item),
            !(poll is Ready) ==> final(self).item == old(self).item,
            drain is Done <==> poll is Empty,
            drain is Again <==> poll is Ready,
            drain is SenderGone <==> poll is Disconnected,
    {
        proof {
            reveal_with_fuel(newest, 2);
            assert(seq![poll].last() == poll);
            assert(seq![poll].drop_last().len() == 0);
        }
        match poll {
            Poll::Ready(item) => {
                self.item = Some(item);
                Drain::Again
            },
            Poll::Empty => Drain::Done,
            Poll::Disconnected => Drain::SenderGone,
        }
    }
}

/// Offering look after look is the same as offering the whole series.
pub proof fn law_offers_accumulate<T>(before: Option<T>, polls: Seq<Poll<T>>, poll: Poll<T>)
    ensures
        newest(before, polls.push(poll)) == newest(newest(before, polls), seq![poll]),
{
    reveal_with_fuel(newest, 2);
    assert(polls.push(poll).drop_last() =~= polls);
    assert(seq![poll].last() == poll);
    assert(seq![poll].drop_last().len() == 0);
}

/// Looks that find no item change nothing.
pub proof fn law_nothing_found_changes_nothing<T>(before: Option<T>, polls: Seq<Poll<T>>)
    requires
        forall|j: int| 0 <= j < polls.len() ==> !(#[trigger] polls[j] is Ready),
    ensures
        newest(before, polls) == before,
    decreases polls.len(),
{
    if polls.len() > 0 {
        assert(!(polls[polls.len() - 1] is Ready));
        assert forall|j: int| 0 <= j < polls.drop_last().len() implies !(
        #[trigger] polls.drop_last()[j] is Ready) by {
            assert(!(polls[j] is Ready));
        }
        law_nothing_found_changes_nothing(before, polls.drop_last());
    }
}

/// The latest item wins: whatever was drained before it, an item that only looks
/// without an item follow is the one that is kept.
pub proof fn law_latest_wins<T>(before: Option<T>, polls: Seq<Poll<T>>, i: int)
    requires
        0 <= i < polls.len(),
        polls[i] is Ready,
        forall|j: int| i < j < polls.len() ==> !(#[trigger] polls[j] is Ready),
    ensures
        newest(before, polls) == Some(polls[i]->Ready_0),
    decreases polls.len(),
{
    if i < polls.len() - 1 {
        assert(!(polls[polls.len() - 1] is Ready));
        assert forall|j: int| i < j < polls.drop_last().len() implies !(
        #[trigger] polls.drop_last()[j] is Ready) by {
            assert(!(polls[j] is Ready));
        }
        law_latest_wins(before, polls.drop_last(), i);
    }
}

} // verus!
