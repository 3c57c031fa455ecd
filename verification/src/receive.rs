//! Reading what a peer sends once both sides have greeted each other.

use vstd::prelude::*;

use crate::error::{SyncError, SyncRecvError};
use crate::message::{SyncMessage, SyncRequest};

verus! {

/// The sum of some numbers.
pub open spec fn total(numbers: Seq<usize>) -> nat
    decreases numbers.len(),
{
    if numbers.len() == 0 {
        0
    } else {
        total(numbers.drop_last()) + numbers.last() as nat
    }
}

/// The sum of some lists of numbers.
pub open spec fn grand_total(lists: Seq<Vec<usize>>) -> nat
    decreases lists.len(),
{
    if lists.len() == 0 {
        0
    } else {
        grand_total(lists.drop_last()) + total(lists.last()@)
    }
}

proof fn lemma_total_of_part(numbers: Seq<usize>, n: int)
    requires
        0 <= n <= numbers.len(),
    ensures
        total(numbers.take(n)) <= total(numbers),
    decreases numbers.len(),
{
    if n < numbers.len() {
        lemma_total_of_part(numbers.drop_last(), n);
        assert(numbers.drop_last().take(n) =~= numbers.take(n));
    } else {
        assert(numbers.take(n) =~= numbers);
    }
}

proof fn lemma_grand_total_of_part(lists: Seq<Vec<usize>>, n: int)
    requires
        0 <= n <= lists.len(),
    ensures
        grand_total(lists.take(n)) <= grand_total(lists),
    decreases lists.len(),
{
    if n < lists.len() {
        lemma_grand_total_of_part(lists.drop_last(), n);
        assert(lists.drop_last().take(n) =~= lists.take(n));
    } else {
        assert(lists.take(n) =~= lists);
    }
}

fn sum(numbers: &Vec<usize>) -> (result: usize)
    requires
        total(numbers@) <= usize::MAX,
    ensures
        result == total(numbers@),
{
    let mut result: usize = 0;
    let mut i: usize = 0;
    while i < numbers.len()
        invariant
            i <= numbers.len(),
            result == total(numbers@.take(i as int)),
            total(numbers@) <= usize::MAX,
        decreases numbers.len() - i,
    {
        proof {
            lemma_total_of_part(numbers@, i + 1);
            assert(numbers@.take(i + 1).drop_last() =~= numbers@.take(i as int));
        }
        result = result + numbers[i];
        i = i + 1;
    }
    assert(numbers@.take(i as int) =~= numbers@);
    result
}

/// The sum of some lists of numbers: how much a request asks for, if each list
/// says how much each need of one actor asks for.
pub fn sum_all(lists: &Vec<Vec<usize>>) -> (result: usize)
    requires
        grand_total(lists@) <= usize::MAX,
    ensures
        result == grand_total(lists@),
{
    let mut result: usize = 0;
    let mut i: usize = 0;
    while i < lists.len()
        invariant
            i <= lists.len(),
            result == grand_total(lists@.take(i as int)),
            grand_total(lists@) <= usize::MAX,
        decreases lists.len() - i,
    {
        proof {
            lemma_grand_total_of_part(lists@, i + 1);
            assert(lists@.take(i + 1).drop_last() =~= lists@.take(i as int));
        }
        result = result + sum(&lists[i]);
        i = i + 1;
    }
    assert(lists@.take(i as int) =~= lists@);
    result
}

/// What the caller does with what it read.
#[derive(Debug, PartialEq, Eq)]
pub enum ReceiveStep<T> {
    /// Pass this on, and read on. If it cannot be passed on, reading ends with
    /// the error of `on_closed`.
    Forward(T),
    /// It was not expected: read on.
    Ignore,
    /// Reading is over, with this result.
    Stop(Result<usize, SyncError>),
}

/// Counts the changes that a peer sends.
#[derive(Clone, Copy, Debug)]
pub struct ChangesReceiver {
    pub count: usize,
}

/// For how much a set of `len` changes counts: for one at least.
pub open spec fn weight(len: usize) -> int {
    if len == 0 {
        1
    } else {
        len as int
    }
}

/// For how much a set of `len` changes counts.
pub fn changes_len(len: usize) -> (weighed: usize)
    ensures
        weighed == weight(len),
{
    if len == 0 {
        1
    } else {
        len
    }
}

impl ChangesReceiver {
    /// Nothing was read yet.
    pub fn new() -> (this: ChangesReceiver)
        ensures
            this.count == 0,
    {
        ChangesReceiver { count: 0 }
    }

    /// Decides what to do with what was read. The end of the stream and a failed
    /// read both end the reading with what was counted.
    pub fn on_read<S, T>(
        &mut self,
        read: Result<Option<SyncMessage<S, T>>, SyncRecvError>,
    ) -> (step: ReceiveStep<T>)
        requires
            read matches Ok(Some(SyncMessage::Changeset { change, len })) ==> old(self).count
                + weight(len) <= usize::MAX,
        ensures
            match read {
                Ok(Some(SyncMessage::Changeset { change, len })) => {
                    &&& step == ReceiveStep::Forward(change)
                    &&& final(self).count == old(self).count + weight(len)
                },
                Ok(Some(SyncMessage::Rejection(rejection))) => {
                    &&& step == ReceiveStep::<T>::Stop(Err(SyncError::Rejection(rejection)))
                    &&& final(self).count == old(self).count
                },
                Ok(Some(_)) => step is Ignore && final(self).count == old(self).count,
                _ => {
                    &&& step == ReceiveStep::<T>::Stop(Ok(old(self).count))
                    &&& final(self).count == old(self).count
                },
            },
    {
        match read {
            Ok(Some(SyncMessage::Changeset { change, len })) => {
                self.count = self.count + changes_len(len);
                ReceiveStep::Forward(change)
            },
            Ok(Some(SyncMessage::Rejection(rejection))) => {
                ReceiveStep::Stop(Err(SyncError::Rejection(rejection)))
            },
            Ok(Some(_)) => ReceiveStep::Ignore,
            Ok(None) => ReceiveStep::Stop(Ok(self.count)),
            Err(_) => ReceiveStep::Stop(Ok(self.count)),
        }
    }

    /// The error if nobody takes the changes any more.
    pub fn on_closed(&self) -> (error: SyncError)
        ensures
            error == SyncError::Recv(SyncRecvError::ChangesChannelClosed),
    {
        SyncError::Recv(SyncRecvError::ChangesChannelClosed)
    }
}

/// The counts of the peers that did not fail.
pub open spec fn received(counts: Seq<Result<usize, SyncError>>) -> Seq<usize>
    decreases counts.len(),
{
    if counts.len() == 0 {
        Seq::empty()
    } else {
        match counts.last() {
            Ok(count) => received(counts.drop_last()).push(count),
            Err(_) => received(counts.drop_last()),
        }
    }
}

/// How many changes were received in all. Peers that failed count for nothing.
pub fn total_received(counts: &Vec<Result<usize, SyncError>>) -> (result: usize)
    requires
        total(received(counts@)) <= usize::MAX,
    ensures
        result == total(received(counts@)),
{
    let mut ok: Vec<usize> = Vec::new();
    let mut i: usize = 0;
    while i < counts.len()
        invariant
            i <= counts.len(),
            ok@ == received(counts@.take(i as int)),
        decreases counts.len() - i,
    {
        assert(counts@.take(i + 1).drop_last() =~= counts@.take(i as int));
        if let Ok(count) = &counts[i] {
            ok.push(*count);
        }
        i = i + 1;
    }
    assert(counts@.take(i as int) =~= counts@);
    sum(&ok)
}

/// Counts what a peer asks for.
#[derive(Clone, Copy, Debug)]
pub struct RequestsReceiver {
    pub count: usize,
}

impl RequestsReceiver {
    /// Nothing was read yet.
    pub fn new() -> (this: RequestsReceiver)
        ensures
            this.count == 0,
    {
        RequestsReceiver { count: 0 }
    }

    /// Decides what to do with what was read. If it is a request, `needs` says how
    /// much each of its needs asks for, by actor. The end of the stream and a
    /// failed read both end the reading with what was counted.
    pub fn on_read<S, T>(
        &mut self,
        read: Result<Option<SyncMessage<S, T>>, SyncRecvError>,
        needs: &Vec<Vec<usize>>,
    ) -> (step: ReceiveStep<SyncRequest>)
        requires
            read matches Ok(Some(SyncMessage::Request(request))) ==> old(self).count + grand_total(
                needs@,
            ) <= usize::MAX,
        ensures
            match read {
                Ok(Some(SyncMessage::Request(request))) => {
                    &&& step == ReceiveStep::Forward(request)
                    &&& final(self).count == old(self).count + grand_total(needs@)
                },
                Ok(Some(SyncMessage::Rejection(rejection))) => {
                    &&& step == ReceiveStep::<SyncRequest>::Stop(
                        Err(SyncError::Rejection(rejection)),
                    )
                    &&& final(self).count == old(self).count
                },
                Ok(Some(_)) => step is Ignore && final(self).count == old(self).count,
                _ => {
                    &&& step == ReceiveStep::<SyncRequest>::Stop(Ok(old(self).count))
                    &&& final(self).count == old(self).count
                },
            },
    {
        match read {
            Ok(Some(SyncMessage::Request(request))) => {
                self.count = self.count + sum_all(needs);
                ReceiveStep::Forward(request)
            },
            Ok(Some(SyncMessage::Rejection(rejection))) => {
                ReceiveStep::Stop(Err(SyncError::Rejection(rejection)))
            },
            Ok(Some(_)) => ReceiveStep::Ignore,
            Ok(None) => ReceiveStep::Stop(Ok(self.count)),
            Err(_) => ReceiveStep::Stop(Ok(self.count)),
        }
    }

    /// The error if nobody takes the requests any more.
    pub fn on_closed(&self) -> (error: SyncError)
        ensures
            error == SyncError::Recv(SyncRecvError::RequestsChannelClosed),
    {
        SyncError::Recv(SyncRecvError::RequestsChannelClosed)
    }
}

/// A set of changes counts for as many as there are in it, and an empty one for one.
pub proof fn law_weight(len: usize)
    ensures
        len > 0 ==> weight(len) == len,
        weight(len) >= 1,
        len <= 1 ==> weight(len) == 1,
{
}

/// Sums add up: that of two lists, one behind the other, is the sum of both sums, and that of
/// one number is the number.
pub proof fn law_sums(a: Seq<usize>, b: Seq<usize>, n: usize)
    ensures
        total(Seq::empty()) == 0,
        total(seq![n]) == n,
        total(a + b) == total(a) + total(b),
    decreases b.len(),
{
    reveal_with_fuel(total, 2);
    assert(seq![n].drop_last() =~= Seq::empty());
    if b.len() > 0 {
        law_sums(a, b.drop_last(), n);
        assert((a + b).drop_last() =~= a + b.drop_last());
    } else {
        assert(a + b =~= a);
    }
}

/// What a request asks for is what all the needs of all its actors ask for.
pub proof fn law_grand_sums(a: Seq<Vec<usize>>, b: Seq<Vec<usize>>, list: Vec<usize>)
    ensures
        grand_total(Seq::empty()) == 0,
        grand_total(seq![list]) == total(list@),
        grand_total(a + b) == grand_total(a) + grand_total(b),
    decreases b.len(),
{
    reveal_with_fuel(grand_total, 2);
    assert(seq![list].drop_last() =~= Seq::empty());
    if b.len() > 0 {
        law_grand_sums(a, b.drop_last(), list);
        assert((a + b).drop_last() =~= a + b.drop_last());
    } else {
        assert(a + b =~= a);
    }
}

/// The counts of just the peers that did not fail are kept, all of them, in their order.
pub proof fn law_failures_count_for_nothing(counts: Seq<Result<usize, SyncError>>)
    ensures
        ({
            let kept = counts.filter(|count: Result<usize, SyncError>| count is Ok);
            &&& received(counts).len() == kept.len()
            &&& forall|i: int|
                0 <= i < kept.len() ==> Ok::<usize, SyncError>(#[trigger] received(counts)[i])
                    == kept[i]
        }),
    decreases counts.len(),
{
    reveal(Seq::filter);
    if counts.len() > 0 {
        law_failures_count_for_nothing(counts.drop_last());
    }
}

} // verus!
