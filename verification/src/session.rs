//! Which request the coordinator waits for, so that results that arrive
//! late or for a cancelled request are dropped.

use vstd::prelude::*;

verus! {

/// Whether a result with the id `id` is the one that is waited for.
pub open spec fn is_live(waiting: Option<u32>, id: u32) -> bool {
    waiting == Some(id)
}

/// What is waited for after a result with the id `id` arrived: nothing when
/// it was the awaited one, the same as before otherwise.
pub open spec fn after_result(waiting: Option<u32>, id: u32) -> Option<u32> {
    if is_live(waiting, id) {
        None
    } else {
        waiting
    }
}

/// A result is taken once: when it was taken, no result is live until
/// another request is begun.
pub proof fn lemma_result_taken_once(waiting: Option<u32>, id: u32, later: u32)
    requires
        is_live(waiting, id),
    ensures
        !is_live(after_result(waiting, id), later),
{
}

/// A result for another request than the awaited one changes nothing.
pub proof fn lemma_stale_result_ignored(waiting: Option<u32>, id: u32)
    requires
        !is_live(waiting, id),
    ensures
        after_result(waiting, id) == waiting,
{
}

/// The request whose result is awaited, if any.
#[derive(Debug)]
pub struct Pending {
    waiting: Option<u32>,
}

impl View for Pending {
    type V = Option<u32>;

    closed spec fn view(&self) -> Option<u32> {
        self.waiting
    }
}

impl Pending {
    /// Nothing is awaited.
    pub fn new() -> (out: Self)
        ensures
            out@ is None,
    {
        Pending { waiting: None }
    }

    /// The id of the awaited request.
    pub fn current(&self) -> (out: Option<u32>)
        ensures
            out == self@,
    {
        self.waiting
    }

    /// The request `id` was sent: its result is awaited, and that of any
    /// earlier request no longer.
    pub fn begin(&mut self, id: u32)
        ensures
            final(self)@ == Some(id),
    {
        self.waiting = Some(id);
    }

    /// The awaited request was cancelled: its result will be dropped.
    pub fn cancel(&mut self)
        ensures
            final(self)@ is None,
    {
        self.waiting = None;
    }

    /// A result for the request `id` arrived. Returns whether it is the
    /// awaited one; if so nothing is awaited afterwards.
    pub fn settle(&mut self, id: u32) -> (live: bool)
        ensures
            live == is_live(old(self)@, id),
            final(self)@ == after_result(old(self)@, id),
    {
        match self.waiting {
            Some(w) => {
                if w == id {
                    self.waiting = None;
                    true
                } else {
                    false
                }
            },
            None => false,
        }
    }
}

} // verus!
