use vstd::prelude::*;

verus! {

/// Two FIFO queues of path identifiers: the paths that need a PATH_CHALLENGE
/// sent or re-sent, and the paths that owe a PATH_RESPONSE. An identifier may
/// stand in a queue more than once.
pub struct ValidationScheduler {
    awaiting_challenge: Vec<u64>,
    awaiting_response: Vec<u64>,
}

impl ValidationScheduler {
    /// The paths awaiting a PATH_CHALLENGE, oldest first.
    pub closed spec fn challenges(&self) -> Seq<u64> {
        self.awaiting_challenge@
    }

    /// The paths awaiting a PATH_RESPONSE, oldest first.
    pub closed spec fn responses(&self) -> Seq<u64> {
        self.awaiting_response@
    }

    /// Two empty queues.
    pub fn new() -> (r: ValidationScheduler)
        ensures
            r.challenges().len() == 0,
            r.responses().len() == 0,
    {
        ValidationScheduler { awaiting_challenge: Vec::new(), awaiting_response: Vec::new() }
    }

    pub fn enqueue_challenge(&mut self, id: u64)
        ensures
            final(self).challenges() == old(self).challenges().push(id),
            final(self).responses() == old(self).responses(),
    {
        self.awaiting_challenge.push(id);
    }

    pub fn enqueue_response(&mut self, id: u64)
        ensures
            final(self).challenges() == old(self).challenges(),
            final(self).responses() == old(self).responses().push(id),
    {
        self.awaiting_response.push(id);
    }

    /// Pops the oldest path awaiting a PATH_CHALLENGE.
    pub fn drain_one_challenge(&mut self) -> (r: Option<u64>)
        ensures
            final(self).responses() == old(self).responses(),
            old(self).challenges().len() == 0 ==> r is None && final(self).challenges()
                == old(self).challenges(),
            old(self).challenges().len() > 0 ==> r == Some(old(self).challenges()[0])
                && final(self).challenges() == old(self).challenges().drop_first(),
    {
        if self.awaiting_challenge.len() == 0 {
            None
        } else {
            Some(self.awaiting_challenge.remove(0))
        }
    }

    /// Pops the oldest path awaiting a PATH_RESPONSE.
    pub fn drain_one_response(&mut self) -> (r: Option<u64>)
        ensures
            final(self).challenges() == old(self).challenges(),
            old(self).responses().len() == 0 ==> r is None && final(self).responses()
                == old(self).responses(),
            old(self).responses().len() > 0 ==> r == Some(old(self).responses()[0])
                && final(self).responses() == old(self).responses().drop_first(),
    {
        if self.awaiting_response.len() == 0 {
            None
        } else {
            Some(self.awaiting_response.remove(0))
        }
    }
}

} // verus!
