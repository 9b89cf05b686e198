use vstd::prelude::*;

verus! {

/// Tells whether the queue of an origin is paused.
pub trait QueuePausedQuery {
    /// The origins that this source reports as paused.
    spec fn paused(&self, origin: u32) -> bool;

    fn is_paused(&self, origin: &u32) -> (r: bool)
        ensures
            r == self.paused(*origin),
    ;
}

/// A pause source that never pauses anything.
pub struct NothingPaused;

impl QueuePausedQuery for NothingPaused {
    open spec fn paused(&self, origin: u32) -> bool {
        false
    }

    fn is_paused(&self, origin: &u32) -> (r: bool) {
        false
    }
}

/// A pause source backed by an explicit list of paused origins.
pub struct PausedOrigins {
    pub origins: Vec<u32>,
}

impl PausedOrigins {
    pub fn new() -> (r: PausedOrigins)
        ensures
            r.origins@ == Seq::<u32>::empty(),
    {
        PausedOrigins { origins: Vec::new() }
    }

    /// Adds `origin` to the paused origins.
    pub fn pause(&mut self, origin: u32)
        ensures
            forall|o: u32| final(self).paused(o) == (old(self).paused(o) || o == origin),
    {
        self.origins.push(origin);
        proof {
            assert forall|o: u32| final(self).paused(o) == (old(self).paused(o) || o == origin) by {
                if old(self).paused(o) {
                    let i = choose|i: int| 0 <= i < old(self).origins@.len() && old(self).origins@[i] == o;
                    assert(self.origins@[i] == o);
                }
                if final(self).paused(o) && o != origin {
                    let i = choose|i: int| 0 <= i < self.origins@.len() && self.origins@[i] == o;
                    assert(old(self).origins@[i] == o);
                }
                if o == origin {
                    assert(self.origins@[self.origins@.len() - 1] == o);
                }
            }
        }
    }

    /// Removes every occurrence of `origin` from the paused origins.
    pub fn resume(&mut self, origin: u32)
        ensures
            forall|o: u32| final(self).paused(o) == (old(self).paused(o) && o != origin),
    {
        let mut kept: Vec<u32> = Vec::new();
        let mut i: usize = 0;
        while i < self.origins.len()
            invariant
                i <= self.origins@.len(),
                forall|o: u32| #[trigger] kept@.contains(o) == (o != origin
                    && self.origins@.subrange(0, i as int).contains(o)),
            decreases self.origins@.len() - i,
        {
            let o = self.origins[i];
            let ghost before = kept@;
            if o != origin {
                kept.push(o);
            }
            proof {
                let prefix = self.origins@.subrange(0, i as int + 1);
                assert(prefix == self.origins@.subrange(0, i as int).push(o));
                assert forall|p: u32| #[trigger] kept@.contains(p) == (p != origin
                    && prefix.contains(p)) by {
                    if prefix.contains(p) {
                        let j = choose|j: int| 0 <= j < prefix.len() && prefix[j] == p;
                        if j < i {
                            assert(self.origins@.subrange(0, i as int)[j] == p);
                        }
                    }
                    if p != o && self.origins@.subrange(0, i as int).contains(p) {
                        let j = choose|j: int| 0 <= j < i && self.origins@.subrange(0, i as int)[j] == p;
                        assert(prefix[j] == p);
                    }
                    if o == origin {
                        assert(kept@ == before);
                    } else {
                        assert(kept@ == before.push(o));
                        if kept@.contains(p) && p != o {
                            let j = choose|j: int| 0 <= j < kept@.len() && kept@[j] == p;
                            assert(before[j] == p);
                        }
                        if before.contains(p) {
                            let j = choose|j: int| 0 <= j < before.len() && before[j] == p;
                            assert(kept@[j] == p);
                        }
                        if p == o {
                            assert(kept@[kept@.len() - 1] == p);
                            assert(prefix[i as int] == p);
                        }
                    }
                }
            }
            i = i + 1;
        }
        assert(self.origins@.subrange(0, self.origins@.len() as int) == self.origins@);
        self.origins = kept;
    }
}

impl QueuePausedQuery for PausedOrigins {
    open spec fn paused(&self, origin: u32) -> bool {
        self.origins@.contains(origin)
    }

    fn is_paused(&self, origin: &u32) -> (r: bool) {
        let mut i: usize = 0;
        while i < self.origins.len()
            invariant
                i <= self.origins@.len(),
                forall|j: int| 0 <= j < i ==> self.origins@[j] != *origin,
            decreases self.origins@.len() - i,
        {
            if self.origins[i] == *origin {
                return true;
            }
            i = i + 1;
        }
        false
    }
}

/// Several pause sources combined: an origin is paused when any of them
/// reports it paused.
pub struct AnyPaused<S> {
    pub sources: Vec<S>,
}

impl<S: QueuePausedQuery> QueuePausedQuery for AnyPaused<S> {
    open spec fn paused(&self, origin: u32) -> bool {
        exists|i: int| 0 <= i < self.sources@.len() && self.sources@[i].paused(origin)
    }

    fn is_paused(&self, origin: &u32) -> (r: bool) {
        let mut i: usize = 0;
        while i < self.sources.len()
            invariant
                i <= self.sources@.len(),
                forall|j: int| 0 <= j < i ==> !self.sources@[j].paused(*origin),
            decreases self.sources@.len() - i,
        {
            if self.sources[i].is_paused(origin) {
                return true;
            }
            i = i + 1;
        }
        false
    }
}

} // verus!
