//! The notification channel's buffer: a bounded queue of event texts. When
//! the queue is full, the oldest event gives way — the channel is advisory
//! and must never stall discovery.

use vstd::prelude::*;

verus! {

/// A bounded first-in-first-out buffer of event texts.
pub struct NotificationQueue {
    items: Vec<String>,
    cap: usize,
}

impl View for NotificationQueue {
    type V = Seq<Seq<char>>;

    closed spec fn view(&self) -> Seq<Seq<char>> {
        self.items@.map_values(|s: String| s@)
    }
}

impl NotificationQueue {
    /// The queue never holds more than its bound.
    pub closed spec fn wf(self) -> bool {
        self.items@.len() <= self.cap && self.cap >= 1
    }

    /// The queue's bound.
    pub closed spec fn spec_cap(self) -> usize {
        self.cap
    }

    /// An empty queue holding at most `cap` events.
    pub fn new(cap: usize) -> (r: Self)
        requires
            cap >= 1,
        ensures
            r.wf(),
            r@ == Seq::<Seq<char>>::empty(),
            r.spec_cap() == cap,
    {
        let r = NotificationQueue { items: Vec::new(), cap };
        proof {
            assert(r@ =~= Seq::<Seq<char>>::empty());
        }
        r
    }

    /// The number of queued events.
    pub fn len(&self) -> (r: usize)
        ensures
            r == self@.len(),
    {
        self.items.len()
    }

    /// Queue an event. A full queue drops its oldest event to make room, so
    /// pushing never waits and never fails.
    pub fn push(&mut self, event: String)
        requires
            old(self).wf(),
        ensures
            final(self).wf(),
            final(self).spec_cap() == old(self).spec_cap(),
            old(self)@.len() < old(self).spec_cap() ==> final(self)@ == old(self)@.push(event@),
            old(self)@.len() >= old(self).spec_cap() ==> final(self)@ == old(self)@.skip(1).push(
                event@,
            ),
    {
        if self.items.len() >= self.cap {
            self.items.remove(0);
            proof {
                assert(self@ =~= old(self)@.skip(1));
            }
        }
        let ghost before = self@;
        self.items.push(event);
        proof {
            assert(self@ =~= before.push(event@));
        }
    }

    /// Take the oldest event, if any.
    pub fn pop(&mut self) -> (r: Option<String>)
        requires
            old(self).wf(),
        ensures
            final(self).wf(),
            final(self).spec_cap() == old(self).spec_cap(),
            old(self)@.len() == 0 ==> r is None && final(self)@ == old(self)@,
            old(self)@.len() > 0 ==> r is Some && r->0@ == old(self)@[0] && final(self)@ == old(
                self,
            )@.skip(1),
    {
        if self.items.len() == 0 {
            return None;
        }
        let first = self.items.remove(0);
        proof {
            assert(self@ =~= old(self)@.skip(1));
        }
        Some(first)
    }
}

} // verus!
