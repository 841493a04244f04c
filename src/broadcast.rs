//! Book-keeping of the aggregator's fan-out: the per-subscriber senders
//! that each message goes to, in the order they attached, and the removal
//! of those whose send failed.
use vstd::prelude::*;

verus! {

/// The items of `s` whose mark in `failed` is not set, in order.
pub open spec fn survivors<T>(s: Seq<T>, failed: Seq<bool>) -> Seq<T>
    decreases s.len(),
{
    if s.len() == 0 {
        Seq::empty()
    } else if failed.len() > 0 && failed[0] {
        survivors(s.drop_first(), failed.drop_first())
    } else {
        seq![s[0]] + survivors(s.drop_first(), failed.drop_first())
    }
}

/// The senders that the aggregator broadcasts to.
pub struct Fanout<T> {
    senders: Vec<T>,
}

impl<T> Fanout<T> {
    /// The senders, in the order they attached.
    pub closed spec fn view_senders(&self) -> Seq<T> {
        self.senders@
    }

    /// A fan-out with no sender.
    pub fn new() -> (r: Fanout<T>)
        ensures
            r.view_senders() == Seq::<T>::empty(),
    {
        Fanout { senders: Vec::new() }
    }

    /// Attaches a sender; it gets every message from the next one on.
    pub fn register(&mut self, sender: T)
        ensures
            final(self).view_senders() == old(self).view_senders().push(sender),
    {
        self.senders.push(sender);
    }

    /// The number of attached senders.
    pub fn len(&self) -> (r: usize)
        ensures
            r == self.view_senders().len(),
    {
        self.senders.len()
    }

    /// The sender at position `i`.
    pub fn sender(&self, i: usize) -> (r: &T)
        requires
            i < self.view_senders().len(),
        ensures
            *r == self.view_senders()[i as int],
    {
        &self.senders[i]
    }

    /// Detaches the senders whose send failed, where `failed[i]` tells of
    /// sender `i`; the others keep their order. Removal runs from the last
    /// position down, so that the positions still to remove stay valid.
    pub fn remove_failed(&mut self, failed: &Vec<bool>)
        requires
            failed@.len() == old(self).view_senders().len(),
        ensures
            final(self).view_senders() == survivors(old(self).view_senders(), failed@),
    {
        let ghost s = self.senders@;
        let n = self.senders.len();
        let mut k = n;
        assert(s.subrange(n as int, n as int) =~= Seq::<T>::empty());
        assert(s.subrange(0, n as int) =~= s);
        while k > 0
            invariant
                n == s.len(),
                failed@.len() == n,
                k <= n,
                self.senders@ == s.subrange(0, k as int)
                    + survivors(s.subrange(k as int, n as int), failed@.subrange(k as int, n as int)),
            decreases k,
        {
            proof {
                let t = s.subrange(k - 1, n as int);
                let f = failed@.subrange(k - 1, n as int);
                assert(t.drop_first() =~= s.subrange(k as int, n as int));
                assert(f.drop_first() =~= failed@.subrange(k as int, n as int));
                assert(t[0] == s[k - 1]);
                assert(f[0] == failed@[k - 1]);
            }
            if failed[k - 1] {
                self.senders.remove(k - 1);
                assert(self.senders@ =~= s.subrange(0, k - 1)
                    + survivors(s.subrange(k - 1, n as int), failed@.subrange(k - 1, n as int)));
            } else {
                assert(self.senders@ =~= s.subrange(0, k - 1)
                    + survivors(s.subrange(k - 1, n as int), failed@.subrange(k - 1, n as int)));
            }
            k = k - 1;
        }
        assert(s.subrange(0, 0) =~= Seq::<T>::empty());
        assert(s.subrange(0, n as int) =~= s);
        assert(failed@.subrange(0, n as int) =~= failed@);
        assert(self.senders@ =~= survivors(s, failed@));
    }
}

} // verus!
