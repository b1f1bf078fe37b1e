//! The power button: which clients listen to it, and whether its press has
//! been reported to them.
use vstd::prelude::*;

verus! {

/// The clients' power button objects, and whether they were told of a press
/// that is still going on.
#[derive(Debug)]
pub struct PowerButtons {
    pub objects: Vec<u64>,
    pub pressed_reported: bool,
}

impl PowerButtons {
    /// A press counts as reported only while someone listens.
    pub open spec fn wf(&self) -> bool {
        self.pressed_reported ==> self.objects@.len() > 0
    }

    pub fn new() -> (r: Self)
        ensures
            r.wf(),
            r.objects@ == Seq::<u64>::empty(),
            !r.pressed_reported,
    {
        PowerButtons { objects: Vec::new(), pressed_reported: false }
    }

    /// A client wants to listen.
    pub fn get_power_button(&mut self, object: u64)
        requires
            old(self).wf(),
        ensures
            final(self).wf(),
            final(self).objects@ == old(self).objects@.push(object),
            final(self).pressed_reported == old(self).pressed_reported,
    {
        self.objects.push(object);
    }

    /// A client's object is gone. With the last one the report of a press is
    /// forgotten, so that whoever listens next hears of no release without its
    /// press.
    pub fn destroyed(&mut self, object: u64)
        requires
            old(self).wf(),
        ensures
            final(self).wf(),
            final(self).objects@ == old(self).objects@.filter(|o: u64| o != object),
            final(self).pressed_reported == (old(self).pressed_reported
                && final(self).objects@.len() > 0),
    {
        let mut kept: Vec<u64> = Vec::new();
        let ghost keep = |o: u64| o != object;
        proof {
            reveal(Seq::filter);
            assert(self.objects@.take(0) =~= Seq::empty());
        }
        for i in 0..self.objects.len()
            invariant
                keep == (|o: u64| o != object),
                kept@ == self.objects@.take(i as int).filter(keep),
        {
            proof {
                reveal(Seq::filter);
                assert(self.objects@.take(i + 1).drop_last() =~= self.objects@.take(i as int));
                assert(self.objects@.take(i + 1).last() == self.objects@[i as int]);
            }
            if self.objects[i] != object {
                kept.push(self.objects[i]);
            }
        }
        assert(self.objects@.take(self.objects@.len() as int) =~= self.objects@);
        self.objects = kept;
        if self.objects.len() == 0 {
            self.pressed_reported = false;
        }
    }
}

} // verus!
