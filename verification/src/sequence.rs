//! Width-repeating sequence generator: each value of a source sequence
//! `0, 1, 2, ...` repeated a fixed number of consecutive times, the shape
//! of one gradient row where every distinct intensity step is a block of
//! pixels wide.  A fresh generator starts at the origin, so one is made per
//! row; its `j`-th output is exactly `j / repeat`.

use vstd::prelude::*;

verus! {

/// A restartable generator over the source `0, 1, 2, ...` where each value
/// is emitted `repeat` consecutive times.
pub struct WidthRepeat {
    /// How many consecutive times each source value is emitted.
    pub repeat: usize,
    /// How many values have been emitted so far.
    pub emitted: usize,
}

impl WidthRepeat {
    /// A generator is well formed when its block width is positive.
    pub open spec fn wf(self) -> bool {
        self.repeat >= 1
    }

    /// A fresh generator at the origin of the sequence.
    pub fn new(repeat: usize) -> (g: WidthRepeat)
        requires
            repeat >= 1,
        ensures
            g.wf(),
            g.repeat == repeat,
            g.emitted == 0,
    {
        WidthRepeat { repeat, emitted: 0 }
    }

    /// The next value of the sequence: position `j` carries value
    /// `j / repeat`, so each source value stands `repeat` times before the
    /// next one begins.
    pub fn next_value(&mut self) -> (v: usize)
        requires
            old(self).wf(),
            old(self).emitted < usize::MAX,
        ensures
            final(self).wf(),
            final(self).repeat == old(self).repeat,
            final(self).emitted == old(self).emitted + 1,
            v == old(self).emitted as int / old(self).repeat as int,
    {
        let v: usize = self.emitted / self.repeat;
        self.emitted = self.emitted + 1;
        v
    }
}

/// The first `count * repeat` values of the generator as one vector: the
/// expansion of the source `0 .. count` with each value repeated `repeat`
/// times.
pub fn expand(count: usize, repeat: usize) -> (v: Vec<usize>)
    requires
        repeat >= 1,
        count * repeat <= usize::MAX,
    ensures
        v.len() == count * repeat,
        forall|j: int| 0 <= j < v.len() ==> #[trigger] v@[j] as int == j / repeat as int,
{
    let total: usize = count * repeat;
    let mut g: WidthRepeat = WidthRepeat::new(repeat);
    let mut v: Vec<usize> = Vec::new();
    while v.len() < total
        invariant
            g.wf(),
            g.repeat == repeat,
            g.emitted == v.len(),
            v.len() <= total,
            forall|j: int| 0 <= j < v.len() ==> #[trigger] v@[j] as int == j / repeat as int,
        decreases total - v.len(),
    {
        let x: usize = g.next_value();
        v.push(x);
    }
    v
}

} // verus!
