//! Sliding windows of a fixed width over a sequence of bytes.

use vstd::prelude::*;

verus! {

/// Moves over bytes in windows of `N`: each window starts one byte after
/// the one before it.
pub struct WindowIter<const N: usize> {
    source: Vec<u8>,
    pos: usize,
    window: [u8; N],
    first: bool,
}

impl<const N: usize> WindowIter<N> {
    /// The bytes that the windows are taken from.
    pub closed spec fn source(&self) -> Seq<u8> {
        self.source@
    }

    /// Number of windows handed out so far, which is also where the next
    /// one starts.
    pub closed spec fn position(&self) -> nat {
        if self.first || self.pos < N {
            0
        } else {
            (self.pos - N + 1) as nat
        }
    }

    /// The invariant of the iterator.
    pub closed spec fn wf(&self) -> bool {
        &&& N > 0
        &&& self.pos <= self.source@.len()
        &&& self.first ==> self.pos == 0
        &&& !self.first && self.pos >= N ==> self.window@ == self.source@.subrange(self.pos - N, self.pos as int)
        &&& !self.first && self.pos < N ==> self.pos == self.source@.len()
    }

    /// The next window, or `None` once the bytes are used up.
    pub fn next(&mut self) -> (r: Option<[u8; N]>)
        requires
            old(self).wf(),
        ensures
            final(self).wf(),
            final(self).source() == old(self).source(),
            match r {
                Some(window) => {
                    &&& old(self).position() + N <= old(self).source().len()
                    &&& window@ == old(self).source().subrange(
                        old(self).position() as int,
                        old(self).position() + N,
                    )
                    &&& final(self).position() == old(self).position() + 1
                },
                None => {
                    &&& old(self).position() + N > old(self).source().len()
                    &&& final(self).position() == old(self).position()
                },
            },
    {
        if self.first {
            self.first = false;
            if N <= self.source.len() {
                let mut i: usize = 0;
                while i < N
                    invariant
                        i <= N <= self.source@.len(),
                        self.source@ == old(self).source@,
                        self.pos == 0,
                        !self.first,
                        forall|j: int| 0 <= j < i ==> self.window@[j] == self.source@[j],
                    decreases N - i,
                {
                    self.window[i] = self.source[i];
                    i += 1;
                }
                self.pos = N;
                assert(self.window@ =~= self.source@.subrange(0, N as int));
                Some(self.window)
            } else {
                self.pos = self.source.len();
                None
            }
        } else if self.pos < self.source.len() {
            let byte = self.source[self.pos];
            let ghost before = self.window@;
            let mut i: usize = 0;
            while i < N - 1
                invariant
                    N > 0,
                    i <= N - 1,
                    self.source@ == old(self).source@,
                    self.pos == old(self).pos,
                    !self.first,
                    forall|j: int| 0 <= j < i ==> self.window@[j] == before[j + 1],
                    forall|j: int| i <= j < N ==> self.window@[j] == before[j],
                decreases N - i,
            {
                self.window[i] = self.window[i + 1];
                i += 1;
            }
            self.window[N - 1] = byte;
            self.pos = self.pos + 1;
            assert(self.window@ =~= self.source@.subrange(self.pos - N, self.pos as int));
            Some(self.window)
        } else {
            None
        }
    }
}

/// An iterator over the windows of `source`, at its first window.
pub fn make_window_iter<const N: usize>(source: Vec<u8>) -> (iter: WindowIter<N>)
    requires
        N > 0,
    ensures
        iter.wf(),
        iter.source() == source@,
        iter.position() == 0,
{
    WindowIter { source, pos: 0, window: [0; N], first: true }
}

} // verus!
