//! The memory of a delay: a stereo ring into which one frame is written at a time.
use crate::sample;
use vstd::prelude::*;

verus! {

/// A ring of frames, and the place where the next one is written.
pub struct DelayLine {
    left: Vec<u32>,
    right: Vec<u32>,
    w: usize,
}

impl DelayLine {
    /// Both channels are as long as each other, and there is a place to write at.
    pub closed spec fn wf(&self) -> bool {
        self.left@.len() == self.right@.len() && self.w < self.left@.len()
    }

    /// How many frames the ring holds.
    pub closed spec fn frames(&self) -> int {
        self.left@.len() as int
    }

    /// The place where the next frame is written.
    pub closed spec fn head(&self) -> int {
        self.w as int
    }

    /// The samples of one channel by their places.
    pub closed spec fn channel(&self, ch: int) -> Seq<u32> {
        if ch == 0 {
            self.left@
        } else {
            self.right@
        }
    }

    /// The sample written `d` frames ago.
    pub open spec fn past(&self, ch: int, d: int) -> u32 {
        self.channel(ch)[(self.head() + self.frames() - d) % self.frames()]
    }

    /// A silent ring of `len` frames.
    pub fn new(len: usize) -> (r: Self)
        requires
            len > 0,
        ensures
            r.wf(),
            r.frames() == len,
            r.head() == 0,
            forall|ch: int, i: int|
                0 <= ch < 2 && 0 <= i < len ==> #[trigger] r.channel(ch)[i] == sample::ZERO,
    {
        DelayLine { left: vec![sample::ZERO; len], right: vec![sample::ZERO; len], w: 0 }
    }

    /// How many frames the ring holds.
    pub fn len(&self) -> (r: usize)
        ensures
            r == self.frames(),
    {
        self.left.len()
    }

    /// The place where the next frame is written.
    pub fn position(&self) -> (r: usize)
        ensures
            r == self.head(),
    {
        self.w
    }

    /// The two neighbouring places that a reading point falls between; the point counts
    /// frames from the start of the ring, and may have gone round it.
    pub fn around(&self, point: usize) -> (r: (usize, usize))
        requires
            self.wf(),
        ensures
            r.0 == point as int % self.frames(),
            r.1 == (r.0 + 1) % self.frames(),
            r.0 < self.frames(),
            r.1 < self.frames(),
    {
        let len = self.left.len();
        let r0 = point % len;
        let r1 = if r0 + 1 == len {
            0
        } else {
            r0 + 1
        };
        proof {
            if r0 + 1 == len {
                vstd::arithmetic::div_mod::lemma_mod_self_0(len as int);
            } else {
                vstd::arithmetic::div_mod::lemma_small_mod((r0 + 1) as nat, len as nat);
            }
        }
        (r0, r1)
    }

    /// The sample of a channel at a place.
    pub fn get(&self, ch: usize, i: usize) -> (r: u32)
        requires
            self.wf(),
            i < self.frames(),
        ensures
            r == self.channel(ch as int)[i as int],
    {
        if ch == 0 {
            self.left[i]
        } else {
            self.right[i]
        }
    }

    /// Writes one frame and moves on: what was written `d` frames ago was written `d + 1`
    /// frames ago now, and the oldest frame is gone.
    pub fn push(&mut self, l: u32, r: u32)
        requires
            old(self).wf(),
        ensures
            final(self).wf(),
            final(self).frames() == old(self).frames(),
            final(self).head() == (old(self).head() + 1) % old(self).frames(),
            final(self).channel(0) == old(self).channel(0).update(old(self).head(), l),
            final(self).channel(1) == old(self).channel(1).update(old(self).head(), r),
            final(self).past(0, 1) == l,
            final(self).past(1, 1) == r,
            forall|ch: int, d: int|
                0 <= ch < 2 && 1 <= d < old(self).frames() ==> final(self).past(ch, d + 1)
                    == #[trigger] old(self).past(ch, d),
    {
        let w = self.w;
        self.left[w] = l;
        self.right[w] = r;
        let len = self.left.len();
        let next = if w + 1 == len {
            0
        } else {
            w + 1
        };
        self.w = next;
        proof {
            let n = len as int;
            if w + 1 == len {
                vstd::arithmetic::div_mod::lemma_mod_self_0(n);
            } else {
                vstd::arithmetic::div_mod::lemma_small_mod((w + 1) as nat, len as nat);
            }
            assert forall|d: int| 1 <= d <= n implies #[trigger] ((w + n - d) % n) == (if d <= w {
                w - d
            } else {
                w + n - d
            }) by {
                places_of_the_past(w as int, n, d);
            }
            assert forall|d: int| 1 <= d <= n implies #[trigger] ((next + n - d) % n) == (if d
                <= next {
                next - d
            } else {
                next + n - d
            }) by {
                places_of_the_past(next as int, n, d);
            }
            assert forall|ch: int, d: int| 0 <= ch < 2 && 1 <= d < n implies self.past(ch, d + 1)
                == #[trigger] old(self).past(ch, d) by {
                assert((w + n - d) % n == (if d <= w {
                    w - d
                } else {
                    w + n - d
                }));
                assert((next + n - (d + 1)) % n == (if d + 1 <= next {
                    next - (d + 1)
                } else {
                    next + n - (d + 1)
                }));
            }
            assert((next + n - 1) % n == w);
        }
    }
}

proof fn places_of_the_past(w: int, n: int, d: int)
    requires
        0 <= w < n,
        1 <= d <= n,
    ensures
        (w + n - d) % n == if d <= w {
            w - d
        } else {
            w + n - d
        },
{
    if d <= w {
        vstd::arithmetic::div_mod::lemma_mod_add_multiples_vanish(w - d, n);
        vstd::arithmetic::div_mod::lemma_small_mod((w - d) as nat, n as nat);
    } else {
        vstd::arithmetic::div_mod::lemma_small_mod((w + n - d) as nat, n as nat);
    }
}

/// The past is counted back from the place that is written next, and behind the start of the ring
/// it goes on at its end.
pub proof fn past_is_counted_back(line: DelayLine, ch: int, d: int)
    requires
        line.wf(),
        1 <= d <= line.frames(),
    ensures
        line.past(ch, d) == if d <= line.head() {
            line.channel(ch)[line.head() - d]
        } else {
            line.channel(ch)[line.head() + line.frames() - d]
        },
{
    places_of_the_past(line.head(), line.frames(), d);
}

} // verus!
