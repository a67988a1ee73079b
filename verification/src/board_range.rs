use vstd::prelude::*;

verus! {

/// An ascending run of board indices: next, next + 1, ..., end - 1.
pub struct FwdRange {
    pub next: usize,
    pub end: usize,
}

impl FwdRange {
    /// The indices still to be handed out, in order.
    pub open spec fn remaining(self) -> Seq<int> {
        if self.next <= self.end {
            Seq::new((self.end - self.next) as nat, |k: int| self.next + k)
        } else {
            Seq::<int>::empty()
        }
    }

    /// How many indices are still to come.
    pub fn len(&self) -> (n: usize)
        ensures
            n == self.remaining().len(),
    {
        if self.next <= self.end {
            self.end - self.next
        } else {
            0
        }
    }
}

/// A descending run of board indices: upper - 1, upper - 2, ..., lower.
pub struct BwdRange {
    pub upper: usize,
    pub lower: usize,
}

impl BwdRange {
    /// The indices still to be handed out, in order.
    pub open spec fn remaining(self) -> Seq<int> {
        if self.lower <= self.upper {
            Seq::new((self.upper - self.lower) as nat, |k: int| self.upper - 1 - k)
        } else {
            Seq::<int>::empty()
        }
    }

    /// How many indices are still to come.
    pub fn len(&self) -> (n: usize)
        ensures
            n == self.remaining().len(),
    {
        if self.lower <= self.upper {
            self.upper - self.lower
        } else {
            0
        }
    }
}

/// The run of indices BoardRange::new hands out: empty when the modified
/// start leaves the board, descending from it to `end` when it does not
/// come before `end`, and ascending from it through `end` otherwise. Both
/// bounds are included.
pub open spec fn board_range_seq(start: int, start_modifier: int, end: int) -> Seq<int> {
    let s = start + start_modifier;
    if s > 7 || s < 0 {
        Seq::<int>::empty()
    } else if s >= end {
        Seq::new((s - end + 1) as nat, |k: int| s - k)
    } else {
        Seq::new((end - s + 1) as nat, |k: int| s + k)
    }
}

/// Type for generating a range for iterating the board in a safe and
/// convenient way.
pub enum BoardRange {
    Forward(FwdRange),
    Backward(BwdRange),
}

impl BoardRange {
    /// The indices still to be handed out, in order.
    pub open spec fn remaining(self) -> Seq<int> {
        match self {
            BoardRange::Forward(r) => r.remaining(),
            BoardRange::Backward(r) => r.remaining(),
        }
    }

    /// Build the range that starts at `start + start_modifier` and runs to
    /// `end`, both included: forward when the start lies before `end`,
    /// backward when it does not, and empty (forward) when the modified
    /// start leaves the board.
    pub fn new(start: usize, start_modifier: isize, end: usize) -> (r: BoardRange)
        requires
            start <= 8,
            -8 <= start_modifier <= 8,
            end <= 7,
        ensures
            r.remaining() == board_range_seq(start as int, start_modifier as int, end as int),
            ({
                let s = start as int + start_modifier as int;
                &&& (s > 7 || s < 0) ==> (r is Forward && r.remaining().len() == 0)
                &&& (0 <= s <= 7 && s >= end as int) ==> r is Backward
                &&& (0 <= s <= 7 && s < end as int) ==> r is Forward
            }),
    {
        let s = start as isize + start_modifier;
        let e = end as isize;
        // BoardRanges that begin off the board should be empty.
        if s > 7 || s < 0 {
            let r = BoardRange::Forward(FwdRange { next: 0, end: 0 });
            proof {
                assert(r.remaining() =~= board_range_seq(
                    start as int, start_modifier as int, end as int));
            }
            return r;
        }
        if s >= e {
            let r = BoardRange::Backward(BwdRange { upper: (s + 1) as usize, lower: end });
            proof {
                assert(r.remaining() =~= board_range_seq(
                    start as int, start_modifier as int, end as int));
            }
            return r;
        }
        let r = BoardRange::Forward(FwdRange { next: s as usize, end: end + 1 });
        proof {
            assert(r.remaining() =~= board_range_seq(
                start as int, start_modifier as int, end as int));
        }
        r
    }

    /// Hand out the next index of the run, or nothing once it is done.
    pub fn next(&mut self) -> (item: Option<usize>)
        ensures
            old(self).remaining().len() == 0 ==> item is None
                && final(self).remaining() == old(self).remaining(),
            old(self).remaining().len() > 0 ==> item == Some(old(self).remaining()[0] as usize)
                && final(self).remaining() == old(self).remaining().skip(1),
    {
        let (item, next_state): (Option<usize>, BoardRange) = match &*self {
            BoardRange::Forward(range) => {
                if range.next < range.end {
                    (
                        Some(range.next),
                        BoardRange::Forward(FwdRange { next: range.next + 1, end: range.end }),
                    )
                } else {
                    (None, BoardRange::Forward(FwdRange { next: range.next, end: range.end }))
                }
            },
            BoardRange::Backward(range) => {
                if range.upper > range.lower {
                    (
                        Some(range.upper - 1),
                        BoardRange::Backward(BwdRange { upper: range.upper - 1, lower: range.lower }),
                    )
                } else {
                    (
                        None,
                        BoardRange::Backward(BwdRange { upper: range.upper, lower: range.lower }),
                    )
                }
            },
        };
        *self = next_state;
        proof {
            if old(self).remaining().len() > 0 {
                assert(self.remaining() =~= old(self).remaining().skip(1));
            } else {
                assert(self.remaining() =~= old(self).remaining());
            }
        }
        item
    }
}

} // verus!
