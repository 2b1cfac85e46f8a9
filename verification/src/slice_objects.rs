//! Slice descriptors: addressing intents in position space and label space,
//! their fully resolved form, and slice joining.

use crate::errors::IndexingError;
use vstd::prelude::*;

verus! {

/// Addressing intent over cell ids (label space).  Any bound may be absent;
/// `start` and `stop` are both inclusive when present.
#[derive(Debug, Clone, Copy, PartialEq, Eq, Hash)]
pub struct CellIdSlice {
    pub start: Option<u64>,
    pub stop: Option<u64>,
    pub step: Option<u64>,
}

/// Addressing intent in position space.  Any bound may be absent; absent or
/// negative bounds are resolved against a known size by [`PositionalSlice::indices`].
#[derive(Debug, Clone, Copy, PartialEq, Eq, Hash)]
pub struct PositionalSlice {
    pub start: Option<i64>,
    pub stop: Option<i64>,
    pub step: Option<i64>,
}

/// Fully resolved half-open stride range in position space: no absent bounds.
#[derive(Debug, Clone, Copy, PartialEq, Eq, Structural, Hash)]
pub struct ConcreteSlice {
    pub start: i64,
    pub stop: i64,
    pub step: i64,
}

/// Ordered collection of concrete position slices, used when one logical
/// selection maps to several disjoint position spans.
#[derive(Debug, Clone, PartialEq, Eq)]
pub struct MultiConcreteSlice {
    pub slices: Vec<ConcreteSlice>,
}

/// `x` clamped into `[lo, hi]`.
pub open spec fn clamp_spec(x: int, lo: int, hi: int) -> int {
    if x < lo {
        lo
    } else if x > hi {
        hi
    } else {
        x
    }
}

/// Number of elements selected by the stride range `[start, stop)` with the
/// given (non-zero) step.
pub open spec fn slice_len_spec(start: int, stop: int, step: int) -> int {
    if step > 0 {
        if stop > start {
            (stop - start + step - 1) / step
        } else {
            0
        }
    } else if step < 0 {
        if start > stop {
            (start - stop - step - 1) / (-step)
        } else {
            0
        }
    } else {
        0
    }
}

pub proof fn lemma_slice_len_nonneg(start: int, stop: int, step: int)
    ensures
        slice_len_spec(start, stop, step) >= 0,
{
    if step > 0 && stop > start {
        vstd::arithmetic::div_mod::lemma_div_pos_is_pos(stop - start + step - 1, step);
    } else if step < 0 && start > stop {
        vstd::arithmetic::div_mod::lemma_div_pos_is_pos(start - stop - step - 1, -step);
    }
}

/// A list of slices can be joined into one exactly when every adjacent pair
/// shares the same step and is positionally contiguous.
pub open spec fn joinable_spec(s: Seq<ConcreteSlice>) -> bool {
    forall|i: int|
        0 <= i && i + 1 < s.len() ==> ((#[trigger] s[i]).step == s[i + 1].step && s[i].stop
            == s[i + 1].start)
}

/// Total number of elements selected by a list of slices.
pub open spec fn multi_len_spec(s: Seq<ConcreteSlice>) -> int
    decreases s.len(),
{
    if s.len() == 0 {
        0
    } else {
        s[0].len_spec() + multi_len_spec(s.drop_first())
    }
}

pub proof fn lemma_multi_len_nonneg(s: Seq<ConcreteSlice>)
    ensures
        multi_len_spec(s) >= 0,
    decreases s.len(),
{
    if s.len() > 0 {
        lemma_slice_len_nonneg(s[0].start as int, s[0].stop as int, s[0].step as int);
        lemma_multi_len_nonneg(s.drop_first());
    }
}

pub proof fn lemma_multi_len_split(s: Seq<ConcreteSlice>, i: int)
    requires
        0 <= i <= s.len(),
    ensures
        multi_len_spec(s) == multi_len_spec(s.take(i)) + multi_len_spec(s.skip(i)),
    decreases i,
{
    if i == 0 {
        assert(s.take(0) =~= Seq::<ConcreteSlice>::empty());
        assert(s.skip(0) =~= s);
    } else {
        lemma_multi_len_split(s.drop_first(), i - 1);
        assert(s.take(i).drop_first() =~= s.drop_first().take(i - 1));
        assert(s.skip(i) =~= s.drop_first().skip(i - 1));
        assert(multi_len_spec(s.take(i)) == s[0].len_spec() + multi_len_spec(
            s.drop_first().take(i - 1),
        ));
    }
}

impl ConcreteSlice {
    /// Number of positions this slice selects.
    pub open spec fn len_spec(self) -> int {
        slice_len_spec(self.start as int, self.stop as int, self.step as int)
    }

    /// Compute the size of the slice.
    ///
    /// Fails with `InvalidArgument` exactly when the step is zero.
    pub fn size(&self) -> (r: Result<u64, IndexingError>)
        ensures
            self.step == 0 <==> r == Err::<u64, IndexingError>(IndexingError::InvalidArgument),
            self.step != 0 ==> (r matches Ok(n) && n as int == self.len_spec()),
    {
        if self.step == 0 {
            return Err(IndexingError::InvalidArgument);
        }
        let start = self.start as i128;
        let stop = self.stop as i128;
        let step = self.step as i128;
        if step > 0 {
            if stop > start {
                let d = (stop - start) as u128;
                let su = step as u128;
                let n = (d + su - 1) / su;
                proof {
                    assert(d + su - 1 <= d * su) by (nonlinear_arith)
                        requires
                            d >= 1 && su >= 1,
                    ;
                    vstd::arithmetic::div_mod::lemma_div_is_ordered(
                        d as int + su - 1,
                        d as int * su as int,
                        su as int,
                    );
                    vstd::arithmetic::div_mod::lemma_div_by_multiple(d as int, su as int);
                }
                Ok(n as u64)
            } else {
                Ok(0)
            }
        } else {
            if start > stop {
                let d = (start - stop) as u128;
                let su = (-step) as u128;
                let n = (d + su - 1) / su;
                proof {
                    assert(d + su - 1 <= d * su) by (nonlinear_arith)
                        requires
                            d >= 1 && su >= 1,
                    ;
                    vstd::arithmetic::div_mod::lemma_div_is_ordered(
                        d as int + su - 1,
                        d as int * su as int,
                        su as int,
                    );
                    vstd::arithmetic::div_mod::lemma_div_by_multiple(d as int, su as int);
                }
                Ok(n as u64)
            } else {
                Ok(0)
            }
        }
    }

    /// The `(start, stop, step)` triple of the slice.
    pub fn indices(&self) -> (r: (i64, i64, i64))
        ensures
            r == (self.start, self.stop, self.step),
    {
        (self.start, self.stop, self.step)
    }

    /// Join a list of slices into a single one.
    ///
    /// Succeeds exactly when the list is non-empty and every adjacent pair
    /// shares the same step and is positionally contiguous
    /// (`prev.stop == next.start`); the join then runs from the first slice's
    /// start to the last slice's stop.
    pub fn join_slices(slices: Vec<ConcreteSlice>) -> (r: Result<ConcreteSlice, IndexingError>)
        ensures
            slices@.len() == 0 ==> r == Err::<ConcreteSlice, IndexingError>(
                IndexingError::InvalidArgument,
            ),
            slices@.len() > 0 && joinable_spec(slices@) ==> r == Ok::<ConcreteSlice, IndexingError>(
                (ConcreteSlice {
                    start: slices@[0].start,
                    stop: slices@.last().stop,
                    step: slices@[0].step,
                }),
            ),
            slices@.len() > 0 && !joinable_spec(slices@) ==> r == Err::<
                ConcreteSlice,
                IndexingError,
            >(IndexingError::NotContiguous),
    {
        if slices.len() == 0 {
            return Err(IndexingError::InvalidArgument);
        }
        let n = slices.len();
        let mut i: usize = 0;
        while i < n - 1
            invariant
                n == slices@.len(),
                1 <= n,
                0 <= i <= n,
                forall|j: int|
                    0 <= j && j + 1 <= i as int ==> ((#[trigger] slices@[j]).step == slices@[j
                        + 1].step && slices@[j].stop == slices@[j + 1].start),
            decreases n - i,
        {
            if slices[i].step != slices[i + 1].step || slices[i].stop != slices[i + 1].start {
                return Err(IndexingError::NotContiguous);
            }
            i = i + 1;
        }
        Ok(
            ConcreteSlice {
                start: slices[0].start,
                stop: slices[n - 1].stop,
                step: slices[0].step,
            },
        )
    }

    /// Join a list of slices; alias of [`ConcreteSlice::join_slices`].
    pub fn join(slices: Vec<ConcreteSlice>) -> (r: Result<ConcreteSlice, IndexingError>)
        ensures
            slices@.len() == 0 ==> r == Err::<ConcreteSlice, IndexingError>(
                IndexingError::InvalidArgument,
            ),
            slices@.len() > 0 && joinable_spec(slices@) ==> r == Ok::<ConcreteSlice, IndexingError>(
                (ConcreteSlice {
                    start: slices@[0].start,
                    stop: slices@.last().stop,
                    step: slices@[0].step,
                }),
            ),
            slices@.len() > 0 && !joinable_spec(slices@) ==> r == Err::<
                ConcreteSlice,
                IndexingError,
            >(IndexingError::NotContiguous),
    {
        Self::join_slices(slices)
    }
}

impl PositionalSlice {
    /// Build a positional slice from optional bounds.
    pub fn new(start: Option<i64>, stop: Option<i64>, step: Option<i64>) -> (r: PositionalSlice)
        ensures
            r == (PositionalSlice { start, stop, step }),
    {
        PositionalSlice { start, stop, step }
    }

    /// The step to resolve with: an absent step counts as one.
    pub open spec fn step_spec(self) -> int {
        match self.step {
            Some(v) => v as int,
            None => 1,
        }
    }

    /// The resolved start bound against a sequence of length `len`: absent
    /// bounds default to the first position in iteration order, negative
    /// bounds count from the end, and everything is clamped to `[0, len]`
    /// (`[-1, len - 1]` for a negative step).
    pub open spec fn resolved_start_spec(self, len: int) -> int {
        let step = self.step_spec();
        let lower: int = if step < 0 {
            -1
        } else {
            0
        };
        let upper: int = if step < 0 {
            len - 1
        } else {
            len
        };
        match self.start {
            Some(v) => clamp_spec(
                if v < 0 {
                    v + len
                } else {
                    v as int
                },
                lower,
                upper,
            ),
            None => if step < 0 {
                upper
            } else {
                lower
            },
        }
    }

    /// The resolved stop bound against a sequence of length `len`; see
    /// [`PositionalSlice::resolved_start_spec`].
    pub open spec fn resolved_stop_spec(self, len: int) -> int {
        let step = self.step_spec();
        let lower: int = if step < 0 {
            -1
        } else {
            0
        };
        let upper: int = if step < 0 {
            len - 1
        } else {
            len
        };
        match self.stop {
            Some(v) => clamp_spec(
                if v < 0 {
                    v + len
                } else {
                    v as int
                },
                lower,
                upper,
            ),
            None => if step < 0 {
                lower
            } else {
                upper
            },
        }
    }

    /// Construct concrete indices against a known size.
    ///
    /// Fails with `InvalidArgument` exactly when the step is given as zero.
    pub fn indices(&self, size: i64) -> (r: Result<(i64, i64, i64), IndexingError>)
        requires
            size >= 0,
        ensures
            self.step == Some(0i64) <==> r == Err::<(i64, i64, i64), IndexingError>(
                IndexingError::InvalidArgument,
            ),
            self.step != Some(0i64) ==> (r matches Ok(t) && t.0 as int == self.resolved_start_spec(
                size as int,
            ) && t.1 as int == self.resolved_stop_spec(size as int) && t.2 as int
                == self.step_spec()),
    {
        let step: i64 = match self.step {
            Some(v) => v,
            None => 1,
        };
        if step == 0 {
            return Err(IndexingError::InvalidArgument);
        }
        let lower: i64 = if step < 0 {
            -1
        } else {
            0
        };
        let upper: i64 = if step < 0 {
            size - 1
        } else {
            size
        };
        let start: i64 = match self.start {
            Some(v) => {
                let shifted = if v < 0 {
                    v + size
                } else {
                    v
                };
                if shifted < lower {
                    lower
                } else if shifted > upper {
                    upper
                } else {
                    shifted
                }
            },
            None => if step < 0 {
                upper
            } else {
                lower
            },
        };
        let stop: i64 = match self.stop {
            Some(v) => {
                let shifted = if v < 0 {
                    v + size
                } else {
                    v
                };
                if shifted < lower {
                    lower
                } else if shifted > upper {
                    upper
                } else {
                    shifted
                }
            },
            None => if step < 0 {
                lower
            } else {
                upper
            },
        };
        Ok((start, stop, step))
    }

    /// Resolve to a concrete slice against a known size.
    ///
    /// After resolution no bound is negative, except that with a negative
    /// step the stop may be `-1` (one before the first position).
    pub fn as_concrete(&self, size: i64) -> (r: Result<ConcreteSlice, IndexingError>)
        requires
            size >= 0,
        ensures
            self.step == Some(0i64) <==> r == Err::<ConcreteSlice, IndexingError>(
                IndexingError::InvalidArgument,
            ),
            self.step != Some(0i64) ==> (r matches Ok(s) && s.start as int
                == self.resolved_start_spec(size as int) && s.stop as int
                == self.resolved_stop_spec(size as int) && s.step as int == self.step_spec()),
    {
        match self.indices(size) {
            Ok((start, stop, step)) => Ok(ConcreteSlice { start, stop, step }),
            Err(e) => Err(e),
        }
    }
}

impl MultiConcreteSlice {
    /// Total number of positions selected by the slices together.
    ///
    /// Fails with `InvalidArgument` when a slice has a zero step or the total
    /// does not fit in 64 bits.
    pub fn size(&self) -> (r: Result<u64, IndexingError>)
        ensures
            r matches Ok(n) ==> n as int == multi_len_spec(self.slices@),
            r is Ok <==> ((forall|i: int|
                0 <= i < self.slices@.len() ==> (#[trigger] self.slices@[i]).step != 0)
                && multi_len_spec(self.slices@) <= u64::MAX),
            r is Err ==> r == Err::<u64, IndexingError>(IndexingError::InvalidArgument),
    {
        let n = self.slices.len();
        let mut acc: u64 = 0;
        let mut i: usize = 0;
        while i < n
            invariant
                n == self.slices@.len(),
                0 <= i <= n,
                acc as int == multi_len_spec(self.slices@.take(i as int)),
                forall|j: int| 0 <= j < i as int ==> (#[trigger] self.slices@[j]).step != 0,
            decreases n - i,
        {
            let sz = match self.slices[i].size() {
                Ok(v) => v,
                Err(_) => {
                    return Err(IndexingError::InvalidArgument);
                },
            };
            proof {
                lemma_multi_len_split(self.slices@, i as int);
                lemma_multi_len_split(self.slices@, i + 1 as int);
                assert(self.slices@.take(i + 1 as int).drop_first() =~= self.slices@.drop_first().take(
                    i as int,
                ));
                lemma_multi_len_split(self.slices@.skip(i as int), 1);
                assert(self.slices@.skip(i as int).take(1).drop_first() =~= Seq::<
                    ConcreteSlice,
                >::empty());
                assert(self.slices@.skip(i as int)[0] == self.slices@[i as int]);
                assert(self.slices@.skip(i as int).skip(1) =~= self.slices@.skip(i + 1 as int));
                assert(self.slices@.take(i + 1 as int) =~= self.slices@.take(i as int).push(
                    self.slices@[i as int],
                ));
                lemma_multi_len_take_succ(self.slices@, i as int);
            }
            if acc > u64::MAX - sz {
                proof {
                    lemma_multi_len_split(self.slices@, i + 1 as int);
                    lemma_multi_len_nonneg(self.slices@.skip(i + 1 as int));
                }
                return Err(IndexingError::InvalidArgument);
            }
            acc = acc + sz;
            i = i + 1;
        }
        proof {
            assert(self.slices@.take(n as int) =~= self.slices@);
        }
        Ok(acc)
    }
}

/// One step of accumulation: the length of a prefix grows by the length of
/// the next slice.
pub proof fn lemma_multi_len_take_succ(s: Seq<ConcreteSlice>, i: int)
    requires
        0 <= i < s.len(),
    ensures
        multi_len_spec(s.take(i + 1)) == multi_len_spec(s.take(i)) + s[i].len_spec(),
    decreases i,
{
    if i == 0 {
        assert(s.take(1).drop_first() =~= Seq::<ConcreteSlice>::empty());
        assert(s.take(0) =~= Seq::<ConcreteSlice>::empty());
        assert(s.take(1)[0] == s[0]);
    } else {
        lemma_multi_len_take_succ(s.drop_first(), i - 1);
        assert(s.take(i + 1).drop_first() =~= s.drop_first().take(i));
        assert(s.take(i).drop_first() =~= s.drop_first().take(i - 1));
        assert(s.take(i + 1)[0] == s[0]);
        assert(s.take(i)[0] == s[0]);
        assert(s.drop_first()[i - 1] == s[i]);
    }
}

} // verus!
