//! Coarser copies of a signal: each level pairs up the samples of the one
//! before and holds one combined sample for every pair.

use crate::plugin::{answers, evaluate, is_pure, value_of};
use crate::stack_vec::StackVec;
use vstd::prelude::*;

verus! {

/// A signal of this length has a coarser level: it has at least four
/// samples and an even number of them.
pub open spec fn can_halve(len: int) -> bool {
    len >= 4 && len % 2 == 0
}

/// The next coarser level of `s`: sample `k` combines samples `2k` and
/// `2k + 1` of `s`.
pub open spec fn halved<T, D: Fn(&T, &T) -> T>(f: D, s: Seq<T>) -> Seq<T> {
    Seq::new((s.len() / 2) as nat, |k: int| value_of::<T, T, D>(f, s[2 * k], s[2 * k + 1]))
}

/// The combining function is known to return for every pair of samples that
/// halving `s` combines.
pub open spec fn halving_answered<T, D: Fn(&T, &T) -> T>(f: D, s: Seq<T>) -> bool {
    forall|k: int|
        0 <= k < s.len() / 2 ==> #[trigger] answers::<T, T, D>(f, s[2 * k], s[2 * k + 1])
}

/// The signal after `i` coarsenings; level 0 is the signal itself.
pub open spec fn level<T, D: Fn(&T, &T) -> T>(f: D, s: Seq<T>, i: int) -> Seq<T>
    decreases i,
{
    if i <= 0 {
        s
    } else {
        halved(f, level(f, s, i - 1))
    }
}

/// The length of a signal of length `len` after `i` coarsenings.
pub open spec fn level_len(len: int, i: int) -> int
    decreases i,
{
    if i <= 0 {
        len
    } else {
        level_len(len, i - 1) / 2
    }
}

/// How many coarser levels a signal of length `len` gets when at most
/// `limit` are asked for: coarsening goes on while the current level can be
/// halved.
pub open spec fn depth(len: int, limit: int) -> int
    decreases limit,
{
    if limit <= 0 || !can_halve(len) {
        0
    } else {
        1 + depth(len / 2, limit - 1)
    }
}

/// The number of levels that are built for a requested limit and a capacity:
/// the smaller of the two, or the capacity if no limit is given.
pub open spec fn effective_limit(downsample_limit: Option<usize>, capacity: int) -> int {
    match downsample_limit {
        Some(limit) => if limit <= capacity {
            limit as int
        } else {
            capacity
        },
        None => capacity,
    }
}

/// The length of a level depends on the length of the signal only.
pub proof fn lemma_level_len<T, D: Fn(&T, &T) -> T>(f: D, s: Seq<T>, i: int)
    ensures
        level(f, s, i).len() == level_len(s.len() as int, i),
    decreases i,
{
    if i > 0 {
        lemma_level_len(f, s, i - 1);
    }
}

/// Below the depth every level can be halved, and no level is longer than
/// the signal.
pub proof fn lemma_levels_below_depth(len: int, limit: int, i: int)
    requires
        0 <= i,
        i <= depth(len, limit),
        0 <= len,
    ensures
        0 <= level_len(len, i) <= len,
        i < depth(len, limit) ==> can_halve(level_len(len, i)),
        i > 0 ==> level_len(len, i) >= 2 && level_len(len, i - 1) == 2 * level_len(len, i),
        depth(len, limit) == i + depth(level_len(len, i), limit - i),
        depth(len, limit) <= limit || depth(len, limit) == 0,
    decreases i,
{
    lemma_depth_at_most_limit(len, limit);
    if i > 0 {
        lemma_levels_below_depth(len, limit, i - 1);
        let before = level_len(len, i - 1);
        lemma_depth_at_most_limit(before, limit - (i - 1));
        assert(depth(before, limit - (i - 1)) >= 1);
        assert(can_halve(before));
        assert(depth(before, limit - (i - 1)) == 1 + depth(before / 2, limit - i));
        assert(level_len(len, i) == before / 2);
    }
    lemma_depth_at_most_limit(level_len(len, i), limit - i);
    if i < depth(len, limit) {
        assert(depth(level_len(len, i), limit - i) >= 1);
    }
}

/// The depth never exceeds the limit.
pub proof fn lemma_depth_at_most_limit(len: int, limit: int)
    ensures
        0 <= depth(len, limit),
        depth(len, limit) <= limit || depth(len, limit) == 0,
    decreases limit,
{
    if limit > 0 && can_halve(len) {
        lemma_depth_at_most_limit(len / 2, limit - 1);
    }
}

/// One coarser level of a signal: its samples and their number.
#[derive(Debug)]
pub struct Downsample<SampleType> {
    pub signal: Vec<SampleType>,
    pub len: usize,
}

/// Combines the first `len` samples of `signal` in pairs.
fn combine_pairs<T, D: Fn(&T, &T) -> T>(signal: &[T], len: usize, downsample_fn: &D) -> (out: Vec<T>)
    requires
        len <= signal@.len(),
        is_pure::<T, T, D>(*downsample_fn),
    ensures
        out@ == halved(*downsample_fn, signal@.take(len as int)),
        halving_answered(*downsample_fn, signal@.take(len as int)),
{
    let mut out: Vec<T> = Vec::new();
    let half = len / 2;
    let ghost source = signal@.take(len as int);
    let mut t: usize = 0;
    while t < half
        invariant
            t <= half,
            half == len / 2,
            len <= signal@.len(),
            source == signal@.take(len as int),
            is_pure::<T, T, D>(*downsample_fn),
            out@.len() == t,
            forall|k: int|
                0 <= k < t ==> #[trigger] out@[k] == value_of::<T, T, D>(
                    *downsample_fn,
                    source[2 * k],
                    source[2 * k + 1],
                ),
            forall|k: int|
                0 <= k < t ==> #[trigger] answers::<T, T, D>(
                    *downsample_fn,
                    source[2 * k],
                    source[2 * k + 1],
                ),
        decreases half - t,
    {
        let item = evaluate(downsample_fn, &signal[t * 2], &signal[t * 2 + 1]);
        out.push(item);
        t += 1;
    }
    assert(out@ =~= halved(*downsample_fn, source));
    out
}

/// Builds the coarser levels of `signal`, finest first, until a level can
/// no longer be halved or the limit or the capacity is reached.
pub fn build_ladder<T, D: Fn(&T, &T) -> T, const MAX_DOWNSAMPLES: usize>(
    signal: &[T],
    downsample_fn: &D,
    downsample_limit: Option<usize>,
) -> (ladder: StackVec<Downsample<T>, MAX_DOWNSAMPLES>)
    requires
        is_pure::<T, T, D>(*downsample_fn),
    ensures
        ladder.wf(),
        is_ladder(
            ladder@,
            *downsample_fn,
            signal@,
            effective_limit(downsample_limit, MAX_DOWNSAMPLES as int),
        ),
{
    let mut downsamples = StackVec::<Downsample<T>, MAX_DOWNSAMPLES>::empty(false);
    let ds_limit = match downsample_limit {
        Some(limit) => if limit <= MAX_DOWNSAMPLES {
            limit
        } else {
            MAX_DOWNSAMPLES
        },
        None => MAX_DOWNSAMPLES,
    };
    let ghost f = *downsample_fn;
    let ghost n = signal@.len() as int;
    proof {
        lemma_depth_at_most_limit(n, ds_limit as int);
    }
    let mut i: usize = 0;
    while i < ds_limit
        invariant_except_break
            i == downsamples@.len(),
        invariant
            i <= ds_limit <= MAX_DOWNSAMPLES,
            downsamples.wf(),
            downsamples@.len() <= i,
            f == *downsample_fn,
            n == signal@.len(),
            is_pure::<T, T, D>(f),
            forall|j: int|
                0 <= j < downsamples@.len() ==> (#[trigger] downsamples@[j]).signal@ == level(
                    f,
                    signal@,
                    j + 1,
                ) && downsamples@[j].len == downsamples@[j].signal@.len(),
            forall|j: int|
                0 <= j < downsamples@.len() ==> halving_answered(f, #[trigger] level(f, signal@, j)),
            downsamples@.len() <= depth(n, ds_limit as int),
            depth(n, ds_limit as int) == downsamples@.len() + depth(
                level_len(n, downsamples@.len() as int),
                ds_limit - downsamples@.len(),
            ),
        ensures
            downsamples@.len() == depth(n, ds_limit as int),
        decreases ds_limit - i,
    {
        let count = downsamples.len();
        proof {
            lemma_level_len(f, signal@, count as int);
            lemma_depth_at_most_limit(level_len(n, count as int), ds_limit - count);
        }
        let next = if count == 0 {
            Downsample::create_one_from(signal, signal.len(), downsample_fn)
        } else {
            let last = downsamples.index(count - 1);
            Downsample::create_one_from(last.signal.as_slice(), last.len, downsample_fn)
        };
        match next {
            Some(ds) => {
                proof {
                    let source = level(f, signal@, count as int);
                    assert(source.take(source.len() as int) =~= source);
                    lemma_depth_at_most_limit(level_len(n, count + 1), ds_limit - count - 1);
                }
                downsamples.push(ds);
            },
            None => {
                break ;
            },
        }
        i += 1;
    }
    downsamples
}

/// The levels are the coarsenings 1, 2, ... of `s`, as many as `s` has
/// under the limit, each with its length recorded.
pub open spec fn is_ladder<T, D: Fn(&T, &T) -> T>(
    levels: Seq<Downsample<T>>,
    f: D,
    s: Seq<T>,
    limit: int,
) -> bool {
    &&& levels.len() == depth(s.len() as int, limit)
    &&& forall|j: int|
        0 <= j < levels.len() ==> (#[trigger] levels[j]).signal@ == level(f, s, j + 1) && levels[j].len
            == levels[j].signal@.len()
    &&& forall|j: int| 0 <= j < levels.len() ==> halving_answered(f, #[trigger] level(f, s, j))
}

impl<SampleType> Downsample<SampleType> {
    /// The next coarser level of the first `len` samples of `signal`, or
    /// `None` if `len` is below four or odd.
    pub fn create_one<D: Fn(&SampleType, &SampleType) -> SampleType>(
        signal: &[SampleType],
        len: usize,
        downsample_fn: D,
    ) -> (made: Option<Downsample<SampleType>>)
        requires
            len <= signal@.len(),
            is_pure::<SampleType, SampleType, D>(downsample_fn),
        ensures
            made.is_some() <==> can_halve(len as int),
            made.is_some() ==> made.unwrap().signal@ == halved(
                downsample_fn,
                signal@.take(len as int),
            ) && made.unwrap().len == len / 2 && halving_answered(
                downsample_fn,
                signal@.take(len as int),
            ),
    {
        Self::create_one_from(signal, len, &downsample_fn)
    }

    /// As `create_one`, with the combining function borrowed.
    pub fn create_one_from<D: Fn(&SampleType, &SampleType) -> SampleType>(
        signal: &[SampleType],
        len: usize,
        downsample_fn: &D,
    ) -> (made: Option<Downsample<SampleType>>)
        requires
            len <= signal@.len(),
            is_pure::<SampleType, SampleType, D>(*downsample_fn),
        ensures
            made.is_some() <==> can_halve(len as int),
            made.is_some() ==> made.unwrap().signal@ == halved(
                *downsample_fn,
                signal@.take(len as int),
            ) && made.unwrap().len == len / 2 && halving_answered(
                *downsample_fn,
                signal@.take(len as int),
            ),
    {
        if len < 4 || len % 2 != 0 {
            return None;
        }
        let ds_signal = combine_pairs(signal, len, downsample_fn);
        Some(Downsample { signal: ds_signal, len: len / 2 })
    }

    /// The coarser levels of `signal`, finest first: at most
    /// `downsample_limit` of them if a limit is given, and never more than
    /// `MAX_DOWNSAMPLES`.
    pub fn create_all<
        const MAX_DOWNSAMPLES: usize,
        D: Fn(&SampleType, &SampleType) -> SampleType,
    >(signal: &[SampleType], downsample_fn: D, downsample_limit: Option<usize>) -> (ladder:
        StackVec<Downsample<SampleType>, MAX_DOWNSAMPLES>)
        requires
            is_pure::<SampleType, SampleType, D>(downsample_fn),
        ensures
            ladder.wf(),
            is_ladder(
                ladder@,
                downsample_fn,
                signal@,
                effective_limit(downsample_limit, MAX_DOWNSAMPLES as int),
            ),
    {
        build_ladder(signal, &downsample_fn, downsample_limit)
    }
}

} // verus!
