//! Phase segmentation: a job's raw series of non-negative samples is cut into
//! its maximal contiguous runs of non-zero values. Zero is the separator;
//! runs of zeros, leading or trailing, produce no phase.
use vstd::prelude::*;

verus! {

/// Length of the leading run of non-zero values.
pub open spec fn run_len(s: Seq<u16>) -> int
    decreases s.len(),
{
    if s.len() == 0 || s[0] == 0 {
        0
    } else {
        1 + run_len(s.drop_first())
    }
}

pub proof fn lemma_run_len_bounds(s: Seq<u16>)
    ensures
        0 <= run_len(s) <= s.len(),
        forall|i: int| 0 <= i < run_len(s) ==> s[i] != 0,
        run_len(s) < s.len() ==> s[run_len(s)] == 0,
        s.len() > 0 && s[0] != 0 ==> run_len(s) >= 1,
    decreases s.len(),
{
    if s.len() == 0 || s[0] == 0 {
    } else {
        lemma_run_len_bounds(s.drop_first());
        assert forall|i: int| 0 <= i < run_len(s) implies s[i] != 0 by {
            if i > 0 {
                assert(s.drop_first()[i - 1] != 0);
            }
        }
    }
}

/// The leading run ends exactly at the first zero (or at the end).
pub proof fn lemma_run_len_is(s: Seq<u16>, k: int)
    requires
        0 <= k <= s.len(),
        forall|i: int| 0 <= i < k ==> s[i] != 0,
        k == s.len() || s[k] == 0,
    ensures
        run_len(s) == k,
    decreases k,
{
    if k == 0 {
    } else {
        assert(s[0] != 0);
        lemma_run_len_is(s.drop_first(), k - 1);
    }
}

/// The ordered phases of a series: its maximal non-zero runs, left to right.
pub open spec fn spec_phases(s: Seq<u16>) -> Seq<Seq<u16>>
    decreases s.len(),
    via spec_phases_dec
{
    if s.len() == 0 {
        Seq::<Seq<u16>>::empty()
    } else if s[0] == 0 {
        spec_phases(s.drop_first())
    } else {
        seq![s.take(run_len(s))] + spec_phases(s.skip(run_len(s)))
    }
}

#[via_fn]
proof fn spec_phases_dec(s: Seq<u16>) {
    if s.len() != 0 && s[0] != 0 {
        lemma_run_len_bounds(s);
    }
}

/// The views of the phase vectors, as a sequence of sequences.
pub open spec fn phase_seqs(r: Seq<Vec<u16>>) -> Seq<Seq<u16>> {
    r.map_values(|v: Vec<u16>| v@)
}

/// Every phase is non-empty and free of zeros.
pub proof fn lemma_phases_nonzero(s: Seq<u16>, i: int)
    requires
        0 <= i < spec_phases(s).len(),
    ensures
        spec_phases(s)[i].len() >= 1,
        forall|j: int| 0 <= j < spec_phases(s)[i].len() ==> spec_phases(s)[i][j] != 0,
    decreases s.len(),
{
    if s.len() == 0 {
    } else if s[0] == 0 {
        lemma_phases_nonzero(s.drop_first(), i);
    } else {
        lemma_run_len_bounds(s);
        if i == 0 {
            assert(spec_phases(s)[0] == s.take(run_len(s)));
            assert forall|j: int| 0 <= j < spec_phases(s)[0].len() implies spec_phases(s)[0][j]
                != 0 by {
                assert(s.take(run_len(s))[j] == s[j]);
            }
        } else {
            lemma_phases_nonzero(s.skip(run_len(s)), i - 1);
            assert(spec_phases(s)[i] == spec_phases(s.skip(run_len(s)))[i - 1]);
        }
    }
}

/// A series of zeros alone has no phases.
pub proof fn lemma_all_zero_no_phases(s: Seq<u16>)
    requires
        forall|i: int| 0 <= i < s.len() ==> s[i] == 0,
    ensures
        spec_phases(s).len() == 0,
    decreases s.len(),
{
    if s.len() > 0 {
        assert(s[0] == 0);
        lemma_all_zero_no_phases(s.drop_first());
    }
}

/// A series whose last value is non-zero ends in a phase: segmentation
/// yields at least one phase, and the last phase ends in that value.
pub proof fn lemma_trailing_phase(s: Seq<u16>)
    requires
        s.len() > 0,
        s[s.len() - 1] != 0,
    ensures
        spec_phases(s).len() >= 1,
        spec_phases(s).last().len() >= 1,
        spec_phases(s).last().last() == s[s.len() - 1],
    decreases s.len(),
{
    if s[0] == 0 {
        lemma_trailing_phase(s.drop_first());
        assert(s.drop_first()[s.len() - 2] == s[s.len() - 1]);
    } else {
        lemma_run_len_bounds(s);
        let rl = run_len(s);
        if rl == s.len() {
            assert(s.skip(rl).len() == 0);
            assert(spec_phases(s.skip(rl)).len() == 0);
            assert(spec_phases(s).last() == s.take(rl));
            assert(s.take(rl).last() == s[s.len() - 1]);
        } else {
            assert(s[rl] == 0);
            assert(s.skip(rl)[s.skip(rl).len() - 1] == s[s.len() - 1]);
            lemma_trailing_phase(s.skip(rl));
            assert(spec_phases(s).last() == spec_phases(s.skip(rl)).last());
        }
    }
}

/// Splits a series into its phases: the maximal runs of non-zero values,
/// in order of occurrence. A series without non-zero values, the empty one
/// included, yields no phase.
pub fn detect_phases(data: Vec<u16>) -> (r: Vec<Vec<u16>>)
    ensures
        phase_seqs(r@) == spec_phases(data@),
{
    let n: usize = data.len();
    let mut r: Vec<Vec<u16>> = Vec::new();
    let mut i: usize = 0;
    proof {
        assert(data@.subrange(0, n as int) =~= data@);
        assert(phase_seqs(Seq::<Vec<u16>>::empty()) + spec_phases(data@) =~= spec_phases(data@));
    }
    while i < n
        invariant
            n == data@.len(),
            i <= n,
            phase_seqs(r@) + spec_phases(data@.subrange(i as int, n as int)) == spec_phases(data@),
        decreases n - i,
    {
        if data[i] == 0 {
            proof {
                assert(data@.subrange(i as int, n as int).drop_first() =~= data@.subrange(
                    i as int + 1,
                    n as int,
                ));
            }
            i += 1;
        } else {
            let start: usize = i;
            let mut p: Vec<u16> = Vec::new();
            while i < n && data[i] != 0
                invariant
                    n == data@.len(),
                    start <= i <= n,
                    p@ == data@.subrange(start as int, i as int),
                    forall|k: int| start <= k < i ==> data@[k] != 0,
                decreases n - i,
            {
                p.push(data[i]);
                proof {
                    assert(data@.subrange(start as int, i as int).push(data@[i as int])
                        =~= data@.subrange(start as int, i as int + 1));
                }
                i += 1;
            }
            proof {
                let s = data@.subrange(start as int, n as int);
                assert forall|k: int| 0 <= k < i - start implies s[k] != 0 by {
                    assert(s[k] == data@[start + k]);
                }
                lemma_run_len_is(s, i - start);
                assert(s.take(i - start) =~= data@.subrange(start as int, i as int));
                assert(s.skip(i - start) =~= data@.subrange(i as int, n as int));
                assert(phase_seqs(r@.push(p)) =~= phase_seqs(r@).push(p@));
                assert(phase_seqs(r@).push(p@) + spec_phases(data@.subrange(i as int, n as int))
                    =~= phase_seqs(r@) + (seq![p@] + spec_phases(
                    data@.subrange(i as int, n as int),
                )));
            }
            r.push(p);
        }
    }
    proof {
        assert(data@.subrange(n as int, n as int) =~= Seq::<u16>::empty());
        assert(phase_seqs(r@) + Seq::<Seq<u16>>::empty() =~= phase_seqs(r@));
    }
    r
}

} // verus!
