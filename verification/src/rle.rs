//! Run-length coded pulse trains.
use vstd::prelude::*;

verus! {

/// One run of a run-length coded signal: the value `v` repeated `ct` times.
#[derive(Clone, Copy, Debug, PartialEq, Eq)]
pub struct Run {
    pub v: u64,
    pub ct: u64,
}

/// `v` repeated `n` times.
pub open spec fn repeat(v: u64, n: nat) -> Seq<u64> {
    Seq::new(n, |_i: int| v)
}

/// The signal that a sequence of runs stands for: each run expanded in turn.
pub open spec fn decoded(runs: Seq<Run>) -> Seq<u64>
    decreases runs.len(),
{
    if runs.len() == 0 {
        seq![]
    } else {
        decoded(runs.drop_last()) + repeat(runs.last().v, runs.last().ct as nat)
    }
}

/// Total number of samples the runs expand to.
pub open spec fn total_count(runs: Seq<Run>) -> nat
    decreases runs.len(),
{
    if runs.len() == 0 {
        0
    } else {
        total_count(runs.drop_last()) + runs.last().ct as nat
    }
}

/// The decoded signal is as long as the counts add up to.
pub proof fn lemma_decoded_len(runs: Seq<Run>)
    ensures
        decoded(runs).len() == total_count(runs),
    decreases runs.len(),
{
    if runs.len() > 0 {
        lemma_decoded_len(runs.drop_last());
    }
}

/// Decoding distributes over concatenation: decoding two run lists one after
/// the other gives the decoding of their concatenation.
pub proof fn lemma_decoded_append(a: Seq<Run>, b: Seq<Run>)
    ensures
        decoded(a + b) == decoded(a) + decoded(b),
    decreases b.len(),
{
    if b.len() == 0 {
        assert(a + b =~= a);
        assert(decoded(b) =~= seq![]);
        assert(decoded(a) + decoded(b) =~= decoded(a));
    } else {
        lemma_decoded_append(a, b.drop_last());
        assert((a + b).drop_last() =~= a + b.drop_last());
        assert((a + b).last() == b.last());
        let r = repeat(b.last().v, b.last().ct as nat);
        assert(decoded(a) + decoded(b.drop_last()) + r =~= decoded(a) + (decoded(b.drop_last()) + r));
    }
}

/// A single run decodes to `ct` copies of its value, and appending a run
/// appends `ct` copies of its value to the decoding.
pub proof fn lemma_decoded_run(runs: Seq<Run>, r: Run)
    ensures
        decoded(seq![r]).len() == r.ct,
        forall|i: int| 0 <= i < r.ct ==> #[trigger] decoded(seq![r])[i] == r.v,
        decoded(seq![r]) == Seq::new(r.ct as nat, |_i: int| r.v),
        decoded(runs.push(r)) == decoded(runs) + Seq::new(r.ct as nat, |_i: int| r.v),
{
    assert(seq![r].drop_last() =~= Seq::<Run>::empty());
    assert(seq![r].last() == r);
    assert(decoded(Seq::<Run>::empty()) =~= Seq::<u64>::empty());
    assert(decoded(seq![r]) =~= Seq::<u64>::empty() + repeat(r.v, r.ct as nat));
    assert(decoded(seq![r]) =~= Seq::new(r.ct as nat, |_i: int| r.v));
    assert(runs.push(r).drop_last() =~= runs);
    assert(decoded(runs.push(r)) =~= decoded(runs) + Seq::new(r.ct as nat, |_i: int| r.v));
}

/// Run-length decoding: expands every run into `ct` copies of its value.
pub fn rld(runs: &Vec<Run>) -> (out: Vec<u64>)
    requires
        total_count(runs@) <= usize::MAX,
    ensures
        out@ == decoded(runs@),
{
    let mut out: Vec<u64> = Vec::new();
    let mut i: usize = 0;
    while i < runs.len()
        invariant
            i <= runs.len(),
            out@ == decoded(runs@.take(i as int)),
            total_count(runs@) <= usize::MAX,
        decreases runs.len() - i,
    {
        let r = runs[i];
        proof {
            assert(runs@.take(i + 1).drop_last() =~= runs@.take(i as int));
            lemma_decoded_len(runs@.take(i + 1));
            lemma_total_count_prefix(runs@, i + 1);
        }
        let ghost before = out@;
        let mut k: u64 = 0;
        while k < r.ct
            invariant
                k <= r.ct,
                out@ == before + repeat(r.v, k as nat),
                before.len() + r.ct <= usize::MAX,
            decreases r.ct - k,
        {
            out.push(r.v);
            k = k + 1;
            assert(out@ =~= before + repeat(r.v, k as nat));
        }
        i = i + 1;
    }
    assert(runs@.take(runs.len() as int) =~= runs@);
    out
}

/// The counts of a prefix never add up to more than those of the whole list.
pub proof fn lemma_total_count_prefix(runs: Seq<Run>, n: int)
    requires
        0 <= n <= runs.len(),
    ensures
        total_count(runs.take(n)) <= total_count(runs),
    decreases runs.len() - n,
{
    if n < runs.len() {
        lemma_total_count_prefix(runs, n + 1);
        assert(runs.take(n + 1).drop_last() =~= runs.take(n));
    } else {
        assert(runs.take(n) =~= runs);
    }
}

} // verus!
