//! Small utilities on sample and symbol buffers.
use vstd::prelude::*;

verus! {

/// The largest value of a sequence; 0 for the empty sequence.
pub open spec fn seq_max(s: Seq<u64>) -> u64
    decreases s.len(),
{
    if s.len() == 0 {
        0
    } else if seq_max(s.drop_last()) < s.last() {
        s.last()
    } else {
        seq_max(s.drop_last())
    }
}

/// `seq_max` bounds every element, and is one of them when there are any.
pub proof fn lemma_seq_max(s: Seq<u64>)
    ensures
        forall|i: int| 0 <= i < s.len() ==> s[i] <= seq_max(s),
        s.len() > 0 ==> s.contains(seq_max(s)),
    decreases s.len(),
{
    if s.len() > 0 {
        lemma_seq_max(s.drop_last());
        assert forall|i: int| 0 <= i < s.len() implies s[i] <= seq_max(s) by {
            if i < s.len() - 1 {
                assert(s[i] == s.drop_last()[i]);
            }
        }
        if seq_max(s.drop_last()) < s.last() {
            assert(s[s.len() - 1] == seq_max(s));
        } else if s.len() == 1 {
            assert(s[0] == seq_max(s));
        } else {
            let w = choose|j: int| 0 <= j < s.drop_last().len() && s.drop_last()[j] == seq_max(s.drop_last());
            assert(s[w] == seq_max(s));
        }
    }
}

/// The largest value in `v` (0 when `v` is empty).
pub fn max(v: &Vec<u64>) -> (m: u64)
    ensures
        m == seq_max(v@),
        forall|i: int| 0 <= i < v.len() ==> v[i] <= m,
        v.len() > 0 ==> v@.contains(m),
{
    let mut m: u64 = 0;
    let mut i: usize = 0;
    while i < v.len()
        invariant
            i <= v.len(),
            m == seq_max(v@.take(i as int)),
        decreases v.len() - i,
    {
        assert(v@.take(i + 1).drop_last() =~= v@.take(i as int));
        if m < v[i] {
            m = v[i];
        }
        i = i + 1;
    }
    assert(v@.take(v.len() as int) =~= v@);
    proof {
        lemma_seq_max(v@);
    }
    m
}

/// The elements of `data` whose index `x` satisfies `lo <= x < hi`, in order;
/// indices past the end of `data` select nothing.
pub fn trim<T: Copy>(data: &Vec<T>, lo: usize, hi: usize) -> (out: Vec<T>)
    requires
        lo <= hi,
    ensures
        out@ == data@.subrange(
            if lo <= data.len() { lo as int } else { data.len() as int },
            if hi <= data.len() { hi as int } else { data.len() as int },
        ),
{
    let end = if hi <= data.len() { hi } else { data.len() };
    let start = if lo <= end { lo } else { end };
    let mut out: Vec<T> = Vec::new();
    let mut i: usize = start;
    while i < end
        invariant
            start <= i <= end,
            end <= data.len(),
            out@ == data@.subrange(start as int, i as int),
        decreases end - i,
    {
        out.push(data[i]);
        i = i + 1;
        assert(out@ =~= data@.subrange(start as int, i as int));
    }
    out
}

/// `x` repeated `n` times.
pub open spec fn filled<T>(x: T, n: nat) -> Seq<T> {
    Seq::new(n, |_i: int| x)
}

/// Surrounds `data` with `before` copies of `fill` in front and `after`
/// copies behind, as done to centre a block in a transform frame.
pub fn pad<T: Copy>(data: &Vec<T>, before: usize, after: usize, fill: T) -> (out: Vec<T>)
    requires
        before + data.len() + after <= usize::MAX,
    ensures
        out@ == filled(fill, before as nat) + data@ + filled(fill, after as nat),
{
    let mut out: Vec<T> = Vec::new();
    let mut i: usize = 0;
    while i < before
        invariant
            i <= before,
            out@ == filled(fill, i as nat),
        decreases before - i,
    {
        out.push(fill);
        i = i + 1;
        assert(out@ =~= filled(fill, i as nat));
    }
    let mut j: usize = 0;
    while j < data.len()
        invariant
            i == before,
            j <= data.len(),
            out@ == filled(fill, before as nat) + data@.take(j as int),
        decreases data.len() - j,
    {
        out.push(data[j]);
        j = j + 1;
        assert(out@ =~= filled(fill, before as nat) + data@.take(j as int));
    }
    assert(data@.take(data.len() as int) =~= data@);
    let mut k: usize = 0;
    while k < after
        invariant
            k <= after,
            out@ == filled(fill, before as nat) + data@ + filled(fill, k as nat),
        decreases after - k,
    {
        out.push(fill);
        k = k + 1;
        assert(out@ =~= filled(fill, before as nat) + data@ + filled(fill, k as nat));
    }
    out
}

/// `filled(x, n)` is `n` copies of `x` and nothing else.
pub proof fn lemma_filled<T>(x: T, n: nat)
    ensures
        filled(x, n).len() == n,
        forall|i: int| 0 <= i < n ==> #[trigger] filled(x, n)[i] == x,
{
}

/// Cutting the padded stretch back out of a padded block gives the block:
/// `trim(pad(d, b, a, f), b, b + d.len())` is `d`.
pub proof fn lemma_trim_undoes_pad<T>(data: Seq<T>, before: nat, after: nat, fill: T)
    ensures
        (filled(fill, before) + data + filled(fill, after)).subrange(before as int, (before + data.len()) as int) == data,
{
    assert((filled(fill, before) + data + filled(fill, after)).subrange(before as int, (before + data.len()) as int) =~= data);
}

/// Places `data` in the middle of a frame of `frame` elements filled with
/// `fill`: `(frame - data.len()) / 2` fill values in front, the rest
/// behind.  This is how a filter kernel or a signal block is laid out in
/// an FFT frame for fast convolution.
pub fn center_in_frame<T: Copy>(data: &Vec<T>, frame: usize, fill: T) -> (out: Vec<T>)
    requires
        data.len() <= frame,
    ensures
        out.len() == frame,
        out@ == filled(fill, ((frame - data.len()) / 2) as nat) + data@
            + filled(fill, (frame - data.len() - (frame - data.len()) / 2) as nat),
{
    let before = (frame - data.len()) / 2;
    let after = frame - data.len() - before;
    pad(data, before, after, fill)
}

/// The offset of each tap of an `n`-tap FIR filter from the filter's
/// centre: tap `i` sits at `i - (n - 1) / 2`.
pub fn tap_offsets(n: usize) -> (out: Vec<i64>)
    requires
        n <= i64::MAX,
    ensures
        out.len() == n,
        forall|i: int| 0 <= i < n ==> #[trigger] out@[i] == i - (n - 1) / 2,
{
    let mut out: Vec<i64> = Vec::new();
    if n == 0 {
        return out;
    }
    let mid: i64 = ((n - 1) / 2) as i64;
    let mut i: usize = 0;
    while i < n
        invariant
            i <= n,
            n <= i64::MAX,
            n > 0,
            mid == (n - 1) / 2,
            out.len() == i,
            forall|j: int| 0 <= j < i ==> #[trigger] out@[j] == j - (n - 1) / 2,
        decreases n - i,
    {
        out.push(i as i64 - mid);
        i = i + 1;
    }
    out
}

/// Every `k`-th element of `s`, starting with the first.
pub open spec fn every_nth<T>(s: Seq<T>, k: nat) -> Seq<T>
    decreases s.len(),
{
    if s.len() == 0 || k == 0 {
        seq![]
    } else if s.len() <= k {
        seq![s[0]]
    } else {
        seq![s[0]] + every_nth(s.skip(k as int), k)
    }
}

proof fn lemma_every_nth_len<T>(s: Seq<T>, k: nat)
    requires
        k > 0,
    ensures
        every_nth(s, k).len() == (s.len() + k - 1) / (k as int),
    decreases s.len(),
{
    if s.len() > 0 && s.len() <= k {
        assert((s.len() + k - 1) / (k as int) == 1) by (nonlinear_arith)
            requires k > 0, 0 < s.len() <= k;
    } else if s.len() > 0 {
        lemma_every_nth_len(s.skip(k as int), k);
        assert((s.len() + k - 1) / (k as int) == (s.len() - k + k - 1) / (k as int) + 1) by (nonlinear_arith)
            requires k > 0, k <= s.len();
    } else {
        assert((k + (-1int)) / (k as int) == 0) by (nonlinear_arith)
            requires k > 0;
    }
}

proof fn lemma_every_nth_index<T>(s: Seq<T>, k: nat, j: int)
    requires
        k > 0,
        0 <= j < every_nth(s, k).len(),
    ensures
        j * (k as int) < s.len(),
        every_nth(s, k)[j] == s[j * (k as int)],
    decreases j,
{
    if j == 0 {
        assert(j * (k as int) == 0) by (nonlinear_arith)
            requires j == 0;
    } else {
        let rest = s.skip(k as int);
        let i = j - 1;
        lemma_every_nth_index(rest, k, i);
        assert(j * (k as int) == i * (k as int) + k) by (nonlinear_arith)
            requires j == i + 1;
    }
}

/// `every_nth` keeps exactly the elements whose index is a multiple of `k`:
/// it has one element per such index, and its `j`-th element is `s[j * k]`.
pub proof fn lemma_every_nth<T>(s: Seq<T>, k: nat)
    requires
        k > 0,
    ensures
        every_nth(s, k).len() == (s.len() + k - 1) / (k as int),
        forall|j: int| 0 <= j < every_nth(s, k).len() ==> #[trigger] index_times(j, k) < s.len(),
        forall|j: int| 0 <= j < every_nth(s, k).len() ==> #[trigger] every_nth(s, k)[j] == s[index_times(j, k)],
{
    lemma_every_nth_len(s, k);
    assert forall|j: int| 0 <= j < every_nth(s, k).len() implies #[trigger] index_times(j, k) < s.len() by {
        lemma_every_nth_index(s, k, j);
    }
    assert forall|j: int| 0 <= j < every_nth(s, k).len() implies #[trigger] every_nth(s, k)[j] == s[index_times(j, k)] by {
        lemma_every_nth_index(s, k, j);
    }
}

/// The index `j * k`.
pub open spec fn index_times(j: int, k: nat) -> int {
    j * (k as int)
}

/// Thins `data` down to at most `width` points for display: keeps the
/// elements whose index is a multiple of `data.len() / width + 1`.
pub fn downsample_to_width<T: Copy>(data: &Vec<T>, width: usize) -> (out: Vec<T>)
    requires
        width > 0,
        data.len() / width < usize::MAX,
    ensures
        out@ == every_nth(data@, (data.len() / width + 1) as nat),
        out.len() == (data.len() + data.len() / width) / ((data.len() / width + 1) as int),
        forall|j: int| 0 <= j < out.len() ==> #[trigger] out@[j] == data@[index_times(j, (data.len() / width + 1) as nat)],
{
    let step: usize = data.len() / width + 1;
    let mut out: Vec<T> = Vec::new();
    let mut i: usize = 0;
    assert(data@.skip(0) =~= data@);
    while i < data.len()
        invariant
            step > 0,
            step == data.len() / width + 1,
            i <= data.len(),
            out@ + every_nth(data@.skip(i as int), step as nat) == every_nth(data@, step as nat),
        decreases data.len() - i,
    {
        let ghost before = out@;
        let ghost rest = data@.skip(i as int);
        out.push(data[i]);
        if data.len() - i <= step {
            assert(out@ =~= before + every_nth(rest, step as nat));
            i = data.len();
        } else {
            assert(rest.skip(step as int) =~= data@.skip(i + step));
            assert(out@ + every_nth(data@.skip(i + step), step as nat) =~= before + every_nth(rest, step as nat));
            i = i + step;
        }
    }
    assert(every_nth(data@.skip(i as int), step as nat) =~= seq![]);
    assert(out@ + seq![] =~= out@);
    proof {
        lemma_every_nth(data@, step as nat);
    }
    out
}

} // verus!
