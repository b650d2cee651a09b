//! Classification of demodulated pulses and symbols, Manchester bit
//! decoding, packet framing and recognition of AMT meter transmissions.
use vstd::prelude::*;
use crate::rle::{Run, decoded, total_count, rld};
use crate::dsputils::{max, seq_max, lemma_seq_max, trim};

verus! {

/// A pulse is kept when it lasts between 10 and 25000 samples (both included).
pub open spec fn is_valid_pulse(r: Run) -> bool {
    10 <= r.ct <= 25000
}

/// Keeps a pulse of plausible length, drops any other.
#[allow(non_snake_case)]
pub fn validPulse(run: &Run) -> (out: Option<Run>)
    ensures
        out == (if is_valid_pulse(*run) { Some(*run) } else { None::<Run> }),
{
    if 10 <= run.ct && run.ct <= 25000 {
        Some(*run)
    } else {
        None
    }
}

/// The symbol that a run stands for in the motion-sensor protocol: a high
/// run of 650..=850 samples is a 0, of 2100..=2300 a 1; a low run of
/// 22000..=24000 samples is the gap symbol 2.
pub open spec fn symbol_motion(r: Run) -> Option<u64> {
    if r.v == 1 {
        if 650 <= r.ct <= 850 {
            Some(0u64)
        } else if 2100 <= r.ct <= 2300 {
            Some(1u64)
        } else {
            None
        }
    } else if r.v == 0 {
        if 22000 <= r.ct <= 24000 {
            Some(2u64)
        } else {
            None
        }
    } else {
        None
    }
}

/// Classifies a run as a motion-sensor symbol, if it is one.
#[allow(non_snake_case)]
pub fn validSymbolMotion(run: &Run) -> (out: Option<u64>)
    ensures
        out == symbol_motion(*run),
{
    if run.v == 1 {
        if 650 <= run.ct && run.ct <= 850 {
            Some(0)
        } else if 2100 <= run.ct && run.ct <= 2300 {
            Some(1)
        } else {
            None
        }
    } else if run.v == 0 {
        if 22000 <= run.ct && run.ct <= 24000 {
            Some(2)
        } else {
            None
        }
    } else {
        None
    }
}

/// A BERT pulse of 40..=70 samples is one half-bit long, one of 80..=140
/// samples two half-bits; anything else is noise.
pub open spec fn bert_pulse(r: Run) -> Option<Run> {
    if 40 <= r.ct <= 70 {
        Some(Run { v: r.v, ct: 1 })
    } else if 80 <= r.ct <= 140 {
        Some(Run { v: r.v, ct: 2 })
    } else {
        None
    }
}

/// Quantises a pulse to its length in half-bits, or drops it.
#[allow(non_snake_case)]
pub fn validPulseBert(run: &Run) -> (out: Option<Run>)
    ensures
        out == bert_pulse(*run),
{
    if 40 <= run.ct && run.ct <= 70 {
        Some(Run { v: run.v, ct: 1 })
    } else if 80 <= run.ct && run.ct <= 140 {
        Some(Run { v: run.v, ct: 2 })
    } else {
        None
    }
}

/// Manchester decoding of one pair of half-bits: high-low is a 1,
/// low-high a 0; any other chunk is no bit.
pub open spec fn bert_bit(chunk: Seq<u64>) -> Option<u64> {
    if chunk.len() == 2 && chunk[0] == 1 && chunk[1] == 0 {
        Some(1u64)
    } else if chunk.len() == 2 && chunk[0] == 0 && chunk[1] == 1 {
        Some(0u64)
    } else {
        None
    }
}

/// Decodes one Manchester-coded bit from a chunk of half-bits.
#[allow(non_snake_case)]
pub fn validBitBert(chunk: &[u64]) -> (out: Option<u64>)
    ensures
        out == bert_bit(chunk@),
{
    if chunk.len() == 2 {
        if chunk[0] == 1 && chunk[1] == 0 {
            Some(1)
        } else if chunk[0] == 0 && chunk[1] == 1 {
            Some(0)
        } else {
            None
        }
    } else {
        None
    }
}

/// Splitting a symbol stream at every occurrence of `brk`: the packets closed
/// so far (each ended by a `brk`, which is not kept) and the symbols read
/// since the last `brk`.
pub open spec fn split_at_breaks(s: Seq<u64>, brk: u64) -> (Seq<Seq<u64>>, Seq<u64>)
    decreases s.len(),
{
    if s.len() == 0 {
        (seq![], seq![])
    } else {
        let (done, open) = split_at_breaks(s.drop_last(), brk);
        if s.last() == brk {
            (done.push(open), seq![])
        } else {
            (done, open.push(s.last()))
        }
    }
}

/// The packets of a symbol stream: the stretches ended by the stream's
/// largest symbol, which serves as the break marker.  Symbols after the
/// last marker belong to no packet.
pub open spec fn packets(s: Seq<u64>) -> Seq<Seq<u64>> {
    split_at_breaks(s, seq_max(s)).0
}

/// Each packet followed by the marker, one after the other.
pub open spec fn join_terminated(ps: Seq<Seq<u64>>, brk: u64) -> Seq<u64>
    decreases ps.len(),
{
    if ps.len() == 0 {
        seq![]
    } else {
        join_terminated(ps.drop_last(), brk) + ps.last().push(brk)
    }
}

/// How often `x` occurs in `s`.
pub open spec fn occurrences(s: Seq<u64>, x: u64) -> nat
    decreases s.len(),
{
    if s.len() == 0 {
        0
    } else {
        occurrences(s.drop_last(), x) + (if s.last() == x { 1nat } else { 0nat })
    }
}

/// Splitting loses nothing: the closed packets, each with its marker put
/// back, followed by the open rest, give the stream back; there is one
/// packet per marker; and no marker is left inside a packet or the rest.
pub proof fn lemma_split_at_breaks(s: Seq<u64>, brk: u64)
    ensures
        join_terminated(split_at_breaks(s, brk).0, brk) + split_at_breaks(s, brk).1 == s,
        split_at_breaks(s, brk).0.len() == occurrences(s, brk),
        forall|j: int, k: int|
            0 <= j < split_at_breaks(s, brk).0.len() && 0 <= k < split_at_breaks(s, brk).0[j].len()
                ==> #[trigger] split_at_breaks(s, brk).0[j][k] != brk,
        !split_at_breaks(s, brk).1.contains(brk),
    decreases s.len(),
{
    if s.len() > 0 {
        let (done, open) = split_at_breaks(s.drop_last(), brk);
        lemma_split_at_breaks(s.drop_last(), brk);
        if s.last() == brk {
            let nd = done.push(open);
            assert(nd.drop_last() =~= done);
            assert(join_terminated(nd, brk) == join_terminated(done, brk) + open.push(brk));
            assert(join_terminated(done, brk) + open.push(brk) + seq![] =~= (join_terminated(done, brk) + open).push(brk));
            assert(s =~= s.drop_last().push(s.last()));
            assert forall|j: int, k: int| 0 <= j < nd.len() && 0 <= k < nd[j].len()
                implies #[trigger] nd[j][k] != brk by {
                if j < done.len() {
                    assert(nd[j] == done[j]);
                } else {
                    assert(nd[j] == open);
                    assert(open.contains(open[k]));
                }
            }
            assert(!Seq::<u64>::empty().contains(brk));
        } else {
            assert(join_terminated(done, brk) + open.push(s.last()) =~= (join_terminated(done, brk) + open).push(s.last()));
            assert(s =~= s.drop_last().push(s.last()));
            assert forall|x: u64| open.push(s.last()).contains(x) implies x != brk by {
                let w = choose|i: int| 0 <= i < open.push(s.last()).len() && open.push(s.last())[i] == x;
                if w < open.len() {
                    assert(open.contains(open[w]));
                }
            }
        }
    }
}

/// Every symbol inside a packet is strictly smaller than the marker, the
/// largest symbol of the stream.
pub proof fn lemma_packet_symbols_below_marker(s: Seq<u64>)
    ensures
        forall|j: int, k: int|
            0 <= j < packets(s).len() && 0 <= k < packets(s)[j].len()
                ==> #[trigger] packets(s)[j][k] < seq_max(s),
{
    let brk = seq_max(s);
    lemma_split_at_breaks(s, brk);
    lemma_seq_max(s);
    lemma_join_members(split_at_breaks(s, brk).0, split_at_breaks(s, brk).1, brk, s);
}

proof fn lemma_join_members(ps: Seq<Seq<u64>>, rest: Seq<u64>, brk: u64, s: Seq<u64>)
    requires
        join_terminated(ps, brk) + rest == s,
        forall|i: int| 0 <= i < s.len() ==> s[i] <= brk,
        forall|j: int, k: int| 0 <= j < ps.len() && 0 <= k < ps[j].len() ==> #[trigger] ps[j][k] != brk,
    ensures
        forall|j: int, k: int| 0 <= j < ps.len() && 0 <= k < ps[j].len() ==> #[trigger] ps[j][k] < brk,
    decreases ps.len(),
{
    if ps.len() > 0 {
        let init = ps.drop_last();
        let last = ps.last();
        let rest2 = last.push(brk) + rest;
        assert(join_terminated(init, brk) + rest2 =~= s);
        assert forall|j: int, k: int| 0 <= j < init.len() && 0 <= k < init[j].len() implies #[trigger] init[j][k] != brk by {
            assert(init[j] == ps[j]);
        }
        lemma_join_members(init, rest2, brk, s);
        assert forall|j: int, k: int| 0 <= j < ps.len() && 0 <= k < ps[j].len() implies #[trigger] ps[j][k] < brk by {
            if j < init.len() {
                assert(init[j] == ps[j]);
                assert(init[j][k] < brk);
            } else {
                let off = join_terminated(init, brk).len();
                assert(s[off + k] == rest2[k]);
                assert(rest2[k] == last[k]);
                assert(ps[j] == last);
            }
        }
    }
}

/// Splits a symbol stream into packets at its largest symbol: every time
/// that symbol occurs, the symbols read since the previous one form a
/// packet.  Symbols after the last occurrence are dropped.
pub fn packetize(input: Vec<u64>) -> (out: Vec<Vec<u64>>)
    ensures
        out@.map_values(|p: Vec<u64>| p@) == packets(input@),
{
    let brk = max(&input);
    let mut out: Vec<Vec<u64>> = Vec::new();
    let mut working: Vec<u64> = Vec::new();
    let mut i: usize = 0;
    while i < input.len()
        invariant
            i <= input.len(),
            brk == seq_max(input@),
            (out@.map_values(|p: Vec<u64>| p@), working@) == split_at_breaks(input@.take(i as int), brk),
        decreases input.len() - i,
    {
        let x = input[i];
        assert(input@.take(i + 1).drop_last() =~= input@.take(i as int));
        let ghost old_out = out@.map_values(|p: Vec<u64>| p@);
        if x == brk {
            let ghost w = working@;
            out.push(working);
            working = Vec::new();
            assert(out@.map_values(|p: Vec<u64>| p@) =~= old_out.push(w));
        } else {
            working.push(x);
            assert(out@.map_values(|p: Vec<u64>| p@) =~= old_out);
        }
        i = i + 1;
    }
    assert(input@.take(input.len() as int) =~= input@);
    out
}

/// The BERT pulses of a run list: each run quantised by `bert_pulse`,
/// noise dropped, order kept.
pub open spec fn bert_pulses(s: Seq<Run>) -> Seq<Run>
    decreases s.len(),
{
    if s.len() == 0 {
        seq![]
    } else {
        match bert_pulse(s.last()) {
            Some(p) => bert_pulses(s.drop_last()).push(p),
            None => bert_pulses(s.drop_last()),
        }
    }
}

/// The bits of a half-bit stream: consecutive pairs decoded by `bert_bit`,
/// undecodable pairs and a trailing odd half-bit dropped.
pub open spec fn bert_bits(s: Seq<u64>) -> Seq<u64>
    decreases s.len(),
{
    if s.len() < 2 {
        seq![]
    } else {
        match bert_bit(s.take(2)) {
            Some(b) => seq![b] + bert_bits(s.skip(2)),
            None => bert_bits(s.skip(2)),
        }
    }
}

/// Manchester encoding of a bit stream: a 1 is sent as high-low, a 0 as
/// low-high.
pub open spec fn manchester(bits: Seq<u64>) -> Seq<u64>
    decreases bits.len(),
{
    if bits.len() == 0 {
        seq![]
    } else {
        (if bits[0] == 1 { seq![1u64, 0u64] } else { seq![0u64, 1u64] }) + manchester(bits.skip(1))
    }
}

/// Half-bit decoding undoes Manchester encoding: any stream of 0s and 1s,
/// encoded and then decoded pair by pair, comes back unchanged.
pub proof fn lemma_manchester_roundtrip(bits: Seq<u64>)
    requires
        forall|i: int| 0 <= i < bits.len() ==> bits[i] <= 1,
    ensures
        bert_bits(manchester(bits)) == bits,
    decreases bits.len(),
{
    if bits.len() > 0 {
        let tail = bits.skip(1);
        lemma_manchester_roundtrip(tail);
        let head = if bits[0] == 1 { seq![1u64, 0u64] } else { seq![0u64, 1u64] };
        let m = manchester(bits);
        assert(m == head + manchester(tail));
        assert(m.take(2) =~= head);
        assert(m.skip(2) =~= manchester(tail));
        assert(bert_bit(head) == Some(bits[0]));
        assert(seq![bits[0]] + tail =~= bits);
    } else {
        assert(manchester(bits) =~= seq![]);
        assert(bits =~= seq![]);
    }
}

/// The bits carried by a demodulated run list.
pub open spec fn amt_bits(s: Seq<Run>) -> Seq<u64> {
    bert_bits(decoded(bert_pulses(s)))
}

/// The 21-bit preamble that opens every AMT message.
pub open spec fn amt_preamble() -> Seq<u64> {
    seq![1u64, 1, 1, 1, 1, 0, 0, 1, 0, 1, 0, 1, 0, 0, 1, 1, 0, 0, 0, 0, 0]
}

/// An AMT message is exactly 96 bits long and opens with the preamble.
pub open spec fn is_amt_message(bits: Seq<u64>) -> bool {
    bits.len() == 96 && bits.take(21) == amt_preamble()
}

/// Every BERT pulse lasts one or two half-bits.
pub proof fn lemma_bert_pulses_short(s: Seq<Run>)
    ensures
        bert_pulses(s).len() <= s.len(),
        forall|i: int| 0 <= i < bert_pulses(s).len() ==> 1 <= #[trigger] bert_pulses(s)[i].ct <= 2,
        total_count(bert_pulses(s)) <= 2 * bert_pulses(s).len(),
    decreases s.len(),
{
    if s.len() > 0 {
        lemma_bert_pulses_short(s.drop_last());
        match bert_pulse(s.last()) {
            Some(p) => {
                let q = bert_pulses(s.drop_last());
                assert(q.push(p).drop_last() =~= q);
                assert forall|i: int| 0 <= i < q.push(p).len() implies 1 <= #[trigger] q.push(p)[i].ct <= 2 by {
                    if i < q.len() {
                        assert(q.push(p)[i] == q[i]);
                    }
                }
            },
            None => {},
        }
    }
}

/// A run list whose BERT pulses expand to the Manchester code of an AMT
/// message is recognised as that message, and the fields read from it are
/// the message's own bits.
pub proof fn lemma_amt_transmission(runs: Seq<Run>, bits: Seq<u64>)
    requires
        forall|i: int| 0 <= i < bits.len() ==> bits[i] <= 1,
        is_amt_message(bits),
        decoded(bert_pulses(runs)) == manchester(bits),
    ensures
        is_amt_message(amt_bits(runs)),
        amt_bits(runs).subrange(30, 52) == bits.subrange(30, 52),
        amt_bits(runs).subrange(56, 80) == bits.subrange(56, 80),
{
    lemma_manchester_roundtrip(bits);
}

/// Keeps the BERT pulses of a run list, each quantised to one or two half-bits.
pub fn bert_pulses_of(bitstream: &Vec<Run>) -> (out: Vec<Run>)
    ensures
        out@ == bert_pulses(bitstream@),
{
    let mut out: Vec<Run> = Vec::new();
    let mut i: usize = 0;
    while i < bitstream.len()
        invariant
            i <= bitstream.len(),
            out@ == bert_pulses(bitstream@.take(i as int)),
        decreases bitstream.len() - i,
    {
        assert(bitstream@.take(i + 1).drop_last() =~= bitstream@.take(i as int));
        match validPulseBert(&bitstream[i]) {
            Some(p) => out.push(p),
            None => {},
        }
        i = i + 1;
    }
    assert(bitstream@.take(bitstream.len() as int) =~= bitstream@);
    out
}

/// Decodes a half-bit stream pair by pair into bits.
pub fn bert_bits_of(halfbits: &Vec<u64>) -> (out: Vec<u64>)
    ensures
        out@ == bert_bits(halfbits@),
{
    let mut out: Vec<u64> = Vec::new();
    let mut i: usize = 0;
    assert(halfbits@.skip(0) =~= halfbits@);
    assert(out@ + bert_bits(halfbits@) =~= bert_bits(halfbits@));
    while halfbits.len() - i >= 2
        invariant
            i <= halfbits.len(),
            out@ + bert_bits(halfbits@.skip(i as int)) == bert_bits(halfbits@),
        decreases halfbits.len() - i,
    {
        let chunk: Vec<u64> = vec![halfbits[i], halfbits[i + 1]];
        let ghost rest = halfbits@.skip(i as int);
        assert(rest.take(2) =~= chunk@);
        assert(rest.skip(2) =~= halfbits@.skip(i + 2));
        let ghost before = out@;
        match validBitBert(chunk.as_slice()) {
            Some(b) => {
                out.push(b);
                assert(out@ + bert_bits(halfbits@.skip(i + 2)) =~= before + bert_bits(rest));
            },
            None => {},
        }
        i = i + 2;
    }
    assert(out@ + bert_bits(halfbits@.skip(i as int)) =~= out@);
    out
}

/// Whether a bit stream opens with the AMT preamble.
pub fn has_amt_preamble(bits: &Vec<u64>) -> (out: bool)
    ensures
        out == (bits.len() >= 21 && bits@.take(21) == amt_preamble()),
        out == (bits.len() >= 21 && bits@.take(21) == seq![1u64, 1, 1, 1, 1, 0, 0, 1, 0, 1, 0, 1, 0, 0, 1, 1, 0, 0, 0, 0, 0]),
{
    let preamble: Vec<u64> = vec![1, 1, 1, 1, 1, 0, 0, 1, 0, 1, 0, 1, 0, 0, 1, 1, 0, 0, 0, 0, 0];
    assert(preamble@ =~= amt_preamble());
    if bits.len() < 21 {
        return false;
    }
    let mut i: usize = 0;
    while i < 21
        invariant
            i <= 21,
            bits.len() >= 21,
            preamble@ == amt_preamble(),
            bits@.take(i as int) == preamble@.take(i as int),
        decreases 21 - i,
    {
        if bits[i] != preamble[i] {
            assert(bits@.take(21)[i as int] != amt_preamble()[i as int]);
            return false;
        }
        i = i + 1;
        assert(bits@.take(i as int) =~= preamble@.take(i as int));
    }
    assert(preamble@.take(21) =~= preamble@);
    true
}

/// The two data fields that an AMT message carries: bits 30 to 51 and bits
/// 56 to 79 of the message.
pub struct AmtFields {
    pub first: Vec<u64>,
    pub second: Vec<u64>,
}

/// What decoding a demodulated run list yields: how many BERT pulses it
/// held, and the fields of the AMT message it carries, if it is one.
pub struct AmtDecode {
    pub pulse_count: usize,
    pub message: Option<AmtFields>,
}

/// Decodes a demodulated run list: quantises its pulses, expands them into
/// half-bits, Manchester-decodes the half-bits and, when the result is an
/// AMT message, extracts its two data fields.
pub fn decode_amt(bitstream: &Vec<Run>) -> (out: AmtDecode)
    requires
        bitstream.len() <= usize::MAX / 2,
    ensures
        out.pulse_count == bert_pulses(bitstream@).len(),
        out.message is Some <==> is_amt_message(amt_bits(bitstream@)),
        out.message is Some <==> (amt_bits(bitstream@).len() == 96 && amt_bits(bitstream@).take(21) == seq![1u64, 1, 1, 1, 1, 0, 0, 1, 0, 1, 0, 1, 0, 0, 1, 1, 0, 0, 0, 0, 0]),
        out.message matches Some(m) ==> {
            &&& m.first@ == amt_bits(bitstream@).subrange(30, 52)
            &&& m.second@ == amt_bits(bitstream@).subrange(56, 80)
        },
{
    let pulses = bert_pulses_of(bitstream);
    proof {
        lemma_bert_pulses_short(bitstream@);
        lemma_amt_message_shape(amt_bits(bitstream@));
    }
    let halfbits = rld(&pulses);
    let bits = bert_bits_of(&halfbits);
    let message = if bits.len() == 96 && has_amt_preamble(&bits) {
        Some(AmtFields { first: trim(&bits, 30, 52), second: trim(&bits, 56, 80) })
    } else {
        None
    };
    AmtDecode { pulse_count: pulses.len(), message }
}

/// Whether a demodulated run list carries an AMT message.
pub fn matchamt(bitstream: Vec<Run>) -> (out: bool)
    requires
        bitstream.len() <= usize::MAX / 2,
    ensures
        out == is_amt_message(amt_bits(bitstream@)),
        out == (amt_bits(bitstream@).len() == 96 && amt_bits(bitstream@).take(21) == seq![1u64, 1, 1, 1, 1, 0, 0, 1, 0, 1, 0, 1, 0, 0, 1, 1, 0, 0, 0, 0, 0]),
{
    proof {
        lemma_amt_message_shape(amt_bits(bitstream@));
    }
    decode_amt(&bitstream).message.is_some()
}

/// A pulse is kept exactly when it lasts 10 to 25000 samples, whatever its
/// level: pulses of equal length are kept or dropped alike.
pub proof fn lemma_valid_pulse_law(r: Run, q: Run)
    ensures
        is_valid_pulse(r) <==> (10 <= r.ct && r.ct <= 25000),
        r.ct > 25000 ==> !is_valid_pulse(r),
        r.ct < 10 ==> !is_valid_pulse(r),
        r.ct == q.ct ==> (is_valid_pulse(r) <==> is_valid_pulse(q)),
{
}

/// Motion symbols: 0 exactly for high runs of 650 to 850 samples, 1 exactly
/// for high runs of 2100 to 2300 samples, 2 exactly for low runs of 22000
/// to 24000 samples; every other run is no symbol.
pub proof fn lemma_symbol_motion_law(r: Run)
    ensures
        symbol_motion(r) == Some(0u64) <==> (r.v == 1 && 650 <= r.ct && r.ct <= 850),
        symbol_motion(r) == Some(1u64) <==> (r.v == 1 && 2100 <= r.ct && r.ct <= 2300),
        symbol_motion(r) == Some(2u64) <==> (r.v == 0 && 22000 <= r.ct && r.ct <= 24000),
        symbol_motion(r) is None <==> !((r.v == 1 && 650 <= r.ct && r.ct <= 850)
            || (r.v == 1 && 2100 <= r.ct && r.ct <= 2300)
            || (r.v == 0 && 22000 <= r.ct && r.ct <= 24000)),
        symbol_motion(r) matches Some(x) ==> x <= 2,
{
}

/// A BERT pulse keeps its level; it lasts one half-bit exactly when the run
/// lasts 40 to 70 samples, two exactly when it lasts 80 to 140 samples, and
/// any other run is dropped.
pub proof fn lemma_bert_pulse_law(r: Run)
    ensures
        bert_pulse(r) matches Some(p) ==> p.v == r.v,
        bert_pulse(r) == Some(Run { v: r.v, ct: 1 }) <==> (40 <= r.ct && r.ct <= 70),
        bert_pulse(r) == Some(Run { v: r.v, ct: 2 }) <==> (80 <= r.ct && r.ct <= 140),
        bert_pulse(r) is None <==> !((40 <= r.ct && r.ct <= 70) || (80 <= r.ct && r.ct <= 140)),
{
}

/// Keeping BERT pulses is an order-preserving filter: one run gives its own
/// quantised pulse or nothing, and a concatenation gives the concatenation.
pub proof fn lemma_bert_pulses_law(a: Seq<Run>, b: Seq<Run>, r: Run)
    ensures
        bert_pulses(seq![r]) == (match bert_pulse(r) {
            Some(p) => seq![p],
            None => Seq::<Run>::empty(),
        }),
        bert_pulses(a + b) == bert_pulses(a) + bert_pulses(b),
    decreases b.len(),
{
    assert(seq![r].drop_last() =~= Seq::<Run>::empty());
    assert(seq![r].last() == r);
    assert(bert_pulses(Seq::<Run>::empty()) =~= Seq::<Run>::empty());
    match bert_pulse(r) {
        Some(p) => {
            assert(bert_pulses(seq![r]) =~= Seq::<Run>::empty().push(p));
            assert(Seq::<Run>::empty().push(p) =~= seq![p]);
        },
        None => {},
    }
    if b.len() == 0 {
        assert(a + b =~= a);
        assert(bert_pulses(a) + bert_pulses(b) =~= bert_pulses(a));
    } else {
        lemma_bert_pulses_law(a, b.drop_last(), r);
        assert((a + b).drop_last() =~= a + b.drop_last());
        assert((a + b).last() == b.last());
        match bert_pulse(b.last()) {
            Some(p) => {
                assert(bert_pulses(a) + bert_pulses(b.drop_last()).push(p) =~= (bert_pulses(a) + bert_pulses(b.drop_last())).push(p));
            },
            None => {},
        }
    }
}

/// A pair of half-bits is a bit only as high-low (1) or low-high (0).
pub proof fn lemma_bert_bit_law(c: Seq<u64>)
    ensures
        bert_bit(c) == Some(1u64) <==> c == seq![1u64, 0u64],
        bert_bit(c) == Some(0u64) <==> c == seq![0u64, 1u64],
        bert_bit(c) is Some <==> (c == seq![1u64, 0u64] || c == seq![0u64, 1u64]),
{
    if c.len() == 2 {
        if c[0] == 1 && c[1] == 0 {
            assert(c =~= seq![1u64, 0u64]);
        }
        if c[0] == 0 && c[1] == 1 {
            assert(c =~= seq![0u64, 1u64]);
        }
    }
}

/// Pair-by-pair decoding: a leading high-low pair gives a 1, a leading
/// low-high pair a 0, any other leading pair (such as two equal half-bits)
/// gives nothing, and the rest is decoded on its own.  Fewer than two
/// half-bits give no bit, and there are never more bits than pairs.
pub proof fn lemma_bert_bits_law(s: Seq<u64>, a: u64, b: u64)
    ensures
        bert_bits(seq![1u64, 0u64] + s) == seq![1u64] + bert_bits(s),
        bert_bits(seq![0u64, 1u64] + s) == seq![0u64] + bert_bits(s),
        !((a == 1 && b == 0) || (a == 0 && b == 1)) ==> bert_bits(seq![a, b] + s) == bert_bits(s),
        bert_bits(seq![a, a] + s) == bert_bits(s),
        s.len() < 2 ==> bert_bits(s) == Seq::<u64>::empty(),
        bert_bits(s).len() <= s.len() / 2,
{
    let p10 = seq![1u64, 0u64] + s;
    assert(p10.take(2) =~= seq![1u64, 0u64]);
    assert(p10.skip(2) =~= s);
    let p01 = seq![0u64, 1u64] + s;
    assert(p01.take(2) =~= seq![0u64, 1u64]);
    assert(p01.skip(2) =~= s);
    let pab = seq![a, b] + s;
    assert(pab.take(2) =~= seq![a, b]);
    assert(pab.skip(2) =~= s);
    let paa = seq![a, a] + s;
    assert(paa.take(2) =~= seq![a, a]);
    assert(paa.skip(2) =~= s);
    lemma_bert_bits_len(s);
}

proof fn lemma_bert_bits_len(s: Seq<u64>)
    ensures
        bert_bits(s).len() <= s.len() / 2,
    decreases s.len(),
{
    if s.len() >= 2 {
        lemma_bert_bits_len(s.skip(2));
    }
}

/// A bit stream is an AMT message exactly when it has 96 bits and its first
/// 21 bits are 111110010101001100000.
pub proof fn lemma_amt_message_shape(bits: Seq<u64>)
    ensures
        is_amt_message(bits) <==> (bits.len() == 96 && bits.take(21) == seq![1u64, 1, 1, 1, 1, 0, 0, 1, 0, 1, 0, 1, 0, 0, 1, 1, 0, 0, 0, 0, 0]),
        is_amt_message(bits) ==> bits[0] == 1 && bits[5] == 0 && bits[20] == 0,
{
    if is_amt_message(bits) {
        assert(bits[0] == bits.take(21)[0]);
        assert(bits[5] == bits.take(21)[5]);
        assert(bits[20] == bits.take(21)[20]);
    }
}

} // verus!
