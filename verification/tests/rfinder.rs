use bitfount::rfinder::{
    bert_bits_of, bert_pulses_of, decode_amt, has_amt_preamble, matchamt, packetize, validBitBert,
    validPulse, validPulseBert, validSymbolMotion,
};
use bitfount::rle::{rld, Run};

fn run(v: u64, ct: u64) -> Run {
    Run { v, ct }
}

#[test]
fn valid_pulse_bounds() {
    assert_eq!(validPulse(&run(1, 9)), None);
    assert_eq!(validPulse(&run(1, 10)), Some(run(1, 10)));
    assert_eq!(validPulse(&run(0, 25000)), Some(run(0, 25000)));
    assert_eq!(validPulse(&run(0, 25001)), None);
}

#[test]
fn valid_symbol_motion_classes() {
    assert_eq!(validSymbolMotion(&run(1, 649)), None);
    assert_eq!(validSymbolMotion(&run(1, 650)), Some(0));
    assert_eq!(validSymbolMotion(&run(1, 850)), Some(0));
    assert_eq!(validSymbolMotion(&run(1, 851)), None);
    assert_eq!(validSymbolMotion(&run(1, 2100)), Some(1));
    assert_eq!(validSymbolMotion(&run(1, 2300)), Some(1));
    assert_eq!(validSymbolMotion(&run(0, 22000)), Some(2));
    assert_eq!(validSymbolMotion(&run(0, 24000)), Some(2));
    assert_eq!(validSymbolMotion(&run(0, 24001)), None);
    assert_eq!(validSymbolMotion(&run(0, 700)), None);
    assert_eq!(validSymbolMotion(&run(2, 700)), None);
}

#[test]
fn valid_pulse_bert_quantises() {
    assert_eq!(validPulseBert(&run(1, 39)), None);
    assert_eq!(validPulseBert(&run(1, 40)), Some(run(1, 1)));
    assert_eq!(validPulseBert(&run(0, 70)), Some(run(0, 1)));
    assert_eq!(validPulseBert(&run(0, 75)), None);
    assert_eq!(validPulseBert(&run(1, 80)), Some(run(1, 2)));
    assert_eq!(validPulseBert(&run(0, 140)), Some(run(0, 2)));
    assert_eq!(validPulseBert(&run(0, 141)), None);
}

#[test]
fn valid_bit_bert_pairs() {
    assert_eq!(validBitBert(&[1, 0]), Some(1));
    assert_eq!(validBitBert(&[0, 1]), Some(0));
    assert_eq!(validBitBert(&[1, 1]), None);
    assert_eq!(validBitBert(&[0, 0]), None);
    assert_eq!(validBitBert(&[1]), None);
    assert_eq!(validBitBert(&[1, 0, 1]), None);
}

#[test]
fn packetize_splits_at_largest_symbol() {
    assert_eq!(packetize(vec![1, 2, 5, 3, 5, 4]), vec![vec![1, 2], vec![3]]);
    assert_eq!(packetize(vec![5, 5]), vec![Vec::<u64>::new(), Vec::new()]);
    assert_eq!(packetize(vec![1, 2, 3]), vec![vec![1, 2]]);
    assert_eq!(packetize(vec![]), Vec::<Vec<u64>>::new());
}

#[test]
fn packetize_reassembles_prefix() {
    let input = vec![0, 1, 2, 0, 2, 1, 1, 2, 0];
    let packets = packetize(input.clone());
    assert_eq!(packets.len(), 3);
    let mut joined = Vec::new();
    for p in &packets {
        assert!(p.iter().all(|&x| x < 2));
        joined.extend_from_slice(p);
        joined.push(2);
    }
    assert_eq!(&joined[..], &input[..8]);
}

#[test]
fn bert_pulses_drop_noise() {
    let runs = vec![run(1, 50), run(0, 5), run(0, 100), run(1, 300)];
    assert_eq!(bert_pulses_of(&runs), vec![run(1, 1), run(0, 2)]);
}

#[test]
fn bert_bits_decode_pairs() {
    assert_eq!(bert_bits_of(&vec![1, 0, 0, 1, 1, 1, 0, 1, 1]), vec![1, 0, 0]);
    assert_eq!(bert_bits_of(&vec![]), Vec::<u64>::new());
    assert_eq!(bert_bits_of(&vec![1]), Vec::<u64>::new());
}

fn manchester(bits: &[u64]) -> Vec<u64> {
    let mut out = Vec::new();
    for &b in bits {
        if b == 1 {
            out.push(1);
            out.push(0);
        } else {
            out.push(0);
            out.push(1);
        }
    }
    out
}

#[test]
fn manchester_roundtrip() {
    let bits = vec![1, 0, 1, 1, 0, 0, 0, 1];
    assert_eq!(bert_bits_of(&manchester(&bits)), bits);
}

const PREAMBLE: [u64; 21] = [1, 1, 1, 1, 1, 0, 0, 1, 0, 1, 0, 1, 0, 0, 1, 1, 0, 0, 0, 0, 0];

/// Run-length codes a Manchester half-bit stream, one half-bit lasting 55
/// samples, two lasting 110.
fn transmit(bits: &[u64]) -> Vec<Run> {
    let half = manchester(bits);
    let mut runs: Vec<Run> = Vec::new();
    let mut i = 0;
    while i < half.len() {
        let mut j = i;
        while j < half.len() && half[j] == half[i] {
            j += 1;
        }
        let n = (j - i) as u64;
        runs.push(run(half[i], if n == 1 { 55 } else { 110 }));
        i = j;
    }
    runs
}

fn amt_message() -> Vec<u64> {
    let mut bits = PREAMBLE.to_vec();
    for i in 0..75u64 {
        bits.push((i * 7 + i / 3) % 2);
    }
    bits
}

#[test]
fn matchamt_recognises_message() {
    let bits = amt_message();
    assert_eq!(bits.len(), 96);
    let runs = transmit(&bits);
    let d = decode_amt(&runs);
    let pulses: u64 = bert_pulses_of(&runs).len() as u64;
    assert_eq!(d.pulse_count as u64, pulses);
    let m = d.message.expect("an AMT message");
    assert_eq!(m.first, bits[30..52].to_vec());
    assert_eq!(m.second, bits[56..80].to_vec());
    assert!(matchamt(runs));
}

#[test]
fn matchamt_rejects_wrong_length() {
    let mut bits = amt_message();
    bits.pop();
    assert!(!matchamt(transmit(&bits)));
    let mut longer = amt_message();
    longer.push(1);
    assert!(!matchamt(transmit(&longer)));
}

#[test]
fn matchamt_rejects_wrong_preamble() {
    let mut bits = amt_message();
    bits[20] = 1;
    let d = decode_amt(&transmit(&bits));
    assert!(d.message.is_none());
    assert!(!matchamt(transmit(&bits)));
}

#[test]
fn matchamt_empty_input() {
    let d = decode_amt(&vec![]);
    assert_eq!(d.pulse_count, 0);
    assert!(d.message.is_none());
    assert!(!matchamt(vec![]));
}

#[test]
fn preamble_check() {
    assert!(has_amt_preamble(&PREAMBLE.to_vec()));
    assert!(!has_amt_preamble(&PREAMBLE[..20].to_vec()));
    let mut other = PREAMBLE.to_vec();
    other[0] = 0;
    assert!(!has_amt_preamble(&other));
}

#[test]
fn rld_expands_runs() {
    assert_eq!(rld(&vec![run(7, 2), run(0, 0), run(1, 3)]), vec![7, 7, 1, 1, 1]);
    assert_eq!(rld(&vec![]), Vec::<u64>::new());
}

#[test]
fn rld_distributes_over_concatenation() {
    let a = vec![run(1, 2), run(0, 1)];
    let b = vec![run(3, 3)];
    let mut ab = a.clone();
    ab.extend_from_slice(&b);
    let mut expected = rld(&a);
    expected.extend(rld(&b));
    assert_eq!(rld(&ab), expected);
}
