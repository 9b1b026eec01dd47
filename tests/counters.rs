use pipspeak::cli::{check_umi_len, resolve_umi_len, RunError};
use pipspeak::parser::{set_threads, write_to_fastq};
use pipspeak::stats::{summarize_counts, BarcodePartCounterMaps, BarcodeUmiCounter, BaseComposition, UMIBaseComposition, UmiCounter, Whitelist};

#[test]
fn umi_packing() {
    assert_eq!(UmiCounter::umi2u32(&b"ACGT".to_vec()), 27);
    assert_eq!(UmiCounter::umi2u32(&b"".to_vec()), 0);
    assert_eq!(UmiCounter::umi2u32(&b"TTTTTTTTTTTTTTTT".to_vec()), u32::MAX);
    assert_eq!(UmiCounter::umi2u32(&b"CAAAAAAAAAAAAAAA".to_vec()), 1 << 30);
}

#[test]
fn umi_packing_round_trips() {
    let umi = b"GATTACAGATTACAGT".to_vec();
    let mut code = UmiCounter::umi2u32(&umi);
    let mut back = Vec::new();
    for _ in 0..umi.len() {
        back.push([b'A', b'C', b'G', b'T'][(code % 4) as usize]);
        code /= 4;
    }
    back.reverse();
    assert_eq!(back, umi);
}

#[test]
fn umi_counter_counts() {
    let mut c = UmiCounter::new();
    c.add(&b"ACGT".to_vec());
    c.add(&b"ACGT".to_vec());
    c.add(&b"AAAA".to_vec());
    assert_eq!(c.entries(), vec![(27, 2), (0, 1)]);
}

#[test]
fn index_tuple_packing() {
    assert_eq!(BarcodeUmiCounter::barcodes2u32(&vec![1, 2, 3, 4]), 0x01020304);
    assert_eq!(BarcodeUmiCounter::barcodes2u32(&vec![300]), 0x2C000000);
    assert_eq!(BarcodeUmiCounter::barcodes2u32(&vec![1, 2, 3, 4, 5]), 0x01020304);
}

#[test]
fn index_tuple_counter() {
    let mut c = BarcodeUmiCounter::new();
    c.add(&[2, 1], &b"AC".to_vec());
    c.add(&[2, 1], &b"AC".to_vec());
    c.add(&[1, 1], &b"GG".to_vec());
    let e = c.entries();
    assert_eq!(e.len(), 2);
    assert_eq!(e[0], (vec![2, 1], vec![(1, 2)]));
    assert_eq!(e[1], (vec![1, 1], vec![(10, 1)]));
}

#[test]
fn position_counters() {
    let mut m = BarcodePartCounterMaps::new(2);
    m.add(5, 1);
    m.add(5, 1);
    m.add(3, 0);
    assert_eq!(m.len(), 2);
    assert_eq!(m.entries(1), vec![(5, 2)]);
    assert_eq!(m.entries(0), vec![(3, 1)]);
}

#[test]
fn base_composition() {
    let mut b = BaseComposition::zero();
    assert!(b.empty());
    b.add_base(b'N');
    b.add_base(b'G');
    assert_eq!((b.a, b.c, b.g, b.t, b.n), (0, 0, 1, 0, 1));
    assert!(!b.empty());
    let mut u = UMIBaseComposition::new(3);
    u.add(&b"AC".to_vec());
    assert_eq!(u.bases[0].a, 1);
    assert_eq!(u.bases[1].c, 1);
    assert!(u.bases[2].empty());
}

#[test]
fn whitelist_set_keeps_distinct_constructs() {
    let mut w = Whitelist::new();
    w.insert(b"ACGT".to_vec());
    w.insert(b"ACGT".to_vec());
    w.insert(b"TTTT".to_vec());
    assert_eq!(w.len(), 2);
    let mut v = w.to_vec();
    v.sort();
    assert_eq!(v, vec![b"ACGT".to_vec(), b"TTTT".to_vec()]);
}

#[test]
fn fastq_record_bytes() {
    let mut out = b"x".to_vec();
    write_to_fastq(&mut out, b"r1", b"ACGT", b"IIII");
    assert_eq!(out, b"x@r1\nACGT\n+\nIIII\n".to_vec());
}

#[test]
fn thread_split() {
    assert_eq!(set_threads(1), (1, 1));
    assert_eq!(set_threads(4), (2, 2));
    assert_eq!(set_threads(5), (2, 3));
    let (a, b) = set_threads(0);
    assert!(a >= 1 && b >= 1);
}

#[test]
fn umi_length_policy() {
    assert_eq!(resolve_umi_len(8, 12), 8);
    assert_eq!(resolve_umi_len(0, 12), 12);
    assert_eq!(check_umi_len(16), Ok(16));
    assert_eq!(check_umi_len(17), Err(RunError::UmiTooLong));
}

#[test]
fn umi_count_summary() {
    assert_eq!(summarize_counts(Vec::new()), None);
    let m = summarize_counts(vec![5, 1, 3, 2, 4, 9, 7, 8]).unwrap();
    assert_eq!(m.total, 39);
    assert_eq!(m.unique, 8);
    assert_eq!(m.median, 5);
    assert_eq!(m.q25, 3);
    assert_eq!(m.q75, 8);
    let one = summarize_counts(vec![u64::MAX]).unwrap();
    assert_eq!((one.total, one.median, one.q25, one.q75), (u64::MAX as u128, u64::MAX, u64::MAX, u64::MAX));
}
