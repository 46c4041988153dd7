use rustfst::prelude::{
    ConstFst, MutableFst, SerializableFst, Semiring, Tr, TropicalWeight, VectorFst,
};
use vosk_rust::kaldi_io::ReadError;
use vosk_rust::openfst::load_fst;
use vosk_rust::transition_model::{TransitionError, TransitionModel};

fn sized(v: i32) -> Vec<u8> {
    let mut out = vec![4u8];
    out.extend(v.to_le_bytes());
    out
}

fn tuples(ts: &[(i32, i32)]) -> Vec<u8> {
    let mut data = b"\0B<TransitionModel> <Topology> junk <Tuples> ".to_vec();
    data.extend(sized(ts.len() as i32));
    for (forward, self_loop) in ts {
        data.extend(sized(1));
        data.extend(sized(0));
        data.extend(sized(*forward));
        data.extend(sized(*self_loop));
    }
    data
}

#[test]
fn tid2pdf_consistent_with_hclg() {
    let ts: Vec<(i32, i32)> = (0..6775).map(|i| (i % 3736, (i + 7) % 3736)).collect();
    let tm = TransitionModel::load(&tuples(&ts)).unwrap();
    assert_eq!(tm.num_transition_states, 6775);
    assert_eq!(tm.num_tids(), 2 * 6775);
    println!("num_pdfs={} num_tids={}", tm.num_pdfs, tm.num_tids());
    for &p in tm.tid2pdf.iter().skip(1) {
        assert!(p >= 0 && (p as usize) < tm.num_pdfs);
    }
    let mut vector = VectorFst::<TropicalWeight>::new();
    let s0 = vector.add_state();
    let s1 = vector.add_state();
    vector.set_start(s0).unwrap();
    vector.set_final(s1, TropicalWeight::one()).unwrap();
    vector.add_tr(s0, Tr::new(2 * 6775, 3, TropicalWeight::one(), s1)).unwrap();
    vector.add_tr(s0, Tr::new(17, 4, TropicalWeight::one(), s1)).unwrap();
    let mut bytes: Vec<u8> = Vec::new();
    ConstFst::from(vector).store(&mut bytes).unwrap();
    let fst = load_fst(&bytes).unwrap();
    let max_ilabel = fst.max_ilabel().unwrap();
    println!("HCLG max ilabel = {max_ilabel}, our num_tids = {}", tm.num_tids());
    assert!(max_ilabel as usize <= tm.num_tids(), "HCLG references a tid beyond the model");
    assert_eq!(max_ilabel, 2 * 6775);
}

#[test]
fn two_transition_ids_per_tuple() {
    let tm = TransitionModel::load(&tuples(&[(5, 2), (0, 9)])).unwrap();
    assert_eq!(tm.tid2pdf, vec![-1, 2, 5, 9, 0]);
    assert_eq!(tm.num_pdfs, 10);
    assert_eq!(tm.num_transition_states, 2);
    assert_eq!(tm.num_tids(), 4);
}

#[test]
fn no_tuples_at_all() {
    assert!(matches!(
        TransitionModel::load(b"<TransitionModel> "),
        Err(TransitionError::NoTuples)
    ));
}

#[test]
fn tuples_cut_short() {
    let mut data = tuples(&[(1, 2)]);
    data.pop();
    assert!(matches!(
        TransitionModel::load(&data),
        Err(TransitionError::Read(ReadError::UnexpectedEof))
    ));
    let mut negative = b"<Tuples> ".to_vec();
    negative.extend(sized(-2));
    assert!(matches!(
        TransitionModel::load(&negative),
        Err(TransitionError::Read(ReadError::NegativeLength))
    ));
}

#[test]
fn largest_pdf_cannot_be_counted() {
    assert!(matches!(
        TransitionModel::load(&tuples(&[(i32::MAX, 0)])),
        Err(TransitionError::PdfTooLarge)
    ));
}

#[test]
fn compact_package_holds_the_table() {
    let mut data = b"VRQ4".to_vec();
    for v in [32u32, 40, 7, 3] {
        data.extend(v.to_le_bytes());
    }
    for v in [-1i32, 4, 6] {
        data.extend(v.to_le_bytes());
    }
    let tm = TransitionModel::load_int4(&data).unwrap();
    assert_eq!(tm.tid2pdf, vec![-1, 4, 6]);
    assert_eq!(tm.num_pdfs, 7);
    assert_eq!(tm.num_transition_states, 1);
    data.pop();
    assert!(matches!(
        TransitionModel::load_int4(&data),
        Err(TransitionError::Read(ReadError::UnexpectedEof))
    ));
}
