use rustfst::prelude::{
    ConstFst, MutableFst, SerializableFst, Semiring, Tr as OutsideTr, TropicalWeight, VectorFst,
};
use vosk_rust::fst::{Fst, FstState, Tr};
use vosk_rust::openfst::load_fst;
use vosk_rust::search::DecodeError;
use vosk_rust::single::Arith;
use vosk_rust::Decoder;

struct Native;

impl Arith for Native {
    fn add(a: u32, b: u32) -> u32 {
        (f32::from_bits(a) + f32::from_bits(b)).to_bits()
    }
    fn sub(a: u32, b: u32) -> u32 {
        (f32::from_bits(a) - f32::from_bits(b)).to_bits()
    }
    fn mul(a: u32, b: u32) -> u32 {
        (f32::from_bits(a) * f32::from_bits(b)).to_bits()
    }
    fn div(a: u32, b: u32) -> u32 {
        (f32::from_bits(a) / f32::from_bits(b)).to_bits()
    }
    fn pow(a: u32, b: u32) -> u32 {
        f32::from_bits(a).powf(f32::from_bits(b)).to_bits()
    }
    fn sqrt(a: u32) -> u32 {
        f32::from_bits(a).sqrt().to_bits()
    }
    fn ln(a: u32) -> u32 {
        f32::from_bits(a).ln().to_bits()
    }
    fn sin(a: u32) -> u32 {
        f32::from_bits(a).sin().to_bits()
    }
    fn cos(a: u32) -> u32 {
        f32::from_bits(a).cos().to_bits()
    }
    fn round(a: u32) -> u32 {
        f32::from_bits(a).round().to_bits()
    }
    fn to_usize(a: u32) -> usize {
        f32::from_bits(a) as usize
    }
    fn from_usize(n: usize) -> u32 {
        (n as f32).to_bits()
    }
    fn parse(text: &str) -> Option<u32> {
        text.parse::<f32>().ok().map(f32::to_bits)
    }
    fn gemm(_: usize, _: usize, _: usize, _: &Vec<u32>, _: &Vec<u32>) -> Vec<u32> {
        vec![]
    }
    fn fft(x: &Vec<(u32, u32)>) -> Vec<(u32, u32)> {
        x.clone()
    }
}

fn bits(v: f32) -> u32 {
    v.to_bits()
}

fn frames(rows: &[&[f32]]) -> Vec<Vec<u32>> {
    rows.iter().map(|r| r.iter().map(|v| v.to_bits()).collect()).collect()
}

fn tr(ilabel: u32, olabel: u32, weight: f32, nextstate: u32) -> Tr {
    Tr { ilabel, olabel, weight: bits(weight), nextstate }
}

fn state(trs: Vec<Tr>, last: Option<f32>) -> FstState {
    FstState { trs: Some(trs), final_weight: last.map(f32::to_bits) }
}

fn decode(
    d: &Decoder,
    f: &Fst,
    tid2pdf: &[i32],
    rows: &[&[f32]],
) -> Result<Vec<u32>, DecodeError> {
    d.decode::<Native>(f, tid2pdf, &frames(rows))
}

#[test]
fn decodes_two_word_path() {
    // 0 -(tid1 : word100)-> 1 -(tid2 : word200)-> 2(final)
    let fst = Fst {
        start: Some(0),
        states: vec![
            state(vec![tr(1, 100, 0.0, 1)], None),
            state(vec![tr(2, 200, 0.0, 2)], None),
            state(vec![], Some(0.0)),
        ],
    };
    let tid2pdf = vec![-1i32, 0, 1];
    let loglikes = frames(&[&[0.0f32, -9.0], &[-9.0f32, 0.0]]);
    let dec = Decoder::new(bits(15.0), bits(1.0));
    assert_eq!(dec.decode::<Native>(&fst, &tid2pdf, &loglikes), Ok(vec![100, 200]));
}

#[test]
fn decodes_two_word_path_from_a_file() {
    let mut fst = VectorFst::<TropicalWeight>::new();
    let s0 = fst.add_state();
    let s1 = fst.add_state();
    let s2 = fst.add_state();
    fst.set_start(s0).unwrap();
    fst.set_final(s2, TropicalWeight::one()).unwrap();
    fst.add_tr(s0, OutsideTr::new(1, 100, TropicalWeight::one(), s1)).unwrap();
    fst.add_tr(s1, OutsideTr::new(2, 200, TropicalWeight::one(), s2)).unwrap();
    let mut bytes: Vec<u8> = Vec::new();
    ConstFst::from(fst).store(&mut bytes).unwrap();
    let fst = load_fst(&bytes).unwrap();
    let dec = Decoder::new(bits(15.0), bits(1.0));
    assert_eq!(
        decode(&dec, &fst, &[-1, 0, 1], &[&[0.0, -9.0], &[-9.0, 0.0]]),
        Ok(vec![100, 200])
    );
}

fn fork() -> Fst {
    // Two ways from 0 to 3, over 1 (word 10) and over 2 (word 20).
    Fst {
        start: Some(0),
        states: vec![
            state(vec![tr(1, 10, 0.5, 1), tr(2, 20, 0.25, 2)], None),
            state(vec![tr(0, 11, 0.0, 3)], None),
            state(vec![tr(0, 21, 0.5, 3)], None),
            state(vec![], Some(0.0)),
        ],
    }
}

#[test]
fn cheapest_path_wins() {
    let dec = Decoder::new(bits(100.0), bits(1.0));
    assert_eq!(decode(&dec, &fork(), &[-1, 0, 1], &[&[0.0, 0.0]]), Ok(vec![10, 11]));
    assert_eq!(decode(&dec, &fork(), &[-1, 0, 1], &[&[-1.0, 0.0]]), Ok(vec![20, 21]));
}

#[test]
fn acoustic_scale_weighs_the_frames() {
    let dec = Decoder::new(bits(100.0), bits(0.0));
    assert_eq!(decode(&dec, &fork(), &[-1, 0, 1], &[&[-50.0, 0.0]]), Ok(vec![10, 11]));
}

#[test]
fn beam_drops_what_is_dearer() {
    // After one frame the way over 1 is dearer by 2, though cheaper in the end.
    let fst = Fst {
        start: Some(0),
        states: vec![
            state(vec![tr(1, 10, 2.0, 1), tr(1, 20, 0.0, 2)], None),
            state(vec![tr(1, 0, 0.0, 3)], None),
            state(vec![tr(1, 0, 9.0, 3)], None),
            state(vec![], Some(0.0)),
        ],
    };
    let wide = Decoder::new(bits(5.0), bits(1.0));
    let narrow = Decoder::new(bits(1.0), bits(1.0));
    let rows: [&[f32]; 2] = [&[0.0], &[0.0]];
    assert_eq!(decode(&wide, &fst, &[-1, 0], &rows), Ok(vec![10]));
    assert_eq!(decode(&narrow, &fst, &[-1, 0], &rows), Ok(vec![20]));
}

#[test]
fn limit_on_states_keeps_the_cheapest() {
    let fst = Fst {
        start: Some(0),
        states: vec![
            state(vec![tr(1, 10, 1.0, 1), tr(1, 20, 0.0, 2), tr(1, 30, 2.0, 3)], None),
            state(vec![tr(1, 0, 0.0, 4)], None),
            state(vec![tr(1, 0, 9.0, 4)], None),
            state(vec![tr(1, 0, 0.0, 4)], None),
            state(vec![], Some(0.0)),
        ],
    };
    let rows: [&[f32]; 2] = [&[0.0], &[0.0]];
    let all = Decoder::new(bits(50.0), bits(1.0));
    let two = Decoder::new(bits(50.0), bits(1.0)).with_max_active(2);
    let one = Decoder::new(bits(50.0), bits(1.0)).with_max_active(1);
    assert_eq!(decode(&all, &fst, &[-1, 0], &rows), Ok(vec![10]));
    assert_eq!(decode(&two, &fst, &[-1, 0], &rows), Ok(vec![10]));
    assert_eq!(decode(&one, &fst, &[-1, 0], &rows), Ok(vec![20]));
}

#[test]
fn limit_is_filled_where_states_tie() {
    let fst = Fst {
        start: Some(0),
        states: vec![
            state(vec![tr(1, 10, 0.0, 1), tr(1, 20, 1.0, 2), tr(1, 30, 1.0, 3)], None),
            state(vec![], None),
            state(vec![], Some(0.0)),
            state(vec![], Some(0.0)),
        ],
    };
    // One of the two that cost the same stays beside the cheapest.
    let two = Decoder::new(bits(50.0), bits(1.0)).with_max_active(2);
    let words = decode(&two, &fst, &[-1, 0], &[&[0.0]]).unwrap();
    assert!(words == vec![20] || words == vec![30]);
    // Of two that cost the same and are the cheapest, one stays.
    let pair = Fst {
        start: Some(0),
        states: vec![
            state(vec![tr(1, 10, 1.0, 1), tr(1, 20, 1.0, 2)], None),
            state(vec![], Some(0.0)),
            state(vec![], Some(0.0)),
        ],
    };
    let one = Decoder::new(bits(50.0), bits(1.0)).with_max_active(1);
    let words = decode(&one, &pair, &[-1, 0], &[&[0.0]]).unwrap();
    assert!(words == vec![10] || words == vec![20]);
}

#[test]
fn pdf_ids_may_be_renamed() {
    let dec = Decoder::new(bits(100.0), bits(1.0));
    let one = decode(&dec, &fork(), &[-1, 0, 1], &[&[-1.0, -4.0], &[-2.0, 0.5]]);
    let two = decode(&dec, &fork(), &[-1, 1, 0], &[&[-4.0, -1.0], &[0.5, -2.0]]);
    assert!(one.is_ok());
    assert_eq!(one, two);
}

#[test]
fn state_beyond_the_beam_is_not_looked_into() {
    // State 2 lacks its transitions, but costs too much to be kept.
    let fst = Fst {
        start: Some(0),
        states: vec![
            state(vec![tr(1, 10, 0.0, 1), tr(1, 20, 90.0, 2)], None),
            state(vec![], Some(0.0)),
            FstState { trs: None, final_weight: None },
        ],
    };
    let narrow = Decoder::new(bits(5.0), bits(1.0));
    assert_eq!(decode(&narrow, &fst, &[-1, 0], &[&[0.0]]), Ok(vec![10]));
    let wide = Decoder::new(bits(500.0), bits(1.0));
    assert_eq!(decode(&wide, &fst, &[-1, 0], &[&[0.0]]), Err(DecodeError::BrokenState));
}

#[test]
fn ends_in_the_cheapest_state_where_none_is_final() {
    let fst = Fst {
        start: Some(0),
        states: vec![
            state(vec![tr(1, 10, 3.0, 1), tr(1, 20, 1.0, 2)], None),
            state(vec![], None),
            state(vec![], None),
        ],
    };
    let dec = Decoder::new(bits(50.0), bits(1.0));
    assert_eq!(decode(&dec, &fst, &[-1, 0], &[&[0.0]]), Ok(vec![20]));
}

#[test]
fn final_cost_counts() {
    let fst = Fst {
        start: Some(0),
        states: vec![
            state(vec![tr(1, 10, 0.0, 1), tr(1, 20, 1.0, 2)], None),
            state(vec![], Some(5.0)),
            state(vec![], Some(0.5)),
        ],
    };
    let dec = Decoder::new(bits(50.0), bits(1.0));
    assert_eq!(decode(&dec, &fst, &[-1, 0], &[&[0.0]]), Ok(vec![20]));
}

#[test]
fn nothing_without_a_start() {
    let fst = Fst { start: None, states: vec![] };
    let dec = Decoder::new(bits(15.0), bits(1.0));
    assert_eq!(decode(&dec, &fst, &[], &[&[0.0]]), Ok(vec![]));
}

#[test]
fn no_frames_take_only_idle_transitions() {
    let fst = Fst {
        start: Some(0),
        states: vec![
            state(vec![tr(0, 7, 1.0, 1), tr(1, 8, 0.0, 1)], None),
            state(vec![], Some(0.0)),
        ],
    };
    let dec = Decoder::new(bits(15.0), bits(1.0));
    assert_eq!(decode(&dec, &fst, &[-1, 0], &[]), Ok(vec![7]));
}

#[test]
fn idle_cycles_end() {
    let fst = Fst {
        start: Some(0),
        states: vec![
            state(vec![tr(0, 7, 1.0, 1)], None),
            state(vec![tr(0, 8, 1.0, 0), tr(0, 9, 0.5, 2)], None),
            state(vec![], Some(0.0)),
        ],
    };
    let dec = Decoder::new(bits(15.0), bits(1.0));
    assert_eq!(decode(&dec, &fst, &[-1], &[]), Ok(vec![7, 9]));
}

#[test]
fn transition_id_out_of_range() {
    let fst = Fst { start: Some(0), states: vec![state(vec![tr(4, 1, 0.0, 0)], None)] };
    let dec = Decoder::new(bits(15.0), bits(1.0));
    assert_eq!(
        decode(&dec, &fst, &[-1, 0], &[&[0.0]]),
        Err(DecodeError::UnknownTransition)
    );
}

#[test]
fn pdf_out_of_range() {
    let fst = Fst { start: Some(0), states: vec![state(vec![tr(1, 1, 0.0, 0)], None)] };
    let dec = Decoder::new(bits(15.0), bits(1.0));
    assert_eq!(decode(&dec, &fst, &[-1, 3], &[&[0.0]]), Err(DecodeError::UnknownPdf));
    assert_eq!(decode(&dec, &fst, &[-1, -1], &[&[0.0]]), Err(DecodeError::UnknownPdf));
}

#[test]
fn state_without_its_transitions() {
    let fst = Fst {
        start: Some(0),
        states: vec![FstState { trs: None, final_weight: None }],
    };
    let dec = Decoder::new(bits(15.0), bits(1.0));
    assert_eq!(decode(&dec, &fst, &[-1], &[]), Err(DecodeError::BrokenState));
    assert_eq!(fst.max_ilabel(), None);
}

#[test]
fn idle_cost_that_is_no_number() {
    let dec = Decoder::new(bits(15.0), bits(1.0));
    // The state behind it is reached, but never the cheapest.
    let fst = Fst {
        start: Some(0),
        states: vec![
            state(vec![tr(0, 5, 2.0, 1), tr(0, 6, f32::NAN, 2), tr(1, 9, 0.0, 3)], None),
            state(vec![], Some(0.0)),
            state(vec![tr(1, 8, 0.0, 1)], Some(0.0)),
            state(vec![], Some(0.0)),
        ],
    };
    assert_eq!(decode(&dec, &fst, &[-1, 0], &[]), Ok(vec![5]));
    assert_eq!(decode(&dec, &fst, &[-1, 0], &[&[0.0]]), Ok(vec![9]));
    // A cycle at such a cost ends.
    let cycle = Fst { start: Some(0), states: vec![state(vec![tr(0, 1, f32::NAN, 0)], None)] };
    assert_eq!(decode(&dec, &cycle, &[-1], &[]), Ok(vec![]));
}

#[test]
fn costs_that_cannot_be_put_in_order() {
    let fst = Fst {
        start: Some(0),
        states: vec![
            state(vec![tr(1, 7, 0.0, 1)], None),
            state(vec![tr(0, 8, f32::NAN, 2)], Some(0.0)),
            state(vec![], None),
        ],
    };
    let one = Decoder::new(bits(15.0), bits(1.0)).with_max_active(1);
    assert_eq!(decode(&one, &fst, &[-1, 0], &[&[0.0]]), Err(DecodeError::NotANumber));
    let two = Decoder::new(bits(15.0), bits(1.0)).with_max_active(2);
    assert_eq!(decode(&two, &fst, &[-1, 0], &[&[0.0]]), Ok(vec![7]));
}

#[test]
fn frame_that_is_no_number_ends_a_path() {
    let dec = Decoder::new(bits(100.0), bits(1.0));
    assert_eq!(decode(&dec, &fork(), &[-1, 0, 1], &[&[f32::NAN, 0.0]]), Ok(vec![20, 21]));
}

#[test]
fn labels_of_a_transducer() {
    assert_eq!(fork().max_ilabel(), Some(2));
    assert_eq!(Fst { start: None, states: vec![] }.max_ilabel(), Some(0));
}

#[test]
fn answers_hold_no_empty_label() {
    let fst = Fst {
        start: Some(0),
        states: vec![
            state(vec![tr(1, 0, 0.0, 1)], None),
            state(vec![tr(0, 5, 0.0, 2), tr(1, 0, 0.0, 1)], None),
            state(vec![], Some(0.0)),
        ],
    };
    let dec = Decoder::new(bits(100.0), bits(1.0));
    assert_eq!(decode(&dec, &fst, &[-1, 0], &[&[0.0], &[0.0]]), Ok(vec![5]));
}

#[test]
fn later_costs_that_are_no_number_displace_numbers() {
    let dec = Decoder::new(bits(100.0), bits(1.0));
    let among = |weights: &[f32]| Fst {
        start: Some(0),
        states: vec![
            state(
                weights.iter().enumerate().map(|(i, w)| tr(0, 5 + i as u32, *w, 1)).collect(),
                None,
            ),
            state(vec![], Some(0.0)),
        ],
    };
    // The last one counts: a number takes the place of none, and is displaced by none.
    assert_eq!(decode(&dec, &among(&[f32::NAN, 1.0]), &[-1], &[]), Ok(vec![6]));
    assert_eq!(decode(&dec, &among(&[f32::NAN, 1.0, f32::NAN]), &[-1], &[]), Ok(vec![]));
    assert_eq!(decode(&dec, &among(&[1.0, f32::NAN, 2.0]), &[-1], &[]), Ok(vec![7]));
    assert_eq!(decode(&dec, &among(&[2.0, 1.0, 3.0]), &[-1], &[]), Ok(vec![6]));
    // A longer cycle at such a cost ends too.
    let cycle = Fst {
        start: Some(0),
        states: vec![
            state(vec![tr(0, 1, 0.0, 1)], None),
            state(vec![tr(0, 2, f32::NAN, 2)], Some(0.0)),
            state(vec![tr(0, 3, 0.0, 1)], None),
        ],
    };
    assert_eq!(decode(&dec, &cycle, &[-1], &[]), Ok(vec![1]));
}
