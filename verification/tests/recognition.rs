use rustfft::num_complex::Complex;
use rustfft::FftPlanner;
use rustfst::prelude::{
    ConstFst, MutableFst, SerializableFst, Semiring, Tr as OutsideTr, TropicalWeight, VectorFst,
};
use std::f32::consts::PI;
use vosk_rust::components::LoadError;
use vosk_rust::mat::EvalError;
use vosk_rust::mfcc::Mfcc;
use vosk_rust::recognizer::{ModelError, RecognizeError, FULL_SCALE, SAMPLE_RATE};
use vosk_rust::search::DecodeError;
use vosk_rust::single::Arith;
use vosk_rust::stored::Stored;
use vosk_rust::transition_model::TransitionError;
use vosk_rust::Recognizer;

struct Native;

impl Arith for Native {
    fn add(a: u32, b: u32) -> u32 {
        (f32::from_bits(a) + f32::from_bits(b)).to_bits()
    }
    fn sub(a: u32, b: u32) -> u32 {
        (f32::from_bits(a) - f32::from_bits(b)).to_bits()
    }
    fn mul(a: u32, b: u32) -> u32 {
        (f32::from_bits(a) * f32::from_bits(b)).to_bits()
    }
    fn div(a: u32, b: u32) -> u32 {
        (f32::from_bits(a) / f32::from_bits(b)).to_bits()
    }
    fn pow(a: u32, b: u32) -> u32 {
        f32::from_bits(a).powf(f32::from_bits(b)).to_bits()
    }
    fn sqrt(a: u32) -> u32 {
        f32::from_bits(a).sqrt().to_bits()
    }
    fn ln(a: u32) -> u32 {
        f32::from_bits(a).ln().to_bits()
    }
    fn sin(a: u32) -> u32 {
        f32::from_bits(a).sin().to_bits()
    }
    fn cos(a: u32) -> u32 {
        f32::from_bits(a).cos().to_bits()
    }
    fn round(a: u32) -> u32 {
        f32::from_bits(a).round().to_bits()
    }
    fn to_usize(a: u32) -> usize {
        f32::from_bits(a) as usize
    }
    fn from_usize(n: usize) -> u32 {
        (n as f32).to_bits()
    }
    fn parse(text: &str) -> Option<u32> {
        text.parse::<f32>().ok().map(f32::to_bits)
    }
    fn gemm(rows: usize, ins: usize, outs: usize, x: &Vec<u32>, w: &Vec<u32>) -> Vec<u32> {
        let mut y = vec![0u32; rows * outs];
        for t in 0..rows {
            for o in 0..outs {
                let mut s = 0.0f32;
                for k in 0..ins {
                    s += f32::from_bits(x[t * ins + k]) * f32::from_bits(w[o * ins + k]);
                }
                y[t * outs + o] = s.to_bits();
            }
        }
        y
    }
    fn fft(x: &Vec<(u32, u32)>) -> Vec<(u32, u32)> {
        let mut buf: Vec<Complex<f32>> =
            x.iter().map(|z| Complex::new(f32::from_bits(z.0), f32::from_bits(z.1))).collect();
        FftPlanner::<f32>::new().plan_fft_forward(buf.len()).process(&mut buf);
        buf.iter().map(|z| (z.re.to_bits(), z.im.to_bits())).collect()
    }
}

/// Native arithmetic, but for a Fourier transform that gives nothing.
struct Deaf;

impl Arith for Deaf {
    fn add(a: u32, b: u32) -> u32 {
        Native::add(a, b)
    }
    fn sub(a: u32, b: u32) -> u32 {
        Native::sub(a, b)
    }
    fn mul(a: u32, b: u32) -> u32 {
        Native::mul(a, b)
    }
    fn div(a: u32, b: u32) -> u32 {
        Native::div(a, b)
    }
    fn pow(a: u32, b: u32) -> u32 {
        Native::pow(a, b)
    }
    fn sqrt(a: u32) -> u32 {
        Native::sqrt(a)
    }
    fn ln(a: u32) -> u32 {
        Native::ln(a)
    }
    fn sin(a: u32) -> u32 {
        Native::sin(a)
    }
    fn cos(a: u32) -> u32 {
        Native::cos(a)
    }
    fn round(a: u32) -> u32 {
        Native::round(a)
    }
    fn to_usize(a: u32) -> usize {
        Native::to_usize(a)
    }
    fn from_usize(n: usize) -> u32 {
        Native::from_usize(n)
    }
    fn parse(text: &str) -> Option<u32> {
        Native::parse(text)
    }
    fn gemm(_: usize, _: usize, _: usize, _: &Vec<u32>, _: &Vec<u32>) -> Vec<u32> {
        vec![]
    }
    fn fft(_: &Vec<(u32, u32)>) -> Vec<(u32, u32)> {
        vec![]
    }
}

fn mel(f: f32) -> f32 {
    1127.0 * (1.0 + f / 700.0).ln()
}

/// The cepstra of samples, worked out with floats.
fn cepstra(sr: f32, samples: &[f32]) -> Vec<Vec<f32>> {
    let frame_len = (0.025 * sr).round() as usize;
    let frame_shift = (0.010 * sr).round() as usize;
    let fft_size = frame_len.next_power_of_two();
    let nbins = fft_size / 2 + 1;
    let a = 2.0 * PI / (frame_len as f32 - 1.0);
    let (low, high) = (mel(20.0), mel(7600.0));
    let delta = (high - low) / 41.0;
    let mut out = vec![];
    if samples.len() < frame_len {
        return out;
    }
    for t in 0..(samples.len() - frame_len) / frame_shift + 1 {
        let frame = &samples[t * frame_shift..t * frame_shift + frame_len];
        let mut sum = 0.0f32;
        for x in frame {
            sum += x;
        }
        let mean = sum / frame_len as f32;
        let x: Vec<f32> = frame.iter().map(|v| v - mean).collect();
        let mut w: Vec<f32> =
            (0..frame_len).map(|i| x[i] - 0.97 * x[i.saturating_sub(1)]).collect();
        for (i, v) in w.iter_mut().enumerate() {
            *v *= (0.5 - 0.5 * (a * i as f32).cos()).powf(0.85);
        }
        let mut buf: Vec<Complex<f32>> = (0..fft_size)
            .map(|i| Complex::new(if i < frame_len { w[i] } else { 0.0 }, 0.0))
            .collect();
        FftPlanner::<f32>::new().plan_fft_forward(fft_size).process(&mut buf);
        let power: Vec<f32> = buf[..nbins].iter().map(|c| c.re * c.re + c.im * c.im).collect();
        let mut logmel = vec![];
        for m in 0..40usize {
            let l = low + m as f32 * delta;
            let c = low + (m + 1) as f32 * delta;
            let r = low + (m + 2) as f32 * delta;
            let mut e = 0.0f32;
            for (i, p) in power.iter().enumerate() {
                let ml = mel(sr / fft_size as f32 * i as f32);
                let mut wgt = 0.0;
                if ml > l && ml < r {
                    wgt = if ml <= c { (ml - l) / (c - l) } else { (r - ml) / (r - c) };
                }
                e += wgt * p;
            }
            logmel.push(e.max(f32::EPSILON).ln());
        }
        let mut row = vec![];
        for k in 0..40usize {
            let mut c = 0.0f32;
            for (n, lm) in logmel.iter().enumerate() {
                let d = if k == 0 {
                    (1.0 / 40.0f32).sqrt()
                } else {
                    (2.0 / 40.0f32).sqrt() * (PI / 40.0 * k as f32 * (n as f32 + 0.5)).cos()
                };
                c += d * lm;
            }
            row.push(c * (1.0 + 0.5 * 22.0 * (PI * k as f32 / 22.0).sin()));
        }
        out.push(row);
    }
    out
}

fn tone(n: usize) -> Vec<f32> {
    (0..n).map(|i| (i as f32 * 0.21).sin() * 9000.0 + (i as f32 * 0.017).cos() * 3000.0).collect()
}

fn bits(vs: &[f32]) -> Vec<u32> {
    vs.iter().map(|v| v.to_bits()).collect()
}

#[test]
fn cepstra_of_a_tone() {
    let samples = tone(900);
    let want = cepstra(16000.0, &samples);
    let m = Mfcc::vosk::<Native>(16000.0f32.to_bits()).unwrap();
    let y = m.compute::<Native>(&bits(&samples)).unwrap();
    assert_eq!((y.r, y.c), (4, 40));
    assert_eq!(want.len(), 4);
    for (t, row) in want.iter().enumerate() {
        assert_eq!(y.row(t), &bits(row)[..]);
    }
}

#[test]
fn cepstra_at_another_rate() {
    let samples = tone(450);
    let want = cepstra(8000.0, &samples);
    let m = Mfcc::vosk::<Native>(8000.0f32.to_bits()).unwrap();
    let y = m.compute::<Native>(&bits(&samples)).unwrap();
    assert_eq!(y.r, want.len());
    assert_eq!(y.row(1), &bits(&want[1])[..]);
}

#[test]
fn frames_are_snipped_at_the_edges() {
    let m = Mfcc::vosk::<Native>(16000.0f32.to_bits()).unwrap();
    for (n, frames) in [(0usize, 0usize), (399, 0), (400, 1), (559, 1), (560, 2), (720, 3)] {
        let y = m.compute::<Native>(&vec![0u32; n]).unwrap();
        assert_eq!((y.r, y.c), (frames, 40));
    }
}

#[test]
fn silence_is_held_above_the_floor() {
    let m = Mfcc::vosk::<Native>(16000.0f32.to_bits()).unwrap();
    let y = m.compute::<Native>(&vec![0u32; 400]).unwrap();
    let want = cepstra(16000.0, &vec![0.0; 400]);
    assert_eq!(y.row(0), &bits(&want[0])[..]);
    assert!(y.d.iter().all(|v| f32::from_bits(*v).is_finite()));
    // sqrt(1/40) * 40 * ln(2^-23)
    assert!((f32::from_bits(y.d[0]) + 100.8296).abs() < 1e-2);
}

#[test]
fn rates_without_frames() {
    let m = Mfcc::vosk::<Native>(30.0f32.to_bits()).unwrap();
    assert!(matches!(m.compute::<Native>(&[0u32; 3]), Err(EvalError::Mismatch)));
    assert!(Mfcc::vosk::<Native>(f32::INFINITY.to_bits()).is_none());
}

#[test]
fn transform_of_the_wrong_size() {
    let m = Mfcc::vosk::<Deaf>(16000.0f32.to_bits()).unwrap();
    assert!(matches!(m.compute::<Deaf>(&vec![0u32; 400]), Err(EvalError::Kernel)));
}

#[test]
fn constants_are_the_numbers_they_stand_for() {
    assert_eq!(SAMPLE_RATE, 16000.0f32.to_bits());
    assert_eq!(FULL_SCALE, 32768.0f32.to_bits());
    assert_eq!(vosk_rust::recognizer::DEFAULT_BEAM, 13.0f32.to_bits());
    assert_eq!(vosk_rust::recognizer::DEFAULT_MAX_ACTIVE, 7000.0f32.to_bits());
    assert_eq!(vosk_rust::single::PI, PI.to_bits());
    assert_eq!(vosk_rust::single::HALF, 0.5f32.to_bits());
    assert_eq!(vosk_rust::single::TWO, 2.0f32.to_bits());
    assert_eq!(vosk_rust::single::ONE, 1.0f32.to_bits());
    assert_eq!(vosk_rust::mfcc::USUAL_NUMBER, (vosk_rust::mfcc::USUAL as f32).to_bits());
    assert_eq!(vosk_rust::mfcc::FLOOR, f32::EPSILON.to_bits());
    assert_eq!(vosk_rust::mfcc::PREEMPH, 0.97f32.to_bits());
    assert_eq!(vosk_rust::mfcc::POVEY, 0.85f32.to_bits());
    assert_eq!(vosk_rust::mfcc::LIFTER, 22.0f32.to_bits());
    assert_eq!(vosk_rust::mfcc::LOW, 20.0f32.to_bits());
    assert_eq!(vosk_rust::mfcc::HIGH, 7600.0f32.to_bits());
    assert_eq!(vosk_rust::mfcc::FRAME_SECONDS, 0.025f32.to_bits());
    assert_eq!(vosk_rust::mfcc::SHIFT_SECONDS, 0.010f32.to_bits());
    assert_eq!(vosk_rust::mfcc::MEL_FACTOR, 1127.0f32.to_bits());
    assert_eq!(vosk_rust::mfcc::MEL_CORNER, 700.0f32.to_bits());
}

fn sized(v: i32) -> Vec<u8> {
    let mut out = vec![4u8];
    out.extend(v.to_le_bytes());
    out
}

/// An acoustic model with two pdf-ids, whose log-likelihoods are 0 and -9 whatever is heard.
fn acoustic() -> Vec<u8> {
    acoustic_for(40, 3)
}

/// The same for `feats` cepstra and a speaker's vector with `dim` columns.
fn acoustic_for(feats: i32, dim: i32) -> Vec<u8> {
    let mut out = b"\0B<TransitionModel> <Tuples> ".to_vec();
    out.extend(sized(1));
    for v in [1, 0, 1, 0] {
        out.extend(sized(v));
    }
    out.extend(format!("<Nnet3> \ninput-node name=ivector dim={dim}\n").as_bytes());
    out.extend(
        b"input-node name=input dim=40\n\
          component-node name=a component=a input=Append(input, ReplaceIndex(ivector, t, 0))\n\
          output-node name=output input=a objective=linear\n<NumComponents> ",
    );
    out.extend(sized(1));
    out.extend(b"<ComponentName> a <NaturalGradientAffineComponent> <LinearParams> FM ");
    out.extend(sized(2));
    out.extend(sized(feats + 3));
    out.extend(vec![0u8; 4 * 2 * (feats as usize + 3)]);
    out.extend(b"<BiasParams> FV ");
    out.extend(sized(2));
    out.extend(0.0f32.to_le_bytes());
    out.extend((-9.0f32).to_le_bytes());
    out
}

fn graph(labels: [u32; 2]) -> Vec<u8> {
    let mut fst = VectorFst::<TropicalWeight>::new();
    let s0 = fst.add_state();
    let s1 = fst.add_state();
    fst.set_start(s0).unwrap();
    fst.set_final(s1, TropicalWeight::one()).unwrap();
    // Transition-id 1 is the self-loop with pdf-id 0, and 2 the way forward with pdf-id 1.
    fst.add_tr(s0, OutsideTr::new(labels[0], 1, TropicalWeight::one(), s1)).unwrap();
    fst.add_tr(s0, OutsideTr::new(labels[1], 2, TropicalWeight::one(), s1)).unwrap();
    fst.add_tr(s1, OutsideTr::new(labels[0], 3, TropicalWeight::one(), s1)).unwrap();
    let mut bytes: Vec<u8> = Vec::new();
    ConstFst::from(fst).store(&mut bytes).unwrap();
    bytes
}

const WORDS: &[u8] = b"<eps> 0\nhello 1\nother 2\n!SIL 3\n";

fn load(labels: [u32; 2], conf: &str) -> Recognizer {
    Recognizer::load::<Native>(
        &acoustic(),
        Stored::Plain(graph(labels)),
        Stored::Plain(WORDS.to_vec()),
        conf,
        "",
    )
    .unwrap_or_else(|e| panic!("{e:?}"))
}

#[test]
fn an_utterance_is_recognized() {
    // Frames 0 and 3 are kept: one word, and then silence.
    let rec = load([1, 2], "--beam=10\n");
    let samples = vec![0.25f32.to_bits(); 400 + 3 * 160];
    assert_eq!(rec.recognize::<Native>(&samples), Ok("hello".to_string()));
    // The acoustics are turned round.
    let rec = load([2, 1], "");
    assert_eq!(rec.recognize::<Native>(&samples), Ok("other".to_string()));
}

#[test]
fn the_same_samples_give_the_same_text() {
    let rec = load([1, 2], "");
    let samples = bits(&tone(1600));
    let text = rec.recognize::<Native>(&samples).unwrap();
    assert!(!text.is_empty());
    assert_eq!(rec.recognize::<Native>(&samples).unwrap(), text);
    assert_eq!(load([1, 2], "").recognize::<Native>(&samples).unwrap(), text);
}

#[test]
fn settings_shape_the_front_end() {
    let samples = vec![0.25f32.to_bits(); 400 + 3 * 160];
    let small = |conf: &str| {
        Recognizer::load::<Native>(
            &acoustic_for(20, 3),
            Stored::Plain(graph([1, 2])),
            Stored::Plain(WORDS.to_vec()),
            "",
            conf,
        )
        .unwrap_or_else(|e| panic!("{e:?}"))
    };
    // The network takes 20 cepstra, which is what its settings ask for.
    let conf = "--num-mel-bins=20\n--num-ceps=20\n";
    assert_eq!(small(conf).recognize::<Native>(&samples), Ok("hello".to_string()));
    assert_eq!(
        small("").recognize::<Native>(&samples),
        Err(RecognizeError::Network(EvalError::Mismatch))
    );
    let m = Mfcc::from_conf::<Native>(conf, SAMPLE_RATE).unwrap();
    let y = m.compute::<Native>(&vec![0u32; 400]).unwrap();
    assert_eq!((y.r, y.c), (1, 20));
    // sqrt(1/20) * 20 * ln(2^-23)
    assert!((f32::from_bits(y.d[0]) + 71.2973).abs() < 1e-2);
    let usual = Mfcc::from_conf::<Native>("", SAMPLE_RATE).unwrap();
    let loud = bits(&tone(400));
    assert_eq!(
        usual.compute::<Native>(&loud).unwrap().d,
        Mfcc::vosk::<Native>(SAMPLE_RATE).unwrap().compute::<Native>(&loud).unwrap().d
    );
    assert!(Mfcc::from_conf::<Native>("--num-mel-bins=inf", SAMPLE_RATE).is_none());
}

#[test]
fn equal_frames_have_equal_cepstra() {
    let m = Mfcc::vosk::<Native>(SAMPLE_RATE).unwrap();
    // The samples come back after the distance of two frames.
    let part = tone(160);
    let samples: Vec<f32> = part.iter().cycle().take(720).copied().collect();
    let y = m.compute::<Native>(&bits(&samples)).unwrap();
    assert_eq!(y.row(0), y.row(1));
    assert_eq!(y.row(0), y.row(2));
    // A level frame sounds like silence.
    let level = m.compute::<Native>(&bits(&vec![64.0; 400])).unwrap();
    assert_eq!(level.d, m.compute::<Native>(&vec![0u32; 400]).unwrap().d);
}

#[test]
fn rows_come_of_their_own_samples() {
    let m = Mfcc::vosk::<Native>(SAMPLE_RATE).unwrap();
    let samples = bits(&tone(900));
    let y = m.compute::<Native>(&samples).unwrap();
    assert_eq!(y.r, 4);
    for t in 0..y.r {
        let alone = m.compute::<Native>(&samples[160 * t..160 * t + 400]).unwrap();
        assert_eq!(alone.r, 1);
        assert_eq!(y.row(t), alone.row(0));
    }
    // Samples that come later change nothing.
    let mut longer = samples.clone();
    longer.extend(bits(&[1.0e4; 300]));
    let z = m.compute::<Native>(&longer).unwrap();
    assert!(z.r > y.r);
    assert_eq!(&z.d[..y.d.len()], &y.d[..]);
}

#[test]
fn too_short_an_utterance_says_nothing() {
    let rec = load([1, 2], "");
    assert_eq!(rec.recognize::<Native>(&[]), Ok(String::new()));
}

#[test]
fn log_likelihoods_are_transcribed() {
    let rec = load([1, 2], "");
    let ll = vosk_rust::mat::Mat { r: 1, c: 2, d: bits(&[-9.0, 0.0]) };
    assert_eq!(rec.transcribe::<Native>(&ll), Ok("other".to_string()));
    let narrow = vosk_rust::mat::Mat { r: 1, c: 1, d: bits(&[0.0]) };
    assert_eq!(rec.transcribe::<Native>(&narrow), Err(DecodeError::UnknownPdf));
}

#[test]
fn each_step_can_fail() {
    let samples = vec![0u32; 400];
    let rec = load([1, 2], "");
    assert_eq!(
        rec.recognize::<Deaf>(&samples),
        Err(RecognizeError::FrontEnd(EvalError::Kernel))
    );
    let rec = load([7, 2], "");
    assert_eq!(
        rec.recognize::<Native>(&samples),
        Err(RecognizeError::Search(DecodeError::UnknownTransition))
    );
    let wide = Recognizer::load::<Native>(
        &acoustic_for(40, 40),
        Stored::Plain(graph([1, 2])),
        Stored::Plain(WORDS.to_vec()),
        "",
        "",
    )
    .unwrap_or_else(|e| panic!("{e:?}"));
    assert_eq!(
        wide.recognize::<Native>(&samples),
        Err(RecognizeError::Network(EvalError::Mismatch))
    );
}

#[test]
fn models_that_cannot_be_loaded() {
    let words = || Stored::Plain(WORDS.to_vec());
    let g = || Stored::Plain(graph([1, 2]));
    let fail = |mdl: &[u8], g: Stored, w: Stored| {
        match Recognizer::load::<Native>(mdl, g, w, "", "") {
            Ok(_) => panic!("loaded"),
            Err(e) => e,
        }
    };
    assert_eq!(fail(b"", g(), words()), ModelError::Network(LoadError::NoGraph));
    let mdl = acoustic();
    let at = mdl.windows(7).position(|w| w == b"<Nnet3>").unwrap();
    assert_eq!(
        fail(&mdl[at..], g(), words()),
        ModelError::Transitions(TransitionError::NoTuples)
    );
    assert_eq!(
        fail(&mdl, Stored::Gzip(vec![0; 9]), words()),
        ModelError::GraphPacking
    );
    assert_eq!(
        fail(&mdl, g(), Stored::Plain(vec![0xc0])),
        ModelError::WordsEncoding
    );
}

#[test]
fn settings_shape_the_decoder() {
    let ll = || vosk_rust::mat::Mat { r: 1, c: 2, d: bits(&[-9.0, 0.0]) };
    assert_eq!(load([1, 2], "").transcribe::<Native>(&ll()), Ok("other".to_string()));
    // A negative scale turns the acoustics round.
    let turned = load([1, 2], "--acoustic-scale=-1\n");
    assert_eq!(turned.transcribe::<Native>(&ll()), Ok("hello".to_string()));
    // The limit on states is read as a number and then as an index: with none left there is no
    // word.
    let none = load([1, 2], "--max-active=0.9\n");
    assert_eq!(none.transcribe::<Native>(&ll()), Ok(String::new()));
}
