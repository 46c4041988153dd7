use std::io::Write;
use std::sync::Arc;

use flate2::write::GzEncoder;
use flate2::Compression;
use rustfst::prelude::{
    ConstFst, Fst as OutsideFst, MutableFst, SerializableFst, Semiring, Tr as OutsideTr,
    TropicalWeight, VectorFst,
};
use rustfst::SymbolTable;
use vosk_rust::dump::{load_bin, load_samples};
use vosk_rust::fst::Tr;
use vosk_rust::kaldi_io::ReadError;
use vosk_rust::openfst::{load_fst, GraphError};
use vosk_rust::recognizer::{load_graph, load_words, ModelError};
use vosk_rust::stored::{gz_name, read_maybe_gz, Stored};

fn gzipped(bytes: &[u8]) -> Vec<u8> {
    let mut e = GzEncoder::new(Vec::new(), Compression::default());
    e.write_all(bytes).unwrap();
    e.finish().unwrap()
}

fn outside() -> VectorFst<TropicalWeight> {
    let mut fst = VectorFst::<TropicalWeight>::new();
    let s0 = fst.add_state();
    let s1 = fst.add_state();
    fst.set_start(s1).unwrap();
    fst.set_final(s0, TropicalWeight::new(0.75)).unwrap();
    fst.add_tr(s1, OutsideTr::new(3, 4, TropicalWeight::new(1.5), s0)).unwrap();
    fst.add_tr(s1, OutsideTr::new(0, 6, TropicalWeight::new(-2.0), s1)).unwrap();
    fst
}

fn stored(fst: VectorFst<TropicalWeight>) -> Vec<u8> {
    let mut bytes: Vec<u8> = Vec::new();
    ConstFst::from(fst).store(&mut bytes).unwrap();
    bytes
}

#[test]
fn transducer_is_read_from_its_file() {
    let fst = load_fst(&stored(outside())).unwrap();
    assert_eq!(fst.start, Some(1));
    assert_eq!(fst.states.len(), 2);
    assert_eq!(fst.states[0].trs, Some(vec![]));
    assert_eq!(fst.states[0].final_weight, Some(0.75f32.to_bits()));
    assert_eq!(fst.states[1].final_weight, None);
    assert_eq!(
        fst.states[1].trs,
        Some(vec![
            Tr { ilabel: 3, olabel: 4, weight: 1.5f32.to_bits(), nextstate: 0 },
            Tr { ilabel: 0, olabel: 6, weight: (-2.0f32).to_bits(), nextstate: 1 },
        ])
    );
    assert_eq!(fst.final_weight(0), Some(0.75f32.to_bits()));
    assert_eq!(fst.final_weight(9), None);
    assert_eq!(fst.num_trs(1), Some(2));
    assert_eq!(fst.num_trs(9), Some(0));
}

#[test]
fn transducer_without_states() {
    let fst = load_fst(&stored(VectorFst::new())).unwrap();
    assert_eq!(fst.start, None);
    assert_eq!(fst.states.len(), 0);
}

#[test]
fn symbols_that_come_again() {
    let mut vector = outside();
    let mut symbols = SymbolTable::new();
    for name in ["aa", "bb", "cc"] {
        symbols.add_symbol(name);
    }
    vector.set_input_symbols(Arc::new(symbols));
    let bytes = stored(vector);
    let at = |name: &[u8]| bytes.windows(2).position(|w| w == name).unwrap();
    let named = |name: &[u8], number: u8| {
        let mut b = bytes.clone();
        b[at(b"cc")..at(b"cc") + 2].copy_from_slice(name);
        b[at(b"cc") + 2] = number;
        load_fst(&b).is_ok()
    };
    assert!(named(b"cc", 3));
    assert!(named(b"aa", 1));
    assert!(named(b"bb", 2));
    assert!(!named(b"aa", 3));
    assert!(!named(b"cc", 1));
}

#[test]
fn transducer_with_symbol_tables() {
    let mut vector = outside();
    let mut symbols = SymbolTable::new();
    symbols.add_symbol("wort");
    symbols.add_symbol("\u{633}");
    vector.set_input_symbols(Arc::new(symbols.clone()));
    vector.set_output_symbols(Arc::new(symbols));
    let bytes = stored(vector);
    assert_eq!(load_fst(&bytes).unwrap().states.len(), 2);
    // Symbols are numbered in order; one that comes again has the number that it had.
    let number = bytes.windows(4).position(|w| w == b"wort").unwrap() + 4;
    assert_eq!(bytes[number], 1);
    let mut hole = bytes.clone();
    hole[number] = 2;
    assert!(matches!(load_fst(&hole), Err(GraphError::Body)));
    let mut high = bytes.clone();
    high[number + 4] = 1;
    assert_eq!(load_fst(&high).unwrap().states.len(), 2);
    // A symbol that is no UTF-8.
    let mut bad = bytes.clone();
    bad[number - 4] = 0xff;
    assert!(matches!(load_fst(&bad), Err(GraphError::Header)));
}

#[test]
fn state_that_points_outside_is_marked() {
    let bytes = stored(outside());
    // The two records of 20 bytes stand before the two transitions of 16 bytes.
    let table = bytes.len() - 2 * 16 - 2 * 20;
    let mut bad = bytes.clone();
    bad[table + 20 + 8] = 3;
    let fst = load_fst(&bad).unwrap();
    assert!(fst.states[0].trs.is_some());
    assert!(fst.states[1].trs.is_none());
    let mut negative = bytes.clone();
    negative[table + 4 + 3] = 0xff;
    let fst = load_fst(&negative).unwrap();
    assert!(fst.states[0].trs.is_none());
    assert!(fst.states[1].trs.is_some());
}

#[test]
fn aligned_transducer_is_read() {
    let bytes = stored(outside());
    // Version 1 aligns both tables to 16 bytes.
    let head = 4 + 4 + 5 + 4 + 8;
    let body = head + 40;
    let mut v1 = bytes[..body].to_vec();
    v1[head] = 1;
    while v1.len() % 16 != 0 {
        v1.push(0);
    }
    v1.extend(&bytes[body..body + 40]);
    while v1.len() % 16 != 0 {
        v1.push(0);
    }
    v1.extend(&bytes[body + 40..]);
    let fst = load_fst(&v1).unwrap();
    assert_eq!(fst.states[1].trs.as_ref().unwrap()[0].ilabel, 3);
}

#[test]
fn files_that_are_no_transducers() {
    let bytes = stored(outside());
    assert!(matches!(load_fst(b""), Err(GraphError::Header)));
    assert!(matches!(load_fst(&bytes[1..]), Err(GraphError::Header)));
    let mut vector = bytes.clone();
    vector[8] = b'v';
    assert!(matches!(load_fst(&vector), Err(GraphError::Header)));
    assert!(matches!(load_fst(&bytes[..bytes.len() - 1]), Err(GraphError::Body)));
}

#[test]
fn counts_of_the_header_are_held_to_the_tables() {
    let bytes = stored(outside());
    let head = 4 + 4 + 5 + 4 + 8;
    let with = |at: usize, v: i64| {
        let mut b = bytes.clone();
        b[head + at..head + at + 8].copy_from_slice(&v.to_le_bytes());
        load_fst(&b)
    };
    // The numbers of states and of transitions stand 24 and 32 bytes into the header.
    for at in [24, 32] {
        for v in [-1, i64::MIN, i64::MAX, 3, 0x1_0000_0002] {
            assert!(matches!(with(at, v), Err(GraphError::Body)), "{at} {v}");
        }
    }
    // A transition less is a table that a state points out of.
    let fewer = with(32, 1).unwrap();
    assert!(fewer.states[0].trs.is_some());
    assert!(fewer.states[1].trs.is_none());
    // The start state is the lower half of its number, but for -1.
    assert_eq!(with(16, 0).unwrap().start, Some(0));
    assert_eq!(with(16, -1).unwrap().start, None);
    assert_eq!(with(16, 0x1_0000_0001).unwrap().start, Some(1));
}

#[test]
fn records_are_read_as_they_stand() {
    let bytes = stored(outside());
    let table = bytes.len() - 2 * 16 - 2 * 20;
    let trs = table + 2 * 20;
    let put = |at: usize, v: u32| {
        let mut b = bytes.clone();
        b[at..at + 4].copy_from_slice(&v.to_le_bytes());
        load_fst(&b).unwrap()
    };
    let tr = |at: usize, v: u32| put(trs + at, v).states[1].trs.clone().unwrap()[0];
    assert_eq!(tr(0, 0xffff_fffe).ilabel, 0xffff_fffe);
    assert_eq!(tr(4, 0x8000_0001).olabel, 0x8000_0001);
    assert_eq!(tr(8, 0x8000_0000).weight, 0x8000_0000);
    assert_eq!(tr(12, 77).nextstate, 77);
    assert!(f32::from_bits(tr(8, 0x7fc0_0000).weight).is_nan());
    // One may end in a state unless the cost of that is infinity.
    assert_eq!(put(table, 0x7f80_0000).states[0].final_weight, None);
    assert_eq!(put(table, 0xff80_0000).states[0].final_weight, Some(0xff80_0000));
    assert_eq!(put(table, f32::MAX.to_bits()).states[0].final_weight, Some(f32::MAX.to_bits()));
    assert!(put(table, 0x7fc0_0000).states[0].final_weight.map(f32::from_bits).unwrap().is_nan());
    // The second state begins with the second transition.
    let later = put(table + 20 + 4, 1);
    assert!(later.states[1].trs.is_none());
    let mut b = bytes.clone();
    b[table + 20 + 4] = 1;
    b[table + 20 + 8] = 1;
    assert_eq!(
        load_fst(&b).unwrap().states[1].trs,
        Some(vec![Tr { ilabel: 0, olabel: 6, weight: (-2.0f32).to_bits(), nextstate: 1 }])
    );
}

#[test]
fn gzipped_files_are_unpacked() {
    let plain = b"some bytes".to_vec();
    assert_eq!(read_maybe_gz(Stored::Plain(plain.clone())), Some(plain.clone()));
    assert_eq!(read_maybe_gz(Stored::Gzip(gzipped(&plain))), Some(plain.clone()));
    assert_eq!(read_maybe_gz(Stored::Gzip(plain)), None);
    assert_eq!(gz_name("graph/HCLG.fst"), "graph/HCLG.fst.gz");
}

#[test]
fn gzipped_and_plain_transducers_are_the_same() {
    let bytes = stored(outside());
    let a = load_graph(Stored::Plain(bytes.clone())).unwrap();
    let b = load_graph(Stored::Gzip(gzipped(&bytes))).unwrap();
    assert_eq!(a.start, b.start);
    assert_eq!(a.states[1].trs, b.states[1].trs);
    assert!(matches!(
        load_graph(Stored::Gzip(b"nothing".to_vec())),
        Err(ModelError::GraphPacking)
    ));
    assert!(matches!(
        load_graph(Stored::Plain(b"nothing".to_vec())),
        Err(ModelError::Graph(GraphError::Header))
    ));
}

#[test]
fn word_table_files() {
    let text = "<eps> 0\n\u{645}\u{646} 2\nwort 1 rest\n".as_bytes();
    let table = load_words(Stored::Gzip(gzipped(text))).unwrap();
    assert_eq!(table, vec!["<eps>", "wort", "\u{645}\u{646}"]);
    assert_eq!(load_words(Stored::Plain(text.to_vec())).unwrap(), table);
    assert!(matches!(
        load_words(Stored::Gzip(vec![1, 2, 3])),
        Err(ModelError::WordsPacking)
    ));
    assert!(matches!(
        load_words(Stored::Plain(vec![0x61, 0xff])),
        Err(ModelError::WordsEncoding)
    ));
    assert!(matches!(
        load_words(Stored::Plain(format!("a {}\n", usize::MAX).into_bytes())),
        Err(ModelError::WordsNumber)
    ));
}

fn dump(r: i32, c: i32, d: &[f32]) -> Vec<u8> {
    let mut out = r.to_le_bytes().to_vec();
    out.extend(c.to_le_bytes());
    out.extend(d.iter().flat_map(|v| v.to_le_bytes()));
    out
}

#[test]
fn dumps_are_read_back() {
    let bytes = dump(2, 3, &[1.0, 2.0, 3.0, 4.0, 5.0, 6.0]);
    let m = load_bin(&bytes).unwrap();
    assert_eq!((m.r, m.c), (2, 3));
    assert_eq!(m.row(1), &[4.0f32.to_bits(), 5.0f32.to_bits(), 6.0f32.to_bits()]);
    assert!(matches!(load_bin(&bytes[..31]), Err(ReadError::UnexpectedEof)));
    assert!(matches!(load_bin(&bytes[..7]), Err(ReadError::UnexpectedEof)));
    assert!(matches!(load_bin(&dump(-1, 3, &[])), Err(ReadError::NegativeLength)));
}

#[test]
fn samples_of_a_dump() {
    let one = dump(1, 3, &[0.5, -0.5, 0.25]);
    assert_eq!(load_samples(&one).unwrap(), load_bin(&one).unwrap().d);
    // Only the columns count.
    let odd = dump(7, 2, &[0.5, -0.5]);
    assert_eq!(load_samples(&odd).unwrap(), vec![0.5f32.to_bits(), (-0.5f32).to_bits()]);
    assert!(matches!(load_samples(&one[..19]), Err(ReadError::UnexpectedEof)));
    assert!(matches!(load_samples(&dump(1, -2, &[])), Err(ReadError::NegativeLength)));
    assert!(matches!(load_samples(&[0u8; 3]), Err(ReadError::UnexpectedEof)));
}
