//! Speech recognition with Kaldi nnet3 chain models: model files in, words out.

pub mod appended;
pub mod best_path;
pub mod calls;
pub mod cepstra;
pub mod components;
pub mod conf;
pub mod consistency;
pub mod cosines;
pub mod decoder;
pub mod descriptor;
pub mod determinism;
pub mod dump;
pub mod evaluation;
pub mod faults;
pub mod files;
pub mod fitting;
pub mod frontier;
pub mod fst;
pub mod graph;
pub mod heard;
pub mod kaldi_io;
pub mod layer_files;
pub mod layers;
pub mod mat;
pub mod mels;
pub mod mfcc;
pub mod models;
pub mod nnet3;
pub mod node_files;
pub mod norms;
pub mod one_text;
pub mod openfst;
pub mod recognizer;
pub mod renaming;
pub mod routes;
pub mod scan;
pub mod search;
pub mod settings;
pub mod silence;
pub mod single;
pub mod spectra;
pub mod stored;
pub mod table;
pub mod tables;
pub mod text;
pub mod transition_model;
pub mod unneeded;
pub mod untied;
pub mod values;
pub mod words;
pub mod written;

pub use decoder::Decoder;
pub use recognizer::Recognizer;
