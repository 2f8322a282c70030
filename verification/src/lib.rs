//! In-place composition and decomposition of single-channel 16-bit PCM
//! signals: inserting or mixing one signal into another at a sample
//! position, and undoing either.

pub mod audio_ops;
pub mod binary32;
pub mod exactness;
pub mod laws;
pub mod signal_ops;
pub mod types;
pub mod wav_io;

pub use audio_ops::{combine_audio, combine_op_from_name, separate_audio, separate_op_from_name};
pub use binary32::Binary32;
pub use signal_ops::{
    combine_signals, insert_signal, mix_signals, remove_signal, separate_signals, unmix_signal,
};
pub use types::{CombineOp, SeparateOp, SignalError};
pub use wav_io::{audio_from_items, decode_wav, wav_sample_count, AudioData};
