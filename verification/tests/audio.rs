use rust_signals::wav_io::{read_items, MAX_WAV_SAMPLES};
use rust_signals::{
    audio_from_items, combine_audio, combine_op_from_name, decode_wav, separate_audio,
    separate_op_from_name, wav_sample_count, AudioData, Binary32, CombineOp, SeparateOp,
    SignalError,
};

fn weight(value: f32) -> Binary32 {
    Binary32::from_bits(value.to_bits())
}

fn audio(samples: &[i16], sample_rate: u32) -> AudioData {
    AudioData { samples: samples.to_vec(), sample_rate }
}

/// A container written by hand: the header of forty-four bytes, then the data.
fn container(channels: u16, sample_rate: u32, bits: u16, format_tag: u16, data: &[u8]) -> Vec<u8> {
    let block_align = channels * (bits / 8);
    let mut bytes = Vec::new();
    bytes.extend_from_slice(b"RIFF");
    bytes.extend_from_slice(&(36 + data.len() as u32).to_le_bytes());
    bytes.extend_from_slice(b"WAVE");
    bytes.extend_from_slice(b"fmt ");
    bytes.extend_from_slice(&16u32.to_le_bytes());
    bytes.extend_from_slice(&format_tag.to_le_bytes());
    bytes.extend_from_slice(&channels.to_le_bytes());
    bytes.extend_from_slice(&sample_rate.to_le_bytes());
    bytes.extend_from_slice(&(sample_rate * block_align as u32).to_le_bytes());
    bytes.extend_from_slice(&block_align.to_le_bytes());
    bytes.extend_from_slice(&bits.to_le_bytes());
    bytes.extend_from_slice(b"data");
    bytes.extend_from_slice(&(data.len() as u32).to_le_bytes());
    bytes.extend_from_slice(data);
    bytes
}

fn sixteen_bit_data(samples: &[i16]) -> Vec<u8> {
    samples.iter().flat_map(|s| s.to_le_bytes()).collect()
}

/// A container written by the same crate that reads it.
fn written(samples: &[i16], spec: hound::WavSpec) -> Vec<u8> {
    let mut cursor = std::io::Cursor::new(Vec::new());
    {
        let mut writer = hound::WavWriter::new(&mut cursor, spec).unwrap();
        for &sample in samples {
            writer.write_sample(sample).unwrap();
        }
        writer.finalize().unwrap();
    }
    cursor.into_inner()
}

#[test]
fn decode_reads_samples_and_rate() {
    let samples = [10i16, -20, 30, -32768, 32767, 0];
    let decoded = decode_wav(container(1, 44100, 16, 1, &sixteen_bit_data(&samples))).unwrap();
    assert_eq!(decoded.samples, samples.to_vec());
    assert_eq!(decoded.sample_rate, 44100);
}

#[test]
fn decode_reads_what_the_writer_wrote() {
    let samples: Vec<i16> = (0..1000).map(|i| (i * 37 % 2001 - 1000) as i16).collect();
    let spec = hound::WavSpec {
        channels: 1,
        sample_rate: 8000,
        bits_per_sample: 16,
        sample_format: hound::SampleFormat::Int,
    };
    let decoded = decode_wav(written(&samples, spec)).unwrap();
    assert_eq!(decoded.samples, samples);
    assert_eq!(decoded.sample_rate, 8000);
}

#[test]
fn decode_of_an_empty_data_chunk_gives_no_samples() {
    let decoded = decode_wav(container(1, 22050, 16, 1, &[])).unwrap();
    assert!(decoded.samples.is_empty());
    assert_eq!(decoded.sample_rate, 22050);
}

#[test]
fn decode_widens_eight_bit_samples() {
    // Eight-bit samples are stored unsigned, 128 standing for silence.
    let decoded = decode_wav(container(1, 8000, 8, 1, &[128, 129, 127, 0, 255])).unwrap();
    assert_eq!(decoded.samples, vec![0, 1, -1, -128, 127]);
}

#[test]
fn decode_yields_the_channels_interleaved() {
    let samples = [1i16, -1, 2, -2, 3, -3];
    let decoded = decode_wav(container(2, 48000, 16, 1, &sixteen_bit_data(&samples))).unwrap();
    assert_eq!(decoded.samples, samples.to_vec());
    assert_eq!(decoded.sample_rate, 48000);
}

#[test]
fn decode_rejects_what_is_no_container() {
    assert!(matches!(decode_wav(Vec::new()), Err(SignalError::IoError)));
    assert!(matches!(decode_wav(b"not a wave file at all".to_vec()), Err(SignalError::IoError)));
    let mut bytes = container(1, 44100, 16, 1, &sixteen_bit_data(&[1, 2, 3]));
    bytes[8] = b'X';
    assert!(matches!(decode_wav(bytes), Err(SignalError::IoError)));
}

#[test]
fn decode_rejects_data_cut_short() {
    let mut bytes = container(1, 44100, 16, 1, &sixteen_bit_data(&[1, 2, 3, 4]));
    bytes.truncate(bytes.len() - 3);
    assert!(matches!(decode_wav(bytes), Err(SignalError::IoError)));
}

#[test]
fn decode_rejects_samples_wider_than_sixteen_bits() {
    let bytes = container(1, 44100, 32, 1, &[0, 0, 0, 0, 1, 0, 0, 0]);
    assert!(matches!(decode_wav(bytes), Err(SignalError::IoError)));
}

#[test]
fn decode_rejects_floating_point_samples() {
    let bytes = container(1, 44100, 32, 3, &[0, 0, 0, 0]);
    assert!(matches!(decode_wav(bytes), Err(SignalError::IoError)));
}

#[test]
fn read_items_marks_the_samples_that_are_missing() {
    let mut bytes = container(1, 44100, 16, 1, &sixteen_bit_data(&[7, 8, 9]));
    bytes.truncate(bytes.len() - 2);
    assert_eq!(read_items(bytes), Some((44100, vec![Some(7), Some(8), None])));
    assert_eq!(read_items(b"RIFF".to_vec()), None);
    assert_eq!(
        read_items(container(1, 100, 16, 1, &sixteen_bit_data(&[-5, 5]))),
        Some((100, vec![Some(-5), Some(5)]))
    );
}

#[test]
fn audio_from_items_wants_every_sample() {
    let whole = audio_from_items(16000, &vec![Some(1), Some(-2), Some(3)]).unwrap();
    assert_eq!(whole.samples, vec![1, -2, 3]);
    assert_eq!(whole.sample_rate, 16000);
    let empty = audio_from_items(1, &Vec::new()).unwrap();
    assert!(empty.samples.is_empty());
    assert_eq!(empty.sample_rate, 1);
    assert!(matches!(
        audio_from_items(16000, &vec![Some(1), None, Some(3)]),
        Err(SignalError::IoError)
    ));
    assert!(matches!(audio_from_items(16000, &vec![None]), Err(SignalError::IoError)));
}

#[test]
fn sample_count_of_a_signal_that_fits() {
    assert_eq!(wav_sample_count(&[]), Ok(0));
    assert_eq!(wav_sample_count(&[1, 2, 3]), Ok(3));
    assert_eq!(MAX_WAV_SAMPLES as u64 * 2 + 36, u32::MAX as u64 - 1);
}

#[test]
fn operations_are_known_by_name() {
    assert!(matches!(
        combine_op_from_name("insert", weight(0.5), 3, false),
        Ok(CombineOp::Insert { add_offset: 3 })
    ));
    match combine_op_from_name("mix", weight(0.25), 4, true) {
        Ok(CombineOp::Mix { mix_balance, add_offset, normalize }) => {
            assert_eq!(mix_balance, weight(0.25));
            assert_eq!(add_offset, 4);
            assert!(normalize);
        }
        other => panic!("{:?}", other),
    }
    assert!(matches!(separate_op_from_name("remove", weight(0.5)), Ok(SeparateOp::Remove)));
    match separate_op_from_name("unmix", weight(0.75)) {
        Ok(SeparateOp::Unmix { mix_balance }) => assert_eq!(mix_balance, weight(0.75)),
        other => panic!("{:?}", other),
    }
}

#[test]
fn other_names_are_unknown() {
    for name in ["", "Insert", "mix ", "remove", "unmix", "insertmix", "add"] {
        assert!(matches!(
            combine_op_from_name(name, weight(0.5), 0, false),
            Err(SignalError::UnknownOperation)
        ));
    }
    for name in ["", "Remove", " unmix", "insert", "mix", "separate"] {
        assert!(matches!(
            separate_op_from_name(name, weight(0.5)),
            Err(SignalError::UnknownOperation)
        ));
    }
}

#[test]
fn combined_audio_has_the_rate_of_the_base() {
    let base = audio(&[10, 20, 30, 40], 44100);
    let add = audio(&[100, 100], 8000);
    let inserted = combine_audio(&base, &add, 1, "insert", weight(0.5), 0, false).unwrap();
    assert_eq!(inserted.samples, vec![10, 100, 100, 20, 30, 40]);
    assert_eq!(inserted.sample_rate, 44100);
    let mixed = combine_audio(&base, &add, 1, "mix", weight(0.5), 0, false).unwrap();
    assert_eq!(mixed.samples, vec![10, 60, 65, 40]);
    assert_eq!(mixed.sample_rate, 44100);
}

#[test]
fn separated_audio_has_the_rate_of_the_combined() {
    let signal = audio(&[100, 100], 8000);
    let removed =
        separate_audio(&audio(&[10, 100, 100, 20, 30, 40], 48000), &signal, 1, "remove", weight(0.5))
            .unwrap();
    assert_eq!(removed.samples, vec![10, 20, 30, 40]);
    assert_eq!(removed.sample_rate, 48000);
    let unmixed =
        separate_audio(&audio(&[10, 60, 65, 40], 48000), &signal, 1, "unmix", weight(0.5)).unwrap();
    assert_eq!(unmixed.samples, vec![10, 20, 30, 40]);
    assert_eq!(unmixed.sample_rate, 48000);
}

#[test]
fn named_operations_report_their_errors() {
    let base = audio(&[10, 20, 30, 40], 44100);
    let add = audio(&[100, 100], 44100);
    assert!(matches!(
        combine_audio(&base, &add, 9, "insert", weight(0.5), 0, false),
        Err(SignalError::OutOfRange)
    ));
    assert!(matches!(
        combine_audio(&base, &add, 1, "mix", weight(0.5), 3, false),
        Err(SignalError::OutOfRange)
    ));
    assert!(matches!(
        combine_audio(&base, &add, 9, "splice", weight(0.5), 9, false),
        Err(SignalError::UnknownOperation)
    ));
    assert!(matches!(
        separate_audio(&base, &add, 3, "remove", weight(0.5)),
        Err(SignalError::OutOfRange)
    ));
    assert!(matches!(
        separate_audio(&base, &add, 3, "cut", weight(0.5)),
        Err(SignalError::UnknownOperation)
    ));
}

#[test]
fn a_signal_travels_through_container_and_operations() {
    let spec = hound::WavSpec {
        channels: 1,
        sample_rate: 16000,
        bits_per_sample: 16,
        sample_format: hound::SampleFormat::Int,
    };
    let base = decode_wav(written(&[10, 20, 30, 40], spec)).unwrap();
    let add = decode_wav(written(&[100, 100], spec)).unwrap();
    let combined = combine_audio(&base, &add, 1, "insert", weight(0.5), 0, false).unwrap();
    let count = wav_sample_count(&combined.samples).unwrap();
    assert_eq!(count, 6);
    let back = decode_wav(written(&combined.samples, spec)).unwrap();
    let restored = separate_audio(&back, &add, 1, "remove", weight(0.5)).unwrap();
    assert_eq!(restored.samples, base.samples);
    assert_eq!(restored.sample_rate, 16000);
}
