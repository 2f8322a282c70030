//! Audio as it is read from a WAVE container held in memory.

use crate::types::SignalError;
use vstd::prelude::*;

verus! {

/// The samples of one signal and the rate at which they were taken.
#[derive(Debug, Clone)]
pub struct AudioData {
    pub samples: Vec<i16>,
    pub sample_rate: u32,
}

impl View for AudioData {
    type V = (Seq<i16>, u32);

    /// The samples and the rate.
    open spec fn view(&self) -> (Seq<i16>, u32) {
        (self.samples@, self.sample_rate)
    }
}

/// `hound::WavReader`, the reader of a container; nothing is known of what
/// is inside one but what the functions below say.
#[verifier::external_type_specification]
#[verifier::external_body]
#[verifier::reject_recursive_types(R)]
pub struct ExWavReader<R>(hound::WavReader<R>);

/// `std::io::Cursor`, through which the reader takes bytes held in memory.
#[verifier::external_type_specification]
#[verifier::external_body]
#[verifier::reject_recursive_types(T)]
pub struct ExCursor<T>(std::io::Cursor<T>);

/// `hound::Error`, the reader's error; only that there is one is used.
#[verifier::external_type_specification]
#[verifier::external_body]
pub struct ExHoundError(hound::Error);

/// What `hound` reads out of a container: nothing where it refuses the
/// header, else the sample rate and, for each sample that the header
/// announces, the sample or nothing where reading it as sixteen bits fails.
pub uninterp spec fn wav_stream(bytes: Seq<u8>) -> Option<(u32, Seq<Option<i16>>)>;

/// The samples that a reader has yet to yield, in their order, nothing
/// standing for one that it fails to read.
pub uninterp spec fn reader_remaining(reader: hound::WavReader<std::io::Cursor<Vec<u8>>>) -> Seq<
    Option<i16>,
>;

/// The sample rate that a reader found in the header.
pub uninterp spec fn reader_rate(reader: hound::WavReader<std::io::Cursor<Vec<u8>>>) -> u32;

/// `hound::WavReader::new` on a cursor over the bytes. It reads the header
/// and fails where the header is not one it accepts; the reader it returns
/// has every sample yet to yield.
#[verifier::external_body]
fn open_reader(bytes: Vec<u8>) -> (result: Result<
    hound::WavReader<std::io::Cursor<Vec<u8>>>,
    hound::Error,
>)
    ensures
        match result {
            Ok(reader) => wav_stream(bytes@) == Some(
                (reader_rate(reader), reader_remaining(reader)),
            ),
            Err(_) => wav_stream(bytes@) is None,
        },
{
    hound::WavReader::new(std::io::Cursor::new(bytes))
}

/// The field `sample_rate` of `hound::WavReader::spec`.
#[verifier::external_body]
fn reader_sample_rate(reader: &hound::WavReader<std::io::Cursor<Vec<u8>>>) -> (rate: u32)
    ensures
        rate == reader_rate(*reader),
{
    reader.spec().sample_rate
}

/// `next` on `hound::WavReader::samples`, for samples of sixteen bits. While
/// the reader has samples to yield it counts the first of them as yielded
/// and returns it, or the error of reading it; after that it returns
/// nothing.
#[verifier::external_body]
fn next_sample(reader: &mut hound::WavReader<std::io::Cursor<Vec<u8>>>) -> (item: Option<
    Result<i16, hound::Error>,
>)
    ensures
        reader_rate(*final(reader)) == reader_rate(*old(reader)),
        reader_remaining(*old(reader)).len() > 0 ==> {
            &&& reader_remaining(*final(reader)) == reader_remaining(*old(reader)).drop_first()
            &&& match reader_remaining(*old(reader))[0] {
                Some(sample) => item == Some(Ok::<i16, hound::Error>(sample)),
                None => item matches Some(Err(_)),
            }
        },
        reader_remaining(*old(reader)).len() == 0 ==> {
            &&& reader_remaining(*final(reader)) == reader_remaining(*old(reader))
            &&& item is None
        },
{
    reader.samples::<i16>().next()
}

/// What a container holds, as `hound` reads it: the sample rate and the
/// samples, each as sixteen bits or as nothing where it cannot be read so.
pub fn read_items(bytes: Vec<u8>) -> (result: Option<(u32, Vec<Option<i16>>)>)
    ensures
        match result {
            Some((rate, items)) => wav_stream(bytes@) == Some((rate, items@)),
            None => wav_stream(bytes@) is None,
        },
{
    match open_reader(bytes) {
        Err(_) => None,
        Ok(reader) => {
            let mut reader = reader;
            let rate: u32 = reader_sample_rate(&reader);
            let mut items: Vec<Option<i16>> = Vec::new();
            loop
                invariant
                    wav_stream(bytes@) == Some((rate, items@ + reader_remaining(reader))),
                ensures
                    wav_stream(bytes@) == Some((rate, items@)),
                decreases reader_remaining(reader).len(),
            {
                let ghost before = items@;
                let ghost rest = reader_remaining(reader);
                match next_sample(&mut reader) {
                    None => {
                        assert(items@ + rest =~= items@);
                        break ;
                    },
                    Some(Ok(sample)) => {
                        items.push(Some(sample));
                    },
                    Some(Err(_)) => {
                        items.push(None);
                    },
                }
                assert(items@ + reader_remaining(reader) =~= before + rest);
            }
            Some((rate, items))
        },
    }
}

/// Whether every sample could be read.
pub open spec fn all_read(items: Seq<Option<i16>>) -> bool {
    forall|i: int| 0 <= i < items.len() ==> (#[trigger] items[i]) is Some
}

/// The audio that the items of a container make up: all of them with the
/// rate where every one was read, an error where one was not.
pub open spec fn audio_of(rate: u32, items: Seq<Option<i16>>) -> Result<
    (Seq<i16>, u32),
    SignalError,
> {
    if all_read(items) {
        Ok((Seq::new(items.len(), |i: int| items[i].unwrap()), rate))
    } else {
        Err(SignalError::IoError)
    }
}

/// The audio that a container holds, or an error where `hound` cannot read
/// all of it as sixteen-bit samples.
pub open spec fn decoded(bytes: Seq<u8>) -> Result<(Seq<i16>, u32), SignalError> {
    match wav_stream(bytes) {
        Some((rate, items)) => audio_of(rate, items),
        None => Err(SignalError::IoError),
    }
}

/// What decoding returned, the audio taken as its samples and rate.
pub open spec fn audio_outcome(result: Result<AudioData, SignalError>) -> Result<
    (Seq<i16>, u32),
    SignalError,
> {
    match result {
        Ok(audio) => Ok(audio@),
        Err(e) => Err(e),
    }
}

/// Gathers the items of a container into audio.
pub fn audio_from_items(sample_rate: u32, items: &Vec<Option<i16>>) -> (result: Result<
    AudioData,
    SignalError,
>)
    ensures
        audio_outcome(result) == audio_of(sample_rate, items@),
{
    let mut samples: Vec<i16> = Vec::new();
    let mut i: usize = 0;
    while i < items.len()
        invariant
            i <= items.len(),
            samples.len() == i,
            forall|k: int| 0 <= k < i ==> (#[trigger] items[k]) == Some(samples[k]),
        decreases items.len() - i,
    {
        match items[i] {
            Some(sample) => {
                samples.push(sample);
            },
            None => {
                return Err(SignalError::IoError);
            },
        }
        i = i + 1;
    }
    assert(samples@ =~= Seq::new(items@.len(), |i: int| items@[i].unwrap()));
    Ok(AudioData { samples, sample_rate })
}

/// The most sixteen-bit samples that a WAVE container holds: its length
/// fields are thirty-two bits wide, and the length of the whole counts
/// thirty-six bytes of header besides the two bytes of each sample.
pub const MAX_WAV_SAMPLES: u32 = 2_147_483_629;

/// The number of samples as the container counts it, or an error for a
/// signal too long for any container.
pub fn wav_sample_count(samples: &[i16]) -> (result: Result<u32, SignalError>)
    ensures
        samples@.len() <= MAX_WAV_SAMPLES ==> result == Ok::<u32, SignalError>(
            samples@.len() as u32,
        ),
        samples@.len() > MAX_WAV_SAMPLES ==> result == Err::<u32, SignalError>(
            SignalError::IoError,
        ),
{
    if samples.len() <= MAX_WAV_SAMPLES as usize {
        Ok(samples.len() as u32)
    } else {
        Err(SignalError::IoError)
    }
}

/// Reads the audio out of a WAVE container held in memory.
pub fn decode_wav(bytes: Vec<u8>) -> (result: Result<AudioData, SignalError>)
    ensures
        audio_outcome(result) == decoded(bytes@),
{
    match read_items(bytes) {
        Some((rate, items)) => audio_from_items(rate, &items),
        None => Err(SignalError::IoError),
    }
}

} // verus!
