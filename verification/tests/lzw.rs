use std::collections::HashMap;
use tst::compressor::Compressor;
use tst::lzw_compressor::LzwCompressor;
use tst::single;

fn to_vec_u16(input: Vec<u8>) -> Vec<u16> {
    input.chunks(3).flat_map(decode).collect()
}

fn decode(chunk: &[u8]) -> Vec<u16> {
    match *chunk {
        [first, second, third] => {
            vec![
                ((first as u16) << 4) | ((second as u16) >> 4),
                (((second as u16) & 0x0F) << 8) | (third as u16),
            ]
        }

        [first, second] => {
            vec![((first as u16) << 4) | ((second as u16) >> 4)]
        }

        _ => vec![],
    }
}

#[test]
fn compress() {
    let mut compressor = LzwCompressor::new();

    let in1: Vec<u8> = vec![1, 2, 3, 2, 3, 1, 3, 4, 5, 2, 4, 2, 3, 1, 5];
    let out1 = to_vec_u16(compressor.compress(&in1));

    assert_eq!(out1, vec![1, 2, 3, 258, 1, 3, 4, 5, 2, 4, 260, 5]);

    let in2: Vec<u8> = vec![1, 2, 3, 2, 3, 1, 3, 4, 5, 2, 4, 2, 3, 1, 5];
    let out2 = to_vec_u16(compressor.compress(&in2));

    assert_eq!(out2, vec![257, 259, 3, 261, 263, 265, 267]);

    let in3: Vec<u8> = vec![6, 2, 3, 1, 5, 6, 2];
    let out3 = to_vec_u16(compressor.compress(&in3));

    assert_eq!(out3, vec![6, 267, 274]);
}

/// A receiver of packed codes.
struct Receiver {
    learned: Vec<Vec<u8>>,
}

impl Receiver {
    fn receive(&mut self, packed: Vec<u8>) -> Vec<u8> {
        let mut text = Vec::new();
        let mut previous: Option<Vec<u8>> = None;

        for code in to_vec_u16(packed) {
            if code == 256 {
                self.learned.clear();
                previous = None;
                continue;
            }

            let word = if code < 256 {
                vec![code as u8]
            } else if ((code - 257) as usize) < self.learned.len() {
                self.learned[(code - 257) as usize].clone()
            } else {
                assert_eq!((code - 257) as usize, self.learned.len());
                let mut word = previous.clone().unwrap();
                word.push(word[0]);
                word
            };

            if let Some(mut entry) = previous {
                if self.learned.len() < 3839 {
                    entry.push(word[0]);
                    self.learned.push(entry);
                }
            }

            text.extend_from_slice(&word);
            previous = Some(word);
        }

        text
    }
}

/// The codes that the ratio in single precision leads to.
struct FloatCodes {
    dictionary: HashMap<Vec<u8>, u16>,
    next_code: u16,
    input_len: usize,
    output_len: f32,
    checkpoint: usize,
    ratio: f32,
    resets: usize,
}

impl FloatCodes {
    fn new() -> Self {
        let mut codes = FloatCodes {
            dictionary: HashMap::new(),
            next_code: 257,
            input_len: 0,
            output_len: 0.0,
            checkpoint: 0,
            ratio: 0.0,
            resets: 0,
        };
        codes.forget();
        codes
    }

    fn forget(&mut self) {
        self.dictionary.clear();
        self.next_code = 257;
        for c in 0..=255u8 {
            self.dictionary.insert(vec![c], c as u16);
        }
    }

    fn codes(&mut self, input: &[u8]) -> Vec<u16> {
        let mut output = Vec::new();
        let mut word: Vec<u8> = Vec::new();

        for c in input {
            self.input_len += 1;
            let mut longer = word.clone();
            longer.push(*c);

            if self.dictionary.contains_key(&longer) {
                word = longer;
                continue;
            }

            output.push(self.dictionary[&word]);
            self.output_len += 1.5;

            if self.next_code < 4096 {
                self.dictionary.insert(longer, self.next_code);
                self.next_code += 1;
            } else if self.ratio == 0.0 {
                self.ratio = ((self.output_len * 3.0) / 4.0) / (self.input_len as f32);
                self.checkpoint = self.input_len + 16384;
            } else if self.input_len > self.checkpoint {
                let ratio = ((self.output_len * 3.0) / 4.0) / (self.input_len as f32);

                if self.ratio - ratio < 0.0 {
                    self.forget();
                    output.push(256);
                    self.ratio = 0.0;
                    self.input_len = 0;
                    self.output_len = 0.0;
                    self.resets += 1;
                } else {
                    self.ratio = ratio;
                }

                self.checkpoint = self.input_len + 16384;
            }

            word = vec![*c];
        }

        if !word.is_empty() {
            output.push(self.dictionary[&word]);
            self.output_len += 1.5;
        }

        output
    }
}

/// A repeatable mix of text that repeats and bytes that do not.
fn sample(seed: u64, len: usize, spread: u64) -> Vec<u8> {
    let mut x = seed;
    let mut bytes = Vec::with_capacity(len);
    for _ in 0..len {
        x = x
            .wrapping_mul(6364136223846793005)
            .wrapping_add(1442695040888963407);
        bytes.push(((x >> 33) % spread) as u8);
    }
    bytes
}

#[test]
fn compress_follows_single_precision_ratio() {
    let mut compressor = LzwCompressor::new();
    let mut expected = FloatCodes::new();
    let mut receiver = Receiver { learned: vec![] };

    for round in 0..12u64 {
        let spread = [3, 256, 7, 200, 2, 90][(round % 6) as usize];
        let input = sample(round + 1, 40_000, spread);
        let packed = compressor.compress(&input);
        assert_eq!(to_vec_u16(packed.clone()), expected.codes(&input));
        assert_eq!(receiver.receive(packed), input);
    }

    assert!(expected.resets > 1);
}

#[test]
fn compress_of_nothing_is_nothing() {
    let mut compressor = LzwCompressor::new();
    assert_eq!(compressor.compress(&[]), Vec::<u8>::new());
    assert_eq!(compressor.compress(&[0x41]), vec![0x04, 0x10]);
    assert_eq!(compressor.compress(&[]), Vec::<u8>::new());
}

#[test]
fn compress_packs_twelve_bits() {
    let mut compressor = LzwCompressor::new();
    // the codes 0xaa and 0xbb, then 257 for both
    assert_eq!(compressor.compress(&[0xaa, 0xbb]), vec![0x0a, 0xa0, 0xbb]);
    assert_eq!(compressor.compress(&[0xaa, 0xbb]), vec![0x10, 0x10]);
}

#[test]
fn receiver_learns_word_as_it_is_used() {
    let mut compressor = LzwCompressor::new();
    let mut receiver = Receiver { learned: vec![] };
    let packed = compressor.compress(&[7, 7, 7, 7, 7, 7]);
    assert_eq!(to_vec_u16(packed.clone()), vec![7, 257, 258]);
    assert_eq!(receiver.receive(packed), vec![7, 7, 7, 7, 7, 7]);
}

#[test]
fn quotient_is_single_precision_division() {
    let mut x = 1u64;
    for _ in 0..20_000 {
        x = x
            .wrapping_mul(6364136223846793005)
            .wrapping_add(1442695040888963407);
        let num = (x >> 20) % 0xff_ffff + 1;
        let den = (x >> 41) % 0x7f_ffff + 1;
        let expected = (num as f32) / (den as f32);
        assert_eq!(single::quotient(num, den as u128), expected.to_bits());
    }
    assert_eq!(single::quotient(1, 3), (1.0f32 / 3.0).to_bits());
    assert_eq!(single::quotient(3, 2), 1.5f32.to_bits());
    // a significand that rounds up to the next power of two
    assert_eq!(single::quotient(0x1ff_ffff, 1), 33554432f32.to_bits());
}

#[test]
fn quotients_keep_their_order() {
    let mut last = 0;
    for num in 1..=30_000u64 {
        let bits = single::quotient(num, 7_777_777);
        assert!(last < bits);
        last = bits;
    }
    // quotients that differ in less than the last place
    assert_eq!(single::quotient(0x100_0000, 0x100_0000), single::quotient(0x800_0001, 0x800_0000));
}

#[test]
fn round_integer_is_single_precision() {
    let mut x = 3u64;
    for shift in 0..64 {
        for _ in 0..200 {
            x = x
                .wrapping_mul(6364136223846793005)
                .wrapping_add(1442695040888963407);
            let n = x >> shift;
            assert_eq!(single::round_integer(n as u128), n as f32 as u128);
        }
    }
    assert_eq!(single::round_integer(0x100_0001), 0x100_0000);
    assert_eq!(single::round_integer(0x100_0003), 0x100_0004);
    assert_eq!(single::round_integer(u64::MAX as u128), 1 << 64);
}

#[test]
fn divide_half_even_breaks_ties_to_even() {
    assert_eq!(single::divide_half_even(5, 2), 2);
    assert_eq!(single::divide_half_even(7, 2), 4);
    assert_eq!(single::divide_half_even(8, 3), 3);
    assert_eq!(single::divide_half_even(7, 3), 2);
}

#[test]
fn running_sum_follows_single_precision() {
    let mut sum = 0.0f32;
    let mut halves = 0u128;
    for _ in 0..23_000_000u32 {
        sum += 1.5;
        halves = single::round_integer(halves + 3);
        assert_eq!(halves as f32, sum * 2.0);
    }
    assert_eq!(halves, 0x400_0000);
}
