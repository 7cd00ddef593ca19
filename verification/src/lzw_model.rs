//! What the compressor does, stated on sequences: the dictionary it learns, the codes it
//! emits, the bytes the codes are packed into, and how a receiver gets the input back.

use crate::single::quotient_bits;
use crate::single::rounded_integer;
use vstd::prelude::*;

verus! {

/// Number of codes a dictionary may hold, the single bytes and the reset code included.
pub const MAX_DICT_SIZE: u16 = 4096;

/// Code that tells the receiver to forget everything it has learned.
pub const RESET_CODE: u16 = 256;

/// Number of input bytes between two looks at the compression ratio.
pub const CHECKPOINT_INTERVAL: usize = 16 * 1024;

/// Number of words that can be learned.
pub open spec fn capacity() -> nat {
    (MAX_DICT_SIZE - RESET_CODE - 1) as nat
}

/// A word has a code if it is a single byte or has been learned.
pub open spec fn knows(learned: Seq<Seq<u8>>, word: Seq<u8>) -> bool {
    word.len() == 1 || learned.contains(word)
}

/// The code of a known word: the byte itself, or the first code past the reset code moved on
/// by the word's place in the dictionary.
pub open spec fn code_of(learned: Seq<Seq<u8>>, word: Seq<u8>) -> u16 {
    if word.len() == 1 {
        word[0] as u16
    } else {
        (RESET_CODE + 1 + learned.index_of(word)) as u16
    }
}

/// What may stand as a dictionary: at most `capacity()` words of two bytes or more, no two
/// equal, each an extension by one byte of a word known before it.
pub open spec fn is_dictionary(learned: Seq<Seq<u8>>) -> bool {
    &&& learned.len() <= capacity()
    &&& forall|k: int| 0 <= k < learned.len() ==> #[trigger] learned[k].len() >= 2
    &&& forall|i: int, j: int|
        0 <= i < j < learned.len() ==> #[trigger] learned[i] != #[trigger] learned[j]
    &&& forall|k: int|
        0 <= k < learned.len() ==> knows(learned.take(k), #[trigger] learned[k].drop_last())
}

/// The size of the output so far, in half bytes, after one more code of a byte and a half.
/// The sum is kept in single precision.
pub open spec fn output_with_code(halves: nat) -> nat {
    rounded_integer(halves + 3)
}

/// Bit pattern of the compression ratio, computed in single precision: three quarters of the
/// output size, divided by the input size.
pub open spec fn ratio_bits(halves: nat, input_len: nat) -> int {
    quotient_bits(rounded_integer(3 * halves), 8 * rounded_integer(input_len))
}

/// State that the compressor carries from one call to the next.
#[verifier::ext_equal]
pub struct LzwState {
    /// The learned words, in the order of their codes.
    pub learned: Seq<Seq<u8>>,
    /// Number of input bytes since the last reset.
    pub input_len: nat,
    /// Output size since the last reset, in half bytes.
    pub output_halves: nat,
    /// Input size past which the ratio is looked at again.
    pub checkpoint: nat,
    /// Bit pattern of the ratio last seen, zero while there is none.
    pub ratio: int,
}

/// Where the compressor stands within one input.
#[verifier::ext_equal]
pub struct Progress {
    pub state: LzwState,
    /// Input that has been read and not yet been given a code.
    pub pending: Seq<u8>,
    /// Codes emitted so far.
    pub codes: Seq<u16>,
}

impl LzwState {
    /// State before any input.
    pub open spec fn initial() -> Self {
        LzwState {
            learned: Seq::empty(),
            input_len: 0,
            output_halves: 0,
            checkpoint: 0,
            ratio: 0,
        }
    }

    /// The full dictionary is judged: the first time the ratio is noted; past a checkpoint
    /// the dictionary is given up if the ratio has grown, and the ratio noted again if not.
    pub open spec fn judged(self) -> Self {
        let now = ratio_bits(self.output_halves, self.input_len);
        if self.ratio == 0 {
            LzwState { ratio: now, checkpoint: self.input_len + CHECKPOINT_INTERVAL as nat, ..self }
        } else if self.input_len <= self.checkpoint {
            self
        } else if self.gives_up() {
            LzwState { checkpoint: CHECKPOINT_INTERVAL as nat, ..LzwState::initial() }
        } else {
            LzwState { ratio: now, checkpoint: self.input_len + CHECKPOINT_INTERVAL as nat, ..self }
        }
    }

    /// The dictionary has got worse since it was last looked at.
    pub open spec fn gives_up(self) -> bool {
        &&& self.ratio != 0
        &&& self.input_len > self.checkpoint
        &&& self.ratio < ratio_bits(self.output_halves, self.input_len)
    }

    /// Progress after reading `input`, with what is pending still pending.
    pub open spec fn read(self, input: Seq<u8>) -> Progress
        decreases input.len(),
    {
        if input.len() == 0 {
            Progress { state: self, pending: Seq::empty(), codes: Seq::empty() }
        } else {
            self.read(input.drop_last()).next(input.last())
        }
    }

    /// The codes of one whole input.
    pub open spec fn codes(self, input: Seq<u8>) -> Seq<u16> {
        self.read(input).finished().codes
    }

    /// The state after one whole input.
    pub open spec fn after(self, input: Seq<u8>) -> LzwState {
        self.read(input).finished().state
    }

    /// The bytes that one whole input is compressed to.
    pub open spec fn output(self, input: Seq<u8>) -> Seq<u8> {
        pack(self.codes(input))
    }

    /// The state after some inputs.
    pub open spec fn after_all(self, inputs: Seq<Seq<u8>>) -> LzwState
        decreases inputs.len(),
    {
        if inputs.len() == 0 {
            self
        } else {
            self.after_all(inputs.drop_last()).after(inputs.last())
        }
    }

    /// What some inputs are compressed to, one after the other.
    pub open spec fn output_all(self, inputs: Seq<Seq<u8>>) -> Seq<Seq<u8>>
        decreases inputs.len(),
    {
        if inputs.len() == 0 {
            Seq::empty()
        } else {
            self.output_all(inputs.drop_last()).push(
                self.after_all(inputs.drop_last()).output(inputs.last()),
            )
        }
    }
}

impl Progress {
    /// One more byte. While the pending word stays known it grows; then its code is emitted
    /// and the byte starts the next word. The extended word is learned while there is room.
    pub open spec fn next(self, byte: u8) -> Progress {
        let longer = self.pending.push(byte);
        let counted = LzwState { input_len: self.state.input_len + 1, ..self.state };
        if knows(counted.learned, longer) {
            Progress { state: counted, pending: longer, codes: self.codes }
        } else {
            let code = code_of(counted.learned, self.pending);
            let emitted = LzwState {
                output_halves: output_with_code(counted.output_halves),
                ..counted
            };
            let codes = self.codes.push(code);
            if emitted.learned.len() < capacity() {
                Progress {
                    state: LzwState { learned: emitted.learned.push(longer), ..emitted },
                    pending: seq![byte],
                    codes,
                }
            } else {
                Progress {
                    state: emitted.judged(),
                    pending: seq![byte],
                    codes: if emitted.gives_up() {
                        codes.push(RESET_CODE)
                    } else {
                        codes
                    },
                }
            }
        }
    }

    /// The end of an input: what is pending gets its code.
    pub open spec fn finished(self) -> Progress {
        if self.pending.len() == 0 {
            self
        } else {
            Progress {
                state: LzwState {
                    output_halves: output_with_code(self.state.output_halves),
                    ..self.state
                },
                pending: Seq::empty(),
                codes: self.codes.push(code_of(self.state.learned, self.pending)),
            }
        }
    }
}

/// Two codes of twelve bits in three bytes, the first code first, high bits first.
pub open spec fn pack_two(first: u16, second: u16) -> Seq<u8> {
    seq![
        (first / 16) as u8,
        ((first % 16) * 16 + second / 256) as u8,
        (second % 256) as u8,
    ]
}

/// A last code of twelve bits in two bytes, the low four bits zero.
pub open spec fn pack_one(only: u16) -> Seq<u8> {
    seq![(only / 16) as u8, ((only % 16) * 16) as u8]
}

/// The codes packed pair by pair.
pub open spec fn pack(codes: Seq<u16>) -> Seq<u8>
    decreases codes.len(),
{
    if codes.len() == 0 {
        Seq::empty()
    } else if codes.len() % 2 == 1 {
        pack(codes.drop_last()) + pack_one(codes.last())
    } else {
        pack(codes.take(codes.len() - 2)) + pack_two(codes[codes.len() - 2], codes.last())
    }
}

/// The codes that a packed sequence holds. A single byte left over holds none.
pub open spec fn unpack(bytes: Seq<u8>) -> Seq<u16>
    decreases bytes.len(),
{
    let n = bytes.len() as int;
    if n == 0 {
        Seq::empty()
    } else if n % 3 == 0 {
        unpack(bytes.take(n - 3)) + seq![
            (bytes[n - 3] * 16 + bytes[n - 2] / 16) as u16,
            ((bytes[n - 2] % 16) * 256 + bytes[n - 1]) as u16,
        ]
    } else if n % 3 == 2 {
        unpack(bytes.take(n - 2)).push((bytes[n - 2] * 16 + bytes[n - 1] / 16) as u16)
    } else {
        unpack(bytes.drop_last())
    }
}

/// A receiver of codes: what it has learned, the word it read last, the text so far.
#[verifier::ext_equal]
pub struct Expansion {
    pub learned: Seq<Seq<u8>>,
    pub previous: Option<Seq<u8>>,
    pub text: Seq<u8>,
}

impl Expansion {
    /// The receiver at the start of an input.
    pub open spec fn start(learned: Seq<Seq<u8>>) -> Self {
        Expansion { learned, previous: None, text: Seq::empty() }
    }

    /// The word that a code stands for. The code just past the dictionary stands for the word
    /// that is about to be learned: the previous word followed by its own first byte.
    pub open spec fn word(self, code: u16) -> Option<Seq<u8>> {
        let k = code - RESET_CODE - 1;
        if code < RESET_CODE {
            Some(seq![code as u8])
        } else if 0 <= k < self.learned.len() {
            Some(self.learned[k])
        } else if k == self.learned.len() && k < capacity() && self.previous is Some {
            Some(self.previous->0.push(self.previous->0[0]))
        } else {
            None
        }
    }

    /// One more code, `None` if it stands for nothing.
    pub open spec fn next(self, code: u16) -> Option<Expansion> {
        if code == RESET_CODE {
            Some(Expansion { learned: Seq::empty(), previous: None, text: self.text })
        } else {
            match self.word(code) {
                None => None,
                Some(word) => Some(
                    Expansion {
                        learned: if self.previous is Some && self.learned.len() < capacity() {
                            self.learned.push(self.previous->0.push(word[0]))
                        } else {
                            self.learned
                        },
                        previous: Some(word),
                        text: self.text + word,
                    },
                ),
            }
        }
    }

    /// The receiver after `codes`.
    pub open spec fn read(self, codes: Seq<u16>) -> Option<Expansion>
        decreases codes.len(),
    {
        if codes.len() == 0 {
            Some(self)
        } else {
            match self.read(codes.drop_last()) {
                None => None,
                Some(expansion) => expansion.next(codes.last()),
            }
        }
    }
}

/// What a receiver with a dictionary makes of some packed sequences, one after the other: the
/// dictionary it ends with and the texts.
pub open spec fn receive_all(learned: Seq<Seq<u8>>, packed: Seq<Seq<u8>>) -> Option<
    (Seq<Seq<u8>>, Seq<Seq<u8>>),
>
    decreases packed.len(),
{
    if packed.len() == 0 {
        Some((learned, Seq::empty()))
    } else {
        match receive_all(learned, packed.drop_last()) {
            None => None,
            Some((reached, texts)) => match Expansion::start(reached).read(unpack(packed.last())) {
                None => None,
                Some(expansion) => Some((expansion.learned, texts.push(expansion.text))),
            },
        }
    }
}

} // verus!
