//! Lempel-Ziv-Welch compression with codes of twelve bits.

use crate::compressor::Compressor;
use crate::lzw_laws::in_order;
use crate::lzw_laws::lemma_code_of_known;
use crate::lzw_laws::lemma_code_of_learned;
use crate::lzw_laws::lemma_finished_in_order;
use crate::lzw_laws::lemma_learn;
use crate::lzw_laws::lemma_next_in_order;
use crate::lzw_model::capacity;
use crate::lzw_model::code_of;
use crate::lzw_model::is_dictionary;
use crate::lzw_model::knows;
use crate::lzw_model::output_with_code;
use crate::lzw_model::pack;
use crate::lzw_model::pack_one;
use crate::lzw_model::pack_two;
use crate::lzw_model::ratio_bits;
use crate::lzw_model::LzwState;
use crate::lzw_model::Progress;
use crate::lzw_model::CHECKPOINT_INTERVAL;
use crate::lzw_model::MAX_DICT_SIZE;
use crate::lzw_model::RESET_CODE;
use crate::single::lemma_sum_stops;
use crate::single::quotient;
use crate::single::round_integer;
use std::collections::HashMap;
use vstd::prelude::*;

verus! {

broadcast use vstd::std_specs::hash::group_hash_axioms;

/// Key of the word that extends the word of code `prefix` by `byte`.
pub open spec fn edge(prefix: u16, byte: u8) -> u32 {
    (prefix * 256 + byte) as u32
}

/// Key under which a learned word is found.
pub open spec fn edge_of(learned: Seq<Seq<u8>>, word: Seq<u8>) -> u32 {
    edge(code_of(learned, word.drop_last()), word.last())
}

/// The edges lead to the learned words and to nothing else.
pub open spec fn leads_to(edges: Map<u32, u16>, learned: Seq<Seq<u8>>) -> bool {
    &&& forall|k: int|
        0 <= k < learned.len() ==> edges.contains_pair(
            edge_of(learned, #[trigger] learned[k]),
            (RESET_CODE + 1 + k) as u16,
        )
    &&& forall|key: u32| #[trigger]
        edges.contains_key(key) ==> {
            let k = edges[key] - RESET_CODE - 1;
            0 <= k < learned.len() && key == edge_of(learned, learned[k])
        }
}

/// A compressor that learns the words of its input as it goes. Each learned word is reached
/// from its longest proper prefix by one edge; the single bytes are known from the start.
pub struct LzwCompressor {
    edges: HashMap<u32, u16>,
    next_code: u16,
    input_len: usize,
    output_halves: u32,
    checkpoint: usize,
    ratio: u32,
    learned: Ghost<Seq<Seq<u8>>>,
}

impl View for LzwCompressor {
    type V = LzwState;

    closed spec fn view(&self) -> LzwState {
        LzwState {
            learned: self.learned@,
            input_len: self.input_len as nat,
            output_halves: self.output_halves as nat,
            checkpoint: self.checkpoint as nat,
            ratio: self.ratio as int,
        }
    }
}

/// An edge belongs to one prefix and one byte.
proof fn lemma_edge_injective(p: u16, b: u8, q: u16, c: u8)
    requires
        edge(p, b) == edge(q, c),
    ensures
        p == q,
        b == c,
{
}

/// The edge from a known word leads to its extension, if that is known.
proof fn lemma_edge_found(edges: Map<u32, u16>, learned: Seq<Seq<u8>>, word: Seq<u8>, byte: u8)
    requires
        is_dictionary(learned),
        leads_to(edges, learned),
        knows(learned, word),
    ensures
        edges.contains_key(edge(code_of(learned, word), byte)) == knows(learned, word.push(byte)),
        knows(learned, word.push(byte)) ==> edges[edge(code_of(learned, word), byte)] == code_of(
            learned,
            word.push(byte),
        ),
{
    let longer = word.push(byte);
    let key = edge(code_of(learned, word), byte);
    lemma_code_of_known(learned, word);
    assert(longer.drop_last() =~= word);
    if knows(learned, longer) {
        let k = choose|k: int| 0 <= k < learned.len() && learned[k] == longer;
        lemma_code_of_learned(learned, k);
        assert(edges.contains_pair(edge_of(learned, learned[k]), (RESET_CODE + 1 + k) as u16));
    }
    if edges.contains_key(key) {
        let k = edges[key] - RESET_CODE - 1;
        let other = learned[k];
        let prefix = other.drop_last();
        assert(learned[k].len() >= 2);
        assert(knows(learned.take(k), learned[k].drop_last()));
        assert(knows(learned, prefix)) by {
            if prefix.len() != 1 {
                let j = choose|j: int| 0 <= j < learned.take(k).len() && learned.take(k)[j] == prefix;
                assert(learned[j] == prefix);
            }
        }
        lemma_code_of_known(learned, prefix);
        lemma_edge_injective(code_of(learned, word), byte, code_of(learned, prefix), other.last());
        if word.len() == 1 {
            assert(prefix.len() == 1);
            assert(prefix =~= word);
        } else {
            assert(prefix.len() != 1);
        }
        assert(prefix =~= word);
        assert(other =~= longer);
        assert(learned.contains(longer));
    }
}

/// A new edge for a new word.
proof fn lemma_edge_added(edges: Map<u32, u16>, learned: Seq<Seq<u8>>, word: Seq<u8>, byte: u8)
    requires
        is_dictionary(learned),
        leads_to(edges, learned),
        knows(learned, word),
        !knows(learned, word.push(byte)),
        learned.len() < capacity(),
    ensures
        leads_to(
            edges.insert(
                edge(code_of(learned, word), byte),
                (RESET_CODE + 1 + learned.len()) as u16,
            ),
            learned.push(word.push(byte)),
        ),
{
    let longer = word.push(byte);
    let more = learned.push(longer);
    let key = edge(code_of(learned, word), byte);
    let grown = edges.insert(key, (RESET_CODE + 1 + learned.len()) as u16);
    lemma_edge_found(edges, learned, word, byte);
    lemma_learn(learned, word, byte);
    assert(longer.drop_last() =~= word);
    assert(edge_of(more, longer) == key) by {
        assert(knows(learned, word));
    }
    assert forall|k: int| 0 <= k < learned.len() implies edge_of(more, #[trigger] learned[k])
        == edge_of(learned, learned[k]) by {
        let prefix = learned[k].drop_last();
        assert(knows(learned.take(k), learned[k].drop_last()));
        assert(knows(learned, prefix)) by {
            if prefix.len() != 1 {
                let j = choose|j: int| 0 <= j < learned.take(k).len() && learned.take(k)[j] == prefix;
                assert(learned[j] == prefix);
            }
        }
    }
    assert forall|k: int| 0 <= k < more.len() implies grown.contains_pair(
        edge_of(more, #[trigger] more[k]),
        (RESET_CODE + 1 + k) as u16,
    ) by {
        if k < learned.len() {
            assert(more[k] == learned[k]);
            assert(edges.contains_pair(edge_of(learned, learned[k]), (RESET_CODE + 1 + k) as u16));
        }
    }
    assert forall|other: u32| #[trigger] grown.contains_key(other) implies {
        let k = grown[other] - RESET_CODE - 1;
        0 <= k < more.len() && other == edge_of(more, more[k])
    } by {
        if other != key {
            assert(edges.contains_key(other));
            let k = edges[other] - RESET_CODE - 1;
            assert(more[k] == learned[k]);
        }
    }
}

impl LzwCompressor {
    /// What holds of every compressor.
    pub closed spec fn wf(&self) -> bool {
        &&& is_dictionary(self.learned@)
        &&& leads_to(self.edges@, self.learned@)
        &&& self.next_code == RESET_CODE + 1 + self.learned@.len()
        &&& self.output_halves <= 0x400_0000
    }

    /// A compressor that has seen no input.
    pub fn new() -> (compressor: Self)
        ensures
            compressor.wf(),
            compressor@ == LzwState::initial(),
            is_dictionary(compressor@.learned),
    {
        let mut compressor = LzwCompressor {
            edges: HashMap::new(),
            next_code: RESET_CODE + 1,
            input_len: 0,
            output_halves: 0,
            checkpoint: 0,
            ratio: 0,
            learned: Ghost(Seq::empty()),
        };
        compressor.reset_dictionary();
        compressor
    }

    /// Forgets every learned word.
    fn reset_dictionary(&mut self)
        ensures
            is_dictionary(final(self)@.learned),
            leads_to(final(self).edges@, final(self)@.learned),
            final(self).next_code == RESET_CODE + 1,
            final(self)@ == (LzwState { learned: Seq::empty(), ..old(self)@ }),
    {
        self.edges.clear();
        self.next_code = RESET_CODE + 1;
        self.learned = Ghost(Seq::empty());
    }

    /// Counts one more code of output.
    fn count_code(&mut self)
        requires
            old(self).wf(),
        ensures
            final(self).wf(),
            final(self).output_halves > 0,
            final(self).edges == old(self).edges,
            final(self)@ == (LzwState {
                output_halves: output_with_code(old(self)@.output_halves),
                ..old(self)@
            }),
    {
        proof {
            lemma_sum_stops((self.output_halves + 3) as nat);
        }
        self.output_halves = round_integer(self.output_halves as u128 + 3) as u32;
    }

    /// Bit pattern of the compression ratio.
    fn current_ratio(&self) -> (bits: u32)
        requires
            self.wf(),
            self.output_halves > 0,
            self.input_len > 0,
        ensures
            bits == ratio_bits(self@.output_halves, self@.input_len),
    {
        let size: u128 = round_integer(3 * self.output_halves as u128);
        let input: u128 = round_integer(self.input_len as u128);
        quotient(size as u64, 8 * input)
    }

    /// Looks at the ratio when nothing more can be learned. Gives the dictionary up if the
    /// ratio has grown since the last look.
    fn judge(&mut self) -> (gave_up: bool)
        requires
            old(self).wf(),
            old(self).output_halves > 0,
            old(self).input_len > 0,
            old(self).input_len + CHECKPOINT_INTERVAL <= usize::MAX,
        ensures
            final(self).wf(),
            final(self)@ == old(self)@.judged(),
            gave_up == old(self)@.gives_up(),
    {
        let mut gave_up: bool = false;
        if self.ratio == 0 {
            self.ratio = self.current_ratio();
            self.checkpoint = self.input_len + CHECKPOINT_INTERVAL;
        } else if self.input_len > self.checkpoint {
            let ratio: u32 = self.current_ratio();
            if self.ratio < ratio {
                self.reset_dictionary();
                self.ratio = 0;
                self.input_len = 0;
                self.output_halves = 0;
                gave_up = true;
            } else {
                self.ratio = ratio;
            }
            self.checkpoint = self.input_len + CHECKPOINT_INTERVAL;
        }
        gave_up
    }

    /// Takes one byte. `code` is the code of what is pending, if anything is; the code of what
    /// is pending afterwards is returned.
    fn advance(
        &mut self,
        code: Option<u16>,
        byte: u8,
        output: &mut Vec<u16>,
        Ghost(pending): Ghost<Seq<u8>>,
    ) -> (next: u16)
        requires
            old(self).wf(),
            in_order(
                Progress { state: old(self)@, pending, codes: old(output)@ },
                code is Some,
            ),
            code matches Some(code) ==> code == code_of(old(self)@.learned, pending),
            old(self)@.input_len + 1 + CHECKPOINT_INTERVAL <= usize::MAX,
        ensures
            final(self).wf(),
            ({
                let after = (Progress { state: old(self)@, pending, codes: old(output)@ }).next(
                    byte,
                );
                &&& final(self)@ == after.state
                &&& final(output)@ == after.codes
                &&& next == code_of(after.state.learned, after.pending)
            }),
            final(self)@.input_len <= old(self)@.input_len + 1,
    {
        let ghost longer = pending.push(byte);
        self.input_len = self.input_len + 1;
        match code {
            None => {
                assert(longer =~= seq![byte]);
                byte as u16
            },
            Some(code) => {
                let key: u32 = code as u32 * 256 + byte as u32;
                proof {
                    lemma_edge_found(self.edges@, self.learned@, pending, byte);
                }
                match self.edges.get(&key) {
                    Some(known) => *known,
                    None => {
                        output.push(code);
                        self.count_code();
                        if self.next_code < MAX_DICT_SIZE {
                            proof {
                                lemma_edge_added(self.edges@, self.learned@, pending, byte);
                                lemma_learn(self.learned@, pending, byte);
                            }
                            self.edges.insert(key, self.next_code);
                            self.next_code = self.next_code + 1;
                            self.learned = Ghost(self.learned@.push(longer));
                        } else if self.judge() {
                            output.push(RESET_CODE);
                        }
                        byte as u16
                    },
                }
            },
        }
    }

    /// Packs a pair of codes, or a last single code.
    fn encode(chunk: &[u16]) -> (bytes: Vec<u8>)
        requires
            forall|i: int| 0 <= i < chunk@.len() ==> #[trigger] chunk@[i] < MAX_DICT_SIZE,
        ensures
            chunk@.len() == 2 ==> bytes@ == pack_two(chunk@[0], chunk@[1]),
            chunk@.len() == 1 ==> bytes@ == pack_one(chunk@[0]),
            chunk@.len() != 1 && chunk@.len() != 2 ==> bytes@.len() == 0,
    {
        if chunk.len() == 2 {
            let first: u16 = chunk[0];
            let second: u16 = chunk[1];
            assert(first >> 4 == first / 16 && first & 0x0F == first % 16 && second >> 8 == second
                / 256 && second & 0xFF == second % 256) by (bit_vector);
            let high: u8 = (first & 0x0F) as u8;
            let low: u8 = (second >> 8) as u8;
            assert((high << 4) | low == high * 16 + low) by (bit_vector)
                requires
                    high < 16,
                    low < 16,
            ;
            let bytes: Vec<u8> = vec![(first >> 4) as u8, (high << 4) | low, (second & 0xFF) as u8];
            assert(bytes@ =~= pack_two(first, second));
            bytes
        } else if chunk.len() == 1 {
            let only: u16 = chunk[0];
            assert(only >> 4 == only / 16 && only & 0x0F == only % 16) by (bit_vector);
            let high: u8 = (only & 0x0F) as u8;
            assert(high << 4 == high * 16) by (bit_vector)
                requires
                    high < 16,
            ;
            let bytes: Vec<u8> = vec![(only >> 4) as u8, high << 4];
            assert(bytes@ =~= pack_one(only));
            bytes
        } else {
            Vec::new()
        }
    }

    /// Packs all codes of one input.
    fn encode_all(codes: &Vec<u16>) -> (bytes: Vec<u8>)
        requires
            forall|i: int| 0 <= i < codes@.len() ==> #[trigger] codes@[i] < MAX_DICT_SIZE,
        ensures
            bytes@ == pack(codes@),
    {
        let mut bytes: Vec<u8> = Vec::new();
        let mut i: usize = 0;
        while i < codes.len()
            invariant
                i <= codes.len(),
                i < codes.len() ==> i % 2 == 0,
                bytes@ == pack(codes@.take(i as int)),
                forall|i: int| 0 <= i < codes@.len() ==> #[trigger] codes@[i] < MAX_DICT_SIZE,
            decreases codes.len() - i,
        {
            let end: usize = if codes.len() - i >= 2 {
                i + 2
            } else {
                i + 1
            };
            let mut packed: Vec<u8> = LzwCompressor::encode(
                vstd::slice::slice_subrange(codes.as_slice(), i, end),
            );
            bytes.append(&mut packed);
            assert(codes@.take(end as int).take(i as int) =~= codes@.take(i as int));
            assert(end == i + 1 ==> codes@.take(end as int).drop_last() =~= codes@.take(i as int));
            i = end;
        }
        assert(codes@.take(i as int) =~= codes@);
        bytes
    }
}

impl Compressor for LzwCompressor {
    /// The counters of a call and the next checkpoint have to fit a machine word.
    open spec fn accepts(&self, input: Seq<u8>) -> bool {
        &&& self.wf()
        &&& self@.input_len + input.len() + CHECKPOINT_INTERVAL <= usize::MAX
    }

    open spec fn compressed(&self, input: Seq<u8>) -> Seq<u8> {
        self@.output(input)
    }

    fn compress(&mut self, input: &[u8]) -> (output: Vec<u8>)
        ensures
            output@ == old(self)@.output(input@),
            final(self)@ == old(self)@.after(input@),
            final(self).wf(),
            is_dictionary(final(self)@.learned),
    {
        let mut codes: Vec<u16> = Vec::new();
        let mut code: Option<u16> = None;
        let mut i: usize = 0;
        let ghost start = self@;
        assert(input@.take(0) =~= Seq::<u8>::empty());
        while i < input.len()
            invariant
                i <= input.len(),
                self.wf(),
                is_dictionary(start.learned),
                ({
                    let progress = start.read(input@.take(i as int));
                    &&& self@ == progress.state
                    &&& codes@ == progress.codes
                    &&& in_order(progress, i > 0)
                    &&& code is Some == (i > 0)
                    &&& code matches Some(code) ==> code == code_of(
                        progress.state.learned,
                        progress.pending,
                    )
                }),
                self@.input_len <= start.input_len + i,
                start.input_len + input.len() + CHECKPOINT_INTERVAL <= usize::MAX,
            decreases input.len() - i,
        {
            let ghost progress = start.read(input@.take(i as int));
            proof {
                let more = input@.take(i + 1);
                assert(more.drop_last() =~= input@.take(i as int));
                assert(more.last() == input@[i as int]);
                lemma_next_in_order(progress, input@[i as int]);
            }
            let next: u16 = self.advance(code, input[i], &mut codes, Ghost(progress.pending));
            code = Some(next);
            i = i + 1;
        }
        assert(input@.take(i as int) =~= input@);
        proof {
            lemma_finished_in_order(start.read(input@));
        }
        if let Some(last) = code {
            codes.push(last);
            self.count_code();
        }
        LzwCompressor::encode_all(&codes)
    }
}

/// Any input can be compressed while the input size and the next checkpoint, 16384 bytes ahead,
/// fit a machine word, and it is compressed to its codes, packed.
pub proof fn law_any_input_accepted(compressor: LzwCompressor, input: Seq<u8>)
    requires
        compressor.wf(),
    ensures
        compressor@.input_len + input.len() + 16384 <= usize::MAX ==> compressor.accepts(input),
        compressor.compressed(input) == pack(compressor@.codes(input)),
{
}

} // verus!
