//! Laws of the compression: the codes fit twelve bits, packing loses nothing, and a receiver
//! that has followed the earlier inputs gets every input back.

use crate::lzw_model::capacity;
use crate::lzw_model::code_of;
use crate::lzw_model::is_dictionary;
use crate::lzw_model::knows;
use crate::lzw_model::pack;
use crate::lzw_model::pack_one;
use crate::lzw_model::pack_two;
use crate::lzw_model::ratio_bits;
use crate::lzw_model::receive_all;
use crate::lzw_model::unpack;
use crate::lzw_model::Expansion;
use crate::lzw_model::LzwState;
use crate::lzw_model::Progress;
use crate::lzw_model::MAX_DICT_SIZE;
use crate::lzw_model::RESET_CODE;
use crate::single::law_quotient_monotone;
use crate::single::law_quotient_nearest;
use crate::single::lemma_rounded_positive;
use crate::single::rounded_integer;
use vstd::arithmetic::power2::pow2;
use vstd::prelude::*;

verus! {

/// Learned words have the codes that follow the reset code, in order.
pub proof fn lemma_code_of_learned(learned: Seq<Seq<u8>>, k: int)
    requires
        is_dictionary(learned),
        0 <= k < learned.len(),
    ensures
        code_of(learned, learned[k]) == RESET_CODE + 1 + k,
{
    let word = learned[k];
    assert(word.len() >= 2);
    assert(learned.contains(word));
    let i = learned.index_of(word);
    assert(0 <= i < learned.len() && learned[i] == word);
    if i < k {
        assert(learned[i] != learned[k]);
    } else if k < i {
        assert(learned[k] != learned[i]);
    }
}

/// A known word has a code of twelve bits that is not the reset code.
pub proof fn lemma_code_of_known(learned: Seq<Seq<u8>>, word: Seq<u8>)
    requires
        is_dictionary(learned),
        knows(learned, word),
    ensures
        word.len() >= 1,
        code_of(learned, word) < MAX_DICT_SIZE,
        code_of(learned, word) != RESET_CODE,
        word.len() == 1 ==> code_of(learned, word) == word[0],
        word.len() != 1 ==> {
            let k = code_of(learned, word) - RESET_CODE - 1;
            0 <= k < learned.len() && learned[k] == word
        },
{
    if word.len() != 1 {
        let k = choose|k: int| 0 <= k < learned.len() && learned[k] == word;
        assert(learned[k].len() >= 2);
        lemma_code_of_learned(learned, k);
    }
}

/// An unknown extension of a known word may be learned while there is room, and no word
/// changes its code by that.
pub proof fn lemma_learn(learned: Seq<Seq<u8>>, word: Seq<u8>, byte: u8)
    requires
        is_dictionary(learned),
        learned.len() < capacity(),
        knows(learned, word),
        !knows(learned, word.push(byte)),
    ensures
        is_dictionary(learned.push(word.push(byte))),
        code_of(learned.push(word.push(byte)), word.push(byte)) == RESET_CODE + 1 + learned.len(),
        forall|w: Seq<u8>| #[trigger]
            knows(learned, w) ==> knows(learned.push(word.push(byte)), w) && code_of(
                learned.push(word.push(byte)),
                w,
            ) == code_of(learned, w),
{
    let longer = word.push(byte);
    let more = learned.push(longer);
    lemma_code_of_known(learned, word);
    assert(longer.drop_last() =~= word);
    assert forall|k: int| 0 <= k < more.len() implies knows(
        more.take(k),
        #[trigger] more[k].drop_last(),
    ) by {
        if k < learned.len() {
            assert(more.take(k) =~= learned.take(k));
            assert(knows(learned.take(k), learned[k].drop_last()));
        } else {
            assert(more.take(k) =~= learned);
        }
    }
    assert forall|i: int, j: int| 0 <= i < j < more.len() implies #[trigger] more[i]
        != #[trigger] more[j] by {
        if j < learned.len() {
            assert(learned[i] != learned[j]);
        } else {
            assert(learned.contains(learned[i]));
        }
    }
    assert(is_dictionary(more));
    assert(more[learned.len() as int] == longer);
    lemma_code_of_learned(more, learned.len() as int);
    assert forall|w: Seq<u8>| #[trigger] knows(learned, w) implies knows(more, w) && code_of(more, w)
        == code_of(learned, w) by {
        if w.len() != 1 {
            let k = choose|k: int| 0 <= k < learned.len() && learned[k] == w;
            assert(more[k] == w);
            lemma_code_of_learned(learned, k);
            lemma_code_of_learned(more, k);
        }
    }
}

/// What holds of a compressor within an input: its dictionary is one, what is pending is
/// known, every code fits twelve bits.
pub open spec fn in_order(progress: Progress, started: bool) -> bool {
    &&& is_dictionary(progress.state.learned)
    &&& started == (progress.pending.len() > 0)
    &&& progress.pending.len() > 0 ==> knows(progress.state.learned, progress.pending)
    &&& forall|i: int|
        0 <= i < progress.codes.len() ==> #[trigger] progress.codes[i] < MAX_DICT_SIZE
}

/// One byte keeps a compressor in order.
pub proof fn lemma_next_in_order(progress: Progress, byte: u8)
    requires
        in_order(progress, progress.pending.len() > 0),
    ensures
        in_order(progress.next(byte), true),
{
    let learned = progress.state.learned;
    let longer = progress.pending.push(byte);
    if !knows(learned, longer) {
        lemma_code_of_known(learned, progress.pending);
        if learned.len() < capacity() {
            lemma_learn(learned, progress.pending, byte);
        }
    }
}

/// A compressor stays in order through an input.
pub proof fn lemma_read_in_order(state: LzwState, input: Seq<u8>)
    requires
        is_dictionary(state.learned),
    ensures
        in_order(state.read(input), input.len() > 0),
    decreases input.len(),
{
    if input.len() > 0 {
        lemma_read_in_order(state, input.drop_last());
        lemma_next_in_order(state.read(input.drop_last()), input.last());
    }
}

/// The end of an input keeps the dictionary, and the codes fit twelve bits.
pub proof fn lemma_finished_in_order(progress: Progress)
    requires
        in_order(progress, progress.pending.len() > 0),
    ensures
        in_order(progress.finished(), false),
        progress.finished().state.learned == progress.state.learned,
{
    if progress.pending.len() > 0 {
        lemma_code_of_known(progress.state.learned, progress.pending);
    }
}

/// Every input leaves a dictionary behind, so that the next input can be compressed.
pub proof fn law_dictionary_kept(state: LzwState, input: Seq<u8>)
    requires
        is_dictionary(state.learned),
    ensures
        is_dictionary(state.after(input).learned),
{
    lemma_read_in_order(state, input);
    lemma_finished_in_order(state.read(input));
}

/// Every emitted code fits twelve bits.
pub proof fn law_codes_fit(state: LzwState, input: Seq<u8>, i: int)
    requires
        is_dictionary(state.learned),
        0 <= i < state.codes(input).len(),
    ensures
        state.codes(input)[i] < MAX_DICT_SIZE,
{
    lemma_read_in_order(state, input);
    lemma_finished_in_order(state.read(input));
}

/// The receiver has read the codes emitted so far: it is short of the pending text, and of
/// the word that the compressor learned when it emitted its last code.
spec fn follows(progress: Progress, expansion: Expansion, input: Seq<u8>) -> bool {
    &&& expansion.text + progress.pending == input
    &&& match expansion.previous {
        None => expansion.learned == progress.state.learned,
        Some(word) => {
            &&& word.len() > 0
            &&& progress.pending.len() > 0
            &&& if expansion.learned.len() < capacity() {
                progress.state.learned == expansion.learned.push(word.push(progress.pending[0]))
            } else {
                progress.state.learned == expansion.learned
            }
        },
    }
}

/// The code of what is pending brings the receiver up to the compressor.
proof fn lemma_catch_up(progress: Progress, expansion: Expansion, input: Seq<u8>)
    requires
        in_order(progress, true),
        follows(progress, expansion, input),
    ensures
        expansion.next(code_of(progress.state.learned, progress.pending)) == Some(
            Expansion {
                learned: progress.state.learned,
                previous: Some(progress.pending),
                text: input,
            },
        ),
{
    let learned = progress.state.learned;
    let pending = progress.pending;
    let code = code_of(learned, pending);
    lemma_code_of_known(learned, pending);
    if pending.len() == 1 {
        assert(seq![code as u8] =~= pending);
    } else {
        let k = code - RESET_CODE - 1;
        if k == expansion.learned.len() {
            let word = expansion.previous->0;
            assert(pending == word.push(pending[0]));
            assert(pending[0] == word[0]);
        }
    }
    assert(expansion.word(code) == Some(pending));
}

/// Reading a code after others.
proof fn lemma_read_push(expansion: Expansion, codes: Seq<u16>, code: u16)
    ensures
        expansion.read(codes.push(code)) == match expansion.read(codes) {
            None => None,
            Some(reached) => reached.next(code),
        },
{
    assert(codes.push(code).drop_last() =~= codes);
}

/// The receiver follows the compressor through an input.
proof fn lemma_receiver_follows(state: LzwState, input: Seq<u8>)
    requires
        is_dictionary(state.learned),
    ensures
        Expansion::start(state.learned).read(state.read(input).codes) is Some,
        follows(
            state.read(input),
            Expansion::start(state.learned).read(state.read(input).codes)->0,
            input,
        ),
    decreases input.len(),
{
    let start = Expansion::start(state.learned);
    if input.len() == 0 {
        assert(start.text + Seq::<u8>::empty() =~= input);
    } else {
        let shorter = input.drop_last();
        let byte = input.last();
        let before = state.read(shorter);
        let progress = state.read(input);
        lemma_receiver_follows(state, shorter);
        lemma_read_in_order(state, shorter);
        let expansion = start.read(before.codes)->0;
        let longer = before.pending.push(byte);
        if knows(before.state.learned, longer) {
            assert(expansion.text + longer =~= (expansion.text + before.pending).push(byte));
            assert(shorter.push(byte) =~= input);
        } else {
            let code = code_of(before.state.learned, before.pending);
            lemma_catch_up(before, expansion, shorter);
            lemma_read_push(start, before.codes, code);
            lemma_read_push(start, before.codes.push(code), RESET_CODE);
            assert(shorter + seq![byte] =~= input);
        }
    }
}

/// Compression is lossless. A receiver with the compressor's dictionary that unpacks the
/// output of one input and reads its codes holds exactly that input, and ends with the
/// dictionary that the compressor ends with, ready for the next input.
pub proof fn law_lossless(state: LzwState, input: Seq<u8>)
    requires
        is_dictionary(state.learned),
    ensures
        Expansion::start(state.learned).read(unpack(state.output(input))) matches Some(reached)
            && reached.text == input && reached.learned == state.after(input).learned,
{
    let start = Expansion::start(state.learned);
    let progress = state.read(input);
    lemma_receiver_follows(state, input);
    lemma_read_in_order(state, input);
    lemma_finished_in_order(progress);
    law_unpack_pack(state.codes(input));
    if input.len() > 0 {
        let code = code_of(progress.state.learned, progress.pending);
        lemma_catch_up(progress, start.read(progress.codes)->0, input);
        lemma_read_push(start, progress.codes, code);
    }
}

/// Compression is lossless over any number of inputs: a receiver that starts as the compressor
/// does and takes its outputs in order holds exactly the inputs.
pub proof fn law_lossless_all(state: LzwState, inputs: Seq<Seq<u8>>)
    requires
        is_dictionary(state.learned),
    ensures
        is_dictionary(state.after_all(inputs).learned),
        receive_all(state.learned, state.output_all(inputs)) == Some(
            (state.after_all(inputs).learned, inputs),
        ),
    decreases inputs.len(),
{
    if inputs.len() > 0 {
        let earlier = inputs.drop_last();
        let before = state.after_all(earlier);
        law_lossless_all(state, earlier);
        law_lossless(before, inputs.last());
        law_dictionary_kept(before, inputs.last());
        assert(state.output_all(inputs).drop_last() =~= state.output_all(earlier));
        assert(earlier.push(inputs.last()) =~= inputs);
    } else {
        assert(inputs =~= Seq::empty());
    }
}

/// Packing loses no code of twelve bits.
pub proof fn law_unpack_pack(codes: Seq<u16>)
    requires
        forall|i: int| 0 <= i < codes.len() ==> #[trigger] codes[i] < MAX_DICT_SIZE,
    ensures
        unpack(pack(codes)) == codes,
        pack(codes).len() == codes.len() / 2 * 3 + codes.len() % 2 * 2,
    decreases codes.len(),
{
    let n = codes.len() as int;
    let bytes = pack(codes);
    if n == 0 {
    } else if n % 2 == 1 {
        let rest = codes.drop_last();
        law_unpack_pack(rest);
        assert(bytes.take(bytes.len() - 2) =~= pack(rest));
        let only = codes.last();
        assert(codes[n - 1] < MAX_DICT_SIZE);
        assert(pack_one(only)[0] == only / 16 && pack_one(only)[1] == (only % 16) * 16);
        assert(bytes.len() % 3 == 2);
        assert(bytes[bytes.len() - 2] * 16 + bytes[bytes.len() - 1] / 16 == only);
        assert(unpack(bytes) =~= codes);
    } else {
        let rest = codes.take(n - 2);
        law_unpack_pack(rest);
        assert(bytes.take(bytes.len() - 3) =~= pack(rest));
        let first = codes[n - 2];
        let second = codes[n - 1];
        assert(first < MAX_DICT_SIZE && second < MAX_DICT_SIZE);
        let three = pack_two(first, second);
        assert(three[0] == first / 16);
        assert(three[1] == (first % 16) * 16 + second / 256);
        assert(three[2] == second % 256);
        assert(bytes.len() % 3 == 0);
        assert(three[0] * 16 + three[1] / 16 == first);
        assert((three[1] % 16) * 256 + three[2] == second);
        assert(bytes[bytes.len() - 3] == three[0]);
        assert(unpack(bytes) =~= codes);
    }
}

/// A dictionary is given up only if it compresses worse than it did: where the ratio noted at
/// `halves` and `input_len` is below the present one, the present output is larger in
/// proportion to its input, by the sizes as single precision holds them.
pub proof fn law_given_up_only_if_worse(state: LzwState, halves: nat, input_len: nat)
    requires
        halves > 0,
        input_len > 0,
        state.output_halves > 0,
        state.input_len > 0,
        state.ratio == ratio_bits(halves, input_len),
        state.gives_up(),
    ensures
        rounded_integer(3 * halves) * rounded_integer(state.input_len) < rounded_integer(
            3 * state.output_halves,
        ) * rounded_integer(input_len),
{
    let a = rounded_integer(3 * halves);
    let b = rounded_integer(input_len);
    let c = rounded_integer(3 * state.output_halves);
    let d = rounded_integer(state.input_len);
    lemma_rounded_positive(3 * halves);
    lemma_rounded_positive(input_len);
    lemma_rounded_positive(3 * state.output_halves);
    lemma_rounded_positive(state.input_len);
    if c * b <= a * d {
        assert(c * (8 * b) <= a * (8 * d)) by (nonlinear_arith)
            requires
                c * b <= a * d,
        ;
        law_quotient_monotone(c, 8 * d, a, 8 * b);
    }
}

/// Before any input nothing is learned and nothing is counted.
pub proof fn law_initial()
    ensures
        LzwState::initial().learned.len() == 0,
        LzwState::initial().input_len == 0,
        LzwState::initial().output_halves == 0,
        LzwState::initial().checkpoint == 0,
        LzwState::initial().ratio == 0,
        is_dictionary(LzwState::initial().learned),
{
}

/// A byte that makes a known word of what is pending is added to it, and nothing else happens
/// than that it is counted.
pub proof fn law_known_word_waits(progress: Progress, byte: u8)
    requires
        progress.pending.len() == 0 || progress.state.learned.contains(progress.pending.push(byte)),
    ensures
        progress.next(byte).pending == progress.pending.push(byte),
        progress.next(byte).codes == progress.codes,
        progress.next(byte).state == (LzwState {
            input_len: progress.state.input_len + 1,
            ..progress.state
        }),
{
}

/// A byte that makes no known word ends what is pending, whose code is emitted: a single byte
/// is its own code, a learned word has its place in the dictionary, counted from 257. The byte
/// starts the next word.
pub proof fn law_unknown_word_ends(progress: Progress, byte: u8)
    requires
        in_order(progress, true),
        !progress.state.learned.contains(progress.pending.push(byte)),
    ensures
        progress.next(byte).pending == seq![byte],
        progress.next(byte).codes.len() > progress.codes.len(),
        progress.next(byte).codes.take(progress.codes.len() as int) == progress.codes,
        ({
            let code = progress.next(byte).codes[progress.codes.len() as int];
            if progress.pending.len() == 1 {
                code == progress.pending[0]
            } else {
                257 <= code < 257 + progress.state.learned.len() && progress.state.learned[code
                    - 257] == progress.pending
            }
        }),
{
    lemma_code_of_known(progress.state.learned, progress.pending);
    assert(progress.next(byte).codes.take(progress.codes.len() as int) =~= progress.codes);
}

/// The reset code is emitted, and the dictionary forgotten, exactly where a word ends, nothing
/// more can be learned, a ratio has been noted, the input is past the checkpoint and the ratio
/// has grown. Then everything starts anew, with the checkpoint 16384 bytes ahead.
pub proof fn law_reset_exactly_if_worse(progress: Progress, byte: u8)
    requires
        in_order(progress, progress.pending.len() > 0),
    ensures
        ({
            let next = progress.next(byte);
            let count = progress.state.input_len + 1;
            let halves = rounded_integer(progress.state.output_halves + 3);
            let worse = {
                &&& progress.pending.len() > 0
                &&& !progress.state.learned.contains(progress.pending.push(byte))
                &&& progress.state.learned.len() == 3839
                &&& progress.state.ratio != 0
                &&& count > progress.state.checkpoint
                &&& progress.state.ratio < ratio_bits(halves, count)
            };
            &&& worse ==> {
                &&& next.codes.len() == progress.codes.len() + 2
                &&& next.codes.last() == 256
                &&& next.state.learned.len() == 0
                &&& next.state.input_len == 0
                &&& next.state.output_halves == 0
                &&& next.state.ratio == 0
                &&& next.state.checkpoint == 16384
            }
            &&& !worse ==> {
                &&& next.codes.len() <= progress.codes.len() + 1
                &&& next.codes.len() == progress.codes.len() + 1 ==> next.codes.last() != 256
                &&& next.state.input_len == count
                &&& progress.state.learned.len() <= next.state.learned.len()
                &&& next.state.learned.take(progress.state.learned.len() as int)
                    == progress.state.learned
            }
        }),
{
    let learned = progress.state.learned;
    if !knows(learned, progress.pending.push(byte)) {
        lemma_code_of_known(learned, progress.pending);
    }
    let longer = progress.pending.push(byte);
    assert(learned.take(learned.len() as int) =~= learned);
    assert(learned.push(longer).take(learned.len() as int) =~= learned);
}

/// A word that ends is learned, extended by the byte that ended it, while fewer than 3839
/// words are; the code that it gets is the next one. Then its code is counted, a byte and a
/// half, and neither the checkpoint nor the ratio changes.
pub proof fn law_word_learned(progress: Progress, byte: u8)
    requires
        in_order(progress, true),
        !progress.state.learned.contains(progress.pending.push(byte)),
        progress.state.learned.len() < 3839,
    ensures
        progress.next(byte).state == (LzwState {
            learned: progress.state.learned.push(progress.pending.push(byte)),
            input_len: progress.state.input_len + 1,
            output_halves: rounded_integer(progress.state.output_halves + 3),
            ..progress.state
        }),
        code_of(progress.next(byte).state.learned, progress.pending.push(byte)) == 257
            + progress.state.learned.len(),
{
    lemma_learn(progress.state.learned, progress.pending, byte);
}

/// A full dictionary that is kept stays as it is. The first time, and each time past a
/// checkpoint, the ratio is noted and the checkpoint put 16384 bytes ahead; else neither
/// changes.
pub proof fn law_full_dictionary_kept(progress: Progress, byte: u8)
    requires
        in_order(progress, true),
        !progress.state.learned.contains(progress.pending.push(byte)),
        progress.state.learned.len() == 3839,
        progress.next(byte).codes.len() == progress.codes.len() + 1,
    ensures
        ({
            let next = progress.next(byte).state;
            let count = progress.state.input_len + 1;
            let halves = rounded_integer(progress.state.output_halves + 3);
            let looks = progress.state.ratio == 0 || count > progress.state.checkpoint;
            &&& next.learned == progress.state.learned
            &&& next.input_len == count
            &&& next.output_halves == halves
            &&& looks ==> next.ratio == ratio_bits(halves, count) && next.checkpoint == count
                + 16384
            &&& !looks ==> next.ratio == progress.state.ratio && next.checkpoint
                == progress.state.checkpoint
        }),
{
}

/// At the end of an input the code of what is pending is emitted and counted, and nothing else
/// changes; where nothing is pending nothing happens at all.
pub proof fn law_end_of_input(progress: Progress)
    requires
        in_order(progress, progress.pending.len() > 0),
    ensures
        progress.pending.len() == 0 ==> progress.finished() == progress,
        progress.pending.len() > 0 ==> {
            let end = progress.finished();
            let code = end.codes.last();
            &&& end.codes.len() == progress.codes.len() + 1
            &&& end.codes.drop_last() == progress.codes
            &&& progress.pending.len() == 1 ==> code == progress.pending[0]
            &&& progress.pending.len() > 1 ==> 257 <= code < 257 + progress.state.learned.len()
                && progress.state.learned[code - 257] == progress.pending
            &&& end.pending.len() == 0
            &&& end.state == (LzwState {
                output_halves: rounded_integer(progress.state.output_halves + 3),
                ..progress.state
            })
        },
{
    if progress.pending.len() > 0 {
        lemma_code_of_known(progress.state.learned, progress.pending);
        assert(progress.finished().codes.drop_last() =~= progress.codes);
    }
}

/// An input is read byte by byte, from nothing pending and no codes; its output holds the
/// codes of all of it.
pub proof fn law_byte_by_byte(state: LzwState, input: Seq<u8>, byte: u8)
    ensures
        state.read(Seq::empty()).state == state,
        state.read(Seq::empty()).pending.len() == 0,
        state.read(Seq::empty()).codes.len() == 0,
        state.read(input.push(byte)) == state.read(input).next(byte),
        state.codes(input) == state.read(input).finished().codes,
        state.after(input) == state.read(input).finished().state,
        state.output(input) == pack(state.codes(input)),
{
    assert(input.push(byte).drop_last() =~= input);
}

/// Inputs follow each other: each is compressed in the state that the one before it left.
pub proof fn law_input_by_input(state: LzwState, inputs: Seq<Seq<u8>>, input: Seq<u8>)
    ensures
        state.after_all(Seq::empty()) == state,
        state.after_all(inputs.push(input)) == state.after_all(inputs).after(input),
        state.output_all(Seq::empty()).len() == 0,
        state.output_all(inputs.push(input)) == state.output_all(inputs).push(
            state.after_all(inputs).output(input),
        ),
{
    assert(inputs.push(input).drop_last() =~= inputs);
}

/// Reading keeps count: codes other than the reset code, together with what is pending, take a
/// byte of input each; a reset takes 16384 at least.
proof fn lemma_pace(state: LzwState, input: Seq<u8>)
    requires
        is_dictionary(state.learned),
        state.ratio != 0 ==> state.checkpoint >= 16384,
    ensures
        ({
            let progress = state.read(input);
            let resets = progress.codes.to_multiset().count(256);
            &&& progress.codes.len() + (if progress.pending.len() > 0 {
                1int
            } else {
                0int
            }) <= input.len() + resets
            &&& 16384 * resets + progress.state.input_len <= state.input_len + input.len()
            &&& progress.state.ratio != 0 ==> progress.state.checkpoint >= 16384
        }),
    decreases input.len(),
{
    broadcast use vstd::seq_lib::group_to_multiset_ensures;

    if input.len() == 0 {
        assert(state.read(input).codes =~= Seq::empty());
    } else {
        let shorter = input.drop_last();
        let byte = input.last();
        let before = state.read(shorter);
        lemma_pace(state, shorter);
        lemma_read_in_order(state, shorter);
        if !knows(before.state.learned, before.pending.push(byte)) {
            lemma_code_of_known(before.state.learned, before.pending);
        }
    }
}

/// Compression never expands much. An input has at most one code for each of its bytes and one
/// more for each reset; each reset takes 16384 bytes of input at least since the one before it;
/// two codes take three bytes. What the law needs of a state holds again afterwards.
pub proof fn law_output_bounded(state: LzwState, input: Seq<u8>)
    requires
        is_dictionary(state.learned),
        state.ratio != 0 ==> state.checkpoint >= 16384,
    ensures
        ({
            let resets = state.codes(input).to_multiset().count(256);
            &&& state.codes(input).len() <= input.len() + resets
            &&& 16384 * resets + state.after(input).input_len <= state.input_len + input.len()
            &&& 2 * state.output(input).len() <= 3 * state.codes(input).len() + 1
            &&& state.after(input).ratio != 0 ==> state.after(input).checkpoint >= 16384
        }),
{
    broadcast use vstd::seq_lib::group_to_multiset_ensures;

    lemma_pace(state, input);
    lemma_read_in_order(state, input);
    lemma_finished_in_order(state.read(input));
    law_unpack_pack(state.codes(input));
    let progress = state.read(input);
    if progress.pending.len() > 0 {
        lemma_code_of_known(progress.state.learned, progress.pending);
    }
}

/// Whatever a new compressor has been given, what bounds its further output holds.
pub proof fn law_output_stays_bounded(inputs: Seq<Seq<u8>>)
    ensures
        ({
            let state = LzwState::initial().after_all(inputs);
            &&& is_dictionary(state.learned)
            &&& state.ratio != 0 ==> state.checkpoint >= 16384
        }),
    decreases inputs.len(),
{
    if inputs.len() > 0 {
        law_output_stays_bounded(inputs.drop_last());
        let before = LzwState::initial().after_all(inputs.drop_last());
        law_output_bounded(before, inputs.last());
        law_dictionary_kept(before, inputs.last());
    }
}

/// A known word stays known while it is read.
proof fn lemma_known_word_read(state: LzwState, word: Seq<u8>)
    requires
        is_dictionary(state.learned),
        knows(state.learned, word),
    ensures
        state.read(word) == (Progress {
            state: LzwState { input_len: state.input_len + word.len(), ..state },
            pending: word,
            codes: Seq::empty(),
        }),
    decreases word.len(),
{
    let shorter = word.drop_last();
    lemma_code_of_known(state.learned, word);
    assert(shorter.push(word.last()) =~= word);
    assert(state.read(word) == state.read(shorter).next(word.last()));
    if word.len() == 1 {
        assert(shorter =~= Seq::empty());
        assert(state.read(shorter).state == state);
        assert(state.read(shorter).pending =~= shorter);
        assert(state.read(shorter).codes =~= Seq::empty());
    } else {
        let k = choose|k: int| 0 <= k < state.learned.len() && state.learned[k] == word;
        assert(knows(state.learned.take(k), state.learned[k].drop_last()));
        if shorter.len() != 1 {
            let j = choose|j: int|
                0 <= j < state.learned.take(k).len() && state.learned.take(k)[j] == shorter;
            assert(state.learned[j] == shorter);
        }
        lemma_known_word_read(state, shorter);
    }
    let progress = state.read(word);
    assert(progress.pending =~= word);
    assert(progress.codes =~= Seq::empty());
    assert(progress.state =~= LzwState { input_len: state.input_len + word.len(), ..state });
}

/// An input that has been learned as a word costs a single code, two bytes, however long it is,
/// and teaches nothing.
pub proof fn law_learned_word_is_one_code(state: LzwState, k: int)
    requires
        is_dictionary(state.learned),
        0 <= k < state.learned.len(),
    ensures
        state.codes(state.learned[k]) == seq![(257 + k) as u16],
        state.output(state.learned[k]).len() == 2,
        state.after(state.learned[k]).learned == state.learned,
{
    let word = state.learned[k];
    assert(word.len() >= 2);
    assert(state.learned.contains(word));
    lemma_known_word_read(state, word);
    lemma_code_of_learned(state.learned, k);
    assert(state.codes(word) =~= seq![(257 + k) as u16]);
    law_unpack_pack(state.codes(word));
}

/// A new pair of bytes is learned as it is read, so that it costs one code from then on.
pub proof fn law_pair_learned(state: LzwState, first: u8, second: u8)
    requires
        is_dictionary(state.learned),
        state.learned.len() < 3839,
        !state.learned.contains(seq![first, second]),
    ensures
        state.codes(seq![first, second]) == seq![first as u16, second as u16],
        state.after(seq![first, second]).learned == state.learned.push(seq![first, second]),
        state.after(seq![first, second]).codes(seq![first, second]) == seq![
            (257 + state.learned.len()) as u16,
        ],
{
    let pair = seq![first, second];
    let one = seq![first];
    assert(pair.drop_last() =~= one);
    assert(one.push(second) =~= pair);
    lemma_known_word_read(state, one);
    lemma_read_in_order(state, one);
    let progress = state.read(one);
    lemma_learn(state.learned, one, second);
    assert(state.codes(pair) =~= seq![first as u16, second as u16]);
    let after = state.after(pair);
    assert(after.learned[state.learned.len() as int] == pair);
    law_learned_word_is_one_code(after, state.learned.len() as int);
}

/// Bit by bit, two codes in three bytes are the first code in the high twelve bits and the
/// second in the low twelve; a last code without a second has its twelve bits in the high
/// bits of two bytes.
pub proof fn law_packed_bits(codes: Seq<u16>, i: int)
    requires
        forall|j: int| 0 <= j < codes.len() ==> #[trigger] codes[j] < 4096,
        0 <= i,
    ensures
        pack(codes).len() == (3 * codes.len() + 1) / 2,
        2 * i + 1 < codes.len() ==> 65536 * pack(codes)[3 * i] + 256 * pack(codes)[3 * i + 1]
            + pack(codes)[3 * i + 2] == 4096 * codes[2 * i] + codes[2 * i + 1],
        2 * i + 1 == codes.len() ==> 256 * pack(codes)[3 * i] + pack(codes)[3 * i + 1] == 16
            * codes[2 * i],
    decreases codes.len(),
{
    law_unpack_pack(codes);
    let n = codes.len() as int;
    if n > 0 && n % 2 == 1 {
        let rest = codes.drop_last();
        law_unpack_pack(rest);
        if 2 * i + 1 < n {
            law_packed_bits(rest, i);
        }
        assert(codes[n - 1] < 4096);
        if 2 * i + 1 == n {
            let two = pack_one(codes[n - 1]);
            assert(pack(codes)[3 * i] == two[0] && pack(codes)[3 * i + 1] == two[1]);
        }
    } else if n > 0 {
        let rest = codes.take(n - 2);
        law_unpack_pack(rest);
        if 2 * i + 1 < n - 2 {
            law_packed_bits(rest, i);
        } else if 2 * i + 1 < n {
            assert(2 * i == n - 2);
            let three = pack_two(codes[n - 2], codes[n - 1]);
            assert(codes[n - 2] < 4096 && codes[n - 1] < 4096);
            assert(pack(codes)[3 * i] == three[0] && pack(codes)[3 * i + 1] == three[1] && pack(
                codes,
            )[3 * i + 2] == three[2]);
        }
    }
}

/// The ratio is three quarters of the output size, in bytes, to the input size, each size and
/// the quotient rounded to the nearest single: for sizes that a single holds exactly, the bit
/// pattern holds the single nearest to the exact ratio.
pub proof fn law_ratio_nearest(halves: nat, input_len: nat, k: nat)
    requires
        0 < halves,
        0 < input_len,
        ratio_bits(halves, input_len) / 0x80_0000 - 150 + k >= 1,
    ensures
        ({
            let m = 0x80_0000 + ratio_bits(halves, input_len) % 0x80_0000;
            let e = ratio_bits(halves, input_len) / 0x80_0000 - 150;
            let n = rounded_integer(3 * halves) * pow2(k);
            let d = (8 * rounded_integer(input_len)) * pow2((e + k) as nat);
            &&& (2 * m - 1) * d <= 2 * n <= (2 * m + 1) * d
            &&& 2 * n == (2 * m - 1) * d || 2 * n == (2 * m + 1) * d ==> m % 2 == 0
            &&& m == 0x80_0000 ==> 4 * n >= (4 * m - 1) * d
        }),
        3 * halves < 0x100_0000 ==> rounded_integer(3 * halves) == 3 * halves,
        input_len < 0x100_0000 ==> rounded_integer(input_len) == input_len,
{
    lemma_rounded_positive(3 * halves);
    lemma_rounded_positive(input_len);
    law_quotient_nearest(rounded_integer(3 * halves), 8 * rounded_integer(input_len), k);
}

/// What the compressor takes for known: single bytes and the learned words. A single byte is
/// its own code, below the reset code 256; the words follow it in the order they were learned.
pub proof fn law_known_words(learned: Seq<Seq<u8>>, word: Seq<u8>, byte: u8, k: int)
    requires
        is_dictionary(learned),
    ensures
        knows(learned, word) <==> word.len() == 1 || learned.contains(word),
        code_of(learned, seq![byte]) == byte,
        0 <= k < learned.len() ==> code_of(learned, learned[k]) == 257 + k,
        learned.len() <= 3839,
        0 <= k < learned.len() ==> learned[k].len() >= 2,
{
    if 0 <= k < learned.len() {
        lemma_code_of_learned(learned, k);
    }
}

} // verus!
