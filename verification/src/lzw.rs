//! GIF's variable-width LZW compressor.
//!
//! The encoder is modeled by a small-step specification: `lzw_run` folds the
//! bytes fed so far into an abstract dictionary state and the sequence of
//! codes emitted, and the executable encoder is proved to track it exactly.
//! The bit packer is tied to the code sequence through the bit-stream model
//! of `crate::bitstream`.

use crate::bitstream::{
    byte_bits,
    bytes_bits,
    lemma_byte_quotient_bound,
    lemma_bytes_bits_push,
    lemma_low_bits_concat,
    lemma_low_bits_len,
    lemma_low_bits_split_byte,
    lemma_low_bits_zero,
    lemma_packed_value_bound,
    low_bits,
    padded_bits,
    pow2_u32,
};
use vstd::arithmetic::power2::{
    lemma2_to64,
    lemma_pow2_pos,
    lemma_pow2_strictly_increases,
    lemma_pow2_unfold,
    pow2,
};
use vstd::prelude::*;

verus! {

/// One emitted code, recorded with the bit width it was written at.
pub struct CodeAtWidth {
    pub code: u16,
    pub width: u8,
}

/// The abstract state of the compressor: current code width, next free
/// dictionary code, the dictionary entries beyond the seeded single bytes
/// (entry `i` carries code `first_free_code_of(k) + i`), the code of the
/// buffered prefix (`None` when it is empty), and the codes emitted so far.
pub struct LzwState {
    pub width: u8,
    pub next_code: u16,
    pub entries: Seq<(u16, u8)>,
    pub seq_code: Option<u16>,
    pub codes: Seq<CodeAtWidth>,
}

/// The clear code for minimum code size `k`: 2^k.
pub open spec fn clear_code_of(k: u8) -> u16 {
    pow2(k as nat) as u16
}

/// The end-of-information code for minimum code size `k`: 2^k + 1.
pub open spec fn eoi_code_of(k: u8) -> u16 {
    (pow2(k as nat) + 1) as u16
}

/// The first assignable dictionary code for minimum code size `k`: 2^k + 2.
pub open spec fn first_free_code_of(k: u8) -> u16 {
    (pow2(k as nat) + 2) as u16
}

/// The seed code for input byte `b`: bytes are palette indexes below 2^k,
/// and any out-of-range byte is reduced to its low k bits.
pub open spec fn seed_code_of(k: u8, b: u8) -> u16 {
    (b as nat % pow2(k as nat)) as u16
}

/// The code carried by dictionary entry `i`.
pub open spec fn entry_code(k: u8, i: int) -> u16 {
    (first_free_code_of(k) + i) as u16
}

/// Index of the first dictionary entry matching `(prefix, b)`.
pub open spec fn find_entry(entries: Seq<(u16, u8)>, prefix: u16, b: u8) -> Option<int>
    decreases entries.len(),
{
    if entries.len() == 0 {
        None::<int>
    } else if entries[0].0 == prefix && entries[0].1 == b {
        Some(0int)
    } else {
        match find_entry(entries.skip(1), prefix, b) {
            Some(i) => Some(i + 1),
            None => None,
        }
    }
}

/// `find_entry` returns the first matching index, or `None` when nothing
/// matches.
pub proof fn lemma_find_entry_props(entries: Seq<(u16, u8)>, prefix: u16, b: u8)
    ensures
        match find_entry(entries, prefix, b) {
            Some(i) => 0 <= i < entries.len() && entries[i].0 == prefix && entries[i].1 == b
                && forall|j: int|
                0 <= j < i ==> !((#[trigger] entries[j]).0 == prefix && entries[j].1 == b),
            None => forall|j: int|
                0 <= j < entries.len() ==> !((#[trigger] entries[j]).0 == prefix && entries[j].1
                    == b),
        },
    decreases entries.len(),
{
    if entries.len() == 0 {
    } else if entries[0].0 == prefix && entries[0].1 == b {
    } else {
        let rest = entries.skip(1);
        lemma_find_entry_props(rest, prefix, b);
        assert(forall|j: int| 0 <= j < rest.len() ==> (#[trigger] rest[j]) == entries[j + 1]);
        match find_entry(rest, prefix, b) {
            Some(i) => {
                assert(find_entry(entries, prefix, b) == Some(i + 1));
                assert(rest[i] == entries[i + 1]);
                assert forall|j: int|
                    0 <= j < i + 1 implies !((#[trigger] entries[j]).0 == prefix && entries[j].1
                    == b) by {
                    if j > 0 {
                        assert(rest[j - 1] == entries[j]);
                    }
                }
            },
            None => {
                assert forall|j: int|
                    0 <= j < entries.len() implies !((#[trigger] entries[j]).0 == prefix
                    && entries[j].1 == b) by {
                    if j > 0 {
                        assert(rest[j - 1] == entries[j]);
                    }
                }
            },
        }
    }
}

/// The state of a freshly initialized compressor: width k+1, empty
/// dictionary, empty prefix, and the clear code already emitted.
pub open spec fn lzw_init(k: u8) -> LzwState {
    LzwState {
        width: (k + 1) as u8,
        next_code: first_free_code_of(k),
        entries: Seq::<(u16, u8)>::empty(),
        seq_code: None,
        codes: seq![
            CodeAtWidth { code: clear_code_of(k), width: (k + 1) as u8 },
        ],
    }
}

/// One step of the greedy longest-match loop on input byte `b`.
///
/// If the extended prefix is in the dictionary, buffer it; otherwise emit
/// the buffered prefix's code, then either insert the extension (growing
/// the width when the next code reaches 2^width, up to 12 bits) or, when
/// code 4096 would be needed, emit a clear code and restart the dictionary.
pub open spec fn lzw_step(k: u8, st: LzwState, b: u8) -> LzwState {
    match st.seq_code {
        None => LzwState { seq_code: Some(seed_code_of(k, b)), ..st },
        Some(w) => match find_entry(st.entries, w, b) {
            Some(i) => LzwState { seq_code: Some(entry_code(k, i)), ..st },
            None => {
                let emitted = st.codes.push(CodeAtWidth { code: w, width: st.width });
                if st.next_code < 4096 {
                    let next2 = (st.next_code + 1) as u16;
                    LzwState {
                        width: if next2 as nat == pow2(st.width as nat) && st.width < 12 {
                            (st.width + 1) as u8
                        } else {
                            st.width
                        },
                        next_code: next2,
                        entries: st.entries.push((w, b)),
                        seq_code: Some(seed_code_of(k, b)),
                        codes: emitted,
                    }
                } else {
                    LzwState {
                        width: (k + 1) as u8,
                        next_code: first_free_code_of(k),
                        entries: Seq::<(u16, u8)>::empty(),
                        seq_code: Some(seed_code_of(k, b)),
                        codes: emitted.push(
                            CodeAtWidth { code: clear_code_of(k), width: st.width },
                        ),
                    }
                }
            },
        },
    }
}

/// The abstract state after feeding `input`, starting fresh.
pub open spec fn lzw_run(k: u8, input: Seq<u8>) -> LzwState
    decreases input.len(),
{
    if input.len() == 0 {
        lzw_init(k)
    } else {
        lzw_step(k, lzw_run(k, input.drop_last()), input.last())
    }
}

/// The finished code stream: the buffered prefix's code if one is pending,
/// then the end-of-information code.
pub open spec fn lzw_final_codes(k: u8, st: LzwState) -> Seq<CodeAtWidth> {
    (match st.seq_code {
        Some(w) => st.codes.push(CodeAtWidth { code: w, width: st.width }),
        None => st.codes,
    }).push(CodeAtWidth { code: eoi_code_of(k), width: st.width })
}

/// The bit stream that packs a code sequence, each code LSB first.
pub open spec fn codes_bits(codes: Seq<CodeAtWidth>) -> Seq<bool>
    decreases codes.len(),
{
    if codes.len() == 0 {
        Seq::<bool>::empty()
    } else {
        low_bits(codes[0].code as nat, codes[0].width as nat) + codes_bits(codes.skip(1))
    }
}

/// Appending a code to a stream appends its bits.
pub proof fn lemma_codes_bits_push(codes: Seq<CodeAtWidth>, c: CodeAtWidth)
    ensures
        codes_bits(codes.push(c)) == codes_bits(codes) + low_bits(c.code as nat, c.width as nat),
    decreases codes.len(),
{
    if codes.len() == 0 {
        assert(codes.push(c)[0] == c);
        assert(codes.push(c).skip(1) =~= Seq::<CodeAtWidth>::empty());
        assert(codes_bits(codes.push(c)) == low_bits(c.code as nat, c.width as nat) + codes_bits(
            Seq::<CodeAtWidth>::empty(),
        ));
        assert(low_bits(c.code as nat, c.width as nat) + Seq::<bool>::empty() =~= low_bits(
            c.code as nat,
            c.width as nat,
        ));
        assert(codes_bits(codes) + low_bits(c.code as nat, c.width as nat) =~= low_bits(
            c.code as nat,
            c.width as nat,
        ));
    } else {
        assert(codes.push(c)[0] == codes[0]);
        assert(codes.push(c).skip(1) =~= codes.skip(1).push(c));
        lemma_codes_bits_push(codes.skip(1), c);
        assert(codes_bits(codes.push(c)) == low_bits(codes[0].code as nat, codes[0].width as nat)
            + codes_bits(codes.skip(1).push(c)));
        assert(codes_bits(codes) == low_bits(codes[0].code as nat, codes[0].width as nat)
            + codes_bits(codes.skip(1)));
        assert(low_bits(codes[0].code as nat, codes[0].width as nat) + (codes_bits(codes.skip(1))
            + low_bits(c.code as nat, c.width as nat)) =~= (low_bits(
            codes[0].code as nat,
            codes[0].width as nat,
        ) + codes_bits(codes.skip(1))) + low_bits(c.code as nat, c.width as nat));
        assert(codes_bits(codes.push(c)) == codes_bits(codes) + low_bits(
            c.code as nat,
            c.width as nat,
        ));
    }
}

/// Everything that holds of every reachable compressor state.
pub open spec fn state_inv(k: u8, st: LzwState) -> bool {
    &&& 2 <= k <= 8
    &&& k + 1 <= st.width <= 12
    &&& st.next_code as int == first_free_code_of(k) + st.entries.len()
    &&& st.next_code <= 4096
    &&& st.next_code as nat <= pow2(st.width as nat)
    &&& (st.next_code as nat == pow2(st.width as nat) ==> st.width == 12)
    &&& (match st.seq_code {
        Some(w) => w < st.next_code,
        None => true,
    })
    &&& st.codes.len() >= 1
    &&& st.codes[0].code == clear_code_of(k)
    &&& st.codes[0].width == k + 1
    &&& forall|i: int|
        0 <= i < st.codes.len() ==> (((#[trigger] st.codes[i]).code as nat) < pow2(
            st.codes[i].width as nat,
        ) && k + 1 <= st.codes[i].width <= 12)
}

/// 2^e1 <= 2^e2 whenever e1 <= e2.
proof fn lemma_pow2_le(e1: nat, e2: nat)
    requires
        e1 <= e2,
    ensures
        pow2(e1) <= pow2(e2),
{
    if e1 < e2 {
        lemma_pow2_strictly_increases(e1, e2);
    }
}

proof fn lemma_init_inv(k: u8)
    requires
        2 <= k <= 8,
    ensures
        state_inv(k, lzw_init(k)),
{
    lemma2_to64();
    lemma_pow2_unfold((k + 1) as nat);
    lemma_pow2_le(2, k as nat);
    assert(pow2(k as nat) >= 4);
    assert(pow2((k + 1) as nat) == 2 * pow2(k as nat));
}

proof fn lemma_step_preserves_inv(k: u8, st: LzwState, b: u8)
    requires
        state_inv(k, st),
    ensures
        state_inv(k, lzw_step(k, st, b)),
{
    lemma2_to64();
    lemma_pow2_unfold((k + 1) as nat);
    lemma_pow2_le(2, k as nat);
    lemma_pow2_le((k + 1) as nat, st.width as nat);
    lemma_pow2_le(st.width as nat, 12);
    assert(pow2(k as nat) >= 4);
    assert(pow2((k + 1) as nat) == 2 * pow2(k as nat));
    let seed = seed_code_of(k, b);
    assert(b as nat % pow2(k as nat) < pow2(k as nat)) by {
        lemma_pow2_pos(k as nat);
    }
    assert(seed < first_free_code_of(k));
    match st.seq_code {
        None => {},
        Some(w) => {
            match find_entry(st.entries, w, b) {
                Some(i) => {
                    lemma_find_entry_props(st.entries, w, b);
                    assert(entry_code(k, i) < st.next_code);
                },
                None => {
                    let st2 = lzw_step(k, st, b);
                    if st.next_code < 4096 {
                        let next2 = (st.next_code + 1) as u16;
                        if next2 as nat == pow2(st.width as nat) && st.width < 12 {
                            lemma_pow2_unfold((st.width + 1) as nat);
                            assert(pow2((st.width + 1) as nat) == 2 * pow2(st.width as nat));
                            assert((next2 as nat) < pow2((st.width + 1) as nat));
                        } else if next2 as nat == pow2(st.width as nat) {
                            assert(st.width == 12) by {
                                if st.width < 12 {
                                }
                            }
                        } else {
                            assert((st.next_code as nat) < pow2(st.width as nat));
                        }
                        assert(st2.codes.len() == st.codes.len() + 1);
                        assert(st2.codes[0] == st.codes[0]);
                        assert(forall|i: int|
                            0 <= i < st.codes.len() ==> st2.codes[i] == (
                            #[trigger] st.codes[i]));
                        assert((w as nat) < pow2(st.width as nat));
                    } else {
                        assert(st2.codes[0] == st.codes[0]);
                        assert(forall|i: int|
                            0 <= i < st.codes.len() ==> st2.codes[i] == (
                            #[trigger] st.codes[i]));
                        assert((w as nat) < pow2(st.width as nat));
                        assert((clear_code_of(k) as nat) < pow2(st.width as nat));
                    }
                },
            }
        },
    }
}

/// Every reachable state satisfies the invariant.
pub proof fn lemma_run_inv(k: u8, input: Seq<u8>)
    requires
        2 <= k <= 8,
    ensures
        state_inv(k, lzw_run(k, input)),
    decreases input.len(),
{
    if input.len() == 0 {
        lemma_init_inv(k);
    } else {
        lemma_run_inv(k, input.drop_last());
        lemma_step_preserves_inv(k, lzw_run(k, input.drop_last()), input.last());
    }
}

/// Law: every finished LZW code stream begins with the clear code, ends
/// with the end-of-information code, and each code fits the width at which
/// it was emitted; widths stay within min_code_size+1 ..= 12.
pub proof fn lemma_lzw_stream_wf(k: u8, input: Seq<u8>)
    requires
        2 <= k <= 8,
    ensures
        ({
            let codes = lzw_final_codes(k, lzw_run(k, input));
            &&& codes.len() >= 2
            &&& codes[0].code == clear_code_of(k)
            &&& codes[0].width == k + 1
            &&& codes[codes.len() - 1].code == eoi_code_of(k)
            &&& forall|i: int|
                0 <= i < codes.len() ==> (((#[trigger] codes[i]).code as nat) < pow2(
                    codes[i].width as nat,
                ) && k + 1 <= codes[i].width <= 12)
        }),
{
    lemma_run_inv(k, input);
    lemma2_to64();
    let st = lzw_run(k, input);
    lemma_pow2_unfold((k + 1) as nat);
    lemma_pow2_le(2, k as nat);
    lemma_pow2_le((k + 1) as nat, st.width as nat);
    assert(pow2(k as nat) >= 4);
    assert((eoi_code_of(k) as nat) < pow2((k + 1) as nat));
    let codes = lzw_final_codes(k, st);
    assert(codes[0] == st.codes[0]);
    match st.seq_code {
        Some(w) => {
            assert((w as nat) < pow2(st.width as nat));
        },
        None => {},
    }
}

/// Law: when the dictionary is full (next assignable code 4096), the next
/// unmatched input emits a clear code and restarts the dictionary instead
/// of assigning a code beyond 4095.
pub proof fn lemma_full_dictionary_clears(k: u8, st: LzwState, w: u16, b: u8)
    requires
        state_inv(k, st),
        st.next_code == 4096,
        st.seq_code == Some(w),
        find_entry(st.entries, w, b) is None,
    ensures
        ({
            let st2 = lzw_step(k, st, b);
            &&& st2.codes == st.codes.push(CodeAtWidth { code: w, width: st.width }).push(
                CodeAtWidth { code: clear_code_of(k), width: st.width },
            )
            &&& st2.next_code == first_free_code_of(k)
            &&& st2.entries.len() == 0
            &&& st2.width == k + 1
        }),
{
}

/// The GIF LZW compressor.
///
/// Dictionary entries are keyed by (prefix code, extension byte) and held in
/// a flat list; the buffered prefix is carried as its code. Emitted codes
/// are packed into `output` LSB first at the current width.
pub struct LzwEncoder {
    min_code_size: u8,
    code_size: u8,
    clear_code: u16,
    end_of_stream_code: u16,
    next_code: u16,
    entries: Vec<(u16, u8)>,
    current_code: Option<u16>,
    output: Vec<u8>,
    bit_buffer: u32,
    bit_count: u8,
    codes: Ghost<Seq<CodeAtWidth>>,
    fed: Ghost<Seq<u8>>,
}

impl LzwEncoder {
    /// The packer's private invariant: fewer than 8 buffered bits, and the
    /// bytes flushed so far followed by the buffered bits spell exactly the
    /// bits of the emitted codes.
    spec fn bits_inv(self) -> bool {
        &&& self.bit_count < 8
        &&& (self.bit_buffer as nat) < pow2(self.bit_count as nat)
        &&& bytes_bits(self.output@) + low_bits(self.bit_buffer as nat, self.bit_count as nat)
            == codes_bits(self.codes@)
    }

    /// The encoder tracks the abstract state reached by the bytes fed so
    /// far, and the bit packer tracks the emitted codes.
    pub closed spec fn inv(self) -> bool {
        let st = lzw_run(self.min_code_size, self.fed@);
        &&& 2 <= self.min_code_size <= 8
        &&& self.clear_code == clear_code_of(self.min_code_size)
        &&& self.end_of_stream_code == eoi_code_of(self.min_code_size)
        &&& self.code_size == st.width
        &&& self.next_code == st.next_code
        &&& self.entries@ == st.entries
        &&& self.current_code == st.seq_code
        &&& self.codes@ == st.codes
        &&& self.bits_inv()
    }

    /// The minimum code size this encoder was initialized with.
    pub closed spec fn spec_min_code_size(self) -> u8 {
        self.min_code_size
    }

    /// The bytes fed since the last reset.
    pub closed spec fn fed_bytes(self) -> Seq<u8> {
        self.fed@
    }

    /// The output bytes produced so far.
    pub closed spec fn out_bytes(self) -> Seq<u8> {
        self.output@
    }

    /// The codes emitted so far, each with its width.
    pub closed spec fn emitted_codes(self) -> Seq<CodeAtWidth> {
        self.codes@
    }

    /// A fresh compressor for minimum code size `code_size`, with the clear
    /// code already emitted.
    pub fn new(code_size: u8) -> (r: Self)
        requires
            2 <= code_size <= 8,
        ensures
            r.inv(),
            r.spec_min_code_size() == code_size,
            r.fed_bytes() == Seq::<u8>::empty(),
    {
        proof {
            lemma2_to64();
            lemma_pow2_le(code_size as nat, 8);
        }
        let clear = pow2_u32(code_size as u32) as u16;
        let mut enc = LzwEncoder {
            min_code_size: code_size,
            code_size: code_size + 1,
            clear_code: clear,
            end_of_stream_code: clear + 1,
            next_code: clear + 2,
            entries: Vec::new(),
            current_code: None,
            output: Vec::new(),
            bit_buffer: 0,
            bit_count: 0,
            codes: Ghost(Seq::<CodeAtWidth>::empty()),
            fed: Ghost(Seq::<u8>::empty()),
        };
        proof {
            lemma_pow2_unfold((code_size + 1) as nat);
            assert(bytes_bits(enc.output@) + low_bits(0, 0) =~= codes_bits(enc.codes@));
        }
        enc.write_code(clear);
        proof {
            assert(enc.codes@ =~= lzw_init(code_size).codes);
            assert(enc.entries@ =~= lzw_init(code_size).entries);
        }
        enc
    }

    /// Restore the state of a fresh compressor for the same minimum code
    /// size: empty dictionary, empty prefix, empty output, and the clear
    /// code emitted anew.
    pub fn reset(&mut self)
        requires
            2 <= old(self).spec_min_code_size() <= 8,
        ensures
            final(self).inv(),
            final(self).spec_min_code_size() == old(self).spec_min_code_size(),
            final(self).fed_bytes() == Seq::<u8>::empty(),
    {
        proof {
            lemma2_to64();
            lemma_pow2_le(self.min_code_size as nat, 8);
        }
        let clear = pow2_u32(self.min_code_size as u32) as u16;
        self.clear_code = clear;
        self.end_of_stream_code = clear + 1;
        self.reset_dictionary();
        self.output.clear();
        self.bit_buffer = 0;
        self.bit_count = 0;
        self.codes = Ghost(Seq::<CodeAtWidth>::empty());
        self.fed = Ghost(Seq::<u8>::empty());
        proof {
            lemma_pow2_unfold((self.min_code_size + 1) as nat);
            assert(bytes_bits(self.output@) + low_bits(0, 0) =~= codes_bits(self.codes@));
        }
        let c = self.clear_code;
        self.write_code(c);
        proof {
            let k = self.min_code_size;
            assert(self.codes@ =~= lzw_init(k).codes);
            assert(self.entries@ =~= lzw_init(k).entries);
        }
    }

    /// Clear the dictionary back to its seeded state: width k+1, next code
    /// 2^k + 2, no extension entries, empty prefix.
    fn reset_dictionary(&mut self)
        requires
            old(self).min_code_size <= 8,
            old(self).clear_code <= 256,
        ensures
            final(self).min_code_size == old(self).min_code_size,
            final(self).clear_code == old(self).clear_code,
            final(self).end_of_stream_code == old(self).end_of_stream_code,
            final(self).code_size == old(self).min_code_size + 1,
            final(self).next_code == old(self).clear_code + 2,
            final(self).entries@ == Seq::<(u16, u8)>::empty(),
            final(self).current_code is None,
            final(self).output@ == old(self).output@,
            final(self).bit_buffer == old(self).bit_buffer,
            final(self).bit_count == old(self).bit_count,
            final(self).codes == old(self).codes,
            final(self).fed == old(self).fed,
    {
        self.entries.clear();
        self.next_code = self.clear_code + 2;
        self.code_size = self.min_code_size + 1;
        self.current_code = None;
    }

    /// The bytes of the compressed stream produced so far.
    pub fn get_encoded_data(&self) -> (r: &[u8])
        ensures
            r@ == self.out_bytes(),
    {
        self.output.as_slice()
    }

    /// Pack `code` into the output at the current width, LSB first.
    fn write_code(&mut self, code: u16)
        requires
            old(self).bit_count < 8,
            (old(self).bit_buffer as nat) < pow2(old(self).bit_count as nat),
            old(self).code_size <= 12,
            (code as nat) < pow2(old(self).code_size as nat),
            bytes_bits(old(self).output@) + low_bits(
                old(self).bit_buffer as nat,
                old(self).bit_count as nat,
            ) == codes_bits(old(self).codes@),
        ensures
            final(self).bit_count < 8,
            (final(self).bit_buffer as nat) < pow2(final(self).bit_count as nat),
            final(self).codes@ == old(self).codes@.push(
                CodeAtWidth { code, width: old(self).code_size },
            ),
            bytes_bits(final(self).output@) + low_bits(
                final(self).bit_buffer as nat,
                final(self).bit_count as nat,
            ) == codes_bits(final(self).codes@),
            final(self).min_code_size == old(self).min_code_size,
            final(self).code_size == old(self).code_size,
            final(self).clear_code == old(self).clear_code,
            final(self).end_of_stream_code == old(self).end_of_stream_code,
            final(self).next_code == old(self).next_code,
            final(self).entries@ == old(self).entries@,
            final(self).current_code == old(self).current_code,
            final(self).fed == old(self).fed,
    {
        proof {
            lemma2_to64();
            lemma_pow2_le(old(self).bit_count as nat, 7);
            lemma_pow2_le(old(self).code_size as nat, 12);
        }
        let mult = pow2_u32(self.bit_count as u32);
        proof {
            assert(code < 4096);
            assert(mult <= 128);
            assert((code as int) * (mult as int) <= 4096 * 128) by (nonlinear_arith)
                requires
                    code < 4096,
                    mult <= 128,
            ;
        }
        let ghost a = self.bit_buffer as nat;
        let ghost n = self.bit_count as nat;
        let ghost w = self.code_size as nat;
        self.bit_buffer = self.bit_buffer + (code as u32) * mult;
        self.bit_count = self.bit_count + self.code_size;
        self.codes = Ghost(self.codes@.push(CodeAtWidth { code, width: self.code_size }));
        proof {
            lemma_low_bits_concat(a, n, code as nat, w);
            lemma_packed_value_bound(a, n, code as nat, w);
            lemma_codes_bits_push(
                old(self).codes@,
                CodeAtWidth { code, width: old(self).code_size },
            );
            assert(self.bit_buffer as nat == a + (code as nat) * pow2(n));
            assert(low_bits(self.bit_buffer as nat, self.bit_count as nat) == low_bits(a, n)
                + low_bits(code as nat, w));
            assert(bytes_bits(self.output@) + (low_bits(a, n) + low_bits(code as nat, w)) =~= (
            bytes_bits(self.output@) + low_bits(a, n)) + low_bits(code as nat, w));
        }
        let ghost mid = *self;
        while self.bit_count >= 8
            invariant
                self.bit_count <= mid.bit_count,
                (self.bit_buffer as nat) < pow2(self.bit_count as nat),
                bytes_bits(self.output@) + low_bits(
                    self.bit_buffer as nat,
                    self.bit_count as nat,
                ) == codes_bits(self.codes@),
                self.codes == mid.codes,
                self.fed == mid.fed,
                self.min_code_size == mid.min_code_size,
                self.code_size == mid.code_size,
                self.clear_code == mid.clear_code,
                self.end_of_stream_code == mid.end_of_stream_code,
                self.next_code == mid.next_code,
                self.entries@ == mid.entries@,
                self.current_code == mid.current_code,
            decreases self.bit_count,
        {
            self.flush_bits();
        }
    }

    /// Move the lowest eight buffered bits into the output.
    fn flush_bits(&mut self)
        requires
            8 <= old(self).bit_count,
            (old(self).bit_buffer as nat) < pow2(old(self).bit_count as nat),
        ensures
            final(self).bit_count == old(self).bit_count - 8,
            (final(self).bit_buffer as nat) < pow2(final(self).bit_count as nat),
            bytes_bits(final(self).output@) + low_bits(
                final(self).bit_buffer as nat,
                final(self).bit_count as nat,
            ) == bytes_bits(old(self).output@) + low_bits(
                old(self).bit_buffer as nat,
                old(self).bit_count as nat,
            ),
            final(self).min_code_size == old(self).min_code_size,
            final(self).code_size == old(self).code_size,
            final(self).clear_code == old(self).clear_code,
            final(self).end_of_stream_code == old(self).end_of_stream_code,
            final(self).next_code == old(self).next_code,
            final(self).entries@ == old(self).entries@,
            final(self).current_code == old(self).current_code,
            final(self).codes == old(self).codes,
            final(self).fed == old(self).fed,
    {
        let b = (self.bit_buffer % 256) as u8;
        self.output.push(b);
        self.bit_buffer = self.bit_buffer / 256;
        self.bit_count = self.bit_count - 8;
        proof {
            let v = old(self).bit_buffer as nat;
            let n = old(self).bit_count as nat;
            lemma_low_bits_split_byte(v, n);
            lemma_byte_quotient_bound(v, n);
            lemma_bytes_bits_push(old(self).output@, b);
            assert(b as nat == v % 256);
            assert((bytes_bits(old(self).output@) + byte_bits(b)) + low_bits(
                self.bit_buffer as nat,
                self.bit_count as nat,
            ) =~= bytes_bits(old(self).output@) + (byte_bits(b) + low_bits(
                self.bit_buffer as nat,
                self.bit_count as nat,
            )));
        }
    }

    /// Index of the dictionary entry matching `(prefix, b)`, if any.
    fn find_entry_at(&self, prefix: u16, b: u8) -> (r: Option<usize>)
        ensures
            match r {
                Some(i) => find_entry(self.entries@, prefix, b) == Some(i as int),
                None => find_entry(self.entries@, prefix, b) is None,
            },
    {
        let mut i: usize = 0;
        while i < self.entries.len()
            invariant
                i <= self.entries@.len(),
                forall|j: int|
                    0 <= j < i ==> !((#[trigger] self.entries@[j]).0 == prefix
                        && self.entries@[j].1 == b),
            decreases self.entries@.len() - i,
        {
            let e = self.entries[i];
            if e.0 == prefix && e.1 == b {
                proof {
                    lemma_find_entry_props(self.entries@, prefix, b);
                }
                return Some(i);
            }
            i = i + 1;
        }
        proof {
            lemma_find_entry_props(self.entries@, prefix, b);
        }
        None
    }

    /// Feed one input byte through the greedy longest-match step.
    fn feed_byte(&mut self, b: u8)
        requires
            old(self).inv(),
        ensures
            final(self).inv(),
            final(self).spec_min_code_size() == old(self).spec_min_code_size(),
            final(self).fed_bytes() == old(self).fed_bytes().push(b),
    {
        let ghost k = self.min_code_size;
        let ghost st0 = lzw_run(k, self.fed@);
        proof {
            lemma_run_inv(k, self.fed@);
            lemma_step_preserves_inv(k, st0, b);
            lemma2_to64();
            lemma_pow2_le(2, k as nat);
            lemma_pow2_le((k + 1) as nat, st0.width as nat);
            lemma_pow2_unfold((k + 1) as nat);
            lemma_pow2_pos(k as nat);
        }
        self.fed = Ghost(self.fed@.push(b));
        proof {
            assert(self.fed@.drop_last() =~= old(self).fed@);
            assert(self.fed@.last() == b);
            assert(lzw_run(k, self.fed@) == lzw_step(k, st0, b));
        }
        let ghost st2 = lzw_step(k, st0, b);
        let cur = self.current_code;
        match cur {
            None => {
                let seed = b as u16 % self.clear_code;
                self.current_code = Some(seed);
                proof {
                    assert(seed == seed_code_of(k, b));
                }
            },
            Some(w) => {
                let found = self.find_entry_at(w, b);
                match found {
                    Some(i) => {
                        proof {
                            lemma_find_entry_props(self.entries@, w, b);
                        }
                        let code = self.clear_code + 2 + (i as u16);
                        self.current_code = Some(code);
                        proof {
                            assert(code == entry_code(k, i as int));
                        }
                    },
                    None => {
                        self.write_code(w);
                        if self.next_code < 4096 {
                            self.entries.push((w, b));
                            self.next_code = self.next_code + 1;
                            let limit = pow2_u32(self.code_size as u32);
                            if (self.next_code as u32) == limit && self.code_size < 12 {
                                self.code_size = self.code_size + 1;
                            }
                        } else {
                            let clear = self.clear_code;
                            self.write_code(clear);
                            self.entries.clear();
                            self.next_code = self.clear_code + 2;
                            self.code_size = self.min_code_size + 1;
                        }
                        let seed = b as u16 % self.clear_code;
                        self.current_code = Some(seed);
                        proof {
                            assert(seed == seed_code_of(k, b));
                            assert(self.entries@ =~= st2.entries);
                            assert(self.codes@ =~= st2.codes);
                        }
                    },
                }
            },
        }
        proof {
            assert(self.code_size == st2.width);
            assert(self.next_code == st2.next_code);
            assert(self.entries@ == st2.entries);
            assert(self.current_code == st2.seq_code);
            assert(self.codes@ == st2.codes);
        }
    }

    /// Feed a chunk of raw pixel bytes into the compressor.
    pub fn encode_chunk(&mut self, chunk: &[u8])
        requires
            old(self).inv(),
        ensures
            final(self).inv(),
            final(self).spec_min_code_size() == old(self).spec_min_code_size(),
            final(self).fed_bytes() == old(self).fed_bytes() + chunk@,
    {
        let ghost fed0 = self.fed@;
        let mut idx: usize = 0;
        while idx < chunk.len()
            invariant
                idx <= chunk@.len(),
                self.inv(),
                self.spec_min_code_size() == old(self).spec_min_code_size(),
                self.fed_bytes() == fed0 + chunk@.take(idx as int),
            decreases chunk@.len() - idx,
        {
            let b = chunk[idx];
            self.feed_byte(b);
            proof {
                assert((fed0 + chunk@.take(idx as int)).push(b) =~= fed0 + chunk@.take(
                    idx + 1,
                ));
            }
            idx = idx + 1;
        }
        proof {
            assert(fed0 + chunk@.take(chunk@.len() as int) =~= fed0 + chunk@);
        }
    }

    /// Emit the code of the buffered prefix if one is pending, then the
    /// end-of-information code, and flush the remaining bits padded with
    /// zeros to a whole byte.
    pub fn finalize(&mut self)
        requires
            old(self).inv(),
        ensures
            final(self).spec_min_code_size() == old(self).spec_min_code_size(),
            final(self).fed_bytes() == old(self).fed_bytes(),
            final(self).emitted_codes() == lzw_final_codes(
                old(self).spec_min_code_size(),
                lzw_run(old(self).spec_min_code_size(), old(self).fed_bytes()),
            ),
            bytes_bits(final(self).out_bytes()) == padded_bits(
                codes_bits(final(self).emitted_codes()),
            ),
    {
        let ghost k = self.min_code_size;
        let ghost st0 = lzw_run(k, self.fed@);
        proof {
            lemma_run_inv(k, self.fed@);
            lemma2_to64();
            lemma_pow2_le(2, k as nat);
            lemma_pow2_le((k + 1) as nat, st0.width as nat);
            lemma_pow2_unfold((k + 1) as nat);
        }
        let cur = self.current_code;
        match cur {
            Some(w) => {
                self.write_code(w);
            },
            None => {},
        }
        let eoi = self.end_of_stream_code;
        self.write_code(eoi);
        self.current_code = None;
        proof {
            assert(self.codes@ == lzw_final_codes(k, st0));
        }
        let ghost bits = codes_bits(self.codes@);
        proof {
            crate::bitstream::lemma_bytes_bits_len(self.output@);
            lemma_low_bits_len(self.bit_buffer as nat, self.bit_count as nat);
            assert(bits.len() == 8 * self.output@.len() + self.bit_count);
            assert(bits.len() % 8 == self.bit_count as nat % 8) by (nonlinear_arith)
                requires
                    bits.len() == 8 * self.output@.len() + self.bit_count,
            ;
        }
        if self.bit_count > 0 {
            let b = (self.bit_buffer % 256) as u8;
            let ghost cnt = self.bit_count as nat;
            let ghost buf = self.bit_buffer as nat;
            let ghost out_before = self.output@;
            self.output.push(b);
            proof {
                lemma_pow2_le(cnt, 7);
                assert(buf < 256);
                assert(b as nat == buf);
                lemma_bytes_bits_push(out_before, b);
                lemma_low_bits_concat(buf, cnt, 0, (8 - cnt) as nat);
                lemma_low_bits_zero((8 - cnt) as nat);
                lemma_low_bits_len(buf, cnt);
                assert(buf + 0 * pow2(cnt) == buf);
                assert(byte_bits(b) == low_bits(buf, cnt) + low_bits(0, (8 - cnt) as nat));
                assert(low_bits(0, (8 - cnt) as nat) =~= Seq::new(
                    ((8 - bits.len() % 8) % 8) as nat,
                    |i: int| false,
                ));
                assert(bytes_bits(self.output@) =~= padded_bits(bits));
            }
            self.bit_buffer = 0;
            self.bit_count = 0;
        } else {
            proof {
                assert(low_bits(self.bit_buffer as nat, 0) =~= Seq::<bool>::empty());
                assert(bytes_bits(self.output@) =~= codes_bits(self.codes@));
                assert(padded_bits(bits) =~= bits);
            }
        }
    }
}

} // verus!
