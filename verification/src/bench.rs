//! Tallies of an encoder run over a corpus: how many files were re-encoded,
//! how many payloads came out byte for byte as the originals, and how many
//! bytes differ in the others.
use vstd::prelude::*;

use crate::stats::{count_diff, payload_diff};
use crate::decode::{decompress_to_tokens, needed_prefix, DecodeError};
use crate::encode::{
    enc2d_step, enc2dp_step, encode_2d, encode_2d_priority, encode_m7, encode_rank1, m7_step, rank1_step,
    steps_follow, w0_safe, SelectRule,
};
use crate::frame::{frame, frame_payload, parse};
use crate::gamma::GammaError;
use crate::header::{has_magic, header_of, parse_header_unchecked, payload_start_of};
use crate::model::{decode, token_size, token_wf, Token};
use crate::token::{lemma_decode_len, total_size};

verus! {

/// Counts over the files re-encoded so far; they wrap around at 2^64 as a
/// release build's additions do.
#[derive(Clone, Copy, Debug, PartialEq, Eq, Structural)]
pub struct EncodeTally {
    pub files: u64,
    pub payload_match: u64,
    pub payload_diff_files: u64,
    pub payload_diff_total_bytes: u64,
}

/// The number of differing bytes of two payloads, wrapped to 64 bits.
pub open spec fn diff_bytes(a: Seq<u8>, b: Seq<u8>) -> u64 {
    ((payload_diff(a, b) as int) % 0x1_0000_0000_0000_0000) as u64
}

/// The tally after one more file whose re-encoded payload is `payload` and
/// whose original payload is `original`.
pub open spec fn tally_after(t: EncodeTally, payload: Seq<u8>, original: Seq<u8>) -> EncodeTally {
    if payload == original {
        EncodeTally {
            files: t.files.wrapping_add(1),
            payload_match: t.payload_match.wrapping_add(1),
            ..t
        }
    } else {
        EncodeTally {
            files: t.files.wrapping_add(1),
            payload_diff_files: t.payload_diff_files.wrapping_add(1),
            payload_diff_total_bytes: t.payload_diff_total_bytes.wrapping_add(diff_bytes(payload, original)),
            ..t
        }
    }
}

/// Counts the positions both payloads have that hold different bytes, plus
/// the difference of their lengths.
pub fn payload_diff_count(a: &[u8], b: &[u8]) -> (n: u64)
    ensures
        n == diff_bytes(a@, b@),
{
    let ml = if a.len() < b.len() {
        a.len()
    } else {
        b.len()
    };
    let mx = if a.len() < b.len() {
        b.len()
    } else {
        a.len()
    };
    let mut c: u64 = 0;
    let ghost m: int = 0x1_0000_0000_0000_0000;
    let mut i: usize = 0;
    while i < ml
        invariant
            ml <= a@.len(),
            ml <= b@.len(),
            i <= ml,
            c == (count_diff(a@, b@, i as int) as int) % m,
            m == 0x1_0000_0000_0000_0000,
        decreases ml - i,
    {
        let ghost prev: int = count_diff(a@, b@, i as int) as int;
        if a[i] != b[i] {
            proof {
                assert((prev + 1) % m == (prev % m + 1) % m) by (nonlinear_arith)
                    requires
                        m > 0,
                        prev >= 0,
                ;
            }
            c = c.wrapping_add(1);
        }
        i += 1;
    }
    let extra = (mx - ml) as u64;
    proof {
        let cd: int = count_diff(a@, b@, ml as int) as int;
        let e: int = (mx - ml) as int;
        vstd::arithmetic::div_mod::lemma_add_mod_noop(cd, e, m);
        vstd::arithmetic::div_mod::lemma_small_mod(e as nat, m as nat);
    }
    c.wrapping_add(extra)
}

impl EncodeTally {
    /// No files yet.
    pub fn new() -> (t: EncodeTally)
        ensures
            t == (EncodeTally { files: 0, payload_match: 0, payload_diff_files: 0, payload_diff_total_bytes: 0 }),
    {
        EncodeTally { files: 0, payload_match: 0, payload_diff_files: 0, payload_diff_total_bytes: 0 }
    }

    /// Records one file: its re-encoded payload against the original one.
    pub fn record(&mut self, payload: &[u8], original: &[u8])
        ensures
            *final(self) == tally_after(*old(self), payload@, original@),
    {
        self.files = self.files.wrapping_add(1);
        if crate::stats::bytes_equal(payload, original) {
            self.payload_match = self.payload_match.wrapping_add(1);
        } else {
            let d = payload_diff_count(payload, original);
            self.payload_diff_files = self.payload_diff_files.wrapping_add(1);
            self.payload_diff_total_bytes = self.payload_diff_total_bytes.wrapping_add(d);
        }
    }

    /// Adds the counts of `o` (other files) into these.
    pub fn merge(&mut self, o: &EncodeTally)
        ensures
            final(self).files == old(self).files.wrapping_add(o.files),
            final(self).payload_match == old(self).payload_match.wrapping_add(o.payload_match),
            final(self).payload_diff_files == old(self).payload_diff_files.wrapping_add(o.payload_diff_files),
            final(self).payload_diff_total_bytes == old(self).payload_diff_total_bytes.wrapping_add(
                o.payload_diff_total_bytes,
            ),
    {
        self.files = self.files.wrapping_add(o.files);
        self.payload_match = self.payload_match.wrapping_add(o.payload_match);
        self.payload_diff_files = self.payload_diff_files.wrapping_add(o.payload_diff_files);
        self.payload_diff_total_bytes = self.payload_diff_total_bytes.wrapping_add(o.payload_diff_total_bytes);
    }
}

/// The encoder a bench runs.
#[derive(Clone, Copy, Debug, PartialEq, Eq, Structural)]
pub enum Encoder {
    /// Longest match, second closest position.
    Rank1,
    /// Longest match, straight above first.
    TwoD,
    /// Longest match, by the priority table of offsets.
    TwoDPriority,
    /// Longest match after `early_y` rows of literals, positions by `rule`.
    M7 { early_y: usize, rule: SelectRule },
}

/// `ts` is what encoder `e` produces for `input` on an image `width` pixels
/// wide: every token the one the encoder takes after the tokens before it,
/// until the input is consumed.
pub open spec fn encoder_output(e: Encoder, input: Seq<u8>, width: int, ts: Seq<Token>) -> bool {
    &&& forall|i: int| 0 <= i < ts.len() ==> #[trigger] token_wf(ts[i])
    &&& decode(ts).len() == input.len()
    &&& match e {
        Encoder::Rank1 => steps_follow(input, ts, |out: Seq<u8>, t: Token| rank1_step(input, out, t)),
        Encoder::TwoD => steps_follow(input, ts, |out: Seq<u8>, t: Token| enc2d_step(input, width, out, t)),
        Encoder::TwoDPriority => steps_follow(
            input,
            ts,
            |out: Seq<u8>, t: Token| enc2dp_step(input, width, out, t),
        ),
        Encoder::M7 { early_y, rule } => steps_follow(
            input,
            ts,
            |out: Seq<u8>, t: Token| m7_step(input, width, early_y as int, rule, out, t),
        ),
    }
}

/// Runs encoder `e` over `input` for an image `width` pixels wide.
pub fn encode_with(e: Encoder, input: &[u8], width: usize) -> (ts: Vec<Token>)
    requires
        e == Encoder::TwoDPriority ==> width <= i32::MAX,
        e == Encoder::TwoDPriority && width == 0 ==> w0_safe(input@, Seq::empty(), input@.len() as nat),
    ensures
        encoder_output(e, input@, width as int, ts@),
{
    match e {
        Encoder::Rank1 => encode_rank1(input),
        Encoder::TwoD => encode_2d(input, width),
        Encoder::TwoDPriority => encode_2d_priority(input, width),
        Encoder::M7 { early_y, rule } => encode_m7(input, width, early_y, rule),
    }
}

/// A stream of well-formed tokens has no more tokens than bytes.
proof fn lemma_tokens_le_size(ts: Seq<Token>)
    requires
        forall|i: int| 0 <= i < ts.len() ==> #[trigger] token_wf(ts[i]),
    ensures
        ts.len() <= total_size(ts),
    decreases ts.len(),
{
    if ts.len() > 0 {
        assert(forall|i: int| 0 <= i < ts.drop_last().len() ==> ts.drop_last()[i] == ts[i]);
        lemma_tokens_le_size(ts.drop_last());
        assert(token_wf(ts[ts.len() - 1]));
    }
}

/// Encodes `input` with encoder `e` and records the framed payload against
/// `payload`.
fn encode_and_record(input: &[u8], width: usize, payload: &[u8], e: Encoder, tally: &mut EncodeTally)
    requires
        width == 0 ==> input@.len() == 0,
        width <= 0xffff,
        3 * input@.len() <= usize::MAX,
    ensures
        exists|ts: Seq<Token>|
            #[trigger] encoder_output(e, input@, width as int, ts) && *final(tally) == tally_after(
                *old(tally),
                frame(ts),
                payload@,
            ),
{
    let ts = if width == 0 {
        // an image without columns has no pixels to encode
        let empty: Vec<Token> = Vec::new();
        assert(decode(empty@) =~= Seq::<u8>::empty());
        empty
    } else {
        encode_with(e, input, width)
    };
    proof {
        lemma_decode_len(ts@);
        lemma_tokens_le_size(ts@);
        assert forall|i: int| 0 <= i < ts@.len() implies (#[trigger] ts@[i] matches Token::Match {
            len,
            ..
        } ==> len >= 3) by {
            assert(token_wf(ts@[i]));
        }
    }
    let out = frame_payload(ts.as_slice());
    tally.record(out.as_slice(), payload);
    assert(encoder_output(e, input@, width as int, ts@));
}

/// Re-encodes one LF2 file with encoder `e` and records its framed payload
/// against the file's own payload.  The tally is left unchanged when the
/// file is not LF2 or does not decode.
pub fn bench_file(data: &[u8], e: Encoder, tally: &mut EncodeTally) -> (res: Result<(), GammaError>)
    requires
        data@.len() >= 0x18 && has_magic(data@) ==> payload_start_of(data@) <= data@.len(),
        data@.len() >= 0x18 && has_magic(data@) ==> 3 * (header_of(data@).width * header_of(
            data@,
        ).height) <= usize::MAX,
    ensures
        data@.len() < 0x18 || !has_magic(data@) ==> res == Err::<(), GammaError>(GammaError::NotLf2)
            && *final(tally) == *old(tally),
        data@.len() >= 0x18 && has_magic(data@) ==> {
            let h = header_of(data@);
            let payload = data@.skip(h.payload_start as int);
            match res {
                Err(GammaError::NotLf2) => false,
                Err(GammaError::Decode(de)) => {
                    &&& *final(tally) == *old(tally)
                    &&& (de == DecodeError::Malformed <==> parse(payload) is None)
                    &&& (de == DecodeError::TooShort ==> (parse(payload) matches Some(ps) && decode(
                        ps,
                    ).len() < h.width * h.height))
                },
                Ok(()) => parse(payload) matches Some(ps) && exists|k: int, ts: Seq<Token>|
                    needed_prefix(ps, h.width * h.height, k) && #[trigger] encoder_output(
                        e,
                        decode(ps.take(k)).take(h.width * h.height),
                        h.width as int,
                        ts,
                    ) && *final(tally) == tally_after(*old(tally), frame(ts), payload),
            }
        },
{
    let (w, h, ps) = match parse_header_unchecked(data) {
        Ok(x) => x,
        Err(_) => {
            return Err(GammaError::NotLf2);
        },
    };
    let n = data.len();
    let payload = vstd::slice::slice_subrange(data, ps, n);
    match decompress_to_tokens(payload, w, h) {
        Err(de) => Err(GammaError::Decode(de)),
        Ok(d) => {
            proof {
                assert(d.ring_input@.len() == (w as int) * (h as int));
                if w == 0 {
                    assert((w as int) * (h as int) == 0) by (nonlinear_arith)
                        requires
                            w == 0,
                    ;
                }
            }
            encode_and_record(d.ring_input.as_slice(), w as usize, payload, e, tally);
            proof {
                let pts = parse(payload@)->0;
                let k = d.tokens@.len() as int;
                assert(pts.take(k) == d.tokens@);
                assert(needed_prefix(pts, (w as int) * (h as int), k));
            }
            Ok(())
        },
    }
}

/// How a re-framed payload compares with the original one.
#[derive(Clone, Copy, Debug, PartialEq, Eq, Structural)]
pub enum PayloadComparison {
    /// Byte for byte the same.
    Same,
    /// One is a proper prefix of the other: only trailing padding differs.
    PaddingOnly,
    /// The first position, within both, where they differ.
    DiffersAt(usize),
}

/// Compares a re-framed payload `new` with the original `orig`.
pub fn compare_payloads(new: &[u8], orig: &[u8]) -> (c: PayloadComparison)
    ensures
        c == PayloadComparison::Same <==> new@ == orig@,
        c == PayloadComparison::PaddingOnly <==> (new@.len() != orig@.len() && forall|j: int|
            0 <= j < new@.len() && j < orig@.len() ==> new@[j] == orig@[j]),
        c matches PayloadComparison::DiffersAt(i) ==> {
            &&& i < new@.len()
            &&& i < orig@.len()
            &&& new@[i as int] != orig@[i as int]
            &&& forall|j: int| 0 <= j < i ==> new@[j] == orig@[j]
        },
{
    let common = if new.len() < orig.len() {
        new.len()
    } else {
        orig.len()
    };
    let mut i: usize = 0;
    while i < common
        invariant
            common <= new@.len(),
            common <= orig@.len(),
            common == new@.len() || common == orig@.len(),
            i <= common,
            forall|j: int| 0 <= j < i ==> new@[j] == orig@[j],
        decreases common - i,
    {
        if new[i] != orig[i] {
            return PayloadComparison::DiffersAt(i);
        }
        i += 1;
    }
    if new.len() == orig.len() {
        assert(new@ =~= orig@);
        PayloadComparison::Same
    } else {
        PayloadComparison::PaddingOnly
    }
}

} // verus!
