//! The `Frame` value type and its deterministic byte encoding.
//!
//! A frame is one discrete protocol message. Text payloads (simple strings
//! and errors) are byte strings that must not contain CR or LF, since the
//! wire format terminates them with CRLF; bulk payloads are length-prefixed
//! and may hold arbitrary bytes. Array frames carry requests inbound and are
//! decoded from the wire, but the encoding direction reserves them: this
//! core never serializes an `Array`, and attempting to is a contract
//! violation.

use vstd::prelude::*;

verus! {

/// One protocol message, either request-side or response-side.
///
/// Frames own their payloads outright; a parsed frame never borrows from the
/// connection buffer it was decoded out of.
#[derive(Debug, PartialEq, Eq)]
pub enum Frame {
    Simple(Vec<u8>),
    Error(Vec<u8>),
    Integer(u64),
    Bulk(Vec<u8>),
    Null,
    Array(Vec<Frame>),
}

/// The mathematical model of a frame: the same shape over `Seq<u8>`.
pub enum SpecFrame {
    Simple(Seq<u8>),
    Error(Seq<u8>),
    Integer(u64),
    Bulk(Seq<u8>),
    Null,
    Array(Seq<SpecFrame>),
}

/// The model of a frame.
pub open spec fn frame_view(f: Frame) -> SpecFrame
    decreases f,
{
    match f {
        Frame::Simple(s) => SpecFrame::Simple(s@),
        Frame::Error(s) => SpecFrame::Error(s@),
        Frame::Integer(n) => SpecFrame::Integer(n),
        Frame::Bulk(p) => SpecFrame::Bulk(p@),
        Frame::Null => SpecFrame::Null,
        Frame::Array(items) => SpecFrame::Array(frame_views(items@)),
    }
}

/// The models of a sequence of frames, element by element.
pub open spec fn frame_views(items: Seq<Frame>) -> Seq<SpecFrame>
    decreases items,
{
    if items.len() == 0 {
        Seq::empty()
    } else {
        frame_views(items.drop_last()).push(frame_view(items.last()))
    }
}

impl View for Frame {
    type V = SpecFrame;

    open spec fn view(&self) -> SpecFrame {
        frame_view(*self)
    }
}

/// A sequence of frames and its model have the same length.
pub proof fn lemma_frame_views_len(items: Seq<Frame>)
    ensures
        frame_views(items).len() == items.len(),
    decreases items.len(),
{
    if items.len() > 0 {
        lemma_frame_views_len(items.drop_last());
    }
}

/// The model of a sequence of frames is the model of each frame in place.
pub proof fn lemma_frame_views_index(items: Seq<Frame>, k: int)
    requires
        0 <= k < items.len(),
    ensures
        frame_views(items)[k] == frame_view(items[k]),
    decreases items.len(),
{
    lemma_frame_views_len(items.drop_last());
    if k == items.len() - 1 {
    } else {
        lemma_frame_views_index(items.drop_last(), k);
        assert(items.drop_last()[k] == items[k]);
    }
}

/// Appending a frame appends its model.
pub proof fn lemma_frame_views_push(items: Seq<Frame>, f: Frame)
    ensures
        frame_views(items.push(f)) == frame_views(items).push(frame_view(f)),
{
    assert(items.push(f).drop_last() =~= items);
    assert(items.push(f).last() == f);
}

/// True of a byte that may appear in a CRLF-terminated text line.
pub open spec fn line_byte(b: u8) -> bool {
    b != 13u8 && b != 10u8
}

/// True of a byte string that may stand as a CRLF-terminated text line.
pub open spec fn line_ok(s: Seq<u8>) -> bool {
    forall|i: int| 0 <= i < s.len() ==> line_byte(#[trigger] s[i])
}

/// True of the frames that have a wire representation: everything except
/// `Array`, with text payloads free of CR and LF and bulk payloads whose
/// length fits the decimal length prefix.
pub open spec fn encodable(f: SpecFrame) -> bool {
    match f {
        SpecFrame::Simple(s) => line_ok(s),
        SpecFrame::Error(s) => line_ok(s),
        SpecFrame::Integer(_) => true,
        SpecFrame::Bulk(p) => p.len() <= u64::MAX,
        SpecFrame::Null => true,
        SpecFrame::Array(_) => false,
    }
}

/// True of every frame the decoder can yield: like `encodable`, but arrays
/// are admitted — requests arrive as array frames — with every element
/// well formed in turn and the element count within the decimal prefix.
/// Only top-level arrays lack a wire representation on the way out.
pub open spec fn frame_wf(f: SpecFrame) -> bool
    decreases f,
{
    match f {
        SpecFrame::Simple(s) => line_ok(s),
        SpecFrame::Error(s) => line_ok(s),
        SpecFrame::Integer(_) => true,
        SpecFrame::Bulk(p) => p.len() <= u64::MAX,
        SpecFrame::Null => true,
        SpecFrame::Array(items) => items.len() <= u64::MAX && forall|i: int|
            0 <= i < items.len() ==> frame_wf(#[trigger] items[i]),
    }
}

/// The canonical decimal digits of `n`, most significant first.
pub open spec fn dec_digits(n: nat) -> Seq<u8>
    decreases n,
{
    if n < 10 {
        seq![(48 + n) as u8]
    } else {
        dec_digits(n / 10).push((48 + n % 10) as u8)
    }
}

/// The number denoted by a string of decimal digits.
pub open spec fn dec_value(s: Seq<u8>) -> int
    decreases s.len(),
{
    if s.len() == 0 {
        0
    } else {
        dec_value(s.drop_last()) * 10 + (s.last() - 48)
    }
}

/// True of an ASCII decimal digit.
pub open spec fn digit(b: u8) -> bool {
    48 <= b <= 57
}

/// True of a byte string made entirely of decimal digits.
pub open spec fn all_digits(s: Seq<u8>) -> bool {
    forall|i: int| 0 <= i < s.len() ==> digit(#[trigger] s[i])
}

/// The CRLF line terminator.
pub open spec fn crlf() -> Seq<u8> {
    seq![13u8, 10u8]
}

/// The wire encoding of a frame: a one-byte type prefix, then the payload.
///
/// - simple string: `+<text>\r\n`
/// - error: `-<text>\r\n`
/// - integer: `:<decimal>\r\n`
/// - null: `$-1\r\n`
/// - bulk string: `$<byte-length>\r\n<raw bytes>\r\n`
///
/// `Array` has no wire representation; `encode` refuses it by precondition,
/// and this function gives it an empty image only to stay total.
pub open spec fn frame_enc(f: SpecFrame) -> Seq<u8> {
    match f {
        SpecFrame::Simple(s) => seq![43u8] + s + crlf(),
        SpecFrame::Error(s) => seq![45u8] + s + crlf(),
        SpecFrame::Integer(n) => seq![58u8] + dec_digits(n as nat) + crlf(),
        SpecFrame::Null => seq![36u8, 45u8, 49u8, 13u8, 10u8],
        SpecFrame::Bulk(p) => seq![36u8] + dec_digits(p.len()) + crlf() + p + crlf(),
        SpecFrame::Array(_) => Seq::empty(),
    }
}

/// A digit string denotes a nonnegative number.
pub proof fn lemma_dec_value_nonneg(s: Seq<u8>)
    requires
        all_digits(s),
    ensures
        dec_value(s) >= 0,
    decreases s.len(),
{
    if s.len() > 0 {
        assert(all_digits(s.drop_last())) by {
            assert(forall|i: int| 0 <= i < s.len() - 1 ==> s.drop_last()[i] == s[i]);
        }
        lemma_dec_value_nonneg(s.drop_last());
    }
}

/// Extending a digit string to the right never decreases its value.
pub proof fn lemma_dec_value_take_le(s: Seq<u8>, j: int)
    requires
        all_digits(s),
        0 <= j <= s.len(),
    ensures
        dec_value(s.subrange(0, j)) <= dec_value(s),
    decreases s.len(),
{
    if j == s.len() {
        assert(s.subrange(0, j) =~= s);
    } else {
        let d = s.drop_last();
        assert(all_digits(d)) by {
            assert(forall|i: int| 0 <= i < s.len() - 1 ==> d[i] == s[i]);
        }
        lemma_dec_value_nonneg(d);
        assert(s.subrange(0, j) =~= d.subrange(0, j));
        lemma_dec_value_take_le(d, j);
        assert(dec_value(s) == dec_value(d) * 10 + (s.last() - 48));
        assert(dec_value(d) * 10 >= dec_value(d));
    }
}

/// The canonical digits of a number are all digits.
pub proof fn lemma_dec_digits_digits(n: nat)
    ensures
        all_digits(dec_digits(n)),
        dec_digits(n).len() >= 1,
    decreases n,
{
    if n < 10 {
    } else {
        lemma_dec_digits_digits(n / 10);
        let d = dec_digits(n / 10);
        let whole = dec_digits(n);
        assert(whole == d.push((48 + n % 10) as u8));
        assert(forall|i: int| 0 <= i < d.len() ==> whole[i] == d[i]);
        assert(digit(whole[whole.len() - 1]));
    }
}

/// Reading back the canonical digits of a number yields that number.
pub proof fn lemma_dec_digits_value(n: nat)
    ensures
        dec_value(dec_digits(n)) == n,
    decreases n,
{
    if n < 10 {
        let s = dec_digits(n);
        assert(s == seq![(48 + n) as u8]);
        assert(s.drop_last() =~= Seq::<u8>::empty());
        assert(dec_value(Seq::<u8>::empty()) == 0);
        assert(dec_value(s) == 0 * 10 + (s.last() - 48));
        assert((48 + n) as u8 == 48 + n);
    } else {
        lemma_dec_digits_value(n / 10);
        let d = dec_digits(n / 10);
        let whole = dec_digits(n);
        assert(whole == d.push((48 + n % 10) as u8));
        assert(whole.len() == d.len() + 1);
        assert(whole.drop_last() =~= d);
        assert(whole.last() == (48 + n % 10) as u8);
        assert(dec_value(whole) == dec_value(d) * 10 + (whole.last() - 48));
        assert(n % 10 < 10);
        assert((48 + n % 10) as u8 == 48 + n % 10);
        assert(n / 10 * 10 + n % 10 == n) by (nonlinear_arith);
        assert(dec_value(whole) == n / 10 * 10 + n % 10);
    }
}

/// Appends every byte of `src` to `out`.
pub fn push_all(out: &mut Vec<u8>, src: &[u8])
    ensures
        final(out)@ == old(out)@ + src@,
{
    let mut i: usize = 0;
    while i < src.len()
        invariant
            i <= src@.len(),
            out@ == old(out)@ + src@.subrange(0, i as int),
        decreases src@.len() - i,
    {
        out.push(src[i]);
        proof {
            assert(out@ =~= old(out)@ + src@.subrange(0, i + 1));
        }
        i = i + 1;
    }
    proof {
        assert(out@ =~= old(out)@ + src@);
    }
}

/// Appends the canonical decimal digits of `n` to `out`.
fn push_digits(out: &mut Vec<u8>, n: u64)
    ensures
        final(out)@ == old(out)@ + dec_digits(n as nat),
    decreases n,
{
    if n < 10 {
        out.push((n as u8) + 48);
        proof {
            assert(out@ =~= old(out)@ + dec_digits(n as nat));
        }
    } else {
        push_digits(out, n / 10);
        out.push(((n % 10) as u8) + 48);
        proof {
            assert(out@ =~= old(out)@ + dec_digits(n as nat));
        }
    }
}

/// The decimal ASCII representation of `n` followed by CRLF, as written
/// after the `:` and `$` type prefixes.
pub fn encode_decimal(n: u64) -> (out: Vec<u8>)
    ensures
        out@ == dec_digits(n as nat) + crlf(),
{
    let mut out: Vec<u8> = Vec::new();
    push_digits(&mut out, n);
    out.push(13);
    out.push(10);
    proof {
        assert(out@ =~= dec_digits(n as nat) + crlf());
    }
    out
}

/// Serializes a frame into its exact wire representation.
///
/// The caller must not pass an `Array` frame: that variant is reserved and
/// has no encoding.
pub fn encode(f: &Frame) -> (out: Vec<u8>)
    requires
        encodable(f@),
    ensures
        out@ == frame_enc(f@),
{
    let mut out: Vec<u8> = Vec::new();
    match f {
        Frame::Simple(s) => {
            out.push(43);
            push_all(&mut out, s.as_slice());
            out.push(13);
            out.push(10);
            proof {
                assert(out@ =~= frame_enc(f@));
            }
        },
        Frame::Error(s) => {
            out.push(45);
            push_all(&mut out, s.as_slice());
            out.push(13);
            out.push(10);
            proof {
                assert(out@ =~= frame_enc(f@));
            }
        },
        Frame::Integer(n) => {
            out.push(58);
            push_digits(&mut out, *n);
            out.push(13);
            out.push(10);
            proof {
                assert(out@ =~= frame_enc(f@));
            }
        },
        Frame::Null => {
            out.push(36);
            out.push(45);
            out.push(49);
            out.push(13);
            out.push(10);
            proof {
                assert(out@ =~= frame_enc(f@));
            }
        },
        Frame::Bulk(p) => {
            out.push(36);
            push_digits(&mut out, p.len() as u64);
            out.push(13);
            out.push(10);
            push_all(&mut out, p.as_slice());
            out.push(13);
            out.push(10);
            proof {
                assert(out@ =~= frame_enc(f@));
            }
        },
        Frame::Array(_) => {
            // Excluded by the precondition: arrays have no encoding.
            proof {
                assert(false);
            }
        },
    }
    out
}

} // verus!
