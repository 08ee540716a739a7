//! Incremental decoding of one frame from the front of a byte buffer.
//!
//! Decoding a prefix of a stream has three possible outcomes, and telling
//! them apart is the whole point of this module:
//!
//! - a complete frame starts at the buffer's origin: the decoder yields it
//!   together with the exact offset one past its end;
//! - the bytes are a well-formed but truncated prefix of a frame: the caller
//!   must read more input and retry — a normal, expected condition;
//! - the bytes are provably invalid framing: the connection is corrupted and
//!   must be closed.
//!
//! Requests arrive as array frames — `*<count>\r\n` followed by `count`
//! frames — so the decoder reads arrays, recursively. Only the encoding
//! direction reserves the `Array` variant: this core never writes one.

use vstd::prelude::*;

use crate::frame::Frame;
use crate::frame::SpecFrame;
use crate::frame::all_digits;
use crate::frame::dec_value;
use crate::frame::digit;
use crate::frame::line_byte;

verus! {

/// Result of scanning for a CRLF line terminator from a given offset.
pub ghost enum LineScan {
    /// A terminator was found: `Line(i)` means the CR stands at offset `i`.
    Line(int),
    /// The buffer ended before a terminator was found.
    NeedMore,
    /// A stray CR or LF makes the line unterminatable.
    Bad,
}

/// Scans `s` from offset `from` for the first CRLF pair. A CR not followed
/// by LF, or a bare LF, is invalid: line payloads never contain either byte.
pub open spec fn scan_line(s: Seq<u8>, from: int) -> LineScan
    decreases s.len() - from,
{
    if from >= s.len() {
        LineScan::NeedMore
    } else if s[from] == 13u8 {
        if from + 1 >= s.len() {
            LineScan::NeedMore
        } else if s[from + 1] == 10u8 {
            LineScan::Line(from)
        } else {
            LineScan::Bad
        }
    } else if s[from] == 10u8 {
        LineScan::Bad
    } else {
        scan_line(s, from + 1)
    }
}

/// Result of decoding one frame from the front of a byte string.
pub ghost enum Decoded {
    /// A complete frame, and the offset one past its last byte.
    Found(SpecFrame, int),
    /// A well-formed but truncated prefix: read more input and retry.
    More,
    /// Provably invalid framing.
    Bad,
}

/// True of a digit string that denotes a number representable in a `u64`.
/// Leading zeros are accepted.
pub open spec fn valid_num(s: Seq<u8>) -> bool {
    s.len() >= 1 && all_digits(s) && dec_value(s) <= u64::MAX
}

/// The null marker line, `-1`, as written between `$` and CRLF.
pub open spec fn null_marker() -> Seq<u8> {
    seq![45u8, 49u8]
}

/// Result of decoding a fixed number of consecutive frames.
pub ghost enum ElemsDec {
    /// All elements were decoded; the total number of bytes they occupy.
    ElemsFound(Seq<SpecFrame>, int),
    /// The input ran out mid-element: read more and retry.
    ElemsMore,
    /// Some element is provably invalid framing.
    ElemsBad,
}

/// Decodes exactly `count` consecutive frames from the front of `t`:
/// the elements of an array frame, each followed immediately by the next.
pub open spec fn elems_dec(t: Seq<u8>, count: int) -> ElemsDec
    decreases t.len(), 1int, count,
{
    if count <= 0 {
        ElemsDec::ElemsFound(Seq::empty(), 0)
    } else {
        match frame_dec(t) {
            Decoded::Found(f, n) => {
                if 0 < n <= t.len() {
                    match elems_dec(t.skip(n), count - 1) {
                        ElemsDec::ElemsFound(fs, m) => ElemsDec::ElemsFound(seq![f] + fs, n + m),
                        ElemsDec::ElemsMore => ElemsDec::ElemsMore,
                        ElemsDec::ElemsBad => ElemsDec::ElemsBad,
                    }
                } else {
                    // A decoded frame always occupies between one byte and
                    // the whole input; this arm is never reached.
                    ElemsDec::ElemsMore
                }
            },
            Decoded::More => ElemsDec::ElemsMore,
            Decoded::Bad => ElemsDec::ElemsBad,
        }
    }
}

/// Decodes one frame from the front of `s`.
///
/// This is the mathematical reference for `decode`, `check` and `parse`: it
/// classifies every byte string as a complete frame, a truncated prefix, or
/// invalid framing.
pub open spec fn frame_dec(s: Seq<u8>) -> Decoded
    decreases s.len(), 0int, 0int,
{
    if s.len() == 0 {
        Decoded::More
    } else if s[0] == 43u8 {
        match scan_line(s, 1) {
            LineScan::Line(i) => Decoded::Found(SpecFrame::Simple(s.subrange(1, i)), i + 2),
            LineScan::NeedMore => Decoded::More,
            LineScan::Bad => Decoded::Bad,
        }
    } else if s[0] == 45u8 {
        match scan_line(s, 1) {
            LineScan::Line(i) => Decoded::Found(SpecFrame::Error(s.subrange(1, i)), i + 2),
            LineScan::NeedMore => Decoded::More,
            LineScan::Bad => Decoded::Bad,
        }
    } else if s[0] == 58u8 {
        match scan_line(s, 1) {
            LineScan::Line(i) => {
                let num = s.subrange(1, i);
                if valid_num(num) {
                    Decoded::Found(SpecFrame::Integer(dec_value(num) as u64), i + 2)
                } else {
                    Decoded::Bad
                }
            },
            LineScan::NeedMore => Decoded::More,
            LineScan::Bad => Decoded::Bad,
        }
    } else if s[0] == 36u8 {
        match scan_line(s, 1) {
            LineScan::Line(i) => {
                let line = s.subrange(1, i);
                if line == null_marker() {
                    Decoded::Found(SpecFrame::Null, i + 2)
                } else if valid_num(line) {
                    let len = dec_value(line);
                    let start = i + 2;
                    if s.len() < start + len + 2 {
                        Decoded::More
                    } else if s[start + len] == 13u8 && s[start + len + 1] == 10u8 {
                        Decoded::Found(SpecFrame::Bulk(s.subrange(start, start + len)), start + len + 2)
                    } else {
                        Decoded::Bad
                    }
                } else {
                    Decoded::Bad
                }
            },
            LineScan::NeedMore => Decoded::More,
            LineScan::Bad => Decoded::Bad,
        }
    } else if s[0] == 42u8 {
        match scan_line(s, 1) {
            LineScan::Line(i) => {
                proof {
                    lemma_scan_line_found(s, 1, i);
                }
                let line = s.subrange(1, i);
                if valid_num(line) {
                    let count = dec_value(line);
                    match elems_dec(s.skip(i + 2), count) {
                        ElemsDec::ElemsFound(fs, m) => Decoded::Found(
                            SpecFrame::Array(fs),
                            i + 2 + m,
                        ),
                        ElemsDec::ElemsMore => Decoded::More,
                        ElemsDec::ElemsBad => Decoded::Bad,
                    }
                } else {
                    Decoded::Bad
                }
            },
            LineScan::NeedMore => Decoded::More,
            LineScan::Bad => Decoded::Bad,
        }
    } else {
        Decoded::Bad
    }
}

/// Prepends elements already decoded, and the bytes they occupy, to the
/// outcome of decoding the elements that follow them.
pub open spec fn elems_cons(fs0: Seq<SpecFrame>, c: int, e: ElemsDec) -> ElemsDec {
    match e {
        ElemsDec::ElemsFound(fs, m) => ElemsDec::ElemsFound(fs0 + fs, c + m),
        ElemsDec::ElemsMore => ElemsDec::ElemsMore,
        ElemsDec::ElemsBad => ElemsDec::ElemsBad,
    }
}

/// Prepending nothing changes nothing.
proof fn lemma_elems_cons_nil(e: ElemsDec)
    ensures
        elems_cons(Seq::empty(), 0, e) == e,
{
    match e {
        ElemsDec::ElemsFound(fs, m) => {
            assert(Seq::empty() + fs =~= fs);
        },
        _ => {
        },
    }
}

/// Two prepends in a row are one prepend of the combined prefix.
proof fn lemma_elems_cons_snoc(fs0: Seq<SpecFrame>, c: int, f: SpecFrame, n: int, e: ElemsDec)
    ensures
        elems_cons(fs0, c, elems_cons(seq![f], n, e)) == elems_cons(fs0.push(f), c + n, e),
{
    match e {
        ElemsDec::ElemsFound(fs, m) => {
            assert(fs0 + (seq![f] + fs) =~= fs0.push(f) + fs);
        },
        _ => {
        },
    }
}

/// What a successful line scan says of the bytes: the payload before the CR
/// holds neither CR nor LF, and the CRLF pair is in bounds.
pub proof fn lemma_scan_line_found(s: Seq<u8>, from: int, i: int)
    requires
        0 <= from,
        scan_line(s, from) == LineScan::Line(i),
    ensures
        from <= i,
        i + 1 < s.len(),
        s[i] == 13u8,
        s[i + 1] == 10u8,
        forall|k: int| from <= k < i ==> line_byte(#[trigger] s[k]),
    decreases s.len() - from,
{
    if from >= s.len() {
    } else if s[from] == 13u8 {
    } else if s[from] == 10u8 {
    } else {
        lemma_scan_line_found(s, from + 1, i);
    }
}

/// The converse: a CRLF pair at `i` preceded by line bytes is what the scan
/// finds.
proof fn lemma_scan_line_of(s: Seq<u8>, from: int, i: int)
    requires
        0 <= from <= i,
        i + 1 < s.len(),
        s[i] == 13u8,
        s[i + 1] == 10u8,
        forall|k: int| from <= k < i ==> line_byte(#[trigger] s[k]),
    ensures
        scan_line(s, from) == LineScan::Line(i),
    decreases i - from,
{
    if from < i {
        lemma_scan_line_of(s, from + 1, i);
    }
}

/// Result of searching a byte slice for a CRLF line terminator.
enum FindLine {
    Line(usize),
    NeedMore,
    Bad,
}

/// Finds the first CRLF pair in `buf` at or after `from`.
fn find_line(buf: &[u8], from: usize) -> (r: FindLine)
    requires
        from <= buf@.len(),
    ensures
        match r {
            FindLine::Line(i) => scan_line(buf@, from as int) == LineScan::Line(i as int)
                && from <= i && i + 2 <= buf@.len(),
            FindLine::NeedMore => scan_line(buf@, from as int) == LineScan::NeedMore,
            FindLine::Bad => scan_line(buf@, from as int) == LineScan::Bad,
        },
{
    let mut j = from;
    while j < buf.len()
        invariant
            from <= j <= buf@.len(),
            scan_line(buf@, from as int) == scan_line(buf@, j as int),
        decreases buf@.len() - j,
    {
        let b = buf[j];
        if b == 13 {
            if j + 1 == buf.len() {
                return FindLine::NeedMore;
            } else if buf[j + 1] == 10 {
                return FindLine::Line(j);
            } else {
                return FindLine::Bad;
            }
        } else if b == 10 {
            return FindLine::Bad;
        }
        j = j + 1;
    }
    FindLine::NeedMore
}

/// Reads the decimal number written at `buf[from..end]`, refusing anything
/// that is not a digit string or that does not fit a `u64`.
fn parse_num(buf: &[u8], from: usize, end: usize) -> (r: Option<u64>)
    requires
        from <= end <= buf@.len(),
    ensures
        match r {
            Some(v) => valid_num(buf@.subrange(from as int, end as int))
                && v == dec_value(buf@.subrange(from as int, end as int)),
            None => !valid_num(buf@.subrange(from as int, end as int)),
        },
{
    let ghost whole = buf@.subrange(from as int, end as int);
    if from == end {
        return None;
    }
    let mut acc: u64 = 0;
    let mut j = from;
    while j < end
        invariant
            from <= j <= end <= buf@.len(),
            all_digits(buf@.subrange(from as int, j as int)),
            acc == dec_value(buf@.subrange(from as int, j as int)),
            whole == buf@.subrange(from as int, end as int),
        decreases end - j,
    {
        let b = buf[j];
        if b < 48 || b > 57 {
            proof {
                assert(whole[j - from] == buf@[j as int]);
                assert(!all_digits(whole));
            }
            return None;
        }
        let d = (b - 48) as u64;
        proof {
            assert(buf@.subrange(from as int, j + 1).drop_last() =~= buf@.subrange(
                from as int,
                j as int,
            ));
            assert(buf@.subrange(from as int, j + 1).last() == buf@[j as int]);
            assert(all_digits(buf@.subrange(from as int, j + 1)));
        }
        let limit = (u64::MAX - d) / 10;
        if acc > limit {
            proof {
                assert(acc * 10 + d > u64::MAX) by (nonlinear_arith)
                    requires
                        acc > (u64::MAX - d) / 10,
                        d <= 9,
                ;
                assert(dec_value(buf@.subrange(from as int, j + 1)) > u64::MAX);
                if all_digits(whole) {
                    assert(buf@.subrange(from as int, j + 1) =~= whole.subrange(
                        0,
                        j + 1 - from,
                    ));
                    crate::frame::lemma_dec_value_take_le(whole, j + 1 - from);
                }
            }
            return None;
        }
        proof {
            assert(acc * 10 + d <= u64::MAX) by (nonlinear_arith)
                requires
                    acc <= (u64::MAX - d) / 10,
                    d <= 9,
            ;
        }
        acc = acc * 10 + d;
        j = j + 1;
    }
    Some(acc)
}

/// Copies `buf[from..end]` into a fresh, owned byte vector.
fn copy_range(buf: &[u8], from: usize, end: usize) -> (r: Vec<u8>)
    requires
        from <= end <= buf@.len(),
    ensures
        r@ == buf@.subrange(from as int, end as int),
{
    let mut r: Vec<u8> = Vec::new();
    proof {
        assert(r@ =~= buf@.subrange(from as int, from as int));
    }
    let mut j = from;
    while j < end
        invariant
            from <= j <= end <= buf@.len(),
            r@ == buf@.subrange(from as int, j as int),
        decreases end - j,
    {
        r.push(buf[j]);
        proof {
            assert(r@ =~= buf@.subrange(from as int, j + 1));
        }
        j = j + 1;
    }
    r
}

/// How the scan behaves on a strict prefix of a string it succeeds on: the
/// same terminator once the prefix covers it, and `NeedMore` before that.
proof fn lemma_scan_line_prefix(s: Seq<u8>, from: int, i: int, k: int)
    requires
        0 <= from,
        scan_line(s, from) == LineScan::Line(i),
        0 <= k <= s.len(),
    ensures
        scan_line(s.subrange(0, k), from) == (
            if k >= i + 2 {
                LineScan::Line(i)
            } else {
                LineScan::NeedMore
            }
        ),
    decreases s.len() - from,
{
    lemma_scan_line_found(s, from, i);
    let p = s.subrange(0, k);
    if s[from] == 13u8 {
        assert(i == from);
    } else {
        if from >= k {
            assert(scan_line(p, from) == LineScan::NeedMore);
            assert(k < i + 2);
        } else {
            lemma_scan_line_prefix(s, from + 1, i, k);
        }
    }
}

/// A run of decoded elements occupies between zero bytes and the whole
/// input.
proof fn lemma_elems_bounds(t: Seq<u8>, count: int)
    ensures
        elems_dec(t, count) matches ElemsDec::ElemsFound(_, m) ==> 0 <= m <= t.len(),
    decreases t.len(), 1int, count,
{
    if count > 0 {
        match frame_dec(t) {
            Decoded::Found(f, n) => {
                if 0 < n <= t.len() {
                    lemma_elems_bounds(t.skip(n), count - 1);
                }
            },
            _ => {
            },
        }
    }
}

/// A decoded frame occupies between one byte and the whole input.
pub proof fn lemma_dec_bounds(s: Seq<u8>)
    ensures
        frame_dec(s) matches Decoded::Found(_, n) ==> 0 < n <= s.len(),
{
    if s.len() > 0 {
        match scan_line(s, 1) {
            LineScan::Line(i) => {
                lemma_scan_line_found(s, 1, i);
                if s[0] == 36u8 {
                    let line = s.subrange(1, i);
                    if line != null_marker() && valid_num(line) {
                        crate::frame::lemma_dec_value_nonneg(line);
                    }
                }
                if s[0] == 42u8 {
                    let line = s.subrange(1, i);
                    if valid_num(line) {
                        lemma_elems_bounds(s.skip(i + 2), dec_value(line));
                    }
                }
            },
            _ => {
            },
        }
    }
}

/// Truncation stability: the decoder's verdict on a complete frame depends
/// only on the frame's own bytes. Cutting the input anywhere at or past the
/// frame's end — or, read the other way, appending further input such as a
/// pipelined second frame — changes neither the frame nor its length.
pub proof fn lemma_dec_truncate(s: Seq<u8>, f: SpecFrame, n: int, k: int)
    requires
        frame_dec(s) == Decoded::Found(f, n),
        n <= k <= s.len(),
    ensures
        frame_dec(s.subrange(0, k)) == Decoded::Found(f, n),
    decreases s.len(), 0int, 0int,
{
    let p = s.subrange(0, k);
    lemma_dec_bounds(s);
    assert(p[0] == s[0]);
    match scan_line(s, 1) {
        LineScan::Line(i) => {
            lemma_scan_line_found(s, 1, i);
            if s[0] == 36u8 {
                let line = s.subrange(1, i);
                if line != null_marker() && valid_num(line) {
                    crate::frame::lemma_dec_value_nonneg(line);
                }
            }
            if s[0] == 42u8 {
                let line = s.subrange(1, i);
                if valid_num(line) {
                    lemma_elems_bounds(s.skip(i + 2), dec_value(line));
                }
            }
            assert(i + 2 <= n);
            lemma_scan_line_prefix(s, 1, i, k);
            assert(p.subrange(1, i) =~= s.subrange(1, i));
            if s[0] == 36u8 {
                let line = s.subrange(1, i);
                if line != null_marker() && valid_num(line) {
                    let len = dec_value(line);
                    assert(p.subrange(i + 2, i + 2 + len) =~= s.subrange(i + 2, i + 2 + len));
                }
            }
            if s[0] == 42u8 {
                let line = s.subrange(1, i);
                if valid_num(line) {
                    let count = dec_value(line);
                    let t = s.skip(i + 2);
                    match elems_dec(t, count) {
                        ElemsDec::ElemsFound(fs, m) => {
                            assert(p.skip(i + 2) =~= t.subrange(0, k - (i + 2)));
                            lemma_elems_truncate(t, count, fs, m, k - (i + 2));
                        },
                        _ => {
                            assert(false);
                        },
                    }
                }
            }
        },
        _ => {
            assert(false);
        },
    }
}

/// Truncation stability for a run of elements.
proof fn lemma_elems_truncate(t: Seq<u8>, count: int, fs: Seq<SpecFrame>, m: int, k: int)
    requires
        elems_dec(t, count) == ElemsDec::ElemsFound(fs, m),
        m <= k <= t.len(),
    ensures
        elems_dec(t.subrange(0, k), count) == ElemsDec::ElemsFound(fs, m),
    decreases t.len(), 1int, count,
{
    let p = t.subrange(0, k);
    if count > 0 {
        match frame_dec(t) {
            Decoded::Found(f1, n1) => {
                if 0 < n1 <= t.len() {
                    match elems_dec(t.skip(n1), count - 1) {
                        ElemsDec::ElemsFound(fs1, m1) => {
                            lemma_elems_bounds(t.skip(n1), count - 1);
                            lemma_dec_truncate(t, f1, n1, k);
                            assert(p.skip(n1) =~= t.skip(n1).subrange(0, k - n1));
                            lemma_elems_truncate(t.skip(n1), count - 1, fs1, m1, k - n1);
                        },
                        _ => {
                            assert(false);
                        },
                    }
                } else {
                    assert(false);
                }
            },
            _ => {
                assert(false);
            },
        }
    }
}

/// Prefix law for every decodable input, arrays included: each strict
/// prefix of a complete frame's bytes is classified as a truncated frame —
/// never as complete, never as invalid. This is what lets a connection
/// collect a request in arbitrary chunks: after every partial read the
/// decoder asks for more, and the frame finally yielded is the one the
/// whole input denotes.
pub proof fn lemma_dec_prefix(s: Seq<u8>, f: SpecFrame, n: int, k: int)
    requires
        frame_dec(s) == Decoded::Found(f, n),
        0 <= k < n,
    ensures
        frame_dec(s.subrange(0, k)) == Decoded::More,
    decreases s.len(), 0int, 0int,
{
    let p = s.subrange(0, k);
    lemma_dec_bounds(s);
    if k > 0 {
        assert(p[0] == s[0]);
        match scan_line(s, 1) {
            LineScan::Line(i) => {
                lemma_scan_line_found(s, 1, i);
                lemma_scan_line_prefix(s, 1, i, k);
                if k >= i + 2 {
                    assert(p.subrange(1, i) =~= s.subrange(1, i));
                    if s[0] == 36u8 {
                        let line = s.subrange(1, i);
                        crate::frame::lemma_dec_value_nonneg(line);
                    }
                    if s[0] == 42u8 {
                        let line = s.subrange(1, i);
                        let count = dec_value(line);
                        let t = s.skip(i + 2);
                        match elems_dec(t, count) {
                            ElemsDec::ElemsFound(fs, m) => {
                                assert(p.skip(i + 2) =~= t.subrange(0, k - (i + 2)));
                                lemma_elems_prefix(t, count, fs, m, k - (i + 2));
                            },
                            _ => {
                                assert(false);
                            },
                        }
                    }
                }
            },
            _ => {
                assert(false);
            },
        }
    }
}

/// Prefix law for a run of elements: cutting anywhere before the last
/// element's end leaves a truncated run.
proof fn lemma_elems_prefix(t: Seq<u8>, count: int, fs: Seq<SpecFrame>, m: int, k: int)
    requires
        elems_dec(t, count) == ElemsDec::ElemsFound(fs, m),
        0 <= k < m,
    ensures
        elems_dec(t.subrange(0, k), count) == ElemsDec::ElemsMore,
    decreases t.len(), 1int, count,
{
    let p = t.subrange(0, k);
    lemma_elems_bounds(t, count);
    if count > 0 {
        match frame_dec(t) {
            Decoded::Found(f1, n1) => {
                if 0 < n1 <= t.len() {
                    match elems_dec(t.skip(n1), count - 1) {
                        ElemsDec::ElemsFound(fs1, m1) => {
                            lemma_elems_bounds(t.skip(n1), count - 1);
                            if k < n1 {
                                lemma_dec_prefix(t, f1, n1, k);
                            } else {
                                lemma_dec_truncate(t, f1, n1, k);
                                assert(p.skip(n1) =~= t.skip(n1).subrange(0, k - n1));
                                if k == n1 {
                                    assert(count - 1 > 0);
                                    assert(p.skip(n1).len() == 0);
                                    assert(frame_dec(p.skip(n1)) == Decoded::More);
                                } else {
                                    lemma_elems_prefix(t.skip(n1), count - 1, fs1, m1, k - n1);
                                }
                            }
                        },
                        _ => {
                            assert(false);
                        },
                    }
                } else {
                    assert(false);
                }
            },
            _ => {
                assert(false);
            },
        }
    }
}

/// Round-trip law: decoding the encoding of any encodable frame yields
/// exactly that frame and consumes exactly its encoding — nothing less,
/// nothing more.
pub proof fn lemma_round_trip(f: SpecFrame)
    requires
        crate::frame::encodable(f),
    ensures
        frame_dec(crate::frame::frame_enc(f)) == Decoded::Found(
            f,
            crate::frame::frame_enc(f).len() as int,
        ),
{
    let s = crate::frame::frame_enc(f);
    match f {
        SpecFrame::Simple(p) => {
            let i = 1 + p.len() as int;
            assert(s.len() == p.len() + 3);
            assert(s[0] == 43u8);
            assert(s[i] == 13u8);
            assert(s[i + 1] == 10u8);
            assert(forall|k: int| 1 <= k < i ==> s[k] == p[k - 1]);
            lemma_scan_line_of(s, 1, i);
            assert(s.subrange(1, i) =~= p);
        },
        SpecFrame::Error(p) => {
            let i = 1 + p.len() as int;
            assert(s.len() == p.len() + 3);
            assert(s[0] == 45u8);
            assert(s[i] == 13u8);
            assert(s[i + 1] == 10u8);
            assert(forall|k: int| 1 <= k < i ==> s[k] == p[k - 1]);
            lemma_scan_line_of(s, 1, i);
            assert(s.subrange(1, i) =~= p);
        },
        SpecFrame::Integer(n) => {
            let d = crate::frame::dec_digits(n as nat);
            crate::frame::lemma_dec_digits_digits(n as nat);
            crate::frame::lemma_dec_digits_value(n as nat);
            let i = 1 + d.len() as int;
            assert(s.len() == d.len() + 3);
            assert(s[0] == 58u8);
            assert(s[i] == 13u8);
            assert(s[i + 1] == 10u8);
            assert(forall|k: int| 1 <= k < i ==> s[k] == d[k - 1]);
            assert(forall|k: int| 1 <= k < i ==> line_byte(#[trigger] s[k])) by {
                assert(forall|m: int| 0 <= m < d.len() ==> digit(#[trigger] d[m]));
            }
            lemma_scan_line_of(s, 1, i);
            assert(s.subrange(1, i) =~= d);
            assert(valid_num(d));
            assert(dec_value(d) as u64 == n);
        },
        SpecFrame::Null => {
            assert(s.len() == 5);
            assert(s[0] == 36u8 && s[1] == 45u8 && s[2] == 49u8 && s[3] == 13u8 && s[4]
                == 10u8);
            lemma_scan_line_of(s, 1, 3);
            assert(s.subrange(1, 3) =~= null_marker());
        },
        SpecFrame::Bulk(p) => {
            let d = crate::frame::dec_digits(p.len());
            crate::frame::lemma_dec_digits_digits(p.len());
            crate::frame::lemma_dec_digits_value(p.len());
            let i = 1 + d.len() as int;
            let start = i + 2;
            assert(s.len() == 1 + d.len() + 2 + p.len() + 2);
            assert(s[0] == 36u8);
            assert(s[i] == 13u8);
            assert(s[i + 1] == 10u8);
            assert(forall|k: int| 1 <= k < i ==> s[k] == d[k - 1]);
            assert(forall|k: int| 1 <= k < i ==> line_byte(#[trigger] s[k])) by {
                assert(forall|m: int| 0 <= m < d.len() ==> digit(#[trigger] d[m]));
            }
            lemma_scan_line_of(s, 1, i);
            assert(s.subrange(1, i) =~= d);
            assert(d != null_marker()) by {
                if d == null_marker() {
                    assert(d[0] == 45u8);
                    assert(digit(d[0]));
                }
            }
            assert(valid_num(d));
            let len = dec_value(d);
            assert(len == p.len());
            assert(s.len() == start + len + 2);
            assert(s[start + len] == 13u8);
            assert(s[start + len + 1] == 10u8);
            assert(s.subrange(start, start + len) =~= p);
        },
        SpecFrame::Array(_) => {
        },
    }
}

/// Incremental-feed law: every strict prefix of a valid frame encoding is
/// classified as a truncated frame — never as a complete frame and never as
/// invalid framing. Together with the round-trip law this says that a frame
/// delivered in arbitrary chunks decodes exactly as when delivered whole:
/// after each partial delivery the decoder asks for more input, and once the
/// last byte arrives it yields the frame itself.
pub proof fn lemma_prefix_incomplete(f: SpecFrame, k: int)
    requires
        crate::frame::encodable(f),
        0 <= k < crate::frame::frame_enc(f).len(),
    ensures
        frame_dec(crate::frame::frame_enc(f).subrange(0, k)) == Decoded::More,
{
    lemma_round_trip(f);
    lemma_dec_prefix(crate::frame::frame_enc(f), f, crate::frame::frame_enc(f).len() as int, k);
}

/// Chunked-delivery law: split a valid encoding into two chunks at any
/// point. After the first chunk alone the decoder asks for more input, and
/// once the rest arrives it yields exactly the encoded frame. Since every
/// intermediate state of a delivery in arbitrarily many chunks is some
/// prefix of the encoding, this covers any chunking: the decoder never
/// errors and never yields early on a partial frame, and the frame finally
/// yielded is the same as when the whole encoding arrives in one read.
pub proof fn lemma_chunked_delivery(f: SpecFrame, c1: Seq<u8>, c2: Seq<u8>)
    requires
        crate::frame::encodable(f),
        c1 + c2 == crate::frame::frame_enc(f),
        c1.len() < crate::frame::frame_enc(f).len(),
    ensures
        frame_dec(c1) == Decoded::More,
        frame_dec(c1 + c2) == Decoded::Found(f, crate::frame::frame_enc(f).len() as int),
{
    lemma_round_trip(f);
    assert(c1 =~= crate::frame::frame_enc(f).subrange(0, c1.len() as int));
    lemma_prefix_incomplete(f, c1.len() as int);
}

/// Result of one attempt to decode a frame from the front of a buffer.
#[derive(Debug)]
pub enum DecodeOutcome {
    /// A complete frame, and the offset one past its last byte.
    Found(Frame, usize),
    /// The bytes are a well-formed but truncated prefix: read more input.
    More,
    /// The bytes are provably invalid framing.
    Bad,
}

/// The two failure cases of `check`: a truncated-but-well-formed prefix
/// (recoverable; read more and retry) and provably invalid framing (fatal
/// to the connection).
#[derive(Debug, PartialEq, Eq)]
pub enum FrameError {
    Incomplete,
    Protocol,
}

/// Decodes one frame from the front of `buf`, reporting exactly what
/// `frame_dec` says of the bytes. A returned frame is always well formed;
/// array elements are decoded recursively.
#[verifier::loop_isolation(false)]
pub fn decode(buf: &[u8]) -> (r: DecodeOutcome)
    ensures
        match r {
            DecodeOutcome::Found(f, n) => frame_dec(buf@) == Decoded::Found(f@, n as int)
                && crate::frame::frame_wf(f@) && 0 < n <= buf@.len(),
            DecodeOutcome::More => frame_dec(buf@) == Decoded::More,
            DecodeOutcome::Bad => frame_dec(buf@) == Decoded::Bad,
        },
    decreases buf@.len(),
{
    if buf.len() == 0 {
        return DecodeOutcome::More;
    }
    let tag = buf[0];
    if tag == 43 || tag == 45 {
        match find_line(buf, 1) {
            FindLine::Line(i) => {
                let payload = copy_range(buf, 1, i);
                proof {
                    lemma_scan_line_found(buf@, 1, i as int);
                    assert forall|m: int| 0 <= m < payload@.len() implies line_byte(
                        #[trigger] payload@[m],
                    ) by {
                        assert(payload@[m] == buf@[m + 1]);
                    }
                }
                if tag == 43 {
                    DecodeOutcome::Found(Frame::Simple(payload), i + 2)
                } else {
                    DecodeOutcome::Found(Frame::Error(payload), i + 2)
                }
            },
            FindLine::NeedMore => DecodeOutcome::More,
            FindLine::Bad => DecodeOutcome::Bad,
        }
    } else if tag == 58 {
        match find_line(buf, 1) {
            FindLine::Line(i) => {
                match parse_num(buf, 1, i) {
                    Some(v) => DecodeOutcome::Found(Frame::Integer(v), i + 2),
                    None => DecodeOutcome::Bad,
                }
            },
            FindLine::NeedMore => DecodeOutcome::More,
            FindLine::Bad => DecodeOutcome::Bad,
        }
    } else if tag == 36 {
        match find_line(buf, 1) {
            FindLine::Line(i) => {
                if i == 3 && buf[1] == 45 && buf[2] == 49 {
                    proof {
                        assert(buf@.subrange(1, 3) =~= null_marker());
                    }
                    DecodeOutcome::Found(Frame::Null, 5)
                } else {
                    proof {
                        if buf@.subrange(1, i as int) == null_marker() {
                            assert(buf@.subrange(1, i as int).len() == 2);
                            assert(i == 3);
                            assert(buf@.subrange(1, 3)[0] == buf@[1]);
                            assert(buf@.subrange(1, 3)[1] == buf@[2]);
                            assert(false);
                        }
                    }
                    match parse_num(buf, 1, i) {
                        Some(v) => {
                            let start = i + 2;
                            let remaining = buf.len() - start;
                            if remaining < 2 || ((remaining - 2) as u64) < v {
                                DecodeOutcome::More
                            } else {
                                let vl = v as usize;
                                let pe = start + vl;
                                if buf[pe] == 13 && buf[pe + 1] == 10 {
                                    let payload = copy_range(buf, start, pe);
                                    DecodeOutcome::Found(Frame::Bulk(payload), pe + 2)
                                } else {
                                    DecodeOutcome::Bad
                                }
                            }
                        },
                        None => DecodeOutcome::Bad,
                    }
                }
            },
            FindLine::NeedMore => DecodeOutcome::More,
            FindLine::Bad => DecodeOutcome::Bad,
        }
    } else if tag == 42 {
        match find_line(buf, 1) {
            FindLine::Line(i) => {
                match parse_num(buf, 1, i) {
                    Some(v) => {
                        let start = i + 2;
                        let ghost t0 = buf@.skip(start as int);
                        let ghost count = v as int;
                        let mut items: Vec<Frame> = Vec::new();
                        let mut cur: usize = start;
                        let mut remaining: u64 = v;
                        proof {
                            lemma_elems_cons_nil(elems_dec(t0, count));
                            assert(crate::frame::frame_views(items@) =~= Seq::<SpecFrame>::empty());
                        }
                        while remaining > 0
                            invariant
                                start <= cur <= buf@.len(),
                                start == i + 2,
                                t0 == buf@.skip(start as int),
                                count == v as int,
                                items@.len() + remaining == v,
                                elems_dec(t0, count) == elems_cons(
                                    crate::frame::frame_views(items@),
                                    cur - start,
                                    elems_dec(buf@.skip(cur as int), remaining as int),
                                ),
                                forall|k: int|
                                    0 <= k < items@.len() ==> crate::frame::frame_wf(
                                        #[trigger] items@[k]@,
                                    ),
                            decreases remaining,
                        {
                            let rest = vstd::slice::slice_subrange(buf, cur, buf.len());
                            match decode(rest) {
                                DecodeOutcome::Found(f, n) => {
                                    proof {
                                        assert(buf@.skip(cur as int).skip(n as int) =~= buf@.skip(
                                            cur + n,
                                        ));
                                        assert(elems_dec(buf@.skip(cur as int), remaining as int)
                                            == elems_cons(
                                            seq![f@],
                                            n as int,
                                            elems_dec(buf@.skip(cur + n), remaining - 1),
                                        ));
                                        lemma_elems_cons_snoc(
                                            crate::frame::frame_views(items@),
                                            cur - start,
                                            f@,
                                            n as int,
                                            elems_dec(buf@.skip(cur + n), remaining - 1),
                                        );
                                        crate::frame::lemma_frame_views_push(items@, f);
                                    }
                                    items.push(f);
                                    cur = cur + n;
                                    remaining = remaining - 1;
                                },
                                DecodeOutcome::More => {
                                    proof {
                                        assert(elems_dec(buf@.skip(cur as int), remaining as int)
                                            == ElemsDec::ElemsMore);
                                        assert(elems_dec(t0, count) == ElemsDec::ElemsMore);
                                        assert(frame_dec(buf@) == Decoded::More);
                                    }
                                    return DecodeOutcome::More;
                                },
                                DecodeOutcome::Bad => {
                                    proof {
                                        assert(elems_dec(buf@.skip(cur as int), remaining as int)
                                            == ElemsDec::ElemsBad);
                                        assert(elems_dec(t0, count) == ElemsDec::ElemsBad);
                                        assert(frame_dec(buf@) == Decoded::Bad);
                                    }
                                    return DecodeOutcome::Bad;
                                },
                            }
                        }
                        proof {
                            let vs = crate::frame::frame_views(items@);
                            assert(elems_dec(buf@.skip(cur as int), 0) == ElemsDec::ElemsFound(
                                Seq::<SpecFrame>::empty(),
                                0,
                            ));
                            assert(vs + Seq::<SpecFrame>::empty() =~= vs);
                            assert(elems_dec(t0, count) == ElemsDec::ElemsFound(vs, cur - start));
                            assert(frame_dec(buf@) == Decoded::Found(
                                SpecFrame::Array(vs),
                                cur as int,
                            ));
                            let gv = Frame::Array(items)@;
                            assert(gv == SpecFrame::Array(vs));
                            crate::frame::lemma_frame_views_len(items@);
                            assert forall|k: int| 0 <= k < vs.len() implies
                                crate::frame::frame_wf(#[trigger] vs[k]) by {
                                crate::frame::lemma_frame_views_index(items@, k);
                                assert(vs[k] == items@[k]@);
                            }
                            assert(crate::frame::frame_wf(gv));
                        }
                        DecodeOutcome::Found(Frame::Array(items), cur)
                    },
                    None => DecodeOutcome::Bad,
                }
            },
            FindLine::NeedMore => DecodeOutcome::More,
            FindLine::Bad => DecodeOutcome::Bad,
        }
    } else {
        DecodeOutcome::Bad
    }
}

/// Scans the buffer without allocating, deciding whether a complete frame
/// is present at the buffer's origin. `Ok(n)` places the cursor at the
/// byte offset exactly past the frame's end; `Incomplete` asks the caller
/// to read more input first; `Protocol` condemns the connection.
#[verifier::loop_isolation(false)]
pub fn check(buf: &[u8]) -> (r: Result<usize, FrameError>)
    ensures
        match r {
            Ok(n) => frame_dec(buf@) matches Decoded::Found(_, m) && m == n as int && 0 < n
                <= buf@.len(),
            Err(FrameError::Incomplete) => frame_dec(buf@) == Decoded::More,
            Err(FrameError::Protocol) => frame_dec(buf@) == Decoded::Bad,
        },
    decreases buf@.len(),
{
    if buf.len() == 0 {
        return Err(FrameError::Incomplete);
    }
    let tag = buf[0];
    if tag == 43 || tag == 45 {
        match find_line(buf, 1) {
            FindLine::Line(i) => Ok(i + 2),
            FindLine::NeedMore => Err(FrameError::Incomplete),
            FindLine::Bad => Err(FrameError::Protocol),
        }
    } else if tag == 58 {
        match find_line(buf, 1) {
            FindLine::Line(i) => {
                match parse_num(buf, 1, i) {
                    Some(_) => Ok(i + 2),
                    None => Err(FrameError::Protocol),
                }
            },
            FindLine::NeedMore => Err(FrameError::Incomplete),
            FindLine::Bad => Err(FrameError::Protocol),
        }
    } else if tag == 36 {
        match find_line(buf, 1) {
            FindLine::Line(i) => {
                if i == 3 && buf[1] == 45 && buf[2] == 49 {
                    proof {
                        assert(buf@.subrange(1, 3) =~= null_marker());
                    }
                    Ok(5)
                } else {
                    proof {
                        if buf@.subrange(1, i as int) == null_marker() {
                            assert(buf@.subrange(1, i as int).len() == 2);
                            assert(i == 3);
                            assert(buf@.subrange(1, 3)[0] == buf@[1]);
                            assert(buf@.subrange(1, 3)[1] == buf@[2]);
                            assert(false);
                        }
                    }
                    match parse_num(buf, 1, i) {
                        Some(v) => {
                            let start = i + 2;
                            let remaining = buf.len() - start;
                            if remaining < 2 || ((remaining - 2) as u64) < v {
                                Err(FrameError::Incomplete)
                            } else {
                                let vl = v as usize;
                                let pe = start + vl;
                                if buf[pe] == 13 && buf[pe + 1] == 10 {
                                    Ok(pe + 2)
                                } else {
                                    Err(FrameError::Protocol)
                                }
                            }
                        },
                        None => Err(FrameError::Protocol),
                    }
                }
            },
            FindLine::NeedMore => Err(FrameError::Incomplete),
            FindLine::Bad => Err(FrameError::Protocol),
        }
    } else if tag == 42 {
        match find_line(buf, 1) {
            FindLine::Line(i) => {
                match parse_num(buf, 1, i) {
                    Some(v) => {
                        let start = i + 2;
                        let ghost t0 = buf@.skip(start as int);
                        let ghost count = v as int;
                        let mut cur: usize = start;
                        let mut remaining: u64 = v;
                        let ghost mut fs: Seq<SpecFrame> = Seq::empty();
                        proof {
                            lemma_elems_cons_nil(elems_dec(t0, count));
                        }
                        while remaining > 0
                            invariant
                                start <= cur <= buf@.len(),
                                start == i + 2,
                                t0 == buf@.skip(start as int),
                                count == v as int,
                                fs.len() + remaining == v,
                                elems_dec(t0, count) == elems_cons(
                                    fs,
                                    cur - start,
                                    elems_dec(buf@.skip(cur as int), remaining as int),
                                ),
                            decreases remaining,
                        {
                            let rest = vstd::slice::slice_subrange(buf, cur, buf.len());
                            match check(rest) {
                                Ok(n) => {
                                    proof {
                                        match frame_dec(buf@.skip(cur as int)) {
                                            Decoded::Found(fk, nk) => {
                                                assert(nk == n as int);
                                                assert(buf@.skip(cur as int).skip(n as int)
                                                    =~= buf@.skip(cur + n));
                                                assert(elems_dec(
                                                    buf@.skip(cur as int),
                                                    remaining as int,
                                                ) == elems_cons(
                                                    seq![fk],
                                                    n as int,
                                                    elems_dec(buf@.skip(cur + n), remaining - 1),
                                                ));
                                                lemma_elems_cons_snoc(
                                                    fs,
                                                    cur - start,
                                                    fk,
                                                    n as int,
                                                    elems_dec(buf@.skip(cur + n), remaining - 1),
                                                );
                                                fs = fs.push(fk);
                                            },
                                            _ => {
                                                assert(false);
                                            },
                                        }
                                    }
                                    cur = cur + n;
                                    remaining = remaining - 1;
                                },
                                Err(FrameError::Incomplete) => {
                                    proof {
                                        assert(elems_dec(buf@.skip(cur as int), remaining as int)
                                            == ElemsDec::ElemsMore);
                                        assert(elems_dec(t0, count) == ElemsDec::ElemsMore);
                                        assert(frame_dec(buf@) == Decoded::More);
                                    }
                                    return Err(FrameError::Incomplete);
                                },
                                Err(FrameError::Protocol) => {
                                    proof {
                                        assert(elems_dec(buf@.skip(cur as int), remaining as int)
                                            == ElemsDec::ElemsBad);
                                        assert(elems_dec(t0, count) == ElemsDec::ElemsBad);
                                        assert(frame_dec(buf@) == Decoded::Bad);
                                    }
                                    return Err(FrameError::Protocol);
                                },
                            }
                        }
                        proof {
                            assert(elems_dec(buf@.skip(cur as int), 0) == ElemsDec::ElemsFound(
                                Seq::<SpecFrame>::empty(),
                                0,
                            ));
                            assert(fs + Seq::<SpecFrame>::empty() =~= fs);
                            assert(elems_dec(t0, count) == ElemsDec::ElemsFound(fs, cur - start));
                            assert(frame_dec(buf@) == Decoded::Found(
                                SpecFrame::Array(fs),
                                cur as int,
                            ));
                        }
                        Ok(cur)
                    },
                    None => Err(FrameError::Protocol),
                }
            },
            FindLine::NeedMore => Err(FrameError::Incomplete),
            FindLine::Bad => Err(FrameError::Protocol),
        }
    } else {
        Err(FrameError::Protocol)
    }
}

/// Produces the frame that `check` validated. Must not be called on
/// unvalidated input: the buffer is required to start with a complete
/// frame.
pub fn parse(buf: &[u8]) -> (f: Frame)
    requires
        frame_dec(buf@) is Found,
    ensures
        frame_dec(buf@) matches Decoded::Found(sf, _n) && f@ == sf && crate::frame::frame_wf(sf),
{
    match decode(buf) {
        DecodeOutcome::Found(f, _) => f,
        DecodeOutcome::More => {
            proof {
                assert(false);
            }
            vstd::pervasive::unreached()
        },
        DecodeOutcome::Bad => {
            proof {
                assert(false);
            }
            vstd::pervasive::unreached()
        },
    }
}

} // verus!
