//! RESP frames: the values that travel between client and server, their
//! encoding as bytes, and the decoder that reads them back.
use bytes::BytesMut;
use vstd::prelude::*;
use vstd::utf8::*;

use crate::buffer::{buffer_contents, put_bytes};
use crate::decimal::{
    decimal, decimal_i64_of, format_decimal, is_digit, lemma_decimal_i64_roundtrip,
    lemma_decimal_shape, lemma_nat_digits, nat_digits, parse_decimal_i64,
};

verus! {

pub enum Frame {
    Simple(String),
    Error(String),
    Integer(i64),
    Bulk(String),
    Array(Vec<Frame>),
    Null,
}

/// Why a byte sequence does not hold a frame: more bytes are needed, or it can
/// never become one.
#[derive(Debug, PartialEq, Eq, Structural)]
pub enum FrameError {
    Incomplete,
    Invalid,
}

/// A frame as a mathematical value: strings as sequences of characters.
pub enum FrameModel {
    Simple(Seq<char>),
    Error(Seq<char>),
    Integer(i64),
    Bulk(Seq<char>),
    Array(Seq<FrameModel>),
    Null,
}

/// The model of a frame.
pub open spec fn frame_model(f: Frame) -> FrameModel
    decreases f,
{
    match f {
        Frame::Simple(s) => FrameModel::Simple(s@),
        Frame::Error(s) => FrameModel::Error(s@),
        Frame::Integer(n) => FrameModel::Integer(n),
        Frame::Bulk(s) => FrameModel::Bulk(s@),
        Frame::Array(v) => FrameModel::Array(
            Seq::new(v@.len(), |i: int| if 0 <= i < v@.len() { frame_model(v@[i]) } else { FrameModel::Null }),
        ),
        Frame::Null => FrameModel::Null,
    }
}

impl View for Frame {
    type V = FrameModel;

    open spec fn view(&self) -> FrameModel {
        frame_model(*self)
    }
}

/// The line end of the protocol, `\r\n`.
pub open spec fn crlf() -> Seq<u8> {
    seq![13u8, 10u8]
}

/// The wire encoding of a frame.
pub open spec fn encode(f: FrameModel) -> Seq<u8>
    decreases f,
{
    match f {
        FrameModel::Simple(s) => seq![43u8] + encode_utf8(s) + crlf(),
        FrameModel::Error(s) => seq![45u8] + encode_utf8(s) + crlf(),
        FrameModel::Integer(n) => seq![58u8] + decimal(n as int) + crlf(),
        FrameModel::Bulk(s) => seq![36u8] + decimal(encode_utf8(s).len() as int) + crlf()
            + encode_utf8(s) + crlf(),
        FrameModel::Array(fs) => seq![42u8] + decimal(fs.len() as int) + crlf() + encode_all(fs),
        FrameModel::Null => seq![36u8, 45u8, 49u8, 13u8, 10u8],
    }
}

/// The encodings of a sequence of frames, one after the other.
pub open spec fn encode_all(fs: Seq<FrameModel>) -> Seq<u8>
    decreases fs,
{
    if fs.len() == 0 {
        Seq::empty()
    } else {
        encode(fs[0]) + encode_all(fs.skip(1))
    }
}

/// Encoding a sequence that grew by one frame appends that frame's encoding.
pub proof fn lemma_encode_all_push(fs: Seq<FrameModel>, f: FrameModel)
    ensures
        encode_all(fs.push(f)) == encode_all(fs) + encode(f),
    decreases fs.len(),
{
    if fs.len() == 0 {
        assert(fs.push(f).skip(1) =~= Seq::<FrameModel>::empty());
        assert(fs.push(f)[0] == f);
        assert(encode_all(Seq::<FrameModel>::empty()) == Seq::<u8>::empty());
        assert(encode_all(fs.push(f)) =~= encode(f));
        assert(encode_all(fs) + encode(f) =~= encode(f));
    } else {
        lemma_encode_all_push(fs.skip(1), f);
        assert(fs.push(f).skip(1) =~= fs.skip(1).push(f));
        assert(encode_all(fs.push(f)) =~= encode(fs[0]) + (encode_all(fs.skip(1)) + encode(f)));
    }
}

/// The encoding of a sequence of frames is their encodings, one after the other.
pub proof fn lemma_encode_all_flatten(fs: Seq<FrameModel>)
    ensures
        encode_all(fs) == fs.map_values(|f: FrameModel| encode(f)).flatten(),
    decreases fs.len(),
{
    let es = fs.map_values(|f: FrameModel| encode(f));
    if fs.len() > 0 {
        lemma_encode_all_flatten(fs.skip(1));
        assert(es.drop_first() =~= fs.skip(1).map_values(|f: FrameModel| encode(f)));
        assert(es.first() == encode(fs[0]));
    } else {
        assert(es =~= Seq::<Seq<u8>>::empty());
    }
}

/// An array is written as `*`, its length in decimal and a line end, then the
/// encoding of each of its items in turn, nested arrays the same way.
pub proof fn law_encode_array(fs: Seq<FrameModel>)
    ensures
        encode(FrameModel::Array(fs)) == seq![42u8] + decimal(fs.len() as int) + crlf()
            + fs.map_values(|f: FrameModel| encode(f)).flatten(),
{
    lemma_encode_all_flatten(fs);
}

/// The encoding of a sequence splits at any index.
pub proof fn lemma_encode_all_split(fs: Seq<FrameModel>, i: int)
    requires
        0 <= i <= fs.len(),
    ensures
        encode_all(fs) == encode_all(fs.take(i)) + encode_all(fs.skip(i)),
    decreases i,
{
    if i == 0 {
        assert(fs.take(0) =~= Seq::<FrameModel>::empty());
        assert(fs.skip(0) =~= fs);
        assert(encode_all(fs) =~= encode_all(fs.take(i)) + encode_all(fs.skip(i)));
    } else {
        lemma_encode_all_split(fs.skip(1), i - 1);
        assert(fs.skip(1).skip(i - 1) =~= fs.skip(i));
        assert(fs.take(i).skip(1) =~= fs.skip(1).take(i - 1));
        assert(fs.take(i)[0] == fs[0]);
        assert(encode_all(fs) =~= encode_all(fs.take(i)) + encode_all(fs.skip(i)));
    }
}

/// The first line end (`\r\n`) that starts at or after `from`.
pub open spec fn find_crlf(b: Seq<u8>, from: int) -> Option<int>
    decreases b.len() - from,
{
    if from < 0 || from + 1 >= b.len() {
        None
    } else if b[from] == 13 && b[from + 1] == 10 {
        Some(from)
    } else {
        find_crlf(b, from + 1)
    }
}

/// The bytes that may start a frame: `+ - : $ *`.
pub open spec fn is_type_byte(t: u8) -> bool {
    t == 43 || t == 45 || t == 58 || t == 36 || t == 42
}

/// Where a line end found by `find_crlf` can lie.
pub proof fn lemma_find_crlf_bounds(b: Seq<u8>, from: int)
    ensures
        find_crlf(b, from) matches Some(e) ==> {
            &&& 0 <= from <= e
            &&& e + 2 <= b.len()
            &&& b[e] == 13
            &&& b[e + 1] == 10
            &&& forall|j: int| from <= j < e ==> !(b[j] == 13 && #[trigger] b[j + 1] == 10)
        },
        find_crlf(b, from) is None && from >= 0 ==> forall|j: int|
            from <= j && j + 1 < b.len() ==> !(b[j] == 13 && #[trigger] b[j + 1] == 10),
    decreases b.len() - from,
{
    if from < 0 || from + 1 >= b.len() {
    } else if b[from] == 13 && b[from + 1] == 10 {
    } else {
        lemma_find_crlf_bounds(b, from + 1);
    }
}

/// A bulk string body that starts at `start` and is `n` bytes long; a length of
/// `-1` stands for the null frame.
pub open spec fn parse_bulk(b: Seq<u8>, start: int, n: i64) -> Result<(FrameModel, int), FrameError> {
    if n == -1 {
        Ok((FrameModel::Null, start))
    } else if n < 0 {
        Err(FrameError::Invalid)
    } else if b.len() - start < n + 2 {
        Err(FrameError::Incomplete)
    } else if b[start + n] != 13 || b[start + n + 1] != 10 {
        Err(FrameError::Invalid)
    } else if valid_utf8(b.subrange(start, start + n)) {
        Ok((FrameModel::Bulk(decode_utf8(b.subrange(start, start + n))), start + n + 2))
    } else {
        Err(FrameError::Invalid)
    }
}

/// Decodes the frame that starts at `pos` in `b`: the frame and the position just
/// after it, or why there is none there.
pub open spec fn parse_at(b: Seq<u8>, pos: int) -> Result<(FrameModel, int), FrameError>
    decreases b.len() - pos, 1int,
{
    if pos < 0 || pos >= b.len() {
        Err(FrameError::Incomplete)
    } else if !is_type_byte(b[pos]) {
        Err(FrameError::Invalid)
    } else {
        match find_crlf(b, pos + 1) {
            None => Err(FrameError::Incomplete),
            Some(e) => {
                proof {
                    lemma_find_crlf_bounds(b, pos + 1);
                }
                let t = b[pos];
                let line = b.subrange(pos + 1, e);
                if t == 43 || t == 45 {
                    if valid_utf8(line) {
                        let s = decode_utf8(line);
                        Ok((if t == 43 { FrameModel::Simple(s) } else { FrameModel::Error(s) }, e + 2))
                    } else {
                        Err(FrameError::Invalid)
                    }
                } else {
                    match decimal_i64_of(line) {
                        None => Err(FrameError::Invalid),
                        Some(n) => {
                            if t == 58 {
                                Ok((FrameModel::Integer(n), e + 2))
                            } else if t == 36 {
                                parse_bulk(b, e + 2, n)
                            } else if n < 0 {
                                Err(FrameError::Invalid)
                            } else {
                                match parse_elems(b, e + 2, n as nat) {
                                    Ok((fs, q)) => Ok((FrameModel::Array(fs), q)),
                                    Err(err) => Err(err),
                                }
                            }
                        },
                    }
                }
            },
        }
    }
}

/// Decodes `n` frames one after the other, starting at `pos`.
pub open spec fn parse_elems(b: Seq<u8>, pos: int, n: nat) -> Result<(Seq<FrameModel>, int), FrameError>
    decreases b.len() - pos, 2int, n,
{
    if n == 0 {
        if 0 <= pos <= b.len() {
            Ok((Seq::empty(), pos))
        } else {
            Err(FrameError::Invalid)
        }
    } else {
        match parse_at(b, pos) {
            Err(err) => Err(err),
            Ok((f, q)) => {
                if q <= pos || q > b.len() {
                    Err(FrameError::Invalid)
                } else {
                    match parse_elems(b, q, (n - 1) as nat) {
                        Ok((fs, r)) => Ok((seq![f] + fs, r)),
                        Err(err) => Err(err),
                    }
                }
            },
        }
    }
}

/// Decoded elements put after `acc`.
pub open spec fn after(acc: Seq<FrameModel>, r: Result<(Seq<FrameModel>, int), FrameError>) -> Result<(Seq<FrameModel>, int), FrameError> {
    match r {
        Ok((fs, q)) => Ok((acc + fs, q)),
        Err(err) => Err(err),
    }
}

/// Decoded elements end within the bytes and after where they start.
pub proof fn lemma_parse_elems_bounds(b: Seq<u8>, pos: int, n: nat)
    ensures
        parse_elems(b, pos, n) matches Ok((fs, q)) ==> pos <= q <= b.len() && fs.len() == n,
    decreases b.len() - pos, n,
{
    if n > 0 {
        if let Ok((f, q)) = parse_at(b, pos) {
            if q > pos && q <= b.len() {
                lemma_parse_elems_bounds(b, q, (n - 1) as nat);
            }
        }
    }
}

/// A decoded frame ends within the bytes and after where it starts.
pub proof fn lemma_parse_at_bounds(b: Seq<u8>, pos: int)
    ensures
        parse_at(b, pos) matches Ok((f, q)) ==> pos < q <= b.len(),
{
    lemma_find_crlf_bounds(b, pos + 1);
    if 0 <= pos < b.len() && is_type_byte(b[pos]) {
        if let Some(e) = find_crlf(b, pos + 1) {
            if let Some(n) = decimal_i64_of(b.subrange(pos + 1, e)) {
                if n >= 0 {
                    lemma_parse_elems_bounds(b, e + 2, n as nat);
                }
            }
        }
    }
}

/// Decodes text through `std::str::from_utf8`, which accepts exactly the valid
/// UTF-8 byte sequences and reads them as their characters.
#[verifier::external_body]
fn str_from_utf8(bytes: &[u8]) -> (r: Option<&str>)
    ensures
        match r {
            Some(s) => valid_utf8(bytes@) && s@ == decode_utf8(bytes@),
            None => !valid_utf8(bytes@),
        },
{
    std::str::from_utf8(bytes).ok()
}

fn find_line_end(buf: &[u8], from: usize) -> (r: Option<usize>)
    requires
        from <= buf@.len(),
    ensures
        match r {
            Some(e) => find_crlf(buf@, from as int) == Some(e as int),
            None => find_crlf(buf@, from as int) is None,
        },
{
    let mut i = from;
    while buf.len() - i >= 2
        invariant
            from <= i <= buf@.len(),
            find_crlf(buf@, from as int) == find_crlf(buf@, i as int),
        decreases buf@.len() - i,
    {
        if buf[i] == 13 && buf[i + 1] == 10 {
            return Some(i);
        }
        i = i + 1;
    }
    None
}

fn parse_bulk_at(buf: &[u8], start: usize, n: i64) -> (r: Result<(Frame, usize), FrameError>)
    requires
        start <= buf@.len(),
    ensures
        match (r, parse_bulk(buf@, start as int, n)) {
            (Ok((f, q)), Ok((m, q2))) => f@ == m && q == q2,
            (Err(e), Err(e2)) => e == e2,
            _ => false,
        },
{
    if n == -1 {
        return Ok((Frame::Null, start));
    }
    if n < 0 {
        return Err(FrameError::Invalid);
    }
    let avail = buf.len() - start;
    if avail < 2 || (n as u64) > ((avail - 2) as u64) {
        return Err(FrameError::Incomplete);
    }
    let end = start + (n as usize);
    if buf[end] != 13 || buf[end + 1] != 10 {
        return Err(FrameError::Invalid);
    }
    match str_from_utf8(&buf[start..end]) {
        Some(s) => Ok((Frame::Bulk(s.to_owned()), end + 2)),
        None => Err(FrameError::Invalid),
    }
}

/// Finds where the frame that starts at `pos` ends, as `parse_at` says, without
/// building it.
fn check_frame_at(buf: &[u8], pos: usize) -> (r: Result<usize, FrameError>)
    requires
        pos <= buf@.len(),
    ensures
        match (r, parse_at(buf@, pos as int)) {
            (Ok(q), Ok((_, q2))) => q == q2,
            (Err(e), Err(e2)) => e == e2,
            _ => false,
        },
    decreases buf@.len() - pos,
{
    let ghost b = buf@;
    if pos >= buf.len() {
        return Err(FrameError::Incomplete);
    }
    let t = buf[pos];
    if !(t == 43 || t == 45 || t == 58 || t == 36 || t == 42) {
        return Err(FrameError::Invalid);
    }
    let e = match find_line_end(buf, pos + 1) {
        None => {
            return Err(FrameError::Incomplete);
        },
        Some(e) => e,
    };
    proof {
        lemma_find_crlf_bounds(b, pos + 1);
    }
    let line = &buf[pos + 1..e];
    let next = e + 2;
    if t == 43 || t == 45 {
        match str_from_utf8(line) {
            None => Err(FrameError::Invalid),
            Some(_) => Ok(next),
        }
    } else {
        let n = match parse_decimal_i64(line) {
            None => {
                return Err(FrameError::Invalid);
            },
            Some(n) => n,
        };
        if t == 58 {
            Ok(next)
        } else if t == 36 {
            if n == -1 {
                return Ok(next);
            }
            if n < 0 {
                return Err(FrameError::Invalid);
            }
            let avail = buf.len() - next;
            if avail < 2 || (n as u64) > ((avail - 2) as u64) {
                return Err(FrameError::Incomplete);
            }
            let end = next + (n as usize);
            if buf[end] != 13 || buf[end + 1] != 10 {
                return Err(FrameError::Invalid);
            }
            match str_from_utf8(&buf[next..end]) {
                Some(_) => Ok(end + 2),
                None => Err(FrameError::Invalid),
            }
        } else if n < 0 {
            Err(FrameError::Invalid)
        } else {
            let ghost ms: Seq<FrameModel> = Seq::empty();
            let mut p = next;
            let mut i: i64 = 0;
            assert(after(ms, parse_elems(b, p as int, n as nat)) == parse_elems(b, p as int, n as nat)) by {
                if let Ok((fs, q)) = parse_elems(b, p as int, n as nat) {
                    assert(ms + fs =~= fs);
                }
            }
            assert(parse_at(b, pos as int) == match parse_elems(b, next as int, n as nat) {
                Ok((fs, q)) => Ok((FrameModel::Array(fs), q)),
                Err(err) => Err(err),
            });
            while i < n
                invariant
                    b == buf@,
                    parse_at(b, pos as int) == match parse_elems(b, next as int, n as nat) {
                        Ok((fs, q)) => Ok((FrameModel::Array(fs), q)),
                        Err(err) => Err(err),
                    },
                    0 <= i <= n,
                    pos < next <= p <= b.len(),
                    parse_elems(b, next as int, n as nat) == after(ms, parse_elems(b, p as int, (n - i) as nat)),
                decreases n - i,
            {
                proof {
                    lemma_parse_at_bounds(b, p as int);
                }
                match check_frame_at(buf, p) {
                    Err(err) => {
                        assert(parse_elems(b, p as int, (n - i) as nat) == Err::<(Seq<FrameModel>, int), FrameError>(err));
                        assert(parse_elems(b, next as int, n as nat) == Err::<(Seq<FrameModel>, int), FrameError>(err));
                        return Err(err);
                    },
                    Ok(q) => {
                        proof {
                            let f = parse_at(b, p as int)->Ok_0.0;
                            let rest = parse_elems(b, q as int, (n - i - 1) as nat);
                            assert(parse_elems(b, p as int, (n - i) as nat) == after(seq![f], rest));
                            match rest {
                                Ok((fs, r)) => {
                                    assert(ms + (seq![f] + fs) =~= ms.push(f) + fs);
                                },
                                Err(_) => {},
                            }
                            ms = ms.push(f);
                        }
                        p = q;
                        i = i + 1;
                    },
                }
            }
            proof {
                assert(parse_elems(b, p as int, 0) == Ok::<(Seq<FrameModel>, int), FrameError>((Seq::<FrameModel>::empty(), p as int)));
                assert(ms + Seq::<FrameModel>::empty() =~= ms);
            }
            Ok(p)
        }
    }
}

/// Decodes the frame that starts at `pos`, as `parse_at` says.
fn parse_frame_at(buf: &[u8], pos: usize) -> (r: Result<(Frame, usize), FrameError>)
    requires
        pos <= buf@.len(),
    ensures
        match (r, parse_at(buf@, pos as int)) {
            (Ok((f, q)), Ok((m, q2))) => f@ == m && q == q2,
            (Err(e), Err(e2)) => e == e2,
            _ => false,
        },
    decreases buf@.len() - pos,
{
    let ghost b = buf@;
    if pos >= buf.len() {
        return Err(FrameError::Incomplete);
    }
    let t = buf[pos];
    if !(t == 43 || t == 45 || t == 58 || t == 36 || t == 42) {
        return Err(FrameError::Invalid);
    }
    let e = match find_line_end(buf, pos + 1) {
        None => {
            return Err(FrameError::Incomplete);
        },
        Some(e) => e,
    };
    proof {
        lemma_find_crlf_bounds(b, pos + 1);
    }
    let line = &buf[pos + 1..e];
    let next = e + 2;
    if t == 43 || t == 45 {
        match str_from_utf8(line) {
            None => Err(FrameError::Invalid),
            Some(s) => {
                let s = s.to_owned();
                if t == 43 {
                    Ok((Frame::Simple(s), next))
                } else {
                    Ok((Frame::Error(s), next))
                }
            },
        }
    } else {
        let n = match parse_decimal_i64(line) {
            None => {
                return Err(FrameError::Invalid);
            },
            Some(n) => n,
        };
        if t == 58 {
            Ok((Frame::Integer(n), next))
        } else if t == 36 {
            parse_bulk_at(buf, next, n)
        } else if n < 0 {
            Err(FrameError::Invalid)
        } else {
            let mut items: Vec<Frame> = Vec::new();
            let ghost ms: Seq<FrameModel> = Seq::empty();
            let mut p = next;
            let mut i: i64 = 0;
            assert(after(ms, parse_elems(b, p as int, n as nat)) == parse_elems(b, p as int, n as nat)) by {
                assert(ms + Seq::<FrameModel>::empty() =~= Seq::<FrameModel>::empty());
                if let Ok((fs, q)) = parse_elems(b, p as int, n as nat) {
                    assert(ms + fs =~= fs);
                }
            }
            assert(parse_at(b, pos as int) == match parse_elems(b, next as int, n as nat) {
                Ok((fs, q)) => Ok((FrameModel::Array(fs), q)),
                Err(err) => Err(err),
            });
            while i < n
                invariant
                    b == buf@,
                    parse_at(b, pos as int) == match parse_elems(b, next as int, n as nat) {
                        Ok((fs, q)) => Ok((FrameModel::Array(fs), q)),
                        Err(err) => Err(err),
                    },
                    0 <= i <= n,
                    pos < next <= p <= b.len(),
                    ms.len() == items@.len(),
                    forall|j: int| 0 <= j < ms.len() ==> #[trigger] ms[j] == items@[j]@,
                    parse_elems(b, next as int, n as nat) == after(ms, parse_elems(b, p as int, (n - i) as nat)),
                decreases n - i,
            {
                proof {
                    lemma_parse_at_bounds(b, p as int);
                }
                match parse_frame_at(buf, p) {
                    Err(err) => {
                        assert(parse_elems(b, p as int, (n - i) as nat) == Err::<(Seq<FrameModel>, int), FrameError>(err));
                        assert(parse_elems(b, next as int, n as nat) == Err::<(Seq<FrameModel>, int), FrameError>(err));
                        return Err(err);
                    },
                    Ok((f, q)) => {
                        proof {
                            let rest = parse_elems(b, q as int, (n - i - 1) as nat);
                            assert(parse_elems(b, p as int, (n - i) as nat) == after(seq![f@], rest));
                            match rest {
                                Ok((fs, r)) => {
                                    assert(ms + (seq![f@] + fs) =~= ms.push(f@) + fs);
                                },
                                Err(_) => {},
                            }
                            ms = ms.push(f@);
                        }
                        items.push(f);
                        p = q;
                        i = i + 1;
                    },
                }
            }
            let arr = Frame::Array(items);
            proof {
                assert(parse_elems(b, p as int, 0) == Ok::<(Seq<FrameModel>, int), FrameError>((Seq::<FrameModel>::empty(), p as int)));
                assert(ms + Seq::<FrameModel>::empty() =~= ms);
                let x = match arr@ {
                    FrameModel::Array(x) => x,
                    _ => Seq::empty(),
                };
                assert(x =~= ms);
            }
            Ok((arr, p))
        }
    }
}

/// Whether `u` holds no line end (`\r\n`).
pub open spec fn no_crlf(u: Seq<u8>) -> bool {
    forall|j: int| 0 <= j && j + 1 < u.len() ==> !(u[j] == 13 && #[trigger] u[j + 1] == 10)
}

/// The frames that the encoding carries unambiguously: simple strings and errors
/// without a line end, and lengths and counts that fit in an `i64`.
pub open spec fn well_formed(f: FrameModel) -> bool
    decreases f,
{
    match f {
        FrameModel::Simple(s) => no_crlf(encode_utf8(s)),
        FrameModel::Error(s) => no_crlf(encode_utf8(s)),
        FrameModel::Bulk(s) => encode_utf8(s).len() <= i64::MAX,
        FrameModel::Array(fs) => fs.len() <= i64::MAX && well_formed_all(fs),
        _ => true,
    }
}

/// Whether every frame of `fs` is well formed.
pub open spec fn well_formed_all(fs: Seq<FrameModel>) -> bool
    decreases fs,
{
    if fs.len() == 0 {
        true
    } else {
        well_formed(fs[0]) && well_formed_all(fs.skip(1))
    }
}

/// The first line end after a type byte is the one that ends its line, when
/// the line holds none itself.
proof fn lemma_line_found(b: Seq<u8>, pos: int, line: Seq<u8>)
    requires
        0 <= pos,
        pos + line.len() + 3 <= b.len(),
        b.subrange(pos + 1, pos + 1 + line.len()) == line,
        b[pos + 1 + line.len()] == 13,
        b[pos + 2 + line.len()] == 10,
        no_crlf(line),
    ensures
        find_crlf(b, pos + 1) == Some(pos + 1 + line.len()),
{
    let e = pos + 1 + line.len();
    let sub = b.subrange(pos + 1, e);
    assert forall|j: int| pos + 1 <= j < e implies !(b[j] == 13 && #[trigger] b[j + 1] == 10) by {
        assert(sub[j - pos - 1] == b[j]);
        if j + 1 < e {
            assert(sub[(j - pos - 1) + 1] == b[j + 1]);
            assert(!(line[j - pos - 1] == 13 && line[(j - pos - 1) + 1] == 10));
        } else {
            assert(b[j + 1] == 13);
        }
    }
    lemma_find_crlf_at(b, pos + 1, e);
}

proof fn lemma_find_crlf_at(b: Seq<u8>, from: int, e: int)
    requires
        0 <= from <= e,
        e + 1 < b.len(),
        b[e] == 13,
        b[e + 1] == 10,
        forall|j: int| from <= j < e ==> !(b[j] == 13 && #[trigger] b[j + 1] == 10),
    ensures
        find_crlf(b, from) == Some(e),
    decreases e - from,
{
    if from < e {
        lemma_find_crlf_at(b, from + 1, e);
    }
}

/// Decimal text holds no carriage return, so no line end.
proof fn lemma_decimal_no_crlf(n: int)
    ensures
        no_crlf(decimal(n)),
        forall|k: int| 0 <= k < decimal(n).len() ==> #[trigger] decimal(n)[k] != 13,
{
    lemma_decimal_shape(n);
    if n < 0 {
        lemma_nat_digits((-n) as nat);
        assert forall|k: int| 0 <= k < decimal(n).len() implies #[trigger] decimal(n)[k] != 13 by {
            if k > 0 {
                assert(decimal(n)[k] == decimal(n).skip(1)[k - 1]);
                assert(is_digit(nat_digits((-n) as nat)[k - 1]));
            }
        }
    } else {
        lemma_nat_digits(n as nat);
        assert forall|k: int| 0 <= k < decimal(n).len() implies #[trigger] decimal(n)[k] != 13 by {
            assert(is_digit(nat_digits(n as nat)[k]));
        }
    }
}

proof fn lemma_decimal_minus_one()
    ensures
        decimal(-1) == seq![45u8, 49u8],
{
    assert(nat_digits(1) =~= seq![49u8]);
    assert(decimal(-1) =~= seq![45u8, 49u8]);
}

/// A decoded number is the one whose decimal text the line is.
proof fn lemma_decimal_i64_of_some(line: Seq<u8>)
    ensures
        decimal_i64_of(line) matches Some(n) ==> decimal(n as int) == line,
{
    if exists|n: i64| decimal(n as int) == line {
        let n = choose|n: i64| decimal(n as int) == line;
        assert(decimal(n as int) == line);
    }
}

/// Decoding at `pos` the encoding of a well-formed frame gives back that frame and
/// ends right after its encoding, whatever follows it.
pub proof fn lemma_parse_encoded(b: Seq<u8>, pos: int, f: FrameModel)
    requires
        0 <= pos,
        pos + encode(f).len() <= b.len(),
        b.subrange(pos, pos + encode(f).len()) == encode(f),
        well_formed(f),
    ensures
        parse_at(b, pos) == Ok::<(FrameModel, int), FrameError>((f, pos + encode(f).len())),
    decreases f,
{
    broadcast use encode_utf8_valid_utf8, encode_utf8_decode_utf8;

    let enc = encode(f);
    assert forall|k: int| 0 <= k < enc.len() implies #[trigger] b[pos + k] == enc[k] by {
        assert(b.subrange(pos, pos + enc.len())[k] == b[pos + k]);
    }
    match f {
        FrameModel::Simple(s) => {
            let u = encode_utf8(s);
            assert(b[pos] == enc[0]);
            assert(b.subrange(pos + 1, pos + 1 + u.len()) =~= u) by {
                assert forall|k: int| 0 <= k < u.len() implies b.subrange(pos + 1, pos + 1 + u.len())[k] == u[k] by {
                    assert(enc[1 + k] == u[k]);
                    assert(b[pos + (1 + k)] == enc[1 + k]);
                }
            }
            assert(b[pos + 1 + u.len()] == enc[1 + (u.len() as int)]);
            assert(b[pos + 2 + u.len()] == enc[2 + (u.len() as int)]);
            lemma_line_found(b, pos, u);
        },
        FrameModel::Error(s) => {
            let u = encode_utf8(s);
            assert(b[pos] == enc[0]);
            assert(b.subrange(pos + 1, pos + 1 + u.len()) =~= u) by {
                assert forall|k: int| 0 <= k < u.len() implies b.subrange(pos + 1, pos + 1 + u.len())[k] == u[k] by {
                    assert(enc[1 + k] == u[k]);
                    assert(b[pos + (1 + k)] == enc[1 + k]);
                }
            }
            assert(b[pos + 1 + u.len()] == enc[1 + (u.len() as int)]);
            assert(b[pos + 2 + u.len()] == enc[2 + (u.len() as int)]);
            lemma_line_found(b, pos, u);
        },
        FrameModel::Integer(n) => {
            let d = decimal(n as int);
            lemma_decimal_no_crlf(n as int);
            lemma_decimal_i64_roundtrip(n);
            assert(b[pos] == enc[0]);
            assert(b.subrange(pos + 1, pos + 1 + d.len()) =~= d) by {
                assert forall|k: int| 0 <= k < d.len() implies b.subrange(pos + 1, pos + 1 + d.len())[k] == d[k] by {
                    assert(enc[1 + k] == d[k]);
                    assert(b[pos + (1 + k)] == enc[1 + k]);
                }
            }
            assert(b[pos + 1 + d.len()] == enc[1 + (d.len() as int)]);
            assert(b[pos + 2 + d.len()] == enc[2 + (d.len() as int)]);
            lemma_line_found(b, pos, d);
        },
        FrameModel::Bulk(s) => {
            let u = encode_utf8(s);
            let d = decimal(u.len() as int);
            lemma_decimal_no_crlf(u.len() as int);
            lemma_decimal_i64_roundtrip(u.len() as i64);
            assert(b[pos] == enc[0]);
            assert(b.subrange(pos + 1, pos + 1 + d.len()) =~= d) by {
                assert forall|k: int| 0 <= k < d.len() implies b.subrange(pos + 1, pos + 1 + d.len())[k] == d[k] by {
                    assert(enc[1 + k] == d[k]);
                    assert(b[pos + (1 + k)] == enc[1 + k]);
                }
            }
            assert(b[pos + 1 + d.len()] == enc[1 + (d.len() as int)]);
            assert(b[pos + 2 + d.len()] == enc[2 + (d.len() as int)]);
            lemma_line_found(b, pos, d);
            let next = pos + 3 + d.len();
            assert(b.subrange(next, next + u.len()) =~= u) by {
                assert forall|k: int| 0 <= k < u.len() implies b.subrange(next, next + u.len())[k] == u[k] by {
                    assert(enc[3 + (d.len() as int) + k] == u[k]);
                    assert(b[pos + (3 + d.len() + k)] == enc[3 + (d.len() as int) + k]);
                }
            }
            assert(b[next + u.len()] == enc[3 + (d.len() as int) + (u.len() as int)]);
            assert(b[next + u.len() + 1] == enc[4 + (d.len() as int) + (u.len() as int)]);
        },
        FrameModel::Array(fs) => {
            let d = decimal(fs.len() as int);
            lemma_decimal_no_crlf(fs.len() as int);
            lemma_decimal_i64_roundtrip(fs.len() as i64);
            assert(b[pos] == enc[0]);
            assert(b.subrange(pos + 1, pos + 1 + d.len()) =~= d) by {
                assert forall|k: int| 0 <= k < d.len() implies b.subrange(pos + 1, pos + 1 + d.len())[k] == d[k] by {
                    assert(enc[1 + k] == d[k]);
                    assert(b[pos + (1 + k)] == enc[1 + k]);
                }
            }
            assert(b[pos + 1 + d.len()] == enc[1 + (d.len() as int)]);
            assert(b[pos + 2 + d.len()] == enc[2 + (d.len() as int)]);
            lemma_line_found(b, pos, d);
            let next = pos + 3 + d.len();
            let tail = encode_all(fs);
            assert(b.subrange(next, next + tail.len()) =~= tail) by {
                assert forall|k: int| 0 <= k < tail.len() implies b.subrange(next, next + tail.len())[k] == tail[k] by {
                    assert(enc[3 + (d.len() as int) + k] == tail[k]);
                    assert(b[pos + (3 + d.len() + k)] == enc[3 + (d.len() as int) + k]);
                }
            }
            lemma_parse_elems_encoded(b, next, fs);
        },
        FrameModel::Null => {
            lemma_decimal_minus_one();
            lemma_decimal_i64_roundtrip(-1i64);
            assert(b[pos] == enc[0]);
            assert(b.subrange(pos + 1, pos + 3) =~= seq![45u8, 49u8]) by {
                assert(b[pos + 1] == enc[1]);
                assert(b[pos + 2] == enc[2]);
            }
            assert(b[pos + 3] == enc[3]);
            assert(b[pos + 4] == enc[4]);
            lemma_line_found(b, pos, seq![45u8, 49u8]);
        },
    }
}

/// Decoding the encodings of well-formed frames, one after the other, gives back
/// those frames.
pub proof fn lemma_parse_elems_encoded(b: Seq<u8>, pos: int, fs: Seq<FrameModel>)
    requires
        0 <= pos,
        pos + encode_all(fs).len() <= b.len(),
        b.subrange(pos, pos + encode_all(fs).len()) == encode_all(fs),
        well_formed_all(fs),
    ensures
        parse_elems(b, pos, fs.len()) == Ok::<(Seq<FrameModel>, int), FrameError>((fs, pos + encode_all(fs).len())),
    decreases fs,
{
    if fs.len() > 0 {
        let e0 = encode(fs[0]);
        let rest = encode_all(fs.skip(1));
        assert(encode_all(fs) == e0 + rest);
        assert(b.subrange(pos, pos + e0.len()) =~= e0) by {
            assert forall|k: int| 0 <= k < e0.len() implies b.subrange(pos, pos + e0.len())[k] == e0[k] by {
                assert(b.subrange(pos, pos + encode_all(fs).len())[k] == encode_all(fs)[k]);
            }
        }
        lemma_parse_encoded(b, pos, fs[0]);
        let q = pos + e0.len();
        assert(e0.len() >= 1) by {
            lemma_encode_nonempty(fs[0]);
        }
        assert(b.subrange(q, q + rest.len()) =~= rest) by {
            assert forall|k: int| 0 <= k < rest.len() implies b.subrange(q, q + rest.len())[k] == rest[k] by {
                assert(b.subrange(pos, pos + encode_all(fs).len())[e0.len() + k] == encode_all(fs)[e0.len() + k]);
            }
        }
        lemma_parse_elems_encoded(b, q, fs.skip(1));
        assert(seq![fs[0]] + fs.skip(1) =~= fs);
        assert(fs.skip(1).len() == (fs.len() - 1) as nat);
        assert(parse_at(b, pos) == Ok::<(FrameModel, int), FrameError>((fs[0], q)));
        assert(q > pos && q <= b.len());
        assert(parse_elems(b, q, (fs.len() - 1) as nat) == Ok::<(Seq<FrameModel>, int), FrameError>((fs.skip(1), q + rest.len())));
        assert(parse_elems(b, pos, fs.len()) == Ok::<(Seq<FrameModel>, int), FrameError>((seq![fs[0]] + fs.skip(1), q + rest.len())));
    } else {
        assert(fs =~= Seq::<FrameModel>::empty());
        assert(encode_all(fs).len() == 0);
    }
}

/// Whatever the decoder accepts at `pos` is a well-formed frame whose encoding is
/// exactly the bytes it consumed.
pub proof fn lemma_parse_sound(b: Seq<u8>, pos: int)
    ensures
        parse_at(b, pos) matches Ok((f, q)) ==> well_formed(f) && b.subrange(pos, q) == encode(f),
    decreases b.len() - pos, 1int,
{
    broadcast use decode_utf8_encode_utf8;

    if 0 <= pos < b.len() && is_type_byte(b[pos]) {
        lemma_find_crlf_bounds(b, pos + 1);
        if let Some(e) = find_crlf(b, pos + 1) {
            let t = b[pos];
            let line = b.subrange(pos + 1, e);
            if t == 43 || t == 45 {
                if valid_utf8(line) {
                    assert forall|j: int| 0 <= j && j + 1 < line.len() implies !(line[j] == 13 && #[trigger] line[j + 1] == 10) by {
                        assert(line[j] == b[pos + 1 + j]);
                        assert(line[j + 1] == b[(pos + 1 + j) + 1]);
                    }
                    assert(encode_utf8(decode_utf8(line)) == line);
                    assert(b.subrange(pos, e + 2) =~= seq![t] + line + crlf());
                }
            } else {
                lemma_decimal_i64_of_some(line);
                if let Some(n) = decimal_i64_of(line) {
                    if t == 58 {
                        assert(b.subrange(pos, e + 2) =~= seq![t] + line + crlf());
                    } else if t == 36 {
                        let start = e + 2;
                        if n == -1 {
                            lemma_decimal_minus_one();
                            assert(b.subrange(pos, e + 2) =~= seq![36u8, 45u8, 49u8, 13u8, 10u8]);
                        } else if n >= 0 && b.len() - start >= n + 2 && b[start + n] == 13
                            && b[start + n + 1] == 10 {
                            let c = b.subrange(start, start + n);
                            if valid_utf8(c) {
                                assert(encode_utf8(decode_utf8(c)) == c);
                                assert(b.subrange(pos, start + n + 2) =~= seq![t] + line + crlf() + c + crlf());
                            }
                        }
                    } else if n >= 0 {
                        lemma_parse_elems_sound(b, e + 2, n as nat);
                        lemma_parse_elems_bounds(b, e + 2, n as nat);
                        if let Ok((fs, q)) = parse_elems(b, e + 2, n as nat) {
                            assert(b.subrange(pos, q) =~= seq![t] + line + crlf() + b.subrange(e + 2, q));
                        }
                    }
                }
            }
        }
    }
}

/// Whatever the decoder accepts as `n` frames in a row is well formed and encodes
/// back to exactly the bytes consumed.
pub proof fn lemma_parse_elems_sound(b: Seq<u8>, pos: int, n: nat)
    ensures
        parse_elems(b, pos, n) matches Ok((fs, q)) ==> well_formed_all(fs) && b.subrange(pos, q) == encode_all(fs),
    decreases b.len() - pos, 2int, n,
{
    if n == 0 {
        if 0 <= pos <= b.len() {
            assert(b.subrange(pos, pos) =~= Seq::<u8>::empty());
        }
    } else {
        lemma_parse_sound(b, pos);
        if let Ok((f, q)) = parse_at(b, pos) {
            if q > pos && q <= b.len() {
                lemma_parse_elems_sound(b, q, (n - 1) as nat);
                lemma_parse_elems_bounds(b, q, (n - 1) as nat);
                if let Ok((fs, r)) = parse_elems(b, q, (n - 1) as nat) {
                    let all = seq![f] + fs;
                    assert(all[0] == f);
                    assert(all.skip(1) =~= fs);
                    assert(b.subrange(pos, r) =~= b.subrange(pos, q) + b.subrange(q, r));
                }
            }
        }
    }
}

proof fn lemma_find_crlf_none(b: Seq<u8>, from: int)
    requires
        0 <= from,
        forall|j: int| from <= j && j + 1 < b.len() ==> !(b[j] == 13 && #[trigger] b[j + 1] == 10),
    ensures
        find_crlf(b, from) is None,
    decreases b.len() - from,
{
    if from + 1 < b.len() {
        lemma_find_crlf_none(b, from + 1);
    }
}

/// A line that is cut before its line end has no line end yet.
proof fn lemma_line_cut(b: Seq<u8>, pos: int, line: Seq<u8>)
    requires
        0 <= pos,
        b.len() < pos + line.len() + 3,
        forall|k: int| pos + 1 <= k < b.len() ==> #[trigger] b[k] == (line + crlf())[k - pos - 1],
        no_crlf(line),
    ensures
        find_crlf(b, pos + 1) is None,
{
    let lc = line + crlf();
    assert forall|j: int| pos + 1 <= j && j + 1 < b.len() implies !(b[j] == 13 && #[trigger] b[j + 1] == 10) by {
        assert(b[j] == lc[j - pos - 1]);
        assert(b[j + 1] == lc[(j - pos - 1) + 1]);
        if j + 1 < pos + 1 + line.len() {
            assert(!(line[j - pos - 1] == 13 && line[(j - pos - 1) + 1] == 10));
        } else {
            assert(j - pos - 1 == line.len() - 1);
            assert(lc[(j - pos - 1) + 1] == 13);
        }
    }
    lemma_find_crlf_none(b, pos + 1);
}

/// Bytes that hold only the start of the encoding of a well-formed frame decode
/// to `Incomplete`: the decoder waits for the rest.
pub proof fn lemma_parse_cut(b: Seq<u8>, pos: int, f: FrameModel)
    requires
        0 <= pos <= b.len(),
        b.len() < pos + encode(f).len(),
        forall|k: int| pos <= k < b.len() ==> #[trigger] b[k] == encode(f)[k - pos],
        well_formed(f),
    ensures
        parse_at(b, pos) == Err::<(FrameModel, int), FrameError>(FrameError::Incomplete),
    decreases f,
{
    let enc = encode(f);
    if b.len() > pos {
        assert(b[pos] == enc[0]);
        match f {
            FrameModel::Simple(s) => {
                let u = encode_utf8(s);
                assert forall|k: int| pos + 1 <= k < b.len() implies #[trigger] b[k] == (u + crlf())[k - pos - 1] by {
                    assert(b[k] == enc[k - pos]);
                }
                lemma_line_cut(b, pos, u);
            },
            FrameModel::Error(s) => {
                let u = encode_utf8(s);
                assert forall|k: int| pos + 1 <= k < b.len() implies #[trigger] b[k] == (u + crlf())[k - pos - 1] by {
                    assert(b[k] == enc[k - pos]);
                }
                lemma_line_cut(b, pos, u);
            },
            FrameModel::Integer(n) => {
                let d = decimal(n as int);
                lemma_decimal_no_crlf(n as int);
                assert forall|k: int| pos + 1 <= k < b.len() implies #[trigger] b[k] == (d + crlf())[k - pos - 1] by {
                    assert(b[k] == enc[k - pos]);
                }
                lemma_line_cut(b, pos, d);
            },
            FrameModel::Null => {
                let d = seq![45u8, 49u8];
                assert forall|j: int| 0 <= j && j + 1 < d.len() implies !(d[j] == 13 && #[trigger] d[j + 1] == 10) by {}
                assert forall|k: int| pos + 1 <= k < b.len() implies #[trigger] b[k] == (d + crlf())[k - pos - 1] by {
                    assert(b[k] == enc[k - pos]);
                }
                lemma_line_cut(b, pos, d);
            },
            FrameModel::Bulk(s) => {
                let u = encode_utf8(s);
                let d = decimal(u.len() as int);
                lemma_decimal_no_crlf(u.len() as int);
                if b.len() < pos + d.len() + 3 {
                    assert forall|k: int| pos + 1 <= k < b.len() implies #[trigger] b[k] == (d + crlf())[k - pos - 1] by {
                        assert(b[k] == enc[k - pos]);
                    }
                    lemma_line_cut(b, pos, d);
                } else {
                    lemma_decimal_i64_roundtrip(u.len() as i64);
                    assert(b.subrange(pos + 1, pos + 1 + d.len()) =~= d) by {
                        assert forall|k: int| 0 <= k < d.len() implies b.subrange(pos + 1, pos + 1 + d.len())[k] == d[k] by {
                            assert(b[pos + 1 + k] == enc[1 + k]);
                        }
                    }
                    assert(b[pos + 1 + d.len()] == enc[1 + d.len() as int]);
                    assert(b[pos + 2 + d.len()] == enc[2 + d.len() as int]);
                    lemma_line_found(b, pos, d);
                }
            },
            FrameModel::Array(fs) => {
                let d = decimal(fs.len() as int);
                lemma_decimal_no_crlf(fs.len() as int);
                if b.len() < pos + d.len() + 3 {
                    assert forall|k: int| pos + 1 <= k < b.len() implies #[trigger] b[k] == (d + crlf())[k - pos - 1] by {
                        assert(b[k] == enc[k - pos]);
                    }
                    lemma_line_cut(b, pos, d);
                } else {
                    lemma_decimal_i64_roundtrip(fs.len() as i64);
                    assert(b.subrange(pos + 1, pos + 1 + d.len()) =~= d) by {
                        assert forall|k: int| 0 <= k < d.len() implies b.subrange(pos + 1, pos + 1 + d.len())[k] == d[k] by {
                            assert(b[pos + 1 + k] == enc[1 + k]);
                        }
                    }
                    assert(b[pos + 1 + d.len()] == enc[1 + d.len() as int]);
                    assert(b[pos + 2 + d.len()] == enc[2 + d.len() as int]);
                    lemma_line_found(b, pos, d);
                    let next = pos + 3 + d.len();
                    let tail = encode_all(fs);
                    assert forall|k: int| next <= k < b.len() implies #[trigger] b[k] == tail[k - next] by {
                        assert(b[k] == enc[k - pos]);
                    }
                    lemma_parse_elems_cut(b, next, fs);
                }
            },
        }
    }
}

/// Bytes that hold only the start of the encodings of well-formed frames decode
/// to `Incomplete`.
pub proof fn lemma_parse_elems_cut(b: Seq<u8>, pos: int, fs: Seq<FrameModel>)
    requires
        0 <= pos <= b.len(),
        b.len() < pos + encode_all(fs).len(),
        forall|k: int| pos <= k < b.len() ==> #[trigger] b[k] == encode_all(fs)[k - pos],
        well_formed_all(fs),
    ensures
        parse_elems(b, pos, fs.len()) == Err::<(Seq<FrameModel>, int), FrameError>(FrameError::Incomplete),
    decreases fs,
{
    assert(fs.len() > 0);
    let e0 = encode(fs[0]);
    let rest = encode_all(fs.skip(1));
    assert(encode_all(fs) == e0 + rest);
    if b.len() < pos + e0.len() {
        assert forall|k: int| pos <= k < b.len() implies #[trigger] b[k] == e0[k - pos] by {
            assert(b[k] == encode_all(fs)[k - pos]);
        }
        lemma_parse_cut(b, pos, fs[0]);
    } else {
        assert(b.subrange(pos, pos + e0.len()) =~= e0) by {
            assert forall|k: int| 0 <= k < e0.len() implies b.subrange(pos, pos + e0.len())[k] == e0[k] by {
                assert(b[pos + k] == encode_all(fs)[k]);
            }
        }
        lemma_parse_encoded(b, pos, fs[0]);
        lemma_encode_nonempty(fs[0]);
        let q = pos + e0.len();
        assert forall|k: int| q <= k < b.len() implies #[trigger] b[k] == rest[k - q] by {
            assert(b[k] == encode_all(fs)[k - pos]);
        }
        lemma_parse_elems_cut(b, q, fs.skip(1));
    }
}

proof fn lemma_encode_nonempty(f: FrameModel)
    ensures
        encode(f).len() >= 1,
{
    assert(encode(f)[0] == encode(f)[0]);
}

/// Decodes the frame at the start of `b`: the frame and how many bytes it takes.
pub open spec fn decode(b: Seq<u8>) -> Result<(FrameModel, int), FrameError> {
    parse_at(b, 0)
}

/// Reading back what was written: the encoding of a well-formed frame, whatever
/// bytes follow it, decodes to that frame and takes exactly its encoding.
pub proof fn law_decode_encode(f: FrameModel, rest: Seq<u8>)
    requires
        well_formed(f),
    ensures
        decode(encode(f) + rest) == Ok::<(FrameModel, int), FrameError>((f, encode(f).len() as int)),
{
    let b = encode(f) + rest;
    assert(b.subrange(0, encode(f).len() as int) =~= encode(f));
    lemma_parse_encoded(b, 0, f);
}

/// The decoder accepts nothing but encodings: whatever it decodes is a
/// well-formed frame whose encoding is exactly the bytes taken.
pub proof fn law_decoded_is_encoding(b: Seq<u8>)
    ensures
        decode(b) matches Ok((f, n)) ==> well_formed(f) && 0 < n <= b.len() && b.take(n) == encode(f),
{
    lemma_parse_sound(b, 0);
    lemma_parse_at_bounds(b, 0);
    if let Ok((f, n)) = decode(b) {
        assert(b.take(n) =~= b.subrange(0, n));
    }
}

/// A frame that has only partly arrived is reported incomplete, never invalid:
/// every proper prefix of an encoding decodes to `Incomplete`.
pub proof fn law_prefix_is_incomplete(f: FrameModel, k: int)
    requires
        well_formed(f),
        0 <= k < encode(f).len(),
    ensures
        decode(encode(f).take(k)) == Err::<(FrameModel, int), FrameError>(FrameError::Incomplete),
{
    lemma_parse_cut(encode(f).take(k), 0, f);
}

impl Frame {
    /// How many bytes the frame at the start of `src` takes, or why there is no
    /// complete frame there; it checks the bytes without building the frame.
    pub fn check(src: &[u8]) -> (r: Result<usize, FrameError>)
        ensures
            match (r, decode(src@)) {
                (Ok(n), Ok((_, k))) => n == k,
                (Err(e), Err(e2)) => e == e2,
                _ => false,
            },
    {
        check_frame_at(src, 0)
    }

    /// Decodes the frame at the start of `src`, returning it with the number of
    /// bytes it takes.
    pub fn parse(src: &[u8]) -> (r: Result<(Frame, usize), FrameError>)
        ensures
            match (r, decode(src@)) {
                (Ok((f, n)), Ok((m, k))) => f@ == m && n == k,
                (Err(e), Err(e2)) => e == e2,
                _ => false,
            },
    {
        parse_frame_at(src, 0)
    }

    /// Appends the wire encoding of this frame to `buf`.
    pub fn serialize(&self, buf: &mut BytesMut)
        requires
            buffer_contents(*old(buf)).len() + encode(self@).len() <= isize::MAX,
        ensures
            buffer_contents(*final(buf)) == buffer_contents(*old(buf)) + encode(self@),
        decreases self,
    {
        let ghost start = buffer_contents(*buf);
        match self {
            Frame::Simple(s) => {
                put_bytes(buf, &[43u8]);
                put_bytes(buf, s.as_str().as_bytes());
                put_bytes(buf, &[13u8, 10u8]);
                assert(buffer_contents(*buf) =~= start + encode(self@));
            },
            Frame::Error(s) => {
                put_bytes(buf, &[45u8]);
                put_bytes(buf, s.as_str().as_bytes());
                put_bytes(buf, &[13u8, 10u8]);
                assert(buffer_contents(*buf) =~= start + encode(self@));
            },
            Frame::Integer(n) => {
                put_bytes(buf, &[58u8]);
                let digits = format_decimal(*n as i128);
                put_bytes(buf, digits.as_slice());
                put_bytes(buf, &[13u8, 10u8]);
                assert(buffer_contents(*buf) =~= start + encode(self@));
            },
            Frame::Bulk(s) => {
                put_bytes(buf, &[36u8]);
                let bytes = s.as_str().as_bytes();
                let digits = format_decimal(bytes.len() as i128);
                put_bytes(buf, digits.as_slice());
                put_bytes(buf, &[13u8, 10u8]);
                put_bytes(buf, bytes);
                put_bytes(buf, &[13u8, 10u8]);
                assert(buffer_contents(*buf) =~= start + encode(self@));
            },
            Frame::Array(frames) => {
                let ghost ms = match self@ {
                    FrameModel::Array(x) => x,
                    _ => Seq::empty(),
                };
                assert(self@ == FrameModel::Array(ms));
                put_bytes(buf, &[42u8]);
                let digits = format_decimal(frames.len() as i128);
                put_bytes(buf, digits.as_slice());
                put_bytes(buf, &[13u8, 10u8]);
                let ghost header = buffer_contents(*buf);
                assert(header =~= start + (seq![42u8] + decimal(ms.len() as int) + crlf()));
                proof {
                    lemma_encode_all_split(ms, 0);
                    assert(ms.skip(0) =~= ms);
                }
                let mut i: usize = 0;
                while i < frames.len()
                    invariant
                        *self == Frame::Array(*frames),
                        0 <= i <= frames@.len(),
                        ms.len() == frames@.len(),
                        forall|j: int| 0 <= j < frames@.len() ==> #[trigger] ms[j] == frames@[j]@,
                        buffer_contents(*buf) == header + encode_all(ms.take(i as int)),
                        header.len() + encode_all(ms).len() <= isize::MAX,
                        encode_all(ms) == encode_all(ms.take(i as int)) + encode_all(ms.skip(i as int)),
                    decreases frames@.len() - i,
                {
                    proof {
                        lemma_encode_all_split(ms, i as int + 1);
                        lemma_encode_all_split(ms.skip(i as int), 1);
                        assert(ms.skip(i as int).take(1) =~= seq![ms[i as int]]);
                        assert(ms.skip(i as int).skip(1) =~= ms.skip(i as int + 1));
                        assert(seq![ms[i as int]].skip(1) =~= Seq::<FrameModel>::empty());
                        assert(encode_all(seq![ms[i as int]]) =~= encode(ms[i as int]));
                        assert(ms.take(i as int + 1) =~= ms.take(i as int).push(ms[i as int]));
                        lemma_encode_all_push(ms.take(i as int), ms[i as int]);
                    }
                    proof {
                        assert(decreases_to!(*self => self->Array_0));
                        assert(self->Array_0 == *frames);
                        assert(decreases_to!(*frames => frames[i as int]));
                        assert(decreases_to!(*self => frames[i as int]));
                    }
                    frames[i].serialize(buf);
                    i = i + 1;
                }
                assert(ms.take(i as int) =~= ms);
                assert(buffer_contents(*buf) =~= start + encode(self@));
            },
            Frame::Null => {
                put_bytes(buf, &[36u8, 45u8, 49u8, 13u8, 10u8]);
                assert(buffer_contents(*buf) =~= start + encode(self@));
            },
        }
    }
}

} // verus!
