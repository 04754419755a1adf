//! Wire frames: their byte encoding, and checking and parsing them in a
//! byte buffer with a cursor position.
use vstd::prelude::*;
use vstd::slice::slice_to_vec;
use vstd::string::*;
use vstd::utf8::*;

verus! {

broadcast use encode_utf8_decode_utf8;

pub const CR: u8 = 13;

pub const LF: u8 = 10;

pub const MINUS: u8 = 45;

/// `+`
pub const TAG_SIMPLE: u8 = 43;

/// `-`
pub const TAG_ERROR: u8 = 45;

/// `:`
pub const TAG_INTEGER: u8 = 58;

/// `$`
pub const TAG_BULK: u8 = 36;

/// `*`
pub const TAG_ARRAY: u8 = 42;

/// `0`
pub const DIGIT_ZERO: u8 = 48;

/// `1`
pub const DIGIT_ONE: u8 = 49;

/// `9`
pub const DIGIT_NINE: u8 = 57;

/// One self-delimited message on the wire.
#[derive(Debug)]
pub enum Frame {
    Simple(String),
    Error(String),
    Integer(u64),
    Bulk(Vec<u8>),
    Null,
    Array(Vec<Frame>),
}

/// Why a frame could not be read from a buffer.
#[derive(Debug)]
pub enum Error {
    /// The buffer ends before the frame does.
    Incomplete,
    /// The bytes are not a valid frame.
    Other(String),
}

/// The mathematical value of a frame.
pub enum FrameView {
    Simple(Seq<char>),
    Error(Seq<char>),
    Integer(u64),
    Bulk(Seq<u8>),
    Null,
    Array(Seq<FrameView>),
}

impl View for Frame {
    type V = FrameView;

    open spec fn view(&self) -> FrameView
        decreases self,
    {
        match self {
            Frame::Simple(s) => FrameView::Simple(s@),
            Frame::Error(s) => FrameView::Error(s@),
            Frame::Integer(n) => FrameView::Integer(*n),
            Frame::Bulk(b) => FrameView::Bulk(b@),
            Frame::Null => FrameView::Null,
            Frame::Array(v) => FrameView::Array(frames_view(v@)),
        }
    }
}

/// The values of a sequence of frames.
pub open spec fn frames_view(s: Seq<Frame>) -> Seq<FrameView>
    decreases s,
{
    if s.len() == 0 {
        Seq::empty()
    } else {
        frames_view(s.subrange(0, s.len() - 1)).push(s[s.len() - 1].view())
    }
}

// ---------------------------------------------------------------------------
// Encoding
// ---------------------------------------------------------------------------

pub open spec fn is_digit(b: u8) -> bool {
    DIGIT_ZERO <= b && b <= DIGIT_NINE
}

/// The shortest decimal spelling of `n`.
pub open spec fn decimal_digits(n: nat) -> Seq<u8>
    decreases n,
{
    if n < 10 {
        seq![(n + DIGIT_ZERO) as u8]
    } else {
        decimal_digits(n / 10).push((n % 10 + DIGIT_ZERO) as u8)
    }
}

pub open spec fn crlf() -> Seq<u8> {
    seq![CR, LF]
}

/// A tag byte, a body, and the line terminator.
pub open spec fn tagged_line(tag: u8, body: Seq<u8>) -> Seq<u8> {
    seq![tag] + body + crlf()
}

/// The body of the line that stands for the null frame: `-1`.
pub open spec fn null_body() -> Seq<u8> {
    seq![MINUS, DIGIT_ONE]
}

/// The bytes that stand for a frame on the wire.
pub open spec fn encoding(f: FrameView) -> Seq<u8>
    decreases f,
{
    match f {
        FrameView::Simple(s) => tagged_line(TAG_SIMPLE, encode_utf8(s)),
        FrameView::Error(s) => tagged_line(TAG_ERROR, encode_utf8(s)),
        FrameView::Integer(n) => tagged_line(TAG_INTEGER, decimal_digits(n as nat)),
        FrameView::Bulk(b) => tagged_line(TAG_BULK, decimal_digits(b.len())) + b + crlf(),
        FrameView::Null => tagged_line(TAG_BULK, null_body()),
        FrameView::Array(items) => tagged_line(TAG_ARRAY, decimal_digits(items.len()))
            + encoding_all(items),
    }
}

/// The encodings of a sequence of frames, one after the other.
pub open spec fn encoding_all(items: Seq<FrameView>) -> Seq<u8>
    decreases items,
{
    if items.len() == 0 {
        Seq::empty()
    } else {
        encoding(items[0]) + encoding_all(items.subrange(1, items.len() as int))
    }
}

// ---------------------------------------------------------------------------
// Decoding
// ---------------------------------------------------------------------------

/// The value of a run of decimal digits.
pub open spec fn digits_value(s: Seq<u8>) -> nat
    decreases s.len(),
{
    if s.len() == 0 {
        0
    } else {
        digits_value(s.subrange(0, s.len() - 1)) * 10 + (s[s.len() - 1] - DIGIT_ZERO) as nat
    }
}

pub open spec fn all_digits(s: Seq<u8>) -> bool {
    forall|i: int| 0 <= i < s.len() ==> is_digit(#[trigger] s[i])
}

/// The unsigned 64-bit number that a line body spells, if it spells one.
pub open spec fn decimal_of(s: Seq<u8>) -> Option<u64> {
    if s.len() > 0 && all_digits(s) && digits_value(s) <= u64::MAX {
        Some(digits_value(s) as u64)
    } else {
        None
    }
}

/// The first index at or after `i` that holds a CR or an LF byte, or the
/// length of the buffer if there is none.
pub open spec fn first_break(buf: Seq<u8>, i: int) -> int
    decreases buf.len() - i,
{
    if i < 0 || i >= buf.len() {
        buf.len() as int
    } else if buf[i] == CR || buf[i] == LF {
        i
    } else {
        first_break(buf, i + 1)
    }
}

/// What scanning for a line terminator from a position finds.
pub enum LineScan {
    Incomplete,
    Invalid,
    /// The index of the CR of the terminating CR LF.
    Found(int),
}

/// A line runs to the first CR or LF byte, which must be a CR followed by
/// an LF.
pub open spec fn scan_line(buf: Seq<u8>, start: int) -> LineScan {
    let e = first_break(buf, start);
    if start < 0 || e < start || e >= buf.len() {
        LineScan::Incomplete
    } else if buf[e] == CR && e + 1 == buf.len() {
        LineScan::Incomplete
    } else if buf[e] == CR && buf[e + 1] == LF {
        LineScan::Found(e)
    } else {
        LineScan::Invalid
    }
}

/// What reading one frame from a position finds.
pub enum Parsed {
    Incomplete,
    Invalid,
    /// The frame, and the position just past it.
    Done(FrameView, int),
}

/// What reading a given number of frames one after another finds.
pub enum ParsedItems {
    Incomplete,
    Invalid,
    Done(Seq<FrameView>, int),
}

pub open spec fn is_tag(b: u8) -> bool {
    b == TAG_SIMPLE || b == TAG_ERROR || b == TAG_INTEGER || b == TAG_BULK || b == TAG_ARRAY
}

/// The frame that starts at `pos`, if the buffer holds one whole.
pub open spec fn parse_at(buf: Seq<u8>, pos: int) -> Parsed
    decreases buf.len() - pos, 0int,
{
    if pos < 0 || pos >= buf.len() {
        Parsed::Incomplete
    } else if !is_tag(buf[pos]) {
        Parsed::Invalid
    } else {
        let tag = buf[pos];
        match scan_line(buf, pos + 1) {
            LineScan::Incomplete => Parsed::Incomplete,
            LineScan::Invalid => Parsed::Invalid,
            LineScan::Found(e) => {
                let body = buf.subrange(pos + 1, e);
                let next = e + 2;
                if tag == TAG_SIMPLE || tag == TAG_ERROR {
                    if !valid_utf8(body) {
                        Parsed::Invalid
                    } else if tag == TAG_SIMPLE {
                        Parsed::Done(FrameView::Simple(decode_utf8(body)), next)
                    } else {
                        Parsed::Done(FrameView::Error(decode_utf8(body)), next)
                    }
                } else if tag == TAG_INTEGER {
                    match decimal_of(body) {
                        Some(n) => Parsed::Done(FrameView::Integer(n), next),
                        None => Parsed::Invalid,
                    }
                } else if tag == TAG_BULK {
                    if body == null_body() {
                        Parsed::Done(FrameView::Null, next)
                    } else {
                        match decimal_of(body) {
                            None => Parsed::Invalid,
                            Some(n) => if next + n + 2 > buf.len() {
                                Parsed::Incomplete
                            } else if buf[next + n] == CR && buf[next + n + 1] == LF {
                                Parsed::Done(
                                    FrameView::Bulk(buf.subrange(next, next + n)),
                                    next + n + 2,
                                )
                            } else {
                                Parsed::Invalid
                            },
                        }
                    }
                } else {
                    match decimal_of(body) {
                        None => Parsed::Invalid,
                        Some(n) => match parse_items(buf, next, n as nat) {
                            ParsedItems::Incomplete => Parsed::Incomplete,
                            ParsedItems::Invalid => Parsed::Invalid,
                            ParsedItems::Done(items, end) => Parsed::Done(
                                FrameView::Array(items),
                                end,
                            ),
                        },
                    }
                }
            },
        }
    }
}

/// `k` frames read one after another from `pos`.
pub open spec fn parse_items(buf: Seq<u8>, pos: int, k: nat) -> ParsedItems
    decreases buf.len() - pos, k,
{
    if k == 0 {
        ParsedItems::Done(Seq::empty(), pos)
    } else if pos < 0 || pos >= buf.len() {
        ParsedItems::Incomplete
    } else {
        match parse_at(buf, pos) {
            Parsed::Incomplete => ParsedItems::Incomplete,
            Parsed::Invalid => ParsedItems::Invalid,
            Parsed::Done(f, next) => if next <= pos || next > buf.len() {
                ParsedItems::Invalid
            } else {
                match parse_items(buf, next, (k - 1) as nat) {
                    ParsedItems::Incomplete => ParsedItems::Incomplete,
                    ParsedItems::Invalid => ParsedItems::Invalid,
                    ParsedItems::Done(rest, end) => ParsedItems::Done(seq![f] + rest, end),
                }
            },
        }
    }
}


/// What checking one frame from a position finds, without building it.
pub enum Checked {
    Incomplete,
    Invalid,
    /// The position just past the frame.
    Ends(int),
}

/// Where the frame that starts at `pos` ends, if the buffer holds one
/// whole; the same grammar as `parse_at`, with no value built.
pub open spec fn check_end(buf: Seq<u8>, pos: int) -> Checked
    decreases buf.len() - pos, 0int,
{
    if pos < 0 || pos >= buf.len() {
        Checked::Incomplete
    } else if !is_tag(buf[pos]) {
        Checked::Invalid
    } else {
        let tag = buf[pos];
        match scan_line(buf, pos + 1) {
            LineScan::Incomplete => Checked::Incomplete,
            LineScan::Invalid => Checked::Invalid,
            LineScan::Found(e) => {
                let body = buf.subrange(pos + 1, e);
                let next = e + 2;
                if tag == TAG_SIMPLE || tag == TAG_ERROR {
                    if valid_utf8(body) {
                        Checked::Ends(next)
                    } else {
                        Checked::Invalid
                    }
                } else if tag == TAG_INTEGER {
                    if decimal_of(body) is Some {
                        Checked::Ends(next)
                    } else {
                        Checked::Invalid
                    }
                } else if tag == TAG_BULK {
                    if body == null_body() {
                        Checked::Ends(next)
                    } else {
                        match decimal_of(body) {
                            None => Checked::Invalid,
                            Some(n) => if next + n + 2 > buf.len() {
                                Checked::Incomplete
                            } else if buf[next + n] == CR && buf[next + n + 1] == LF {
                                Checked::Ends(next + n + 2)
                            } else {
                                Checked::Invalid
                            },
                        }
                    }
                } else {
                    match decimal_of(body) {
                        None => Checked::Invalid,
                        Some(n) => check_items(buf, next, n as nat),
                    }
                }
            },
        }
    }
}

/// Where `k` frames checked one after another from `pos` end.
pub open spec fn check_items(buf: Seq<u8>, pos: int, k: nat) -> Checked
    decreases buf.len() - pos, k,
{
    if k == 0 {
        Checked::Ends(pos)
    } else if pos < 0 || pos >= buf.len() {
        Checked::Incomplete
    } else {
        match check_end(buf, pos) {
            Checked::Incomplete => Checked::Incomplete,
            Checked::Invalid => Checked::Invalid,
            Checked::Ends(next) => if next <= pos || next > buf.len() {
                Checked::Invalid
            } else {
                check_items(buf, next, (k - 1) as nat)
            },
        }
    }
}

/// A check outcome and a parse outcome agree: both incomplete, both
/// invalid, or both done at the same position.
pub open spec fn agrees(c: Checked, p: Parsed) -> bool {
    match (c, p) {
        (Checked::Incomplete, Parsed::Incomplete) => true,
        (Checked::Invalid, Parsed::Invalid) => true,
        (Checked::Ends(e), Parsed::Done(_, end)) => e == end,
        _ => false,
    }
}

pub open spec fn agrees_items(c: Checked, p: ParsedItems) -> bool {
    match (c, p) {
        (Checked::Incomplete, ParsedItems::Incomplete) => true,
        (Checked::Invalid, ParsedItems::Invalid) => true,
        (Checked::Ends(e), ParsedItems::Done(_, end)) => e == end,
        _ => false,
    }
}

/// Checking succeeds exactly where parsing does, and both consume the same
/// number of bytes; both fail the same way elsewhere.
pub proof fn law_check_agrees_with_parse(buf: Seq<u8>, pos: int)
    ensures
        agrees(check_end(buf, pos), parse_at(buf, pos)),
    decreases buf.len() - pos, 0int,
{
    if 0 <= pos < buf.len() && is_tag(buf[pos]) {
        if let LineScan::Found(e) = scan_line(buf, pos + 1) {
            let body = buf.subrange(pos + 1, e);
            if buf[pos] == TAG_ARRAY {
                if let Some(n) = decimal_of(body) {
                    lemma_items_agree(buf, e + 2, n as nat);
                }
            }
        }
    }
}

proof fn lemma_items_agree(buf: Seq<u8>, pos: int, k: nat)
    ensures
        agrees_items(check_items(buf, pos, k), parse_items(buf, pos, k)),
    decreases buf.len() - pos, k,
{
    if k > 0 && 0 <= pos < buf.len() {
        law_check_agrees_with_parse(buf, pos);
        if let Parsed::Done(f, next) = parse_at(buf, pos) {
            if pos < next <= buf.len() {
                lemma_items_agree(buf, next, (k - 1) as nat);
            }
        }
    }
}

// ---------------------------------------------------------------------------
// Lemmas on decimals
// ---------------------------------------------------------------------------

proof fn lemma_digits_value_step(s: Seq<u8>, i: int)
    requires
        0 <= i < s.len(),
    ensures
        digits_value(s.subrange(0, i + 1)) == digits_value(s.subrange(0, i)) * 10 + (s[i]
            - DIGIT_ZERO) as nat,
{
    assert(s.subrange(0, i + 1).subrange(0, i) =~= s.subrange(0, i));
}

proof fn lemma_digits_value_prefix(s: Seq<u8>, j: int)
    requires
        all_digits(s),
        0 <= j <= s.len(),
    ensures
        digits_value(s.subrange(0, j)) <= digits_value(s),
    decreases s.len() - j,
{
    if j < s.len() {
        lemma_digits_value_prefix(s, j + 1);
        lemma_digits_value_step(s, j);
    } else {
        assert(s.subrange(0, j) =~= s);
    }
}

// ---------------------------------------------------------------------------
// Cursor primitives
// ---------------------------------------------------------------------------

fn protocol_error() -> (r: Error)
    ensures
        r is Other,
{
    Error::Other("protocol error; invalid frame format".to_owned())
}

/// Reads the byte at the cursor and moves past it.
pub fn get_u8(src: &[u8], pos: &mut usize) -> (r: Result<u8, Error>)
    ensures
        *old(pos) < src@.len() ==> r == Ok::<u8, Error>(src@[*old(pos) as int]) && *final(pos)
            == *old(pos) + 1,
        *old(pos) >= src@.len() ==> r is Err && r->Err_0 is Incomplete,
        r is Err ==> *final(pos) == *old(pos),
{
    if *pos >= src.len() {
        return Err(Error::Incomplete);
    }
    let b = src[*pos];
    *pos = *pos + 1;
    Ok(b)
}

/// Reads the byte at the cursor without moving.
pub fn peek_u8(src: &[u8], pos: &mut usize) -> (r: Result<u8, Error>)
    ensures
        *final(pos) == *old(pos),
        *old(pos) < src@.len() ==> r == Ok::<u8, Error>(src@[*old(pos) as int]),
        *old(pos) >= src@.len() ==> r is Err && r->Err_0 is Incomplete,
{
    if *pos >= src.len() {
        return Err(Error::Incomplete);
    }
    Ok(src[*pos])
}

/// Moves the cursor `n` bytes forward, if the buffer holds that many more.
pub fn skip(src: &[u8], pos: &mut usize, n: usize) -> (r: Result<(), Error>)
    ensures
        *old(pos) + n <= src@.len() ==> r is Ok && *final(pos) == *old(pos) + n,
        *old(pos) + n > src@.len() ==> r is Err && r->Err_0 is Incomplete,
        r is Err ==> *final(pos) == *old(pos),
{
    if *pos > src.len() || src.len() - *pos < n {
        return Err(Error::Incomplete);
    }
    *pos = *pos + n;
    Ok(())
}

/// Reads the line that starts at the cursor, and moves past its CR LF.
pub fn get_line<'a>(src: &'a [u8], pos: &mut usize) -> (r: Result<&'a [u8], Error>)
    ensures
        match scan_line(src@, *old(pos) as int) {
            LineScan::Incomplete => r is Err && r->Err_0 is Incomplete,
            LineScan::Invalid => r is Err && r->Err_0 is Other,
            LineScan::Found(e) => r is Ok && r->Ok_0@ == src@.subrange(*old(pos) as int, e)
                && *final(pos) == e + 2,
        },
        r is Err ==> *final(pos) == *old(pos),
{
    let start = *pos;
    let mut i = start;
    while i < src.len() && src[i] != CR && src[i] != LF
        invariant
            start <= i,
            i < src@.len() ==> first_break(src@, start as int) == first_break(src@, i as int),
            i >= src@.len() ==> first_break(src@, start as int) == src@.len(),
        decreases src@.len() - i,
    {
        i = i + 1;
        proof {
            if i >= src@.len() {
                assert(first_break(src@, i as int) == src@.len());
            }
        }
    }
    if i >= src.len() {
        return Err(Error::Incomplete);
    }
    if src[i] == CR {
        if i + 1 == src.len() {
            return Err(Error::Incomplete);
        }
        if src[i + 1] == LF {
            *pos = i + 2;
            return Ok(&src[start..i]);
        }
    }
    Err(protocol_error())
}

/// The number that a line body spells in decimal digits, if it is one that
/// fits in 64 bits.
pub fn parse_decimal(s: &[u8]) -> (r: Option<u64>)
    ensures
        r == decimal_of(s@),
{
    if s.len() == 0 {
        return None;
    }
    let mut v: u64 = 0;
    let mut i: usize = 0;
    while i < s.len()
        invariant
            i <= s@.len(),
            all_digits(s@.subrange(0, i as int)),
            v == digits_value(s@.subrange(0, i as int)),
        decreases s@.len() - i,
    {
        let b = s[i];
        if b < DIGIT_ZERO || b > DIGIT_NINE {
            return None;
        }
        proof {
            lemma_digits_value_step(s@, i as int);
        }
        let d = (b - DIGIT_ZERO) as u64;
        let next = match v.checked_mul(10) {
            Some(t) => t.checked_add(d),
            None => None,
        };
        match next {
            Some(w) => {
                v = w;
            },
            None => {
                proof {
                    if all_digits(s@) {
                        lemma_digits_value_prefix(s@, i + 1);
                    }
                }
                return None;
            },
        }
        proof {
            assert forall|k: int| 0 <= k < i + 1 implies is_digit(
                #[trigger] s@.subrange(0, i + 1)[k],
            ) by {
                if k < i {
                    assert(s@.subrange(0, i + 1)[k] == s@.subrange(0, i as int)[k]);
                }
            }
        }
        i = i + 1;
    }
    proof {
        assert(s@.subrange(0, i as int) =~= s@);
    }
    Some(v)
}


/// Frames read earlier, put in front of what reading the rest finds.
pub open spec fn prepend_items(fs: Seq<FrameView>, r: ParsedItems) -> ParsedItems {
    match r {
        ParsedItems::Done(rest, end) => ParsedItems::Done(fs + rest, end),
        other => other,
    }
}

proof fn lemma_prepend_empty(r: ParsedItems)
    ensures
        prepend_items(Seq::empty(), r) == r,
{
    if let ParsedItems::Done(rest, end) = r {
        assert(Seq::<FrameView>::empty() + rest =~= rest);
    }
}

proof fn lemma_prepend_step(fs: Seq<FrameView>, f: FrameView, r: ParsedItems)
    ensures
        prepend_items(fs, prepend_items(seq![f], r)) == prepend_items(fs.push(f), r),
{
    if let ParsedItems::Done(rest, end) = r {
        assert(fs + (seq![f] + rest) =~= fs.push(f) + rest);
    }
}

pub proof fn lemma_frames_view_push(s: Seq<Frame>, f: Frame)
    ensures
        frames_view(s.push(f)) == frames_view(s).push(f@),
{
    assert(s.push(f).subrange(0, s.len() as int) =~= s);
}

/// Relies on std::str::from_utf8: it succeeds exactly on valid UTF-8, and
/// then hands back the same bytes as text.
#[verifier::external_body]
pub(crate) fn utf8_text(b: &[u8]) -> (r: Option<&str>)
    ensures
        r is Some <==> valid_utf8(b@),
        r is Some ==> encode_utf8(r->0@) == b@,
{
    std::str::from_utf8(b).ok()
}

/// Whether a line body is `-1`, which stands for the null frame.
fn is_null_body(line: &[u8]) -> (r: bool)
    ensures
        r == (line@ == null_body()),
{
    let r = line.len() == 2 && line[0] == MINUS && line[1] == DIGIT_ONE;
    proof {
        if r {
            assert(line@ =~= null_body());
        }
    }
    r
}

fn is_tag_byte(b: u8) -> (r: bool)
    ensures
        r == is_tag(b),
{
    b == TAG_SIMPLE || b == TAG_ERROR || b == TAG_INTEGER || b == TAG_BULK || b == TAG_ARRAY
}

/// Where the payload of a bulk frame whose line ends before `p` ends, past
/// its CR LF, if the buffer holds it whole.
fn bulk_end(src: &[u8], p: usize, n: u64) -> (r: Result<usize, Error>)
    requires
        p <= src@.len(),
    ensures
        p + n + 2 > src@.len() ==> r is Err && r->Err_0 is Incomplete,
        p + n + 2 <= src@.len() && src@[p + n] == CR && src@[p + n + 1] == LF ==> r is Ok
            && r->Ok_0 == p + n + 2,
        p + n + 2 <= src@.len() && !(src@[p + n] == CR && src@[p + n + 1] == LF) ==> r is Err
            && r->Err_0 is Other,
        r is Ok ==> p < r->Ok_0 <= src@.len(),
{
    let rem = src.len() - p;
    if rem < 2 || n > (rem - 2) as u64 {
        return Err(Error::Incomplete);
    }
    let n = n as usize;
    if src[p + n] == CR && src[p + n + 1] == LF {
        Ok(p + n + 2)
    } else {
        Err(protocol_error())
    }
}

/// Checks that a whole frame starts at `pos`, and finds where it ends,
/// without building it.
fn check_at(src: &[u8], pos: usize) -> (r: Result<usize, Error>)
    ensures
        match check_end(src@, pos as int) {
            Checked::Incomplete => r is Err && r->Err_0 is Incomplete,
            Checked::Invalid => r is Err && r->Err_0 is Other,
            Checked::Ends(end) => r is Ok && r->Ok_0 == end,
        },
        r is Ok ==> pos < r->Ok_0 <= src@.len(),
    decreases src@.len() - pos,
{
    let mut p = pos;
    let tag = match get_u8(src, &mut p) {
        Ok(b) => b,
        Err(e) => return Err(e),
    };
    if !is_tag_byte(tag) {
        return Err(protocol_error());
    }
    let line = match get_line(src, &mut p) {
        Ok(l) => l,
        Err(e) => return Err(e),
    };
    if tag == TAG_SIMPLE || tag == TAG_ERROR {
        if utf8_text(line).is_none() {
            return Err(protocol_error());
        }
        return Ok(p);
    }
    if tag == TAG_INTEGER {
        return match parse_decimal(line) {
            Some(_) => Ok(p),
            None => Err(protocol_error()),
        };
    }
    if tag == TAG_BULK {
        if is_null_body(line) {
            return Ok(p);
        }
        return match parse_decimal(line) {
            Some(n) => bulk_end(src, p, n),
            None => Err(protocol_error()),
        };
    }
    let n = match parse_decimal(line) {
        Some(n) => n,
        None => return Err(protocol_error()),
    };
    let next = p;
    let mut j: u64 = 0;
    while j < n
        invariant
            pos < next <= p <= src@.len(),
            j <= n,
            check_end(src@, pos as int) == check_items(src@, next as int, n as nat),
            check_items(src@, next as int, n as nat) == check_items(
                src@,
                p as int,
                (n - j) as nat,
            ),
        decreases n - j,
    {
        match check_at(src, p) {
            Ok(e) => {
                proof {
                    assert(check_items(src@, p as int, (n - j) as nat) == check_items(
                        src@,
                        e as int,
                        (n - j - 1) as nat,
                    ));
                }
                p = e;
            },
            Err(e) => return Err(e),
        }
        j = j + 1;
    }
    Ok(p)
}

/// Reads the frame that starts at `pos`, and where it ends.
fn parse_frame_at(src: &[u8], pos: usize) -> (r: Result<(Frame, usize), Error>)
    ensures
        match parse_at(src@, pos as int) {
            Parsed::Incomplete => r is Err && r->Err_0 is Incomplete,
            Parsed::Invalid => r is Err && r->Err_0 is Other,
            Parsed::Done(f, end) => r is Ok && r->Ok_0.0@ == f && r->Ok_0.1 == end,
        },
        r is Ok ==> pos < r->Ok_0.1 <= src@.len(),
    decreases src@.len() - pos,
{
    let mut p = pos;
    let tag = match get_u8(src, &mut p) {
        Ok(b) => b,
        Err(e) => return Err(e),
    };
    if !is_tag_byte(tag) {
        return Err(protocol_error());
    }
    let line = match get_line(src, &mut p) {
        Ok(l) => l,
        Err(e) => return Err(e),
    };
    if tag == TAG_SIMPLE || tag == TAG_ERROR {
        let text = match utf8_text(line) {
            Some(t) => t.to_owned(),
            None => return Err(protocol_error()),
        };
        if tag == TAG_SIMPLE {
            return Ok((Frame::Simple(text), p));
        }
        return Ok((Frame::Error(text), p));
    }
    if tag == TAG_INTEGER {
        return match parse_decimal(line) {
            Some(n) => Ok((Frame::Integer(n), p)),
            None => Err(protocol_error()),
        };
    }
    if tag == TAG_BULK {
        if is_null_body(line) {
            return Ok((Frame::Null, p));
        }
        return match parse_decimal(line) {
            Some(n) => match bulk_end(src, p, n) {
                Ok(end) => {
                    let data = slice_to_vec(&src[p..end - 2]);
                    Ok((Frame::Bulk(data), end))
                },
                Err(e) => Err(e),
            },
            None => Err(protocol_error()),
        };
    }
    let n = match parse_decimal(line) {
        Some(n) => n,
        None => return Err(protocol_error()),
    };
    let next = p;
    let mut out: Vec<Frame> = Vec::new();
    proof {
        lemma_prepend_empty(parse_items(src@, next as int, n as nat));
        assert(frames_view(out@) =~= Seq::<FrameView>::empty());
    }
    let mut j: u64 = 0;
    while j < n
        invariant
            pos < next <= p <= src@.len(),
            j <= n,
            parse_at(src@, pos as int) == (match parse_items(src@, next as int, n as nat) {
                ParsedItems::Incomplete => Parsed::Incomplete,
                ParsedItems::Invalid => Parsed::Invalid,
                ParsedItems::Done(items, end) => Parsed::Done(FrameView::Array(items), end),
            }),
            parse_items(src@, next as int, n as nat) == prepend_items(
                frames_view(out@),
                parse_items(src@, p as int, (n - j) as nat),
            ),
        decreases n - j,
    {
        match parse_frame_at(src, p) {
            Ok((f, e)) => {
                proof {
                    assert(parse_items(src@, p as int, (n - j) as nat) == prepend_items(
                        seq![f@],
                        parse_items(src@, e as int, (n - j - 1) as nat),
                    ));
                    lemma_prepend_step(
                        frames_view(out@),
                        f@,
                        parse_items(src@, e as int, (n - j - 1) as nat),
                    );
                    lemma_frames_view_push(out@, f);
                }
                out.push(f);
                p = e;
            },
            Err(e) => return Err(e),
        }
        j = j + 1;
    }
    proof {
        assert(frames_view(out@) + Seq::<FrameView>::empty() =~= frames_view(out@));
    }
    Ok((Frame::Array(out), p))
}

impl Frame {
    /// Checks that the buffer holds a whole frame at the cursor, and moves
    /// the cursor past it. Copies nothing.
    pub fn check(src: &[u8], pos: &mut usize) -> (r: Result<(), Error>)
        ensures
            match check_end(src@, *old(pos) as int) {
                Checked::Incomplete => r is Err && r->Err_0 is Incomplete,
                Checked::Invalid => r is Err && r->Err_0 is Other,
                Checked::Ends(end) => r is Ok && *final(pos) == end,
            },
            r is Err ==> *final(pos) == *old(pos),
    {
        match check_at(src, *pos) {
            Ok(end) => {
                *pos = end;
                Ok(())
            },
            Err(e) => Err(e),
        }
    }

    /// Reads the frame at the cursor, and moves the cursor past it.
    pub fn parse(src: &[u8], pos: &mut usize) -> (r: Result<Frame, Error>)
        ensures
            match parse_at(src@, *old(pos) as int) {
                Parsed::Incomplete => r is Err && r->Err_0 is Incomplete,
                Parsed::Invalid => r is Err && r->Err_0 is Other,
                Parsed::Done(f, end) => r is Ok && r->Ok_0@ == f && *final(pos) == end,
            },
            r is Err ==> *final(pos) == *old(pos),
    {
        match parse_frame_at(src, *pos) {
            Ok((f, end)) => {
                *pos = end;
                Ok(f)
            },
            Err(e) => Err(e),
        }
    }
}


// ---------------------------------------------------------------------------
// Writing
// ---------------------------------------------------------------------------

pub proof fn lemma_frames_view_index(s: Seq<Frame>)
    ensures
        frames_view(s).len() == s.len(),
        forall|i: int| 0 <= i < s.len() ==> #[trigger] frames_view(s)[i] == s[i]@,
    decreases s.len(),
{
    if s.len() > 0 {
        lemma_frames_view_index(s.subrange(0, s.len() - 1));
        assert(frames_view(s) == frames_view(s.subrange(0, s.len() - 1)).push(s[s.len() - 1]@));
    } else {
        assert(frames_view(s) == Seq::<FrameView>::empty());
    }
}

proof fn lemma_encoding_all_last(t: Seq<FrameView>)
    requires
        t.len() > 0,
    ensures
        encoding_all(t) == encoding_all(t.subrange(0, t.len() - 1)) + encoding(t[t.len() - 1]),
    decreases t.len(),
{
    let init = t.subrange(0, t.len() - 1);
    if t.len() == 1 {
        assert(t.subrange(1, 1) =~= Seq::<FrameView>::empty());
        assert(init =~= Seq::<FrameView>::empty());
        assert(encoding(t[0]) + Seq::<u8>::empty() =~= encoding(t[0]));
        assert(Seq::<u8>::empty() + encoding(t[0]) =~= encoding(t[0]));
    } else {
        let u = t.subrange(1, t.len() as int);
        lemma_encoding_all_last(u);
        assert(u.subrange(0, u.len() - 1) =~= init.subrange(1, init.len() as int));
        assert(u[u.len() - 1] == t[t.len() - 1]);
        assert(init[0] == t[0]);
        assert(encoding(t[0]) + (encoding_all(u.subrange(0, u.len() - 1)) + encoding(
            t[t.len() - 1],
        )) =~= (encoding(t[0]) + encoding_all(u.subrange(0, u.len() - 1))) + encoding(
            t[t.len() - 1],
        ));
    }
}

/// Appends bytes to a buffer.
fn push_bytes(out: &mut Vec<u8>, b: &[u8])
    ensures
        final(out)@ == old(out)@ + b@,
{
    let mut i: usize = 0;
    while i < b.len()
        invariant
            i <= b@.len(),
            out@ == old(out)@ + b@.subrange(0, i as int),
        decreases b@.len() - i,
    {
        out.push(b[i]);
        i = i + 1;
        proof {
            assert(b@.subrange(0, i as int) =~= b@.subrange(0, i - 1).push(b@[i - 1]));
        }
    }
    proof {
        assert(b@.subrange(0, i as int) =~= b@);
    }
}

/// Appends the decimal digits of `n`.
pub fn push_decimal(out: &mut Vec<u8>, n: u64)
    ensures
        final(out)@ == old(out)@ + decimal_digits(n as nat),
    decreases n,
{
    if n >= 10 {
        push_decimal(out, n / 10);
    }
    out.push((n % 10) as u8 + DIGIT_ZERO);
    proof {
        if n < 10 {
            assert(decimal_digits(n as nat) =~= seq![(n + DIGIT_ZERO) as u8]);
        }
    }
}

fn push_crlf(out: &mut Vec<u8>)
    ensures
        final(out)@ == old(out)@ + crlf(),
{
    out.push(CR);
    out.push(LF);
}

/// Appends a tag byte, a body, and the line terminator.
fn push_tagged_line(out: &mut Vec<u8>, tag: u8, body: &[u8])
    ensures
        final(out)@ == old(out)@ + tagged_line(tag, body@),
{
    out.push(tag);
    push_bytes(out, body);
    push_crlf(out);
}

/// Appends a tag byte, the decimal digits of `n`, and the line terminator.
fn push_decimal_line(out: &mut Vec<u8>, tag: u8, n: u64)
    ensures
        final(out)@ == old(out)@ + tagged_line(tag, decimal_digits(n as nat)),
{
    out.push(tag);
    push_decimal(out, n);
    push_crlf(out);
}

impl Frame {
    /// Appends the wire encoding of the frame to `out`. Arrays, nested ones
    /// included, write their header and then each element.
    ///
    /// A frame whose texts hold no line break is well formed, and reading
    /// its encoding back gives the frame and consumes the whole encoding.
    pub fn encode(&self, out: &mut Vec<u8>)
        ensures
            final(out)@ == old(out)@ + encoding(self@),
            texts_unbroken(self@) ==> well_formed(self@),
            texts_unbroken(self@) ==> parse_at(encoding(self@), 0) == Parsed::Done(
                self@,
                encoding(self@).len() as int,
            ),
        decreases self,
    {
        match self {
            Frame::Simple(s) => {
                push_tagged_line(out, TAG_SIMPLE, s.as_str().as_bytes());
            },
            Frame::Error(s) => {
                push_tagged_line(out, TAG_ERROR, s.as_str().as_bytes());
            },
            Frame::Integer(n) => {
                push_decimal_line(out, TAG_INTEGER, *n);
            },
            Frame::Bulk(b) => {
                push_decimal_line(out, TAG_BULK, b.len() as u64);
                push_bytes(out, b.as_slice());
                push_crlf(out);
            },
            Frame::Null => {
                out.push(TAG_BULK);
                out.push(MINUS);
                out.push(DIGIT_ONE);
                push_crlf(out);
                proof {
                    assert(final(out)@ =~= old(out)@ + tagged_line(TAG_BULK, null_body()));
                }
            },
            Frame::Array(v) => {
                let ghost start = out@;
                push_decimal_line(out, TAG_ARRAY, v.len() as u64);
                let ghost head = out@;
                proof {
                    lemma_frames_view_index(v@);
                    assert(frames_view(v@).subrange(0, 0) =~= Seq::<FrameView>::empty());
                    assert(head + Seq::<u8>::empty() =~= head);
                }
                let mut i: usize = 0;
                while i < v.len()
                    invariant
                        *self == Frame::Array(*v),
                        i <= v@.len(),
                        frames_view(v@).len() == v@.len(),
                        forall|k: int| 0 <= k < v@.len() ==> #[trigger] frames_view(v@)[k] == v@[k]@,
                        forall|k: int|
                            0 <= k < i ==> texts_unbroken(#[trigger] frames_view(v@)[k])
                                ==> well_formed(frames_view(v@)[k]),
                        out@ == head + encoding_all(frames_view(v@).subrange(0, i as int)),
                    decreases v@.len() - i,
                {
                    proof {
                        vstd::std_specs::vec::axiom_vec_index_decreases(*v, i as int);
                        assert(decreases_to!(*self => self->Array_0));
                    }
                    v[i].encode(out);
                    proof {
                        let t = frames_view(v@).subrange(0, i + 1);
                        lemma_encoding_all_last(t);
                        assert(t.subrange(0, i as int) =~= frames_view(v@).subrange(0, i as int));
                    }
                    i = i + 1;
                }
                proof {
                    assert(frames_view(v@).subrange(0, i as int) =~= frames_view(v@));
                    assert(v@.len() <= u64::MAX);
                }
            },
        }
        proof {
            if texts_unbroken(self@) {
                lemma_round_trip(self@);
            }
        }
    }
}


// ---------------------------------------------------------------------------
// Round trip
// ---------------------------------------------------------------------------

/// No CR and no LF byte.
pub open spec fn no_breaks(b: Seq<u8>) -> bool {
    forall|i: int| 0 <= i < b.len() ==> #[trigger] b[i] != CR && b[i] != LF
}

/// A frame that its encoding gives back: the text of simple and error
/// frames holds no line break.
pub open spec fn well_formed(f: FrameView) -> bool
    decreases f,
{
    match f {
        FrameView::Simple(s) => no_breaks(encode_utf8(s)),
        FrameView::Error(s) => no_breaks(encode_utf8(s)),
        FrameView::Bulk(b) => b.len() <= u64::MAX,
        FrameView::Array(items) => items.len() <= u64::MAX && forall|i: int|
            0 <= i < items.len() ==> well_formed(#[trigger] items[i]),
        _ => true,
    }
}

proof fn lemma_first_break(buf: Seq<u8>, a: int, e: int)
    requires
        0 <= a <= e < buf.len(),
        buf[e] == CR,
        forall|i: int| a <= i < e ==> buf[i] != CR && buf[i] != LF,
    ensures
        first_break(buf, a) == e,
    decreases e - a,
{
    if a < e {
        lemma_first_break(buf, a + 1, e);
    }
}

proof fn lemma_decimal_digits(n: nat)
    ensures
        decimal_digits(n).len() > 0,
        all_digits(decimal_digits(n)),
        digits_value(decimal_digits(n)) == n,
    decreases n,
{
    let d = decimal_digits(n);
    if n >= 10 {
        lemma_decimal_digits(n / 10);
        assert(d.subrange(0, d.len() - 1) =~= decimal_digits(n / 10));
        assert((n / 10) * 10 + n % 10 == n);
        assert(d[d.len() - 1] == (n % 10 + DIGIT_ZERO) as u8);
        assert((d[d.len() - 1] - DIGIT_ZERO) as nat == n % 10);
        assert(digits_value(d) == digits_value(decimal_digits(n / 10)) * 10 + n % 10);
        assert forall|i: int| 0 <= i < d.len() implies is_digit(#[trigger] d[i]) by {
            if i < d.len() - 1 {
                assert(d[i] == decimal_digits(n / 10)[i]);
            }
        }
    } else {
        assert(d.subrange(0, 0) =~= Seq::<u8>::empty());
        assert(digits_value(d) == digits_value(d.subrange(0, 0)) * 10 + (d[0] - DIGIT_ZERO) as nat);
    }
}

proof fn lemma_decimal_of_digits(n: nat)
    requires
        n <= u64::MAX,
    ensures
        decimal_of(decimal_digits(n)) == Some(n as u64),
        no_breaks(decimal_digits(n)),
        decimal_digits(n) != null_body(),
{
    lemma_decimal_digits(n);
    let d = decimal_digits(n);
    assert(is_digit(d[0]));
    assert forall|i: int| 0 <= i < d.len() implies #[trigger] d[i] != CR && d[i] != LF by {
        assert(is_digit(d[i]));
    }
}

/// The line `tag body CR LF` laid at `pos` is found whole.
proof fn lemma_scan_laid_line(buf: Seq<u8>, pos: int, tag: u8, body: Seq<u8>)
    requires
        0 <= pos,
        pos + body.len() + 3 <= buf.len(),
        buf.subrange(pos, pos + body.len() + 3) == tagged_line(tag, body),
        no_breaks(body),
    ensures
        buf[pos] == tag,
        scan_line(buf, pos + 1) == LineScan::Found(pos + 1 + body.len()),
        buf.subrange(pos + 1, pos + 1 + body.len()) == body,
{
    let line = tagged_line(tag, body);
    let e = pos + 1 + body.len();
    assert(buf[pos] == line[0]);
    assert forall|i: int| pos + 1 <= i < e implies buf[i] != CR && buf[i] != LF by {
        assert(buf[i] == line[i - pos]);
        assert(line[i - pos] == body[i - pos - 1]);
    }
    assert(buf[e] == line[body.len() + 1int]);
    assert(buf[e + 1] == line[body.len() + 2int]);
    lemma_first_break(buf, pos + 1, e);
    assert(buf.subrange(pos + 1, e) =~= body) by {
        assert forall|i: int| 0 <= i < body.len() implies buf.subrange(pos + 1, e)[i]
            == body[i] by {
            assert(buf[pos + 1 + i] == line[i + 1]);
        }
    }
}

/// A frame laid at `pos` is read back whole.
pub proof fn lemma_parse_laid_frame(buf: Seq<u8>, pos: int, f: FrameView)
    requires
        well_formed(f),
        0 <= pos,
        pos + encoding(f).len() <= buf.len(),
        buf.subrange(pos, pos + encoding(f).len()) == encoding(f),
    ensures
        parse_at(buf, pos) == Parsed::Done(f, pos + encoding(f).len()),
    decreases f,
{
    let enc = encoding(f);
    match f {
        FrameView::Simple(s) => {
            let body = encode_utf8(s);
            lemma_scan_laid_line(buf, pos, TAG_SIMPLE, body);
            encode_utf8_valid_utf8(s);
        },
        FrameView::Error(s) => {
            let body = encode_utf8(s);
            lemma_scan_laid_line(buf, pos, TAG_ERROR, body);
            encode_utf8_valid_utf8(s);
        },
        FrameView::Integer(n) => {
            let body = decimal_digits(n as nat);
            lemma_decimal_of_digits(n as nat);
            lemma_scan_laid_line(buf, pos, TAG_INTEGER, body);
        },
        FrameView::Null => {
            let body = null_body();
            lemma_scan_laid_line(buf, pos, TAG_BULK, body);
        },
        FrameView::Bulk(b) => {
            let body = decimal_digits(b.len());
            let line = tagged_line(TAG_BULK, body);
            lemma_decimal_of_digits(b.len());
            assert(buf.subrange(pos, pos + line.len()) =~= line) by {
                assert forall|i: int| 0 <= i < line.len() implies buf.subrange(
                    pos,
                    pos + line.len(),
                )[i] == line[i] by {
                    assert(buf[pos + i] == enc[i]);
                }
            }
            lemma_scan_laid_line(buf, pos, TAG_BULK, body);
            let next = pos + line.len();
            assert(buf.subrange(next, next + b.len()) =~= b) by {
                assert forall|i: int| 0 <= i < b.len() implies buf.subrange(next, next + b.len())[i]
                    == b[i] by {
                    assert(buf[next + i] == enc[line.len() + i]);
                }
            }
            assert(buf[next + b.len()] == enc[(line.len() + b.len()) as int]);
            assert(buf[next + b.len() + 1] == enc[line.len() + b.len() + 1int]);
        },
        FrameView::Array(items) => {
            let body = decimal_digits(items.len());
            let line = tagged_line(TAG_ARRAY, body);
            lemma_decimal_of_digits(items.len());
            assert(buf.subrange(pos, pos + line.len()) =~= line) by {
                assert forall|i: int| 0 <= i < line.len() implies buf.subrange(
                    pos,
                    pos + line.len(),
                )[i] == line[i] by {
                    assert(buf[pos + i] == enc[i]);
                }
            }
            lemma_scan_laid_line(buf, pos, TAG_ARRAY, body);
            let next = pos + line.len();
            let rest = encoding_all(items);
            assert(buf.subrange(next, next + rest.len()) =~= rest) by {
                assert forall|i: int| 0 <= i < rest.len() implies buf.subrange(
                    next,
                    next + rest.len(),
                )[i] == rest[i] by {
                    assert(buf[next + i] == enc[line.len() + i]);
                }
            }
            lemma_parse_laid_items(buf, next, items);
        },
    }
}

/// Frames laid one after another from `pos` are read back whole.
pub proof fn lemma_parse_laid_items(buf: Seq<u8>, pos: int, items: Seq<FrameView>)
    requires
        forall|i: int| 0 <= i < items.len() ==> well_formed(#[trigger] items[i]),
        0 <= pos,
        pos + encoding_all(items).len() <= buf.len(),
        buf.subrange(pos, pos + encoding_all(items).len()) == encoding_all(items),
    ensures
        parse_items(buf, pos, items.len()) == ParsedItems::Done(
            items,
            pos + encoding_all(items).len(),
        ),
    decreases items,
{
    if items.len() == 0 {
        assert(items =~= Seq::<FrameView>::empty());
    } else {
        let all = encoding_all(items);
        let first = encoding(items[0]);
        let tail = items.subrange(1, items.len() as int);
        let rest = encoding_all(tail);
        assert(buf.subrange(pos, pos + first.len()) =~= first) by {
            assert forall|i: int| 0 <= i < first.len() implies buf.subrange(
                pos,
                pos + first.len(),
            )[i] == first[i] by {
                assert(buf[pos + i] == all[i]);
            }
        }
        lemma_parse_laid_frame(buf, pos, items[0]);
        let next = pos + first.len();
        assert(buf.subrange(next, next + rest.len()) =~= rest) by {
            assert forall|i: int| 0 <= i < rest.len() implies buf.subrange(next, next + rest.len())[i]
                == rest[i] by {
                assert(buf[next + i] == all[first.len() + i]);
            }
        }
        assert forall|i: int| 0 <= i < tail.len() implies well_formed(#[trigger] tail[i]) by {
            assert(tail[i] == items[i + 1]);
        }
        lemma_parse_laid_items(buf, next, tail);
        assert(seq![items[0]] + tail =~= items);
    }
}

/// Reading back the encoding of a well-formed frame gives the frame, and
/// consumes the whole encoding.
pub proof fn lemma_round_trip(f: FrameView)
    requires
        well_formed(f),
    ensures
        parse_at(encoding(f), 0) == Parsed::Done(f, encoding(f).len() as int),
{
    let enc = encoding(f);
    assert(enc.subrange(0, enc.len() as int) =~= enc);
    lemma_parse_laid_frame(enc, 0, f);
}


// ---------------------------------------------------------------------------
// Building arrays
// ---------------------------------------------------------------------------

impl Frame {
    /// An empty array.
    pub fn array() -> (r: Frame)
        ensures
            r@ == FrameView::Array(Seq::empty()),
    {
        let v: Vec<Frame> = Vec::new();
        proof {
            assert(frames_view(v@) =~= Seq::<FrameView>::empty());
        }
        Frame::Array(v)
    }

    /// Appends a bulk frame to an array.
    pub fn push_bulk(&mut self, b: Vec<u8>)
        requires
            *old(self) is Array,
        ensures
            final(self)@ == FrameView::Array(old(self)@->Array_0.push(FrameView::Bulk(b@))),
    {
        match self {
            Frame::Array(v) => {
                proof {
                    lemma_frames_view_push(v@, Frame::Bulk(b));
                }
                v.push(Frame::Bulk(b));
            },
            _ => {},
        }
    }

    /// Appends an integer frame to an array.
    pub fn push_int(&mut self, value: u64)
        requires
            *old(self) is Array,
        ensures
            final(self)@ == FrameView::Array(old(self)@->Array_0.push(FrameView::Integer(value))),
    {
        match self {
            Frame::Array(v) => {
                proof {
                    lemma_frames_view_push(v@, Frame::Integer(value));
                }
                v.push(Frame::Integer(value));
            },
            _ => {},
        }
    }
}


impl Frame {
    /// Whether the frame is a simple or bulk frame that holds exactly the
    /// text `other`.
    pub fn eq_str(&self, other: &str) -> (r: bool)
        ensures
            r == match self@ {
                FrameView::Simple(s) => s == other@,
                FrameView::Bulk(b) => b == encode_utf8(other@),
                _ => false,
            },
    {
        let o = other.as_bytes();
        match self {
            Frame::Simple(s) => {
                let r = same_bytes(s.as_str().as_bytes(), o);
                proof {
                    assert(decode_utf8(encode_utf8(s@)) == s@);
                    assert(decode_utf8(encode_utf8(other@)) == other@);
                }
                r
            },
            Frame::Bulk(b) => same_bytes(b.as_slice(), o),
            _ => false,
        }
    }
}

fn same_bytes(a: &[u8], b: &[u8]) -> (r: bool)
    ensures
        r == (a@ == b@),
{
    if a.len() != b.len() {
        return false;
    }
    let mut i: usize = 0;
    while i < a.len()
        invariant
            a@.len() == b@.len(),
            i <= a@.len(),
            forall|k: int| 0 <= k < i ==> a@[k] == b@[k],
        decreases a@.len() - i,
    {
        if a[i] != b[i] {
            return false;
        }
        i = i + 1;
    }
    proof {
        assert(a@ =~= b@);
    }
    true
}


/// The text of every simple and error frame, nested ones included, holds no
/// CR and no LF byte.
pub open spec fn texts_unbroken(f: FrameView) -> bool
    decreases f,
{
    match f {
        FrameView::Simple(s) => no_breaks(encode_utf8(s)),
        FrameView::Error(s) => no_breaks(encode_utf8(s)),
        FrameView::Array(items) => forall|i: int|
            0 <= i < items.len() ==> texts_unbroken(#[trigger] items[i]),
        _ => true,
    }
}

/// What the front of a read buffer holds: a whole frame and its length,
/// nothing whole yet (`None`), or an error for malformed bytes. The frame
/// is built only once a check has found it whole.
pub fn parse_frame(buf: &[u8]) -> (r: Result<Option<(Frame, usize)>, Error>)
    ensures
        match parse_at(buf@, 0) {
            Parsed::Incomplete => r is Ok && r->Ok_0 is None,
            Parsed::Invalid => r is Err && r->Err_0 is Other,
            Parsed::Done(f, end) => match r {
                Ok(Some((g, n))) => g@ == f && n == end,
                _ => false,
            },
        },
{
    proof {
        law_check_agrees_with_parse(buf@, 0);
    }
    let mut end: usize = 0;
    match Frame::check(buf, &mut end) {
        Ok(()) => {
            let mut pos: usize = 0;
            match Frame::parse(buf, &mut pos) {
                Ok(frame) => Ok(Some((frame, end))),
                Err(e) => Err(e),
            }
        },
        Err(Error::Incomplete) => Ok(None),
        Err(e) => Err(e),
    }
}

} // verus!
