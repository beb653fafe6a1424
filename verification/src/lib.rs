#![allow(unused_imports)]
use vstd::prelude::*;

pub mod config;
pub mod lambda;
pub mod matching;
pub mod runner;
pub mod submission_state;
pub mod summary;

verus! {

/// Why encoding or decoding a payload failed: the compressed stream cannot
/// be rendered as text (it exceeds the encoder's machine limit); the text
/// held a character outside the encoding alphabet (or stray padding); the
/// text was cut short; the compressed payload does not inflate.
#[derive(Debug, PartialEq, Eq, Structural, Clone, Copy)]
pub enum CodecError {
    Compress,
    Alphabet,
    Truncated,
    Corrupt,
}

/// The compressed stream the codec's compressor produces for the bytes.
pub uninterp spec fn deflate_of(data: Seq<u8>) -> Seq<u8>;

/// The transport text the codec's encoder produces for the bytes.
pub uninterp spec fn b64_of(data: Seq<u8>) -> Seq<char>;

/// What the transport-text decoder yields for the text: the carried bytes,
/// or nothing when the text is not valid unpadded transport text.
pub uninterp spec fn b64_decode_of(text: Seq<char>) -> Option<Seq<u8>>;

/// What the decompressor yields for the bytes: the expanded stream, or
/// nothing when the bytes are not a stream it accepts.
pub uninterp spec fn inflate_of(data: Seq<u8>) -> Option<Seq<u8>>;

/// Transport-safe text: ASCII with no padding character.
pub open spec fn transport_safe(s: Seq<char>) -> bool {
    forall|i: int| 0 <= i < s.len() ==> (s[i] as int) < 128 && s[i] != '='
}

/// Relies on flate2's DeflateEncoder over a byte vector: the compressed
/// stream depends on the input bytes alone, and the call succeeds on every
/// input — the vector sink's writes cannot fail, and the compressor
/// reports no error for its fixed, valid compression level.
#[verifier::external_body]
fn deflate_bytes(data: &[u8]) -> (r: Result<Vec<u8>, CodecError>)
    ensures
        r is Ok,
        r->Ok_0@ == deflate_of(data@),
{
    let mut enc = flate2::write::DeflateEncoder::new(Vec::new(), flate2::Compression::default());
    if std::io::Write::write_all(&mut enc, data).is_err() {
        return Err(CodecError::Compress);
    }
    match enc.finish() {
        Ok(v) => Ok(v),
        Err(_) => Err(CodecError::Compress),
    }
}

/// Relies on flate2's DeflateDecoder: whether a stream is accepted, and
/// what it expands to, depend on the bytes alone; compression is lossless,
/// so the exact stream the compressor produced is accepted and restores
/// the original bytes.
#[verifier::external_body]
fn inflate_bytes(data: &[u8]) -> (r: Result<Vec<u8>, CodecError>)
    ensures
        r is Ok ==> inflate_of(data@) is Some,
        r is Err ==> inflate_of(data@) is None,
        r is Err ==> r->Err_0 == CodecError::Corrupt,
        r is Ok ==> r->Ok_0@ == inflate_of(data@)->0,
        forall|orig: Seq<u8>| data@ == deflate_of(orig) ==> r is Ok && r->Ok_0@ == orig,
{
    let mut dec = flate2::write::DeflateDecoder::new(Vec::new());
    if std::io::Write::write_all(&mut dec, data).is_err() {
        return Err(CodecError::Corrupt);
    }
    match dec.finish() {
        Ok(v) => Ok(v),
        Err(_) => Err(CodecError::Corrupt),
    }
}

/// Relies on base64's Engine::encode with STANDARD_NO_PAD: the text depends
/// on the bytes alone, stays in the ASCII encoding alphabet with no padding
/// character, and fills two to four characters per byte triple. The length
/// bound keeps the library's output length computation from overflowing,
/// which is its one panic path.
#[verifier::external_body]
fn base64_encode(data: &[u8]) -> (r: String)
    requires
        4 * data@.len() <= usize::MAX,
    ensures
        r@ == b64_of(data@),
        transport_safe(r@),
        r@.len() == (4 * data@.len() + 2) / 3,
{
    base64::Engine::encode(&base64::engine::general_purpose::STANDARD_NO_PAD, data)
}

/// Relies on base64's Engine::decode with STANDARD_NO_PAD: whether text is
/// accepted, and which bytes it carries, depend on the text alone; the
/// encoder's own unpadded text is accepted and carries the encoded bytes.
/// Text outside the alphabet, with stray padding, or with nonsense trailing
/// bits is refused as alphabet error; text cut to an impossible length as
/// truncation.
#[verifier::external_body]
fn base64_decode(text: &str) -> (r: Result<Vec<u8>, CodecError>)
    ensures
        r is Ok ==> b64_decode_of(text@) is Some,
        r is Err ==> b64_decode_of(text@) is None,
        r is Ok ==> r->Ok_0@ == b64_decode_of(text@)->0,
        r is Err ==> r->Err_0 == CodecError::Alphabet || r->Err_0 == CodecError::Truncated,
        forall|orig: Seq<u8>| text@ == b64_of(orig) ==> r is Ok && r->Ok_0@ == orig,
{
    match base64::Engine::decode(
        &base64::engine::general_purpose::STANDARD_NO_PAD,
        text.as_bytes(),
    ) {
        Ok(v) => Ok(v),
        Err(base64::DecodeError::InvalidByte(_, _)) => Err(CodecError::Alphabet),
        Err(base64::DecodeError::InvalidLastSymbol { .. }) => Err(CodecError::Alphabet),
        Err(base64::DecodeError::InvalidPadding) => Err(CodecError::Alphabet),
        Err(base64::DecodeError::InvalidLength(_)) => Err(CodecError::Truncated),
    }
}

/// Whether the bytes' compressed stream fits the encoder's machine limit.
/// This holds for every input a real machine can hold, so `encode` succeeds
/// on all of them.
pub open spec fn encodable(data: Seq<u8>) -> bool {
    4 * deflate_of(data).len() <= usize::MAX
}

/// Compresses the bytes and renders the compressed stream as transport-safe
/// text. Succeeds exactly when the compressed stream fits the machine
/// limit; the text is then exactly the encoder's text for the compressor's
/// stream, so `decode` restores the input.
pub fn encode(data: &[u8]) -> (r: Result<String, CodecError>)
    ensures
        (r is Ok) == encodable(data@),
        r is Ok ==> r->Ok_0@ == b64_of(deflate_of(data@)),
        r is Ok ==> transport_safe(r->Ok_0@),
        r is Err ==> r->Err_0 == CodecError::Compress,
{
    let compressed = match deflate_bytes(data) {
        Ok(v) => v,
        Err(e) => return Err(e),
    };
    if compressed.len() <= usize::MAX / 4 {
        Ok(base64_encode(compressed.as_slice()))
    } else {
        Err(CodecError::Compress)
    }
}

/// Decodes transport text back to the original bytes: the exact inverse of
/// `encode` on everything `encode` produces. Fails exactly when the text is
/// not valid unpadded transport text (alphabet or truncation error) or the
/// bytes it carries are not an accepted compressed stream (corrupt payload).
pub fn decode(text: &str) -> (r: Result<Vec<u8>, CodecError>)
    ensures
        forall|orig: Seq<u8>| text@ == b64_of(deflate_of(orig)) ==> r is Ok && r->Ok_0@ == orig,
        (r is Ok) == (b64_decode_of(text@) is Some && inflate_of(b64_decode_of(text@)->0) is Some),
        r is Ok ==> r->Ok_0@ == inflate_of(b64_decode_of(text@)->0)->0,
        b64_decode_of(text@) is None ==> r is Err && (r->Err_0 == CodecError::Alphabet
            || r->Err_0 == CodecError::Truncated),
        b64_decode_of(text@) matches Some(bytes) && inflate_of(bytes) is None ==> r is Err
            && r->Err_0 == CodecError::Corrupt,
{
    let bytes = match base64_decode(text) {
        Ok(v) => v,
        Err(e) => return Err(e),
    };
    inflate_bytes(bytes.as_slice())
}

/// The codec round trip: `encode` succeeds on every byte sequence whose
/// compressed stream fits the machine limit — the empty one included —
/// and `decode` then accepts its text and yields those bytes back.
pub fn recode(data: &[u8]) -> (r: Result<Vec<u8>, CodecError>)
    ensures
        (r is Ok) == encodable(data@),
        r is Ok ==> r->Ok_0@ == data@,
{
    let text = match encode(data) {
        Ok(t) => t,
        Err(e) => return Err(e),
    };
    decode(text.as_str())
}

/// The character for one decimal digit.
pub open spec fn dec_digit_char(d: int) -> char {
    if d == 0 {
        '0'
    } else if d == 1 {
        '1'
    } else if d == 2 {
        '2'
    } else if d == 3 {
        '3'
    } else if d == 4 {
        '4'
    } else if d == 5 {
        '5'
    } else if d == 6 {
        '6'
    } else if d == 7 {
        '7'
    } else if d == 8 {
        '8'
    } else {
        '9'
    }
}

/// The decimal digits of a non-negative number, most significant first.
pub open spec fn digits_of(n: nat) -> Seq<char>
    decreases n,
{
    if n < 10 {
        seq![dec_digit_char(n as int)]
    } else {
        digits_of(n / 10).push(dec_digit_char((n % 10) as int))
    }
}

/// The decimal representation of a number, with a leading minus sign when it
/// is negative.
pub open spec fn signed_decimal(n: int) -> Seq<char> {
    if n >= 0 {
        digits_of(n as nat)
    } else {
        seq!['-'] + digits_of((-n) as nat)
    }
}

/// Separator commas inserted every three characters, counted from the right
/// end of the text.
pub open spec fn group_commas(s: Seq<char>) -> Seq<char>
    decreases s.len(),
{
    if s.len() <= 3 {
        s
    } else {
        group_commas(s.take(s.len() - 3)) + seq![','] + s.skip(s.len() - 3)
    }
}

/// Appends the character of one decimal digit.
fn append_digit_char(d: u128, out: &mut String)
    requires
        d < 10,
    ensures
        final(out)@ == old(out)@ + seq![dec_digit_char(d as int)],
{
    if d == 0 {
        proof {
            reveal_strlit("0");
        }
        out.append("0");
        assert(final(out)@ =~= old(out)@ + seq![dec_digit_char(d as int)]);
    } else if d == 1 {
        proof {
            reveal_strlit("1");
        }
        out.append("1");
        assert(final(out)@ =~= old(out)@ + seq![dec_digit_char(d as int)]);
    } else if d == 2 {
        proof {
            reveal_strlit("2");
        }
        out.append("2");
        assert(final(out)@ =~= old(out)@ + seq![dec_digit_char(d as int)]);
    } else if d == 3 {
        proof {
            reveal_strlit("3");
        }
        out.append("3");
        assert(final(out)@ =~= old(out)@ + seq![dec_digit_char(d as int)]);
    } else if d == 4 {
        proof {
            reveal_strlit("4");
        }
        out.append("4");
        assert(final(out)@ =~= old(out)@ + seq![dec_digit_char(d as int)]);
    } else if d == 5 {
        proof {
            reveal_strlit("5");
        }
        out.append("5");
        assert(final(out)@ =~= old(out)@ + seq![dec_digit_char(d as int)]);
    } else if d == 6 {
        proof {
            reveal_strlit("6");
        }
        out.append("6");
        assert(final(out)@ =~= old(out)@ + seq![dec_digit_char(d as int)]);
    } else if d == 7 {
        proof {
            reveal_strlit("7");
        }
        out.append("7");
        assert(final(out)@ =~= old(out)@ + seq![dec_digit_char(d as int)]);
    } else if d == 8 {
        proof {
            reveal_strlit("8");
        }
        out.append("8");
        assert(final(out)@ =~= old(out)@ + seq![dec_digit_char(d as int)]);
    } else {
        proof {
            reveal_strlit("9");
        }
        out.append("9");
        assert(final(out)@ =~= old(out)@ + seq![dec_digit_char(d as int)]);
    }
}

/// Appends the decimal digits of a non-negative number.
fn append_digits(n: u128, out: &mut String)
    ensures
        final(out)@ == old(out)@ + digits_of(n as nat),
    decreases n,
{
    if n < 10 {
        append_digit_char(n, out);
    } else {
        append_digits(n / 10, out);
        append_digit_char(n % 10, out);
    }
}

/// Inserts separator commas every three characters from the right.
fn group_with_commas(s: &str) -> (r: String)
    ensures
        r@ == group_commas(s@),
    decreases s@.len(),
{
    let n = s.unicode_len();
    if n <= 3 {
        String::from_str(s)
    } else {
        let head = s.substring_char(0, n - 3);
        let tail = s.substring_char(n - 3, n);
        let mut r = group_with_commas(head);
        proof {
            reveal_strlit(",");
        }
        r.append(",");
        r.append(tail);
        assert(head@ =~= s@.take(s@.len() - 3));
        assert(tail@ =~= s@.skip(s@.len() - 3));
        assert(r@ =~= group_commas(s@.take(s@.len() - 3)) + seq![','] + s@.skip(s@.len() - 3));
        r
    }
}

/// Renders a number in decimal with separator commas every three characters
/// from the right; the comma insertion counts a leading minus sign like any
/// other character.
pub fn comma_sep_int(number: i128) -> (r: String)
    ensures
        r@ == group_commas(signed_decimal(number as int)),
{
    let mut s = String::new();
    if number < 0 {
        proof {
            reveal_strlit("-");
        }
        s.append("-");
        let mag: u128 = ((-(number + 1)) as u128) + 1;
        assert(s@ =~= seq!['-']);
        append_digits(mag, &mut s);
        assert(s@ =~= signed_decimal(number as int));
    } else {
        append_digits(number as u128, &mut s);
        assert(s@ =~= signed_decimal(number as int));
    }
    group_with_commas(s.as_str())
}

} // verus!
