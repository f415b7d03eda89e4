//! The binary portable pixmap format: a text header followed by raw samples.
//!
//! The header is the magic word `P6`, the width, the height and the largest
//! sample value, separated by whitespace and by comments that run from `#` to
//! the end of the line. One whitespace byte ends the header; three bytes per
//! pixel follow, row after row.

use vstd::prelude::*;
use vstd::utf8::{decode_utf8, valid_utf8};
use crate::image::{Pixel, PpmFile, MAX_SAMPLE};

verus! {

/// Why a byte sequence is not an image in this format.
#[derive(Clone, Copy, Debug, PartialEq, Eq, Structural)]
pub enum PpmError {
    /// There are fewer than two bytes.
    TooSmall,
    /// The bytes end where a header field, the whitespace after the header or
    /// pixel data is expected.
    UnexpectedEnd,
    /// A header field is not valid UTF-8.
    InvalidUtf8,
    /// A header field that should be a number is not a decimal number that
    /// fits the machine word.
    InvalidNumber,
    /// The magic word is not `P6`.
    UnknownMagic,
    /// The largest sample value is not 255.
    UnsupportedMaxValue,
    /// A comment starts directly after the last header field, where a
    /// whitespace byte must stand.
    MissingWhitespace,
}

/// The line feed, which ends a comment.
pub const LINE_FEED: u8 = 0x0a;

/// The number sign, which starts a comment.
pub const NUMBER_SIGN: u8 = 0x23;

/// Position at or after `i` where the next token starts, or the length of the
/// input when there is none. Delimiters are skipped; a number sign among them
/// starts a comment, which is skipped up to and including the next line feed.
/// `in_comment` tells whether `i` lies inside a comment.
pub open spec fn scan_to_token(bytes: Seq<u8>, delims: Seq<u8>, i: int, in_comment: bool) -> int
    decreases bytes.len() - i,
{
    if i >= bytes.len() {
        bytes.len() as int
    } else if in_comment {
        scan_to_token(bytes, delims, i + 1, bytes[i] != LINE_FEED)
    } else if !delims.contains(bytes[i]) {
        i
    } else {
        scan_to_token(bytes, delims, i + 1, bytes[i] == NUMBER_SIGN)
    }
}

/// Position at or after `i` where the next token starts.
pub open spec fn token_start(bytes: Seq<u8>, delims: Seq<u8>, i: int) -> int {
    scan_to_token(bytes, delims, i, false)
}

/// Position at or after `i` of the first delimiter, or the length of the input
/// when there is none: the end of a token that starts at `i`.
pub open spec fn token_end(bytes: Seq<u8>, delims: Seq<u8>, i: int) -> int
    decreases bytes.len() - i,
{
    if i >= bytes.len() {
        bytes.len() as int
    } else if delims.contains(bytes[i]) {
        i
    } else {
        token_end(bytes, delims, i + 1)
    }
}

/// A token lies inside the input, and the scan never moves backwards.
pub proof fn lemma_scan_bounds(bytes: Seq<u8>, delims: Seq<u8>, i: int, in_comment: bool)
    requires
        0 <= i,
    ensures
        i <= scan_to_token(bytes, delims, i, in_comment) || bytes.len() <= i,
        0 <= scan_to_token(bytes, delims, i, in_comment) <= bytes.len(),
        scan_to_token(bytes, delims, i, in_comment) < bytes.len() ==> !delims.contains(
            bytes[scan_to_token(bytes, delims, i, in_comment)],
        ),
        i <= token_end(bytes, delims, i) || bytes.len() <= i,
        0 <= token_end(bytes, delims, i) <= bytes.len(),
        token_end(bytes, delims, i) < bytes.len() ==> delims.contains(bytes[token_end(bytes, delims, i)]),
    decreases bytes.len() - i,
{
    if i < bytes.len() {
        lemma_scan_bounds(bytes, delims, i + 1, bytes[i] != LINE_FEED);
        lemma_scan_bounds(bytes, delims, i + 1, bytes[i] == NUMBER_SIGN);
    }
}

/// Tells whether `byte` is one of `delims`.
pub fn is_delimiter(delims: &Vec<u8>, byte: u8) -> (found: bool)
    ensures
        found == delims@.contains(byte),
{
    let mut i: usize = 0;
    while i < delims.len()
        invariant
            i <= delims.len(),
            forall|j: int| 0 <= j < i ==> delims[j] != byte,
        decreases delims.len() - i,
    {
        if delims[i] == byte {
            return true;
        }
        i += 1;
    }
    false
}

/// `String::from_utf8` of the standard library: the bytes become a string
/// exactly when they are valid UTF-8, and the string then holds the characters
/// that they encode.
#[verifier::external_body]
fn string_from_utf8(bytes: Vec<u8>) -> (res: Option<String>)
    ensures
        res is Some <==> valid_utf8(bytes@),
        res matches Some(s) ==> s@ == decode_utf8(bytes@),
{
    String::from_utf8(bytes).ok()
}

/// Reads the next token at or after `*offset`: skips delimiters and comments,
/// then takes the bytes up to the next delimiter or the end of the input.
/// `*offset` moves to the end of the token. Where the input ends before a
/// token starts, `*offset` stays.
pub fn next_token(bytes: &Vec<u8>, offset: &mut usize, delims: &Vec<u8>) -> (res: Result<String, PpmError>)
    ensures
        ({
            let start = token_start(bytes@, delims@, *old(offset) as int);
            let end = token_end(bytes@, delims@, start);
            let token = bytes@.subrange(start, end);
            match res {
                Ok(s) => start < bytes.len() && valid_utf8(token) && s@ == decode_utf8(token) && *final(offset)
                    == end,
                Err(PpmError::UnexpectedEnd) => start >= bytes.len() && *final(offset) == *old(offset),
                Err(PpmError::InvalidUtf8) => start < bytes.len() && !valid_utf8(token) && *final(offset)
                    == end,
                Err(_) => false,
            }
        }),
{
    let ghost origin = *offset as int;
    let mut cursor: usize = *offset;
    let mut in_comment: bool = false;
    while cursor < bytes.len() && (in_comment || is_delimiter(delims, bytes[cursor]))
        invariant
            origin <= cursor,
            scan_to_token(bytes@, delims@, cursor as int, in_comment) == token_start(bytes@, delims@, origin),
        decreases bytes.len() - cursor,
    {
        if in_comment {
            in_comment = bytes[cursor] != LINE_FEED;
        } else {
            in_comment = bytes[cursor] == NUMBER_SIGN;
        }
        cursor += 1;
    }
    if cursor >= bytes.len() {
        return Err(PpmError::UnexpectedEnd);
    }
    let start: usize = cursor;
    let mut token: Vec<u8> = Vec::new();
    while cursor < bytes.len() && !is_delimiter(delims, bytes[cursor])
        invariant
            start <= cursor <= bytes.len(),
            token_end(bytes@, delims@, cursor as int) == token_end(bytes@, delims@, start as int),
            token@ == bytes@.subrange(start as int, cursor as int),
        decreases bytes.len() - cursor,
    {
        token.push(bytes[cursor]);
        cursor += 1;
        assert(token@ =~= bytes@.subrange(start as int, cursor as int));
    }
    *offset = cursor;
    match string_from_utf8(token) {
        Some(s) => Ok(s),
        None => Err(PpmError::InvalidUtf8),
    }
}

/// The bytes that separate header fields: space, tab, carriage return, line
/// feed and the number sign.
pub open spec fn delimiters() -> Seq<u8> {
    seq![0x20u8, 0x09u8, 0x0du8, 0x0au8, 0x23u8]
}

/// The magic word `P6`.
pub open spec fn magic_word() -> Seq<u8> {
    seq![0x50u8, 0x36u8]
}

/// `b` is one of the ASCII digits.
pub open spec fn is_digit(b: u8) -> bool {
    0x30 <= b <= 0x39
}

/// Every byte of `d` is a digit.
pub open spec fn all_digits(d: Seq<u8>) -> bool {
    forall|i: int| 0 <= i < d.len() ==> is_digit(#[trigger] d[i])
}

/// The number that the decimal digits `d` write, most significant first.
pub open spec fn digits_value(d: Seq<u8>) -> nat
    decreases d.len(),
{
    if d.len() == 0 {
        0
    } else {
        10 * digits_value(d.drop_last()) + (d.last() - 0x30) as nat
    }
}

/// A token without the plus sign that may precede a number.
pub open spec fn unsigned_part(token: Seq<u8>) -> Seq<u8> {
    if token.len() > 0 && token[0] == 0x2b {
        token.subrange(1, token.len() as int)
    } else {
        token
    }
}

/// The number that a token writes: an optional plus sign, then one or more
/// decimal digits whose value fits the machine word.
pub open spec fn number_of(token: Seq<u8>) -> Option<nat> {
    let d = unsigned_part(token);
    if d.len() >= 1 && all_digits(d) && digits_value(d) <= usize::MAX {
        Some(digits_value(d))
    } else {
        None
    }
}

/// The token at or after position `i` and the position where it ends.
pub open spec fn token_at(bytes: Seq<u8>, i: int) -> Result<(Seq<u8>, int), PpmError> {
    let start = token_start(bytes, delimiters(), i);
    let end = token_end(bytes, delimiters(), start);
    if start >= bytes.len() {
        Err(PpmError::UnexpectedEnd)
    } else if !valid_utf8(bytes.subrange(start, end)) {
        Err(PpmError::InvalidUtf8)
    } else {
        Ok((bytes.subrange(start, end), end))
    }
}

/// The number at or after position `i` and the position where it ends.
pub open spec fn number_at(bytes: Seq<u8>, i: int) -> Result<(nat, int), PpmError> {
    match token_at(bytes, i) {
        Err(e) => Err(e),
        Ok((token, end)) => match number_of(token) {
            Some(n) => Ok((n, end)),
            None => Err(PpmError::InvalidNumber),
        },
    }
}

/// The header of an image file: its width, its height and the position of
/// the first sample. The four fields are read before any is judged; the magic
/// word is judged before the largest sample value. The byte after the last
/// field ends a token, so it is a delimiter, and must not be a number sign.
pub open spec fn header_of(bytes: Seq<u8>) -> Result<(nat, nat, int), PpmError> {
    if bytes.len() < 2 {
        Err(PpmError::TooSmall)
    } else {
        match token_at(bytes, 0) {
            Err(e) => Err(e),
            Ok((magic, after_magic)) => match number_at(bytes, after_magic) {
                Err(e) => Err(e),
                Ok((width, after_width)) => match number_at(bytes, after_width) {
                    Err(e) => Err(e),
                    Ok((height, after_height)) => match number_at(bytes, after_height) {
                        Err(e) => Err(e),
                        Ok((max_val, end)) => if magic != magic_word() {
                            Err(PpmError::UnknownMagic)
                        } else if max_val != MAX_SAMPLE {
                            Err(PpmError::UnsupportedMaxValue)
                        } else if end >= bytes.len() {
                            Err(PpmError::UnexpectedEnd)
                        } else if bytes[end] == NUMBER_SIGN {
                            Err(PpmError::MissingWhitespace)
                        } else {
                            Ok((width, height, end + 1))
                        },
                    },
                },
            },
        }
    }
}

/// The pixels that raw samples describe, three samples to a pixel.
pub open spec fn pixels_of(data: Seq<u8>) -> Seq<Pixel> {
    Seq::new(
        (data.len() / 3) as nat,
        |i: int| Pixel { r: data[3 * i], g: data[3 * i + 1], b: data[3 * i + 2] },
    )
}

/// The raw samples of pixels: red, green and blue of each in turn.
pub open spec fn samples_of(pixels: Seq<Pixel>) -> Seq<u8> {
    Seq::new(
        3 * pixels.len(),
        |j: int|
            {
                let p = pixels[j / 3];
                if j % 3 == 0 {
                    p.r
                } else if j % 3 == 1 {
                    p.g
                } else {
                    p.b
                }
            },
    )
}

/// The image that a byte sequence holds: width, height and pixels. Bytes
/// after the last pixel are not looked at.
pub open spec fn decoded(bytes: Seq<u8>) -> Result<(nat, nat, Seq<Pixel>), PpmError> {
    match header_of(bytes) {
        Err(e) => Err(e),
        Ok((width, height, data_start)) => {
            let n = 3 * (width * height);
            if data_start + n > bytes.len() {
                Err(PpmError::UnexpectedEnd)
            } else {
                Ok((width, height, pixels_of(bytes.subrange(data_start, data_start + n))))
            }
        },
    }
}

/// Digits only add to the number that shorter prefixes write.
pub proof fn lemma_digits_value_grows(d: Seq<u8>, k: int)
    requires
        all_digits(d),
        0 <= k <= d.len(),
    ensures
        digits_value(d.take(k)) <= digits_value(d),
    decreases d.len() - k,
{
    if k < d.len() {
        lemma_digits_value_grows(d, k + 1);
        let longer = d.take(k + 1);
        assert(longer.drop_last() =~= d.take(k));
        assert(is_digit(d[k]));
        assert(longer.last() == d[k]);
    } else {
        assert(d.take(k) =~= d);
    }
}

/// Reads a token as a number: an optional plus sign and decimal digits.
pub fn parse_number(token: &[u8]) -> (res: Option<usize>)
    ensures
        res matches Some(n) ==> number_of(token@) == Some(n as nat),
        res is None ==> number_of(token@) is None,
{
    let first: usize = if token.len() > 0 && token[0] == 0x2b {
        1
    } else {
        0
    };
    let ghost d = unsigned_part(token@);
    if token.len() == first {
        return None;
    }
    let mut value: usize = 0;
    let mut i: usize = first;
    assert(d =~= token@.subrange(first as int, token.len() as int));
    while i < token.len()
        invariant
            first <= i <= token.len(),
            d == unsigned_part(token@),
            d == token@.subrange(first as int, token.len() as int),
            all_digits(d.take(i - first)),
            value == digits_value(d.take(i - first)),
        decreases token.len() - i,
    {
        let b: u8 = token[i];
        let ghost shorter = d.take(i - first);
        let ghost longer = d.take(i + 1 - first);
        proof {
            assert(longer.drop_last() =~= shorter);
            assert(longer.last() == b);
        }
        if b < 0x30 || b > 0x39 {
            assert(!is_digit(d[i - first]));
            return None;
        }
        let digit: usize = (b - 0x30) as usize;
        let next = match value.checked_mul(10) {
            Some(tens) => tens.checked_add(digit),
            None => None,
        };
        match next {
            Some(v) => {
                value = v;
            },
            None => {
                proof {
                    assert(digits_value(longer) > usize::MAX);
                    if all_digits(d) {
                        lemma_digits_value_grows(d, i + 1 - first);
                    }
                }
                return None;
            },
        }
        i += 1;
    }
    proof {
        assert(d.take(i - first) =~= d);
    }
    Some(value)
}

/// Reads the next token as a number.
fn next_number(bytes: &Vec<u8>, offset: &mut usize, delims: &Vec<u8>) -> (res: Result<usize, PpmError>)
    requires
        delims@ == delimiters(),
    ensures
        match res {
            Ok(n) => number_at(bytes@, *old(offset) as int) == Ok::<(nat, int), PpmError>(
                (n as nat, *final(offset) as int),
            ),
            Err(e) => number_at(bytes@, *old(offset) as int) == Err::<(nat, int), PpmError>(e),
        },
{
    let ghost start = token_start(bytes@, delimiters(), *offset as int);
    let ghost end = token_end(bytes@, delimiters(), start);
    let token = match next_token(bytes, offset, delims) {
        Ok(s) => s,
        Err(e) => {
            return Err(e);
        },
    };
    proof {
        vstd::utf8::decode_utf8_encode_utf8(bytes@.subrange(start, end));
    }
    match parse_number(token.as_str().as_bytes()) {
        Some(n) => Ok(n),
        None => Err(PpmError::InvalidNumber),
    }
}

/// Tells whether a token is the magic word.
fn is_magic(token: &[u8]) -> (yes: bool)
    ensures
        yes == (token@ == magic_word()),
{
    let yes = token.len() == 2 && token[0] == 0x50 && token[1] == 0x36;
    proof {
        if yes {
            assert(token@ =~= magic_word());
        }
    }
    yes
}

/// Decodes an image from the bytes of a file.
pub fn parse_ppm(bytes: &Vec<u8>) -> (res: Result<PpmFile, PpmError>)
    ensures
        match res {
            Ok(image) => decoded(bytes@) matches Ok((width, height, pixels)) && image.wf() && image.width
                == width && image.height == height && image.pixels@ == pixels,
            Err(e) => decoded(bytes@) == Err::<(nat, nat, Seq<Pixel>), PpmError>(e),
        },
{
    if bytes.len() < 2 {
        return Err(PpmError::TooSmall);
    }
    let delims: Vec<u8> = vec![0x20, 0x09, 0x0d, 0x0a, 0x23];
    assert(delims@ =~= delimiters());
    let mut from: usize = 0;
    let ghost magic_start = token_start(bytes@, delimiters(), 0);
    let ghost magic_end = token_end(bytes@, delimiters(), magic_start);
    let magic = match next_token(bytes, &mut from, &delims) {
        Ok(s) => s,
        Err(e) => {
            return Err(e);
        },
    };
    proof {
        vstd::utf8::decode_utf8_encode_utf8(bytes@.subrange(magic_start, magic_end));
    }
    let width = match next_number(bytes, &mut from, &delims) {
        Ok(n) => n,
        Err(e) => {
            return Err(e);
        },
    };
    let height = match next_number(bytes, &mut from, &delims) {
        Ok(n) => n,
        Err(e) => {
            return Err(e);
        },
    };
    let max_val = match next_number(bytes, &mut from, &delims) {
        Ok(n) => n,
        Err(e) => {
            return Err(e);
        },
    };
    if !is_magic(magic.as_str().as_bytes()) {
        return Err(PpmError::UnknownMagic);
    }
    if max_val != MAX_SAMPLE {
        return Err(PpmError::UnsupportedMaxValue);
    }
    if from >= bytes.len() {
        return Err(PpmError::UnexpectedEnd);
    }
    if bytes[from] == NUMBER_SIGN {
        return Err(PpmError::MissingWhitespace);
    }
    let data_start: usize = from + 1;
    assert(header_of(bytes@) == Ok::<(nat, nat, int), PpmError>((width as nat, height as nat, data_start as int)));
    proof {
        assert(0 <= width * height) by (nonlinear_arith)
            requires
                0 <= width,
                0 <= height,
        ;
    }
    let count = match width.checked_mul(height) {
        Some(n) => n,
        None => {
            return Err(PpmError::UnexpectedEnd);
        },
    };
    let size = match count.checked_mul(3) {
        Some(n) => n,
        None => {
            return Err(PpmError::UnexpectedEnd);
        },
    };
    if size > bytes.len() - data_start {
        return Err(PpmError::UnexpectedEnd);
    }
    let ghost data = bytes@.subrange(data_start as int, data_start + size);
    let mut pixels: Vec<Pixel> = Vec::new();
    let mut i: usize = 0;
    while i < count
        invariant
            i <= count,
            size == 3 * count,
            data_start + size <= bytes.len(),
            data == bytes@.subrange(data_start as int, data_start + size),
            pixels.len() == i,
            forall|j: int| 0 <= j < i ==> #[trigger] pixels[j] == pixels_of(data)[j],
        decreases count - i,
    {
        let at: usize = data_start + 3 * i;
        pixels.push(Pixel { r: bytes[at], g: bytes[at + 1], b: bytes[at + 2] });
        i += 1;
    }
    assert(pixels@ =~= pixels_of(data));
    Ok(PpmFile { width, height, max_val, pixels })
}

/// The decimal digits of a number, most significant first.
pub open spec fn decimal(n: nat) -> Seq<u8>
    decreases n,
{
    if n < 10 {
        seq![(0x30 + n) as u8]
    } else {
        decimal(n / 10).push((0x30 + n % 10) as u8)
    }
}

/// The header that announces an image of the given size: the magic word, the
/// width, the height and the largest sample value, each followed by a line
/// feed.
pub open spec fn header_bytes(width: nat, height: nat, max_val: nat) -> Seq<u8> {
    magic_word() + seq![LINE_FEED] + decimal(width) + seq![LINE_FEED] + decimal(height) + seq![LINE_FEED]
        + decimal(max_val) + seq![LINE_FEED]
}

/// The bytes of the file that holds an image.
pub open spec fn encoded(image: PpmFile) -> Seq<u8> {
    header_bytes(image.width as nat, image.height as nat, image.max_val as nat) + samples_of(image.pixels@)
}

/// Appends the decimal digits of `n`.
fn push_decimal(out: &mut Vec<u8>, n: usize)
    ensures
        final(out)@ == old(out)@ + decimal(n as nat),
    decreases n,
{
    if n >= 10 {
        push_decimal(out, n / 10);
    }
    out.push(0x30 + (n % 10) as u8);
    assert(out@ =~= old(out)@ + decimal(n as nat));
}

/// Encodes an image as the bytes of a file: the header, then the samples of
/// every pixel, row after row.
pub fn encode_ppm(image: &PpmFile) -> (out: Vec<u8>)
    ensures
        out@ == encoded(*image),
{
    let mut out: Vec<u8> = Vec::new();
    out.push(0x50);
    out.push(0x36);
    out.push(LINE_FEED);
    push_decimal(&mut out, image.width);
    out.push(LINE_FEED);
    push_decimal(&mut out, image.height);
    out.push(LINE_FEED);
    push_decimal(&mut out, image.max_val);
    out.push(LINE_FEED);
    let ghost header = header_bytes(image.width as nat, image.height as nat, image.max_val as nat);
    assert(out@ =~= header);
    let mut i: usize = 0;
    while i < image.pixels.len()
        invariant
            i <= image.pixels.len(),
            out@.len() == header.len() + 3 * i,
            out@.subrange(0, header.len() as int) == header,
            forall|j: int| 0 <= j < 3 * i ==> out@[header.len() + j] == samples_of(image.pixels@)[j],
        decreases image.pixels.len() - i,
    {
        let p = image.pixels[i];
        let ghost before = out@;
        out.push(p.r);
        out.push(p.g);
        out.push(p.b);
        proof {
            assert(out@.subrange(0, header.len() as int) =~= before.subrange(0, header.len() as int));
            assert forall|j: int| 0 <= j < 3 * (i + 1) implies out@[header.len() + j] == samples_of(
                image.pixels@,
            )[j] by {
                if j < 3 * i {
                    assert(out@[header.len() + j] == before[header.len() + j]);
                }
            }
        }
        i += 1;
    }
    assert(out@ =~= encoded(*image));
    out
}

/// Samples cut into pixels and laid out again are the same samples.
pub proof fn lemma_samples_of_pixels(data: Seq<u8>)
    requires
        data.len() % 3 == 0,
    ensures
        samples_of(pixels_of(data)) == data,
{
    let back = samples_of(pixels_of(data));
    assert(back.len() == data.len());
    assert forall|j: int| 0 <= j < data.len() implies back[j] == data[j] by {
        let i = j / 3;
        assert(0 <= i < data.len() / 3);
        assert(j == 3 * i + j % 3);
    }
    assert(back =~= data);
}

/// Pixels laid out as samples and cut into pixels again are the same pixels.
pub proof fn lemma_pixels_of_samples(pixels: Seq<Pixel>)
    ensures
        pixels_of(samples_of(pixels)) == pixels,
{
    let data = samples_of(pixels);
    let back = pixels_of(data);
    assert(back.len() == pixels.len());
    assert forall|i: int| 0 <= i < pixels.len() implies back[i] == pixels[i] by {
        assert((3 * i) / 3 == i && (3 * i) % 3 == 0);
        assert((3 * i + 1) / 3 == i && (3 * i + 1) % 3 == 1);
        assert((3 * i + 2) / 3 == i && (3 * i + 2) % 3 == 2);
    }
    assert(back =~= pixels);
}

/// Decoding a file and encoding the image again reproduces the file's pixel
/// data byte for byte, behind the header in its plainest form.
pub proof fn lemma_decode_then_encode(bytes: Seq<u8>, image: PpmFile)
    requires
        decoded(bytes) == Ok::<(nat, nat, Seq<Pixel>), PpmError>(
            (image.width as nat, image.height as nat, image.pixels@),
        ),
        image.max_val == MAX_SAMPLE,
    ensures
        header_of(bytes) matches Ok((width, height, data_start)) && encoded(image) == header_bytes(
            width,
            height,
            MAX_SAMPLE as nat,
        ) + bytes.subrange(data_start, data_start + 3 * (width * height)),
{
    match header_of(bytes) {
        Ok((width, height, data_start)) => {
            let n = 3 * (width * height);
            let data = bytes.subrange(data_start, data_start + n);
            assert(n % 3 == 0);
            lemma_scan_header_start(bytes);
            lemma_samples_of_pixels(data);
        },
        Err(_) => {},
    }
}

/// A token that starts at or after a position inside the input ends inside it.
proof fn lemma_token_at_bounds(bytes: Seq<u8>, i: int)
    requires
        0 <= i,
    ensures
        token_at(bytes, i) matches Ok((_, end)) ==> 0 <= end <= bytes.len(),
        number_at(bytes, i) matches Ok((_, end)) ==> 0 <= end <= bytes.len(),
{
    lemma_scan_bounds(bytes, delimiters(), i, false);
    lemma_scan_bounds(bytes, delimiters(), token_start(bytes, delimiters(), i), false);
}

/// The samples of a decodable file start inside it.
proof fn lemma_scan_header_start(bytes: Seq<u8>)
    ensures
        header_of(bytes) matches Ok((_, _, data_start)) ==> 0 < data_start <= bytes.len(),
{
    lemma_token_at_bounds(bytes, 0);
    match token_at(bytes, 0) {
        Ok((_, a)) => {
            lemma_token_at_bounds(bytes, a);
            match number_at(bytes, a) {
                Ok((_, b)) => {
                    lemma_token_at_bounds(bytes, b);
                    match number_at(bytes, b) {
                        Ok((_, c)) => {
                            lemma_token_at_bounds(bytes, c);
                        },
                        Err(_) => {},
                    }
                },
                Err(_) => {},
            }
        },
        Err(_) => {},
    }
}

/// A byte below 128 that is none of the five delimiters.
pub open spec fn is_plain(b: u8) -> bool {
    b < 0x80 && b != 0x20 && b != 0x09 && b != 0x0d && b != 0x0a && b != 0x23
}

/// Plain bytes are no delimiters, and a line feed is one.
proof fn lemma_delimiters(b: u8)
    ensures
        is_plain(b) ==> !delimiters().contains(b),
        delimiters().contains(LINE_FEED),
{
    let d = delimiters();
    assert(d[3] == LINE_FEED);
    if is_plain(b) {
        assert forall|i: int| 0 <= i < d.len() implies d[i] != b by {}
    }
}

/// Bytes below 128 are valid UTF-8.
proof fn lemma_ascii_is_utf8(token: Seq<u8>)
    requires
        forall|i: int| 0 <= i < token.len() ==> #[trigger] token[i] < 0x80,
    ensures
        valid_utf8(token),
{
    assert(token.subrange(0, 0) =~= Seq::<u8>::empty());
    assert(vstd::utf8::partial_valid_utf8(token, 0));
    assert forall|i: int| 0 <= i < token.len() implies #[trigger] vstd::utf8::is_leading_byte_width_1(
        token[i],
    ) by {
        assert(token[i] < 0x80);
    }
    vstd::utf8::partial_valid_utf8_extend_ascii_block(token, 0, token.len() as int);
    assert(token.subrange(0, token.len() as int) =~= token);
}

/// A run of plain bytes that a line feed follows is one token.
proof fn lemma_token_found(bytes: Seq<u8>, i: int, n: int)
    requires
        0 <= i,
        1 <= n,
        i + n < bytes.len(),
        forall|k: int| i <= k < i + n ==> is_plain(#[trigger] bytes[k]),
        bytes[i + n] == LINE_FEED,
    ensures
        token_start(bytes, delimiters(), i) == i,
        i > 0 && bytes[i - 1] == LINE_FEED ==> token_start(bytes, delimiters(), i - 1) == i,
        token_end(bytes, delimiters(), i) == i + n,
        token_at(bytes, i) == Ok::<(Seq<u8>, int), PpmError>((bytes.subrange(i, i + n), i + n)),
        i > 0 && bytes[i - 1] == LINE_FEED ==> token_at(bytes, i - 1) == Ok::<(Seq<u8>, int), PpmError>(
            (bytes.subrange(i, i + n), i + n),
        ),
{
    lemma_delimiters(bytes[i]);
    assert(is_plain(bytes[i]));
    lemma_token_end_found(bytes, i, n);
    let token = bytes.subrange(i, i + n);
    assert forall|k: int| 0 <= k < token.len() implies #[trigger] token[k] < 0x80 by {
        assert(is_plain(bytes[i + k]));
    }
    lemma_ascii_is_utf8(token);
    if i > 0 && bytes[i - 1] == LINE_FEED {
        assert(scan_to_token(bytes, delimiters(), i - 1, false) == scan_to_token(
            bytes,
            delimiters(),
            i,
            false,
        ));
    }
}

/// A run of plain bytes ends at the delimiter behind it.
proof fn lemma_token_end_found(bytes: Seq<u8>, i: int, n: int)
    requires
        0 <= i,
        0 <= n,
        i + n < bytes.len(),
        forall|k: int| i <= k < i + n ==> is_plain(#[trigger] bytes[k]),
        bytes[i + n] == LINE_FEED,
    ensures
        token_end(bytes, delimiters(), i) == i + n,
    decreases n,
{
    lemma_delimiters(bytes[i]);
    if n > 0 {
        assert(is_plain(bytes[i]));
        lemma_token_end_found(bytes, i + 1, n - 1);
    }
}

/// The decimal digits of a number are digits, at least one, and write the
/// number.
pub proof fn lemma_decimal_writes(n: nat)
    ensures
        decimal(n).len() >= 1,
        all_digits(decimal(n)),
        digits_value(decimal(n)) == n,
        number_of(decimal(n)) == if n <= usize::MAX {
            Some(n)
        } else {
            None
        },
    decreases n,
{
    let d = decimal(n);
    if n < 10 {
        assert(d.drop_last() =~= Seq::<u8>::empty());
        assert(digits_value(d.drop_last()) == 0);
    } else {
        lemma_decimal_writes(n / 10);
        assert(d.drop_last() =~= decimal(n / 10));
    }
    assert(is_digit(d[0]));
    assert(unsigned_part(d) == d);
}

/// Encoding an image and decoding the bytes gives the image back.
pub proof fn lemma_encode_then_decode(image: PpmFile)
    requires
        image.wf(),
    ensures
        decoded(encoded(image)) == Ok::<(nat, nat, Seq<Pixel>), PpmError>(
            (image.width as nat, image.height as nat, image.pixels@),
        ),
{
    let w = image.width as nat;
    let h = image.height as nat;
    let m = image.max_val as nat;
    let bytes = encoded(image);
    let samples = samples_of(image.pixels@);
    let dw = decimal(w);
    let dh = decimal(h);
    let dm = decimal(m);
    lemma_decimal_writes(w);
    lemma_decimal_writes(h);
    lemma_decimal_writes(m);
    let a1 = 3int;
    let e1 = a1 + dw.len();
    let a2 = e1 + 1;
    let e2 = a2 + dh.len();
    let a3 = e2 + 1;
    let e3 = a3 + dm.len();
    let header = header_bytes(w, h, m);
    assert(header.len() == e3 + 1);
    assert(bytes.len() == e3 + 1 + samples.len());
    assert(bytes[0] == 0x50 && bytes[1] == 0x36 && bytes[2] == LINE_FEED);
    assert(bytes[e1] == LINE_FEED && bytes[e2] == LINE_FEED && bytes[e3] == LINE_FEED);
    assert(bytes.subrange(0, 2) =~= magic_word());
    assert(bytes.subrange(a1, e1) =~= dw);
    assert(bytes.subrange(a2, e2) =~= dh);
    assert(bytes.subrange(a3, e3) =~= dm);
    assert(bytes.subrange(e3 + 1, e3 + 1 + samples.len()) =~= samples);
    assert forall|k: int| a1 <= k < e1 implies is_plain(#[trigger] bytes[k]) by {
        assert(is_digit(dw[k - a1]));
    }
    assert forall|k: int| a2 <= k < e2 implies is_plain(#[trigger] bytes[k]) by {
        assert(is_digit(dh[k - a2]));
    }
    assert forall|k: int| a3 <= k < e3 implies is_plain(#[trigger] bytes[k]) by {
        assert(is_digit(dm[k - a3]));
    }
    lemma_token_found(bytes, 0, 2);
    lemma_token_found(bytes, a1, dw.len() as int);
    lemma_token_found(bytes, a2, dh.len() as int);
    lemma_token_found(bytes, a3, dm.len() as int);
    assert(token_at(bytes, 0) == Ok::<(Seq<u8>, int), PpmError>((magic_word(), 2)));
    assert(number_at(bytes, 2) == Ok::<(nat, int), PpmError>((w, e1)));
    assert(number_at(bytes, e1) == Ok::<(nat, int), PpmError>((h, e2)));
    assert(number_at(bytes, e2) == Ok::<(nat, int), PpmError>((m, e3)));
    assert(header_of(bytes) == Ok::<(nat, nat, int), PpmError>((w, h, e3 + 1)));
    assert(samples.len() == 3 * (w * h));
    lemma_pixels_of_samples(image.pixels@);
}

} // verus!
