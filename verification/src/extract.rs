//! The request that asks a model to read the text off one rendered page.
use vstd::prelude::*;
use base64::Engine;

verus! {

broadcast use vstd::string::group_string_axioms;

/// The instructions sent with every page image.
pub const EXTRACTION_PROMPT: &'static str = "Please extract all the raw text from the image, only the hebrew text \
יש עברית מרוקאית ועברית רגילה
שניהים מכילים אותו תוכן אבל אני רוצה שתוציא רק את העברית עברית.

אל תשנה שום מילה. שים לב שהמחבר כותב 'אל' מחובר — כלומר האות א' ואות ל' מחוברות זו לזו. \
בתמונה הראשונה תראה דוגמה: הטקסט שם הוא \"אלה וכאלה\", שים לב לצורת החיבור של א\"ל. \
כשתראה צורה כזו בטקסט, כתוב אותה כרגיל עם אלף ולמד.

- לפעמים המחבר משתמש ב `  או  '
כדי להמנע מכתיבת שמות קודש (נגיד אחרי י או ה) שים לב לזה ותתעלם מהניקודים הללו

- שים לב שלפעמים יש מילה אחרונה בעמוד שהיא בעצם שייכת לעמוד הבא (אופייני לטקסטים תורניים) אז אל תכלול אותה
בתוצאה. היא בדכ תהיה בindentation שונה מהשאר.
";

/// The character of a 6-bit value in the standard base64 alphabet
/// `A-Z a-z 0-9 + /` (RFC 4648).
pub open spec fn base64_digit(v: int) -> char {
    if v < 26 {
        (65 + v) as char
    } else if v < 52 {
        (97 + v - 26) as char
    } else if v < 62 {
        (48 + v - 52) as char
    } else if v == 62 {
        '+'
    } else {
        '/'
    }
}

/// The standard padded base64 encoding of `data`: each group of three bytes
/// becomes four characters of six bits each; a final group of one or two bytes
/// is filled with zero bits and padded with `=` to four characters.
pub open spec fn base64_standard(data: Seq<u8>) -> Seq<char>
    decreases data.len(),
{
    if data.len() == 0 {
        Seq::empty()
    } else if data.len() == 1 {
        let b0 = data[0] as int;
        seq![base64_digit(b0 / 4), base64_digit((b0 % 4) * 16), '=', '=']
    } else if data.len() == 2 {
        let b0 = data[0] as int;
        let b1 = data[1] as int;
        seq![base64_digit(b0 / 4), base64_digit((b0 % 4) * 16 + b1 / 16), base64_digit((b1 % 16) * 4), '=']
    } else {
        let b0 = data[0] as int;
        let b1 = data[1] as int;
        let b2 = data[2] as int;
        seq![
            base64_digit(b0 / 4),
            base64_digit((b0 % 4) * 16 + b1 / 16),
            base64_digit((b1 % 16) * 4 + b2 / 64),
            base64_digit(b2 % 64),
        ] + base64_standard(data.skip(3))
    }
}

/// The 6-bit value that a character of the standard base64 alphabet stands for.
pub open spec fn base64_value(c: char) -> int {
    let n = c as int;
    if 65 <= n <= 90 {
        n - 65
    } else if 97 <= n <= 122 {
        n - 71
    } else if 48 <= n <= 57 {
        n + 4
    } else if c == '+' {
        62
    } else {
        63
    }
}

/// Standard padded base64 decoding: each group of four characters gives three
/// bytes, or one byte before `==` and two before a single `=`.
pub open spec fn base64_decode(s: Seq<char>) -> Seq<u8>
    decreases s.len(),
{
    if s.len() < 4 {
        Seq::empty()
    } else {
        let v0 = base64_value(s[0]);
        let v1 = base64_value(s[1]);
        let v2 = base64_value(s[2]);
        let v3 = base64_value(s[3]);
        let b0 = (v0 * 4 + v1 / 16) as u8;
        let b1 = ((v1 % 16) * 16 + v2 / 4) as u8;
        let b2 = ((v2 % 4) * 64 + v3) as u8;
        if s[2] == '=' {
            seq![b0]
        } else if s[3] == '=' {
            seq![b0, b1]
        } else {
            seq![b0, b1, b2] + base64_decode(s.skip(4))
        }
    }
}

proof fn lemma_digit_value(v: int)
    requires
        0 <= v < 64,
    ensures
        base64_value(base64_digit(v)) == v,
        base64_digit(v) != '=',
{
}

proof fn lemma_group_bytes(b0: int, b1: int, b2: int)
    requires
        0 <= b0 < 256,
        0 <= b1 < 256,
        0 <= b2 < 256,
    ensures
        0 <= b0 / 4 < 64,
        0 <= (b0 % 4) * 16 + b1 / 16 < 64,
        0 <= (b1 % 16) * 4 + b2 / 64 < 64,
        0 <= b2 % 64 < 64,
        (b0 / 4) * 4 + ((b0 % 4) * 16 + b1 / 16) / 16 == b0,
        (((b0 % 4) * 16 + b1 / 16) % 16) * 16 + ((b1 % 16) * 4 + b2 / 64) / 4 == b1,
        (((b1 % 16) * 4 + b2 / 64) % 4) * 64 + b2 % 64 == b2,
{
    assert(0 <= (b0 % 4) * 16 + b1 / 16 < 64) by (nonlinear_arith)
        requires 0 <= b0 < 256, 0 <= b1 < 256;
    assert(0 <= (b1 % 16) * 4 + b2 / 64 < 64) by (nonlinear_arith)
        requires 0 <= b1 < 256, 0 <= b2 < 256;
    assert((b0 / 4) * 4 + ((b0 % 4) * 16 + b1 / 16) / 16 == b0) by (nonlinear_arith)
        requires 0 <= b0 < 256, 0 <= b1 < 256;
    assert((((b0 % 4) * 16 + b1 / 16) % 16) * 16 + ((b1 % 16) * 4 + b2 / 64) / 4 == b1) by (nonlinear_arith)
        requires 0 <= b0 < 256, 0 <= b1 < 256, 0 <= b2 < 256;
    assert((((b1 % 16) * 4 + b2 / 64) % 4) * 64 + b2 % 64 == b2) by (nonlinear_arith)
        requires 0 <= b1 < 256, 0 <= b2 < 256;
}

/// Law: decoding the standard padded base64 encoding of any bytes gives those
/// bytes back.
pub proof fn lemma_base64_round_trip(data: Seq<u8>)
    ensures
        base64_decode(base64_standard(data)) == data,
    decreases data.len(),
{
    let s = base64_standard(data);
    if data.len() == 0 {
    } else {
        let b0 = data[0] as int;
        let b1 = if data.len() >= 2 { data[1] as int } else { 0 };
        let b2 = if data.len() >= 3 { data[2] as int } else { 0 };
        lemma_group_bytes(b0, b1, b2);
        lemma_digit_value(b0 / 4);
        lemma_digit_value((b0 % 4) * 16 + b1 / 16);
        lemma_digit_value((b1 % 16) * 4 + b2 / 64);
        lemma_digit_value(b2 % 64);
        if data.len() == 1 {
            assert(b1 == 0);
            assert(base64_decode(s) =~= data);
        } else if data.len() == 2 {
            assert(b2 == 0);
            assert(base64_decode(s) =~= data);
        } else {
            lemma_base64_round_trip(data.skip(3));
            assert(s.skip(4) =~= base64_standard(data.skip(3)));
            assert(base64_decode(s) =~= seq![data[0], data[1], data[2]] + data.skip(3));
            assert(data =~= seq![data[0], data[1], data[2]] + data.skip(3));
        }
    }
}

/// The length of the padded base64 encoding of `n` bytes.
pub open spec fn base64_len(n: nat) -> nat {
    4 * ((n + 2) / 3)
}

/// Calls `base64::engine::general_purpose::STANDARD.encode` (the standard
/// alphabet with padding). Claimed: the result is `base64_standard(data)` and
/// has `base64_len` characters (as `base64::encoded_len` computes it). That
/// call panics when the length overflows `usize`, which `requires` excludes.
#[verifier::external_body]
fn encode_base64(data: &Vec<u8>) -> (r: String)
    requires
        base64_len(data@.len()) <= usize::MAX,
    ensures
        r@ == base64_standard(data@),
        r@.len() == base64_len(data@.len()),
{
    base64::engine::general_purpose::STANDARD.encode(data)
}

/// What is sent to the model for one page: the instructions, an example image
/// that shows the joined alef-lamed ligature, and the page itself, both images
/// as base64-encoded PNG.
pub struct ExtractionRequest {
    pub prompt: String,
    pub example_image_base64: String,
    pub page_image_base64: String,
}

/// Builds the request for one page from the PNG bytes of the page and of the example.
pub fn build_extraction_request(page_png: &Vec<u8>, example_png: &Vec<u8>) -> (r: ExtractionRequest)
    requires
        base64_len(page_png@.len()) <= usize::MAX,
        base64_len(example_png@.len()) <= usize::MAX,
    ensures
        r.prompt@ == EXTRACTION_PROMPT@,
        r.example_image_base64@ == base64_standard(example_png@),
        r.page_image_base64@ == base64_standard(page_png@),
        r.page_image_base64@.len() == base64_len(page_png@.len()),
        base64_decode(r.example_image_base64@) == example_png@,
        base64_decode(r.page_image_base64@) == page_png@,
{
    let page_image_base64 = encode_base64(page_png);
    let example_image_base64 = encode_base64(example_png);
    proof {
        lemma_base64_round_trip(page_png@);
        lemma_base64_round_trip(example_png@);
    }
    ExtractionRequest { prompt: String::from_str(EXTRACTION_PROMPT), example_image_base64, page_image_base64 }
}

} // verus!
