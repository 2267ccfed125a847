//! Encoding detection and decoding of raw file bytes to canonical
//! UTF-8 text.
//!
//! Detection is a heuristic over the file's content; an unrecognized
//! label falls back to UTF-8, and malformed byte sequences decode to
//! replacement characters. Neither step rejects input: bytes on which
//! the detector itself can reach no verdict (see `detectable`) skip
//! detection and decode under the default label.

use vstd::prelude::*;

verus! {

/// A byte that steers content detection toward a high-byte encoding:
/// its high bit is set and it is not the no-break-space byte.
pub open spec fn is_high_byte(b: u8) -> bool {
    b >= 128 && b != 160
}

/// The inputs on which content detection may be asked. ASCII text that
/// holds an escape byte but no high byte ends detection undecided
/// between the escape-sequence encodings, a state the detector cannot
/// report, so the pipeline decodes such input under the default label
/// without asking it.
pub open spec fn detectable(raw: Seq<u8>) -> bool {
    (exists|i: int| 0 <= i < raw.len() && raw[i] == 27) ==> (exists|i: int|
        0 <= i < raw.len() && is_high_byte(raw[i]))
}

/// Whether content detection may be asked of these bytes; any other
/// input decodes under the default label.
pub fn is_detectable(raw: &Vec<u8>) -> (r: bool)
    ensures
        r == detectable(raw@),
{
    let mut has_esc = false;
    let mut has_high = false;
    let mut i: usize = 0;
    while i < raw.len()
        invariant
            i <= raw@.len(),
            has_esc == exists|j: int| 0 <= j < i && raw@[j] == 27,
            has_high == exists|j: int| 0 <= j < i && is_high_byte(#[trigger] raw@[j]),
        decreases raw@.len() - i,
    {
        let b = raw[i];
        let ghost at = i as int;
        let ghost esc_before = has_esc;
        let ghost high_before = has_high;
        if b == 27 {
            has_esc = true;
        }
        if b >= 128 && b != 160 {
            has_high = true;
        }
        proof {
            assert(raw@[at] == b);
            if has_esc {
                if b == 27 {
                    assert(exists|j: int| 0 <= j < i + 1 && raw@[j] == 27);
                } else {
                    let w = choose|j: int| 0 <= j < i && raw@[j] == 27;
                    assert(0 <= w < i + 1 && raw@[w] == 27);
                }
            } else {
                if exists|j: int| 0 <= j < i + 1 && raw@[j] == 27 {
                    let w = choose|j: int| 0 <= j < i + 1 && raw@[j] == 27;
                    assert(w == at);
                    assert(false);
                }
            }
            if has_high {
                if is_high_byte(b) {
                    assert(exists|j: int| 0 <= j < i + 1 && is_high_byte(#[trigger] raw@[j]));
                } else {
                    let w = choose|j: int| 0 <= j < i && is_high_byte(#[trigger] raw@[j]);
                    assert(0 <= w < i + 1 && is_high_byte(raw@[w]));
                }
            } else {
                if exists|j: int| 0 <= j < i + 1 && is_high_byte(#[trigger] raw@[j]) {
                    let w = choose|j: int| 0 <= j < i + 1 && is_high_byte(#[trigger] raw@[j]);
                    assert(w == at);
                    assert(false);
                }
            }
        }
        i = i + 1;
    }
    !has_esc || has_high
}

/// The charset label that content-based detection assigns to `raw`.
pub uninterp spec fn detected_label_of(raw: Seq<u8>) -> Seq<char>;

/// The canonical UTF-8 text obtained by decoding `raw` under the
/// encoding named by `label` (the UTF-8 fallback when the label names
/// no known encoding).
pub uninterp spec fn decoded_of(label: Seq<char>, raw: Seq<u8>) -> Seq<u8>;

/// Relies on chardet::detect: the guessed charset label is computed
/// from the given bytes alone, over a fixed prober list and static
/// tables. Its closing step panics when the input left it in the
/// escape-sequence state without a verdict — ASCII text holding an
/// escape byte but no high byte — so the requires keeps such input out.
#[verifier::external_body]
fn detect_label(raw: &Vec<u8>) -> (r: String)
    requires
        detectable(raw@),
    ensures
        r@ == detected_label_of(raw@),
{
    chardet::detect(raw.as_slice()).0
}

/// Relies on encoding_rs: Encoding::for_label resolves a charset label,
/// UTF-8 standing in when the label is unknown, and Encoding::decode
/// transcodes the bytes to UTF-8 text, substituting the replacement
/// character for malformed sequences; both are computed from the label
/// and the bytes alone. Decoding no bytes yields no text. The length
/// bound keeps the decoder's buffer-size computation, which panics on
/// overflow, in range.
#[verifier::external_body]
fn decode_with_label(label: &String, raw: &Vec<u8>) -> (r: Vec<u8>)
    requires
        4 * raw@.len() <= usize::MAX,
    ensures
        r@ == decoded_of(label@, raw@),
        raw@.len() == 0 ==> r@.len() == 0,
{
    let encoding = encoding_rs::Encoding::for_label(label.as_bytes()).unwrap_or(
        encoding_rs::UTF_8,
    );
    let (text, _, _) = encoding.decode(raw.as_slice());
    text.into_owned().into_bytes()
}

/// The label the pipeline falls back to when content detection cannot
/// be asked: the canonical text encoding itself.
pub open spec fn default_label() -> Seq<char> {
    "utf-8"@
}

/// The canonical text that the detect-then-decode front end produces
/// from raw input bytes: input the detector accepts decodes under the
/// detected label, any other input under the default label.
pub open spec fn canonical_text_of(raw: Seq<u8>) -> Seq<u8> {
    if detectable(raw) {
        decoded_of(detected_label_of(raw), raw)
    } else {
        decoded_of(default_label(), raw)
    }
}

/// Decode raw file bytes to canonical text, detecting their encoding
/// from the content itself; input the detector cannot classify is
/// decoded under the default label instead, never rejected.
pub fn decode_detected(raw: &Vec<u8>) -> (r: Vec<u8>)
    requires
        4 * raw@.len() <= usize::MAX,
    ensures
        r@ == canonical_text_of(raw@),
        raw@.len() == 0 ==> r@.len() == 0,
{
    if is_detectable(raw) {
        let label = detect_label(raw);
        decode_with_label(&label, raw)
    } else {
        let label: String = "utf-8".to_owned();
        decode_with_label(&label, raw)
    }
}

} // verus!
