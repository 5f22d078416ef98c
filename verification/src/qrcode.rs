//! The QR symbol encoder of the `qrcodegen` crate, as the library sees it.
//!
//! Computing a QR symbol (segment modes, Reed-Solomon codes, masking) is the
//! outside crate's work and is not restated here: its result is named by
//! [`qr_encoding`], a function of the text and the error correction level.

use qrcodegen::{QrCode, QrCodeEcc};
use vstd::prelude::*;

verus! {

/// `qrcodegen::QrCode`, an encoded QR symbol.
#[verifier::external_type_specification]
#[verifier::external_body]
pub struct ExQrCode(QrCode);

/// The error correction levels of a QR symbol (`qrcodegen::QrCodeEcc`).
#[derive(Debug, Clone, Copy, PartialEq, Eq, Structural)]
pub enum Ecc {
    Low,
    Medium,
    Quartile,
    High,
}

/// The symbol that `QrCode::encode_text` makes of `text` at level `ecc`: its
/// side length and its modules row by row (`true` is dark), or `None` when the
/// text does not fit in any QR version.
pub uninterp spec fn qr_encoding(text: Seq<char>, ecc: Ecc) -> Option<(int, Seq<bool>)>;

/// The modules of a symbol, row by row.
pub uninterp spec fn qr_modules(code: QrCode) -> Seq<bool>;

/// The side length of a symbol, in modules.
pub uninterp spec fn qr_side(code: QrCode) -> int;

/// Calls `QrCode::encode_text`. Claimed: the result is the symbol that
/// [`qr_encoding`] names (an error exactly when it names none); a symbol's
/// side is between 21 and 177 and it has side * side modules (both stated in
/// the crate's source); the text always fits when it has at most 738
/// characters and the level is low (stated in the function's documentation).
/// The error text, `DataTooLong` in debug form, is not described.
#[verifier::external_body]
pub(crate) fn encode_text(text: &str, ecc: Ecc) -> (r: Result<QrCode, String>)
    ensures
        match r {
            Ok(code) => {
                &&& qr_encoding(text@, ecc) == Some((qr_side(code), qr_modules(code)))
                &&& 21 <= qr_side(code) <= 177
                &&& qr_modules(code).len() == qr_side(code) * qr_side(code)
            },
            Err(_) => qr_encoding(text@, ecc) is None,
        },
        ecc == Ecc::Low && text@.len() <= 738 ==> r is Ok,
{
    let level = match ecc {
        Ecc::Low => QrCodeEcc::Low,
        Ecc::Medium => QrCodeEcc::Medium,
        Ecc::Quartile => QrCodeEcc::Quartile,
        Ecc::High => QrCodeEcc::High,
    };
    match QrCode::encode_text(text, level) {
        Ok(code) => Ok(code),
        Err(e) => Err(format!("{:?}", e)),
    }
}

/// `QrCode::size` returns the side length of the symbol.
pub assume_specification[ QrCode::size ](code: &QrCode) -> (r: i32)
    ensures
        r == qr_side(*code),
;

/// `QrCode::get_module` returns the module at column `x`, row `y`, and light
/// (`false`) outside the symbol.
pub assume_specification[ QrCode::get_module ](code: &QrCode, x: i32, y: i32) -> (r: bool)
    ensures
        r == (0 <= x < qr_side(*code) && 0 <= y < qr_side(*code) && qr_modules(*code)[y
            * qr_side(*code) + x]),
;

} // verus!
