//! The pairing payload and its QR renderings (terminal, SVG, PNG pixels).

use vstd::prelude::*;

use crate::error::{AppError, ErrorKind};
use crate::qrcode::{encode_text, qr_encoding, Ecc};
use crate::random::choose_char;
use crate::text::{
    contains_text, decimal, lemma_lines_append, lemma_single_line, lines, occurs_at,
    push_decimal, str_chars, strip_cr, trim,
};

verus! {

/// The characters of generated service names.
pub const SERVICE_ALPHABET: &'static str = "abcdefghijklmnopqrstuvwxyzABCDEFGHIJKLMNOPQRSTUVWXYZ0123456789";

/// The characters of generated secrets (no look-alikes such as `0`/`O`).
pub const SECRET_ALPHABET: &'static str = "ABCDEFGHJKLMNPQRSTUVWXYZabcdefghijkmnopqrstuvwxyz23456789";

/// How generated service names start.
pub const SERVICE_PREFIX: &'static str = "studio-";

/// Random characters after [`SERVICE_PREFIX`].
pub const SERVICE_RANDOM_LEN: usize = 10;

/// Length of a generated secret.
pub const SECRET_LEN: usize = 16;

// ---------------------------------------------------------------------------
// Payload
// ---------------------------------------------------------------------------

/// The Wi-Fi QR text that starts ADB pairing with a service and a secret.
pub open spec fn payload_text(service_name: Seq<char>, secret: Seq<char>) -> Seq<char> {
    "WIFI:T:ADB;S:"@ + service_name + ";P:"@ + secret + ";;"@
}

/// The QR payload for a pairing service name and secret.
pub fn build_payload(service_name: &str, secret: &str) -> (r: String)
    ensures
        r@ == payload_text(service_name@, secret@),
{
    let mut r = String::new();
    r.push_str("WIFI:T:ADB;S:");
    r.push_str(service_name);
    r.push_str(";P:");
    r.push_str(secret);
    r.push_str(";;");
    proof {
        assert(seq![] + "WIFI:T:ADB;S:"@ =~= "WIFI:T:ADB;S:"@);
    }
    r
}

/// `length` characters, each drawn from `alphabet`.
pub open spec fn drawn_from(s: Seq<char>, length: nat, alphabet: Seq<char>) -> bool {
    s.len() == length && forall|i: int| 0 <= i < s.len() ==> alphabet.contains(#[trigger] s[i])
}

/// A random string of `length` characters of `alphabet`.
pub fn random_string(length: usize, alphabet: &str) -> (r: String)
    requires
        length > 0 ==> alphabet@.len() > 0,
    ensures
        drawn_from(r@, length as nat, alphabet@),
{
    let chars = str_chars(alphabet);
    let mut rng = rand::thread_rng();
    let mut r = String::new();
    let mut i: usize = 0;
    while i < length
        invariant
            i <= length,
            chars@ == alphabet@,
            length > 0 ==> chars@.len() > 0,
            drawn_from(r@, i as nat, alphabet@),
        decreases length - i,
    {
        match choose_char(chars.as_slice(), &mut rng) {
            Some(c) => {
                r.push(c);
            },
            None => {
                return r;
            },
        }
        i += 1;
    }
    r
}

/// A pairing service name and secret, and the QR payload that carries them.
#[derive(Debug)]
pub struct PairingPayload {
    pub service_name: String,
    pub secret: String,
    pub payload: String,
}

/// An override is used when it is given and not blank.
pub open spec fn usable(o: Option<String>) -> bool {
    o matches Some(s) && trim(s@).len() > 0
}

fn pick(given: Option<String>, prefix: &str, length: usize, alphabet: &str) -> (r: String)
    requires
        alphabet@.len() > 0,
    ensures
        if usable(given) {
            r@ == given->0@
        } else {
            prefix@.is_prefix_of(r@) && drawn_from(
                r@.skip(prefix@.len() as int),
                length as nat,
                alphabet@,
            )
        },
{
    match given {
        Some(s) => {
            if !crate::text::is_blank(s.as_str()) {
                return s;
            }
        },
        None => {},
    }
    let tail = random_string(length, alphabet);
    let mut r = String::new();
    r.push_str(prefix);
    r.push_str(tail.as_str());
    proof {
        assert(r@.skip(prefix@.len() as int) =~= tail@);
        assert(r@.subrange(0, prefix@.len() as int) =~= prefix@);
    }
    r
}

impl PairingPayload {
    /// A payload for a new pairing session. The service name and the secret
    /// are the overrides when those are given and not blank, and random
    /// otherwise: `studio-` and 10 characters of [`SERVICE_ALPHABET`], and
    /// 16 characters of [`SECRET_ALPHABET`].
    pub fn generate(
        service_name_override: Option<String>,
        secret_override: Option<String>,
    ) -> (p: PairingPayload)
        ensures
            if usable(service_name_override) {
                p.service_name@ == service_name_override->0@
            } else {
                SERVICE_PREFIX@.is_prefix_of(p.service_name@) && drawn_from(
                    p.service_name@.skip(SERVICE_PREFIX@.len() as int),
                    SERVICE_RANDOM_LEN as nat,
                    SERVICE_ALPHABET@,
                )
            },
            if usable(secret_override) {
                p.secret@ == secret_override->0@
            } else {
                drawn_from(p.secret@, SECRET_LEN as nat, SECRET_ALPHABET@)
            },
            p.payload@ == payload_text(p.service_name@, p.secret@),
    {
        proof {
            reveal_strlit("abcdefghijklmnopqrstuvwxyzABCDEFGHIJKLMNOPQRSTUVWXYZ0123456789");
            reveal_strlit("ABCDEFGHJKLMNPQRSTUVWXYZabcdefghijkmnopqrstuvwxyz23456789");
            reveal_strlit("");
        }
        let service_name = pick(
            service_name_override,
            SERVICE_PREFIX,
            SERVICE_RANDOM_LEN,
            SERVICE_ALPHABET,
        );
        let secret = pick(secret_override, "", SECRET_LEN, SECRET_ALPHABET);
        proof {
            assert(secret@.skip(0) =~= secret@);
        }
        let payload = build_payload(service_name.as_str(), secret.as_str());
        PairingPayload { service_name, secret, payload }
    }
}

// ---------------------------------------------------------------------------
// Module matrix
// ---------------------------------------------------------------------------

/// Module `(x, y)` of a `side`-wide grid held row by row is dark; everything
/// outside the grid is light.
pub open spec fn dark(side: int, cells: Seq<bool>, x: int, y: int) -> bool {
    0 <= x < side && 0 <= y < side && cells[y * side + x]
}

/// The modules of a QR symbol: a square of at most 177 modules per side,
/// held row by row.
#[derive(Debug)]
pub struct QrMatrix {
    size: i32,
    modules: Vec<bool>,
}

impl QrMatrix {
    #[verifier::type_invariant]
    spec fn shaped(self) -> bool {
        &&& 0 <= self.size <= 177
        &&& self.modules@.len() == self.size * self.size
    }

    /// Modules per side.
    pub closed spec fn side(self) -> int {
        self.size as int
    }

    /// The modules, row by row.
    pub closed spec fn cells(self) -> Seq<bool> {
        self.modules@
    }

    /// A matrix of the given side and modules, if they form a square of at
    /// most 177 modules per side.
    pub fn from_modules(size: i32, modules: Vec<bool>) -> (r: Option<QrMatrix>)
        ensures
            r is Some <==> (0 <= size <= 177 && modules@.len() == size * size),
            r matches Some(m) ==> m.side() == size && m.cells() == modules@,
    {
        if size < 0 || size > 177 {
            return None;
        }
        proof {
            lemma_square_small(size as int);
        }
        let total = (size as usize) * (size as usize);
        if modules.len() != total {
            return None;
        }
        Some(QrMatrix { size, modules })
    }

    /// Modules per side.
    pub fn size(&self) -> (r: i32)
        ensures
            r == self.side(),
            0 <= r <= 177,
    {
        proof {
            use_type_invariant(self);
        }
        self.size
    }

    /// Module `(x, y)` is dark; light outside the grid.
    pub fn get_module(&self, x: i32, y: i32) -> (r: bool)
        ensures
            r == dark(self.side(), self.cells(), x as int, y as int),
    {
        proof {
            use_type_invariant(self);
        }
        if x < 0 || y < 0 || x >= self.size || y >= self.size {
            return false;
        }
        proof {
            lemma_cell_index(self.size as int, x as int, y as int);
            lemma_square_small(self.size as int);
            assert((y as usize) * (self.size as usize) == y * self.size) by (nonlinear_arith)
                requires
                    0 <= y < self.size <= 177,
            ;
        }
        let i = (y as usize) * (self.size as usize) + (x as usize);
        self.modules[i]
    }
}

proof fn lemma_square_small(side: int)
    requires
        0 <= side <= 177,
    ensures
        side * side <= 31329,
{
    assert(side * side <= 31329) by (nonlinear_arith)
        requires
            0 <= side <= 177,
    ;
}

proof fn lemma_cell_index(side: int, x: int, y: int)
    requires
        0 <= x < side,
        0 <= y < side,
    ensures
        0 <= y * side + x < side * side,
{
    assert(0 <= y * side + x < side * side) by (nonlinear_arith)
        requires
            0 <= x < side,
            0 <= y < side,
    ;
}

/// Encodes the payload as a QR symbol with low error correction.
pub fn encode(payload: &str) -> (r: Result<QrMatrix, AppError>)
    ensures
        match r {
            Ok(m) => qr_encoding(payload@, Ecc::Low) == Some((m.side(), m.cells())),
            Err(e) => qr_encoding(payload@, Ecc::Low) is None && e.kind == ErrorKind::Internal
                && "failed to encode QR payload: "@.is_prefix_of(e.message@),
        },
        payload@.len() <= 738 ==> r is Ok,
{
    let code = match encode_text(payload, Ecc::Low) {
        Ok(code) => code,
        Err(detail) => {
            let mut m = String::new();
            m.push_str("failed to encode QR payload: ");
            m.push_str(detail.as_str());
            proof {
                assert(m@.subrange(0, "failed to encode QR payload: "@.len() as int)
                    =~= "failed to encode QR payload: "@);
            }
            return Err(AppError::internal(m));
        },
    };
    let size = code.size();
    let ghost all = crate::qrcode::qr_modules(code);
    let mut modules: Vec<bool> = Vec::new();
    let mut y: i32 = 0;
    while y < size
        invariant
            0 <= y <= size <= 177,
            size == crate::qrcode::qr_side(code),
            all == crate::qrcode::qr_modules(code),
            all.len() == size * size,
            modules@.len() == y * size,
            modules@ =~= all.take(modules@.len() as int),
        decreases size - y,
    {
        let mut x: i32 = 0;
        while x < size
            invariant
                0 <= y < size <= 177,
                0 <= x <= size,
                size == crate::qrcode::qr_side(code),
                all == crate::qrcode::qr_modules(code),
                all.len() == size * size,
                modules@.len() == y * size + x,
                modules@ =~= all.take(modules@.len() as int),
            decreases size - x,
        {
            proof {
                lemma_cell_index(size as int, x as int, y as int);
            }
            let dark = code.get_module(x, y);
            modules.push(dark);
            x += 1;
        }
        proof {
            assert(y * size + size == (y + 1) * size) by (nonlinear_arith);
        }
        y += 1;
    }
    proof {
        assert(all.take(all.len() as int) =~= all);
    }
    Ok(QrMatrix { size, modules })
}

// ---------------------------------------------------------------------------
// Terminal rendering
// ---------------------------------------------------------------------------

/// Light modules around the symbol, on every side.
pub const TERMINAL_BORDER: i32 = 4;

/// A cell whose two modules are light.
pub const TERMINAL_LIGHT: &'static str = "\x1b[48;2;255;255;255m ";

/// A cell whose two modules are dark.
pub const TERMINAL_DARK: &'static str = "\x1b[48;2;0;0;0m ";

/// A cell whose upper module is dark and lower one light.
pub const TERMINAL_DARK_TOP: &'static str = "\x1b[38;2;0;0;0;48;2;255;255;255m▀";

/// A cell whose upper module is light and lower one dark.
pub const TERMINAL_DARK_BOTTOM: &'static str = "\x1b[38;2;255;255;255;48;2;0;0;0m▀";

/// Ends each line of cells.
pub const TERMINAL_RESET: &'static str = "\x1b[0m";

/// The cell that shows an upper and a lower module.
pub open spec fn glyph(top: bool, bottom: bool) -> Seq<char> {
    if !top && !bottom {
        TERMINAL_LIGHT@
    } else if top && bottom {
        TERMINAL_DARK@
    } else if top {
        TERMINAL_DARK_TOP@
    } else {
        TERMINAL_DARK_BOTTOM@
    }
}

/// The first `n` cells of the line showing module rows `top` and `top + 1`,
/// starting at column `-TERMINAL_BORDER`.
pub open spec fn terminal_cells(side: int, cells: Seq<bool>, top: int, n: nat) -> Seq<char>
    decreases n,
{
    if n == 0 {
        seq![]
    } else {
        let x = n - 1 - TERMINAL_BORDER;
        terminal_cells(side, cells, top, (n - 1) as nat) + glyph(
            dark(side, cells, x, top),
            dark(side, cells, x, top + 1),
        )
    }
}

/// The line showing module rows `top` and `top + 1`, border included.
pub open spec fn terminal_line(side: int, cells: Seq<bool>, top: int) -> Seq<char> {
    terminal_cells(side, cells, top, (side + 2 * TERMINAL_BORDER) as nat) + TERMINAL_RESET@
        + seq!['\n']
}

/// The first `n` lines, the first one starting at row `-TERMINAL_BORDER`.
pub open spec fn terminal_lines(side: int, cells: Seq<bool>, n: nat) -> Seq<char>
    decreases n,
{
    if n == 0 {
        seq![]
    } else {
        terminal_lines(side, cells, (n - 1) as nat) + terminal_line(
            side,
            cells,
            2 * (n - 1) - TERMINAL_BORDER,
        )
    }
}

/// The number of text lines for a symbol: two module rows per line.
pub open spec fn terminal_line_count(side: int) -> nat {
    ((side + 2 * TERMINAL_BORDER + 1) / 2) as nat
}

/// The whole terminal picture of a symbol with its border.
pub open spec fn terminal_art(side: int, cells: Seq<bool>) -> Seq<char> {
    terminal_lines(side, cells, terminal_line_count(side))
}

/// Draws the matrix with two module rows per text line.
pub fn render_terminal_matrix(m: &QrMatrix) -> (r: String)
    ensures
        r@ == terminal_art(m.side(), m.cells()),
        lines(r@).len() == terminal_line_count(m.side()),
        forall|k: int|
            0 <= k < terminal_line_count(m.side()) ==> #[trigger] lines(r@)[k] == stacked_cells(
                m.side(),
                m.cells(),
                k,
            ).flatten() + TERMINAL_RESET@,
{
    let size = m.size();
    let mut output = String::new();
    let start = -TERMINAL_BORDER;
    let end = size + TERMINAL_BORDER;
    let mut top_y = start;
    let ghost mut n: nat = 0;
    while top_y < end
        invariant
            size == m.side(),
            0 <= size <= 177,
            start == -TERMINAL_BORDER,
            end == size + TERMINAL_BORDER,
            top_y == 2 * n - TERMINAL_BORDER,
            top_y <= end + 1,
            output@ == terminal_lines(m.side(), m.cells(), n),
        decreases end + 1 - top_y,
    {
        let ghost before = output@;
        let mut x = -TERMINAL_BORDER;
        while x < size + TERMINAL_BORDER
            invariant
                size == m.side(),
                0 <= size <= 177,
                -TERMINAL_BORDER <= x <= size + TERMINAL_BORDER,
                top_y < end,
                output@ == before + terminal_cells(
                    m.side(),
                    m.cells(),
                    top_y as int,
                    (x + TERMINAL_BORDER) as nat,
                ),
            decreases size + TERMINAL_BORDER - x,
        {
            let top_dark = m.get_module(x, top_y);
            let bottom_dark = m.get_module(x, top_y + 1);
            let cell = if !top_dark && !bottom_dark {
                TERMINAL_LIGHT
            } else if top_dark && bottom_dark {
                TERMINAL_DARK
            } else if top_dark {
                TERMINAL_DARK_TOP
            } else {
                TERMINAL_DARK_BOTTOM
            };
            output.push_str(cell);
            x += 1;
        }
        output.push_str(TERMINAL_RESET);
        output.push('\n');
        proof {
            n = n + 1;
        }
        top_y += 2;
    }
    proof {
        lemma_terminal_lines_show_vertical_pairs(m.side(), m.cells());
    }
    output
}

/// Encodes the payload and draws it for a terminal.
pub fn render_terminal(payload: &str) -> (r: Result<String, AppError>)
    ensures
        match (r, qr_encoding(payload@, Ecc::Low)) {
            (Ok(t), Some(code)) => t@ == terminal_art(code.0, code.1),
            (Err(e), None) => e.kind == ErrorKind::Internal
                && "failed to encode QR payload: "@.is_prefix_of(e.message@),
            _ => false,
        },
        payload@.len() <= 738 ==> r is Ok,
{
    let qr = encode(payload)?;
    Ok(render_terminal_matrix(&qr))
}

proof fn lemma_glyph_has_no_newline(top: bool, bottom: bool)
    ensures
        forall|i: int| 0 <= i < glyph(top, bottom).len() ==> glyph(top, bottom)[i] != '\n',
{
    reveal_strlit("\x1b[48;2;255;255;255m ");
    reveal_strlit("\x1b[48;2;0;0;0m ");
    reveal_strlit("\x1b[38;2;0;0;0;48;2;255;255;255m▀");
    reveal_strlit("\x1b[38;2;255;255;255;48;2;0;0;0m▀");
}

proof fn lemma_cells_have_no_newline(side: int, cells: Seq<bool>, top: int, n: nat)
    ensures
        forall|i: int|
            0 <= i < terminal_cells(side, cells, top, n).len() ==> terminal_cells(
                side,
                cells,
                top,
                n,
            )[i] != '\n',
    decreases n,
{
    if n > 0 {
        let x = n - 1 - TERMINAL_BORDER;
        let g = glyph(dark(side, cells, x, top), dark(side, cells, x, top + 1));
        let prev = terminal_cells(side, cells, top, (n - 1) as nat);
        lemma_cells_have_no_newline(side, cells, top, (n - 1) as nat);
        lemma_glyph_has_no_newline(dark(side, cells, x, top), dark(side, cells, x, top + 1));
        assert forall|i: int| 0 <= i < (prev + g).len() implies (prev + g)[i] != '\n' by {
            if i >= prev.len() {
                assert((prev + g)[i] == g[i - prev.len()]);
            }
        }
    }
}

proof fn lemma_terminal_lines_count(side: int, cells: Seq<bool>, n: nat)
    ensures
        lines(terminal_lines(side, cells, n)).len() == n,
        n > 0 ==> terminal_lines(side, cells, n).last() == '\n',
    decreases n,
{
    if n == 0 {
        assert(lines(seq![]) =~= seq![]);
    } else {
        let prev = terminal_lines(side, cells, (n - 1) as nat);
        let top = 2 * (n - 1) - TERMINAL_BORDER;
        let body = terminal_cells(side, cells, top, (side + 2 * TERMINAL_BORDER) as nat)
            + TERMINAL_RESET@;
        lemma_terminal_lines_count(side, cells, (n - 1) as nat);
        lemma_cells_have_no_newline(side, cells, top, (side + 2 * TERMINAL_BORDER) as nat);
        reveal_strlit("\x1b[0m");
        let c = terminal_cells(side, cells, top, (side + 2 * TERMINAL_BORDER) as nat);
        assert forall|i: int| 0 <= i < body.len() implies body[i] != '\n' by {
            if i >= c.len() {
                assert(body[i] == TERMINAL_RESET@[i - c.len()]);
            } else {
                assert(body[i] == c[i]);
            }
        }
        lemma_single_line(body);
        assert(terminal_line(side, cells, top) =~= body + seq!['\n']);
        lemma_lines_append(prev, body + seq!['\n']);
    }
}

/// The terminal picture packs two module rows into each text line: it has
/// `(side + 2 * border + 1) / 2` lines.
pub proof fn lemma_terminal_two_rows_per_line(side: int, cells: Seq<bool>)
    ensures
        lines(terminal_art(side, cells)).len() == terminal_line_count(side),
{
    lemma_terminal_lines_count(side, cells, terminal_line_count(side));
}

// ---------------------------------------------------------------------------
// SVG rendering
// ---------------------------------------------------------------------------

/// Pixels per module in the SVG picture.
pub const SVG_SCALE: i32 = 8;

/// Light modules around the symbol in the SVG and PNG pictures.
pub const IMAGE_BORDER: i32 = 4;

/// The SVG document up to the view box size.
pub const SVG_HEAD: &'static str = "<?xml version=\"1.0\" encoding=\"UTF-8\"?>\n<svg xmlns=\"http://www.w3.org/2000/svg\" version=\"1.1\" viewBox=\"0 0 ";

/// The SVG document from the view box size up to the path data.
pub const SVG_BODY: &'static str = "\">\n  <rect width=\"100%\" height=\"100%\" fill=\"#ffffff\"/>\n  <path d=\"";

/// The SVG document after the path data.
pub const SVG_TAIL: &'static str = "\" fill=\"#000000\"/>\n</svg>\n";

/// The path step that paints dark module `(x, y)` as a square.
pub open spec fn svg_square(x: int, y: int) -> Seq<char> {
    "M"@ + decimal(((x + IMAGE_BORDER) * SVG_SCALE) as nat) + ","@ + decimal(
        ((y + IMAGE_BORDER) * SVG_SCALE) as nat,
    ) + "h"@ + decimal(SVG_SCALE as nat) + "v"@ + decimal(SVG_SCALE as nat) + "h-"@ + decimal(
        SVG_SCALE as nat,
    ) + "z"@
}

/// The squares of the dark modules among the first `n` of row `y`.
pub open spec fn svg_row(side: int, cells: Seq<bool>, y: int, n: nat) -> Seq<char>
    decreases n,
{
    if n == 0 {
        seq![]
    } else {
        let x = n - 1;
        svg_row(side, cells, y, (n - 1) as nat) + if dark(side, cells, x, y) {
            svg_square(x, y)
        } else {
            seq![]
        }
    }
}

/// The squares of the dark modules of the first `n` rows.
pub open spec fn svg_rows(side: int, cells: Seq<bool>, n: nat) -> Seq<char>
    decreases n,
{
    if n == 0 {
        seq![]
    } else {
        svg_rows(side, cells, (n - 1) as nat) + svg_row(side, cells, n - 1, side as nat)
    }
}

/// Width and height of the pictures, in pixels.
pub open spec fn picture_size(side: int) -> int {
    (side + 2 * IMAGE_BORDER) * SVG_SCALE
}

/// The SVG document of a symbol.
pub open spec fn svg_document(side: int, cells: Seq<bool>) -> Seq<char> {
    SVG_HEAD@ + decimal(picture_size(side) as nat) + " "@ + decimal(picture_size(side) as nat)
        + SVG_BODY@ + svg_rows(side, cells, side as nat) + SVG_TAIL@
}

/// Draws the matrix as an SVG document.
pub fn render_svg_matrix(m: &QrMatrix) -> (r: String)
    ensures
        r@ == svg_document(m.side(), m.cells()),
        r@ == SVG_HEAD@ + decimal(picture_size(m.side()) as nat) + " "@ + decimal(
            picture_size(m.side()) as nat,
        ) + SVG_BODY@ + Seq::new(
            m.side() as nat,
            |y: int| row_paints(m.side(), m.cells(), y).flatten(),
        ).flatten() + SVG_TAIL@,
{
    let size = m.size();
    let border = IMAGE_BORDER;
    let dimension = (size + border * 2) * SVG_SCALE;
    let mut path = String::new();
    let mut y: i32 = 0;
    while y < size
        invariant
            size == m.side(),
            0 <= size <= 177,
            border == IMAGE_BORDER,
            0 <= y <= size,
            path@ == svg_rows(m.side(), m.cells(), y as nat),
        decreases size - y,
    {
        let ghost before = path@;
        let mut x: i32 = 0;
        while x < size
            invariant
                size == m.side(),
                0 <= size <= 177,
                border == IMAGE_BORDER,
                0 <= y < size,
                0 <= x <= size,
                path@ == before + svg_row(m.side(), m.cells(), y as int, x as nat),
            decreases size - x,
        {
            if m.get_module(x, y) {
                let x_pos = (x + border) * SVG_SCALE;
                let y_pos = (y + border) * SVG_SCALE;
                path.push_str("M");
                push_decimal(&mut path, x_pos as u32);
                path.push_str(",");
                push_decimal(&mut path, y_pos as u32);
                path.push_str("h");
                push_decimal(&mut path, SVG_SCALE as u32);
                path.push_str("v");
                push_decimal(&mut path, SVG_SCALE as u32);
                path.push_str("h-");
                push_decimal(&mut path, SVG_SCALE as u32);
                path.push_str("z");
                proof {
                    assert(path@ =~= before + svg_row(m.side(), m.cells(), y as int, x as nat)
                        + svg_square(x as int, y as int));
                }
            }
            x += 1;
        }
        y += 1;
    }
    let mut doc = String::new();
    doc.push_str(SVG_HEAD);
    push_decimal(&mut doc, dimension as u32);
    doc.push_str(" ");
    push_decimal(&mut doc, dimension as u32);
    doc.push_str(SVG_BODY);
    doc.push_str(path.as_str());
    doc.push_str(SVG_TAIL);
    proof {
        assert(seq![] + SVG_HEAD@ =~= SVG_HEAD@);
        assert(doc@ =~= svg_document(m.side(), m.cells()));
        lemma_svg_path_paints_dark_modules(m.side(), m.cells());
    }
    doc
}

/// Encodes the payload and draws it as an SVG document.
pub fn render_svg(payload: &str) -> (r: Result<String, AppError>)
    ensures
        match (r, qr_encoding(payload@, Ecc::Low)) {
            (Ok(t), Some(code)) => t@ == svg_document(code.0, code.1),
            (Err(e), None) => e.kind == ErrorKind::Internal
                && "failed to encode QR payload: "@.is_prefix_of(e.message@),
            _ => false,
        },
        payload@.len() <= 738 ==> r is Ok,
{
    let qr = encode(payload)?;
    Ok(render_svg_matrix(&qr))
}

// ---------------------------------------------------------------------------
// PNG pixels
// ---------------------------------------------------------------------------

/// Pixels per module in the PNG picture.
pub const PNG_SCALE: u32 = 8;

/// Pixel `(x, y)` of the PNG picture lies on a dark module.
pub open spec fn png_dark(side: int, cells: Seq<bool>, x: int, y: int) -> bool {
    let qx = x / PNG_SCALE as int;
    let qy = y / PNG_SCALE as int;
    qx >= IMAGE_BORDER && qy >= IMAGE_BORDER && qx < side + IMAGE_BORDER && qy < side
        + IMAGE_BORDER && dark(side, cells, qx - IMAGE_BORDER, qy - IMAGE_BORDER)
}

/// The grey level of pixel `(x, y)`: black on dark modules, white elsewhere.
pub open spec fn png_shade(side: int, cells: Seq<bool>, x: int, y: int) -> u8 {
    if png_dark(side, cells, x, y) {
        0
    } else {
        255
    }
}

/// The first `n` pixels of row `y`.
pub open spec fn png_row(side: int, cells: Seq<bool>, y: int, n: nat) -> Seq<u8> {
    Seq::new(n, |x: int| png_shade(side, cells, x, y))
}

/// The first `n` rows of a `width`-wide picture, row after row.
pub open spec fn png_image(side: int, cells: Seq<bool>, width: nat, n: nat) -> Seq<u8>
    decreases n,
{
    if n == 0 {
        seq![]
    } else {
        png_image(side, cells, width, (n - 1) as nat) + png_row(side, cells, n - 1, width)
    }
}

/// The grey pixels of the PNG picture, row after row, and its width (which
/// is also its height).
pub fn png_pixels(m: &QrMatrix) -> (r: (u32, Vec<u8>))
    ensures
        r.0 == picture_size(m.side()),
        r.1@ == png_image(m.side(), m.cells(), r.0 as nat, r.0 as nat),
        r.1@.len() == r.0 * r.0,
        forall|x: int, y: int|
            0 <= x < r.0 && 0 <= y < r.0 ==> #[trigger] r.1@[y * r.0 + x] == if dark(
                m.side(),
                m.cells(),
                x / PNG_SCALE as int - IMAGE_BORDER,
                y / PNG_SCALE as int - IMAGE_BORDER,
            ) {
                0u8
            } else {
                255u8
            },
{
    let size = m.size() as u32;
    let border = IMAGE_BORDER as u32;
    let dimension = (size + border * 2) * PNG_SCALE;
    let mut pixels: Vec<u8> = Vec::new();
    let mut y: u32 = 0;
    while y < dimension
        invariant
            size == m.side(),
            size <= 177,
            border == IMAGE_BORDER,
            dimension == picture_size(m.side()),
            y <= dimension,
            pixels@ == png_image(m.side(), m.cells(), dimension as nat, y as nat),
        decreases dimension - y,
    {
        let ghost before = pixels@;
        let mut x: u32 = 0;
        while x < dimension
            invariant
                size == m.side(),
                size <= 177,
                border == IMAGE_BORDER,
                dimension == picture_size(m.side()),
                y < dimension,
                x <= dimension,
                pixels@ == before + png_row(m.side(), m.cells(), y as int, x as nat),
            decreases dimension - x,
        {
            let qr_x = x / PNG_SCALE;
            let qr_y = y / PNG_SCALE;
            let dark = qr_x >= border && qr_y >= border && qr_x < size + border && qr_y < size
                + border && m.get_module((qr_x - border) as i32, (qr_y - border) as i32);
            let shade: u8 = if dark {
                0
            } else {
                255
            };
            pixels.push(shade);
            proof {
                assert(png_row(m.side(), m.cells(), y as int, (x + 1) as nat) =~= png_row(
                    m.side(),
                    m.cells(),
                    y as int,
                    x as nat,
                ).push(shade));
            }
            x += 1;
        }
        y += 1;
    }
    proof {
        assert forall|x: int, y: int|
            0 <= x < dimension && 0 <= y < dimension implies #[trigger] pixels@[y * dimension + x]
            == if dark(
            m.side(),
            m.cells(),
            x / PNG_SCALE as int - IMAGE_BORDER,
            y / PNG_SCALE as int - IMAGE_BORDER,
        ) {
            0u8
        } else {
            255u8
        } by {
            lemma_png_pixel_shows_its_module(
                m.side(),
                m.cells(),
                dimension as nat,
                dimension as nat,
                x,
                y,
            );
        }
        if dimension > 0 {
            lemma_png_pixel_at(m.side(), m.cells(), dimension as nat, dimension as nat, 0, 0);
        } else {
            assert(pixels@.len() == 0);
        }
    }
    (dimension, pixels)
}

/// The PNG pixels are laid out row after row: the picture has `n * width`
/// pixels and pixel `(x, y)` sits at index `y * width + x`.
pub proof fn lemma_png_pixel_at(side: int, cells: Seq<bool>, width: nat, n: nat, x: int, y: int)
    requires
        0 <= x < width,
        0 <= y < n,
    ensures
        png_image(side, cells, width, n).len() == n * width,
        png_image(side, cells, width, n)[y * width + x] == png_shade(side, cells, x, y),
    decreases n,
{
    lemma_png_image_len(side, cells, width, n);
    let prev = png_image(side, cells, width, (n - 1) as nat);
    lemma_png_image_len(side, cells, width, (n - 1) as nat);
    if y < n - 1 {
        lemma_png_pixel_at(side, cells, width, (n - 1) as nat, x, y);
        assert(y * width + x < (n - 1) * width) by (nonlinear_arith)
            requires
                0 <= x < width,
                0 <= y < n - 1,
        ;
    } else {
        assert(y * width == (n - 1) * width);
    }
}

proof fn lemma_png_image_len(side: int, cells: Seq<bool>, width: nat, n: nat)
    ensures
        png_image(side, cells, width, n).len() == n * width,
    decreases n,
{
    if n > 0 {
        lemma_png_image_len(side, cells, width, (n - 1) as nat);
        assert((n - 1) * width + width == n * width) by (nonlinear_arith);
        assert(png_row(side, cells, n - 1, width).len() == width);
    } else {
        assert(n * width == 0) by (nonlinear_arith)
            requires
                n == 0,
        ;
    }
}

/// The payload carries the service name and the secret.
pub proof fn lemma_payload_carries_name_and_secret(service_name: Seq<char>, secret: Seq<char>)
    ensures
        contains_text(payload_text(service_name, secret), service_name),
        contains_text(payload_text(service_name, secret), secret),
{
    let p = payload_text(service_name, secret);
    let a = "WIFI:T:ADB;S:"@;
    let b = ";P:"@;
    assert(p.subrange(a.len() as int, a.len() + service_name.len() as int) =~= service_name);
    assert(occurs_at(p, service_name, a.len() as int));
    let k: int = (a.len() + service_name.len() + b.len()) as int;
    assert(p.subrange(k, k + secret.len() as int) =~= secret);
    assert(occurs_at(p, secret, k));
}

/// The payload reads back: it is the fixed head, then the service name and
/// the secret around the first `";P:"`, then `";;"`, when the service name
/// holds no `';'`.
pub proof fn lemma_payload_round_trip(service_name: Seq<char>, secret: Seq<char>)
    requires
        forall|i: int| 0 <= i < service_name.len() ==> service_name[i] != ';',
    ensures
        payload_text(service_name, secret) == "WIFI:T:ADB;S:"@ + (service_name + ";P:"@ + secret)
            + ";;"@,
        occurs_at(service_name + ";P:"@ + secret, ";P:"@, service_name.len() as int),
        forall|k: int|
            0 <= k < service_name.len() ==> !#[trigger] occurs_at(
                service_name + ";P:"@ + secret,
                ";P:"@,
                k,
            ),
{
    reveal_strlit(";P:");
    let body = service_name + ";P:"@ + secret;
    assert(body.subrange(service_name.len() as int, service_name.len() + 3 as int) =~= ";P:"@);
    assert forall|k: int| 0 <= k < service_name.len() implies !#[trigger] occurs_at(
        body,
        ";P:"@,
        k,
    ) by {
        if occurs_at(body, ";P:"@, k) {
            assert(body.subrange(k, k + 3)[0] == ";P:"@[0]);
            assert(body[k] == service_name[k]);
        }
    }
    assert(payload_text(service_name, secret) =~= "WIFI:T:ADB;S:"@ + body + ";;"@);
}

/// The cell that shows module `top` above module `bottom`: both light,
/// both dark, only the upper one dark, only the lower one dark.
pub open spec fn half_block(top: bool, bottom: bool) -> Seq<char> {
    if top {
        if bottom {
            TERMINAL_DARK@
        } else {
            TERMINAL_DARK_TOP@
        }
    } else if bottom {
        TERMINAL_DARK_BOTTOM@
    } else {
        TERMINAL_LIGHT@
    }
}

/// The cells of text line `k` of the terminal picture, left to right: column
/// `c` shows module `(c - border, 2k - border)` of the symbol on top and the
/// module directly below it, `(c - border, 2k - border + 1)`, underneath.
pub open spec fn stacked_cells(side: int, cells: Seq<bool>, k: int) -> Seq<Seq<char>> {
    Seq::new(
        (side + 2 * TERMINAL_BORDER) as nat,
        |c: int|
            half_block(
                dark(side, cells, c - TERMINAL_BORDER, 2 * k - TERMINAL_BORDER),
                dark(side, cells, c - TERMINAL_BORDER, 2 * k - TERMINAL_BORDER + 1),
            ),
    )
}

proof fn lemma_cells_are_stacked(side: int, cells: Seq<bool>, k: int, n: nat)
    requires
        n <= side + 2 * TERMINAL_BORDER,
    ensures
        terminal_cells(side, cells, 2 * k - TERMINAL_BORDER, n) == stacked_cells(
            side,
            cells,
            k,
        ).take(n as int).flatten_alt(),
    decreases n,
{
    let all = stacked_cells(side, cells, k);
    if n == 0 {
        assert(all.take(0) =~= seq![]);
    } else {
        lemma_cells_are_stacked(side, cells, k, (n - 1) as nat);
        assert(all.take(n as int).drop_last() =~= all.take(n - 1));
        let x = n - 1 - TERMINAL_BORDER;
        let top = 2 * k - TERMINAL_BORDER;
        assert(glyph(dark(side, cells, x, top), dark(side, cells, x, top + 1)) == all[n - 1]);
    }
}

proof fn lemma_terminal_line_texts(side: int, cells: Seq<bool>, n: nat)
    requires
        side >= 0,
    ensures
        lines(terminal_lines(side, cells, n)).len() == n,
        forall|k: int|
            0 <= k < n ==> #[trigger] lines(terminal_lines(side, cells, n))[k] == stacked_cells(
                side,
                cells,
                k,
            ).flatten() + TERMINAL_RESET@,
    decreases n,
{
    lemma_terminal_lines_count(side, cells, n);
    if n > 0 {
        let prev = terminal_lines(side, cells, (n - 1) as nat);
        lemma_terminal_line_texts(side, cells, (n - 1) as nat);
        lemma_terminal_lines_count(side, cells, (n - 1) as nat);
        let k = n - 1;
        let top = 2 * k - TERMINAL_BORDER;
        let width = (side + 2 * TERMINAL_BORDER) as nat;
        let c = terminal_cells(side, cells, top, width);
        let body = c + TERMINAL_RESET@;
        lemma_cells_have_no_newline(side, cells, top, width);
        reveal_strlit("\x1b[0m");
        assert forall|i: int| 0 <= i < body.len() implies body[i] != '\n' by {
            if i >= c.len() {
                assert(body[i] == TERMINAL_RESET@[i - c.len()]);
            } else {
                assert(body[i] == c[i]);
            }
        }
        lemma_single_line(body);
        assert(body.last() == TERMINAL_RESET@.last());
        assert(strip_cr(body) == body);
        assert(terminal_line(side, cells, top) =~= body + seq!['\n']);
        lemma_lines_append(prev, body + seq!['\n']);
        lemma_cells_are_stacked(side, cells, k, width);
        let all = stacked_cells(side, cells, k);
        assert(all.take(width as int) =~= all);
        all.lemma_flatten_and_flatten_alt_are_equivalent();
        assert forall|j: int|
            0 <= j < n implies #[trigger] lines(terminal_lines(side, cells, n))[j]
            == stacked_cells(side, cells, j).flatten() + TERMINAL_RESET@ by {
            if j < n - 1 {
                assert(lines(terminal_lines(side, cells, n))[j] == lines(prev)[j]);
            }
        }
    }
}

/// The terminal picture shows the symbol two rows at a time: it has
/// `(side + 2 * border + 1) / 2` lines, and line `k` is its cells (column
/// `c` showing module `(c - border, 2k - border)` above the module directly
/// below it) followed by the colour reset.
pub proof fn lemma_terminal_lines_show_vertical_pairs(side: int, cells: Seq<bool>)
    requires
        side >= 0,
    ensures
        lines(terminal_art(side, cells)).len() == terminal_line_count(side),
        forall|k: int|
            0 <= k < terminal_line_count(side) ==> #[trigger] lines(terminal_art(side, cells))[k]
                == stacked_cells(side, cells, k).flatten() + TERMINAL_RESET@,
{
    lemma_terminal_line_texts(side, cells, terminal_line_count(side));
}

/// The module column (or row) that picture pixel column (or row) `p` lies
/// on: pictures have `SVG_SCALE` pixels per module and an `IMAGE_BORDER`
/// of light modules.
pub open spec fn module_at(p: int) -> int {
    p / SVG_SCALE as int - IMAGE_BORDER
}

/// The square painted for module `(x, y)`: it starts at a pixel `(ox, oy)`
/// and is `SVG_SCALE` pixels wide and high, and the pixels it covers are
/// exactly those that lie on that module: `px` in `[ox, ox + SVG_SCALE)` just
/// when `module_at(px) == x`, and likewise for rows. So the
/// squares of different modules are disjoint and tile the picture the way
/// the PNG pixels do.
pub proof fn lemma_svg_square_covers_its_module(x: int, y: int)
    requires
        0 <= x,
        0 <= y,
    ensures
        exists|ox: nat, oy: nat|
            {
                &&& svg_square(x, y) == "M"@ + decimal(ox) + ","@ + decimal(oy) + "h8v8h-8z"@
                &&& forall|px: int| ox <= px < ox + SVG_SCALE <==> #[trigger] module_at(px) == x
                &&& forall|py: int| oy <= py < oy + SVG_SCALE <==> #[trigger] module_at(py) == y
            },
{
    let ox = ((x + IMAGE_BORDER) * SVG_SCALE) as nat;
    let oy = ((y + IMAGE_BORDER) * SVG_SCALE) as nat;
    lemma_svg_square_text(x, y);
    assert forall|px: int| ox <= px < ox + SVG_SCALE <==> #[trigger] module_at(px) == x by {}
    assert forall|py: int| oy <= py < oy + SVG_SCALE <==> #[trigger] module_at(py) == y by {}
}

proof fn lemma_svg_square_text(x: int, y: int)
    requires
        0 <= x,
        0 <= y,
    ensures
        svg_square(x, y) == "M"@ + decimal(((x + IMAGE_BORDER) * SVG_SCALE) as nat) + ","@
            + decimal(((y + IMAGE_BORDER) * SVG_SCALE) as nat) + "h8v8h-8z"@,
{
    let ox = ((x + IMAGE_BORDER) * SVG_SCALE) as nat;
    let oy = ((y + IMAGE_BORDER) * SVG_SCALE) as nat;
    reveal_strlit("h8v8h-8z");
    reveal_strlit("h");
    reveal_strlit("v");
    reveal_strlit("h-");
    reveal_strlit("z");
    assert(decimal(8) =~= seq!['8']);
    assert("h"@ + decimal(8) + "v"@ + decimal(8) + "h-"@ + decimal(8) + "z"@ =~= "h8v8h-8z"@);
    assert(svg_square(x, y) =~= "M"@ + decimal(ox) + ","@ + decimal(oy) + "h8v8h-8z"@);
}

/// What the SVG path paints for module `(x, y)`: its square when it is dark,
/// nothing when it is light.
pub open spec fn module_paint(side: int, cells: Seq<bool>, x: int, y: int) -> Seq<char> {
    if dark(side, cells, x, y) {
        "M"@ + decimal(((x + IMAGE_BORDER) * SVG_SCALE) as nat) + ","@ + decimal(
            ((y + IMAGE_BORDER) * SVG_SCALE) as nat,
        ) + "h8v8h-8z"@
    } else {
        seq![]
    }
}

/// The paint of row `y`, module by module from the left.
pub open spec fn row_paints(side: int, cells: Seq<bool>, y: int) -> Seq<Seq<char>> {
    Seq::new(side as nat, |x: int| module_paint(side, cells, x, y))
}

proof fn lemma_svg_row_is_paints(side: int, cells: Seq<bool>, y: int, n: nat)
    requires
        n <= side,
    ensures
        svg_row(side, cells, y, n) == row_paints(side, cells, y).take(n as int).flatten_alt(),
    decreases n,
{
    let all = row_paints(side, cells, y);
    if n == 0 {
        assert(all.take(0) =~= seq![]);
    } else {
        lemma_svg_row_is_paints(side, cells, y, (n - 1) as nat);
        assert(all.take(n as int).drop_last() =~= all.take(n - 1));
        assert(all[n - 1] == module_paint(side, cells, n - 1, y));
        if dark(side, cells, n - 1, y) {
            lemma_svg_square_text(n - 1, y);
        }
    }
}

proof fn lemma_svg_rows_are_paints(side: int, cells: Seq<bool>, n: nat)
    requires
        side >= 0,
    ensures
        svg_rows(side, cells, n) == Seq::new(n, |y: int| row_paints(side, cells, y).flatten()).flatten_alt(),
    decreases n,
{
    let rows = Seq::new(n, |y: int| row_paints(side, cells, y).flatten());
    if n > 0 {
        lemma_svg_rows_are_paints(side, cells, (n - 1) as nat);
        assert(rows.drop_last() =~= Seq::new((n - 1) as nat, |y: int| row_paints(side, cells, y).flatten()));
        lemma_svg_row_is_paints(side, cells, n - 1, side as nat);
        let all = row_paints(side, cells, n - 1);
        assert(all.take(side as int) =~= all);
        all.lemma_flatten_and_flatten_alt_are_equivalent();
    } else {
        assert(rows =~= seq![]);
    }
}

/// The SVG path paints the modules row by row from the top, each row from
/// the left: the square of every dark module, in that order, and nothing
/// for light ones.
pub proof fn lemma_svg_path_paints_dark_modules(side: int, cells: Seq<bool>)
    requires
        side >= 0,
    ensures
        svg_rows(side, cells, side as nat) == Seq::new(
            side as nat,
            |y: int| row_paints(side, cells, y).flatten(),
        ).flatten(),
{
    lemma_svg_rows_are_paints(side, cells, side as nat);
    Seq::new(side as nat, |y: int| row_paints(side, cells, y).flatten()).lemma_flatten_and_flatten_alt_are_equivalent();
}

/// Pixel `(x, y)` of the PNG picture is black exactly when the module it
/// lies on, `(x / PNG_SCALE - IMAGE_BORDER, y / PNG_SCALE - IMAGE_BORDER)`,
/// is a dark module of the symbol, and white otherwise (the border included).
pub proof fn lemma_png_pixel_shows_its_module(
    side: int,
    cells: Seq<bool>,
    width: nat,
    n: nat,
    x: int,
    y: int,
)
    requires
        0 <= x < width,
        0 <= y < n,
    ensures
        png_image(side, cells, width, n)[y * width + x] == if dark(
            side,
            cells,
            x / PNG_SCALE as int - IMAGE_BORDER,
            y / PNG_SCALE as int - IMAGE_BORDER,
        ) {
            0u8
        } else {
            255u8
        },
{
    lemma_png_pixel_at(side, cells, width, n, x, y);
}

} // verus!
