//! The QR code of the node's URL: the module matrix from the encoder crate, rendered here
//! as inline SVG for the code page and as block characters for a terminal. It encodes the
//! URL and never the pairing code.

use vstd::prelude::*;
use crate::text::{
    chars_of, decimal, decimal_exec, html_escaped, html_escape_into, push_all, push_str,
    string_of, utf8_len, utf8_len_capped,
};

verus! {

/// The quiet zone around the symbol, in modules — what the QR standard asks for.
pub const QUIET: usize = 4;

/// The most bytes a URL may hold here: what a version-10 symbol at medium correction
/// holds.
pub const MAX_BYTES: usize = 213;

/// The dark modules of a symbol, row-major, with its width.
#[derive(Debug, Clone, PartialEq, Eq)]
pub struct Matrix {
    /// Modules per side, without the quiet zone.
    pub width: usize,
    /// `width * width` cells, `true` where the module is dark.
    pub dark: Vec<bool>,
}

/// Whether the module at `(x, y)` of a `w`-wide symbol with cells `d` is dark; outside
/// the symbol is light.
pub open spec fn cell(w: int, d: Seq<bool>, x: int, y: int) -> bool {
    0 <= x < w && 0 <= y < w && d[y * w + x]
}

impl Matrix {
    /// The cells are exactly `width * width`.
    pub open spec fn wf(&self) -> bool {
        self.dark@.len() == self.width * self.width
    }

    /// Whether the module at `(x, y)` is dark; outside the symbol is light.
    pub fn is_dark(&self, x: usize, y: usize) -> (r: bool)
        requires
            self.wf(),
        ensures
            r == cell(self.width as int, self.dark@, x as int, y as int),
    {
        let n = self.dark.len();
        if x < self.width && y < self.width {
            let ghost w = self.width as int;
            proof {
                assert(y * w + x < w * w) by (nonlinear_arith)
                    requires
                        0 <= x < w,
                        0 <= y < w,
                ;
                assert(0 <= y * w) by (nonlinear_arith)
                    requires
                        0 <= y,
                        0 <= w,
                ;
            }
            assert(y * w + x < n);
            assert(y * self.width + x == y * w + x);
            self.dark[y * self.width + x]
        } else {
            false
        }
    }
}

/// The symbol the encoder draws for `text` at medium error correction — its width and
/// its cells row-major — or `None` where the text does not fit in any version.
pub uninterp spec fn qr_symbol(text: Seq<char>) -> Option<(nat, Seq<bool>)>;

/// `qrcode::QrCode::with_error_correction_level` at `EcLevel::M` on the text's bytes,
/// read back by `width` and `to_colors` (a cell is `true` where it is `Color::Dark`). The
/// encoder picks one of versions 1 to 40, so the width is between 21 and 177, and it
/// keeps `width * width` cells.
#[verifier::external_body]
fn qr_matrix(text: &str) -> (r: Option<(usize, Vec<bool>)>)
    ensures
        match r {
            Some((w, d)) => qr_symbol(text@) == Some((w as nat, d@)) && d@.len() == w * w && 21
                <= w <= 177,
            None => qr_symbol(text@) is None,
        },
{
    let code = qrcode::QrCode::with_error_correction_level(text.as_bytes(), qrcode::EcLevel::M).ok()?;
    let dark = code.to_colors().into_iter().map(|c| c == qrcode::Color::Dark).collect();
    Some((code.width(), dark))
}

/// The symbol for `text`: `None` when the text is empty or longer than the limit, or
/// when the encoder cannot hold it.
pub open spec fn encode_spec(text: Seq<char>) -> Option<(nat, Seq<bool>)> {
    if text.len() == 0 || utf8_len(text) > MAX_BYTES {
        None
    } else {
        qr_symbol(text)
    }
}

/// Encode `text` at medium error correction. `None` when it does not fit, which a
/// caller reports as a URL too long to render rather than as a failure of the node.
pub fn encode(text: &str) -> (r: Option<Matrix>)
    ensures
        match r {
            Some(m) => encode_spec(text@) == Some((m.width as nat, m.dark@)) && m.wf() && 21
                <= m.width <= 177,
            None => encode_spec(text@) is None,
        },
{
    let chars = chars_of(text);
    if chars.len() == 0 || utf8_len_capped(chars.as_slice(), MAX_BYTES + 1) > MAX_BYTES {
        return None;
    }
    match qr_matrix(text) {
        Some((width, dark)) => Some(Matrix { width, dark }),
        None => None,
    }
}

/// One run of dark modules as a path: `M{x} {y}h{n}v1h-{n}z`, offset by the quiet zone.
pub open spec fn run_text(x: int, y: int, n: int) -> Seq<char> {
    "M"@ + decimal((x + QUIET) as nat) + " "@ + decimal((y + QUIET) as nat) + "h"@ + decimal(
        n as nat,
    ) + "v1h-"@ + decimal(n as nat) + "z"@
}

/// The path of row `y` from column `x` on, where `start` is the column the dark run in
/// progress began at.
pub open spec fn row_path(w: int, d: Seq<bool>, y: int, x: int, start: Option<int>) -> Seq<char>
    decreases w - x,
{
    if x >= w {
        match start {
            Some(s) => run_text(s, y, x - s),
            None => Seq::empty(),
        }
    } else if cell(w, d, x, y) {
        row_path(w, d, y, x + 1, if start is None { Some(x) } else { start })
    } else {
        (match start {
            Some(s) => run_text(s, y, x - s),
            None => Seq::empty(),
        }) + row_path(w, d, y, x + 1, None)
    }
}

/// The path of rows `0..y`.
pub open spec fn qr_path(w: int, d: Seq<bool>, y: int) -> Seq<char>
    decreases y,
{
    if y <= 0 {
        Seq::empty()
    } else {
        qr_path(w, d, y - 1) + row_path(w, d, y - 1, 0, None)
    }
}

/// The SVG of a `w`-wide symbol with cells `d`, named `label`.
pub open spec fn svg_text(w: int, d: Seq<bool>, label: Seq<char>) -> Seq<char> {
    let size = decimal((w + 2 * QUIET) as nat);
    let l = html_escaped(label);
    "<svg class=\"pv-qr-image\" role=\"img\" focusable=\"false\" aria-label=\""@ + l
        + "\" viewBox=\"0 0 "@ + size + " "@ + size
        + "\" shape-rendering=\"crispEdges\"><title>"@ + l + "</title><rect width=\""@ + size
        + "\" height=\""@ + size + "\" fill=\"#ffffff\"/><path d=\""@ + qr_path(w, d, w)
        + "\" fill=\"#000000\"/></svg>"@
}

/// Append the path of one run.
fn push_run(out: &mut Vec<char>, x: usize, y: usize, n: usize)
    requires
        x <= 200,
        y <= 200,
        n <= 200,
    ensures
        final(out)@ == old(out)@ + run_text(x as int, y as int, n as int),
{
    let ghost start = out@;
    push_str(out, "M");
    let v = decimal_exec((x + QUIET) as u64);
    push_all(out, v.as_slice());
    push_str(out, " ");
    let v = decimal_exec((y + QUIET) as u64);
    push_all(out, v.as_slice());
    push_str(out, "h");
    let v = decimal_exec(n as u64);
    push_all(out, v.as_slice());
    push_str(out, "v1h-");
    push_all(out, v.as_slice());
    push_str(out, "z");
    assert(out@ =~= start + run_text(x as int, y as int, n as int));
}

/// The symbol as inline SVG: a labelled image (`role="img"`) with a white ground and
/// black modules whatever the page's colour scheme, so a camera reads it in dark mode
/// too. `label` is the accessible name; the URL itself is text beside the image, never
/// inside it. Nothing here is a `style=` attribute, so it renders under the default CSP.
pub fn svg(text: &str, label: &str) -> (r: Option<String>)
    ensures
        match r {
            Some(s) => encode_spec(text@) matches Some((w, d)) && s@ == svg_text(w as int, d, label@),
            None => encode_spec(text@) is None,
        },
{
    let m = match encode(text) {
        Some(m) => m,
        None => return None,
    };
    let ghost w = m.width as int;
    let ghost d = m.dark@;
    let mut path: Vec<char> = Vec::new();
    let mut y: usize = 0;
    while y < m.width
        invariant
            m.wf(),
            w == m.width,
            d == m.dark@,
            m.width <= 177,
            y <= m.width,
            path@ == qr_path(w, d, y as int),
        decreases m.width - y,
    {
        let ghost goal = path@ + row_path(w, d, y as int, 0, None);
        let mut x: usize = 0;
        let mut start: Option<usize> = None;
        while x < m.width
            invariant
                m.wf(),
                w == m.width,
                d == m.dark@,
                m.width <= 177,
                y < m.width,
                x <= m.width,
                match start {
                    Some(s) => s < x,
                    None => true,
                },
                path@ + row_path(w, d, y as int, x as int, match start {
                    Some(s) => Some(s as int),
                    None => None,
                }) == goal,
            decreases m.width - x,
        {
            let ghost before = path@;
            let ghost st = match start {
                Some(s) => Some(s as int),
                None => None::<int>,
            };
            if m.is_dark(x, y) {
                if start.is_none() {
                    start = Some(x);
                }
            } else {
                if let Some(s) = start {
                    push_run(&mut path, s, y, x - s);
                    proof {
                        let rest = row_path(w, d, y as int, x + 1, None);
                        assert(before + (run_text(s as int, y as int, x - s) + rest) =~= (before
                            + run_text(s as int, y as int, x - s)) + rest);
                    }
                    start = None;
                } else {
                    assert(Seq::<char>::empty() + row_path(w, d, y as int, x + 1, None)
                        =~= row_path(w, d, y as int, x + 1, None));
                }
            }
            x = x + 1;
        }
        if let Some(s) = start {
            push_run(&mut path, s, y, x - s);
        } else {
            assert(path@ + Seq::<char>::empty() =~= path@);
        }
        y = y + 1;
    }
    let size = decimal_exec((m.width + 2 * QUIET) as u64);
    let l = chars_of(label);
    let mut esc: Vec<char> = Vec::new();
    let mut i: usize = 0;
    while i < l.len()
        invariant
            i <= l@.len(),
            esc@ == html_escaped(l@.take(i as int)),
        decreases l.len() - i,
    {
        html_escape_into(&mut esc, l[i]);
        assert(l@.take(i + 1).drop_last() =~= l@.take(i as int));
        i = i + 1;
    }
    assert(l@.take(l@.len() as int) =~= l@);
    let mut out: Vec<char> = Vec::new();
    push_str(&mut out, "<svg class=\"pv-qr-image\" role=\"img\" focusable=\"false\" aria-label=\"");
    push_all(&mut out, esc.as_slice());
    push_str(&mut out, "\" viewBox=\"0 0 ");
    push_all(&mut out, size.as_slice());
    push_str(&mut out, " ");
    push_all(&mut out, size.as_slice());
    push_str(&mut out, "\" shape-rendering=\"crispEdges\"><title>");
    push_all(&mut out, esc.as_slice());
    push_str(&mut out, "</title><rect width=\"");
    push_all(&mut out, size.as_slice());
    push_str(&mut out, "\" height=\"");
    push_all(&mut out, size.as_slice());
    push_str(&mut out, "\" fill=\"#ffffff\"/><path d=\"");
    push_all(&mut out, path.as_slice());
    push_str(&mut out, "\" fill=\"#000000\"/></svg>");
    assert(out@ =~= svg_text(w, d, label@));
    Some(string_of(out.as_slice()))
}

/// Whether the module at `(x, y)` of the symbol drawn with its quiet zone is dark.
pub open spec fn quiet_cell(w: int, d: Seq<bool>, x: int, y: int) -> bool {
    x >= QUIET && y >= QUIET && cell(w, d, x - QUIET, y - QUIET)
}

/// The block character for a pair of module rows: both dark, the top, the bottom, none.
pub open spec fn block(top: bool, bottom: bool) -> char {
    if top && bottom {
        '█'
    } else if top {
        '▀'
    } else if bottom {
        '▄'
    } else {
        ' '
    }
}

/// The line for module rows `y` and `y + 1` of the symbol with its quiet zone.
pub open spec fn block_line(w: int, d: Seq<bool>, y: int) -> Seq<char> {
    let size = w + 2 * QUIET;
    Seq::new(
        size as nat,
        |x: int| block(quiet_cell(w, d, x, y), y + 1 < size && quiet_cell(w, d, x, y + 1)),
    ).push('\n')
}

/// The lines from module row `y` on, two rows per line.
pub open spec fn block_lines(w: int, d: Seq<bool>, y: int) -> Seq<char>
    decreases w + 2 * QUIET + 2 - y,
{
    if y >= w + 2 * QUIET || y < 0 {
        Seq::empty()
    } else {
        block_line(w, d, y) + block_lines(w, d, y + 2)
    }
}

/// The symbol as lines of block characters for a terminal, two module rows per line:
/// `█` for two dark, `▀` and `▄` for one, a space for none, with the quiet zone drawn
/// as light. Dark modules are the ink, so the code reads on a light terminal directly
/// and on a dark one as the inverted symbol most phone cameras also accept.
pub fn text(url: &str) -> (r: Option<String>)
    ensures
        match r {
            Some(s) => encode_spec(url@) matches Some((w, d)) && s@ == block_lines(w as int, d, 0),
            None => encode_spec(url@) is None,
        },
{
    let m = match encode(url) {
        Some(m) => m,
        None => return None,
    };
    let ghost w = m.width as int;
    let ghost d = m.dark@;
    let size = m.width + 2 * QUIET;
    let mut out: Vec<char> = Vec::new();
    let mut y: usize = 0;
    while y < size
        invariant
            m.wf(),
            w == m.width,
            d == m.dark@,
            m.width <= 177,
            size == m.width + 2 * QUIET,
            y <= size + 1,
            y % 2 == 0,
            out@ + block_lines(w, d, y as int) == block_lines(w, d, 0),
        decreases size + 2 - y,
    {
        let ghost before = out@;
        let mut x: usize = 0;
        while x < size
            invariant
                m.wf(),
                w == m.width,
                d == m.dark@,
                m.width <= 177,
                size == m.width + 2 * QUIET,
                y < size,
                x <= size,
                out@ == before + block_line(w, d, y as int).take(x as int),
            decreases size - x,
        {
            let top = x >= QUIET && y >= QUIET && m.is_dark(x - QUIET, y - QUIET);
            let bottom = y + 1 < size && x >= QUIET && y + 1 >= QUIET && m.is_dark(
                x - QUIET,
                y + 1 - QUIET,
            );
            let c = if top && bottom {
                '█'
            } else if top {
                '▀'
            } else if bottom {
                '▄'
            } else {
                ' '
            };
            out.push(c);
            assert(block_line(w, d, y as int).take(x + 1) =~= block_line(w, d, y as int).take(
                x as int,
            ).push(c));
            x = x + 1;
        }
        out.push('\n');
        assert(block_line(w, d, y as int) =~= block_line(w, d, y as int).take(size as int).push(
            '\n',
        ));
        assert(before + (block_line(w, d, y as int) + block_lines(w, d, y + 2)) =~= (before
            + block_line(w, d, y as int)) + block_lines(w, d, y + 2));
        y = y + 2;
    }
    assert(block_lines(w, d, y as int) =~= Seq::<char>::empty());
    assert(out@ + Seq::<char>::empty() =~= out@);
    Some(string_of(out.as_slice()))
}

} // verus!
