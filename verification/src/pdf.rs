//! Vector backend: serializes a display list into a minimal PDF
//! document — header, catalog, page tree, one content stream of
//! rectangle fills, cross-reference table and trailer. Coordinates
//! are flipped from layout space (origin top left, y down) to PDF
//! space (origin bottom left, y up).

use vstd::prelude::*;
use vstd::string::{StrSliceExecFns, StringExecFns};
use crate::css::px_ok;
use crate::painting::{CommandV, DrawCommand, cmd_bounds, cmds_view, cmd_view};

verus! {

/// The decimal digit `d` as text.
pub open spec fn digit_str(d: int) -> Seq<char> {
    if d == 0 {
        "0"@
    } else if d == 1 {
        "1"@
    } else if d == 2 {
        "2"@
    } else if d == 3 {
        "3"@
    } else if d == 4 {
        "4"@
    } else if d == 5 {
        "5"@
    } else if d == 6 {
        "6"@
    } else if d == 7 {
        "7"@
    } else if d == 8 {
        "8"@
    } else {
        "9"@
    }
}

/// Decimal digits of `n`, most significant first.
pub open spec fn dec_chars(n: nat) -> Seq<char>
    decreases n,
{
    if n < 10 {
        digit_str(n as int)
    } else {
        dec_chars((n / 10) as nat) + digit_str((n % 10) as int)
    }
}

/// Number of decimal digits of `n`.
pub open spec fn num_digits(n: nat) -> nat
    decreases n,
{
    if n < 10 {
        1
    } else {
        1 + num_digits((n / 10) as nat)
    }
}

/// `k` zero characters.
pub open spec fn zeros(k: nat) -> Seq<char>
    decreases k,
{
    if k == 0 {
        Seq::empty()
    } else {
        zeros((k - 1) as nat) + "0"@
    }
}

/// `n` in decimal, left-padded with zeros to ten digits.
pub open spec fn pad10(n: nat) -> Seq<char> {
    if num_digits(n) >= 10 {
        dec_chars(n)
    } else {
        zeros((10 - num_digits(n)) as nat) + dec_chars(n)
    }
}

/// A signed value in decimal.
pub open spec fn int_chars(v: int) -> Seq<char> {
    if v < 0 {
        "-"@ + dec_chars((-v) as nat)
    } else {
        dec_chars(v as nat)
    }
}

/// A color channel as a PDF fraction in `[0, 1]`: `1` for 255, else
/// `0.` followed by four digits of `channel * 10000 / 255`.
pub open spec fn frac_chars(b: u8) -> Seq<char> {
    if b == 255 {
        "1"@
    } else {
        let s = ((b as int) * 10000 / 255) as nat;
        if num_digits(s) >= 4 {
            "0."@ + dec_chars(s)
        } else {
            "0."@ + zeros((4 - num_digits(s)) as nat) + dec_chars(s)
        }
    }
}

/// The content-stream text of one command: set the fill color, then
/// fill the rectangle, its y coordinate flipped against the page
/// height.
pub open spec fn cmd_chars(c: CommandV, page_h: int) -> Seq<char> {
    frac_chars(c.color.r) + " "@ + frac_chars(c.color.g) + " "@ + frac_chars(c.color.b)
        + " rg\n"@ + int_chars(c.rect.x) + " "@ + int_chars(page_h - c.rect.y - c.rect.height)
        + " "@ + int_chars(c.rect.width) + " "@ + int_chars(c.rect.height) + " re\nf\n"@
}

/// The page content stream: every command's text, in paint order.
pub open spec fn content_chars(cmds: Seq<CommandV>, page_h: int) -> Seq<char>
    decreases cmds,
{
    if cmds.len() == 0 {
        Seq::empty()
    } else {
        content_chars(cmds.drop_last(), page_h) + cmd_chars(cmds.last(), page_h)
    }
}

/// One cross-reference entry for an in-use object at `off`.
pub open spec fn xref_entry(off: nat) -> Seq<char> {
    pad10(off) + " 00000 n \n"@
}

/// The whole document: header, four objects (catalog, page tree,
/// page, content stream), cross-reference table and trailer.
pub open spec fn pdf_chars(cmds: Seq<CommandV>, w: int, h: int) -> Seq<char> {
    let header = "%PDF-1.4\n"@;
    let o1 = "1 0 obj\n<< /Type /Catalog /Pages 2 0 R >>\nendobj\n"@;
    let o2 = "2 0 obj\n<< /Type /Pages /Kids [3 0 R] /Count 1 >>\nendobj\n"@;
    let o3 = "3 0 obj\n<< /Type /Page /Parent 2 0 R /MediaBox [0 0 "@ + int_chars(w) + " "@
        + int_chars(h) + "] /Contents 4 0 R >>\nendobj\n"@;
    let content = content_chars(cmds, h);
    let o4 = "4 0 obj\n<< /Length "@ + dec_chars(content.len()) + " >>\nstream\n"@ + content
        + "endstream\nendobj\n"@;
    let off1 = header.len();
    let off2 = off1 + o1.len();
    let off3 = off2 + o2.len();
    let off4 = off3 + o3.len();
    let startxref = off4 + o4.len();
    let xref = "xref\n0 5\n0000000000 65535 f \n"@ + xref_entry(off1) + xref_entry(off2)
        + xref_entry(off3) + xref_entry(off4);
    let trailer = "trailer\n<< /Size 5 /Root 1 0 R >>\nstartxref\n"@ + dec_chars(startxref)
        + "\n%%EOF\n"@;
    header + o1 + o2 + o3 + o4 + xref + trailer
}

/// One decimal digit as text.
fn digit_piece(d: u64) -> (r: &'static str)
    requires
        d < 10,
    ensures
        r@ == digit_str(d as int),
{
    if d == 0 {
        "0"
    } else if d == 1 {
        "1"
    } else if d == 2 {
        "2"
    } else if d == 3 {
        "3"
    } else if d == 4 {
        "4"
    } else if d == 5 {
        "5"
    } else if d == 6 {
        "6"
    } else if d == 7 {
        "7"
    } else if d == 8 {
        "8"
    } else {
        "9"
    }
}

/// `n` in decimal.
fn dec_string(n: u64) -> (s: String)
    ensures
        s@ == dec_chars(n as nat),
    decreases n,
{
    if n < 10 {
        let mut s = String::new();
        s.append(digit_piece(n));
        s
    } else {
        proof {
            assert(n as int / 10 < n as int) by (nonlinear_arith)
                requires
                    n >= 10,
            ;
        }
        let mut s = dec_string(n / 10);
        s.append(digit_piece(n % 10));
        s
    }
}

/// Number of decimal digits of `n`.
fn count_digits(n: u64) -> (d: u64)
    ensures
        d as nat == num_digits(n as nat),
    decreases n,
{
    if n < 10 {
        1
    } else {
        proof {
            assert(n as int / 10 < n as int) by (nonlinear_arith)
                requires
                    n >= 10,
            ;
            assert(num_digits(n as nat) == 1 + num_digits((n / 10) as nat));
            lemma_num_digits_bound((n / 10) as nat);
        }
        1 + count_digits(n / 10)
    }
}

/// A decimal representation is never longer than the value itself.
proof fn lemma_num_digits_bound(n: nat)
    ensures
        num_digits(n) <= n + 1,
    decreases n,
{
    if n >= 10 {
        lemma_num_digits_bound((n / 10) as nat);
        assert(n / 10 + 2 <= n + 1) by (nonlinear_arith)
            requires
                n >= 10,
        ;
    }
}

/// Append `k` zero characters.
fn append_zeros(s: &mut String, k: u64)
    ensures
        final(s)@ == old(s)@ + zeros(k as nat),
{
    let mut i: u64 = 0;
    proof {
        assert(old(s)@ + zeros(0) =~= old(s)@);
    }
    while i < k
        invariant
            0 <= i <= k,
            s@ == old(s)@ + zeros(i as nat),
        decreases k - i,
    {
        s.append("0");
        proof {
            assert(old(s)@ + zeros((i + 1) as nat) =~= (old(s)@ + zeros(i as nat)) + "0"@);
        }
        i = i + 1;
    }
}

/// `n` in decimal, zero-padded to ten digits.
fn pad10_string(n: u64) -> (s: String)
    ensures
        s@ == pad10(n as nat),
{
    let d = count_digits(n);
    if d >= 10 {
        dec_string(n)
    } else {
        let mut s = String::new();
        proof {
            assert(s@ + zeros((10 - d) as nat) =~= zeros((10 - d) as nat));
        }
        append_zeros(&mut s, 10 - d);
        s.append(dec_string(n).as_str());
        proof {
            assert(s@ =~= zeros((10 - num_digits(n as nat)) as nat) + dec_chars(n as nat));
        }
        s
    }
}

/// A signed value in decimal.
fn int_string(v: i64) -> (s: String)
    requires
        v > i64::MIN,
    ensures
        s@ == int_chars(v as int),
{
    if v < 0 {
        let mut s = String::new();
        s.append("-");
        s.append(dec_string((-v) as u64).as_str());
        proof {
            assert(s@ =~= "-"@ + dec_chars((-(v as int)) as nat));
        }
        s
    } else {
        dec_string(v as u64)
    }
}

/// A color channel as a PDF fraction.
fn frac_string(b: u8) -> (s: String)
    ensures
        s@ == frac_chars(b),
{
    if b == 255 {
        let mut s = String::new();
        s.append("1");
        s
    } else {
        let scaled: u64 = (b as u64) * 10000 / 255;
        proof {
            assert(scaled as int == (b as int) * 10000 / 255);
        }
        let d = count_digits(scaled);
        let mut s = String::new();
        s.append("0.");
        if d < 4 {
            append_zeros(&mut s, 4 - d);
        }
        s.append(dec_string(scaled).as_str());
        proof {
            if num_digits(scaled as nat) >= 4 {
                assert(s@ =~= "0."@ + dec_chars(scaled as nat));
            } else {
                assert(s@ =~= "0."@ + zeros((4 - num_digits(scaled as nat)) as nat) + dec_chars(
                    scaled as nat,
                ));
                assert(frac_chars(b) =~= "0."@ + zeros((4 - num_digits(scaled as nat)) as nat)
                    + dec_chars(scaled as nat));
            }
        }
        s
    }
}

/// Append the content-stream text of one command.
#[verifier::rlimit(100)]
fn append_cmd(s: &mut String, cmd: &DrawCommand, page_h: i64)
    requires
        px_ok(page_h as int),
        cmd_bounds(cmd_view(*cmd)),
    ensures
        final(s)@ == old(s)@ + cmd_chars(cmd_view(*cmd), page_h as int),
{
    let (rect, color) = match cmd {
        DrawCommand::SolidRect { rect, color } => (*rect, *color),
    };
    s.append(frac_string(color.r).as_str());
    s.append(" ");
    s.append(frac_string(color.g).as_str());
    s.append(" ");
    s.append(frac_string(color.b).as_str());
    s.append(" rg\n");
    s.append(int_string(rect.x).as_str());
    s.append(" ");
    let flipped: i64 = page_h - rect.y - rect.height;
    s.append(int_string(flipped).as_str());
    s.append(" ");
    s.append(int_string(rect.width).as_str());
    s.append(" ");
    s.append(int_string(rect.height).as_str());
    s.append(" re\nf\n");
    proof {
        assert(s@ =~= old(s)@ + cmd_chars(cmd_view(*cmd), page_h as int));
    }
}

/// Serialize a display list into a PDF document for a page of the
/// given size.
#[verifier::rlimit(100)]
pub fn serialize(cmds: &Vec<DrawCommand>, page_w: i64, page_h: i64) -> (out: String)
    requires
        px_ok(page_w as int),
        px_ok(page_h as int),
        forall|k: int| 0 <= k < cmds@.len() ==> cmd_bounds(#[trigger] cmds_view(cmds@)[k]),
    ensures
        out@ == pdf_chars(cmds_view(cmds@), page_w as int, page_h as int),
{
    let mut content = String::new();
    let mut i: usize = 0;
    proof {
        assert(content@ =~= content_chars(cmds_view(cmds@).take(0), page_h as int));
    }
    while i < cmds.len()
        invariant
            0 <= i <= cmds@.len(),
            cmds_view(cmds@).len() == cmds@.len(),
            px_ok(page_h as int),
            forall|k: int| 0 <= k < cmds@.len() ==> cmd_bounds(#[trigger] cmds_view(cmds@)[k]),
            content@ == content_chars(cmds_view(cmds@).take(i as int), page_h as int),
        decreases cmds@.len() - i,
    {
        proof {
            assert(cmds_view(cmds@).take(i as int + 1).drop_last() =~= cmds_view(cmds@).take(
                i as int,
            ));
            assert(cmds_view(cmds@).take(i as int + 1).last() == cmds_view(cmds@)[i as int]);
        }
        append_cmd(&mut content, &cmds[i], page_h);
        i = i + 1;
    }
    proof {
        assert(cmds_view(cmds@).take(cmds@.len() as int) =~= cmds_view(cmds@));
    }
    let mut o3 = String::new();
    o3.append("3 0 obj\n<< /Type /Page /Parent 2 0 R /MediaBox [0 0 ");
    o3.append(int_string(page_w).as_str());
    o3.append(" ");
    o3.append(int_string(page_h).as_str());
    o3.append("] /Contents 4 0 R >>\nendobj\n");
    let mut o4 = String::new();
    o4.append("4 0 obj\n<< /Length ");
    o4.append(dec_string(content.as_str().unicode_len() as u64).as_str());
    o4.append(" >>\nstream\n");
    o4.append(content.as_str());
    o4.append("endstream\nendobj\n");
    let mut out = String::new();
    out.append("%PDF-1.4\n");
    let off1: u64 = out.as_str().unicode_len() as u64;
    out.append("1 0 obj\n<< /Type /Catalog /Pages 2 0 R >>\nendobj\n");
    let off2: u64 = out.as_str().unicode_len() as u64;
    out.append("2 0 obj\n<< /Type /Pages /Kids [3 0 R] /Count 1 >>\nendobj\n");
    let off3: u64 = out.as_str().unicode_len() as u64;
    out.append(o3.as_str());
    let off4: u64 = out.as_str().unicode_len() as u64;
    out.append(o4.as_str());
    let startxref: u64 = out.as_str().unicode_len() as u64;
    out.append("xref\n0 5\n0000000000 65535 f \n");
    out.append(pad10_string(off1).as_str());
    out.append(" 00000 n \n");
    out.append(pad10_string(off2).as_str());
    out.append(" 00000 n \n");
    out.append(pad10_string(off3).as_str());
    out.append(" 00000 n \n");
    out.append(pad10_string(off4).as_str());
    out.append(" 00000 n \n");
    out.append("trailer\n<< /Size 5 /Root 1 0 R >>\nstartxref\n");
    out.append(dec_string(startxref).as_str());
    out.append("\n%%EOF\n");
    proof {
        assert(out@ =~= pdf_chars(cmds_view(cmds@), page_w as int, page_h as int));
    }
    out
}

} // verus!
