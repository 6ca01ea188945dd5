//! Building blocks of error reports: file links and labelled excerpts.

use colored::Colorize;
use vstd::prelude::*;

verus! {

/// The decimal digits of `n`.
pub open spec fn decimal(n: nat) -> Seq<u8>
    decreases n,
{
    if n < 10 {
        seq![(48 + n) as u8]
    } else {
        decimal(n / 10) + seq![(48 + n % 10) as u8]
    }
}

/// Appends the decimal digits of `n` to `out`.
pub fn push_decimal(out: &mut Vec<u8>, n: usize)
    ensures
        final(out)@ == old(out)@ + decimal(n as nat),
    decreases n,
{
    if n >= 10 {
        push_decimal(out, n / 10);
    }
    out.push((48 + n % 10) as u8);
    proof {
        if n >= 10 {
            assert(final(out)@ =~= old(out)@ + decimal(n as nat));
        }
    }
}

/// Appends all of `s` to `out`.
pub fn push_all(out: &mut Vec<u8>, s: &[u8])
    ensures
        final(out)@ == old(out)@ + s@,
{
    let n = s.len();
    let mut k: usize = 0;
    while k < n
        invariant
            n == s@.len(),
            k <= n,
            out@ == old(out)@ + s@.subrange(0, k as int),
        decreases n - k,
    {
        out.push(s[k]);
        proof {
            assert(out@ =~= old(out)@ + s@.subrange(0, k + 1));
        }
        k = k + 1;
    }
    proof {
        assert(s@.subrange(0, n as int) =~= s@);
    }
}

/// The separator between a line label and its text: a bare bar.
pub open spec fn plain_bar() -> Seq<u8> {
    seq![124u8]
}

/// The separator as bold cyan terminal text: the escape sequence for bold
/// cyan, the bar, and the escape sequence that resets the style.
pub open spec fn colored_bar() -> Seq<u8> {
    seq![27u8, 91u8, 49u8, 59u8, 51u8, 54u8, 109u8, 124u8, 27u8, 91u8, 48u8, 109u8]
}

/// A separator as the terminal settings allow it.
pub open spec fn is_bar(s: Seq<u8>) -> bool {
    s == plain_bar() || s == colored_bar()
}

/// Relies on colored's `Display` for `ColoredString`: `"|".cyan().bold()`
/// prints the bare bar when colouring is off (by the environment or the
/// terminal), and otherwise the bar between `ESC[1;36m` and `ESC[0m`.
#[verifier::external_body]
pub(crate) fn separator() -> (r: Vec<u8>)
    ensures
        is_bar(r@),
{
    "|".cyan().bold().to_string().into_bytes()
}

/// `--> PATH:LINE`
pub open spec fn link_text(rel_path: Seq<u8>, line: nat) -> Seq<u8> {
    seq![45u8, 45u8, 62u8, 32u8] + rel_path + seq![58u8] + decimal(line)
}

/// A reference to a line of a file: `--> PATH:LINE`.
pub fn fmt_link(rel_path: &[u8], line: usize) -> (r: Vec<u8>)
    ensures
        r@ == link_text(rel_path@, line as nat),
{
    let mut r: Vec<u8> = vec![45u8, 45u8, 62u8, 32u8];
    push_all(&mut r, rel_path);
    r.push(58u8);
    push_decimal(&mut r, line);
    r
}

/// The width of the widest label among the first `n` lines.
pub open spec fn max_label(ls: Seq<(Seq<u8>, Seq<u8>)>, n: int) -> nat
    decreases n,
{
    if n <= 0 {
        0
    } else {
        let m = max_label(ls, n - 1);
        if ls[n - 1].0.len() > m {
            ls[n - 1].0.len()
        } else {
            m
        }
    }
}

pub open spec fn spaces(n: int) -> Seq<u8> {
    Seq::new(if n > 0 { n as nat } else { 0 }, |_i: int| 32u8)
}

/// One excerpt line: a space, the label right-aligned to `width` and a
/// space (unless every label is empty), the separator, a space, the text.
pub open spec fn source_line(label: Seq<u8>, content: Seq<u8>, width: nat, sep: Seq<u8>) -> Seq<u8> {
    seq![32u8] + (if width != 0 {
        spaces(width - label.len()) + label + seq![32u8]
    } else {
        seq![]
    }) + sep + seq![32u8] + content
}

/// The first `n` excerpt lines, joined by line feeds.
pub open spec fn source_text(ls: Seq<(Seq<u8>, Seq<u8>)>, n: int, width: nat, sep: Seq<u8>) -> Seq<u8>
    decreases n,
{
    if n <= 0 {
        seq![]
    } else if n == 1 {
        source_line(ls[0].0, ls[0].1, width, sep)
    } else {
        source_text(ls, n - 1, width, sep) + seq![10u8] + source_line(ls[n - 1].0, ls[n - 1].1, width, sep)
    }
}

/// The whole excerpt of labelled lines.
pub open spec fn source_block(ls: Seq<(Seq<u8>, Seq<u8>)>, sep: Seq<u8>) -> Seq<u8> {
    source_text(ls, ls.len() as int, max_label(ls, ls.len() as int), sep)
}

pub open spec fn lines_view(v: Seq<(Vec<u8>, Vec<u8>)>) -> Seq<(Seq<u8>, Seq<u8>)> {
    v.map_values(|p: (Vec<u8>, Vec<u8>)| (p.0@, p.1@))
}

proof fn lemma_max_label(ls: Seq<(Seq<u8>, Seq<u8>)>, n: int, k: int)
    requires
        0 <= k < n <= ls.len(),
    ensures
        ls[k].0.len() <= max_label(ls, n),
    decreases n,
{
    if k < n - 1 {
        lemma_max_label(ls, n - 1, k);
    }
}

/// An excerpt of labelled lines (a label is a line number, or empty), with
/// `sep` between each label and its text.
pub fn fmt_source_with(lines: &Vec<(Vec<u8>, Vec<u8>)>, sep: &[u8]) -> (r: Vec<u8>)
    ensures
        r@ == source_block(lines_view(lines@), sep@),
{
    let ghost ls = lines_view(lines@);
    let n = lines.len();
    let mut width: usize = 0;
    let mut k: usize = 0;
    while k < n
        invariant
            n == lines@.len(),
            ls == lines_view(lines@),
            k <= n,
            width as nat == max_label(ls, k as int),
        decreases n - k,
    {
        let w = lines[k].0.len();
        if w > width {
            width = w;
        }
        k = k + 1;
    }
    let mut s: Vec<u8> = Vec::new();
    let mut k: usize = 0;
    while k < n
        invariant
            n == lines@.len(),
            ls == lines_view(lines@),
            k <= n,
            width as nat == max_label(ls, n as int),
            s@ == source_text(ls, k as int, width as nat, sep@),
        decreases n - k,
    {
        let label = lines[k].0.as_slice();
        let content = lines[k].1.as_slice();
        proof {
            lemma_max_label(ls, n as int, k as int);
            assert(ls[k as int] == (label@, content@));
        }
        let ghost before = s@;
        if k != 0 {
            s.push(10u8);
        }
        s.push(32u8);
        if width != 0 {
            let mut pad = label.len();
            while pad < width
                invariant
                    label@.len() <= pad <= width,
                    s@ == before + (if k != 0 { seq![10u8] } else { seq![] }) + seq![32u8] + spaces(
                        pad - label@.len(),
                    ),
                decreases width - pad,
            {
                s.push(32u8);
                pad = pad + 1;
                proof {
                    assert(spaces(pad - label@.len()) =~= spaces(pad - 1 - label@.len()) + seq![32u8]);
                }
            }
            push_all(&mut s, label);
            s.push(32u8);
        }
        push_all(&mut s, sep);
        s.push(32u8);
        push_all(&mut s, content);
        proof {
            let line = source_line(label@, content@, width as nat, sep@);
            if k == 0 {
                assert(s@ =~= line);
            } else {
                assert(s@ =~= before + seq![10u8] + line);
            }
        }
        k = k + 1;
    }
    s
}

/// An excerpt of labelled lines, with the separator as the terminal allows.
pub fn fmt_source(lines: &Vec<(Vec<u8>, Vec<u8>)>) -> (r: Vec<u8>)
    ensures
        exists|sep: Seq<u8>| is_bar(sep) && r@ == source_block(lines_view(lines@), sep),
{
    let sep = separator();
    fmt_source_with(lines, sep.as_slice())
}

} // verus!
